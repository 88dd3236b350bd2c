# segterm

A text terminal for a linear framebuffer, verified with Verus.

- `src/color.rs`: RGBA colours and the named palette.
- `src/ansi.rs`: a streaming parser for SGR (`ESC [ ... m`) and cursor
  position (`ESC [ ... H`) sequences, specified as a step function.
- `src/font.rs`: bitmap fonts, one byte per glyph row.
- `src/fb.rs`: the framebuffer: pixel encoding, an optional back buffer,
  presenting, clearing and scrolling, over byte buffers.
- `src/term.rs`: the terminal: drawing glyphs, line feeds, wrapping,
  scrolling, colours and cursor moves, specified over whole texts.
- `src/allocator.rs`: the decision step of a lock-free bump allocator.
- `app/lib.rs`: the machine side: the kernel heap, the bootloader's
  framebuffer, `core::fmt` output, the global allocator and the demo kernel.
