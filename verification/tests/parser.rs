use segterm::ansi::Action;
use segterm::ansi::Parser;

fn feed(p: &mut Parser, bytes: &[u8]) -> Vec<Option<Action>> {
    let mut out = Vec::new();
    for &b in bytes {
        out.push(p.advance(b));
    }
    out
}

fn sgr_of(a: Option<Action>) -> (Vec<u16>, usize) {
    match a {
        Some(Action::Sgr { params, len }) => (params[..len].to_vec(), len),
        other => panic!("expected an SGR action, got {:?}", other),
    }
}

#[test]
fn ground_bytes_are_printed_unchanged() {
    let mut p = Parser::new();
    for b in [b'A', b'z', b'\n', b'\r', 0u8, 0xff] {
        match p.advance(b) {
            Some(Action::Print(x)) => assert_eq!(x, b),
            other => panic!("expected Print, got {:?}", other),
        }
    }
}

#[test]
fn sgr_with_one_parameter() {
    let mut p = Parser::new();
    let out = feed(&mut p, b"\x1b[31");
    assert!(out.iter().all(|a| a.is_none()));
    let (params, len) = sgr_of(p.advance(b'm'));
    assert_eq!(len, 1);
    assert_eq!(params, vec![31]);
    // back in the ground state
    assert!(matches!(p.advance(b'x'), Some(Action::Print(b'x'))));
}

#[test]
fn sgr_with_several_parameters() {
    let mut p = Parser::new();
    let mut out = feed(&mut p, b"\x1b[1;32;40m");
    let (params, len) = sgr_of(out.pop().unwrap());
    assert_eq!(len, 3);
    assert_eq!(params, vec![1, 32, 40]);
}

#[test]
fn empty_sgr_has_a_zero_parameter() {
    let mut p = Parser::new();
    let mut out = feed(&mut p, b"\x1b[m");
    let (params, len) = sgr_of(out.pop().unwrap());
    assert_eq!(len, 1);
    assert_eq!(params, vec![0]);
}

#[test]
fn numbers_saturate_at_u16_max() {
    let mut p = Parser::new();
    let mut out = feed(&mut p, b"\x1b[99999999m");
    let (params, _) = sgr_of(out.pop().unwrap());
    assert_eq!(params, vec![65535]);
    let mut out = feed(&mut p, b"\x1b[65535m");
    let (params, _) = sgr_of(out.pop().unwrap());
    assert_eq!(params, vec![65535]);
    let mut out = feed(&mut p, b"\x1b[65534m");
    let (params, _) = sgr_of(out.pop().unwrap());
    assert_eq!(params, vec![65534]);
}

#[test]
fn at_most_sixteen_parameters_are_kept() {
    let mut p = Parser::new();
    let mut seq = b"\x1b[".to_vec();
    for i in 0..20 {
        seq.extend_from_slice(format!("{};", i).as_bytes());
    }
    seq.push(b'm');
    let mut out = feed(&mut p, &seq);
    let (params, len) = sgr_of(out.pop().unwrap());
    assert_eq!(len, 16);
    assert_eq!(params, (0..16).collect::<Vec<u16>>());
}

#[test]
fn cursor_position_keeps_only_terminated_parameters() {
    // 'H' does not store the parameter being read when it arrives.
    let mut p = Parser::new();
    let mut out = feed(&mut p, b"\x1b[5;7H");
    match out.pop().unwrap() {
        Some(Action::CursorPosition { params, len }) => {
            assert_eq!(len, 1);
            assert_eq!(params[0], 5);
        },
        other => panic!("expected a cursor position, got {:?}", other),
    }
    let mut out = feed(&mut p, b"\x1b[5;7;H");
    match out.pop().unwrap() {
        Some(Action::CursorPosition { params, len }) => {
            assert_eq!(len, 2);
            assert_eq!(&params[..2], &[5, 7]);
        },
        other => panic!("expected a cursor position, got {:?}", other),
    }
}

#[test]
fn unknown_final_byte_is_dropped() {
    let mut p = Parser::new();
    let out = feed(&mut p, b"\x1b[5X");
    assert!(out.iter().all(|a| a.is_none()));
    assert!(matches!(p.advance(b'A'), Some(Action::Print(b'A'))));
}

#[test]
fn escape_without_bracket_is_dropped() {
    let mut p = Parser::new();
    assert!(p.advance(0x1b).is_none());
    assert!(p.advance(b'A').is_none());
    assert!(matches!(p.advance(b'B'), Some(Action::Print(b'B'))));
}

#[test]
fn new_sequence_resets_parameters() {
    let mut p = Parser::new();
    let _ = feed(&mut p, b"\x1b[1;2;3m");
    let mut out = feed(&mut p, b"\x1b[4m");
    let (params, len) = sgr_of(out.pop().unwrap());
    assert_eq!(len, 1);
    assert_eq!(params, vec![4]);
}
