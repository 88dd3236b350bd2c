use vstd::prelude::*;

verus! {

/// Number of numeric parameters a control sequence can carry.
pub const MAX_PARAMS: usize = 16;

/// The byte that starts an escape sequence.
pub const ESC: u8 = 0x1b;

/// Where the parser stands within an escape sequence.
#[derive(Debug, Clone, Copy, PartialEq, Eq, Structural)]
pub enum State {
    /// Plain text.
    Ground,
    /// An escape byte was read.
    Escape,
    /// Inside a control sequence (`ESC [`).
    Csi,
}

/// A streaming parser for the subset of ANSI escape sequences the terminal
/// understands: SGR (`ESC [ ... m`) and cursor position (`ESC [ ... H`).
pub struct Parser {
    state: State,
    params: [u16; 16],
    params_len: usize,
    current: u16,
}

/// What a byte fed to the parser asks the terminal to do.
#[derive(Debug, Clone, Copy)]
pub enum Action {
    /// Show this byte.
    Print(u8),
    /// Select graphic rendition; the first `len` entries of `params` count.
    Sgr { params: [u16; 16], len: usize },
    /// Move the cursor; the first `len` entries of `params` count.
    CursorPosition { params: [u16; 16], len: usize },
}

/// The parser's state as mathematical values.
pub struct ParserView {
    pub state: State,
    pub params: Seq<u16>,
    pub params_len: nat,
    pub current: u16,
}

/// An action, with its parameter array as a sequence.
pub enum ActionView {
    Print(u8),
    Sgr { params: Seq<u16>, len: nat },
    CursorPosition { params: Seq<u16>, len: nat },
}

impl View for Parser {
    type V = ParserView;

    closed spec fn view(&self) -> ParserView {
        ParserView {
            state: self.state,
            params: self.params@,
            params_len: self.params_len as nat,
            current: self.current,
        }
    }
}

impl Action {
    pub open spec fn view(self) -> ActionView {
        match self {
            Action::Print(b) => ActionView::Print(b),
            Action::Sgr { params, len } => ActionView::Sgr { params: params@, len: len as nat },
            Action::CursorPosition { params, len } => ActionView::CursorPosition {
                params: params@,
                len: len as nat,
            },
        }
    }
}

/// The view of an optional action.
pub open spec fn action_view(a: Option<Action>) -> Option<ActionView> {
    match a {
        Some(a) => Some(a.view()),
        None => None,
    }
}

/// Whether a parser view is one that a `Parser` can be in.
pub open spec fn parser_valid(p: ParserView) -> bool {
    p.params.len() == MAX_PARAMS && p.params_len <= MAX_PARAMS
}

pub open spec fn is_digit(b: u8) -> bool {
    0x30 <= b <= 0x39
}

/// Appending a decimal digit to a number, saturating at `u16::MAX`.
pub open spec fn push_digit(current: u16, digit: u8) -> u16 {
    let v = current * 10 + (digit - 0x30);
    if v > u16::MAX {
        u16::MAX
    } else {
        v as u16
    }
}

/// Ends the current parameter: it is stored if there is room left.
pub open spec fn push_param(p: ParserView) -> ParserView {
    if p.params_len < MAX_PARAMS {
        ParserView {
            params: p.params.update(p.params_len as int, p.current),
            params_len: p.params_len + 1,
            ..p
        }
    } else {
        p
    }
}

/// One step of the parser: the next state and the action for the byte.
pub open spec fn step(p: ParserView, byte: u8) -> (ParserView, Option<ActionView>) {
    match p.state {
        State::Ground => {
            if byte == ESC {
                (ParserView { state: State::Escape, ..p }, None)
            } else {
                (p, Some(ActionView::Print(byte)))
            }
        },
        State::Escape => {
            if byte == 0x5b {
                (ParserView { state: State::Csi, params_len: 0, current: 0, ..p }, None)
            } else {
                (ParserView { state: State::Ground, ..p }, None)
            }
        },
        State::Csi => {
            if is_digit(byte) {
                (ParserView { current: push_digit(p.current, byte), ..p }, None)
            } else if byte == 0x3b {
                (ParserView { current: 0, ..push_param(p) }, None)
            } else if byte == 0x6d {
                let q = push_param(p);
                (
                    ParserView { state: State::Ground, ..q },
                    Some(ActionView::Sgr { params: q.params, len: q.params_len }),
                )
            } else if byte == 0x48 {
                (
                    ParserView { state: State::Ground, ..p },
                    Some(ActionView::CursorPosition { params: p.params, len: p.params_len }),
                )
            } else {
                (ParserView { state: State::Ground, ..p }, None)
            }
        },
    }
}

/// The decimal value of a string of digits.
pub open spec fn decimal_value(digits: Seq<u8>) -> nat
    decreases digits.len(),
{
    if digits.len() == 0 {
        0
    } else {
        (10 * decimal_value(digits.drop_last()) + (digits.last() - 0x30)) as nat
    }
}

/// The parser state after feeding `bytes` one by one.
pub open spec fn run(p: ParserView, bytes: Seq<u8>) -> ParserView
    decreases bytes.len(),
{
    if bytes.len() == 0 {
        p
    } else {
        step(run(p, bytes.drop_last()), bytes.last()).0
    }
}

/// Inside a control sequence, a run of digits accumulates their decimal
/// value, saturating at `u16::MAX`, and completes no action.
pub proof fn lemma_digits_accumulate(p: ParserView, digits: Seq<u8>)
    requires
        p.state == State::Csi,
        p.current == 0,
        forall|i: int| 0 <= i < digits.len() ==> is_digit(#[trigger] digits[i]),
    ensures
        run(p, digits) == (ParserView {
            current: if decimal_value(digits) > u16::MAX {
                u16::MAX
            } else {
                decimal_value(digits) as u16
            },
            ..p
        }),
        forall|i: int| 0 <= i < digits.len() ==> #[trigger] step(run(p, digits.take(i)), digits[i]).1 is None,
    decreases digits.len(),
{
    if digits.len() > 0 {
        let init = digits.drop_last();
        assert forall|i: int| 0 <= i < init.len() implies is_digit(#[trigger] init[i]) by {
            assert(init[i] == digits[i]);
        }
        lemma_digits_accumulate(p, init);
        assert forall|i: int| 0 <= i < digits.len() implies #[trigger] step(run(p, digits.take(i)), digits[i]).1 is None by {
            if i < init.len() {
                assert(digits.take(i) =~= init.take(i));
                assert(init[i] == digits[i]);
            } else {
                assert(digits.take(i) =~= init);
            }
        }
    }
}

/// A complete SGR sequence `ESC [ digits m` read in the ground state yields
/// one SGR action whose single parameter is the digits' value (saturating at
/// `u16::MAX`), and leaves the parser in the ground state.
pub proof fn lemma_sgr_sequence(p: ParserView, digits: Seq<u8>)
    requires
        parser_valid(p),
        p.state == State::Ground,
        forall|i: int| 0 <= i < digits.len() ==> is_digit(#[trigger] digits[i]),
    ensures
        ({
            let value: u16 = if decimal_value(digits) > u16::MAX {
                u16::MAX
            } else {
                decimal_value(digits) as u16
            };
            let q = run(p, seq![ESC, 0x5bu8] + digits);
            &&& step(q, 0x6d).0.state == State::Ground
            &&& step(q, 0x6d).1 matches Some(ActionView::Sgr { params, len }) && len == 1
                && params[0] == value
        }),
{
    let prefix = seq![ESC, 0x5bu8];
    let p1 = step(p, ESC).0;
    let p2 = step(p1, 0x5b).0;
    assert(prefix.drop_last() =~= seq![ESC]);
    assert(seq![ESC].drop_last() =~= Seq::<u8>::empty());
    assert(run(p, Seq::<u8>::empty()) == p);
    assert(run(p, seq![ESC]) == p1);
    assert(run(p, prefix) == p2);
    lemma_run_concat(p, prefix, digits);
    lemma_digits_accumulate(p2, digits);
}

/// The parameter a string of digits gives: its decimal value, saturating at
/// `u16::MAX`.
pub open spec fn param_value(digits: Seq<u8>) -> u16 {
    if decimal_value(digits) > u16::MAX {
        u16::MAX
    } else {
        decimal_value(digits) as u16
    }
}

/// Digit groups, each followed by `;`, one after another.
pub open spec fn terminated_groups(groups: Seq<Seq<u8>>) -> Seq<u8>
    decreases groups.len(),
{
    if groups.len() == 0 {
        Seq::empty()
    } else {
        terminated_groups(groups.drop_last()) + groups.last() + seq![0x3bu8]
    }
}

/// Every byte of every group is a decimal digit.
pub open spec fn digit_groups(groups: Seq<Seq<u8>>) -> bool {
    forall|g: int, i: int|
        0 <= g < groups.len() && 0 <= i < groups[g].len() ==> is_digit(#[trigger] groups[g][i])
}

proof fn lemma_groups_stored(p: ParserView, groups: Seq<Seq<u8>>)
    requires
        parser_valid(p),
        p.state == State::Csi,
        p.current == 0,
        p.params_len + groups.len() <= MAX_PARAMS,
        digit_groups(groups),
    ensures
        ({
            let q = run(p, terminated_groups(groups));
            &&& parser_valid(q)
            &&& q.state == State::Csi
            &&& q.current == 0
            &&& q.params_len == p.params_len + groups.len()
            &&& forall|i: int| 0 <= i < p.params_len ==> #[trigger] q.params[i] == p.params[i]
            &&& forall|g: int|
                0 <= g < groups.len() ==> q.params[p.params_len + g] == param_value(
                    #[trigger] groups[g],
                )
        }),
    decreases groups.len(),
{
    if groups.len() > 0 {
        let init = groups.drop_last();
        let last = groups.last();
        let n = init.len();
        assert forall|g: int, i: int| 0 <= g < init.len() && 0 <= i < init[g].len() implies is_digit(
            #[trigger] init[g][i],
        ) by {
            assert(init[g] == groups[g]);
        }
        assert forall|i: int| 0 <= i < last.len() implies is_digit(#[trigger] last[i]) by {
            assert(last == groups[n as int]);
        }
        lemma_groups_stored(p, init);
        let t0 = terminated_groups(init);
        let q0 = run(p, t0);
        lemma_run_concat(p, t0, last);
        lemma_digits_accumulate(q0, last);
        let q1 = run(q0, last);
        let s = t0 + last + seq![0x3bu8];
        assert(s.drop_last() =~= t0 + last);
        assert(run(p, s) == step(q1, 0x3b).0);
        let q = run(p, s);
        assert(q1.params_len == p.params_len + n);
        assert(q.params == q1.params.update((p.params_len + n) as int, param_value(last)));
        assert forall|g: int| 0 <= g < groups.len() implies q.params[p.params_len + g]
            == param_value(#[trigger] groups[g]) by {
            if g < n {
                assert(init[g] == groups[g]);
            }
        }
    }
}

/// A control sequence `ESC [ g0 ; g1 ; ... ; gk ;` read in the ground state,
/// with at most sixteen digit groups each ended by `;`, followed by `H`,
/// yields one cursor-position action whose parameters are the groups'
/// values in order. Followed instead by one more digit group and `m`, it
/// yields one SGR action with the groups' values in order and, when there
/// is room for it, the extra group's value last. Either way the parser ends
/// in the ground state.
pub proof fn lemma_csi_parameters_in_order(p: ParserView, groups: Seq<Seq<u8>>, last: Seq<u8>)
    requires
        parser_valid(p),
        p.state == State::Ground,
        groups.len() <= MAX_PARAMS,
        digit_groups(groups),
        forall|i: int| 0 <= i < last.len() ==> is_digit(#[trigger] last[i]),
    ensures
        ({
            let q = run(p, seq![ESC, 0x5bu8] + terminated_groups(groups));
            let r = run(q, last);
            &&& step(q, 0x48).0.state == State::Ground
            &&& step(q, 0x48).1 matches Some(ActionView::CursorPosition { params, len }) && len
                == groups.len() && forall|g: int|
                0 <= g < len ==> params[g] == param_value(#[trigger] groups[g])
            &&& step(r, 0x6d).0.state == State::Ground
            &&& step(r, 0x6d).1 matches Some(ActionView::Sgr { params, len }) && (groups.len()
                < MAX_PARAMS ==> len == groups.len() + 1 && params[groups.len() as int]
                == param_value(last)) && (groups.len() == MAX_PARAMS ==> len == MAX_PARAMS)
                && forall|g: int| 0 <= g < groups.len() ==> params[g] == param_value(
                #[trigger] groups[g],
            )
        }),
{
    let prefix = seq![ESC, 0x5bu8];
    let p1 = step(p, ESC).0;
    let p2 = step(p1, 0x5b).0;
    assert(prefix.drop_last() =~= seq![ESC]);
    assert(seq![ESC].drop_last() =~= Seq::<u8>::empty());
    assert(run(p, Seq::<u8>::empty()) == p);
    assert(run(p, seq![ESC]) == p1);
    assert(run(p, prefix) == p2);
    lemma_run_concat(p, prefix, terminated_groups(groups));
    lemma_groups_stored(p2, groups);
    let q = run(p, prefix + terminated_groups(groups));
    lemma_digits_accumulate(q, last);
}

/// Bytes outside SGR and cursor-position sequences: in plain text every byte
/// but ESC is printed as it is and ESC prints nothing and opens an escape;
/// after ESC, `[` opens a control sequence with no parameters so far and any
/// other byte is dropped; inside a control sequence a byte other than a
/// digit, `;`, `m` or `H` ends it with no action. The parser is back in
/// plain text after a dropped byte.
pub proof fn lemma_bytes_outside_sequences(p: ParserView, b: u8)
    ensures
        p.state == State::Ground && b != ESC ==> step(p, b) == (p, Some(ActionView::Print(b))),
        p.state == State::Ground && b == ESC ==> step(p, b).1 is None && step(p, b).0.state
            == State::Escape,
        p.state == State::Escape && b == 0x5b ==> step(p, b).1 is None && step(p, b).0.state
            == State::Csi && step(p, b).0.params_len == 0 && step(p, b).0.current == 0,
        p.state == State::Escape && b != 0x5b ==> step(p, b).1 is None && step(p, b).0.state
            == State::Ground,
        p.state == State::Csi && !(0x30 <= b <= 0x39) && b != 0x3b && b != 0x6d && b != 0x48
            ==> step(p, b).1 is None && step(p, b).0.state == State::Ground,
{
}

/// Feeding two byte strings one after the other is feeding their
/// concatenation.
pub proof fn lemma_run_concat(p: ParserView, a: Seq<u8>, b: Seq<u8>)
    ensures
        run(p, a + b) == run(run(p, a), b),
    decreases b.len(),
{
    if b.len() == 0 {
        assert(a + b =~= a);
    } else {
        lemma_run_concat(p, a, b.drop_last());
        assert((a + b).drop_last() =~= a + b.drop_last());
    }
}

/// Two parser states that behave alike on every input: the same state and,
/// inside a control sequence, the same parameters so far.
pub open spec fn parser_equiv(p: ParserView, q: ParserView) -> bool {
    &&& p.state == q.state
    &&& p.state == State::Csi ==> {
        &&& p.params_len == q.params_len
        &&& p.current == q.current
        &&& p.params.take(p.params_len as int) == q.params.take(q.params_len as int)
    }
}

/// Two actions with the same meaning: the same kind, byte, count and counted
/// parameters.
pub open spec fn action_equiv(a: Option<ActionView>, b: Option<ActionView>) -> bool {
    match (a, b) {
        (None, None) => true,
        (Some(ActionView::Print(x)), Some(ActionView::Print(y))) => x == y,
        (Some(ActionView::Sgr { params: p1, len: l1 }), Some(ActionView::Sgr { params: p2, len: l2 })) => {
            l1 == l2 && p1.take(l1 as int) == p2.take(l2 as int)
        },
        (
            Some(ActionView::CursorPosition { params: p1, len: l1 }),
            Some(ActionView::CursorPosition { params: p2, len: l2 }),
        ) => l1 == l2 && p1.take(l1 as int) == p2.take(l2 as int),
        _ => false,
    }
}

/// A step keeps a parser state valid.
pub proof fn lemma_step_valid(p: ParserView, byte: u8)
    requires
        parser_valid(p),
    ensures
        parser_valid(step(p, byte).0),
{
}

/// Running keeps a parser state valid.
pub proof fn lemma_run_valid(p: ParserView, bytes: Seq<u8>)
    requires
        parser_valid(p),
    ensures
        parser_valid(run(p, bytes)),
    decreases bytes.len(),
{
    if bytes.len() > 0 {
        lemma_run_valid(p, bytes.drop_last());
        lemma_step_valid(run(p, bytes.drop_last()), bytes.last());
    }
}

/// Equivalent parser states step to equivalent states with equivalent actions.
pub proof fn lemma_step_equiv(p: ParserView, q: ParserView, byte: u8)
    requires
        parser_valid(p),
        parser_valid(q),
        parser_equiv(p, q),
    ensures
        parser_equiv(step(p, byte).0, step(q, byte).0),
        action_equiv(step(p, byte).1, step(q, byte).1),
{
    if p.state == State::Escape && byte == 0x5b {
        assert(p.params.take(0) =~= q.params.take(0));
    }
    if p.state == State::Csi && (byte == 0x3b || byte == 0x6d) {
        let p1 = push_param(p);
        let q1 = push_param(q);
        let l = p.params_len as int;
        if l < MAX_PARAMS {
            assert(p1.params.take(l + 1) =~= p.params.take(l).push(p.current));
            assert(q1.params.take(l + 1) =~= q.params.take(l).push(q.current));
        }
    }
}

/// Equivalent parser states stay equivalent along the same input.
pub proof fn lemma_run_equiv(p: ParserView, q: ParserView, bytes: Seq<u8>)
    requires
        parser_valid(p),
        parser_valid(q),
        parser_equiv(p, q),
    ensures
        parser_equiv(run(p, bytes), run(q, bytes)),
        parser_valid(run(p, bytes)),
        parser_valid(run(q, bytes)),
    decreases bytes.len(),
{
    lemma_run_valid(p, bytes);
    lemma_run_valid(q, bytes);
    if bytes.len() > 0 {
        lemma_run_equiv(p, q, bytes.drop_last());
        lemma_step_equiv(run(p, bytes.drop_last()), run(q, bytes.drop_last()), bytes.last());
    }
}

impl Parser {
    #[verifier::type_invariant]
    spec fn inv(self) -> bool {
        self.params_len <= MAX_PARAMS
    }

    /// A parser in the ground state with no parameters.
    pub fn new() -> (p: Self)
        ensures
            p@.state == State::Ground,
            p@.params == Seq::new(16, |i: int| 0u16),
            p@.params_len == 0,
            p@.current == 0,
            parser_valid(p@),
    {
        let p = Self { state: State::Ground, params: [0; 16], params_len: 0, current: 0 };
        assert(p.params@ =~= Seq::new(16, |i: int| 0u16));
        p
    }

    /// Feeds one byte; returns the action it completes, if any.
    pub fn advance(&mut self, byte: u8) -> (r: Option<Action>)
        ensures
            (final(self)@, action_view(r)) == step(old(self)@, byte),
            parser_valid(final(self)@),
    {
        proof {
            use_type_invariant(&*self);
        }
        match self.state {
            State::Ground => {
                if byte == ESC {
                    self.state = State::Escape;
                    None
                } else {
                    Some(Action::Print(byte))
                }
            },
            State::Escape => {
                if byte == 0x5b {
                    self.state = State::Csi;
                    self.params_len = 0;
                    self.current = 0;
                } else {
                    self.state = State::Ground;
                }
                None
            },
            State::Csi => {
                if 0x30 <= byte && byte <= 0x39 {
                    let scaled: u16 = match self.current.checked_mul(10) {
                        Some(v) => v,
                        None => u16::MAX,
                    };
                    self.current = scaled.saturating_add((byte - 0x30) as u16);
                    None
                } else if byte == 0x3b {
                    self.store_param();
                    self.current = 0;
                    None
                } else if byte == 0x6d {
                    self.store_param();
                    self.state = State::Ground;
                    Some(Action::Sgr { params: self.params, len: self.params_len })
                } else if byte == 0x48 {
                    self.state = State::Ground;
                    Some(Action::CursorPosition { params: self.params, len: self.params_len })
                } else {
                    self.state = State::Ground;
                    None
                }
            },
        }
    }

    fn store_param(&mut self)
        ensures
            final(self)@ == push_param(old(self)@),
    {
        proof {
            use_type_invariant(&*self);
        }
        if self.params_len < MAX_PARAMS {
            self.params[self.params_len] = self.current;
            self.params_len = self.params_len + 1;
        }
    }
}

} // verus!
