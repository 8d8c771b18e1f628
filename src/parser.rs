use vstd::prelude::*;
use vstd::std_specs::iter::IteratorSpec;

verus! {

/// The escape character that opens every mouse report.
pub const ESC: char = '\x1b';

/// Largest button code a report may carry.
pub const MAX_BUTTON: u16 = 65535;

/// Largest coordinate a report may carry.
pub const MAX_COORD: u32 = 4294967295;

/// One mouse report: pixel position, button code, and whether the button was lifted.
#[derive(PartialEq, Eq, Structural, Debug, Clone, Copy)]
pub struct MouseEvent {
    pub x: u32,
    pub y: u32,
    pub button: u16,
    pub release: bool,
}

/// What one attempt to decode a report at the start of a buffer found.
#[derive(PartialEq, Eq, Structural, Debug, Clone, Copy)]
pub enum ParseResult {
    /// The buffer ends before anything can be decided: discard nothing, wait for more.
    Incomplete,
    /// The character at this index breaks the grammar; everything before it fits.
    Bad(usize),
    /// A report was decoded; its terminator stands at this index.
    Complete(usize, MouseEvent),
}

impl ParseResult {
    /// Number of leading characters the caller drops before decoding again.
    pub open spec fn spec_consumed(self) -> nat {
        match self {
            ParseResult::Incomplete => 0,
            ParseResult::Bad(i) => i as nat + 1,
            ParseResult::Complete(i, _) => i as nat + 1,
        }
    }

    /// How many leading characters to discard: none while incomplete, otherwise
    /// everything through the reported index, that index included.
    pub fn consumed(&self) -> (r: usize)
        requires
            self.spec_consumed() <= usize::MAX,
        ensures
            r == self.spec_consumed(),
    {
        match self {
            ParseResult::Incomplete => 0,
            ParseResult::Bad(i) => *i + 1,
            ParseResult::Complete(i, _) => *i + 1,
        }
    }
}

pub open spec fn is_digit(c: char) -> bool {
    48 <= (c as u32) <= 57
}

pub open spec fn digit_value(c: char) -> nat {
    (c as u32 - 48) as nat
}

/// Every character of `d` is a decimal digit.
pub open spec fn all_digits(d: Seq<char>) -> bool {
    forall|j: int| 0 <= j < d.len() ==> is_digit(#[trigger] d[j])
}

/// The number that the decimal digits `d` spell.
pub open spec fn decimal_value(d: Seq<char>) -> nat
    decreases d.len(),
{
    if d.len() == 0 {
        0
    } else {
        decimal_value(d.drop_last()) * 10 + digit_value(d.last())
    }
}

/// First index at or after `i` that holds no digit; `s.len()` when digits run to the end.
pub open spec fn run_end(s: Seq<char>, i: int) -> int
    decreases s.len() - i,
{
    if 0 <= i < s.len() && is_digit(s[i]) {
        run_end(s, i + 1)
    } else {
        i
    }
}

/// What one stage of the grammar makes of the input at a position.
pub enum Scan {
    /// The input ends before the stage can be decided.
    Short,
    /// The character at this index is not accepted.
    Reject(int),
    /// The stage matched; the next stage starts at `next`, and the field read `value`.
    Accept { next: int, value: nat },
}

/// A run of digits starting at `i`, confirmed finished by a following non-digit,
/// whose value is at most `max`; a value over `max` is rejected at the run's last digit.
pub open spec fn scan_number(s: Seq<char>, i: int, max: nat) -> Scan {
    if i >= s.len() {
        Scan::Short
    } else if !is_digit(s[i]) {
        Scan::Reject(i)
    } else if run_end(s, i) >= s.len() {
        Scan::Short
    } else if decimal_value(s.subrange(i, run_end(s, i))) > max {
        Scan::Reject(run_end(s, i) - 1)
    } else {
        Scan::Accept { next: run_end(s, i), value: decimal_value(s.subrange(i, run_end(s, i))) }
    }
}

/// A `;` at `i`, then a number as `scan_number` reads it.
pub open spec fn scan_separated(s: Seq<char>, i: int, max: nat) -> Scan {
    if i >= s.len() {
        Scan::Short
    } else if s[i] != ';' {
        Scan::Reject(i)
    } else {
        scan_number(s, i + 1, max)
    }
}

/// The terminator at `i`: `M` for a press or drag, `m` for a release.
pub open spec fn decode_terminator(s: Seq<char>, i: int, button: nat, x: nat, y: nat) -> ParseResult {
    if i >= s.len() {
        ParseResult::Incomplete
    } else if s[i] == 'M' {
        ParseResult::Complete(
            i as usize,
            MouseEvent { x: x as u32, y: y as u32, button: button as u16, release: false },
        )
    } else if s[i] == 'm' {
        ParseResult::Complete(
            i as usize,
            MouseEvent { x: x as u32, y: y as u32, button: button as u16, release: true },
        )
    } else {
        ParseResult::Bad(i as usize)
    }
}

/// The three numeric fields from index 3 on, then the terminator.
pub open spec fn decode_fields(s: Seq<char>) -> ParseResult {
    match scan_number(s, 3, MAX_BUTTON as nat) {
        Scan::Short => ParseResult::Incomplete,
        Scan::Reject(i) => ParseResult::Bad(i as usize),
        Scan::Accept { next: p, value: b } => match scan_separated(s, p, MAX_COORD as nat) {
            Scan::Short => ParseResult::Incomplete,
            Scan::Reject(i) => ParseResult::Bad(i as usize),
            Scan::Accept { next: q, value: x } => match scan_separated(s, q, MAX_COORD as nat) {
                Scan::Short => ParseResult::Incomplete,
                Scan::Reject(i) => ParseResult::Bad(i as usize),
                Scan::Accept { next: r, value: y } => decode_terminator(s, r, b, x, y),
            },
        },
    }
}

/// What decoding the characters `s` yields, by the grammar
/// `ESC '[' '<' DIGIT+ ';' DIGIT+ ';' DIGIT+ ('M' | 'm')`.
pub open spec fn decode(s: Seq<char>) -> ParseResult {
    if s.len() == 0 {
        ParseResult::Incomplete
    } else if s[0] != ESC {
        ParseResult::Bad(0)
    } else if s.len() == 1 {
        ParseResult::Incomplete
    } else if s[1] != '[' {
        ParseResult::Bad(1)
    } else if s.len() == 2 {
        ParseResult::Incomplete
    } else if s[2] != '<' {
        ParseResult::Bad(2)
    } else {
        decode_fields(s)
    }
}

/// A report as it stands on the wire: the button, x and y digit runs, then the terminator.
pub open spec fn wire(b: Seq<char>, x: Seq<char>, y: Seq<char>, t: char) -> Seq<char> {
    seq![ESC, '[', '<'] + b + seq![';'] + x + seq![';'] + y + seq![t]
}

/// Non-empty digit runs whose values fit their fields, and a terminator `M` or `m`.
pub open spec fn well_formed(b: Seq<char>, x: Seq<char>, y: Seq<char>, t: char) -> bool {
    &&& b.len() > 0 && all_digits(b) && decimal_value(b) <= MAX_BUTTON as nat
    &&& x.len() > 0 && all_digits(x) && decimal_value(x) <= MAX_COORD as nat
    &&& y.len() > 0 && all_digits(y) && decimal_value(y) <= MAX_COORD as nat
    &&& (t == 'M' || t == 'm')
}

pub(crate) proof fn lemma_run_end_at(s: Seq<char>, i: int, e: int)
    requires
        0 <= i <= e <= s.len(),
        forall|j: int| i <= j < e ==> is_digit(#[trigger] s[j]),
        e == s.len() || !is_digit(s[e]),
    ensures
        run_end(s, i) == e,
    decreases e - i,
{
    if i < e {
        lemma_run_end_at(s, i + 1, e);
    }
}

/// A digit run `d` standing at `i` in `s`, followed (if `s` reaches that far) by a non-digit.
proof fn lemma_scan_field(s: Seq<char>, i: int, d: Seq<char>, max: nat)
    requires
        0 <= i <= s.len(),
        d.len() > 0,
        all_digits(d),
        decimal_value(d) <= max,
        forall|j: int| 0 <= j < d.len() && i + j < s.len() ==> s[i + j] == d[j],
        s.len() > i + d.len() ==> !is_digit(s[i + d.len()]),
    ensures
        s.len() <= i + d.len() ==> scan_number(s, i, max) is Short,
        s.len() > i + d.len() ==> scan_number(s, i, max) == (Scan::Accept {
            next: i + d.len(),
            value: decimal_value(d),
        }),
{
    if s.len() > i {
        assert(s[i + 0] == d[0]);
        if s.len() <= i + d.len() {
            assert forall|j: int| i <= j < s.len() implies is_digit(#[trigger] s[j]) by {
                assert(s[i + (j - i)] == d[j - i]);
            }
            lemma_run_end_at(s, i, s.len() as int);
        } else {
            assert forall|j: int| i <= j < i + d.len() implies is_digit(#[trigger] s[j]) by {
                assert(s[i + (j - i)] == d[j - i]);
            }
            lemma_run_end_at(s, i, i + d.len());
            assert forall|j: int| 0 <= j < d.len() implies s.subrange(i, i + d.len())[j] == d[j] by {
                assert(s[i + j] == d[j]);
            }
            assert(s.subrange(i, i + d.len()) =~= d);
        }
    }
}

proof fn lemma_wire_layout(b: Seq<char>, x: Seq<char>, y: Seq<char>, t: char)
    ensures
        ({
            let w = wire(b, x, y, t);
            let p: int = 3 + b.len() as int;
            let q: int = p + 1 + x.len() as int;
            let r: int = q + 1 + y.len() as int;
            &&& w.len() == r + 1
            &&& w[0] == ESC && w[1] == '[' && w[2] == '<'
            &&& forall|j: int| 0 <= j < b.len() ==> w[3 + j] == b[j]
            &&& w[p] == ';'
            &&& forall|j: int| 0 <= j < x.len() ==> w[p + 1 + j] == x[j]
            &&& w[q] == ';'
            &&& forall|j: int| 0 <= j < y.len() ==> w[q + 1 + j] == y[j]
            &&& w[r] == t
        }),
{
    let w = wire(b, x, y, t);
    let s1 = seq![ESC, '[', '<'] + b;
    let s2 = s1 + seq![';'];
    let s3 = s2 + x;
    let s4 = s3 + seq![';'];
    let s5 = s4 + y;
    assert(w == s5 + seq![t]);
    assert forall|j: int| 0 <= j < b.len() implies w[3 + j] == b[j] by {
        assert(s1[3 + j] == b[j]);
    }
    assert forall|j: int| 0 <= j < x.len() implies w[3 + b.len() + 1 + j] == x[j] by {
        assert(s3[s2.len() + j] == x[j]);
    }
    assert forall|j: int| 0 <= j < y.len() implies w[3 + b.len() + 1 + x.len() + 1 + j]
        == y[j] by {
        assert(s5[s4.len() + j] == y[j]);
    }
}

/// Every prefix of a well-formed report that stops before its terminator is incomplete.
pub proof fn lemma_prefix_incomplete(b: Seq<char>, x: Seq<char>, y: Seq<char>, t: char, k: int)
    requires
        well_formed(b, x, y, t),
        0 <= k < wire(b, x, y, t).len(),
    ensures
        decode(wire(b, x, y, t).take(k)) == ParseResult::Incomplete,
{
    let w = wire(b, x, y, t);
    lemma_wire_layout(b, x, y, t);
    let s = w.take(k);
    let p: int = 3 + b.len() as int;
    let q: int = p + 1 + x.len() as int;
    if k > 3 {
        lemma_scan_field(s, 3, b, MAX_BUTTON as nat);
        if k > p {
            if k > p + 1 {
                lemma_scan_field(s, p + 1, x, MAX_COORD as nat);
                if k > q + 1 {
                    lemma_scan_field(s, q + 1, y, MAX_COORD as nat);
                }
            }
        }
    }
}

/// A well-formed report decodes to the event its fields spell, ending at its terminator.
pub proof fn lemma_wire_decodes(b: Seq<char>, x: Seq<char>, y: Seq<char>, t: char)
    requires
        well_formed(b, x, y, t),
    ensures
        decode(wire(b, x, y, t)) == ParseResult::Complete(
            (wire(b, x, y, t).len() - 1) as usize,
            MouseEvent {
                x: decimal_value(x) as u32,
                y: decimal_value(y) as u32,
                button: decimal_value(b) as u16,
                release: t == 'm',
            },
        ),
{
    let w = wire(b, x, y, t);
    lemma_wire_layout(b, x, y, t);
    let p: int = 3 + b.len() as int;
    let q: int = p + 1 + x.len() as int;
    lemma_scan_field(w, 3, b, MAX_BUTTON as nat);
    lemma_scan_field(w, p + 1, x, MAX_COORD as nat);
    lemma_scan_field(w, q + 1, y, MAX_COORD as nat);
}

pub(crate) proof fn lemma_run_end_bounds(s: Seq<char>, a: int)
    requires
        0 <= a,
    ensures
        run_end(s, a) >= a,
        a <= s.len() ==> run_end(s, a) <= s.len(),
        forall|j: int| a <= j < run_end(s, a) ==> is_digit(#[trigger] s[j]),
        run_end(s, a) < s.len() ==> !is_digit(s[run_end(s, a)]),
    decreases s.len() - a,
{
    if a < s.len() && is_digit(s[a]) {
        lemma_run_end_bounds(s, a + 1);
    }
}

proof fn lemma_run_end_agree(s: Seq<char>, t: Seq<char>, a: int, m: int)
    requires
        0 <= a,
        m <= s.len(),
        m <= t.len(),
        forall|j: int| 0 <= j < m ==> s[j] == t[j],
    ensures
        run_end(s, a) < m ==> run_end(t, a) == run_end(s, a),
        a <= m <= run_end(s, a) ==> run_end(t, a) >= m,
    decreases m - a,
{
    lemma_run_end_bounds(s, a);
    lemma_run_end_bounds(t, a);
    if a < m {
        assert(s[a] == t[a]);
        if is_digit(s[a]) {
            lemma_run_end_agree(s, t, a + 1, m);
        }
    }
}

/// A number field is decided once the input reaches its run's end: inputs that agree
/// that far read it alike.
pub(crate) proof fn lemma_scan_agree(s: Seq<char>, t: Seq<char>, a: int, m: int, max: nat)
    requires
        0 <= a,
        m <= s.len(),
        m <= t.len(),
        forall|j: int| 0 <= j < m ==> s[j] == t[j],
    ensures
        run_end(s, a) < m ==> scan_number(t, a, max) == scan_number(s, a, max),
{
    lemma_run_end_agree(s, t, a, m);
    lemma_run_end_bounds(s, a);
    if run_end(s, a) < m {
        assert(s.subrange(a, run_end(s, a)) =~= t.subrange(a, run_end(s, a)));
    }
}

/// A number field whose run reaches the end of a prefix is still undecided there.
proof fn lemma_scan_prefix(s: Seq<char>, a: int, m: int, max: nat)
    requires
        0 <= a,
        0 <= m <= s.len(),
        m <= run_end(s, a),
    ensures
        scan_number(s.take(m), a, max) is Short,
{
    let t = s.take(m);
    lemma_run_end_agree(s, t, a, m);
    lemma_run_end_bounds(t, a);
}

/// Where decoding stops at a bad character: every shorter prefix is still incomplete,
/// and, unless it is the last digit of a number too large for its field, what follows
/// that character never changes the verdict.
pub proof fn lemma_bad_is_first_deviation(s: Seq<char>, i: usize)
    requires
        decode(s) == ParseResult::Bad(i),
        s.len() <= usize::MAX,
    ensures
        i < s.len(),
        forall|j: int| 0 <= j <= i ==> decode(#[trigger] s.take(j)) == ParseResult::Incomplete,
        i < 3 || !is_digit(s[i as int]) ==> forall|u: Seq<char>|
            decode(#[trigger] (s.take(i + 1) + u)) == ParseResult::Bad(i),
{
    lemma_bad_facts(s, i);
    assert forall|j: int| 0 <= j <= i implies decode(#[trigger] s.take(j))
        == ParseResult::Incomplete by {
        lemma_bad_prefix(s, i, j);
    }
    if i < 3 || !is_digit(s[i as int]) {
        assert forall|u: Seq<char>| decode(#[trigger] (s.take(i + 1) + u)) == ParseResult::Bad(
            i,
        ) by {
            let t = s.take(i + 1) + u;
            assert forall|j: int| 0 <= j < i + 1 implies s[j] == t[j] by {
                assert(t[j] == s.take(i + 1)[j]);
            }
            lemma_bad_extension(s, t, i);
        }
    }
}

proof fn lemma_bad_facts(s: Seq<char>, i: usize)
    requires
        decode(s) == ParseResult::Bad(i),
        s.len() <= usize::MAX,
    ensures
        i < s.len(),
        s.len() > 2 && s[0] == ESC && s[1] == '[' && s[2] == '<' ==> i >= 3,
{
    if s.len() > 3 && s[0] == ESC && s[1] == '[' && s[2] == '<' {
        lemma_run_end_bounds(s, 3);
        if let Scan::Accept { next: p, .. } = scan_number(s, 3, MAX_BUTTON as nat) {
            lemma_run_end_bounds(s, p + 1);
            if let Scan::Accept { next: q, .. } = scan_separated(s, p, MAX_COORD as nat) {
                lemma_run_end_bounds(s, q + 1);
            }
        }
    }
}

proof fn lemma_bad_prefix(s: Seq<char>, i: usize, m: int)
    requires
        decode(s) == ParseResult::Bad(i),
        s.len() <= usize::MAX,
        0 <= m <= i,
    ensures
        decode(s.take(m)) == ParseResult::Incomplete,
{
    lemma_bad_facts(s, i);
    let t = s.take(m);
    if m > 3 {
        lemma_run_end_bounds(s, 3);
        lemma_scan_agree(s, t, 3, m, MAX_BUTTON as nat);
        if run_end(s, 3) >= m {
            lemma_scan_prefix(s, 3, m, MAX_BUTTON as nat);
        } else if let Scan::Accept { next: p, .. } = scan_number(s, 3, MAX_BUTTON as nat) {
            if p + 1 < m {
                lemma_run_end_bounds(s, p + 1);
                lemma_scan_agree(s, t, p + 1, m, MAX_COORD as nat);
                if run_end(s, p + 1) >= m {
                    lemma_scan_prefix(s, p + 1, m, MAX_COORD as nat);
                } else if let Scan::Accept { next: q, .. } = scan_separated(
                    s,
                    p,
                    MAX_COORD as nat,
                ) {
                    if q + 1 < m {
                        lemma_run_end_bounds(s, q + 1);
                        lemma_scan_agree(s, t, q + 1, m, MAX_COORD as nat);
                        if run_end(s, q + 1) >= m {
                            lemma_scan_prefix(s, q + 1, m, MAX_COORD as nat);
                        }
                    }
                }
            }
        }
    }
}

proof fn lemma_bad_extension(s: Seq<char>, t: Seq<char>, i: usize)
    requires
        decode(s) == ParseResult::Bad(i),
        i < 3 || !is_digit(s[i as int]),
        i < s.len(),
        s.len() <= usize::MAX,
        i < t.len(),
        forall|j: int| 0 <= j < i + 1 ==> s[j] == t[j],
    ensures
        decode(t) == ParseResult::Bad(i),
{
    let m = i + 1;
    lemma_bad_facts(s, i);
    assert(s[0] == t[0]);
    assert(i > 0 ==> s[1] == t[1]);
    assert(i > 1 ==> s[2] == t[2]);
    if i >= 3 {
        let bmax = MAX_BUTTON as nat;
        let cmax = MAX_COORD as nat;
        lemma_run_end_bounds(s, 3);
        lemma_scan_agree(s, t, 3, m, bmax);
        if let Scan::Accept { next: p, .. } = scan_number(s, 3, bmax) {
            assert(s[p] == t[p]);
            lemma_run_end_bounds(s, p + 1);
            lemma_scan_agree(s, t, p + 1, m, cmax);
            if let Scan::Accept { next: q, .. } = scan_separated(s, p, cmax) {
                lemma_run_end_bounds(s, q + 1);
                assert(s[q] == t[q]);
                lemma_scan_agree(s, t, q + 1, m, cmax);
                if let Scan::Accept { next: r, .. } = scan_separated(s, q, cmax) {
                    assert(s[r] == t[r]);
                }
            }
        }
    }
}

/// Executable counterpart of `Scan`.
enum Lexed {
    Short,
    Reject(usize),
    Accept(usize, u32),
}

impl View for Lexed {
    type V = Scan;

    closed spec fn view(&self) -> Scan {
        match *self {
            Lexed::Short => Scan::Short,
            Lexed::Reject(i) => Scan::Reject(i as int),
            Lexed::Accept(n, v) => Scan::Accept { next: n as int, value: v as nat },
        }
    }
}

pub(crate) fn is_digit_exec(c: char) -> (r: bool)
    ensures
        r == is_digit(c),
{
    let n: u32 = c as u32;
    48 <= n && n <= 57
}

pub(crate) proof fn lemma_decimal_step(s: Seq<char>, start: int, i: int)
    requires
        0 <= start <= i < s.len(),
    ensures
        decimal_value(s.subrange(start, i + 1)) == decimal_value(s.subrange(start, i)) * 10
            + digit_value(s[i]),
{
    assert(s.subrange(start, i + 1).drop_last() =~= s.subrange(start, i));
}

fn read_number(s: &Vec<char>, start: usize, max: u32) -> (r: Lexed)
    requires
        max >= 9,
    ensures
        r@ == scan_number(s@, start as int, max as nat),
{
    if start >= s.len() {
        return Lexed::Short;
    }
    if !is_digit_exec(s[start]) {
        return Lexed::Reject(start);
    }
    let mut i: usize = start;
    let mut value: u32 = 0;
    let mut over: bool = false;
    assert(s@.subrange(start as int, start as int) =~= Seq::<char>::empty());
    while i < s.len() && is_digit_exec(s[i])
        invariant
            max >= 9,
            start <= i <= s@.len(),
            run_end(s@, i as int) == run_end(s@, start as int),
            over == (decimal_value(s@.subrange(start as int, i as int)) > max),
            !over ==> value == decimal_value(s@.subrange(start as int, i as int)),
        decreases s@.len() - i,
    {
        let d: u32 = s[i] as u32 - 48;
        proof {
            lemma_decimal_step(s@, start as int, i as int);
        }
        let ghost old_val = decimal_value(s@.subrange(start as int, i as int));
        if !over {
            if value > (max - d) / 10 {
                assert(value * 10 + d > max) by (nonlinear_arith)
                    requires
                        value > (max - d) / 10,
                        d <= 9,
                        max >= 9,
                ;
                over = true;
            } else {
                assert(value * 10 + d <= max) by (nonlinear_arith)
                    requires
                        value <= (max - d) / 10,
                        d <= 9,
                        max >= 9,
                ;
                value = value * 10 + d;
            }
        } else {
            assert(old_val * 10 + digit_value(s@[i as int]) >= old_val) by (nonlinear_arith);
        }
        i = i + 1;
    }
    if i >= s.len() {
        return Lexed::Short;
    }
    if over {
        Lexed::Reject(i - 1)
    } else {
        Lexed::Accept(i, value)
    }
}

fn read_separated(s: &Vec<char>, start: usize, max: u32) -> (r: Lexed)
    requires
        max >= 9,
        start < usize::MAX,
    ensures
        r@ == scan_separated(s@, start as int, max as nat),
{
    if start >= s.len() {
        return Lexed::Short;
    }
    if s[start] != ';' {
        return Lexed::Reject(start);
    }
    read_number(s, start + 1, max)
}

fn decode_vec(s: &Vec<char>) -> (r: ParseResult)
    ensures
        r == decode(s@),
{
    if s.len() == 0 {
        return ParseResult::Incomplete;
    }
    if s[0] != ESC {
        return ParseResult::Bad(0);
    }
    if s.len() == 1 {
        return ParseResult::Incomplete;
    }
    if s[1] != '[' {
        return ParseResult::Bad(1);
    }
    if s.len() == 2 {
        return ParseResult::Incomplete;
    }
    if s[2] != '<' {
        return ParseResult::Bad(2);
    }
    let (p, button) = match read_number(s, 3, MAX_BUTTON as u32) {
        Lexed::Short => return ParseResult::Incomplete,
        Lexed::Reject(i) => return ParseResult::Bad(i),
        Lexed::Accept(p, v) => (p, v),
    };
    let (q, x) = match read_separated(s, p, MAX_COORD) {
        Lexed::Short => return ParseResult::Incomplete,
        Lexed::Reject(i) => return ParseResult::Bad(i),
        Lexed::Accept(q, v) => (q, v),
    };
    let (r, y) = match read_separated(s, q, MAX_COORD) {
        Lexed::Short => return ParseResult::Incomplete,
        Lexed::Reject(i) => return ParseResult::Bad(i),
        Lexed::Accept(r, v) => (r, v),
    };
    if s[r] == 'M' {
        ParseResult::Complete(r, MouseEvent { x, y, button: button as u16, release: false })
    } else if s[r] == 'm' {
        ParseResult::Complete(r, MouseEvent { x, y, button: button as u16, release: true })
    } else {
        ParseResult::Bad(r)
    }
}

/// Tries to decode one mouse report at the start of `buf`. Pure: the same buffer
/// always gives the same outcome, and nothing is consumed here.
pub fn try_parse_mouse_event(buf: &str) -> (r: ParseResult)
    ensures
        r == decode(buf@),
{
    let mut chars = buf.chars();
    let mut v: Vec<char> = Vec::new();
    loop
        invariant
            v@ + chars.remaining() == buf@,
            chars.decrease() is Some,
        ensures
            v@ == buf@,
        decreases chars.decrease()->0,
    {
        match chars.next() {
            Some(c) => v.push(c),
            None => break,
        }
    }
    decode_vec(&v)
}

} // verus!
