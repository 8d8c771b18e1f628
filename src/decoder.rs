use vstd::prelude::*;

use crate::parser::{
    decimal_value, decode, digit_value, is_digit, is_digit_exec, lemma_decimal_step, lemma_run_end_at,
    lemma_run_end_bounds, lemma_scan_agree, scan_number, MouseEvent, ParseResult, Scan, ESC,
    MAX_BUTTON, MAX_COORD,
};

verus! {

/// Bound of the numeric field with this index (0 button, 1 x, 2 y).
pub open spec fn field_max(field: int) -> nat {
    if field == 0 {
        MAX_BUTTON as nat
    } else {
        MAX_COORD as nat
    }
}

/// Decodes reports fed one character at a time, keeping its place between calls so
/// that each character is examined once.
pub struct Decoder {
    pending: Vec<char>,
    field: usize,
    start: usize,
    x_start: usize,
    value: u32,
    over: bool,
    button: u32,
    x: u32,
}

impl View for Decoder {
    type V = Seq<char>;

    /// The characters fed since the last decision.
    closed spec fn view(&self) -> Seq<char> {
        self.pending@
    }
}

impl Decoder {
    pub closed spec fn wf(&self) -> bool {
        let p = self.pending@;
        let digits = p.subrange(self.start as int, p.len() as int);
        &&& decode(p) == ParseResult::Incomplete
        &&& p.len() >= 3 ==> {
            &&& self.field <= 2
            &&& 3 <= self.start <= p.len()
            &&& forall|j: int| self.start <= j < p.len() ==> is_digit(#[trigger] p[j])
            &&& self.over == (decimal_value(digits) > field_max(self.field as int))
            &&& !self.over ==> self.value == decimal_value(digits)
            &&& self.field == 0 ==> self.start == 3
            &&& self.field == 1 ==> {
                &&& scan_number(p, 3, MAX_BUTTON as nat) == (Scan::Accept {
                    next: self.start - 1,
                    value: self.button as nat,
                })
                &&& p[self.start - 1] == ';'
            }
            &&& self.field == 2 ==> {
                &&& scan_number(p, 3, MAX_BUTTON as nat) == (Scan::Accept {
                    next: self.x_start - 1,
                    value: self.button as nat,
                })
                &&& p[self.x_start - 1] == ';'
                &&& 3 < self.x_start < self.start
                &&& scan_number(p, self.x_start as int, MAX_COORD as nat) == (Scan::Accept {
                    next: self.start - 1,
                    value: self.x as nat,
                })
                &&& p[self.start - 1] == ';'
            }
        }
    }

    /// A decoder that has been fed nothing.
    pub fn new() -> (r: Decoder)
        ensures
            r.wf(),
            r@ == Seq::<char>::empty(),
    {
        Decoder {
            pending: Vec::new(),
            field: 0,
            start: 3,
            x_start: 0,
            value: 0,
            over: false,
            button: 0,
            x: 0,
        }
    }

    /// How many characters were fed since the last decision.
    pub fn pending_len(&self) -> (r: usize)
        ensures
            r == self@.len(),
    {
        self.pending.len()
    }

    /// Feeds one character. The outcome is what decoding everything fed since the last
    /// decision would give. On a decision the decoder starts afresh; of the characters
    /// fed since the previous decision, the caller drops `consumed()` and feeds the
    /// rest (at most this one) again.
    pub fn push(&mut self, c: char) -> (r: ParseResult)
        requires
            old(self).wf(),
            old(self)@.len() < usize::MAX,
        ensures
            final(self).wf(),
            r == decode(old(self)@.push(c)),
            r is Incomplete ==> final(self)@ == old(self)@.push(c),
            !(r is Incomplete) ==> final(self)@.len() == 0,
            !(r is Incomplete) ==> old(self)@.len() <= r.spec_consumed() <= old(self)@.len() + 1,
    {
        let len = self.pending.len();
        let ghost p = self.pending@;
        let ghost s = p.push(c);
        assert(s.take(len as int) =~= p);
        if len < 3 {
            let expected = if len == 0 {
                ESC
            } else if len == 1 {
                '['
            } else {
                '<'
            };
            if c != expected {
                self.reset();
                return ParseResult::Bad(len);
            }
            self.pending.push(c);
            if len == 2 {
                self.field = 0;
                self.start = 3;
                self.value = 0;
                self.over = false;
                assert(self.pending@.subrange(3, 3) =~= Seq::<char>::empty());
            }
            return ParseResult::Incomplete;
        }
        if is_digit_exec(c) {
            self.push_digit(c)
        } else {
            self.push_other(c)
        }
    }

    /// What feeding a character leaves unchanged: the characters before it, and the
    /// fields that were already read.
    proof fn lemma_earlier_fields(&self, c: char)
        requires
            self.wf(),
            self@.len() >= 3,
        ensures
            ({
                let p = self@;
                let s = p.push(c);
                &&& forall|j: int| 0 <= j < p.len() ==> #[trigger] s[j] == p[j]
                &&& self.field >= 1 ==> scan_number(s, 3, MAX_BUTTON as nat) == scan_number(
                    p,
                    3,
                    MAX_BUTTON as nat,
                )
                &&& self.field == 2 ==> scan_number(s, self.x_start as int, MAX_COORD as nat)
                    == scan_number(p, self.x_start as int, MAX_COORD as nat)
                &&& s.subrange(self.start as int, p.len() as int) =~= p.subrange(
                    self.start as int,
                    p.len() as int,
                )
            }),
    {
        let p = self@;
        let s = p.push(c);
        assert forall|j: int| 0 <= j < p.len() implies #[trigger] s[j] == p[j] by {}
        lemma_run_end_bounds(p, 3);
        lemma_scan_agree(p, s, 3, p.len() as int, MAX_BUTTON as nat);
        if self.field == 2 {
            lemma_run_end_bounds(p, self.x_start as int);
            lemma_scan_agree(p, s, self.x_start as int, p.len() as int, MAX_COORD as nat);
        }
    }

    /// Feeds a digit inside a numeric field.
    #[verifier::rlimit(50)]
    fn push_digit(&mut self, c: char) -> (r: ParseResult)
        requires
            old(self).wf(),
            old(self)@.len() >= 3,
            old(self)@.len() < usize::MAX,
            is_digit(c),
        ensures
            final(self).wf(),
            r == decode(old(self)@.push(c)),
            r is Incomplete,
            final(self)@ == old(self)@.push(c),
    {
        let len = self.pending.len();
        let ghost p = self.pending@;
        let ghost s = p.push(c);
        let ghost a = self.start as int;
        proof {
            self.lemma_earlier_fields(c);
        }
        let max: u32 = if self.field == 0 {
            MAX_BUTTON as u32
        } else {
            MAX_COORD
        };
        let d: u32 = c as u32 - 48;
        proof {
            lemma_decimal_step(s, a, len as int);
        }
        let ghost old_val = decimal_value(p.subrange(a, len as int));
        if !self.over {
            if self.value > (max - d) / 10 {
                assert(self.value * 10 + d > max) by (nonlinear_arith)
                    requires
                        self.value > (max - d) / 10,
                        d <= 9,
                        max >= 9,
                ;
                self.over = true;
            } else {
                assert(self.value * 10 + d <= max) by (nonlinear_arith)
                    requires
                        self.value <= (max - d) / 10,
                        d <= 9,
                        max >= 9,
                ;
                self.value = self.value * 10 + d;
            }
        } else {
            assert(old_val * 10 + digit_value(c) >= old_val) by (nonlinear_arith);
        }
        self.pending.push(c);
        proof {
            assert(self.pending@ == s);
            lemma_run_end_at(s, a, s.len() as int);
        }
        ParseResult::Incomplete
    }

    /// Feeds a non-digit once the header is in: it ends the current field.
    #[verifier::rlimit(50)]
    fn push_other(&mut self, c: char) -> (r: ParseResult)
        requires
            old(self).wf(),
            old(self)@.len() >= 3,
            old(self)@.len() < usize::MAX,
            !is_digit(c),
        ensures
            final(self).wf(),
            r == decode(old(self)@.push(c)),
            r is Incomplete ==> final(self)@ == old(self)@.push(c),
            !(r is Incomplete) ==> final(self)@.len() == 0,
            !(r is Incomplete) ==> old(self)@.len() <= r.spec_consumed() <= old(self)@.len() + 1,
    {
        let len = self.pending.len();
        let ghost p = self.pending@;
        let ghost s = p.push(c);
        let ghost a = self.start as int;
        proof {
            self.lemma_earlier_fields(c);
        }
        if self.start == len {
            self.reset();
            return ParseResult::Bad(len);
        }
        proof {
            lemma_run_end_at(s, a, len as int);
        }
        if self.over {
            self.reset();
            return ParseResult::Bad(len - 1);
        }
        if self.field < 2 {
            if c != ';' {
                self.reset();
                return ParseResult::Bad(len);
            }
            if self.field == 0 {
                self.button = self.value;
            } else {
                self.x = self.value;
                self.x_start = self.start;
            }
            self.field = self.field + 1;
            self.start = len + 1;
            self.value = 0;
            self.over = false;
            self.pending.push(c);
            proof {
                assert(self.pending@ == s);
                assert(s.subrange(len + 1, len + 1) =~= Seq::<char>::empty());
            }
            return ParseResult::Incomplete;
        }
        let x = self.x;
        let y = self.value;
        let button = self.button as u16;
        self.reset();
        if c == 'M' {
            ParseResult::Complete(len, MouseEvent { x, y, button, release: false })
        } else if c == 'm' {
            ParseResult::Complete(len, MouseEvent { x, y, button, release: true })
        } else {
            ParseResult::Bad(len)
        }
    }

    fn reset(&mut self)
        ensures
            final(self).wf(),
            final(self)@.len() == 0,
    {
        *self = Decoder::new();
    }
}

} // verus!
