use vstd::prelude::*;
use crate::text::push_char;

verus! {

/// Unicode white space, the characters with the `White_Space` property.
pub open spec fn is_space(c: char) -> bool {
    ||| ('\u{9}' <= c && c <= '\u{d}')
    ||| c == ' '
    ||| c == '\u{85}'
    ||| c == '\u{a0}'
    ||| c == '\u{1680}'
    ||| ('\u{2000}' <= c && c <= '\u{200a}')
    ||| c == '\u{2028}'
    ||| c == '\u{2029}'
    ||| c == '\u{202f}'
    ||| c == '\u{205f}'
    ||| c == '\u{3000}'
}

pub fn space(c: char) -> (r: bool)
    ensures
        r == is_space(c),
{
    ('\u{9}' <= c && c <= '\u{d}') || c == ' ' || c == '\u{85}' || c == '\u{a0}' || c == '\u{1680}'
        || ('\u{2000}' <= c && c <= '\u{200a}') || c == '\u{2028}' || c == '\u{2029}' || c
        == '\u{202f}' || c == '\u{205f}' || c == '\u{3000}'
}

/// Pops closing marks until one matches `c`, or none is left.
pub open spec fn close_marks(marks: Seq<char>, c: char) -> Seq<char>
    decreases marks.len(),
{
    if marks.len() == 0 {
        marks
    } else if marks.last() == c {
        marks.drop_last()
    } else {
        close_marks(marks.drop_last(), c)
    }
}

/// The scanner that splits a stream of characters into top-level JSON texts.
/// It holds the text of the value under way, the closing brackets it waits
/// for, and whether it is inside a string literal.
pub struct Scanner {
    pub quant: String,
    pub marks: Vec<char>,
    pub in_string: bool,
    pub escape: bool,
}

/// The scanner's state as plain values.
pub struct ScanState {
    pub quant: Seq<char>,
    pub marks: Seq<char>,
    pub in_string: bool,
    pub escape: bool,
}

impl Scanner {
    pub open spec fn state(&self) -> ScanState {
        ScanState { quant: self.quant@, marks: self.marks@, in_string: self.in_string, escape: self.escape }
    }
}

/// A value ends after white space, a closing bracket or a closing quote, once
/// no bracket is open.
pub open spec fn ends_value(s: ScanState, c: char) -> bool {
    s.marks.len() == 0 && (is_space(c) || c == '}' || c == ']' || c == '"')
}

/// One step of the scanner on character `c`: the next state, and the text of
/// a value when one is complete.
pub open spec fn scan_step(s: ScanState, c: char) -> (ScanState, Option<Seq<char>>) {
    if s.in_string {
        let q = s.quant.push(c);
        if s.escape {
            (ScanState { quant: q, escape: false, ..s }, None)
        } else if c == '\\' {
            (ScanState { quant: q, escape: true, ..s }, None)
        } else if c == '"' {
            let t = ScanState { quant: q, in_string: false, ..s };
            if ends_value(t, c) {
                (ScanState { quant: seq![], ..t }, Some(q))
            } else {
                (t, None)
            }
        } else {
            (ScanState { quant: q, ..s }, None)
        }
    } else if s.quant.len() == 0 && is_space(c) {
        (s, None)
    } else if c == '"' {
        (ScanState { quant: s.quant.push(c), in_string: true, escape: false, ..s }, None)
    } else {
        let q = s.quant.push(c);
        let m = if c == '{' {
            s.marks.push('}')
        } else if c == '[' {
            s.marks.push(']')
        } else if c == '}' || c == ']' {
            close_marks(s.marks, c)
        } else {
            s.marks
        };
        let t = ScanState { quant: q, marks: m, ..s };
        if ends_value(t, c) {
            (ScanState { quant: seq![], ..t }, Some(q))
        } else {
            (t, None)
        }
    }
}

impl Scanner {
    pub fn new() -> (r: Scanner)
        ensures
            r.state() == (ScanState { quant: seq![], marks: seq![], in_string: false, escape: false }),
    {
        Scanner { quant: String::new(), marks: Vec::new(), in_string: false, escape: false }
    }

    fn close(&mut self, c: char)
        ensures
            final(self).marks@ == close_marks(old(self).marks@, c),
            final(self).quant == old(self).quant,
            final(self).in_string == old(self).in_string,
            final(self).escape == old(self).escape,
    {
        let ghost m0 = self.marks@;
        while self.marks.len() > 0
            invariant
                m0 == old(self).marks@,
                close_marks(m0, c) == close_marks(self.marks@, c),
                self.quant == old(self).quant,
                self.in_string == old(self).in_string,
                self.escape == old(self).escape,
            decreases self.marks@.len(),
        {
            let ghost prev = self.marks@;
            let m = self.marks.pop().unwrap();
            assert(prev.drop_last() =~= self.marks@);
            if m == c {
                assert(close_marks(prev, c) == prev.drop_last());
                return;
            }
        }
    }

    fn take_value(&mut self) -> (r: String)
        ensures
            r@ == old(self).quant@,
            final(self).quant@ == Seq::<char>::empty(),
            final(self).marks == old(self).marks,
            final(self).in_string == old(self).in_string,
            final(self).escape == old(self).escape,
    {
        let mut q = String::new();
        core::mem::swap(&mut q, &mut self.quant);
        q
    }

    /// Feeds one character; returns the text of a value when it completes one.
    pub fn push(&mut self, c: char) -> (r: Option<String>)
        ensures
            ({
                let (t, out) = scan_step(old(self).state(), c);
                final(self).state() == t && match out {
                    Some(v) => r matches Some(x) && x@ == v,
                    None => r is None,
                }
            }),
    {
        if self.in_string {
            push_char(&mut self.quant, c);
            if self.escape {
                self.escape = false;
                return None;
            } else if c == '\\' {
                self.escape = true;
                return None;
            } else if c == '"' {
                self.in_string = false;
                if self.marks.len() == 0 {
                    return Some(self.take_value());
                }
                return None;
            }
            return None;
        }
        if self.quant.unicode_len() == 0 && space(c) {
            return None;
        }
        push_char(&mut self.quant, c);
        if c == '"' {
            self.in_string = true;
            self.escape = false;
            return None;
        }
        if c == '{' {
            self.marks.push('}');
        } else if c == '[' {
            self.marks.push(']');
        } else if c == '}' || c == ']' {
            self.close(c);
        }
        if self.marks.len() == 0 && (space(c) || c == '}' || c == ']') {
            return Some(self.take_value());
        }
        None
    }

    /// Ends the input: the text under way, if any, is the last value.
    pub fn finish(&mut self) -> (r: Option<String>)
        ensures
            old(self).quant@.len() == 0 ==> r is None,
            old(self).quant@.len() > 0 ==> (r matches Some(x) && x@ == old(self).quant@),
            final(self).quant@.len() == 0,
    {
        if self.quant.unicode_len() == 0 {
            None
        } else {
            Some(self.take_value())
        }
    }
}

pub open spec fn initial_state() -> ScanState {
    ScanState { quant: seq![], marks: seq![], in_string: false, escape: false }
}

/// The scanner's state after the characters of `t`, and the values it gave.
pub open spec fn scan_run(s: ScanState, t: Seq<char>) -> (ScanState, Seq<Seq<char>>)
    decreases t.len(),
{
    if t.len() == 0 {
        (s, seq![])
    } else {
        let (s1, outs) = scan_run(s, t.drop_last());
        let (s2, o) = scan_step(s1, t.last());
        (s2, match o {
            Some(v) => outs.push(v),
            None => outs,
        })
    }
}

/// The texts of the top-level values of `t`; what is left at the end counts
/// as one more.
pub open spec fn values_of(t: Seq<char>) -> Seq<Seq<char>> {
    let (s, outs) = scan_run(initial_state(), t);
    if s.quant.len() > 0 {
        outs.push(s.quant)
    } else {
        outs
    }
}

pub open spec fn texts_of(v: Seq<String>) -> Seq<Seq<char>> {
    v.map_values(|s: String| s@)
}

/// Splits a whole text into the texts of its top-level values, as the
/// scanner does when fed one character at a time.
pub fn split_values(text: &str) -> (r: Vec<String>)
    ensures
        texts_of(r@) == values_of(text@),
{
    let mut sc = Scanner::new();
    let mut out: Vec<String> = Vec::new();
    let n = text.unicode_len();
    let mut i: usize = 0;
    assert(text@.take(0) =~= Seq::<char>::empty());
    assert(texts_of(out@) =~= Seq::<Seq<char>>::empty());
    while i < n
        invariant
            n == text@.len(),
            i <= n,
            (sc.state(), texts_of(out@)) == scan_run(initial_state(), text@.take(i as int)),
        decreases n - i,
    {
        let ghost before = out@;
        assert(text@.take(i + 1).drop_last() =~= text@.take(i as int));
        if let Some(v) = sc.push(text.get_char(i)) {
            out.push(v);
            assert(texts_of(out@) =~= texts_of(before).push(v@));
        }
        i = i + 1;
    }
    assert(text@.take(n as int) =~= text@);
    let ghost before = out@;
    if let Some(v) = sc.finish() {
        out.push(v);
        assert(texts_of(out@) =~= texts_of(before).push(v@));
    }
    out
}

} // verus!
