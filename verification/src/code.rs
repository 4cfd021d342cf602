use vstd::prelude::*;
use vstd::string::StrSliceExecFns;

use crate::peg::{is_peg_char, lemma_peg_eq, peg_char_value, peg_value_char, Peg};

verus! {

/// Number of pegs in a code.
pub const NUMBER_OF_PEGS_IN_CODE: usize = 4;

/// A code is an ordered sequence of four pegs: the unit that is guessed and
/// the unit that is hidden.
#[derive(Debug, Clone, Copy)]
pub struct Code(pub [Peg; NUMBER_OF_PEGS_IN_CODE]);

impl View for Code {
    type V = Seq<int>;

    open spec fn view(&self) -> Seq<int> {
        Seq::new(4, |i: int| self.0@[i]@)
    }
}

/// A code is well formed when each of its four pegs is.
pub open spec fn code_wf(c: Code) -> bool {
    forall|i: int| 0 <= i < 4 ==> 0 <= #[trigger] c@[i] < 6
}

impl PartialEq for Code {
    fn eq(&self, other: &Code) -> (r: bool) {
        let r = self.0[0] == other.0[0] && self.0[1] == other.0[1] && self.0[2] == other.0[2]
            && self.0[3] == other.0[3];
        proof {
            if r {
                assert(self@ =~= other@);
            } else {
                let k: int = if self.0@[0] != other.0@[0] {
                    0
                } else if self.0@[1] != other.0@[1] {
                    1
                } else if self.0@[2] != other.0@[2] {
                    2
                } else {
                    3
                };
                lemma_peg_eq(self.0@[k], other.0@[k]);
                assert(self@[k] != other@[k]);
            }
        }
        r
    }
}

impl vstd::std_specs::cmp::PartialEqSpecImpl for Code {
    open spec fn obeys_eq_spec() -> bool {
        true
    }

    open spec fn eq_spec(&self, other: &Code) -> bool {
        self@ == other@
    }
}

impl Eq for Code {}

/// Two codes are the same value exactly when their pegs agree position by
/// position.
pub proof fn lemma_code_eq(a: Code, b: Code)
    ensures
        (a == b) <==> (a@ == b@),
{
    if a@ == b@ {
        assert forall|i: int| 0 <= i < 4 implies a.0@[i] == b.0@[i] by {
            assert(a@[i] == b@[i]);
            lemma_peg_eq(a.0@[i], b.0@[i]);
        }
        assert(a.0 =~= b.0);
    }
}

/// A code read as a four-digit base-6 numeral, position 0 least significant.
/// This value fixes the enumeration order of the candidate space.
pub open spec fn code_value(s: Seq<int>) -> int {
    s[0] + 6 * s[1] + 36 * s[2] + 216 * s[3]
}

/// A generator for all possible codes, ordered by their base-6 value.
pub fn all_possible_codes() -> (r: Vec<Code>)
    ensures
        r@.len() == 1296,
        forall|i: int|
            0 <= i < 1296 ==> code_wf(#[trigger] r@[i]) && code_value(r@[i]@) == i,
{
    let mut codes: Vec<Code> = Vec::new();
    let mut n: u32 = 0;
    while n < 1296
        invariant
            codes@.len() == n,
            n <= 1296,
            forall|i: int|
                0 <= i < n ==> code_wf(#[trigger] codes@[i]) && code_value(codes@[i]@) == i,
        decreases 1296 - n,
    {
        let p0 = Peg::new((n % 6) as u8);
        let n1 = n / 6;
        let p1 = Peg::new((n1 % 6) as u8);
        let n2 = n1 / 6;
        let p2 = Peg::new((n2 % 6) as u8);
        let n3 = n2 / 6;
        let p3 = Peg::new((n3 % 6) as u8);
        let code = Code([p0, p1, p2, p3]);
        proof {
            assert(n == 6 * (n as int / 6) + n as int % 6);
            assert(n1 == 6 * (n1 as int / 6) + n1 as int % 6);
            assert(n2 == 6 * (n2 as int / 6) + n2 as int % 6);
            assert(n3 < 6);
            assert(code_value(code@) == n);
        }
        codes.push(code);
        n = n + 1;
    }
    codes
}

/// Every well-formed code has a base-6 value below 1296.
pub proof fn lemma_code_value_bounds(c: Code)
    requires
        code_wf(c),
    ensures
        0 <= code_value(c@) < 1296,
{
}

/// Codes at distinct positions of the enumeration are distinct values: the
/// candidate space holds no duplicates.
pub proof fn lemma_all_codes_distinct(cs: Seq<Code>)
    requires
        cs.len() == 1296,
        forall|i: int|
            0 <= i < 1296 ==> code_wf(#[trigger] cs[i]) && code_value(cs[i]@) == i,
    ensures
        forall|i: int, j: int|
            0 <= i < 1296 && 0 <= j < 1296 && i != j ==> cs[i] != cs[j],
{
    assert forall|i: int, j: int|
        0 <= i < 1296 && 0 <= j < 1296 && i != j implies cs[i] != cs[j] by {
        if cs[i] == cs[j] {
            assert(code_value(cs[i]@) == code_value(cs[j]@));
        }
    }
}

/// Two well-formed digit sequences with the same base-6 value are equal.
pub proof fn lemma_code_value_injective(s: Seq<int>, t: Seq<int>)
    requires
        s.len() == 4,
        t.len() == 4,
        forall|i: int| 0 <= i < 4 ==> 0 <= #[trigger] s[i] < 6,
        forall|i: int| 0 <= i < 4 ==> 0 <= #[trigger] t[i] < 6,
        code_value(s) == code_value(t),
    ensures
        s =~= t,
{
    let m1 = (s[1] - t[1]) + 6 * (s[2] - t[2]) + 36 * (s[3] - t[3]);
    assert(s[0] - t[0] == -6 * m1);
    assert(s[0] == t[0]);
    let m2 = (s[2] - t[2]) + 6 * (s[3] - t[3]);
    assert(s[1] - t[1] == -6 * m2);
    assert(s[1] == t[1]);
    assert(s[2] - t[2] == -6 * (s[3] - t[3]));
    assert(s[2] == t[2]);
}

/// Every well-formed code appears in the enumeration, at the position given
/// by its base-6 value: the candidate space is complete.
pub proof fn lemma_all_codes_complete(cs: Seq<Code>, c: Code)
    requires
        cs.len() == 1296,
        forall|i: int|
            0 <= i < 1296 ==> code_wf(#[trigger] cs[i]) && code_value(cs[i]@) == i,
        code_wf(c),
    ensures
        0 <= code_value(c@) < 1296,
        cs[code_value(c@)] == c,
{
    lemma_code_value_bounds(c);
    let i = code_value(c@);
    lemma_code_value_injective(cs[i]@, c@);
    lemma_code_eq(cs[i], c);
}

/// The ways parsing a string into a code can fail.
#[derive(Debug, Clone, Copy, PartialEq, Eq, Structural)]
pub enum CodeParsingError {
    /// More characters remain after four pegs were read.
    TooManyPegs,
    /// The string ended before four pegs were read.
    TooFewPegs,
    /// A character is not one of the six peg digits.
    InvalidPeg(char),
}

impl Code {
    /// Parse a code from its textual form: four digit characters `'1'` to
    /// `'6'`, one per peg, with nothing before or after.
    pub fn from_str(s: &str) -> (r: Result<Code, CodeParsingError>)
        ensures
            (match r {
                Ok(c) => s@.len() == 4 && code_wf(c) && (forall|i: int|
                    0 <= i < 4 ==> is_peg_char(#[trigger] s@[i]) && c@[i] == peg_char_value(
                        s@[i],
                    )),
                Err(e) => match e {
                    CodeParsingError::TooFewPegs => s@.len() < 4 && (forall|i: int|
                        0 <= i < s@.len() ==> is_peg_char(#[trigger] s@[i])),
                    CodeParsingError::TooManyPegs => s@.len() > 4 && (forall|i: int|
                        0 <= i < 4 ==> is_peg_char(#[trigger] s@[i])),
                    CodeParsingError::InvalidPeg(ch) => exists|k: int|
                        0 <= k < 4 && k < s@.len() && !is_peg_char(s@[k]) && ch == s@[k]
                            && (forall|j: int| 0 <= j < k ==> is_peg_char(#[trigger] s@[j])),
                },
            }),
    {
        let len = s.unicode_len();
        let mut pegs = [Peg::new(0), Peg::new(0), Peg::new(0), Peg::new(0)];
        let mut i: usize = 0;
        while i < 4
            invariant
                0 <= i <= 4,
                i <= len,
                len == s@.len(),
                forall|j: int| 0 <= j < i ==> is_peg_char(#[trigger] s@[j]),
                forall|j: int|
                    0 <= j < i ==> #[trigger] pegs@[j]@ == peg_char_value(s@[j]) && 0 <= pegs@[j]@
                        < 6,
            decreases 4 - i,
        {
            if i >= len {
                return Err(CodeParsingError::TooFewPegs);
            }
            let ch = s.get_char(i);
            let p = match Peg::from_char(ch) {
                Some(p) => p,
                None => {
                    return Err(CodeParsingError::InvalidPeg(ch));
                },
            };
            pegs[i] = p;
            proof {
                assert(pegs@[i as int] == p);
            }
            i = i + 1;
        }
        if len > 4 {
            return Err(CodeParsingError::TooManyPegs);
        }
        let c = Code(pegs);
        proof {
            assert(forall|i: int| 0 <= i < 4 ==> #[trigger] c@[i] == pegs@[i]@);
        }
        Ok(c)
    }

    /// Format a code as its textual form: the four digit characters of its
    /// pegs, in order, with no separators.
    pub fn to_string(&self) -> (r: String)
        requires
            code_wf(*self),
        ensures
            r@.len() == 4,
            forall|i: int| 0 <= i < 4 ==> #[trigger] r@[i] == peg_value_char(self@[i]),
    {
        let mut r = String::new();
        let mut i: usize = 0;
        while i < 4
            invariant
                0 <= i <= 4,
                code_wf(*self),
                r@.len() == i,
                forall|j: int| 0 <= j < i ==> #[trigger] r@[j] == peg_value_char(self@[j]),
            decreases 4 - i,
        {
            let p = self.0[i];
            proof {
                assert(self@[i as int] == p@);
            }
            push_char(&mut r, p.to_char());
            i = i + 1;
        }
        r
    }
}

/// Relies on String::push: appends the given character to the end of the
/// string, leaving the characters before it unchanged.
#[verifier::external_body]
fn push_char(s: &mut String, c: char)
    ensures
        final(s)@ == old(s)@.push(c),
{
    s.push(c);
}

} // verus!
