use vstd::prelude::*;

verus! {

/// Number of different peg kinds in the game.
pub const NUM_DIFFERENT_PEGS: u8 = 6;

/// A peg represents one of the places in the code which has to be guessed,
/// usually rendered as colors or numbers. The default version of codebreaker
/// uses 6 different kinds of pegs, so a peg's value lies in `[0, 6)`.
#[derive(Debug, Clone, Copy, PartialEq, Eq, Structural)]
pub struct Peg(u8);

impl View for Peg {
    type V = int;

    closed spec fn view(&self) -> int {
        self.0 as int
    }
}

/// A peg is well formed when its value names one of the six kinds.
pub open spec fn peg_wf(p: Peg) -> bool {
    0 <= p@ < 6
}

/// The characters that encode a peg.
pub open spec fn is_peg_char(c: char) -> bool {
    c == '1' || c == '2' || c == '3' || c == '4' || c == '5' || c == '6'
}

/// The peg value a character encodes.
pub open spec fn peg_char_value(c: char) -> int {
    if c == '1' {
        0
    } else if c == '2' {
        1
    } else if c == '3' {
        2
    } else if c == '4' {
        3
    } else if c == '5' {
        4
    } else {
        5
    }
}

/// The character that encodes a peg value.
pub open spec fn peg_value_char(v: int) -> char {
    if v == 0 {
        '1'
    } else if v == 1 {
        '2'
    } else if v == 2 {
        '3'
    } else if v == 3 {
        '4'
    } else if v == 4 {
        '5'
    } else {
        '6'
    }
}

impl Peg {
    /// Construct a peg from a number between 0 and 5.
    pub fn new(n: u8) -> (p: Peg)
        requires
            n < NUM_DIFFERENT_PEGS,
        ensures
            p@ == n as int,
    {
        Peg(n)
    }

    pub fn from_char(c: char) -> (r: Option<Peg>)
        ensures
            (match r {
                Some(p) => is_peg_char(c) && p@ == peg_char_value(c),
                None => !is_peg_char(c),
            }),
    {
        match c {
            '1' => Some(Peg(0)),
            '2' => Some(Peg(1)),
            '3' => Some(Peg(2)),
            '4' => Some(Peg(3)),
            '5' => Some(Peg(4)),
            '6' => Some(Peg(5)),
            _ => None,
        }
    }

    pub fn to_char(self) -> (c: char)
        requires
            peg_wf(self),
        ensures
            c == peg_value_char(self@),
    {
        match self.0 {
            0 => '1',
            1 => '2',
            2 => '3',
            3 => '4',
            4 => '5',
            5 => '6',
            _ => {
                proof {
                    assert(false);
                }
                '1'
            },
        }
    }
}

/// Two pegs are the same value exactly when they hold the same kind.
pub proof fn lemma_peg_eq(a: Peg, b: Peg)
    ensures
        (a == b) <==> (a@ == b@),
{
}

/// All six peg kinds, in increasing order of value.
pub(crate) fn possible_pegs() -> (r: [Peg; 6])
    ensures
        forall|i: int| 0 <= i < 6 ==> (#[trigger] r@[i])@ == i,
{
    let pegs = [Peg::new(0), Peg::new(1), Peg::new(2), Peg::new(3), Peg::new(4), Peg::new(5)];
    pegs
}

} // verus!
