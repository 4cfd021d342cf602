use vstd::prelude::*;

use crate::code::{code_wf, lemma_code_eq, Code, NUMBER_OF_PEGS_IN_CODE};
use crate::peg::{lemma_peg_eq, peg_wf, possible_pegs, Peg};

verus! {

/// Hints are generated in response to guesses, to give the codebreaker a clue
/// how many pegs fit both in kind and position, and how many pegs only match
/// in kind.
#[derive(Debug, PartialEq, Eq, Clone, Copy, Structural)]
pub struct Hint {
    /// Number of pegs in the guess which match both kind and position of the
    /// code.
    pub correct: u8,
    /// Number of pegs in the guess which only match the kind, but not the
    /// position. Each peg is only counted once.
    pub displaced: u8,
}

/// Number of positions below `n` where `g` and `r` hold the same peg.
pub open spec fn count_eq_upto(g: Seq<int>, r: Seq<int>, n: int) -> int
    decreases n,
{
    if n <= 0 {
        0
    } else {
        count_eq_upto(g, r, n - 1) + if g[n - 1] == r[n - 1] {
            1int
        } else {
            0int
        }
    }
}

/// Number of positions below `n` where both `g` and `r` hold peg kind `c`.
pub open spec fn count_both_upto(g: Seq<int>, r: Seq<int>, c: int, n: int) -> int
    decreases n,
{
    if n <= 0 {
        0
    } else {
        count_both_upto(g, r, c, n - 1) + if g[n - 1] == c && r[n - 1] == c {
            1int
        } else {
            0int
        }
    }
}

/// Number of positions below `n` where `s` holds peg kind `c`.
pub open spec fn count_color_upto(s: Seq<int>, c: int, n: int) -> int
    decreases n,
{
    if n <= 0 {
        0
    } else {
        count_color_upto(s, c, n - 1) + if s[n - 1] == c {
            1int
        } else {
            0int
        }
    }
}

/// Sum over the peg kinds below `k` of the positions below `n` where both
/// codes hold that kind.
pub open spec fn sum_both_upto(g: Seq<int>, r: Seq<int>, k: int, n: int) -> int
    decreases k,
{
    if k <= 0 {
        0
    } else {
        sum_both_upto(g, r, k - 1, n) + count_both_upto(g, r, k - 1, n)
    }
}

/// Sum over the peg kinds below `k` of the positions below `n` where `s`
/// holds that kind.
pub open spec fn sum_color_upto(s: Seq<int>, k: int, n: int) -> int
    decreases k,
{
    if k <= 0 {
        0
    } else {
        sum_color_upto(s, k - 1, n) + count_color_upto(s, k - 1, n)
    }
}

/// Sum over the peg kinds below `k` of the smaller of the two kind counts:
/// the total number of pegs matching in kind, placed or not.
pub open spec fn sum_min_upto(g: Seq<int>, r: Seq<int>, k: int) -> int
    decreases k,
{
    if k <= 0 {
        0
    } else {
        sum_min_upto(g, r, k - 1) + vstd::math::min(
            count_color_upto(g, k - 1, 4),
            count_color_upto(r, k - 1, 4),
        )
    }
}

/// The number of exactly matching positions of a guess against a code.
pub open spec fn spec_correct(g: Code, r: Code) -> int {
    count_eq_upto(g@, r@, 4)
}

/// The number of pegs of a guess matching the code in kind only.
pub open spec fn spec_displaced(g: Code, r: Code) -> int {
    sum_min_upto(g@, r@, 6) - spec_correct(g, r)
}

/// The hint a guess earns against a code.
pub open spec fn hint_of(g: Code, r: Code) -> Hint {
    Hint { correct: spec_correct(g, r) as u8, displaced: spec_displaced(g, r) as u8 }
}

proof fn lemma_counts(g: Seq<int>, r: Seq<int>, c: int, n: int)
    requires
        0 <= n,
    ensures
        0 <= count_both_upto(g, r, c, n),
        count_both_upto(g, r, c, n) <= count_color_upto(g, c, n),
        count_both_upto(g, r, c, n) <= count_color_upto(r, c, n),
        0 <= count_color_upto(g, c, n) <= n,
        0 <= count_color_upto(r, c, n) <= n,
    decreases n,
{
    if n > 0 {
        lemma_counts(g, r, c, n - 1);
    }
}

proof fn lemma_count_eq_bounds(g: Seq<int>, r: Seq<int>, n: int)
    requires
        n >= 0,
    ensures
        0 <= count_eq_upto(g, r, n) <= n,
        count_eq_upto(g, r, n) == n <==> (forall|i: int| 0 <= i < n ==> g[i] == r[i]),
    decreases n,
{
    if n > 0 {
        lemma_count_eq_bounds(g, r, n - 1);
    }
}

proof fn lemma_sum_both_zero(g: Seq<int>, r: Seq<int>, k: int)
    ensures
        sum_both_upto(g, r, k, 0) == 0,
    decreases k,
{
    if k > 0 {
        lemma_sum_both_zero(g, r, k - 1);
    }
}

proof fn lemma_sum_both_step(g: Seq<int>, r: Seq<int>, k: int, n: int)
    requires
        n >= 1,
    ensures
        sum_both_upto(g, r, k, n) == sum_both_upto(g, r, k, n - 1) + ind_both_sum(g, r, k, n - 1),
    decreases k,
{
    if k > 0 {
        lemma_sum_both_step(g, r, k - 1, n);
    }
}

/// Sum over the peg kinds below `k` of whether position `i` matches exactly
/// on that kind.
spec fn ind_both_sum(g: Seq<int>, r: Seq<int>, k: int, i: int) -> int
    decreases k,
{
    if k <= 0 {
        0
    } else {
        ind_both_sum(g, r, k - 1, i) + if g[i] == k - 1 && r[i] == k - 1 {
            1int
        } else {
            0int
        }
    }
}

proof fn lemma_ind_both_sum(g: Seq<int>, r: Seq<int>, k: int, i: int)
    requires
        0 <= g[i],
        0 <= r[i],
    ensures
        ind_both_sum(g, r, k, i) == if g[i] == r[i] && g[i] < k {
            1int
        } else {
            0int
        },
    decreases k,
{
    if k > 0 {
        lemma_ind_both_sum(g, r, k - 1, i);
    }
}

/// Summing the exact matches kind by kind counts every exactly matching
/// position once.
proof fn lemma_sum_both_eq_count_eq(g: Seq<int>, r: Seq<int>, n: int)
    requires
        0 <= n,
        forall|i: int| 0 <= i < n ==> 0 <= #[trigger] g[i] < 6,
        forall|i: int| 0 <= i < n ==> 0 <= #[trigger] r[i] < 6,
    ensures
        sum_both_upto(g, r, 6, n) == count_eq_upto(g, r, n),
    decreases n,
{
    if n == 0 {
        lemma_sum_both_zero(g, r, 6);
    } else {
        lemma_sum_both_eq_count_eq(g, r, n - 1);
        lemma_sum_both_step(g, r, 6, n);
        lemma_ind_both_sum(g, r, 6, n - 1);
    }
}

proof fn lemma_sum_color_zero(s: Seq<int>, k: int)
    ensures
        sum_color_upto(s, k, 0) == 0,
    decreases k,
{
    if k > 0 {
        lemma_sum_color_zero(s, k - 1);
    }
}

proof fn lemma_sum_color_step(s: Seq<int>, k: int, n: int)
    requires
        n >= 1,
    ensures
        sum_color_upto(s, k, n) == sum_color_upto(s, k, n - 1) + ind_color_sum(s, k, n - 1),
    decreases k,
{
    if k > 0 {
        lemma_sum_color_step(s, k - 1, n);
    }
}

/// Sum over the peg kinds below `k` of whether position `i` holds that kind.
spec fn ind_color_sum(s: Seq<int>, k: int, i: int) -> int
    decreases k,
{
    if k <= 0 {
        0
    } else {
        ind_color_sum(s, k - 1, i) + if s[i] == k - 1 {
            1int
        } else {
            0int
        }
    }
}

proof fn lemma_ind_color_sum(s: Seq<int>, k: int, i: int)
    ensures
        ind_color_sum(s, k, i) == if 0 <= s[i] < k {
            1int
        } else {
            0int
        },
    decreases k,
{
    if k > 0 {
        lemma_ind_color_sum(s, k - 1, i);
    }
}

/// Each of the `n` positions of a code holds exactly one of the six kinds.
proof fn lemma_sum_color_total(s: Seq<int>, n: int)
    requires
        0 <= n,
        forall|i: int| 0 <= i < n ==> 0 <= #[trigger] s[i] < 6,
    ensures
        sum_color_upto(s, 6, n) == n,
    decreases n,
{
    if n == 0 {
        lemma_sum_color_zero(s, 6);
    } else {
        lemma_sum_color_total(s, n - 1);
        lemma_sum_color_step(s, 6, n);
        lemma_ind_color_sum(s, 6, n - 1);
    }
}

proof fn lemma_sum_color_mono(s: Seq<int>, k1: int, k2: int)
    requires
        k1 <= k2,
    ensures
        sum_color_upto(s, k1, 4) <= sum_color_upto(s, k2, 4),
    decreases k2,
{
    if k1 < k2 && k2 > 0 {
        lemma_sum_color_mono(s, k1, k2 - 1);
        lemma_counts(s, s, k2 - 1, 4);
    }
}

/// The kind-by-kind sums are ordered: exact matches are at most the kind
/// matches, which are at most the pegs of the guess counted.
proof fn lemma_sum_min_bounds(g: Seq<int>, r: Seq<int>, k: int)
    ensures
        0 <= sum_min_upto(g, r, k),
        sum_both_upto(g, r, k, 4) <= sum_min_upto(g, r, k),
        sum_min_upto(g, r, k) <= sum_color_upto(g, k, 4),
    decreases k,
{
    if k > 0 {
        lemma_sum_min_bounds(g, r, k - 1);
        lemma_counts(g, r, k - 1, 4);
    }
}

/// No more than four pegs can match in kind: the guess has only four pegs.
proof fn lemma_sum_min_le_four(g: Seq<int>, r: Seq<int>, k: int)
    requires
        k <= 6,
        forall|i: int| 0 <= i < 4 ==> 0 <= #[trigger] g[i] < 6,
    ensures
        0 <= sum_min_upto(g, r, k) <= 4,
{
    lemma_sum_min_bounds(g, r, k);
    lemma_sum_color_mono(g, k, 6);
    lemma_sum_color_total(g, 4);
}

proof fn lemma_count_eq_sym(g: Seq<int>, r: Seq<int>, n: int)
    ensures
        count_eq_upto(g, r, n) == count_eq_upto(r, g, n),
    decreases n,
{
    if n > 0 {
        lemma_count_eq_sym(g, r, n - 1);
    }
}

proof fn lemma_sum_min_sym(g: Seq<int>, r: Seq<int>, k: int)
    ensures
        sum_min_upto(g, r, k) == sum_min_upto(r, g, k),
    decreases k,
{
    if k > 0 {
        lemma_sum_min_sym(g, r, k - 1);
    }
}

/// The parts of a hint are nonnegative and sum to at most four, and a guess
/// matches all four positions exactly when it is the code itself, in which
/// case nothing is displaced.
pub proof fn lemma_hint_bounds(g: Code, r: Code)
    requires
        code_wf(g),
        code_wf(r),
    ensures
        0 <= spec_correct(g, r),
        0 <= spec_displaced(g, r),
        spec_correct(g, r) + spec_displaced(g, r) <= 4,
        spec_correct(g, r) == 4 <==> g == r,
        g == r ==> spec_displaced(g, r) == 0,
        hint_of(g, r).correct == 4 <==> g == r,
{
    lemma_count_eq_bounds(g@, r@, 4);
    lemma_sum_both_eq_count_eq(g@, r@, 4);
    lemma_sum_min_bounds(g@, r@, 6);
    lemma_sum_min_le_four(g@, r@, 6);
    lemma_code_eq(g, r);
    if spec_correct(g, r) == 4 {
        assert(g@ =~= r@);
    }
}

/// The hint is symmetric: comparing the guess against the code gives the
/// same hint as comparing the code against the guess.
pub proof fn lemma_hint_symmetric(g: Code, r: Code)
    requires
        code_wf(g),
        code_wf(r),
    ensures
        hint_of(g, r) == hint_of(r, g),
{
    lemma_count_eq_sym(g@, r@, 4);
    lemma_sum_min_sym(g@, r@, 6);
}

/// Returns for a single kind how many pegs are `(correct, displaced)`.
fn color_hint(color: Peg, guess: Code, code: Code) -> (r: (u8, u8))
    requires
        peg_wf(color),
        code_wf(guess),
        code_wf(code),
    ensures
        r.0 as int == count_both_upto(guess@, code@, color@, 4),
        r.0 as int + r.1 as int == vstd::math::min(
            count_color_upto(guess@, color@, 4),
            count_color_upto(code@, color@, 4),
        ),
{
    let mut color_guess: u8 = 0;
    let mut color_code: u8 = 0;
    let mut correct: u8 = 0;
    let mut i: usize = 0;
    while i < 4
        invariant
            0 <= i <= 4,
            code_wf(guess),
            code_wf(code),
            color_guess as int == count_color_upto(guess@, color@, i as int),
            color_code as int == count_color_upto(code@, color@, i as int),
            correct as int == count_both_upto(guess@, code@, color@, i as int),
            color_guess <= i,
            color_code <= i,
            correct <= i,
        decreases 4 - i,
    {
        let g = guess.0[i];
        let c = code.0[i];
        proof {
            lemma_peg_eq(guess.0@[i as int], color);
            lemma_peg_eq(code.0@[i as int], color);
            assert(guess@[i as int] == guess.0@[i as int]@);
            assert(code@[i as int] == code.0@[i as int]@);
        }
        if g == color {
            color_guess = color_guess + 1;
        }
        if c == color {
            color_code = color_code + 1;
        }
        if g == color && c == color {
            correct = correct + 1;
        }
        i = i + 1;
    }
    let smaller = if color_code < color_guess {
        color_code
    } else {
        color_guess
    };
    proof {
        lemma_counts(guess@, code@, color@, 4);
    }
    let displaced = smaller - correct;
    (correct, displaced)
}

impl Hint {
    /// Compare a guess against a code: count the exactly matching positions
    /// and the pegs matching in kind only, kind by kind.
    pub fn new(guess: Code, code: Code) -> (h: Hint)
        requires
            code_wf(guess),
            code_wf(code),
        ensures
            h == hint_of(guess, code),
    {
        let pegs = possible_pegs();
        let mut total_correct: u8 = 0;
        let mut total_displaced: u8 = 0;
        let mut ci: usize = 0;
        while ci < 6
            invariant
                0 <= ci <= 6,
                code_wf(guess),
                code_wf(code),
                forall|j: int| 0 <= j < 6 ==> (#[trigger] pegs@[j])@ == j,
                total_correct as int == sum_both_upto(guess@, code@, ci as int, 4),
                total_correct as int + total_displaced as int == sum_min_upto(
                    guess@,
                    code@,
                    ci as int,
                ),
            decreases 6 - ci,
        {
            let color = pegs[ci];
            let (color_correct, color_displaced) = color_hint(color, guess, code);
            proof {
                lemma_sum_min_le_four(guess@, code@, ci + 1);
                lemma_sum_min_bounds(guess@, code@, ci + 1);
            }
            total_correct = total_correct + color_correct;
            total_displaced = total_displaced + color_displaced;
            ci = ci + 1;
        }
        proof {
            lemma_sum_both_eq_count_eq(guess@, code@, 4);
            lemma_hint_bounds(guess, code);
        }
        Hint { correct: total_correct, displaced: total_displaced }
    }

    /// Whether this hint announces an exact match: all four pegs correct.
    pub fn is_solution(&self) -> (r: bool)
        ensures
            r == (self.correct == 4),
    {
        self.correct == NUMBER_OF_PEGS_IN_CODE as u8
    }
}

} // verus!
