use vstd::prelude::*;

use crate::code::{all_possible_codes, code_value, code_wf, Code};
use crate::hint::{hint_of, Hint};

verus! {

/// A solver for codebreaker: it tracks which codes are still consistent with
/// every hint received, and which codes it has not yet offered as a guess,
/// and on each turn picks the guess that maximizes the guaranteed number of
/// eliminated possibilities.
pub struct Solver {
    /// Codes which have not been guessed so far yet.
    unguessed_codes: Vec<Code>,
    /// Solutions which are still possible.
    possible_solutions: Vec<Code>,
}

/// The codes of `ps` whose hint against `guess` is exactly `hint`, in their
/// original order: what an update keeps of the possible solutions.
pub open spec fn filter_matching(ps: Seq<Code>, guess: Code, hint: Hint) -> Seq<Code>
    decreases ps.len(),
{
    if ps.len() == 0 {
        Seq::empty()
    } else if hint_of(guess, ps.last()) == hint {
        filter_matching(ps.drop_last(), guess, hint).push(ps.last())
    } else {
        filter_matching(ps.drop_last(), guess, hint)
    }
}

/// The codes of `s` other than `guess`, in their original order: what an
/// update keeps of the unguessed codes.
pub open spec fn remove_code(s: Seq<Code>, guess: Code) -> Seq<Code>
    decreases s.len(),
{
    if s.len() == 0 {
        Seq::empty()
    } else if s.last()@ == guess@ {
        remove_code(s.drop_last(), guess)
    } else {
        remove_code(s.drop_last(), guess).push(s.last())
    }
}

pub proof fn lemma_filter_matching_props(ps: Seq<Code>, guess: Code, hint: Hint)
    ensures
        filter_matching(ps, guess, hint).len() <= ps.len(),
        forall|i: int|
            0 <= i < filter_matching(ps, guess, hint).len() ==> hint_of(
                guess,
                #[trigger] filter_matching(ps, guess, hint)[i],
            ) == hint && ps.contains(filter_matching(ps, guess, hint)[i]),
        forall|c: Code|
            ps.contains(c) && hint_of(guess, c) == hint ==> filter_matching(
                ps,
                guess,
                hint,
            ).contains(c),
    decreases ps.len(),
{
    if ps.len() > 0 {
        lemma_filter_matching_props(ps.drop_last(), guess, hint);
        let fl = filter_matching(ps, guess, hint);
        let fs = filter_matching(ps.drop_last(), guess, hint);
        assert forall|i: int| 0 <= i < fl.len() implies hint_of(guess, #[trigger] fl[i]) == hint
            && ps.contains(fl[i]) by {
            if i < fs.len() {
                assert(ps.drop_last().contains(fs[i]));
                let j = choose|j: int| 0 <= j < ps.drop_last().len() && ps.drop_last()[j] == fs[i];
                assert(ps[j] == fs[i]);
            } else {
                assert(ps[ps.len() - 1] == ps.last());
            }
        }
        assert forall|c: Code| ps.contains(c) && hint_of(guess, c) == hint implies fl.contains(
            c,
        ) by {
            let j = choose|j: int| 0 <= j < ps.len() && ps[j] == c;
            if j < ps.len() - 1 {
                assert(ps.drop_last()[j] == c);
                assert(ps.drop_last().contains(c));
                assert(fs.contains(c));
                let m = choose|m: int| 0 <= m < fs.len() && fs[m] == c;
                assert(fl[m] == c);
            } else {
                assert(c == ps.last());
                assert(fl.last() == c);
            }
        }
    }
}

pub proof fn lemma_remove_code_props(s: Seq<Code>, guess: Code)
    ensures
        remove_code(s, guess).len() <= s.len(),
        forall|i: int|
            0 <= i < remove_code(s, guess).len() ==> (#[trigger] remove_code(s, guess)[i])@
                != guess@ && s.contains(remove_code(s, guess)[i]),
        forall|c: Code| s.contains(c) && c@ != guess@ ==> remove_code(s, guess).contains(c),
    decreases s.len(),
{
    if s.len() > 0 {
        lemma_remove_code_props(s.drop_last(), guess);
        let rl = remove_code(s, guess);
        let rs = remove_code(s.drop_last(), guess);
        assert forall|i: int| 0 <= i < rl.len() implies (#[trigger] rl[i])@ != guess@
            && s.contains(rl[i]) by {
            if i < rs.len() {
                assert(s.drop_last().contains(rs[i]));
                let j = choose|j: int| 0 <= j < s.drop_last().len() && s.drop_last()[j] == rs[i];
                assert(s[j] == rs[i]);
            } else {
                assert(s[s.len() - 1] == s.last());
            }
        }
        assert forall|c: Code| s.contains(c) && c@ != guess@ implies rl.contains(c) by {
            let j = choose|j: int| 0 <= j < s.len() && s[j] == c;
            if j < s.len() - 1 {
                assert(s.drop_last()[j] == c);
                assert(s.drop_last().contains(c));
                assert(rs.contains(c));
                let m = choose|m: int| 0 <= m < rs.len() && rs[m] == c;
                assert(rl[m] == c);
            } else {
                assert(c == s.last());
                assert(rl.last() == c);
            }
        }
    }
}

/// The code passed to an update is gone from the unguessed codes afterwards.
pub proof fn lemma_guess_removed(s: Seq<Code>, guess: Code)
    ensures
        !remove_code(s, guess).contains(guess),
{
    lemma_remove_code_props(s, guess);
    if remove_code(s, guess).contains(guess) {
        let i = choose|i: int|
            0 <= i < remove_code(s, guess).len() && remove_code(s, guess)[i] == guess;
        assert(remove_code(s, guess)[i]@ != guess@);
    }
}

/// A code absent from the unguessed codes stays absent when a later update
/// removes another one: once guessed, a code is never offered again.
pub proof fn lemma_removed_stays_removed(s: Seq<Code>, guess: Code, later: Code)
    requires
        !s.contains(guess),
    ensures
        !remove_code(s, later).contains(guess),
{
    lemma_remove_code_props(s, later);
    if remove_code(s, later).contains(guess) {
        let i = choose|i: int|
            0 <= i < remove_code(s, later).len() && remove_code(s, later)[i] == guess;
        assert(s.contains(remove_code(s, later)[i]));
    }
}

/// Updating with a code the unguessed codes still hold strictly shrinks
/// them: a play of distinct guesses must end.
pub proof fn lemma_remove_code_shrinks(s: Seq<Code>, guess: Code)
    requires
        s.contains(guess),
    ensures
        remove_code(s, guess).len() < s.len(),
    decreases s.len(),
{
    lemma_remove_code_props(s, guess);
    if s.last()@ == guess@ {
        lemma_remove_code_props(s.drop_last(), guess);
    } else {
        assert(s.last() != guess);
        let i = choose|i: int| 0 <= i < s.len() && s[i] == guess;
        assert(s.drop_last()[i] == guess);
        assert(s.drop_last().contains(guess));
        lemma_remove_code_shrinks(s.drop_last(), guess);
    }
}

/// Number of codes among the first `n` of `ps` whose hint against `guess`
/// differs from `hint`: how many possibilities that hint would eliminate.
pub open spec fn eliminated_upto(hint: Hint, guess: Code, ps: Seq<Code>, n: int) -> int
    decreases n,
{
    if n <= 0 {
        0
    } else {
        eliminated_upto(hint, guess, ps, n - 1) + if hint_of(guess, ps[n - 1]) != hint {
            1int
        } else {
            0int
        }
    }
}

/// The guaranteed elimination of `guess` over the hint outcomes of the first
/// `n` possible solutions; the empty range guarantees everything.
pub open spec fn min_eliminated_upto(guess: Code, ps: Seq<Code>, n: int) -> int
    decreases n,
{
    if n <= 0 {
        u32::MAX as int
    } else {
        vstd::math::min(
            min_eliminated_upto(guess, ps, n - 1),
            eliminated_upto(hint_of(guess, ps[n - 1]), guess, ps, ps.len() as int),
        )
    }
}

/// The number of possible solutions `guess` is guaranteed to eliminate in
/// the worst-case hint outcome: the score the solver maximizes.
pub open spec fn spec_score(guess: Code, ps: Seq<Code>) -> int {
    min_eliminated_upto(guess, ps, ps.len() as int)
}

proof fn lemma_eliminated_bounds(hint: Hint, guess: Code, ps: Seq<Code>, n: int)
    requires
        0 <= n,
    ensures
        0 <= eliminated_upto(hint, guess, ps, n) <= n,
    decreases n,
{
    if n > 0 {
        lemma_eliminated_bounds(hint, guess, ps, n - 1);
    }
}

proof fn lemma_eliminated_mono(hint: Hint, guess: Code, ps: Seq<Code>, n: int, m: int)
    requires
        0 <= n <= m,
    ensures
        eliminated_upto(hint, guess, ps, n) <= eliminated_upto(hint, guess, ps, m),
    decreases m,
{
    if n < m {
        lemma_eliminated_mono(hint, guess, ps, n, m - 1);
    }
}

proof fn lemma_min_eliminated_mono(guess: Code, ps: Seq<Code>, n: int, m: int)
    requires
        0 <= n <= m,
    ensures
        min_eliminated_upto(guess, ps, m) <= min_eliminated_upto(guess, ps, n),
    decreases m,
{
    if n < m {
        lemma_min_eliminated_mono(guess, ps, n, m - 1);
    }
}

proof fn lemma_min_eliminated_bounds(guess: Code, ps: Seq<Code>, n: int)
    requires
        0 <= n,
    ensures
        0 <= min_eliminated_upto(guess, ps, n) <= u32::MAX as int,
    decreases n,
{
    if n > 0 {
        lemma_min_eliminated_bounds(guess, ps, n - 1);
        lemma_eliminated_bounds(
            hint_of(guess, ps[n - 1]),
            guess,
            ps,
            ps.len() as int,
        );
    }
}

/// Holds of position `i` of `unguessed` when its code is the one the solver
/// returns: no code scores higher, and every earlier code scores lower.
pub open spec fn selected_at(unguessed: Seq<Code>, ps: Seq<Code>, r: Code, i: int) -> bool {
    &&& 0 <= i < unguessed.len()
    &&& unguessed[i] == r
    &&& forall|j: int|
        0 <= j < unguessed.len() ==> spec_score(#[trigger] unguessed[j], ps) <= spec_score(r, ps)
    &&& forall|j: int| 0 <= j < i ==> spec_score(#[trigger] unguessed[j], ps) < spec_score(r, ps)
}

/// The guess the solver owes: the earliest code of `unguessed` achieving the
/// greatest guaranteed elimination over `ps`.
pub open spec fn is_selected_guess(unguessed: Seq<Code>, ps: Seq<Code>, r: Code) -> bool {
    exists|i: int| selected_at(unguessed, ps, r, i)
}

/// The selection rule pins the guess down: two codes both selected from the
/// same state are the same code. This is the inductive step of full
/// reproducibility: `update`'s contract makes the successor state a function
/// of the state and the move alone (`filter_matching`, `remove_code`), so
/// two deterministic solvers driven with the same guesses and hints hold
/// equal states at every turn and, by this lemma, guess alike at every turn.
pub proof fn lemma_selected_guess_unique(unguessed: Seq<Code>, ps: Seq<Code>, r1: Code, r2: Code)
    requires
        is_selected_guess(unguessed, ps, r1),
        is_selected_guess(unguessed, ps, r2),
    ensures
        r1 == r2,
{
    let i1 = choose|i: int| selected_at(unguessed, ps, r1, i);
    let i2 = choose|i: int| selected_at(unguessed, ps, r2, i);
    if i1 < i2 {
        assert(spec_score(unguessed[i1], ps) < spec_score(r2, ps));
        assert(spec_score(unguessed[i2], ps) <= spec_score(r1, ps));
    } else if i2 < i1 {
        assert(spec_score(unguessed[i2], ps) < spec_score(r1, ps));
        assert(spec_score(unguessed[i1], ps) <= spec_score(r2, ps));
    }
}

/// A selected guess is always one of the unguessed codes, so updating with
/// it strictly shrinks them: together with the removal lemmas above, a play
/// of selected guesses cannot go on forever.
pub proof fn lemma_selected_guess_is_unguessed(unguessed: Seq<Code>, ps: Seq<Code>, r: Code)
    requires
        is_selected_guess(unguessed, ps, r),
    ensures
        unguessed.contains(r),
{
    let i = choose|i: int| selected_at(unguessed, ps, r, i);
    assert(unguessed[i] == r);
}

/// Candidate for a guess.
struct Candidate {
    /// Code the guess represents.
    code: Code,
    /// Lazily computed number of guaranteed possibilities eliminated by this
    /// guess.
    eliminated: Option<u32>,
}

/// A candidate carries either no score yet, or its exact one.
spec fn candidate_ok(c: Candidate, ps: Seq<Code>) -> bool {
    match c.eliminated {
        Option::None => true,
        Option::Some(v) => v as int == spec_score(c.code, ps),
    }
}

impl Candidate {
    fn new(code: Code) -> (c: Candidate)
        ensures
            c.code == code,
            c.eliminated is None,
    {
        Candidate { code, eliminated: None }
    }

    /// Out of two candidates, picks the better one, or the first one if they
    /// are equal; a score is only computed where a comparison needs it, with
    /// the score already known as a lower bound, chosen low enough that a
    /// true tie still surfaces exactly and falls to the first candidate.
    fn better(a: Candidate, b: Candidate, solver: &Solver) -> (r: Candidate)
        requires
            solver.wf(),
            code_wf(a.code),
            code_wf(b.code),
            candidate_ok(a, solver.solutions()),
            candidate_ok(b, solver.solutions()),
        ensures
            ({
                let sa = spec_score(a.code, solver.solutions());
                let sb = spec_score(b.code, solver.solutions());
                &&& r.eliminated is Some
                &&& candidate_ok(r, solver.solutions())
                &&& r.code == (if sa >= sb {
                    a.code
                } else {
                    b.code
                })
            }),
    {
        let mut a = a;
        let mut b = b;
        proof {
            lemma_min_eliminated_bounds(a.code, solver.solutions(), solver.solutions().len() as int);
            lemma_min_eliminated_bounds(b.code, solver.solutions(), solver.solutions().len() as int);
        }
        match (a.eliminated, b.eliminated) {
            (Some(_), Some(_)) => a.replace_if_better(b),
            (Some(a_eliminated), None) => {
                b.eliminated = Some(solver.min_possibilties_eliminated(b.code, a_eliminated));
                // Be careful, the order matters here. Due to short
                // circuiting, above b might be worse, but seem just as good.
                a.replace_if_better(b)
            },
            (None, Some(b_eliminated)) => {
                // Computing a's score against a bound one below b's exact
                // score lets a true tie surface exactly, so the earlier
                // candidate wins ties here too.
                let lower_bound = if b_eliminated == 0 {
                    0
                } else {
                    b_eliminated - 1
                };
                a.eliminated = Some(solver.min_possibilties_eliminated(a.code, lower_bound));
                a.replace_if_better(b)
            },
            (None, None) => {
                a.eliminated = Some(solver.min_possibilties_eliminated(a.code, 0));
                b.eliminated = Some(
                    solver.min_possibilties_eliminated(b.code, a.eliminated.unwrap()),
                );
                a.replace_if_better(b)
            },
        }
    }

    /// Replaces the candidate with another one if the other one is better.
    /// If both are equal, self is returned. Requires eliminated to be
    /// computed.
    fn replace_if_better(self, other: Candidate) -> (r: Candidate)
        requires
            self.eliminated is Some,
            other.eliminated is Some,
        ensures
            r == if other.eliminated.unwrap() > self.eliminated.unwrap() {
                other
            } else {
                self
            },
    {
        if other.eliminated.unwrap() > self.eliminated.unwrap() {
            other
        } else {
            self
        }
    }
}

impl Solver {
    /// The solutions still consistent with every hint received so far.
    pub closed spec fn solutions(self) -> Seq<Code> {
        self.possible_solutions@
    }

    /// The codes not yet offered as a guess.
    pub closed spec fn unguessed(self) -> Seq<Code> {
        self.unguessed_codes@
    }

    /// Both sets hold only well-formed codes and never outgrow the candidate
    /// space.
    pub open spec fn wf(self) -> bool {
        &&& self.solutions().len() <= 1296
        &&& self.unguessed().len() <= 1296
        &&& forall|i: int|
            0 <= i < self.solutions().len() ==> code_wf(#[trigger] self.solutions()[i])
        &&& forall|i: int|
            0 <= i < self.unguessed().len() ==> code_wf(#[trigger] self.unguessed()[i])
    }

    /// Creates a solver which deterministically solves the codebreaker game:
    /// both sets start as the full candidate space, in enumeration order.
    pub fn new() -> (s: Solver)
        ensures
            s.wf(),
            s.solutions().len() == 1296,
            forall|i: int|
                0 <= i < 1296 ==> code_wf(#[trigger] s.solutions()[i]) && code_value(
                    s.solutions()[i]@,
                ) == i,
            s.unguessed() == s.solutions(),
    {
        let possible_solutions = all_possible_codes();
        let mut unguessed_codes: Vec<Code> = Vec::new();
        let mut i: usize = 0;
        while i < possible_solutions.len()
            invariant
                0 <= i <= possible_solutions@.len(),
                unguessed_codes@ == possible_solutions@.take(i as int),
            decreases possible_solutions@.len() - i,
        {
            unguessed_codes.push(possible_solutions[i]);
            proof {
                assert(possible_solutions@.take(i + 1) =~= possible_solutions@.take(i as int).push(
                    possible_solutions@[i as int],
                ));
            }
            i = i + 1;
        }
        proof {
            assert(possible_solutions@.take(possible_solutions@.len() as int)
                =~= possible_solutions@);
        }
        Solver { unguessed_codes, possible_solutions }
    }

    /// Creates a solver which picks randomly one of the best guesses: the
    /// unguessed codes are shuffled once, so ties in the score fall to a
    /// random one of the equally good guesses.
    pub fn with_sampled_guesses<R: rand::Rng>(rng: &mut R) -> (s: Solver)
        ensures
            s.wf(),
            s.solutions().len() == 1296,
            forall|i: int|
                0 <= i < 1296 ==> code_wf(#[trigger] s.solutions()[i]) && code_value(
                    s.solutions()[i]@,
                ) == i,
            s.unguessed().to_multiset() == s.solutions().to_multiset(),
            s.unguessed().len() == 1296,
    {
        let mut solver = Solver::new();
        shuffle_codes(&mut solver.unguessed_codes, rng);
        proof {
            assert forall|i: int| 0 <= i < solver.unguessed().len() implies code_wf(
                #[trigger] solver.unguessed()[i],
            ) by {
                assert(solver.solutions().contains(solver.unguessed()[i]));
                let m = choose|m: int|
                    0 <= m < solver.solutions().len() && solver.solutions()[m]
                        == solver.unguessed()[i];
                assert(code_wf(solver.solutions()[m]));
            }
        }
        solver
    }

    /// How many possible solutions remain. A caller must not ask for a guess
    /// once this reaches zero: the guess and hint history was inconsistent.
    pub fn num_possible_solutions(&self) -> (n: usize)
        ensures
            n == self.solutions().len(),
    {
        self.possible_solutions.len()
    }

    /// How many codes have not been offered as a guess yet.
    pub fn num_unguessed_codes(&self) -> (n: usize)
        ensures
            n == self.unguessed().len(),
    {
        self.unguessed_codes.len()
    }

    /// Picks the guess: the single remaining possible solution if only one
    /// is left, else the earliest unguessed code with the greatest
    /// guaranteed elimination. The solver's state is not changed.
    pub fn guess(&mut self) -> (r: Code)
        requires
            old(self).wf(),
            old(self).solutions().len() >= 1,
            old(self).solutions().len() > 1 ==> old(self).unguessed().len() >= 1,
        ensures
            final(self).solutions() == old(self).solutions(),
            final(self).unguessed() == old(self).unguessed(),
            final(self).wf(),
            code_wf(r),
            old(self).solutions().len() == 1 ==> r == old(self).solutions()[0],
            old(self).solutions().len() > 1 ==> is_selected_guess(
                old(self).unguessed(),
                old(self).solutions(),
                r,
            ),
    {
        // If we know the answer we "guess" it
        if self.possible_solutions.len() == 1 {
            return self.possible_solutions[0];
        }
        // Maximize guaranteed elimination of possibilities
        let ghost ug = self.unguessed();
        let ghost ps = self.solutions();
        let mut best = Candidate::new(self.unguessed_codes[0]);
        let ghost mut k: int = 0;
        let mut i: usize = 1;
        while i < self.unguessed_codes.len()
            invariant
                self.wf(),
                self.unguessed() == ug,
                self.solutions() == ps,
                1 <= i <= ug.len(),
                ug.len() >= 1,
                0 <= k < i,
                ug[k] == best.code,
                code_wf(best.code),
                candidate_ok(best, ps),
                forall|j: int|
                    0 <= j < i ==> spec_score(#[trigger] ug[j], ps) <= spec_score(best.code, ps),
                forall|j: int|
                    0 <= j < k ==> spec_score(#[trigger] ug[j], ps) < spec_score(best.code, ps),
            decreases ug.len() - i,
        {
            let next = Candidate::new(self.unguessed_codes[i]);
            let ghost prev = best.code;
            best = Candidate::better(best, next, self);
            proof {
                if spec_score(ug[i as int], ps) > spec_score(prev, ps) {
                    k = i as int;
                }
            }
            i = i + 1;
        }
        proof {
            assert(selected_at(ug, ps, best.code, k));
        }
        best.code
    }

    /// Incorporate a hint: the submitted guess leaves the unguessed codes,
    /// and only the solutions that would have produced exactly this hint
    /// stay possible. The true secret, if still possible before, stays
    /// possible: it produces the observed hint by construction.
    pub fn update(&mut self, guess: Code, hint: Hint)
        requires
            old(self).wf(),
            code_wf(guess),
        ensures
            final(self).wf(),
            final(self).solutions() == filter_matching(old(self).solutions(), guess, hint),
            final(self).unguessed() == remove_code(old(self).unguessed(), guess),
            forall|i: int|
                0 <= i < final(self).solutions().len() ==> hint_of(
                    guess,
                    #[trigger] final(self).solutions()[i],
                ) == hint,
            forall|c: Code|
                old(self).solutions().contains(c) && hint_of(guess, c) == hint
                    ==> final(self).solutions().contains(c),
            !final(self).unguessed().contains(guess),
            forall|c: Code| final(self).unguessed().contains(c) ==> old(self).unguessed().contains(c),
    {
        let ghost old_ps = self.solutions();
        let ghost old_ug = self.unguessed();
        let mut kept_solutions: Vec<Code> = Vec::new();
        let mut i: usize = 0;
        while i < self.possible_solutions.len()
            invariant
                self.wf(),
                self.solutions() == old_ps,
                self.unguessed() == old_ug,
                code_wf(guess),
                0 <= i <= old_ps.len(),
                kept_solutions@ == filter_matching(old_ps.take(i as int), guess, hint),
            decreases old_ps.len() - i,
        {
            let code = self.possible_solutions[i];
            let canidate_hint = Hint::new(guess, code);
            proof {
                assert(old_ps.take(i + 1).drop_last() =~= old_ps.take(i as int));
                assert(old_ps.take(i + 1).last() == old_ps[i as int]);
            }
            if hint == canidate_hint {
                kept_solutions.push(code);
            }
            i = i + 1;
        }
        let mut kept_unguessed: Vec<Code> = Vec::new();
        let mut j: usize = 0;
        while j < self.unguessed_codes.len()
            invariant
                self.wf(),
                self.solutions() == old_ps,
                self.unguessed() == old_ug,
                0 <= j <= old_ug.len(),
                kept_unguessed@ == remove_code(old_ug.take(j as int), guess),
            decreases old_ug.len() - j,
        {
            let code = self.unguessed_codes[j];
            proof {
                assert(old_ug.take(j + 1).drop_last() =~= old_ug.take(j as int));
                assert(old_ug.take(j + 1).last() == old_ug[j as int]);
            }
            if code != guess {
                kept_unguessed.push(code);
            }
            j = j + 1;
        }
        proof {
            assert(old_ps.take(old_ps.len() as int) =~= old_ps);
            assert(old_ug.take(old_ug.len() as int) =~= old_ug);
        }
        self.possible_solutions = kept_solutions;
        self.unguessed_codes = kept_unguessed;
        proof {
            lemma_filter_matching_props(old_ps, guess, hint);
            lemma_remove_code_props(old_ug, guess);
            lemma_guess_removed(old_ug, guess);
            assert forall|i: int| 0 <= i < self.solutions().len() implies code_wf(
                #[trigger] self.solutions()[i],
            ) by {
                assert(old_ps.contains(self.solutions()[i]));
                let m = choose|m: int| 0 <= m < old_ps.len() && old_ps[m] == self.solutions()[i];
                assert(code_wf(old_ps[m]));
            }
            assert forall|i: int| 0 <= i < self.unguessed().len() implies code_wf(
                #[trigger] self.unguessed()[i],
            ) by {
                assert(old_ug.contains(self.unguessed()[i]));
                let m = choose|m: int| 0 <= m < old_ug.len() && old_ug[m] == self.unguessed()[i];
                assert(code_wf(old_ug[m]));
            }
        }
    }

    /// Minimum number of possibilities a guess would eliminate. If the
    /// minimum is larger than the lower_bound the result is exact, otherwise
    /// it is lower_bound. Setting a lower bound allows the function to exit
    /// early if the result would be smaller than a better maximum we already
    /// know about.
    fn min_possibilties_eliminated(&self, candidate_guess: Code, lower_bound: u32) -> (r: u32)
        requires
            self.wf(),
            code_wf(candidate_guess),
        ensures
            r as int == vstd::math::max(
                lower_bound as int,
                spec_score(candidate_guess, self.solutions()),
            ),
    {
        let ghost ps = self.solutions();
        let mut current_min: u32 = u32::MAX;
        let mut i: usize = 0;
        while i < self.possible_solutions.len()
            invariant
                self.wf(),
                self.solutions() == ps,
                code_wf(candidate_guess),
                0 <= i <= ps.len(),
                current_min as int == min_eliminated_upto(candidate_guess, ps, i as int),
                i == 0 || current_min as int > lower_bound as int,
            decreases ps.len() - i,
        {
            let possible_solution = self.possible_solutions[i];
            let hint = Hint::new(candidate_guess, possible_solution);
            let eliminated = self.num_eliminated_possiblities(hint, candidate_guess, current_min);
            current_min = if eliminated < current_min {
                eliminated
            } else {
                current_min
            };
            proof {
                assert(current_min as int == min_eliminated_upto(candidate_guess, ps, i + 1));
            }
            if current_min <= lower_bound {
                proof {
                    lemma_min_eliminated_mono(candidate_guess, ps, i + 1, ps.len() as int);
                    lemma_min_eliminated_bounds(candidate_guess, ps, ps.len() as int);
                }
                return lower_bound;
            }
            i = i + 1;
        }
        proof {
            lemma_min_eliminated_bounds(candidate_guess, ps, ps.len() as int);
        }
        current_min
    }

    /// How many possible codes would be eliminated by a guess with a certain
    /// hint. The result is exact if it is smaller than upper_bound,
    /// otherwise it is upper_bound.
    fn num_eliminated_possiblities(&self, hint: Hint, guess: Code, upper_bound: u32) -> (r: u32)
        requires
            self.wf(),
            code_wf(guess),
        ensures
            r as int == vstd::math::min(
                eliminated_upto(hint, guess, self.solutions(), self.solutions().len() as int),
                upper_bound as int,
            ),
    {
        let ghost ps = self.solutions();
        let mut count: u32 = 0;
        let mut i: usize = 0;
        while i < self.possible_solutions.len() && count < upper_bound
            invariant
                self.wf(),
                self.solutions() == ps,
                code_wf(guess),
                0 <= i <= ps.len(),
                count as int == eliminated_upto(hint, guess, ps, i as int),
                count <= upper_bound,
                count <= i,
            decreases ps.len() - i,
        {
            let code = self.possible_solutions[i];
            let canidate_hint = Hint::new(guess, code);
            if hint != canidate_hint {
                count = count + 1;
            }
            i = i + 1;
        }
        proof {
            if i < ps.len() {
                lemma_eliminated_mono(hint, guess, ps, i as int, ps.len() as int);
            }
        }
        count
    }
}

/// Relies on rand's SliceRandom::shuffle: it permutes the elements of the
/// slice in place, adding and dropping none.
#[verifier::external_body]
fn shuffle_codes<R: rand::Rng>(codes: &mut Vec<Code>, rng: &mut R)
    ensures
        final(codes)@.to_multiset() == old(codes)@.to_multiset(),
        final(codes)@.len() == old(codes)@.len(),
        forall|i: int|
            0 <= i < final(codes)@.len() ==> old(codes)@.contains(final(codes)@[i]),
{
    rand::seq::SliceRandom::shuffle(codes.as_mut_slice(), rng);
}

} // verus!
