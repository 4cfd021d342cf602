use codebreaker::{Code, Hint, Solver};

fn play_out(code: Code, solver: &mut Solver) -> Vec<String> {
    let mut guesses = Vec::new();
    let mut count = 0;
    loop {
        assert!(count < 5, "Too many guesses");

        let guess = solver.guess();
        guesses.push(guess.to_string());
        let hint = Hint::new(guess, code);
        solver.update(guess, hint);
        if hint.is_solution() {
            break;
        }
        count += 1;
    }
    guesses
}

#[test]
fn solve_5611() {
    let code: Code = Code::from_str("5611").unwrap();

    let mut solver = Solver::new();
    let guesses = play_out(code, &mut solver);

    assert_eq!(&["2211", "4321", "5131", "6111", "5611"], &guesses[..]);
}

#[test]
fn solve_2231() {
    let code: Code = Code::from_str("2231").unwrap();

    let mut solver = Solver::new();
    let guesses = play_out(code, &mut solver);

    assert_eq!(&["2211", "3221", "2231"], &guesses[..]);
}

#[test]
fn solver_converges_without_repeating_guesses() {
    let code = Code::from_str("1234").unwrap();
    let mut solver = Solver::new();
    let guesses = play_out(code, &mut solver);
    assert!(guesses.len() <= 5);
    assert_eq!(guesses.last().unwrap(), "1234");
    for a in 0..guesses.len() {
        for b in 0..a {
            assert_ne!(guesses[a], guesses[b], "a guess was offered twice");
        }
    }
}

#[test]
fn update_shrinks_both_sets() {
    let mut solver = Solver::new();
    assert_eq!(solver.num_possible_solutions(), 1296);
    assert_eq!(solver.num_unguessed_codes(), 1296);

    let guess = Code::from_str("2211").unwrap();
    let secret = Code::from_str("5611").unwrap();
    solver.update(guess, Hint::new(guess, secret));

    assert_eq!(solver.num_unguessed_codes(), 1295);
    let remaining = solver.num_possible_solutions();
    assert!(1 <= remaining && remaining < 1296);
}

#[test]
fn update_keeps_only_matching_solutions() {
    // every solution kept by an update matches the hint, so repeating the
    // same update filters nothing further
    let guess = Code::from_str("2211").unwrap();
    let secret = Code::from_str("5611").unwrap();
    let hint = Hint::new(guess, secret);

    let mut solver = Solver::new();
    solver.update(guess, hint);
    let remaining = solver.num_possible_solutions();
    let unguessed = solver.num_unguessed_codes();

    solver.update(guess, hint);
    assert_eq!(solver.num_possible_solutions(), remaining);
    assert_eq!(solver.num_unguessed_codes(), unguessed);
}

#[test]
fn deterministic_solvers_agree() {
    let secret = Code::from_str("5611").unwrap();
    let first = Code::from_str("2211").unwrap();

    let mut one = Solver::new();
    let mut two = Solver::new();
    one.update(first, Hint::new(first, secret));
    two.update(first, Hint::new(first, secret));

    let g1 = one.guess();
    let g2 = two.guess();
    assert_eq!(g1.to_string(), g2.to_string());

    one.update(g1, Hint::new(g1, secret));
    two.update(g2, Hint::new(g2, secret));
    assert_eq!(one.guess().to_string(), two.guess().to_string());
}

#[test]
fn sampled_solver_still_finds_a_known_secret() {
    let secret = Code::from_str("4316").unwrap();
    let mut solver = Solver::with_sampled_guesses(&mut rand::thread_rng());
    assert_eq!(solver.num_unguessed_codes(), 1296);

    // the exact hint for the secret narrows the possibilities to it alone
    solver.update(secret, Hint::new(secret, secret));
    assert_eq!(solver.num_possible_solutions(), 1);
    assert_eq!(solver.num_unguessed_codes(), 1295);
    assert_eq!(solver.guess().to_string(), "4316");
}
