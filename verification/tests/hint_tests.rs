use codebreaker::{Code, Hint};

#[test]
fn hint() {
    let hint = Hint::new(
        Code::from_str("6335").unwrap(),
        Code::from_str("3311").unwrap(),
    );
    assert_eq!(hint, Hint { correct: 1, displaced: 1 });
}

#[test]
fn hint_parts_sum_to_at_most_four() {
    let inputs = ["1111", "1234", "6543", "2211", "5611", "3311", "6335"];
    for a in inputs {
        for b in inputs {
            let h = Hint::new(Code::from_str(a).unwrap(), Code::from_str(b).unwrap());
            assert!(h.correct as u32 + h.displaced as u32 <= 4);
            assert_eq!(h.correct == 4, a == b);
        }
    }
}

#[test]
fn hint_against_itself_is_exact() {
    let code = Code::from_str("4152").unwrap();
    let h = Hint::new(code, code);
    assert_eq!(h, Hint { correct: 4, displaced: 0 });
    assert!(h.is_solution());
}

#[test]
fn hint_is_symmetric() {
    let inputs = ["1111", "1234", "6543", "2211", "5611", "3311", "6335"];
    for a in inputs {
        for b in inputs {
            let ab = Hint::new(Code::from_str(a).unwrap(), Code::from_str(b).unwrap());
            let ba = Hint::new(Code::from_str(b).unwrap(), Code::from_str(a).unwrap());
            assert_eq!(ab, ba);
        }
    }
}

#[test]
fn hint_counts_each_peg_once() {
    // guess red-red-red-blue against red-yellow-green-red: one exact match,
    // one displaced, not two.
    let h = Hint::new(
        Code::from_str("1112").unwrap(),
        Code::from_str("1341").unwrap(),
    );
    assert_eq!(h, Hint { correct: 1, displaced: 1 });
}

#[test]
fn is_solution_needs_all_four() {
    assert!(Hint { correct: 4, displaced: 0 }.is_solution());
    assert!(!Hint { correct: 3, displaced: 1 }.is_solution());
    assert!(!Hint { correct: 0, displaced: 4 }.is_solution());
}
