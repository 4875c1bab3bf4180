use itertools::Itertools;
use quiz_key::{
    infer, lengths_agree, solve, sort_by_score, Answer, AnswerKey, AnswerKeySet, QuizAttempt,
    QuizError,
};

fn key_strings(set: &AnswerKeySet) -> Vec<String> {
    let mut v = set.as_strings();
    v.sort();
    v
}

fn attempt(s: &str, score: i32) -> QuizAttempt {
    QuizAttempt::from_string(s, score).unwrap()
}

#[test]
fn answer_from_str() {
    assert_eq!(Answer::from_char('A'), Ok(Answer::A));
    assert_eq!(Answer::from_char('B'), Ok(Answer::B));
    assert_eq!(Answer::from_char('C'), Ok(Answer::C));
    assert_eq!(Answer::from_char('D'), Ok(Answer::D));
    assert_eq!(Answer::from_char('X'), Ok(Answer::X));
}

#[test]
fn invalid_answer() {
    assert_eq!(Answer::from_char('E'), Err(QuizError::InvalidSymbol));
    assert_eq!(Answer::from_char('a'), Err(QuizError::InvalidSymbol));
}

#[test]
fn crosscheck_works_for_valid() {
    let key = AnswerKey {
        answers: vec![Answer::A, Answer::B],
    };
    let att = QuizAttempt {
        score: 1,
        answers: vec![Answer::A, Answer::A],
    };
    assert_eq!(att.check(&key), Ok(true))
}

#[test]
fn crosscheck_works_for_invalid() {
    let key = AnswerKey {
        answers: vec![Answer::A, Answer::B],
    };
    let att = QuizAttempt {
        score: 2,
        answers: vec![Answer::A, Answer::A],
    };
    assert_eq!(att.check(&key), Ok(false));
}

#[test]
fn crosscheck_works_for_invalid_length() {
    let key = AnswerKey {
        answers: vec![Answer::A, Answer::B],
    };
    let att = QuizAttempt {
        score: 2,
        answers: vec![Answer::A],
    };
    assert_eq!(att.check(&key), Err(QuizError::LengthMismatch))
}

#[test]
fn permutations_checking() {
    let att = QuizAttempt {
        score: 1,
        answers: vec![Answer::A, Answer::B],
    };
    let mut valid_keys: Vec<AnswerKey> = vec![];

    for key in [Answer::A, Answer::B, Answer::C, Answer::D]
        .iter()
        .permutations(2)
    {
        let akey = AnswerKey {
            answers: key.into_iter().copied().collect::<Vec<Answer>>(),
        };
        if att.check(&akey) == Ok(true) {
            valid_keys.push(akey)
        }
    }

    assert_eq!(valid_keys.len(), 4);

    let att2 = QuizAttempt {
        score: 2,
        answers: vec![Answer::A, Answer::B],
    };
    let mut valid_keys2: Vec<AnswerKey> = vec![];
    for key2 in [Answer::A, Answer::B, Answer::C, Answer::D]
        .iter()
        .permutations(2)
    {
        let akey = AnswerKey {
            answers: key2.into_iter().copied().collect::<Vec<Answer>>(),
        };
        if att2.check(&akey) == Ok(true) {
            valid_keys2.push(akey)
        }
    }
    assert_eq!(valid_keys2.len(), 1);
}

#[test]
fn generator_one_mistake_in_two() {
    let set = attempt("AB", 1).generate_valid_set();
    assert_eq!(set.len(), 6);
    assert_eq!(key_strings(&set), vec!["AA", "AC", "AD", "BB", "CB", "DB"]);
    let reduced = set.reduce(&attempt("AA", 2));
    assert_eq!(key_strings(&reduced), vec!["AA"]);
}

#[test]
fn generator_full_marks_gives_the_seed() {
    let set = attempt("ABCD", 4).generate_valid_set();
    assert_eq!(key_strings(&set), vec!["ABCD"]);
}

#[test]
fn generator_full_marks_with_sentinel_gives_nothing() {
    let set = attempt("AXC", 3).generate_valid_set();
    assert_eq!(set.len(), 0);
}

#[test]
fn generator_zero_score_differs_everywhere() {
    let set = attempt("AB", 0).generate_valid_set();
    let keys = key_strings(&set);
    assert_eq!(keys.len(), 9);
    for k in &keys {
        let c: Vec<char> = k.chars().collect();
        assert_ne!(c[0], 'A');
        assert_ne!(c[1], 'B');
    }
}

#[test]
fn generator_sentinel_position_must_be_replaced() {
    let set = attempt("XA", 1).generate_valid_set();
    assert_eq!(key_strings(&set), vec!["AA", "BA", "CA", "DA"]);
}

#[test]
fn generator_keys_pass_seed_check() {
    let seed = attempt("ABCDA", 3);
    let set = seed.generate_valid_set();
    // C(5,2) choices of wrong positions, three alternatives at each
    assert_eq!(set.len(), 10 * 9);
    for k in &set.keys {
        assert_eq!(seed.check(k), Ok(true));
    }
}

#[test]
fn exact_copy_admits_only_itself() {
    let key = AnswerKey::new(vec![Answer::C, Answer::A, Answer::D]).unwrap();
    let att = QuizAttempt::new(vec![Answer::C, Answer::A, Answer::D], 3).unwrap();
    assert_eq!(att.check(&key), Ok(true));
    let other = AnswerKey::new(vec![Answer::C, Answer::B, Answer::D]).unwrap();
    assert_eq!(att.check(&other), Ok(false));
}

#[test]
fn reduce_never_grows_and_order_is_irrelevant() {
    let seed = attempt("ABCD", 2);
    let a1 = attempt("ABDD", 3);
    let a2 = attempt("CBCA", 1);
    let start = seed.generate_valid_set();
    let n0 = start.len();
    let s1 = start.reduce(&a1);
    assert!(s1.len() <= n0);
    let n1 = s1.len();
    let s12 = s1.reduce(&a2);
    assert!(s12.len() <= n1);
    let s21 = seed.generate_valid_set().reduce(&a2).reduce(&a1);
    assert_eq!(key_strings(&s12), key_strings(&s21));
}

#[test]
fn final_keys_fit_every_attempt() {
    let atts = vec![attempt("ABCD", 2), attempt("ABDD", 3), attempt("CBCA", 1)];
    let set = solve(atts.clone()).unwrap();
    assert!(set.len() > 0);
    for k in &set.keys {
        for a in &atts {
            assert_eq!(a.check(k), Ok(true));
        }
    }
}

#[test]
fn from_string_errors() {
    assert_eq!(
        QuizAttempt::from_string("ABE", 1),
        Err(QuizError::InvalidSymbol)
    );
    assert_eq!(
        QuizAttempt::from_string("AB", 3),
        Err(QuizError::ImpossibleScore)
    );
    assert_eq!(
        QuizAttempt::from_string("AB", -1),
        Err(QuizError::ImpossibleScore)
    );
    assert_eq!(
        QuizAttempt::from_string("AE", 3),
        Err(QuizError::ImpossibleScore)
    );
}

#[test]
fn from_string_reads_either_case() {
    let att = QuizAttempt::from_string("aBcDx", 2).unwrap();
    assert_eq!(
        att.answers,
        vec![Answer::A, Answer::B, Answer::C, Answer::D, Answer::X]
    );
    assert_eq!(att.score, 2);
}

#[test]
fn from_list_reads_records() {
    let att = QuizAttempt::from_list(&["ABCD", "3"]).unwrap();
    assert_eq!(att.score, 3);
    assert_eq!(att.answers.len(), 4);
    assert_eq!(QuizAttempt::from_list(&["ABCD", "+2", "extra"]).unwrap().score, 2);
    assert_eq!(
        QuizAttempt::from_list(&["ABCD"]),
        Err(QuizError::MalformedRecord)
    );
    assert_eq!(
        QuizAttempt::from_list(&["ABCD", "three"]),
        Err(QuizError::MalformedRecord)
    );
    assert_eq!(
        QuizAttempt::from_list(&["ABCD", ""]),
        Err(QuizError::MalformedRecord)
    );
    assert_eq!(
        QuizAttempt::from_list(&["ABCD", "-"]),
        Err(QuizError::MalformedRecord)
    );
    assert_eq!(
        QuizAttempt::from_list(&["ABCD", "-1"]),
        Err(QuizError::ImpossibleScore)
    );
    assert_eq!(
        QuizAttempt::from_list(&["ABCD", "2147483648"]),
        Err(QuizError::MalformedRecord)
    );
    assert_eq!(
        QuizAttempt::from_list(&["ABCD", "2147483647"]),
        Err(QuizError::ImpossibleScore)
    );
    assert_eq!(
        QuizAttempt::from_list(&["ABCD", "-2147483648"]),
        Err(QuizError::ImpossibleScore)
    );
    assert_eq!(
        QuizAttempt::from_list(&["ABQD", "1"]),
        Err(QuizError::InvalidSymbol)
    );
}

#[test]
fn key_as_string() {
    let key = AnswerKey::new(vec![Answer::D, Answer::A, Answer::C]).unwrap();
    assert_eq!(key.as_string(), "DAC");
    assert_eq!(
        AnswerKey::new(vec![Answer::A, Answer::X]),
        Err(QuizError::InvalidSymbol)
    );
}

#[test]
fn attempt_new_checks_score() {
    assert!(QuizAttempt::new(vec![Answer::A], 1).is_ok());
    assert_eq!(
        QuizAttempt::new(vec![Answer::A], 2),
        Err(QuizError::ImpossibleScore)
    );
}

#[test]
fn sorting_by_descending_score() {
    let sorted = sort_by_score(vec![attempt("AB", 1), attempt("CD", 2), attempt("AA", 0)]);
    let scores: Vec<i32> = sorted.iter().map(|a| a.score).collect();
    assert_eq!(scores, vec![2, 1, 0]);
    assert_eq!(sorted[0].answers, vec![Answer::C, Answer::D]);
}

#[test]
fn lengths_must_agree() {
    assert!(lengths_agree(&vec![attempt("AB", 1), attempt("CD", 2)]));
    assert!(!lengths_agree(&vec![attempt("AB", 1), attempt("CDA", 2)]));
}

#[test]
fn solve_errors() {
    assert_eq!(solve(vec![]).err(), Some(QuizError::EmptyInput));
    assert_eq!(
        solve(vec![attempt("AB", 1), attempt("ABC", 1)]).err(),
        Some(QuizError::LengthMismatch)
    );
}

#[test]
fn infer_concrete_scenario() {
    let keys = infer(&[("AB", 1), ("AA", 2)]).unwrap();
    assert_eq!(keys, vec!["AA".to_string()]);
    let mut keys = infer(&[("AB", 1)]).unwrap();
    keys.sort();
    assert_eq!(keys, vec!["AA", "AC", "AD", "BB", "CB", "DB"]);
}

#[test]
fn infer_errors() {
    assert_eq!(infer(&[]), Err(QuizError::EmptyInput));
    assert_eq!(
        infer(&[("AB", 1), ("AE", 1)]),
        Err(QuizError::InvalidSymbol)
    );
    assert_eq!(
        infer(&[("AB", 1), ("AB", 5), ("AE", 1)]),
        Err(QuizError::ImpossibleScore)
    );
    assert_eq!(
        infer(&[("AB", 1), ("ABC", 1)]),
        Err(QuizError::LengthMismatch)
    );
}

#[test]
fn infer_matches_exhaustive_search() {
    let records = [("ABCD", 3), ("BACD", 3), ("BBAD", 3), ("BBCA", 3)];
    let mut keys = infer(&records).unwrap();
    keys.sort();
    let atts: Vec<QuizAttempt> = records.iter().map(|(s, n)| attempt(s, *n)).collect();
    let mut expected: Vec<String> = vec![];
    for answers in (0..4)
        .map(|_| vec![Answer::A, Answer::B, Answer::C, Answer::D])
        .multi_cartesian_product()
    {
        let key = AnswerKey { answers };
        if atts.iter().all(|a| a.check(&key) == Ok(true)) {
            expected.push(key.as_string());
        }
    }
    expected.sort();
    assert!(expected.contains(&"BBCD".to_string()));
    assert_eq!(keys, expected);
}

#[test]
fn answer_symbols() {
    let all = [Answer::A, Answer::B, Answer::C, Answer::D, Answer::X];
    let written: String = all.iter().map(|a| a.symbol()).collect();
    assert_eq!(written, "ABCDX");
    for a in all {
        assert_eq!(Answer::from_char(a.symbol()), Ok(a));
        assert_eq!(a.as_str(), a.symbol().to_string());
    }
}
