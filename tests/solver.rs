use wordler::letters::words_of_length;
use wordler::oracle::memory_oracle::MemoryOracle;
use wordler::oracle::Disposition::{Correct, Extra, Missing, NotInWord, WrongPosition};
use wordler::petitioner::dict_solver::DictSolver;
use wordler::petitioner::{Error, Petitioner};
use wordler::{play_round, solve_with_dictionary, verdict, wordle, GameError, Round};

fn words(ws: &[&str]) -> Vec<String> {
    ws.iter().map(|w| w.to_string()).collect()
}

#[test]
fn construction_without_words_of_the_length_fails() {
    let r = DictSolver::new(4, words(&["apple", "pie", "kiwis"]));
    assert!(matches!(r, Err(Error::EmptyDictionary)));
    let r = DictSolver::new(4, Vec::new());
    assert!(matches!(r, Err(Error::EmptyDictionary)));
}

#[test]
fn construction_keeps_words_of_the_length() {
    let s = DictSolver::new(3, words(&["cat", "horse", "dog", "ox"])).unwrap();
    assert_eq!(s.candidate_count(), 2);
    assert!(!s.awaiting_feedback());
}

#[test]
fn words_of_length_filters_in_order() {
    let kept = words_of_length(&words(&["cat", "horse", "dog", "ox"]), 3);
    assert_eq!(kept, words(&["cat", "dog"]));
}

#[test]
fn second_guess_without_feedback_fails() {
    let mut s = DictSolver::new(3, words(&["cat", "dog"])).unwrap();
    let g = s.prepare_guess().unwrap();
    assert!(g == "cat" || g == "dog");
    assert!(s.awaiting_feedback());
    assert!(matches!(s.prepare_guess(), Err(Error::AwaitingFeedback)));
}

#[test]
fn feedback_without_guess_fails() {
    let mut s = DictSolver::new(3, words(&["cat", "dog"])).unwrap();
    assert!(matches!(s.feedback(vec![Correct, Correct, Correct]), Err(Error::UnexpectedFeedback)));
    s.prepare_guess().unwrap();
    s.feedback(vec![NotInWord, NotInWord, NotInWord]).unwrap();
    assert!(matches!(s.feedback(vec![Correct, Correct, Correct]), Err(Error::UnexpectedFeedback)));
}

#[test]
fn feedback_of_the_wrong_shape_is_refused() {
    let mut s = DictSolver::new(3, words(&["cat", "dog"])).unwrap();
    s.prepare_guess().unwrap();
    assert!(matches!(s.feedback(vec![Correct, Correct]), Err(Error::InappropriateFeedback)));
    assert_eq!(s.candidate_count(), 2);
    assert!(!s.awaiting_feedback());
    s.prepare_guess().unwrap();
    assert!(matches!(
        Petitioner::feedback(&mut s, vec![Correct, Correct, Missing]),
        Err(Error::InappropriateFeedback)
    ));
    assert!(!s.awaiting_feedback());
    s.prepare_guess().unwrap();
    assert!(matches!(
        Petitioner::feedback(&mut s, vec![Correct, Correct, Correct, Extra]),
        Err(Error::InappropriateFeedback)
    ));
    assert_eq!(s.candidate_count(), 2);
    assert!(matches!(
        Petitioner::feedback(&mut s, vec![Correct, Correct, Missing]),
        Err(Error::UnexpectedFeedback)
    ));
}

#[test]
fn feedback_never_grows_the_candidates() {
    let dict = words(&["cat", "cot", "dog", "act", "tac"]);
    let feedbacks = vec![
        vec![NotInWord, NotInWord, NotInWord],
        vec![Correct, Correct, Correct],
        vec![WrongPosition, Correct, NotInWord],
        vec![Correct, WrongPosition, WrongPosition],
    ];
    for fb in feedbacks {
        let mut s = DictSolver::new(3, dict.clone()).unwrap();
        let before = s.candidate_count();
        s.prepare_guess_at(0).unwrap();
        s.feedback(fb).unwrap();
        assert!(s.candidate_count() <= before);
    }
}

#[test]
fn narrowing_by_each_kind_of_disposition() {
    let dict = words(&["cat", "cot", "dog", "act", "tac"]);
    // guess "cat": c and t in place, a absent
    let mut s = DictSolver::new(3, dict.clone()).unwrap();
    assert_eq!(s.prepare_guess_at(0).unwrap(), "cat");
    s.feedback(vec![Correct, NotInWord, Correct]).unwrap();
    assert_eq!(s.candidate_count(), 1);
    assert_eq!(s.prepare_guess_at(7).unwrap(), "cot");
    // guess "tac": t and c elsewhere, a absent
    let mut s = DictSolver::new(3, dict.clone()).unwrap();
    assert_eq!(s.prepare_guess_at(4).unwrap(), "tac");
    s.feedback(vec![WrongPosition, NotInWord, WrongPosition]).unwrap();
    assert_eq!(s.candidate_count(), 1);
    assert_eq!(s.prepare_guess_at(0).unwrap(), "cot");
    // guess "cat": c in place, a absent, t elsewhere
    let mut s = DictSolver::new(3, dict).unwrap();
    s.prepare_guess_at(0).unwrap();
    s.feedback(vec![Correct, NotInWord, WrongPosition]).unwrap();
    assert_eq!(s.candidate_count(), 0);
}

#[test]
fn contradictory_feedback_leaves_the_solver_stumped() {
    let mut s = DictSolver::new(3, words(&["cat"])).unwrap();
    s.prepare_guess().unwrap();
    s.feedback(vec![NotInWord, NotInWord, NotInWord]).unwrap();
    assert_eq!(s.candidate_count(), 0);
    assert!(matches!(s.prepare_guess(), Err(Error::Stumped)));
    assert!(matches!(s.prepare_guess_at(3), Err(Error::Stumped)));
}

#[test]
fn pick_counts_modulo_the_candidates() {
    let mut s = DictSolver::new(3, words(&["cat", "dog"])).unwrap();
    assert_eq!(s.prepare_guess_at(3).unwrap(), "dog");
}

#[test]
fn deterministic_game_converges() {
    let dict = words(&["adieu", "audio", "radio"]);
    let mut solver = DictSolver::new(5, dict.clone()).unwrap();
    let mut oracle = MemoryOracle::new("radio".to_string());
    let mut rounds = 0;
    let answer = loop {
        assert!(rounds < dict.len());
        rounds += 1;
        let guess = solver.prepare_guess_at(0).unwrap();
        match oracle.guess(&guess).unwrap() {
            Ok(()) => break guess,
            Err(fb) => solver.feedback(fb).unwrap(),
        }
    };
    assert_eq!(answer, "radio");
    assert_eq!(rounds, 2);
}

#[test]
fn wordle_finds_the_secret() {
    for _ in 0..20 {
        let dict = words(&["adieu", "audio", "radio"]);
        let mut solver = DictSolver::new(5, dict).unwrap();
        let mut oracle = MemoryOracle::new("radio".to_string());
        let mut rounds = Vec::new();
        let answer = wordle(&mut oracle, &mut solver, 3, &mut rounds).unwrap();
        assert_eq!(answer, "radio");
        assert!(rounds.len() < 3);
        for (guess, fb) in &rounds {
            assert_ne!(guess, "radio");
            assert_eq!(fb.len(), 5);
        }
    }
}

#[test]
fn wordle_runs_out_of_rounds() {
    let mut solver = DictSolver::new(3, words(&["cat", "cot", "cut"])).unwrap();
    let mut oracle = MemoryOracle::new("cut".to_string());
    let mut rounds = Vec::new();
    let r = wordle(&mut oracle, &mut solver, 0, &mut rounds);
    assert!(matches!(r, Err(GameError::OutOfRounds)));
    assert!(rounds.is_empty());
}

#[test]
fn wordle_reports_the_oracle_limit() {
    let mut solver = DictSolver::new(3, words(&["cat", "cot", "cut"])).unwrap();
    let mut oracle = MemoryOracle::new("cut".to_string());
    oracle.max_guesses = Some(0);
    let mut rounds = Vec::new();
    let r = wordle(&mut oracle, &mut solver, 5, &mut rounds);
    assert!(matches!(r, Err(GameError::Oracle(wordler::oracle::Error::TooManyGuesses))));
}

#[test]
fn solver_through_the_trait() {
    let mut s = DictSolver::new(3, words(&["cat"])).unwrap();
    let g = Petitioner::prepare_guess(&mut s).unwrap();
    assert_eq!(g, "cat");
    assert!(Petitioner::feedback(&mut s, vec![Correct, Correct, Correct]).is_ok());
}

#[test]
fn wordle_without_rounds_asks_nothing() {
    let mut solver = DictSolver::new(3, words(&["cat"])).unwrap();
    let mut oracle = MemoryOracle::new("cat".to_string());
    let mut rounds = vec![("dog".to_string(), vec![NotInWord, NotInWord, NotInWord])];
    let r = wordle(&mut oracle, &mut solver, 0, &mut rounds);
    assert!(matches!(r, Err(GameError::OutOfRounds)));
    assert_eq!(rounds.len(), 1);
    assert!(!solver.awaiting_feedback());
}

#[test]
fn verdict_maps_each_answer() {
    assert!(matches!(verdict("cat".to_string(), Ok(Ok(()))), Round::Won(w) if w == "cat"));
    match verdict("cot".to_string(), Ok(Err(vec![Correct, NotInWord, Correct]))) {
        Round::Wrong(g, fb) => {
            assert_eq!(g, "cot");
            assert_eq!(fb, vec![Correct, NotInWord, Correct]);
        }
        _ => panic!("expected a wrong guess"),
    }
    assert!(matches!(
        verdict("cot".to_string(), Err(wordler::oracle::Error::TooManyGuesses)),
        Round::Over(GameError::Oracle(wordler::oracle::Error::TooManyGuesses))
    ));
}

#[test]
fn one_round_of_play() {
    let mut solver = DictSolver::new(3, words(&["cat", "cot"])).unwrap();
    let mut oracle = MemoryOracle::new("cut".to_string());
    match play_round(&mut oracle, &mut solver) {
        Round::Wrong(g, fb) => {
            assert!(g == "cat" || g == "cot");
            assert_eq!(fb, vec![Correct, NotInWord, Correct]);
        }
        _ => panic!("expected a wrong guess"),
    }
    assert!(!solver.awaiting_feedback());
    assert_eq!(solver.candidate_count(), 1);
    assert!(matches!(play_round(&mut oracle, &mut solver), Round::Wrong(_, _)));
    assert_eq!(solver.candidate_count(), 0);
    assert!(matches!(
        play_round(&mut oracle, &mut solver),
        Round::Over(GameError::Petitioner(Error::Stumped))
    ));
}

#[test]
fn dictionary_game_finds_the_secret() {
    for _ in 0..20 {
        let mut oracle = MemoryOracle::new("radio".to_string());
        let mut rounds = Vec::new();
        let dict = words(&["adieu", "audio", "radio", "cat"]);
        let answer = solve_with_dictionary(&mut oracle, dict, &mut rounds).unwrap();
        assert_eq!(answer, "radio");
        assert!(rounds.len() <= 2);
        assert!(rounds.iter().all(|(g, _)| g != "radio"));
    }
}

#[test]
fn dictionary_game_without_the_secret_is_stumped() {
    let mut oracle = MemoryOracle::new("radio".to_string());
    let mut rounds = Vec::new();
    let r = solve_with_dictionary(&mut oracle, words(&["adieu", "audio"]), &mut rounds);
    assert!(matches!(r, Err(GameError::Petitioner(Error::Stumped))));
    assert!(!rounds.is_empty() && rounds.len() <= 2);
}

#[test]
fn dictionary_game_without_words_of_the_length() {
    let mut oracle = MemoryOracle::new("radio".to_string());
    let mut rounds = Vec::new();
    let r = solve_with_dictionary(&mut oracle, words(&["cat", "horse!"]), &mut rounds);
    assert!(matches!(r, Err(GameError::Petitioner(Error::EmptyDictionary))));
    assert!(rounds.is_empty());
}

#[test]
fn dictionary_game_respects_the_oracle_limit() {
    let mut oracle = MemoryOracle::new("radio".to_string());
    oracle.max_guesses = Some(0);
    let mut rounds = Vec::new();
    let r = solve_with_dictionary(&mut oracle, words(&["adieu", "radio"]), &mut rounds);
    assert!(matches!(r, Err(GameError::Oracle(wordler::oracle::Error::TooManyGuesses))));
}
