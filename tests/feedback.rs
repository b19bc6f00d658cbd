use wordler::oracle::memory_oracle::MemoryOracle;
use wordler::oracle::Disposition::{Correct, Extra, Missing, NotInWord, WrongPosition};
use wordler::oracle::{score, Error, Oracle};

#[test]
fn identical_words_match() {
    assert!(score("crane", "crane").is_ok());
    assert!(score("", "").is_ok());
}

#[test]
fn differing_words_of_equal_length_give_feedback() {
    let fb = score("abcde", "abcdf").unwrap_err();
    assert_eq!(fb.len(), 5);
    assert!(fb.iter().all(|d| *d != Missing && *d != Extra));
    assert!(!fb.iter().all(|d| *d == Correct));
    assert_eq!(fb, vec![Correct, Correct, Correct, Correct, NotInWord]);
}

#[test]
fn feedback_length_is_the_longer_length() {
    assert_eq!(score("cat", "c").unwrap_err().len(), 3);
    assert_eq!(score("c", "cattle").unwrap_err().len(), 6);
    assert_eq!(score("", "ab").unwrap_err().len(), 2);
    assert_eq!(score("ab", "").unwrap_err().len(), 2);
}

#[test]
fn reversed_word() {
    assert_eq!(
        score("abcde", "edcba").unwrap_err(),
        vec![WrongPosition, WrongPosition, Correct, WrongPosition, WrongPosition]
    );
}

#[test]
fn short_guess_is_missing_letters() {
    assert_eq!(score("cat", "ca").unwrap_err(), vec![Correct, Correct, Missing]);
}

#[test]
fn long_guess_has_extra_letters() {
    assert_eq!(score("cat", "cats").unwrap_err(), vec![Correct, Correct, Correct, Extra]);
}

#[test]
fn letters_absent_from_the_secret() {
    assert_eq!(score("cat", "dog").unwrap_err(), vec![NotInWord, NotInWord, NotInWord]);
}

#[test]
fn repeated_letters_are_not_counted() {
    assert_eq!(score("abc", "aab").unwrap_err(), vec![Correct, WrongPosition, WrongPosition]);
}

#[test]
fn multibyte_letters_are_single_positions() {
    assert_eq!(score("été", "ete").unwrap_err(), vec![NotInWord, Correct, NotInWord]);
}

#[test]
fn memory_oracle_judges_its_secret() {
    let mut oracle = MemoryOracle::new("radio".to_string());
    assert_eq!(oracle.word_length(), 5);
    assert!(matches!(oracle.guess("radio"), Ok(Ok(()))));
    match oracle.guess("audio") {
        Ok(Err(fb)) => assert_eq!(fb, vec![WrongPosition, NotInWord, Correct, Correct, Correct]),
        _ => panic!("expected feedback"),
    }
}

#[test]
fn memory_oracle_enforces_its_limit() {
    let mut oracle = MemoryOracle::new("cat".to_string());
    oracle.max_guesses = Some(2);
    assert!(matches!(oracle.guess("cot"), Ok(Err(_))));
    assert!(matches!(oracle.guess("cat"), Ok(Ok(()))));
    assert!(matches!(oracle.guess("cat"), Err(Error::TooManyGuesses)));
}

#[test]
fn memory_oracle_through_the_trait() {
    let mut oracle = MemoryOracle::new("cat".to_string());
    assert!(matches!(Oracle::word_length(&oracle), Ok(3)));
    assert!(matches!(Oracle::guess(&mut oracle, "cat"), Ok(Ok(()))));
}

#[test]
fn random_oracle_picks_a_word_of_the_length() {
    let words = vec!["a".to_string(), "bb".to_string(), "cc".to_string(), "ddd".to_string()];
    for _ in 0..20 {
        let mut oracle = MemoryOracle::create_random(2, words.clone()).unwrap();
        assert_eq!(oracle.word_length(), 2);
        let hits = [oracle.guess("bb"), oracle.guess("cc")]
            .iter()
            .filter(|r| matches!(r, Ok(Ok(()))))
            .count();
        assert_eq!(hits, 1);
    }
    assert!(MemoryOracle::create_random(4, words).is_none());
}

#[test]
fn oracle_at_a_chosen_index() {
    let words = vec!["a".to_string(), "bb".to_string(), "cc".to_string(), "ddd".to_string()];
    let mut first = MemoryOracle::create_at(2, words.clone(), 0).unwrap();
    assert!(matches!(first.guess("bb"), Ok(Ok(()))));
    let mut wrapped = MemoryOracle::create_at(2, words.clone(), 3).unwrap();
    assert!(matches!(wrapped.guess("cc"), Ok(Ok(()))));
    assert!(MemoryOracle::create_at(5, words, 0).is_none());
}

#[test]
fn oracle_trait_reports_wrong_guesses() {
    let mut oracle = MemoryOracle::new("cat".to_string());
    match Oracle::guess(&mut oracle, "cot") {
        Ok(Err(fb)) => assert_eq!(fb, vec![Correct, NotInWord, Correct]),
        _ => panic!("expected feedback"),
    }
}
