use bulls_and_cows::{Host, HostError, Letters};
use std::collections::HashSet;

#[test]
fn random_answer() {
    let host = bulls_and_cows::Host::build_with_random_answer(
        bulls_and_cows::Letters::generate_numeric_letters(),
        4,
    )
    .unwrap();

    assert_eq!(4, host.get_answer_length());
}

#[test]
fn known_answer() {
    let host = bulls_and_cows::Host::build_with_known_answer(
        bulls_and_cows::Letters::generate_numeric_letters(),
        vec![1, 2, 3, 4],
    )
    .unwrap();

    assert_eq!((4, 0), host.answer(&vec![1, 2, 3, 4]).unwrap());
    assert_eq!((2, 2), host.answer(&vec![1, 2, 4, 3]).unwrap());
    assert_eq!((0, 4), host.answer(&vec![4, 3, 2, 1]).unwrap());
    assert_eq!((0, 0), host.answer(&vec![5, 6, 7, 8]).unwrap());
}

fn is_valid_answer(letters: &HashSet<u8>, answer: &[u8]) -> bool {
    let distinct: HashSet<u8> = answer.iter().copied().collect();
    distinct.len() == answer.len() && answer.iter().all(|l| letters.contains(l))
}

#[test]
fn numeric_letters_are_the_ten_digits() {
    let letters = Letters::generate_numeric_letters();
    assert_eq!(10, letters.len());
    for digit in 0u8..=9 {
        assert!(letters.contains(&digit));
    }
}

#[test]
fn build_takes_the_first_letters_in_iteration_order() {
    let host = Host::build(Letters::generate_numeric_letters(), 4).unwrap();
    let first: Vec<u8> = host.get_letters().iter().take(4).copied().collect();
    assert_eq!(first.as_slice(), host.get_answer());
    assert_eq!(4, host.get_answer_length());
    assert!(is_valid_answer(host.get_letters(), host.get_answer()));
    assert_eq!(Letters::generate_numeric_letters(), *host.get_letters());
}

#[test]
fn build_takes_the_whole_alphabet() {
    let host = Host::build(Letters::generate_numeric_letters(), 10).unwrap();
    assert_eq!(10, host.get_answer_length());
    assert!(is_valid_answer(host.get_letters(), host.get_answer()));
}

#[test]
fn build_refuses_an_empty_alphabet() {
    let empty: HashSet<u8> = HashSet::new();
    assert_eq!(Some(HostError::LettersEmpty), Host::build(empty.clone(), 1).err());
    assert_eq!(Some(HostError::LettersEmpty), Host::build(empty.clone(), 0).err());
    assert_eq!(
        Some(HostError::LettersEmpty),
        Host::build_with_random_answer(empty.clone(), 1).err()
    );
    assert_eq!(
        Some(HostError::LettersEmpty),
        Host::build_with_known_answer(empty, vec![1]).err()
    );
}

#[test]
fn build_refuses_a_wrong_length() {
    let letters = Letters::generate_numeric_letters();
    assert_eq!(Some(HostError::AnswerLengthIncorrect), Host::build(letters.clone(), 0).err());
    assert_eq!(Some(HostError::AnswerLengthIncorrect), Host::build(letters.clone(), 11).err());
    assert_eq!(
        Some(HostError::AnswerLengthIncorrect),
        Host::build_with_random_answer(letters.clone(), 0).err()
    );
    assert_eq!(
        Some(HostError::AnswerLengthIncorrect),
        Host::build_with_random_answer(letters.clone(), 11).err()
    );
    assert_eq!(
        Some(HostError::AnswerLengthIncorrect),
        Host::build_with_known_answer(letters.clone(), vec![]).err()
    );
    assert_eq!(
        Some(HostError::AnswerLengthIncorrect),
        Host::build_with_known_answer(letters, vec![0, 1, 2, 3, 4, 5, 6, 7, 8, 9, 0]).err()
    );
}

#[test]
fn known_answer_reports_the_first_wrong_letter() {
    let letters = Letters::generate_numeric_letters();
    assert_eq!(
        Some(HostError::AnswerContainsIncorrectLetter(12)),
        Host::build_with_known_answer(letters.clone(), vec![1, 12, 1, 13]).err()
    );
    assert_eq!(
        Some(HostError::AnswerContainsDuplicatedLetter(1)),
        Host::build_with_known_answer(letters.clone(), vec![1, 2, 1, 13]).err()
    );
    assert_eq!(
        Some(HostError::AnswerContainsIncorrectLetter(13)),
        Host::build_with_known_answer(letters.clone(), vec![1, 2, 13, 13]).err()
    );
    assert_eq!(
        Some(HostError::AnswerContainsDuplicatedLetter(3)),
        Host::build_with_known_answer(letters, vec![3, 3]).err()
    );
}

#[test]
fn a_letter_both_foreign_and_repeated_is_reported_as_foreign() {
    let mut letters: HashSet<u8> = HashSet::new();
    letters.insert(1);
    letters.insert(2);
    letters.insert(3);
    let host = Host::build_with_known_answer(letters, vec![1, 2, 3]).unwrap();
    assert_eq!(
        Err(HostError::AnswerContainsIncorrectLetter(7)),
        host.answer(&[7, 7, 1])
    );
}

#[test]
fn answer_refuses_a_wrong_length() {
    let host = Host::build_with_known_answer(Letters::generate_numeric_letters(), vec![1, 2, 3, 4])
        .unwrap();
    assert_eq!(Err(HostError::AnswerLengthIncorrect), host.answer(&[1, 2, 3]));
    assert_eq!(Err(HostError::AnswerLengthIncorrect), host.answer(&[1, 2, 3, 4, 5]));
    assert_eq!(Err(HostError::AnswerLengthIncorrect), host.answer(&[]));
    // the length is looked at before the letters
    assert_eq!(Err(HostError::AnswerLengthIncorrect), host.answer(&[77, 77, 77]));
}

#[test]
fn answer_reports_a_foreign_letter() {
    let host = Host::build_with_known_answer(Letters::generate_numeric_letters(), vec![1, 2, 3, 4])
        .unwrap();
    assert_eq!(
        Err(HostError::AnswerContainsIncorrectLetter(10)),
        host.answer(&[1, 2, 10, 4])
    );
    assert_eq!(
        Err(HostError::AnswerContainsIncorrectLetter(200)),
        host.answer(&[200, 2, 10, 4])
    );
}

#[test]
fn answer_reports_the_first_repeated_letter() {
    let host = Host::build_with_known_answer(Letters::generate_numeric_letters(), vec![1, 2, 3, 4])
        .unwrap();
    assert_eq!(
        Err(HostError::AnswerContainsDuplicatedLetter(5)),
        host.answer(&[5, 6, 5, 6])
    );
    assert_eq!(
        Err(HostError::AnswerContainsDuplicatedLetter(6)),
        host.answer(&[5, 6, 6, 5])
    );
    // the repeat comes before the foreign letter
    assert_eq!(
        Err(HostError::AnswerContainsDuplicatedLetter(1)),
        host.answer(&[1, 1, 99, 4])
    );
    // the foreign letter comes before the repeat
    assert_eq!(
        Err(HostError::AnswerContainsIncorrectLetter(99)),
        host.answer(&[1, 99, 1, 4])
    );
}

#[test]
fn the_secret_scores_all_bulls() {
    let letters = Letters::generate_numeric_letters();
    for length in 1..=10usize {
        let host = Host::build_with_random_answer(letters.clone(), length).unwrap();
        let secret = host.get_answer().to_vec();
        assert_eq!(Ok((length, 0)), host.answer(&secret));
    }
}

#[test]
fn scores_count_bulls_and_cows() {
    let host = Host::build_with_known_answer(Letters::generate_numeric_letters(), vec![4, 2, 7, 1])
        .unwrap();
    assert_eq!(Ok((1, 2)), host.answer(&[1, 2, 3, 4]));
    assert_eq!(Ok((0, 1)), host.answer(&[7, 8, 9, 0]));
    assert_eq!(Ok((1, 0)), host.answer(&[4, 8, 9, 0]));
    assert_eq!(Ok((0, 4)), host.answer(&[2, 4, 1, 7]));
}

#[test]
fn scoring_is_symmetric_between_valid_words() {
    let letters = Letters::generate_numeric_letters();
    let words: [[u8; 4]; 5] = [[1, 2, 3, 4], [4, 3, 2, 1], [1, 3, 5, 7], [0, 9, 8, 1], [2, 1, 4, 3]];
    for a in words.iter() {
        for b in words.iter() {
            let host_a = Host::build_with_known_answer(letters.clone(), a.to_vec()).unwrap();
            let host_b = Host::build_with_known_answer(letters.clone(), b.to_vec()).unwrap();
            assert_eq!(host_a.answer(b), host_b.answer(a));
        }
    }
}

#[test]
fn random_answers_are_valid_and_vary() {
    let mut host = Host::build_with_random_answer(Letters::generate_numeric_letters(), 4).unwrap();
    assert!(is_valid_answer(host.get_letters(), host.get_answer()));
    let mut drawn: HashSet<u8> = HashSet::new();
    let mut answers: HashSet<Vec<u8>> = HashSet::new();
    for _ in 0..200 {
        assert_eq!(Ok(()), host.renew_with_random_answer(4));
        assert_eq!(4, host.get_answer_length());
        assert!(is_valid_answer(host.get_letters(), host.get_answer()));
        drawn.extend(host.get_answer().iter().copied());
        answers.insert(host.get_answer().to_vec());
    }
    // the letters are drawn from the whole alphabet
    assert_eq!(Letters::generate_numeric_letters(), drawn);
    assert!(answers.len() > 100);
}

#[test]
fn built_random_answers_come_from_the_whole_alphabet() {
    let mut drawn: HashSet<u8> = HashSet::new();
    for _ in 0..200 {
        let host = Host::build_with_random_answer(Letters::generate_numeric_letters(), 3).unwrap();
        assert!(is_valid_answer(host.get_letters(), host.get_answer()));
        drawn.extend(host.get_answer().iter().copied());
    }
    assert_eq!(Letters::generate_numeric_letters(), drawn);
}

#[test]
fn renew_with_random_answer_refuses_a_wrong_length() {
    let mut host =
        Host::build_with_known_answer(Letters::generate_numeric_letters(), vec![1, 2, 3, 4])
            .unwrap();
    assert_eq!(Err(HostError::AnswerLengthIncorrect), host.renew_with_random_answer(0));
    assert_eq!(Err(HostError::AnswerLengthIncorrect), host.renew_with_random_answer(11));
    assert_eq!(&[1, 2, 3, 4], host.get_answer());
    assert_eq!(Ok(()), host.renew_with_random_answer(10));
    assert_eq!(10, host.get_answer_length());
}

#[test]
fn renew_with_known_answer_replaces_the_secret() {
    let mut host =
        Host::build_with_known_answer(Letters::generate_numeric_letters(), vec![1, 2, 3, 4])
            .unwrap();
    assert_eq!(Ok(()), host.renew_with_known_answer(vec![9, 8, 7]));
    assert_eq!(&[9, 8, 7], host.get_answer());
    assert_eq!(3, host.get_answer_length());
    assert_eq!(Ok((3, 0)), host.answer(&[9, 8, 7]));
    assert_eq!(Letters::generate_numeric_letters(), *host.get_letters());
}

#[test]
fn renew_with_known_answer_keeps_the_secret_on_error() {
    let mut host =
        Host::build_with_known_answer(Letters::generate_numeric_letters(), vec![1, 2, 3, 4])
            .unwrap();
    assert_eq!(Err(HostError::AnswerLengthIncorrect), host.renew_with_known_answer(vec![]));
    assert_eq!(
        Err(HostError::AnswerContainsIncorrectLetter(42)),
        host.renew_with_known_answer(vec![5, 42])
    );
    assert_eq!(
        Err(HostError::AnswerContainsDuplicatedLetter(5)),
        host.renew_with_known_answer(vec![5, 6, 5])
    );
    assert_eq!(&[1, 2, 3, 4], host.get_answer());
}

#[test]
fn unchecked_construction_installs_the_answer() {
    let mut host =
        Host::build_with_known_answer_unsafe(Letters::generate_numeric_letters(), vec![3, 1, 4]);
    assert_eq!(&[3, 1, 4], host.get_answer());
    assert_eq!(Ok((1, 2)), host.answer(&[1, 3, 4]));
    host.renew_with_known_answer_unsafe(vec![5, 9]);
    assert_eq!(&[5, 9], host.get_answer());
    assert_eq!(Ok((0, 1)), host.answer(&[9, 0]));
}

#[test]
fn hosts_work_over_other_letters() {
    let mut letters: HashSet<char> = HashSet::new();
    for c in ['a', 'b', 'c', 'd', 'e'] {
        letters.insert(c);
    }
    let host = Host::build_with_known_answer(letters, vec!['a', 'c', 'e']).unwrap();
    assert_eq!(Ok((1, 1)), host.answer(&['a', 'e', 'b']));
    assert_eq!(
        Err(HostError::AnswerContainsIncorrectLetter('z')),
        host.answer(&['a', 'z', 'b'])
    );
}
