use bulls_and_cows::arrangements::{index_arrangements, index_subsets};
use bulls_and_cows::counting::permutation_count;
use bulls_and_cows::play::players::{ComputerGuesser, ComputerQuestioner};
use bulls_and_cows::{Host, HostError, Letters};
use std::collections::HashSet;

fn digits_host(secret: Vec<u8>) -> Host<u8> {
    Host::build_with_known_answer(Letters::generate_numeric_letters(), secret).unwrap()
}

fn small_letters(n: u8) -> HashSet<u8> {
    (0..n).collect()
}

fn factorial(n: usize) -> usize {
    (1..=n).product()
}

#[test]
fn permutation_count_is_the_quotient_of_factorials() {
    assert_eq!(Some(5040), permutation_count(10, 4));
    assert_eq!(Some(1), permutation_count(10, 0));
    assert_eq!(Some(10), permutation_count(10, 1));
    assert_eq!(Some(3628800), permutation_count(10, 10));
    assert_eq!(Some(0), permutation_count(3, 5));
    assert_eq!(Some(1), permutation_count(0, 0));
    for n in 0..=10usize {
        for k in 0..=n {
            assert_eq!(Some(factorial(n) / factorial(n - k)), permutation_count(n, k));
        }
    }
}

#[test]
fn permutation_count_reports_what_does_not_fit() {
    assert_eq!(None, permutation_count(usize::MAX, 2));
    assert_eq!(Some(usize::MAX), permutation_count(usize::MAX, 1));
    assert_eq!(None, permutation_count(100, 50));
}

#[test]
fn index_subsets_are_all_rising_selections() {
    let subsets = index_subsets(5, 2);
    assert_eq!(10, subsets.len());
    let distinct: HashSet<Vec<usize>> = subsets.iter().cloned().collect();
    assert_eq!(10, distinct.len());
    for subset in subsets.iter() {
        assert_eq!(2, subset.len());
        assert!(subset[0] < subset[1]);
        assert!(subset[1] < 5);
    }
    assert_eq!(vec![Vec::<usize>::new()], index_subsets(3, 0));
    assert!(index_subsets(2, 3).is_empty());
    assert_eq!(vec![vec![0usize, 1, 2]], index_subsets(3, 3));
}

#[test]
fn index_arrangements_are_all_ordered_selections() {
    let rows = index_arrangements(4, 2);
    assert_eq!(12, rows.len());
    let distinct: HashSet<Vec<usize>> = rows.iter().cloned().collect();
    assert_eq!(12, distinct.len());
    for a in 0..4usize {
        for b in 0..4usize {
            assert_eq!(a != b, distinct.contains(&vec![a, b]));
        }
    }
    assert_eq!(24, index_arrangements(4, 4).len());
    assert_eq!(1, index_arrangements(4, 0).len());
    assert_eq!(0, index_arrangements(2, 3).len());
}

#[test]
fn table_holds_every_candidate_once() {
    for n in 1..=6u8 {
        for k in 0..=(n as usize) {
            let letters = small_letters(n);
            let table = ComputerGuesser::make_possible_elements_table(&letters, k);
            assert_eq!(factorial(n as usize) / factorial(n as usize - k), table.len());
            let distinct: HashSet<Vec<u8>> = table.iter().cloned().collect();
            assert_eq!(table.len(), distinct.len());
            for word in table.iter() {
                assert_eq!(k, word.len());
                let used: HashSet<u8> = word.iter().copied().collect();
                assert_eq!(k, used.len());
                assert!(word.iter().all(|l| letters.contains(l)));
            }
        }
    }
}

#[test]
fn table_of_four_digits_has_5040_words() {
    let table =
        ComputerGuesser::make_possible_elements_table(&Letters::generate_numeric_letters(), 4);
    assert_eq!(5040, table.len());
    let distinct: HashSet<Vec<u8>> = table.iter().cloned().collect();
    assert_eq!(5040, distinct.len());
    assert!(distinct.contains(&vec![1, 2, 3, 4]));
    assert!(distinct.contains(&vec![9, 0, 5, 1]));
    assert!(!distinct.contains(&vec![1, 1, 3, 4]));
}

#[test]
fn table_is_the_same_every_time() {
    let letters = Letters::generate_numeric_letters();
    let first = ComputerGuesser::make_possible_elements_table(&letters, 3);
    let second = ComputerGuesser::make_possible_elements_table(&letters, 3);
    assert_eq!(first, second);
}

#[test]
fn new_guesser_starts_with_every_candidate() {
    let host = digits_host(vec![1, 2, 3, 4]);
    let guesser = ComputerGuesser::new(&host, 750);
    assert_eq!(5040, guesser.get_possible_elements().len());
    assert_eq!(0, guesser.get_guess_times());
    assert_eq!(750, guesser.thinking_delay());
    assert!(guesser.get_possible_elements().contains(&vec![1, 2, 3, 4]));
}

#[test]
fn guess_times_are_kept() {
    let host = digits_host(vec![1, 2]);
    let mut guesser = ComputerGuesser::new(&host, 0);
    guesser.set_guess_times(7);
    assert_eq!(7, guesser.get_guess_times());
    let _ = guesser.guess();
    assert_eq!(7, guesser.get_guess_times());
    assert_eq!(90, guesser.get_possible_elements().len());
}

#[test]
fn guess_picks_from_the_pool_and_keeps_it() {
    let host = digits_host(vec![1, 2, 3, 4]);
    let guesser = ComputerGuesser::new(&host, 0);
    let mut seen: HashSet<Vec<u8>> = HashSet::new();
    for _ in 0..64 {
        let guess = guesser.guess().unwrap();
        assert!(guesser.get_possible_elements().contains(&guess));
        seen.insert(guess);
    }
    assert!(seen.len() > 1);
    assert_eq!(5040, guesser.get_possible_elements().len());
}

#[test]
fn filtering_keeps_what_is_consistent() {
    let host = digits_host(vec![1, 2, 3, 4]);
    let mut guesser = ComputerGuesser::new(&host, 0);
    let before: Vec<Vec<u8>> = guesser.get_possible_elements().to_vec();
    let guess = vec![4, 3, 2, 1];
    let reply = host.answer(&guess).unwrap();
    assert_eq!((0, 4), reply);
    guesser.add_condition(&guess, reply);

    let against_guess = digits_host(guess.clone());
    let expected: Vec<Vec<u8>> = before
        .iter()
        .filter(|word| against_guess.answer(word) == Ok((0, 4)))
        .cloned()
        .collect();
    assert_eq!(expected.as_slice(), guesser.get_possible_elements());
    for word in guesser.get_possible_elements() {
        assert_eq!(Ok((0, 4)), against_guess.answer(word));
    }
    assert!(guesser.get_possible_elements().contains(&vec![1, 2, 3, 4]));
    assert!(!guesser.get_possible_elements().contains(&guess));
    assert_eq!(9, guesser.get_possible_elements().len());
}

#[test]
fn an_impossible_reply_fills_the_pool_again() {
    let host = digits_host(vec![1, 2, 3]);
    let mut guesser = ComputerGuesser::new(&host, 0);
    let at_first = guesser.get_possible_elements().to_vec();
    guesser.add_condition(&[1, 2, 3], (1, 1));
    assert!(guesser.get_possible_elements().len() < 720);
    // no word has three bulls and three cows
    guesser.add_condition(&[4, 5, 6], (3, 3));
    assert_eq!(720, guesser.get_possible_elements().len());
    // the pool is again what it was at first, word by word
    assert_eq!(at_first.as_slice(), guesser.get_possible_elements());
    let distinct: HashSet<Vec<u8>> = guesser.get_possible_elements().iter().cloned().collect();
    assert_eq!(720, distinct.len());
}

#[test]
fn truthful_replies_lead_to_the_secret() {
    for secret in [vec![1u8, 2, 3, 4], vec![9, 0, 5, 1], vec![7, 6, 5, 4]] {
        let host = digits_host(secret.clone());
        let mut guesser = ComputerGuesser::new(&host, 0);
        let mut solved = false;
        for _ in 0..5040 {
            let guess = guesser.guess().unwrap();
            guesser.set_guess_times(guesser.get_guess_times() + 1);
            let reply = host.answer(&guess).unwrap();
            if reply.0 == 4 {
                assert_eq!(secret, guess);
                solved = true;
                break;
            }
            let size = guesser.get_possible_elements().len();
            guesser.add_condition(&guess, reply);
            assert!(guesser.get_possible_elements().len() < size);
            assert!(guesser.get_possible_elements().contains(&secret));
            assert!(!guesser.get_possible_elements().contains(&guess));
        }
        assert!(solved);
        assert!(guesser.get_guess_times() >= 1);
    }
}

#[test]
fn a_pool_of_one_word_holds_the_secret() {
    let host = Host::build_with_known_answer(small_letters(3), vec![2, 0, 1]).unwrap();
    let mut guesser = ComputerGuesser::new(&host, 0);
    assert_eq!(6, guesser.get_possible_elements().len());
    let reply = host.answer(&[0, 1, 2]).unwrap();
    assert_eq!((0, 3), reply);
    guesser.add_condition(&[0, 1, 2], reply);
    assert_eq!(2, guesser.get_possible_elements().len());
    let reply = host.answer(&[1, 2, 0]).unwrap();
    guesser.add_condition(&[1, 2, 0], reply);
    assert_eq!(&[vec![2u8, 0, 1]], guesser.get_possible_elements());
    assert_eq!(Ok(vec![2u8, 0, 1]), guesser.guess());
}

#[test]
fn questioner_answers_as_its_host() {
    let host = digits_host(vec![1, 2, 3, 4]);
    let questioner = ComputerQuestioner::new(host, 750);
    assert_eq!(750, questioner.thinking_delay());
    assert_eq!(Ok((4, 0)), questioner.answer(&[1, 2, 3, 4]));
    assert_eq!(Ok((2, 2)), questioner.answer(&[1, 2, 4, 3]));
    assert_eq!(Err(HostError::AnswerLengthIncorrect), questioner.answer(&[1, 2]));
    assert_eq!(
        Err(HostError::AnswerContainsDuplicatedLetter(1)),
        questioner.answer(&[1, 1, 2, 3])
    );
}

#[test]
fn questioner_makes_new_questions_of_the_same_length() {
    let host = digits_host(vec![1, 2, 3, 4, 5]);
    let mut questioner = ComputerQuestioner::new(host, 0);
    let mut replies: HashSet<(usize, usize)> = HashSet::new();
    for _ in 0..32 {
        questioner.make_new_question();
        let reply = questioner.answer(&[0, 1, 2, 3, 4]).unwrap();
        assert!(reply.0 + reply.1 <= 5);
        replies.insert(reply);
    }
    assert!(replies.len() > 1);
    assert_eq!(Err(HostError::AnswerLengthIncorrect), questioner.answer(&[1, 2, 3, 4]));
}
