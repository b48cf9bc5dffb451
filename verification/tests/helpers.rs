use bulls_and_cows::host::{draw_answer, find_fault, find_refusal, repeats_at};
use bulls_and_cows::letters::{
    copy_letter, copy_word, holds_letter, letters_in_order, same_letter, spell,
};
use bulls_and_cows::parser::ab_parser::{
    characters, digit, parse_reply, read_number, skip_blanks, skip_digits, trim, white_space,
};
use bulls_and_cows::play::players::{
    refine, retain_consistent, ComputerGuesser, ComputerQuestioner, Guesser, Questioner,
};
use bulls_and_cows::score::score_against;
use bulls_and_cows::{Host, HostError, Letters};
use std::collections::HashSet;

#[test]
fn letters_are_compared_and_copied() {
    assert!(same_letter(&3u8, &3u8));
    assert!(!same_letter(&3u8, &4u8));
    assert_eq!(7u8, copy_letter(&7u8));
    assert_eq!(vec![1u8, 2, 3], copy_word(&[1u8, 2, 3]));
    assert_eq!(Vec::<u8>::new(), copy_word(&[] as &[u8]));
    assert!(holds_letter(&[1u8, 2, 3], &3));
    assert!(!holds_letter(&[1u8, 2, 3], &4));
    assert!(!holds_letter(&[] as &[u8], &4));
}

#[test]
fn letters_in_order_lists_each_letter_once() {
    let letters = Letters::generate_numeric_letters();
    let order = letters_in_order(&letters);
    assert_eq!(10, order.len());
    let walked: Vec<u8> = letters.iter().copied().collect();
    assert_eq!(walked, order);
    let again: HashSet<u8> = order.into_iter().collect();
    assert_eq!(letters, again);
}

#[test]
fn spell_reads_letters_at_positions() {
    let order = vec!['x', 'y', 'z'];
    assert_eq!(vec!['z', 'x'], spell(&order, &vec![2, 0]));
    assert_eq!(vec!['y', 'y', 'x'], spell(&order, &vec![1, 1, 0]));
    assert_eq!(Vec::<char>::new(), spell(&order, &vec![]));
}

#[test]
fn repeats_are_found_to_the_left() {
    let word = [5u8, 6, 5, 7, 6];
    assert!(!repeats_at(&word, 0));
    assert!(!repeats_at(&word, 1));
    assert!(repeats_at(&word, 2));
    assert!(!repeats_at(&word, 3));
    assert!(repeats_at(&word, 4));
}

#[test]
fn faults_are_found_from_the_left() {
    let letters = Letters::generate_numeric_letters();
    assert_eq!(None, find_fault(&letters, &[1, 2, 3]));
    assert_eq!(None, find_fault(&letters, &[]));
    assert_eq!(
        Some(HostError::AnswerContainsIncorrectLetter(11)),
        find_fault(&letters, &[1, 11, 1])
    );
    assert_eq!(
        Some(HostError::AnswerContainsDuplicatedLetter(1)),
        find_fault(&letters, &[1, 1, 11])
    );
    assert_eq!(Some(HostError::AnswerLengthIncorrect), find_refusal(&letters, &[]));
    assert_eq!(None, find_refusal(&letters, &[0, 1, 2, 3, 4, 5, 6, 7, 8, 9]));
    assert_eq!(
        Some(HostError::AnswerLengthIncorrect),
        find_refusal(&letters, &[0, 1, 2, 3, 4, 5, 6, 7, 8, 9, 10])
    );
    assert_eq!(
        Some(HostError::AnswerContainsIncorrectLetter(10)),
        find_refusal(&letters, &[0, 10])
    );
}

#[test]
fn drawn_answers_come_from_the_whole_alphabet() {
    let letters = Letters::generate_numeric_letters();
    let mut drawn: HashSet<u8> = HashSet::new();
    let mut answers: HashSet<Vec<u8>> = HashSet::new();
    for _ in 0..200 {
        let answer = draw_answer(&letters, 5);
        assert_eq!(5, answer.len());
        let used: HashSet<u8> = answer.iter().copied().collect();
        assert_eq!(5, used.len());
        assert!(answer.iter().all(|l| letters.contains(l)));
        drawn.extend(answer.iter().copied());
        answers.insert(answer);
    }
    // every letter is drawn at some time, and the draws differ
    assert_eq!(letters, drawn);
    assert!(answers.len() > 100);
    let whole = draw_answer(&letters, 10);
    let used: HashSet<u8> = whole.iter().copied().collect();
    assert_eq!(letters, used);
}

#[test]
fn characters_are_told_apart() {
    for c in ['0', '5', '9'] {
        assert!(digit(c));
    }
    for c in ['/', ':', 'a', ' ', '٣', '５'] {
        assert!(!digit(c));
    }
    for code in 0u32..0x11000 {
        if let Some(c) = char::from_u32(code) {
            assert_eq!(c.is_whitespace(), white_space(c), "{:x}", code);
            assert_eq!(c.is_ascii_digit(), digit(c), "{:x}", code);
        }
    }
}

#[test]
fn text_is_scanned() {
    let text = characters("  12 a\u{e9}3b ");
    assert_eq!(vec![' ', ' ', '1', '2', ' ', 'a', '\u{e9}', '3', 'b', ' '], text);
    assert_eq!((2, 9), trim(&text));
    assert_eq!(4, skip_digits(&text, 2, 9));
    assert_eq!(2, skip_digits(&text, 2, 2));
    assert_eq!(3, skip_digits(&text, 2, 3));
    assert_eq!(5, skip_blanks(&text, 4, 9));
    assert_eq!(5, skip_blanks(&text, 5, 9));
    assert_eq!(Some(12), read_number(&text, 2, 4));
    assert_eq!(Some(0), read_number(&text, 2, 2));
    assert_eq!(None, parse_reply(&text, 2, 9));
    let blank = characters(" \t\n");
    assert_eq!((3, 3), trim(&blank));
    assert_eq!((0, 0), trim(&characters("")));
}

#[test]
fn replies_are_read_between_bounds() {
    let text = characters("x10A 2Bx");
    assert_eq!(Some((10, 2)), parse_reply(&text, 1, 7));
    assert_eq!(None, parse_reply(&text, 0, 7));
    assert_eq!(None, parse_reply(&text, 1, 8));
    assert_eq!(Some((0, 2)), parse_reply(&text, 2, 7));
    assert_eq!(None, parse_reply(&text, 3, 7));
    assert_eq!(None, parse_reply(&text, 1, 1));
}

#[test]
fn words_are_scored_place_by_place() {
    assert_eq!((4, 0), score_against(&[1u8, 2, 3, 4], &[1, 2, 3, 4]));
    assert_eq!((2, 2), score_against(&[1u8, 2, 3, 4], &[1, 2, 4, 3]));
    assert_eq!((0, 4), score_against(&[1u8, 2, 3, 4], &[4, 3, 2, 1]));
    assert_eq!((0, 0), score_against(&[1u8, 2, 3, 4], &[5, 6, 7, 8]));
    assert_eq!((0, 0), score_against(&[] as &[u8], &[]));
    // a secret that repeats a letter is scored all the same
    assert_eq!((1, 2), score_against(&[1u8, 1, 2], &[1, 2, 1]));
    assert_eq!((0, 1), score_against(&[1u8, 1, 2], &[3, 4, 1]));
}

#[test]
fn pools_are_filtered_in_place() {
    let letters = Letters::generate_numeric_letters();
    let mut pool: Vec<Vec<u8>> =
        vec![vec![3, 2, 1], vec![1, 2, 3], vec![4, 5, 6], vec![1, 3, 2], vec![2, 1, 3]];
    retain_consistent(&mut pool, &[1, 2, 3], (1, 2));
    assert_eq!(vec![vec![3u8, 2, 1], vec![1, 3, 2], vec![2, 1, 3]], pool);
    refine(&mut pool, &letters, 3, &[1, 2, 3], (3, 0));
    assert_eq!(ComputerGuesser::make_possible_elements_table(&letters, 3), pool);
    assert_eq!(720, pool.len());
    let mut pool: Vec<Vec<u8>> = vec![vec![3, 2, 1], vec![1, 2, 3]];
    refine(&mut pool, &letters, 3, &[1, 2, 3], (3, 0));
    assert_eq!(vec![vec![1u8, 2, 3]], pool);
    let mut empty: Vec<Vec<u8>> = Vec::new();
    retain_consistent(&mut empty, &[1, 2, 3], (0, 0));
    assert!(empty.is_empty());
}

#[test]
fn the_length_of_the_secret_is_kept() {
    let host = Host::build_with_known_answer(Letters::generate_numeric_letters(), vec![1, 2, 3])
        .unwrap();
    let mut guesser = ComputerGuesser::new(&host, 0);
    assert_eq!(3, guesser.get_letter_length());
    guesser.add_condition(&[1, 2, 3], (0, 0));
    assert_eq!(3, guesser.get_letter_length());
}

fn play_a_round<Q: Questioner<u8>, G: Guesser<u8>>(questioner: &Q, guesser: &mut G) -> usize
where
    G::Error: std::fmt::Debug,
    Q::Error: std::fmt::Debug,
{
    loop {
        let guess = guesser.guess().unwrap();
        guesser.set_guess_times(guesser.get_guess_times() + 1);
        let reply = questioner.answer(&guess).unwrap();
        if reply.0 == guess.len() {
            return guesser.get_guess_times();
        }
        guesser.add_condition(&guess, reply);
    }
}

#[test]
fn computer_players_play_through_the_traits() {
    let host = Host::build_with_random_answer(Letters::generate_numeric_letters(), 4).unwrap();
    let mut guesser = ComputerGuesser::new(&host, 0);
    let mut questioner = ComputerQuestioner::new(host, 0);
    Questioner::make_new_question(&mut questioner);
    let times = play_a_round(&questioner, &mut guesser);
    assert!(1 <= times && times <= 5040);
}

#[test]
fn a_condition_on_a_word_of_another_length_is_not_taken() {
    let host = Host::build_with_known_answer(Letters::generate_numeric_letters(), vec![1, 2, 3])
        .unwrap();
    let mut guesser = ComputerGuesser::new(&host, 0);
    let before = guesser.get_possible_elements().to_vec();
    Guesser::add_condition(&mut guesser, &[1, 2], (1, 1));
    assert_eq!(before.as_slice(), guesser.get_possible_elements());
    Guesser::add_condition(&mut guesser, &[1, 2, 3, 4], (1, 1));
    assert_eq!(before.as_slice(), guesser.get_possible_elements());
    Guesser::add_condition(&mut guesser, &[3, 2, 1], (1, 2));
    assert_eq!(3, guesser.get_possible_elements().len());
    assert_eq!(0, Guesser::get_guess_times(&guesser));
    Guesser::set_guess_times(&mut guesser, 3);
    assert_eq!(3, Guesser::get_guess_times(&guesser));
    let guess = Guesser::guess(&guesser).unwrap();
    assert!(guesser.get_possible_elements().contains(&guess));
}

#[test]
fn a_condition_on_a_word_that_is_no_candidate_filters_all_the_same() {
    let host = Host::build_with_known_answer(Letters::generate_numeric_letters(), vec![1, 2, 3])
        .unwrap();
    for guess in [[1u8, 1, 2], [1, 2, 33], [44, 44, 44]] {
        for reply in [(1usize, 1usize), (0, 1), (1, 0)] {
            let mut guesser = ComputerGuesser::new(&host, 0);
            let before = guesser.get_possible_elements().to_vec();
            let expected: Vec<Vec<u8>> = before
                .iter()
                .filter(|word| {
                    let mut bulls = 0;
                    let mut cows = 0;
                    for i in 0..3 {
                        if word[i] == guess[i] {
                            bulls += 1;
                        } else if guess.contains(&word[i]) {
                            cows += 1;
                        }
                    }
                    (bulls, cows) == reply
                })
                .cloned()
                .collect();
            guesser.add_condition(&guess, reply);
            if expected.is_empty() {
                assert_eq!(before.as_slice(), guesser.get_possible_elements());
            } else {
                assert_eq!(expected.as_slice(), guesser.get_possible_elements());
            }
        }
    }
}
