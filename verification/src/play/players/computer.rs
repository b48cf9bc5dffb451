//! The players that a computer plays.

use crate::arrangements::index_arrangements;
use crate::arrangements::MAX_PLACES;
use crate::counting::arrangement_count;
use crate::counting::factorial;
use crate::counting::lemma_arrangement_count_is_quotient;
use crate::counting::lemma_arrangement_count_positive;
use crate::counting::permutation_count;
use crate::host::is_answer;
use crate::host::is_draw;
use crate::host::reply_to;
use crate::host::Host;
use crate::host::HostError;
use crate::letters::copy_letters;
use crate::letters::copy_word;
use crate::letters::lawful_letter;
use crate::letters::letters_in_order;
use crate::letters::spell;
use crate::letters::spelled;
use crate::letters::words_of;
use crate::outside::pick_from_slice;
use crate::play::players::candidates::holds_all_candidates;
use crate::play::players::candidates::holds_candidates;
use crate::play::players::candidates::is_candidate;
use crate::play::players::candidates::lemma_spelling_gives_all;
use crate::play::players::candidates::table_of;
use crate::play::players::filter::consistent_with;
use crate::play::players::filter::is_consistent;
use crate::play::players::filter::lemma_kept_are_candidates;
use crate::play::players::filter::retain_consistent;
use crate::play::players::player::Guesser;
use crate::play::players::player::Questioner;
use std::collections::HashSet;
use std::hash::Hash;
use vstd::prelude::*;
use vstd::std_specs::hash::spec_hash_keys_iter;
use vstd::std_specs::iter::IteratorSpec;

verus! {

/// The time in milliseconds that is left to wait after `elapsed` of a turn
/// that is to take `thinking_delay` in all.
pub fn remaining_delay(thinking_delay: u64, elapsed: u128) -> (left: u64)
    ensures
        elapsed < thinking_delay ==> left == thinking_delay - elapsed,
        elapsed >= thinking_delay ==> left == 0,
{
    if elapsed < thinking_delay as u128 {
        thinking_delay - elapsed as u64
    } else {
        0
    }
}

/// A questioner controlled by a computer.
pub struct ComputerQuestioner<T: Eq + Hash + Clone> {
    host: Host<T>,
    thinking_delay: u64,
}

impl<T: Eq + Hash + Clone> ComputerQuestioner<T> {
    /// The host that this questioner asks for.
    pub closed spec fn host(self) -> Host<T> {
        self.host
    }

    /// The time in milliseconds that this questioner is to take for a turn.
    pub closed spec fn delay(self) -> u64 {
        self.thinking_delay
    }

    /// Create a new computer player as a questioner. The `thinking_delay` is a
    /// value which simulates the time in milliseconds that a human player
    /// needs to take to think.
    pub fn new(host: Host<T>, thinking_delay: u64) -> (questioner: ComputerQuestioner<T>)
        ensures
            questioner.host() == host,
            questioner.delay() == thinking_delay,
    {
        ComputerQuestioner { host, thinking_delay }
    }

    /// The time in milliseconds that this questioner is to take for a turn.
    pub fn thinking_delay(&self) -> (delay: u64)
        ensures
            delay == self.delay(),
    {
        self.thinking_delay
    }

    /// Make a new question: a new secret, as long as the last, drawn by
    /// chance.
    pub fn make_new_question(&mut self)
        ensures
            final(self).delay() == old(self).delay(),
            final(self).host().letter_set() == old(self).host().letter_set(),
            final(self).host().secret().len() == old(self).host().secret().len(),
            is_answer(final(self).host().alphabet(), final(self).host().secret()),
            is_draw(
                spec_hash_keys_iter(&old(self).host().letter_set()).remaining().unref(),
                old(self).host().secret().len(),
                final(self).host().secret(),
            ),
    {
        let answer_length = self.host.get_answer_length();
        let renewed = self.host.renew_with_random_answer(answer_length);
        assert(renewed is Ok);
    }

    /// Answer for the question.
    pub fn answer(&self, answer: &[T]) -> (reply: Result<(usize, usize), HostError<T>>)
        ensures
            reply == reply_to(self.host().alphabet(), self.host().secret(), answer@),
    {
        self.host.answer(answer)
    }
}

/// A guesser controlled by a computer.
pub struct ComputerGuesser<T: Eq + Hash + Clone> {
    letters: HashSet<T>,
    letter_length: usize,
    possible_elements_table: Vec<Vec<T>>,
    guess_times: usize,
    thinking_delay: u64,
}

impl<T: Eq + Hash + Clone> ComputerGuesser<T> {
    /// What every guesser keeps: a pool that is never empty and holds
    /// candidates only, none twice.
    #[verifier::type_invariant]
    spec fn well_formed(self) -> bool {
        &&& lawful_letter::<T>()
        &&& 1 <= self.letter_length <= self.letters@.len()
        &&& self.letter_length <= MAX_PLACES
        &&& self.possible_elements_table@.len() > 0
        &&& holds_candidates(
            self.letters@,
            self.letter_length as nat,
            words_of(self.possible_elements_table@),
        )
    }

    /// The set that holds the letters of the game.
    pub closed spec fn letter_set(self) -> HashSet<T> {
        self.letters
    }

    /// The alphabet of the game.
    pub open spec fn alphabet(self) -> Set<T> {
        self.letter_set()@
    }

    /// The length of the secret.
    pub closed spec fn length(self) -> nat {
        self.letter_length as nat
    }

    /// The pool: the words that this guesser still takes for possible.
    pub closed spec fn pool(self) -> Seq<Seq<T>> {
        words_of(self.possible_elements_table@)
    }

    /// The number of guesses that this guesser was told it has made.
    pub closed spec fn times(self) -> usize {
        self.guess_times
    }

    /// The time in milliseconds that this guesser is to take for a turn.
    pub closed spec fn delay(self) -> u64 {
        self.thinking_delay
    }

    /// Create a new computer player as a guesser. The `thinking_delay` is a
    /// value which simulates the time in milliseconds that a human player
    /// needs to take to think.
    pub fn new(host: &Host<T>, thinking_delay: u64) -> (guesser: ComputerGuesser<T>)
        requires
            host.secret().len() <= MAX_PLACES,
        ensures
            guesser.alphabet() == host.alphabet(),
            guesser.length() == host.secret().len(),
            guesser.times() == 0,
            guesser.delay() == thinking_delay,
            guesser.pool() == table_of(
                spec_hash_keys_iter(&guesser.letter_set()).remaining().unref(),
                guesser.length(),
            ),
            holds_all_candidates(guesser.alphabet(), guesser.length(), guesser.pool()),
            guesser.pool().len() == factorial(guesser.alphabet().len()) / factorial(
                (guesser.alphabet().len() - guesser.length()) as nat,
            ),
    {
        let secret = host.get_answer();
        let letters = copy_letters(host.get_letters());
        let letter_length = host.get_answer_length();
        let possible_elements_table = ComputerGuesser::make_possible_elements_table(
            &letters,
            letter_length,
        );
        proof {
            assert(is_candidate(letters@, letter_length as nat, secret@));
            assert(words_of(possible_elements_table@).contains(secret@));
        }
        ComputerGuesser {
            letters,
            letter_length,
            possible_elements_table,
            guess_times: 0,
            thinking_delay,
        }
    }

    /// Lists every candidate of a game over `letters` with secrets of
    /// `letter_length` letters: each choice of that many letters, in each of
    /// its orders.
    pub fn make_possible_elements_table(letters: &HashSet<T>, letter_length: usize) -> (table: Vec<
        Vec<T>,
    >)
        requires
            lawful_letter::<T>(),
            letter_length <= MAX_PLACES,
        ensures
            words_of(table@) == table_of(
                spec_hash_keys_iter(letters).remaining().unref(),
                letter_length as nat,
            ),
            holds_all_candidates(letters@, letter_length as nat, words_of(table@)),
            table@.len() == arrangement_count(letters@.len(), letter_length as nat),
            letter_length <= letters@.len() ==> table@.len() == factorial(letters@.len())
                / factorial((letters@.len() - letter_length) as nat),
    {
        proof {
            if letter_length <= letters@.len() {
                lemma_arrangement_count_is_quotient(letters@.len(), letter_length as nat);
            }
        }
        let letters_vec = letters_in_order(letters);
        let rows = index_arrangements(letters_vec.len(), letter_length);
        let mut table: Vec<Vec<T>> = match permutation_count(letters_vec.len(), letter_length) {
            Some(capacity) => Vec::with_capacity(capacity),
            None => Vec::new(),
        };
        let mut r: usize = 0;
        while r < rows.len()
            invariant
                lawful_letter::<T>(),
                r <= rows@.len(),
                table@.len() == r,
                forall|j: int|
                    0 <= j < rows@.len() ==> crate::arrangements::is_index_arrangement(
                        #[trigger] words_of(rows@)[j],
                        letters_vec@.len(),
                        letter_length as nat,
                    ),
                forall|j: int|
                    0 <= j < r ==> #[trigger] words_of(table@)[j] == spelled(
                        letters_vec@,
                        words_of(rows@)[j],
                    ),
            decreases rows@.len() - r,
        {
            assert(words_of(rows@)[r as int] == rows@[r as int]@);
            let word = spell(&letters_vec, &rows[r]);
            let ghost before = words_of(table@);
            table.push(word);
            assert forall|j: int| 0 <= j < r + 1 implies #[trigger] words_of(table@)[j] == spelled(
                letters_vec@,
                words_of(rows@)[j],
            ) by {
                if j < r {
                    assert(words_of(table@)[j] == before[j]);
                }
            }
            r += 1;
        }
        proof {
            lemma_spelling_gives_all(
                letters_vec@,
                words_of(rows@),
                letter_length as nat,
                words_of(table@),
            );
            assert(words_of(table@) =~= table_of(letters_vec@, letter_length as nat));
        }
        table
    }

    /// The time in milliseconds that this guesser is to take for a turn.
    pub fn thinking_delay(&self) -> (delay: u64)
        ensures
            delay == self.delay(),
    {
        self.thinking_delay
    }

    /// The length of the secret.
    pub fn get_letter_length(&self) -> (letter_length: usize)
        ensures
            letter_length == self.length(),
            1 <= letter_length <= self.alphabet().len(),
            letter_length <= MAX_PLACES,
    {
        proof {
            use_type_invariant(self);
        }
        self.letter_length
    }

    /// The pool: the words that this guesser still takes for possible.
    pub fn get_possible_elements(&self) -> (table: &[Vec<T>])
        ensures
            words_of(table@) == self.pool(),
            table@.len() > 0,
            holds_candidates(self.alphabet(), self.length(), self.pool()),
    {
        proof {
            use_type_invariant(self);
        }
        self.possible_elements_table.as_slice()
    }

    /// Get guess times of this player.
    pub fn get_guess_times(&self) -> (guess_times: usize)
        ensures
            guess_times == self.times(),
    {
        self.guess_times
    }

    /// Set guess times for this player.
    pub fn set_guess_times(&mut self, guess_times: usize)
        ensures
            final(self).times() == guess_times,
            final(self).letter_set() == old(self).letter_set(),
            final(self).length() == old(self).length(),
            final(self).pool() == old(self).pool(),
            final(self).delay() == old(self).delay(),
    {
        proof {
            use_type_invariant(&*self);
        }
        self.guess_times = guess_times;
    }

    /// Add a condition: `guess` has scored `reply` against the secret. Every
    /// word of the pool that is not consistent with that leaves the pool, and
    /// where none is left, the pool is filled again with every candidate.
    /// The guess has the length of the secret; nothing else is asked of it.
    pub fn add_condition(&mut self, guess: &[T], reply: (usize, usize))
        requires
            guess@.len() == old(self).length(),
        ensures
            final(self).letter_set() == old(self).letter_set(),
            final(self).length() == old(self).length(),
            final(self).times() == old(self).times(),
            final(self).delay() == old(self).delay(),
            consistent_with(old(self).pool(), guess@, reply).len() > 0 ==> final(self).pool()
                == consistent_with(old(self).pool(), guess@, reply) && final(self).pool().len()
                <= old(self).pool().len(),
            consistent_with(old(self).pool(), guess@, reply).len() == 0 ==> final(self).pool()
                == table_of(
                spec_hash_keys_iter(&old(self).letter_set()).remaining().unref(),
                old(self).length(),
            ) && holds_all_candidates(
                final(self).alphabet(),
                final(self).length(),
                final(self).pool(),
            ) && final(self).pool().len() == arrangement_count(
                final(self).alphabet().len(),
                final(self).length(),
            ),
    {
        proof {
            use_type_invariant(&*self);
            self.pool().lemma_filter_len(|word: Seq<T>| is_consistent(guess@, reply, word));
        }
        // While the pool is worked on, its first word stands in for it.
        let mut pool: Vec<Vec<T>> = Vec::new();
        pool.push(copy_word(self.possible_elements_table[0].as_slice()));
        proof {
            assert(words_of(self.possible_elements_table@)[0] == self.possible_elements_table@[0]@);
            assert(words_of(pool@) =~= seq![self.possible_elements_table@[0]@]);
        }
        std::mem::swap(&mut self.possible_elements_table, &mut pool);
        refine(&mut pool, &self.letters, self.letter_length, guess, reply);
        self.possible_elements_table = pool;
    }

    /// Make a guess: a word of the pool, picked by chance. The pool keeps it.
    pub fn guess(&self) -> (guess: Result<Vec<T>, HostError<T>>)
        ensures
            guess is Ok,
            self.pool().contains(guess->Ok_0@),
            is_candidate(self.alphabet(), self.length(), guess->Ok_0@),
    {
        proof {
            use_type_invariant(self);
        }
        let weights: Vec<usize> = vec![1];
        let picked = pick_from_slice(self.possible_elements_table.as_slice(), weights.as_slice());
        match picked {
            Some(word) => {
                proof {
                    let i = choose|i: int|
                        0 <= i < self.possible_elements_table@.len()
                            && self.possible_elements_table@[i] == *word;
                    assert(words_of(self.possible_elements_table@)[i] == word@);
                }
                Ok(copy_word(word.as_slice()))
            },
            None => Err(HostError::LettersEmpty),
        }
    }
}

/// Drops from `pool` what is not consistent with `reply` to `guess`, and
/// fills it again with every candidate where nothing is left.
pub fn refine<T: Eq + Hash + Clone>(
    pool: &mut Vec<Vec<T>>,
    letters: &HashSet<T>,
    letter_length: usize,
    guess: &[T],
    reply: (usize, usize),
)
    requires
        lawful_letter::<T>(),
        letter_length <= MAX_PLACES,
        1 <= letter_length <= letters@.len(),
        guess@.len() == letter_length,
        holds_candidates(letters@, letter_length as nat, words_of(old(pool)@)),
    ensures
        final(pool)@.len() > 0,
        holds_candidates(letters@, letter_length as nat, words_of(final(pool)@)),
        consistent_with(words_of(old(pool)@), guess@, reply).len() > 0 ==> words_of(final(pool)@)
            == consistent_with(words_of(old(pool)@), guess@, reply),
        consistent_with(words_of(old(pool)@), guess@, reply).len() == 0 ==> words_of(final(pool)@)
            == table_of(spec_hash_keys_iter(letters).remaining().unref(), letter_length as nat)
            && holds_all_candidates(letters@, letter_length as nat, words_of(final(pool)@))
            && final(pool)@.len() == arrangement_count(letters@.len(), letter_length as nat),
{
    proof {
        lemma_kept_are_candidates(
            letters@,
            letter_length as nat,
            words_of(pool@),
            |word: Seq<T>| is_consistent(guess@, reply, word),
        );
    }
    retain_consistent(pool, guess, reply);
    if pool.is_empty() {
        *pool = ComputerGuesser::make_possible_elements_table(letters, letter_length);
        proof {
            lemma_arrangement_count_positive(letters@.len(), letter_length as nat);
        }
    }
}

impl<T: Eq + Hash + Clone> Questioner<T> for ComputerQuestioner<T> {
    type Error = HostError<T>;

    fn make_new_question(&mut self)
        ensures
            final(self).delay() == old(self).delay(),
            final(self).host().letter_set() == old(self).host().letter_set(),
            final(self).host().secret().len() == old(self).host().secret().len(),
            is_answer(final(self).host().alphabet(), final(self).host().secret()),
            is_draw(
                spec_hash_keys_iter(&old(self).host().letter_set()).remaining().unref(),
                old(self).host().secret().len(),
                final(self).host().secret(),
            ),
    {
        ComputerQuestioner::make_new_question(self)
    }

    fn answer(&self, answer: &[T]) -> (reply: Result<(usize, usize), HostError<T>>)
        ensures
            reply == reply_to(self.host().alphabet(), self.host().secret(), answer@),
    {
        ComputerQuestioner::answer(self, answer)
    }
}

impl<T: Eq + Hash + Clone> Guesser<T> for ComputerGuesser<T> {
    type Error = HostError<T>;

    fn get_guess_times(&self) -> (guess_times: usize)
        ensures
            guess_times == self.times(),
    {
        ComputerGuesser::get_guess_times(self)
    }

    fn set_guess_times(&mut self, guess_times: usize)
        ensures
            final(self).times() == guess_times,
            final(self).letter_set() == old(self).letter_set(),
            final(self).length() == old(self).length(),
            final(self).pool() == old(self).pool(),
            final(self).delay() == old(self).delay(),
    {
        ComputerGuesser::set_guess_times(self, guess_times)
    }

    /// Add a condition, where `guess` has the length of the secret. A
    /// condition on a word of another length is not taken: it leaves the
    /// guesser as it is.
    fn add_condition(&mut self, guess: &[T], reply: (usize, usize))
        ensures
            final(self).letter_set() == old(self).letter_set(),
            final(self).length() == old(self).length(),
            final(self).times() == old(self).times(),
            final(self).delay() == old(self).delay(),
            guess@.len() != old(self).length() ==> final(self).pool() == old(self).pool(),
            guess@.len() == old(self).length() && consistent_with(
                old(self).pool(),
                guess@,
                reply,
            ).len() > 0 ==> final(self).pool() == consistent_with(old(self).pool(), guess@, reply),
            guess@.len() == old(self).length() && consistent_with(
                old(self).pool(),
                guess@,
                reply,
            ).len() == 0 ==> final(self).pool() == table_of(
                spec_hash_keys_iter(&old(self).letter_set()).remaining().unref(),
                old(self).length(),
            ) && holds_all_candidates(
                final(self).alphabet(),
                final(self).length(),
                final(self).pool(),
            ),
    {
        if guess.len() == self.get_letter_length() {
            ComputerGuesser::add_condition(self, guess, reply)
        }
    }

    fn guess(&self) -> (guess: Result<Vec<T>, HostError<T>>)
        ensures
            guess is Ok,
            self.pool().contains(guess->Ok_0@),
    {
        ComputerGuesser::guess(self)
    }
}

} // verus!
