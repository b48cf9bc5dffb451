//! The game host: it holds the secret and scores guesses.

use crate::arrangements::is_index_subset;
use crate::arrangements::lemma_reordered_subset;
use crate::letters::copy_letter;
use crate::letters::lawful_letter;
use crate::letters::lemma_spelled_is_distinct;
use crate::letters::letters_in_order;
use crate::letters::same_letter;
use crate::letters::spell;
use crate::letters::spelled;
use crate::outside::shuffle;
use crate::score::bulls;
use crate::score::cows;
use crate::score::score_against;
use std::collections::HashSet;
use std::hash::Hash;
use vstd::prelude::*;
use vstd::std_specs::hash::spec_hash_keys_iter;
use vstd::std_specs::iter::IteratorSpec;

verus! {

/// The possible errors for the `Host` struct.
#[derive(Debug, PartialEq, Eq)]
pub enum HostError<T: Eq + Hash + Clone> {
    /// The length of letters for a Bulls and Cows game must be at least 1.
    LettersEmpty,
    /// The length of the answer is incorrect.
    AnswerLengthIncorrect,
    /// There is an incorrect letter in the answer.
    AnswerContainsIncorrectLetter(T),
    /// There is an duplicated letter in the answer.
    AnswerContainsDuplicatedLetter(T),
}

/// Whether `word` is made of letters of the alphabet, none twice.
pub open spec fn is_arrangement<T>(alphabet: Set<T>, word: Seq<T>) -> bool {
    &&& word.no_duplicates()
    &&& forall|i: int| 0 <= i < word.len() ==> alphabet.contains(#[trigger] word[i])
}

/// Whether `word` can be the secret of a game over the alphabet.
pub open spec fn is_answer<T>(alphabet: Set<T>, word: Seq<T>) -> bool {
    &&& alphabet.finite()
    &&& 1 <= word.len() <= alphabet.len()
    &&& is_arrangement(alphabet, word)
}

/// Whether the letter at position `i` of `word` is the same as an earlier one.
pub open spec fn is_repeat<T>(word: Seq<T>, i: int) -> bool {
    exists|j: int| 0 <= j < i && #[trigger] word[j] == word[i]
}

/// Whether the letter at position `i` of `word` is outside the alphabet or
/// repeats an earlier letter.
pub open spec fn is_fault<T>(alphabet: Set<T>, word: Seq<T>, i: int) -> bool {
    &&& 0 <= i < word.len()
    &&& (!alphabet.contains(word[i]) || is_repeat(word, i))
}

/// Whether `i` is the first faulty position of `word`.
pub open spec fn is_first_fault<T>(alphabet: Set<T>, word: Seq<T>, i: int) -> bool {
    &&& is_fault(alphabet, word, i)
    &&& forall|j: int| 0 <= j < i ==> !is_fault(alphabet, word, j)
}

/// What is wrong with the letters of `word`, read from the left: the first
/// letter that is outside the alphabet or repeats an earlier one. A letter
/// that is both is reported as outside the alphabet.
pub open spec fn fault_of<T: Eq + Hash + Clone>(alphabet: Set<T>, word: Seq<T>) -> Option<
    HostError<T>,
> {
    if exists|i: int| is_first_fault(alphabet, word, i) {
        let i = choose|i: int| is_first_fault(alphabet, word, i);
        if !alphabet.contains(word[i]) {
            Some(HostError::AnswerContainsIncorrectLetter(word[i]))
        } else {
            Some(HostError::AnswerContainsDuplicatedLetter(word[i]))
        }
    } else {
        None
    }
}

/// What a host with the given alphabet and secret replies to `guess`.
pub open spec fn reply_to<T: Eq + Hash + Clone>(
    alphabet: Set<T>,
    secret: Seq<T>,
    guess: Seq<T>,
) -> Result<(usize, usize), HostError<T>> {
    if guess.len() != secret.len() {
        Err(HostError::AnswerLengthIncorrect)
    } else {
        match fault_of(alphabet, guess) {
            Some(fault) => Err(fault),
            None => Ok((bulls(secret, guess) as usize, cows(secret, guess) as usize)),
        }
    }
}

/// The positions `0` to `n - 1`, in rising order.
pub open spec fn first_positions(n: nat) -> Seq<usize> {
    Seq::new(n, |i: int| i as usize)
}

/// Whether `answer` is a draw of `places` letters of `order`: whether some
/// order of all the positions of `order` spells it with its first `places`
/// positions.
pub open spec fn is_draw<T>(order: Seq<T>, places: nat, answer: Seq<T>) -> bool {
    exists|drawn: Seq<usize>|
        #[trigger] drawn.to_multiset() == first_positions(order.len()).to_multiset() && answer
            == spelled(order, drawn.take(places as int))
}

/// What installing `word` as the secret over the alphabet comes to: the error,
/// or nothing.
pub open spec fn refusal_of<T: Eq + Hash + Clone>(alphabet: Set<T>, word: Seq<T>) -> Option<
    HostError<T>,
> {
    if word.len() == 0 || word.len() > alphabet.len() {
        Some(HostError::AnswerLengthIncorrect)
    } else {
        fault_of(alphabet, word)
    }
}

/// A word has a fault exactly if it is no arrangement of letters of the
/// alphabet.
pub proof fn lemma_fault_of_none<T: Eq + Hash + Clone>(alphabet: Set<T>, word: Seq<T>)
    ensures
        fault_of(alphabet, word) is None <==> is_arrangement(alphabet, word),
{
    if is_arrangement(alphabet, word) {
        assert forall|i: int| !is_first_fault(alphabet, word, i) by {
            if is_fault(alphabet, word, i) {
                if is_repeat(word, i) {
                    let j = choose|j: int| 0 <= j < i && #[trigger] word[j] == word[i];
                    assert(false);
                }
            }
        }
    } else {
        assert(word.take(word.len() as int) =~= word);
        lemma_first_fault_exists(alphabet, word, word.len() as int);
    }
}

/// Among the first `n` letters of a word that is no arrangement up to there,
/// one is the first faulty one.
pub proof fn lemma_first_fault_exists<T>(alphabet: Set<T>, word: Seq<T>, n: int)
    requires
        0 <= n <= word.len(),
        !is_arrangement(alphabet, word.take(n)),
    ensures
        exists|i: int| 0 <= i < n && is_first_fault(alphabet, word, i),
    decreases n,
{
    if n == 0 {
        assert(word.take(0).len() == 0);
    } else {
        let shorter = word.take(n - 1);
        if is_arrangement(alphabet, shorter) {
            let last = n - 1;
            assert forall|j: int| 0 <= j < last implies !is_fault(alphabet, word, j) by {
                assert(shorter[j] == word[j]);
                if is_repeat(word, j) {
                    let h = choose|h: int| 0 <= h < j && #[trigger] word[h] == word[j];
                    assert(shorter[h] == shorter[j]);
                }
            }
            if alphabet.contains(word[last]) && !is_repeat(word, last) {
                let whole = word.take(n);
                assert forall|i: int| 0 <= i < whole.len() implies alphabet.contains(
                    #[trigger] whole[i],
                ) by {
                    if i < last {
                        assert(whole[i] == shorter[i]);
                    }
                }
                assert forall|a: int, b: int|
                    0 <= a < whole.len() && 0 <= b < whole.len() && a != b implies whole[a]
                    != whole[b] by {
                    if a < last && b < last {
                        assert(shorter[a] != shorter[b]);
                    } else if whole[a] == whole[b] {
                        let lo = if a < b {
                            a
                        } else {
                            b
                        };
                        assert(word[lo] == word[last]);
                    }
                }
                assert(false);
            }
            assert(is_first_fault(alphabet, word, last));
        } else {
            assert(shorter =~= word.take(n - 1));
            lemma_first_fault_exists(alphabet, word, n - 1);
        }
    }
}

/// A host replies to its own secret with all bulls and no cows.
pub proof fn lemma_secret_is_answered_with_all_bulls<T: Eq + Hash + Clone>(
    alphabet: Set<T>,
    secret: Seq<T>,
)
    requires
        is_answer(alphabet, secret),
        secret.len() <= usize::MAX,
    ensures
        reply_to(alphabet, secret, secret) == Ok::<(usize, usize), HostError<T>>(
            (secret.len() as usize, 0usize),
        ),
{
    lemma_fault_of_none(alphabet, secret);
    crate::score::lemma_secret_scores_all_bulls(secret);
}

/// The first faulty position decides what `fault_of` reports.
pub proof fn lemma_first_fault_decides<T: Eq + Hash + Clone>(alphabet: Set<T>, word: Seq<T>, i: int)
    requires
        is_first_fault(alphabet, word, i),
    ensures
        fault_of(alphabet, word) == if !alphabet.contains(word[i]) {
            Some(HostError::AnswerContainsIncorrectLetter(word[i]))
        } else {
            Some(HostError::AnswerContainsDuplicatedLetter(word[i]))
        },
{
    let chosen = choose|i: int| is_first_fault(alphabet, word, i);
    assert(is_first_fault(alphabet, word, chosen));
    if chosen < i {
        assert(!is_fault(alphabet, word, chosen));
    } else if i < chosen {
        assert(!is_fault(alphabet, word, i));
    }
}

/// The alphabet that a set of letters holds is finite.
pub proof fn lemma_alphabet_is_finite<T>(letters: &HashSet<T>)
    ensures
        letters@.finite(),
{
    vstd::std_specs::hash::axiom_spec_hash_keys_iter(letters);
    vstd::seq_lib::seq_to_set_is_finite(spec_hash_keys_iter(letters).remaining().unref());
}

/// Whether the letter at position `i` of `word` repeats an earlier one.
pub fn repeats_at<T: Eq + Hash + Clone>(word: &[T], i: usize) -> (repeats: bool)
    requires
        lawful_letter::<T>(),
        i < word@.len(),
    ensures
        repeats == is_repeat(word@, i as int),
{
    let mut j: usize = 0;
    while j < i
        invariant
            lawful_letter::<T>(),
            j <= i < word@.len(),
            forall|h: int| 0 <= h < j ==> word@[h] != word@[i as int],
        decreases i - j,
    {
        if same_letter(&word[j], &word[i]) {
            return true;
        }
        j += 1;
    }
    false
}

/// Reads `word` from the left and reports its first fault, if it has one.
pub fn find_fault<T: Eq + Hash + Clone>(letters: &HashSet<T>, word: &[T]) -> (fault: Option<
    HostError<T>,
>)
    requires
        lawful_letter::<T>(),
    ensures
        fault == fault_of(letters@, word@),
{
    let mut i: usize = 0;
    while i < word.len()
        invariant
            lawful_letter::<T>(),
            i <= word@.len(),
            forall|j: int| 0 <= j < i ==> !is_fault(letters@, word@, j),
        decreases word@.len() - i,
    {
        if !letters.contains(&word[i]) {
            proof {
                lemma_first_fault_decides(letters@, word@, i as int);
            }
            return Some(HostError::AnswerContainsIncorrectLetter(copy_letter(&word[i])));
        }
        if repeats_at(word, i) {
            proof {
                lemma_first_fault_decides(letters@, word@, i as int);
            }
            return Some(HostError::AnswerContainsDuplicatedLetter(copy_letter(&word[i])));
        }
        i += 1;
    }
    None
}

/// Decides whether `word` can be installed as the secret over `letters`.
pub fn find_refusal<T: Eq + Hash + Clone>(letters: &HashSet<T>, word: &[T]) -> (refusal: Option<
    HostError<T>,
>)
    requires
        lawful_letter::<T>(),
    ensures
        refusal == refusal_of(letters@, word@),
        refusal is None <==> is_answer(letters@, word@),
{
    proof {
        lemma_alphabet_is_finite(letters);
        lemma_fault_of_none(letters@, word@);
        if is_arrangement(letters@, word@) {
            lemma_arrangement_fits(letters@, word@);
        }
    }
    let answer_length = word.len();
    if answer_length == 0 || answer_length > letters.len() {
        Some(HostError::AnswerLengthIncorrect)
    } else {
        find_fault(letters, word)
    }
}

/// An arrangement of letters of a finite alphabet is no longer than the
/// alphabet is large.
pub proof fn lemma_arrangement_fits<T>(alphabet: Set<T>, word: Seq<T>)
    requires
        alphabet.finite(),
        is_arrangement(alphabet, word),
    ensures
        word.len() <= alphabet.len(),
{
    word.unique_seq_to_set();
    assert(word.to_set().subset_of(alphabet)) by {
        assert forall|x: T| word.to_set().contains(x) implies alphabet.contains(x) by {
            let i = choose|i: int| 0 <= i < word.len() && word[i] == x;
            assert(alphabet.contains(word[i]));
        }
    }
    vstd::set_lib::lemma_len_subset(word.to_set(), alphabet);
}

/// Draws `answer_length` of the letters by chance, in an order that depends
/// on chance: all the letters are shuffled, and the first `answer_length` of
/// them are taken.
pub fn draw_answer<T: Eq + Hash + Clone>(letters: &HashSet<T>, answer_length: usize) -> (answer:
    Vec<T>)
    requires
        lawful_letter::<T>(),
        1 <= answer_length <= letters@.len(),
    ensures
        answer@.len() == answer_length,
        is_answer(letters@, answer@),
        is_draw(spec_hash_keys_iter(letters).remaining().unref(), answer_length as nat, answer@),
{
    let letters_vec = letters_in_order(letters);
    let letters_len = letters_vec.len();
    let mut indices: Vec<usize> = Vec::with_capacity(letters_len);
    let mut i: usize = 0;
    while i < letters_len
        invariant
            i <= letters_len,
            indices@ == first_positions(i as nat),
        decreases letters_len - i,
    {
        indices.push(i);
        i += 1;
        assert(indices@ =~= first_positions(i as nat));
    }
    let ghost rising = indices@;
    let mut rng = rand::thread_rng();
    shuffle(&mut indices, &mut rng);
    let ghost drawn = indices@;
    proof {
        assert(is_index_subset(rising, letters_len as nat, letters_len as nat));
        lemma_reordered_subset(drawn, rising, letters_len as nat, letters_len as nat);
    }
    indices.truncate(answer_length);
    proof {
        assert(indices@ == drawn.take(answer_length as int));
        lemma_spelled_is_distinct(letters_vec@, indices@);
        lemma_alphabet_is_finite(letters);
    }
    spell(&letters_vec, &indices)
}

/// The game host for generating the question and answering for the question.
#[derive(Debug)]
pub struct Host<T: Eq + Hash + Clone> {
    letters: HashSet<T>,
    answer: Vec<T>,
}

impl<T: Eq + Hash + Clone> Host<T> {
    /// What every host keeps: lawful letters, and a secret of distinct letters
    /// of its alphabet.
    #[verifier::type_invariant]
    spec fn well_formed(self) -> bool {
        &&& lawful_letter::<T>()
        &&& is_answer(self.letters@, self.answer@)
    }

    /// The set that holds the letters of this host.
    pub closed spec fn letter_set(self) -> HashSet<T> {
        self.letters
    }

    /// The alphabet of this host.
    pub open spec fn alphabet(self) -> Set<T> {
        self.letter_set()@
    }

    /// The secret of this host.
    pub closed spec fn secret(self) -> Seq<T> {
        self.answer@
    }

    /// The letters of this host.
    pub fn get_letters(&self) -> (letters: &HashSet<T>)
        ensures
            *letters == self.letter_set(),
    {
        &self.letters
    }

    /// The length of the secret.
    pub fn get_answer_length(&self) -> (length: usize)
        ensures
            length == self.secret().len(),
            1 <= length <= self.alphabet().len(),
    {
        proof {
            use_type_invariant(self);
        }
        self.answer.len()
    }

    /// The secret.
    pub fn get_answer(&self) -> (answer: &[T])
        ensures
            answer@ == self.secret(),
            is_answer(self.alphabet(), answer@),
            lawful_letter::<T>(),
    {
        proof {
            use_type_invariant(self);
        }
        self.answer.as_slice()
    }
}

impl<T: Eq + Hash + Clone> Host<T> {
    /// Build a bulls-and-cows game host with a fixed answer: the first
    /// `answer_length` letters, in the order in which the set hands them out.
    pub fn build(letters: HashSet<T>, answer_length: usize) -> (built: Result<Host<T>, HostError<T>>)
        requires
            lawful_letter::<T>(),
        ensures
            letters@.len() == 0 ==> built == Err::<Host<T>, HostError<T>>(HostError::LettersEmpty),
            letters@.len() > 0 && (answer_length == 0 || answer_length > letters@.len()) ==> built
                == Err::<Host<T>, HostError<T>>(HostError::AnswerLengthIncorrect),
            1 <= answer_length <= letters@.len() ==> built is Ok && built->Ok_0.letter_set()
                == letters && built->Ok_0.secret() == spec_hash_keys_iter(
                &letters,
            ).remaining().unref().take(answer_length as int),
    {
        proof {
            lemma_alphabet_is_finite(&letters);
        }
        if letters.is_empty() {
            Err(HostError::LettersEmpty)
        } else {
            let letters_len = letters.len();
            if answer_length == 0 || answer_length > letters_len {
                Err(HostError::AnswerLengthIncorrect)
            } else {
                let mut answer = letters_in_order(&letters);
                let ghost order = answer@;
                answer.truncate(answer_length);
                proof {
                    assert(answer@ == order.take(answer_length as int));
                    assert forall|i: int| 0 <= i < answer@.len() implies letters@.contains(
                        #[trigger] answer@[i],
                    ) by {
                        assert(order.contains(order[i]));
                    }
                }
                Ok(Host { letters, answer })
            }
        }
    }

    /// Build a bulls-and-cows game host with a random answer.
    pub fn build_with_random_answer(letters: HashSet<T>, answer_length: usize) -> (built: Result<
        Host<T>,
        HostError<T>,
    >)
        requires
            lawful_letter::<T>(),
        ensures
            letters@.len() == 0 ==> built == Err::<Host<T>, HostError<T>>(HostError::LettersEmpty),
            letters@.len() > 0 && (answer_length == 0 || answer_length > letters@.len()) ==> built
                == Err::<Host<T>, HostError<T>>(HostError::AnswerLengthIncorrect),
            1 <= answer_length <= letters@.len() ==> built is Ok && built->Ok_0.letter_set()
                == letters && built->Ok_0.secret().len() == answer_length && is_answer(
                letters@,
                built->Ok_0.secret(),
            ) && is_draw(
                spec_hash_keys_iter(&letters).remaining().unref(),
                answer_length as nat,
                built->Ok_0.secret(),
            ),
    {
        proof {
            lemma_alphabet_is_finite(&letters);
        }
        if letters.is_empty() {
            Err(HostError::LettersEmpty)
        } else if answer_length == 0 || answer_length > letters.len() {
            Err(HostError::AnswerLengthIncorrect)
        } else {
            let answer = draw_answer(&letters, answer_length);
            Ok(Host { letters, answer })
        }
    }

    /// Build a bulls-and-cows game host with a known answer.
    pub fn build_with_known_answer(letters: HashSet<T>, answer: Vec<T>) -> (built: Result<
        Host<T>,
        HostError<T>,
    >)
        requires
            lawful_letter::<T>(),
        ensures
            letters@.len() == 0 ==> built == Err::<Host<T>, HostError<T>>(HostError::LettersEmpty),
            letters@.len() > 0 ==> match refusal_of(letters@, answer@) {
                Some(refusal) => built == Err::<Host<T>, HostError<T>>(refusal),
                None => built is Ok && built->Ok_0.letter_set() == letters
                    && built->Ok_0.secret() == answer@,
            },
    {
        proof {
            lemma_alphabet_is_finite(&letters);
        }
        if letters.is_empty() {
            Err(HostError::LettersEmpty)
        } else {
            match find_refusal(&letters, answer.as_slice()) {
                Some(refusal) => Err(refusal),
                None => Ok(Host { letters, answer }),
            }
        }
    }

    /// Build a bulls-and-cows game host with a known answer that is not
    /// looked at. The caller answers for it: the answer must be one that
    /// `build_with_known_answer` would take.
    pub fn build_with_known_answer_unsafe(letters: HashSet<T>, answer: Vec<T>) -> (host: Host<T>)
        requires
            lawful_letter::<T>(),
            is_answer(letters@, answer@),
        ensures
            host.letter_set() == letters,
            host.secret() == answer@,
    {
        Host { letters, answer }
    }

    /// Renew this host with a random answer.
    pub fn renew_with_random_answer(&mut self, answer_length: usize) -> (renewed: Result<
        (),
        HostError<T>,
    >)
        ensures
            final(self).letter_set() == old(self).letter_set(),
            answer_length == 0 || answer_length > old(self).alphabet().len() ==> renewed == Err::<
                (),
                HostError<T>,
            >(HostError::AnswerLengthIncorrect) && final(self).secret() == old(self).secret(),
            1 <= answer_length <= old(self).alphabet().len() ==> renewed is Ok && final(self).secret().len() == answer_length && is_answer(
                final(self).alphabet(),
                final(self).secret(),
            ) && is_draw(
                spec_hash_keys_iter(&old(self).letter_set()).remaining().unref(),
                answer_length as nat,
                final(self).secret(),
            ),
    {
        proof {
            use_type_invariant(&*self);
        }
        let letters_len = self.letters.len();
        if answer_length == 0 || answer_length > letters_len {
            Err(HostError::AnswerLengthIncorrect)
        } else {
            let answer = draw_answer(&self.letters, answer_length);
            self.answer = answer;
            Ok(())
        }
    }

    /// Renew this host with a known answer.
    pub fn renew_with_known_answer(&mut self, answer: Vec<T>) -> (renewed: Result<(), HostError<T>>)
        ensures
            final(self).letter_set() == old(self).letter_set(),
            match refusal_of(old(self).alphabet(), answer@) {
                Some(refusal) => renewed == Err::<(), HostError<T>>(refusal) && final(self).secret() == old(self).secret(),
                None => renewed is Ok && final(self).secret() == answer@,
            },
    {
        proof {
            use_type_invariant(&*self);
        }
        match find_refusal(&self.letters, answer.as_slice()) {
            Some(refusal) => Err(refusal),
            None => {
                self.answer = answer;
                Ok(())
            },
        }
    }

    /// Renew this host with a known answer that is not looked at. The caller
    /// answers for it: the answer must be one that `renew_with_known_answer`
    /// would take.
    pub fn renew_with_known_answer_unsafe(&mut self, answer: Vec<T>)
        requires
            is_answer(old(self).alphabet(), answer@),
        ensures
            final(self).letter_set() == old(self).letter_set(),
            final(self).secret() == answer@,
    {
        proof {
            use_type_invariant(&*self);
        }
        self.answer = answer;
    }

    /// Answer for the question. If the format of the input answer is correct,
    /// it returns the number of bulls and the number of cows.
    pub fn answer(&self, answer: &[T]) -> (reply: Result<(usize, usize), HostError<T>>)
        ensures
            reply == reply_to(self.alphabet(), self.secret(), answer@),
            reply is Ok ==> reply->Ok_0.0 + reply->Ok_0.1 <= answer@.len(),
    {
        proof {
            use_type_invariant(self);
        }
        if answer.len() != self.get_answer_length() {
            Err(HostError::AnswerLengthIncorrect)
        } else {
            match find_fault(&self.letters, answer) {
                Some(fault) => Err(fault),
                None => Ok(score_against(self.answer.as_slice(), answer)),
            }
        }
    }
}

} // verus!
