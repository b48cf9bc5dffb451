//! Alphabets of letters.

use std::collections::HashSet;
use std::hash::Hash;
use vstd::laws_eq::obeys_concrete_eq;
use vstd::prelude::*;
use vstd::std_specs::hash::obeys_key_model;
use vstd::std_specs::hash::spec_hash_keys_iter;
use vstd::std_specs::iter::IteratorSpec;

verus! {

/// What this crate asks of a letter type: that hashing is deterministic, that
/// the executable `==` holds exactly of identical values, and that a clone is
/// identical to the value it was made from.
///
/// All primitive integer types meet this.
pub open spec fn lawful_letter<T: Eq + Hash + Clone>() -> bool {
    &&& obeys_key_model::<T>()
    &&& obeys_concrete_eq::<T>()
    &&& forall|a: T, b: T| cloned::<T>(a, b) ==> a == b
}

/// The words that a list of vectors holds.
pub open spec fn words_of<T>(list: Seq<Vec<T>>) -> Seq<Seq<T>> {
    Seq::new(list.len(), |i: int| list[i]@)
}

/// Compares two letters.
pub fn same_letter<T: Eq + Hash + Clone>(a: &T, b: &T) -> (same: bool)
    requires
        lawful_letter::<T>(),
    ensures
        same == (*a == *b),
{
    proof {
        reveal(obeys_concrete_eq);
    }
    *a == *b
}

/// Copies one letter.
pub fn copy_letter<T: Eq + Hash + Clone>(a: &T) -> (copy: T)
    requires
        lawful_letter::<T>(),
    ensures
        copy == *a,
{
    let copy = a.clone();
    assert(cloned::<T>(*a, copy));
    copy
}

/// Whether `word` holds `letter`.
pub fn holds_letter<T: Eq + Hash + Clone>(word: &[T], letter: &T) -> (found: bool)
    requires
        lawful_letter::<T>(),
    ensures
        found == word@.contains(*letter),
{
    let mut i: usize = 0;
    while i < word.len()
        invariant
            lawful_letter::<T>(),
            i <= word@.len(),
            forall|j: int| 0 <= j < i ==> word@[j] != *letter,
        decreases word@.len() - i,
    {
        if same_letter(&word[i], letter) {
            return true;
        }
        i += 1;
    }
    false
}

/// Copies a word letter by letter.
pub fn copy_word<T: Eq + Hash + Clone>(word: &[T]) -> (copy: Vec<T>)
    requires
        lawful_letter::<T>(),
    ensures
        copy@ == word@,
{
    let mut copy: Vec<T> = Vec::with_capacity(word.len());
    let mut i: usize = 0;
    while i < word.len()
        invariant
            lawful_letter::<T>(),
            i <= word@.len(),
            copy@ == word@.take(i as int),
        decreases word@.len() - i,
    {
        copy.push(copy_letter(&word[i]));
        i += 1;
    }
    copy
}

/// The word that has, at each place, the letter that `order` has at the
/// position named there.
pub open spec fn spelled<T>(order: Seq<T>, positions: Seq<usize>) -> Seq<T> {
    Seq::new(positions.len(), |i: int| order[positions[i] as int])
}

/// Spells the word that `positions` names in `order`.
pub fn spell<T: Eq + Hash + Clone>(order: &Vec<T>, positions: &Vec<usize>) -> (word: Vec<T>)
    requires
        lawful_letter::<T>(),
        forall|i: int| 0 <= i < positions@.len() ==> positions@[i] < order@.len(),
    ensures
        word@ == spelled(order@, positions@),
{
    let mut word: Vec<T> = Vec::with_capacity(positions.len());
    let mut i: usize = 0;
    while i < positions.len()
        invariant
            lawful_letter::<T>(),
            i <= positions@.len(),
            forall|i: int| 0 <= i < positions@.len() ==> positions@[i] < order@.len(),
            word@ == spelled(order@, positions@.take(i as int)),
        decreases positions@.len() - i,
    {
        word.push(copy_letter(&order[positions[i]]));
        i += 1;
        assert(word@ =~= spelled(order@, positions@.take(i as int)));
    }
    assert(positions@.take(i as int) =~= positions@);
    word
}

/// Distinct positions in a list of distinct letters spell a word of distinct
/// letters of that list.
pub proof fn lemma_spelled_is_distinct<T>(order: Seq<T>, positions: Seq<usize>)
    requires
        order.no_duplicates(),
        positions.no_duplicates(),
        forall|i: int| 0 <= i < positions.len() ==> positions[i] < order.len(),
    ensures
        spelled(order, positions).no_duplicates(),
        spelled(order, positions).len() == positions.len(),
        forall|i: int|
            0 <= i < positions.len() ==> order.to_set().contains(
                #[trigger] spelled(order, positions)[i],
            ),
{
    let word = spelled(order, positions);
    assert forall|i: int| 0 <= i < positions.len() implies order.to_set().contains(
        #[trigger] word[i],
    ) by {
        assert(order.contains(order[positions[i] as int]));
    }
}

/// The letters of an alphabet, each once, in the order in which the set hands
/// them out.
pub fn letters_in_order<T: Eq + Hash + Clone>(letters: &HashSet<T>) -> (order: Vec<T>)
    requires
        lawful_letter::<T>(),
    ensures
        order@ == spec_hash_keys_iter(letters).remaining().unref(),
        order@.no_duplicates(),
        order@.to_set() == letters@,
        order@.len() == letters@.len(),
{
    let mut order: Vec<T> = Vec::with_capacity(letters.len());
    let ghost walk = spec_hash_keys_iter(letters).remaining();
    for letter in it: letters.iter()
        invariant
            lawful_letter::<T>(),
            it.seq() == walk,
            order@ == walk.unref().take(it.index() as int),
    {
        order.push(copy_letter(letter));
    }
    order
}

/// A set of its own that holds the same letters.
pub fn copy_letters<T: Eq + Hash + Clone>(letters: &HashSet<T>) -> (copy: HashSet<T>)
    requires
        lawful_letter::<T>(),
    ensures
        copy@ == letters@,
{
    let mut copy: HashSet<T> = HashSet::with_capacity(letters.len());
    let ghost walk = spec_hash_keys_iter(letters).remaining().unref();
    for letter in it: letters.iter()
        invariant
            lawful_letter::<T>(),
            it.seq().unref() == walk,
            copy@ == walk.take(it.index() as int).to_set(),
    {
        proof {
            let i = it.index() as int;
            assert(walk.take(i + 1) =~= walk.take(i).push(walk[i]));
            walk.take(i).lemma_push_to_set_commute(walk[i]);
        }
        copy.insert(copy_letter(letter));
    }
    assert(walk.take(walk.len() as int) =~= walk);
    copy
}

/// To generate letters.
pub struct Letters;

impl Letters {
    /// Generate letters for numbers from 0 to 9.
    pub fn generate_numeric_letters() -> (letters: HashSet<u8>)
        ensures
            forall|digit: u8| letters@.contains(digit) <==> digit <= 9,
            letters@.finite(),
            letters@.len() == 10,
    {
        let mut letters: HashSet<u8> = HashSet::new();
        let mut i: u8 = 0;
        while i <= 9
            invariant
                i <= 10,
                letters@.finite(),
                letters@.len() == i,
                forall|digit: u8| letters@.contains(digit) <==> digit < i,
            decreases 10 - i,
        {
            letters.insert(i);
            i += 1;
        }
        letters
    }
}

} // verus!
