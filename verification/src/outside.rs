//! The calls this crate makes into other crates.
//!
//! Nothing in this file is proved: each contract is taken from the source and
//! the documentation of the function that is called.

use crate::arrangements::MAX_PLACES;
use crate::counting::factorial;
use crate::letters::words_of;
use permutohedron::Heap;
use rand::rngs::ThreadRng;
use rand::seq::SliceRandom;
use vstd::prelude::*;

verus! {

/// The orderings of `items` that `permutohedron::Heap` yields, in the order in
/// which it yields them. Heap's algorithm swaps by a count of its own and
/// never looks at an item, so the same items give the same orderings.
pub uninterp spec fn heap_orderings(items: Seq<usize>) -> Seq<Seq<usize>>;

/// Runs `permutohedron::Heap` over `items` and collects what it yields.
///
/// `Heap::new` panics on more than `permutohedron::MAXHEAP` items, sixteen,
/// which `requires` leaves out. Heap's algorithm yields every ordering of the
/// items once, `n!` of them for `n` items: each is a rearrangement of `items`,
/// every rearrangement occurs, and where no item occurs twice, no ordering
/// occurs twice. The order in which they come has a name, `heap_orderings`,
/// and is not written out.
#[verifier::external_body]
pub(crate) fn heap_permutations(items: Vec<usize>) -> (orderings: Vec<Vec<usize>>)
    requires
        items@.len() <= MAX_PLACES,
    ensures
        words_of(orderings@) == heap_orderings(items@),
        orderings@.len() == factorial(items@.len()),
        forall|j: int|
            0 <= j < orderings@.len() ==> (#[trigger] words_of(orderings@)[j]).to_multiset()
                == items@.to_multiset(),
        items@.no_duplicates() ==> words_of(orderings@).no_duplicates(),
        forall|p: Seq<usize>|
            #[trigger] p.to_multiset() == items@.to_multiset() ==> words_of(orderings@).contains(p),
{
    let mut items = items;
    Heap::new(&mut items).collect()
}

/// `rand::rngs::ThreadRng`, the generator that `rand::thread_rng` hands out.
#[verifier::external_type_specification]
#[verifier::external_body]
pub struct ExThreadRng(ThreadRng);

/// `rand::thread_rng` hands out the generator of the running thread. Nothing is
/// claimed of it. It panics where the system cannot seed the generator, which
/// no `requires` can leave out.
pub assume_specification[ rand::thread_rng ]() -> (rng: ThreadRng)
;

/// Shuffles `items` in place with `rand::seq::SliceRandom::shuffle`.
///
/// The shuffle only swaps items, so the same items are there afterwards, in an
/// order that depends on chance.
#[verifier::external_body]
pub(crate) fn shuffle(items: &mut Vec<usize>, rng: &mut ThreadRng)
    ensures
        final(items)@.to_multiset() == old(items)@.to_multiset(),
{
    items.shuffle(rng);
}

/// Picks one item of `slice` by chance with `random_pick::pick_from_slice`.
///
/// With a single weight, which `requires` asks for, the function picks a
/// position below the slice's length by chance and hands out the item there;
/// it hands out nothing where the slice is empty or the weight is zero.
#[verifier::external_body]
pub(crate) fn pick_from_slice<'a, T>(slice: &'a [T], weights: &'a [usize]) -> (picked: Option<&'a T>)
    requires
        weights@.len() == 1,
    ensures
        match picked {
            Some(item) => weights@[0] != 0 && slice@.contains(*item),
            None => slice@.len() == 0 || weights@[0] == 0,
        },
{
    random_pick::pick_from_slice(slice, weights)
}

} // verus!
