//! The candidates of a game: every word that can be the secret.

use crate::arrangements::is_index_arrangement;
use crate::counting::arrangement_count;
use crate::counting::factorial;
use crate::counting::lemma_arrangement_count_is_quotient;
use crate::arrangements::ordered_selections;
use crate::host::is_arrangement;
use crate::letters::lemma_spelled_is_distinct;
use crate::letters::spelled;
use vstd::prelude::*;
use vstd::relations::injective_on;
use vstd::set_lib::lemma_len_subset;
use vstd::set_lib::lemma_map_size;
use vstd::set_lib::lemma_set_disjoint_lens;

verus! {

/// Whether `word` can be the secret of a game with secrets of `length`
/// letters over the alphabet.
pub open spec fn is_candidate<T>(alphabet: Set<T>, length: nat, word: Seq<T>) -> bool {
    &&& word.len() == length
    &&& is_arrangement(alphabet, word)
}

/// Whether `pool` holds candidates only, none twice.
pub open spec fn holds_candidates<T>(alphabet: Set<T>, length: nat, pool: Seq<Seq<T>>) -> bool {
    &&& pool.no_duplicates()
    &&& forall|j: int| 0 <= j < pool.len() ==> is_candidate(alphabet, length, #[trigger] pool[j])
}

/// Whether `pool` holds every candidate, each once, and nothing else.
pub open spec fn holds_all_candidates<T>(alphabet: Set<T>, length: nat, pool: Seq<Seq<T>>) -> bool {
    &&& holds_candidates(alphabet, length, pool)
    &&& forall|word: Seq<T>| is_candidate(alphabet, length, word) ==> #[trigger] pool.contains(word)
}

/// The table of candidates of a game with secrets of `length` letters, where
/// `order` lists the letters of the alphabet: the ordered selections of
/// `length` positions, in their order, each spelled in `order`.
pub open spec fn table_of<T>(order: Seq<T>, length: nat) -> Seq<Seq<T>> {
    let rows = ordered_selections(order.len(), length);
    Seq::new(rows.len(), |j: int| spelled(order, rows[j]))
}

/// Two pools that each hold every candidate hold the same words, and as many.
pub proof fn lemma_full_pools_agree<T>(
    alphabet: Set<T>,
    length: nat,
    pool: Seq<Seq<T>>,
    other: Seq<Seq<T>>,
)
    requires
        holds_all_candidates(alphabet, length, pool),
        holds_all_candidates(alphabet, length, other),
    ensures
        pool.to_set() == other.to_set(),
        pool.len() == other.len(),
{
    assert forall|word: Seq<T>| pool.to_set().contains(word) <==> other.to_set().contains(
        word,
    ) by {
        if pool.contains(word) {
            let j = choose|j: int| 0 <= j < pool.len() && pool[j] == word;
            assert(is_candidate(alphabet, length, pool[j]));
        }
        if other.contains(word) {
            let j = choose|j: int| 0 <= j < other.len() && other[j] == word;
            assert(is_candidate(alphabet, length, other[j]));
        }
    }
    assert(pool.to_set() =~= other.to_set());
    pool.unique_seq_to_set();
    other.unique_seq_to_set();
}

/// The positions at which `order` has the letters of `word`.
pub open spec fn positions_of<T>(order: Seq<T>, word: Seq<T>) -> Seq<usize> {
    Seq::new(word.len(), |i: int| order.index_of(word[i]) as usize)
}

/// Spelling every ordered selection of positions in a list of the alphabet's
/// letters gives every candidate, each once.
pub proof fn lemma_spelling_gives_all<T>(
    order: Seq<T>,
    rows: Seq<Seq<usize>>,
    length: nat,
    pool: Seq<Seq<T>>,
)
    requires
        order.no_duplicates(),
        order.len() <= usize::MAX,
        forall|j: int|
            0 <= j < rows.len() ==> is_index_arrangement(#[trigger] rows[j], order.len(), length),
        rows.no_duplicates(),
        forall|q: Seq<usize>|
            is_index_arrangement(q, order.len(), length) ==> #[trigger] rows.contains(q),
        pool.len() == rows.len(),
        forall|j: int| 0 <= j < rows.len() ==> #[trigger] pool[j] == spelled(order, rows[j]),
    ensures
        holds_all_candidates(order.to_set(), length, pool),
{
    let alphabet = order.to_set();
    assert forall|j: int| 0 <= j < pool.len() implies is_candidate(
        alphabet,
        length,
        #[trigger] pool[j],
    ) by {
        assert(is_index_arrangement(rows[j], order.len(), length));
        lemma_spelled_is_distinct(order, rows[j]);
    }
    assert forall|a: int, b: int| 0 <= a < pool.len() && 0 <= b < pool.len() && a != b implies pool[a]
        != pool[b] by {
        assert(is_index_arrangement(rows[a], order.len(), length));
        assert(is_index_arrangement(rows[b], order.len(), length));
        if pool[a] == pool[b] {
            assert forall|i: int| 0 <= i < length implies rows[a][i] == rows[b][i] by {
                assert(pool[a][i] == order[rows[a][i] as int]);
                assert(pool[b][i] == order[rows[b][i] as int]);
            }
            assert(rows[a] =~= rows[b]);
        }
    }
    assert forall|word: Seq<T>| is_candidate(alphabet, length, word) implies #[trigger] pool.contains(
        word,
    ) by {
        let q = positions_of(order, word);
        assert forall|i: int| 0 <= i < word.len() implies 0 <= order.index_of(word[i]) < order.len()
            && order[order.index_of(word[i])] == word[i] by {
            assert(alphabet.contains(word[i]));
            assert(order.contains(word[i]));
        }
        assert(is_index_arrangement(q, order.len(), length)) by {
            assert forall|a: int, b: int| 0 <= a < q.len() && 0 <= b < q.len() && a != b implies q[a]
                != q[b] by {
                assert(order[order.index_of(word[a])] == word[a]);
                assert(order[order.index_of(word[b])] == word[b]);
            }
        }
        assert(rows.contains(q));
        let j = choose|j: int| 0 <= j < rows.len() && rows[j] == q;
        assert(pool[j] == spelled(order, rows[j]));
        assert(spelled(order, q) =~= word);
    }
}

/// The candidates of a game, as a set.
pub open spec fn candidates<T>(alphabet: Set<T>, length: nat) -> Set<Seq<T>> {
    Set::new(|word: Seq<T>| is_candidate(alphabet, length, word))
}

/// The candidates that begin with one of the letters `firsts`.
pub open spec fn candidates_from<T>(alphabet: Set<T>, length: nat, firsts: Set<T>) -> Set<Seq<T>> {
    Set::new(|word: Seq<T>| is_candidate(alphabet, length, word) && firsts.contains(word[0]))
}

/// Over an alphabet of `n` letters there are `n * (n - 1) * ... * (n - k + 1)`
/// candidates of `k` letters, whatever `n` and `k` are.
pub proof fn lemma_candidates_counted<T>(alphabet: Set<T>, length: nat)
    requires
        alphabet.finite(),
    ensures
        candidates(alphabet, length).finite(),
        candidates(alphabet, length).len() == arrangement_count(alphabet.len(), length),
    decreases length, 1nat, 0nat,
{
    let all = candidates(alphabet, length);
    if length == 0 {
        assert(all =~= set![Seq::<T>::empty()]) by {
            assert forall|word: Seq<T>| all.contains(word) <==> word == Seq::<T>::empty() by {
                if all.contains(word) {
                    assert(word =~= Seq::<T>::empty());
                }
            }
        }
    } else {
        lemma_candidates_from_counted(alphabet, length, alphabet);
        assert(all =~= candidates_from(alphabet, length, alphabet));
    }
}

/// Each first letter begins as many candidates as there are candidates of one
/// letter less over the other letters.
pub proof fn lemma_candidates_from_counted<T>(alphabet: Set<T>, length: nat, firsts: Set<T>)
    requires
        alphabet.finite(),
        length > 0,
        firsts.subset_of(alphabet),
    ensures
        candidates_from(alphabet, length, firsts).finite(),
        firsts.len() > 0 ==> candidates_from(alphabet, length, firsts).len() == firsts.len()
            * arrangement_count((alphabet.len() - 1) as nat, (length - 1) as nat),
        firsts.len() == 0 ==> candidates_from(alphabet, length, firsts).len() == 0,
    decreases length, 0nat, firsts.len(),
{
    lemma_len_subset(firsts, alphabet);
    let these = candidates_from(alphabet, length, firsts);
    if firsts.len() == 0 {
        assert(firsts =~= Set::<T>::empty());
        assert(these =~= Set::<Seq<T>>::empty());
    } else {
        let x = firsts.choose();
        let rest = firsts.remove(x);
        let others = alphabet.remove(x);
        let shorter = candidates(others, (length - 1) as nat);
        let put_first = |tail: Seq<T>| seq![x] + tail;
        let with_x = shorter.map(put_first);
        let per_letter = arrangement_count((alphabet.len() - 1) as nat, (length - 1) as nat);
        lemma_candidates_counted(others, (length - 1) as nat);
        lemma_candidates_from_counted(alphabet, length, rest);
        assert(injective_on(put_first, shorter)) by {
            assert forall|a: Seq<T>, b: Seq<T>|
                shorter.contains(a) && shorter.contains(b) && #[trigger] put_first(a)
                    == #[trigger] put_first(b) implies a == b by {
                assert(put_first(a).drop_first() =~= a);
                assert(put_first(b).drop_first() =~= b);
            }
        }
        lemma_map_size(shorter, with_x, put_first);
        let begin_with_x = candidates_from(alphabet, length, set![x]);
        assert(begin_with_x =~= with_x) by {
            assert forall|word: Seq<T>| begin_with_x.contains(word) implies with_x.contains(
                word,
            ) by {
                let tail = word.drop_first();
                assert forall|i: int| 0 <= i < tail.len() implies others.contains(
                    #[trigger] tail[i],
                ) by {
                    assert(tail[i] == word[i + 1]);
                    assert(alphabet.contains(word[i + 1]));
                    assert(word[i + 1] != word[0]);
                }
                assert(tail.no_duplicates()) by {
                    assert forall|a: int, b: int|
                        0 <= a < tail.len() && 0 <= b < tail.len() && a != b implies tail[a]
                        != tail[b] by {
                        assert(word[a + 1] != word[b + 1]);
                    }
                }
                assert(shorter.contains(tail));
                assert(put_first(tail) =~= word);
            }
            assert forall|word: Seq<T>| with_x.contains(word) implies begin_with_x.contains(
                word,
            ) by {
                let tail = choose|tail: Seq<T>| shorter.contains(tail) && word == put_first(tail);
                assert(word[0] == x);
                assert forall|i: int| 0 <= i < word.len() implies alphabet.contains(
                    #[trigger] word[i],
                ) by {
                    if i > 0 {
                        assert(word[i] == tail[i - 1]);
                        assert(others.contains(tail[i - 1]));
                    }
                }
                assert forall|a: int, b: int|
                    0 <= a < word.len() && 0 <= b < word.len() && a != b implies word[a]
                    != word[b] by {
                    if a > 0 {
                        assert(word[a] == tail[a - 1]);
                        assert(others.contains(tail[a - 1]));
                    }
                    if b > 0 {
                        assert(word[b] == tail[b - 1]);
                        assert(others.contains(tail[b - 1]));
                    }
                }
            }
        }
        let before = candidates_from(alphabet, length, rest);
        assert(these =~= before + begin_with_x);
        assert(before.disjoint(begin_with_x));
        lemma_set_disjoint_lens(before, begin_with_x);
        assert(firsts.len() == rest.len() + 1);
        assert(others.len() == alphabet.len() - 1);
        assert((rest.len() + 1) * per_letter == rest.len() * per_letter + per_letter)
            by (nonlinear_arith);
        if rest.len() == 0 {
            assert(0 * per_letter == 0);
        }
    }
}

/// A pool that holds every candidate once holds as many words as there are
/// candidates: `n! / (n - k)!` where the alphabet has `n` letters and
/// `k <= n`.
pub proof fn lemma_full_pool_is_counted<T>(alphabet: Set<T>, length: nat, pool: Seq<Seq<T>>)
    requires
        alphabet.finite(),
        holds_all_candidates(alphabet, length, pool),
    ensures
        pool.len() == arrangement_count(alphabet.len(), length),
        length <= alphabet.len() ==> pool.len() == factorial(alphabet.len()) / factorial(
            (alphabet.len() - length) as nat,
        ),
{
    lemma_candidates_counted(alphabet, length);
    pool.unique_seq_to_set();
    assert(pool.to_set() =~= candidates(alphabet, length)) by {
        assert forall|word: Seq<T>| pool.to_set().contains(word) implies candidates(
            alphabet,
            length,
        ).contains(word) by {
            let j = choose|j: int| 0 <= j < pool.len() && pool[j] == word;
            assert(is_candidate(alphabet, length, pool[j]));
        }
    }
    if length <= alphabet.len() {
        lemma_arrangement_count_is_quotient(alphabet.len(), length);
    }
}

} // verus!
