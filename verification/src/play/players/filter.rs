//! Telling a pool of candidates what a guess has scored.

use crate::letters::lawful_letter;
use crate::letters::words_of;
use crate::play::players::candidates::holds_candidates;
use crate::play::players::candidates::is_candidate;
use crate::score::bulls;
use crate::score::cows;
use crate::score::lemma_all_bulls_is_secret;
use crate::score::lemma_score_is_symmetric;
use crate::score::lemma_secret_scores_all_bulls;
use crate::score::score_against;
use std::hash::Hash;
use vstd::prelude::*;

verus! {

/// Whether `word`, taken for the secret, would have had `guess` score `reply`:
/// whether `word` scores `reply` against `guess`.
pub open spec fn is_consistent<T>(guess: Seq<T>, reply: (usize, usize), word: Seq<T>) -> bool {
    &&& bulls(guess, word) == reply.0
    &&& cows(guess, word) == reply.1
}

/// The words of `pool` that are consistent with `reply` to `guess`, in the
/// order in which `pool` has them.
pub open spec fn consistent_with<T>(pool: Seq<Seq<T>>, guess: Seq<T>, reply: (usize, usize)) -> Seq<
    Seq<T>,
> {
    pool.filter(|word: Seq<T>| is_consistent(guess, reply, word))
}

/// What is kept of a pool of candidates is a pool of candidates.
pub proof fn lemma_kept_are_candidates<T>(
    alphabet: Set<T>,
    length: nat,
    pool: Seq<Seq<T>>,
    keep: spec_fn(Seq<T>) -> bool,
)
    requires
        holds_candidates(alphabet, length, pool),
    ensures
        holds_candidates(alphabet, length, pool.filter(keep)),
        forall|word: Seq<T>|
            #[trigger] pool.filter(keep).contains(word) <==> pool.contains(word) && keep(word),
    decreases pool.len(),
{
    let kept = pool.filter(keep);
    if pool.len() == 0 {
        reveal(Seq::filter);
    } else {
        let shorter = pool.drop_last();
        let last = pool.last();
        assert(shorter.push(last) =~= pool);
        shorter.lemma_filter_push(last, keep);
        assert(holds_candidates(alphabet, length, shorter)) by {
            assert forall|j: int| 0 <= j < shorter.len() implies is_candidate(
                alphabet,
                length,
                #[trigger] shorter[j],
            ) by {
                assert(shorter[j] == pool[j]);
            }
        }
        lemma_kept_are_candidates(alphabet, length, shorter, keep);
        let before = shorter.filter(keep);
        assert(pool == shorter.push(last));
        assert(kept == if keep(last) {
            before.push(last)
        } else {
            before
        });
        assert(!shorter.contains(last)) by {
            if shorter.contains(last) {
                let j = choose|j: int| 0 <= j < shorter.len() && shorter[j] == last;
                assert(pool[j] == pool[pool.len() - 1]);
            }
        }
        assert forall|word: Seq<T>| #[trigger]
            kept.contains(word) <==> pool.contains(word) && keep(word) by {
            if kept.contains(word) {
                let j = choose|j: int| 0 <= j < kept.len() && kept[j] == word;
                if j < before.len() {
                    assert(before[j] == word);
                    assert(before.contains(word));
                    assert(shorter.contains(word) && keep(word));
                    let h = choose|h: int| 0 <= h < shorter.len() && shorter[h] == word;
                    assert(pool[h] == word);
                } else {
                    assert(keep(last) && word == last);
                    assert(pool[pool.len() - 1] == word);
                }
            }
            if pool.contains(word) && keep(word) {
                let h = choose|h: int| 0 <= h < pool.len() && pool[h] == word;
                if h == pool.len() - 1 {
                    assert(kept[kept.len() - 1] == word);
                } else {
                    assert(shorter[h] == word);
                    assert(shorter.contains(word));
                    assert(before.contains(word));
                    let j = choose|j: int| 0 <= j < before.len() && before[j] == word;
                    assert(kept[j] == word);
                }
            }
        }
        assert forall|j: int| 0 <= j < kept.len() implies is_candidate(
            alphabet,
            length,
            #[trigger] kept[j],
        ) by {
            assert(kept.contains(kept[j]));
            let h = choose|h: int| 0 <= h < pool.len() && pool[h] == kept[j];
            assert(is_candidate(alphabet, length, pool[h]));
        }
        assert forall|a: int, b: int| 0 <= a < kept.len() && 0 <= b < kept.len() && a != b implies kept[a]
            != kept[b] by {
            if a < before.len() && b < before.len() {
                assert(before[a] != before[b]);
            } else {
                let lo = if a < b {
                    a
                } else {
                    b
                };
                assert(before[lo] == kept[lo]);
                assert(before.contains(kept[lo]));
                assert(shorter.contains(kept[lo]));
            }
        }
    }
}

/// A pool that holds exactly the candidates that agree with all that was told
/// before holds, once it is told more, exactly those that agree with that
/// too.
pub proof fn lemma_pool_stays_exact<T>(
    alphabet: Set<T>,
    length: nat,
    pool: Seq<Seq<T>>,
    earlier: spec_fn(Seq<T>) -> bool,
    guess: Seq<T>,
    reply: (usize, usize),
)
    requires
        holds_candidates(alphabet, length, pool),
        forall|word: Seq<T>|
            #[trigger] pool.contains(word) <==> is_candidate(alphabet, length, word) && earlier(word),
    ensures
        holds_candidates(alphabet, length, consistent_with(pool, guess, reply)),
        forall|word: Seq<T>|
            #[trigger] consistent_with(pool, guess, reply).contains(word) <==> is_candidate(
                alphabet,
                length,
                word,
            ) && earlier(word) && is_consistent(guess, reply, word),
{
    lemma_kept_are_candidates(
        alphabet,
        length,
        pool,
        |word: Seq<T>| is_consistent(guess, reply, word),
    );
}

/// Told what one of the candidates truly scores against the secret, a pool
/// that holds the secret keeps the secret and does not grow; and a guess from
/// the pool that is not the secret leaves the pool, which gets smaller.
pub proof fn lemma_truthful_reply_narrows<T>(
    alphabet: Set<T>,
    length: nat,
    pool: Seq<Seq<T>>,
    secret: Seq<T>,
    guess: Seq<T>,
    reply: (usize, usize),
)
    requires
        holds_candidates(alphabet, length, pool),
        pool.contains(secret),
        is_candidate(alphabet, length, guess),
        reply.0 == bulls(secret, guess),
        reply.1 == cows(secret, guess),
    ensures
        consistent_with(pool, guess, reply).contains(secret),
        0 < consistent_with(pool, guess, reply).len() <= pool.len(),
        guess != secret ==> !consistent_with(pool, guess, reply).contains(guess),
        guess != secret && pool.contains(guess) ==> consistent_with(pool, guess, reply).len()
            < pool.len(),
        consistent_with(pool, guess, reply).len() == 1 ==> consistent_with(pool, guess, reply)
            == seq![secret],
{
    let kept = consistent_with(pool, guess, reply);
    let keep = |word: Seq<T>| is_consistent(guess, reply, word);
    lemma_kept_are_candidates(alphabet, length, pool, keep);
    pool.lemma_filter_len(keep);
    let s = choose|s: int| 0 <= s < pool.len() && pool[s] == secret;
    assert(is_candidate(alphabet, length, pool[s]));
    lemma_score_is_symmetric(secret, guess);
    assert(keep(secret));
    assert(kept.contains(secret));
    let at = choose|at: int| 0 <= at < kept.len() && kept[at] == secret;
    if guess != secret {
        if keep(guess) {
            lemma_secret_scores_all_bulls(guess);
            lemma_all_bulls_is_secret(secret, guess);
        }
        if pool.contains(guess) {
            kept.unique_seq_to_set();
            pool.unique_seq_to_set();
            let smaller = pool.to_set().remove(guess);
            assert(kept.to_set().subset_of(smaller)) by {
                assert forall|word: Seq<T>| kept.to_set().contains(word) implies smaller.contains(
                    word,
                ) by {
                    assert(kept.contains(word));
                }
            }
            vstd::set_lib::lemma_len_subset(kept.to_set(), smaller);
        }
    }
    if kept.len() == 1 {
        assert(kept =~= seq![secret]);
    }
}

/// What is consistent in a pool with one more word in front.
pub proof fn lemma_consistent_with_one_more<T>(
    word: Seq<T>,
    pool: Seq<Seq<T>>,
    guess: Seq<T>,
    reply: (usize, usize),
)
    ensures
        consistent_with(seq![word] + pool, guess, reply) == if is_consistent(guess, reply, word) {
            seq![word] + consistent_with(pool, guess, reply)
        } else {
            consistent_with(pool, guess, reply)
        },
        consistent_with(Seq::<Seq<T>>::empty(), guess, reply) == Seq::<Seq<T>>::empty(),
{
    let keep = |word: Seq<T>| is_consistent(guess, reply, word);
    pool.lemma_filter_prepend(word, keep);
    assert(Seq::<Seq<T>>::empty() + pool.filter(keep) =~= pool.filter(keep));
    assert(Seq::<Seq<T>>::empty().filter(keep) == Seq::<Seq<T>>::empty()) by {
        reveal(Seq::filter);
    }
}

/// Drops from `pool` every word that does not score `reply` against `guess`,
/// and keeps the others in their order.
pub fn retain_consistent<T: Eq + Hash + Clone>(
    pool: &mut Vec<Vec<T>>,
    guess: &[T],
    reply: (usize, usize),
)
    requires
        lawful_letter::<T>(),
        forall|j: int|
            0 <= j < old(pool)@.len() ==> (#[trigger] words_of(old(pool)@)[j]).len() == guess@.len(),
    ensures
        words_of(final(pool)@) == consistent_with(words_of(old(pool)@), guess@, reply),
{
    let ghost start = words_of(pool@);
    let mut i: usize = pool.len();
    proof {
        lemma_consistent_with_one_more(guess@, Seq::empty(), guess@, reply);
        assert(start.skip(i as int) =~= Seq::<Seq<T>>::empty());
        assert(words_of(pool@) =~= start.take(i as int) + consistent_with(
            start.skip(i as int),
            guess@,
            reply,
        ));
    }
    while i > 0
        invariant
            lawful_letter::<T>(),
            i <= start.len(),
            i <= pool@.len(),
            forall|j: int| 0 <= j < start.len() ==> (#[trigger] start[j]).len() == guess@.len(),
            words_of(pool@) == start.take(i as int) + consistent_with(
                start.skip(i as int),
                guess@,
                reply,
            ),
        decreases i,
    {
        i -= 1;
        let ghost word = start[i as int];
        let ghost rest = consistent_with(start.skip(i + 1), guess@, reply);
        let ghost before = words_of(pool@);
        proof {
            assert(before[i as int] == start.take(i + 1)[i as int]);
            assert(pool@[i as int]@ == word);
            assert(start.skip(i as int) =~= seq![word] + start.skip(i + 1));
            lemma_consistent_with_one_more(word, start.skip(i + 1), guess@, reply);
        }
        let score = score_against(guess, pool[i].as_slice());
        let consistent = score.0 == reply.0 && score.1 == reply.1;
        assert(consistent == is_consistent(guess@, reply, word));
        if !consistent {
            pool.remove(i);
            assert(words_of(pool@) =~= before.remove(i as int));
            assert(before.remove(i as int) =~= start.take(i as int) + rest);
        } else {
            assert(words_of(pool@) =~= start.take(i as int) + (seq![word] + rest));
        }
    }
    assert(start.skip(0) =~= start);
    assert(start.take(0) + consistent_with(start, guess@, reply) =~= consistent_with(
        start,
        guess@,
        reply,
    ));
}

} // verus!
