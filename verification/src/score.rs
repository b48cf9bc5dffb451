//! What a guess scores against a secret: bulls and cows.

use crate::letters::holds_letter;
use crate::letters::lawful_letter;
use crate::letters::same_letter;
use std::hash::Hash;
use vstd::prelude::*;
use vstd::relations::injective_on;
use vstd::set_lib::lemma_int_range;
use vstd::set_lib::lemma_len_subset;
use vstd::set_lib::lemma_map_size;
use vstd::set_lib::set_int_range;

verus! {

/// Whether the guess has the secret's letter at position `i`.
pub open spec fn is_bull<T>(secret: Seq<T>, guess: Seq<T>, i: int) -> bool {
    &&& 0 <= i < guess.len()
    &&& i < secret.len()
    &&& guess[i] == secret[i]
}

/// Whether the guess has at position `i` a letter that the secret has, but
/// elsewhere.
pub open spec fn is_cow<T>(secret: Seq<T>, guess: Seq<T>, i: int) -> bool {
    &&& 0 <= i < guess.len()
    &&& !is_bull(secret, guess, i)
    &&& secret.contains(guess[i])
}

/// The positions below `n` at which the guess has a bull.
pub open spec fn bull_positions<T>(secret: Seq<T>, guess: Seq<T>, n: int) -> Set<int> {
    Set::new(|i: int| i < n && is_bull(secret, guess, i))
}

/// The positions below `n` at which the guess has a cow.
pub open spec fn cow_positions<T>(secret: Seq<T>, guess: Seq<T>, n: int) -> Set<int> {
    Set::new(|i: int| i < n && is_cow(secret, guess, i))
}

/// The number of bulls of a guess.
pub open spec fn bulls<T>(secret: Seq<T>, guess: Seq<T>) -> nat {
    bull_positions(secret, guess, guess.len() as int).len()
}

/// The number of cows of a guess.
pub open spec fn cows<T>(secret: Seq<T>, guess: Seq<T>) -> nat {
    cow_positions(secret, guess, guess.len() as int).len()
}

/// Bulls and cows lie among the first `n` positions of the guess, and no
/// position has both.
pub proof fn lemma_positions_finite<T>(secret: Seq<T>, guess: Seq<T>, n: int)
    requires
        0 <= n <= guess.len(),
    ensures
        bull_positions(secret, guess, n).finite(),
        cow_positions(secret, guess, n).finite(),
        bull_positions(secret, guess, n).disjoint(cow_positions(secret, guess, n)),
        bull_positions(secret, guess, n).len() + cow_positions(secret, guess, n).len() <= n,
{
    let b = bull_positions(secret, guess, n);
    let c = cow_positions(secret, guess, n);
    let all = set_int_range(0, n);
    lemma_int_range(0, n);
    assert(b.union(c).subset_of(all));
    lemma_len_subset(b.union(c), all);
    lemma_len_subset(b, all);
    lemma_len_subset(c, all);
    vstd::set_lib::lemma_set_disjoint_lens(b, c);
}

/// What one more position adds to the bulls and the cows.
pub proof fn lemma_positions_step<T>(secret: Seq<T>, guess: Seq<T>, n: int)
    requires
        0 <= n < guess.len(),
    ensures
        bull_positions(secret, guess, n + 1).len() == bull_positions(secret, guess, n).len() + (
        if is_bull(secret, guess, n) {
            1int
        } else {
            0int
        }),
        cow_positions(secret, guess, n + 1).len() == cow_positions(secret, guess, n).len() + (
        if is_cow(secret, guess, n) {
            1int
        } else {
            0int
        }),
{
    lemma_positions_finite(secret, guess, n);
    let b = bull_positions(secret, guess, n);
    let c = cow_positions(secret, guess, n);
    if is_bull(secret, guess, n) {
        assert(bull_positions(secret, guess, n + 1) =~= b.insert(n));
    } else {
        assert(bull_positions(secret, guess, n + 1) =~= b);
    }
    if is_cow(secret, guess, n) {
        assert(cow_positions(secret, guess, n + 1) =~= c.insert(n));
    } else {
        assert(cow_positions(secret, guess, n + 1) =~= c);
    }
}

/// A score never counts more than the guess has letters.
pub proof fn lemma_score_is_bounded<T>(secret: Seq<T>, guess: Seq<T>)
    ensures
        bulls(secret, guess) + cows(secret, guess) <= guess.len(),
{
    lemma_positions_finite(secret, guess, guess.len() as int);
}

/// The secret itself scores all bulls and no cows.
pub proof fn lemma_secret_scores_all_bulls<T>(secret: Seq<T>)
    ensures
        bulls(secret, secret) == secret.len(),
        cows(secret, secret) == 0,
{
    let n = secret.len() as int;
    lemma_int_range(0, n);
    assert(bull_positions(secret, secret, n) =~= set_int_range(0, n));
    assert(cow_positions(secret, secret, n) =~= Set::<int>::empty());
}

/// Only the secret scores all bulls.
pub proof fn lemma_all_bulls_is_secret<T>(secret: Seq<T>, guess: Seq<T>)
    requires
        secret.len() == guess.len(),
        bulls(secret, guess) == secret.len(),
    ensures
        guess == secret,
{
    let n = secret.len() as int;
    let b = bull_positions(secret, guess, n);
    let all = set_int_range(0, n);
    lemma_int_range(0, n);
    lemma_positions_finite(secret, guess, n);
    assert(b.subset_of(all));
    vstd::set_lib::lemma_subset_equality(b, all);
    assert forall|i: int| 0 <= i < n implies guess[i] == secret[i] by {
        assert(all.contains(i));
        assert(b.contains(i));
    }
    assert(guess =~= secret);
}

/// Where neither word repeats a letter, each scores against the other what
/// the other scores against it.
pub proof fn lemma_score_is_symmetric<T>(a: Seq<T>, b: Seq<T>)
    requires
        a.len() == b.len(),
        a.no_duplicates(),
        b.no_duplicates(),
    ensures
        bulls(a, b) == bulls(b, a),
        cows(a, b) == cows(b, a),
{
    let n = a.len() as int;
    assert(bull_positions(a, b, n) =~= bull_positions(b, a, n));
    // Each cow of `b` against `a` sits where `a` has the letter: a cow of `a` against `b`.
    let x = cow_positions(a, b, n);
    let y = cow_positions(b, a, n);
    let f = |i: int| a.index_of(b[i]);
    lemma_positions_finite(a, b, n);
    assert forall|i: int| x.contains(i) implies 0 <= #[trigger] f(i) < n && a[f(i)] == b[i]
        && y.contains(f(i)) by {
        assert(a.contains(b[i]));
        let j = f(i);
        assert(0 <= j < n && a[j] == b[i]);
        assert(b.contains(a[j]));
        if is_bull(b, a, j) {
            assert(b[j] == b[i]);
        }
    }
    assert(injective_on(f, x)) by {
        assert forall|i1: int, i2: int|
            x.contains(i1) && x.contains(i2) && #[trigger] f(i1) == #[trigger] f(i2) implies i1
            == i2 by {
            assert(a[f(i1)] == b[i1]);
            assert(a[f(i2)] == b[i2]);
        }
    }
    assert forall|j: int| y.contains(j) implies x.map(f).contains(j) by {
        assert(b.contains(a[j]));
        let i = b.index_of(a[j]);
        assert(0 <= i < n && b[i] == a[j]);
        assert(a.contains(b[i]));
        if is_bull(a, b, i) {
            assert(a[i] == a[j]);
        }
        assert(x.contains(i));
        assert(a[f(i)] == b[i]);
        assert(f(i) == j);
    }
    assert(x.map(f) =~= y);
    lemma_map_size(x, y, f);
}

/// Scores `guess` against `secret`, place by place: a bull where the two have
/// the same letter, a cow where the guess has a letter that the secret has
/// elsewhere. Neither word is looked at for anything else.
pub fn score_against<T: Eq + Hash + Clone>(secret: &[T], guess: &[T]) -> (score: (usize, usize))
    requires
        lawful_letter::<T>(),
        secret@.len() == guess@.len(),
    ensures
        score.0 == bulls(secret@, guess@),
        score.1 == cows(secret@, guess@),
        score.0 + score.1 <= guess@.len(),
{
    let mut bulls: usize = 0;
    let mut cows: usize = 0;
    let mut i: usize = 0;
    proof {
        assert(bull_positions(secret@, guess@, 0) =~= Set::<int>::empty());
        assert(cow_positions(secret@, guess@, 0) =~= Set::<int>::empty());
    }
    while i < guess.len()
        invariant
            lawful_letter::<T>(),
            i <= guess@.len(),
            secret@.len() == guess@.len(),
            bulls == bull_positions(secret@, guess@, i as int).len(),
            cows == cow_positions(secret@, guess@, i as int).len(),
        decreases guess@.len() - i,
    {
        proof {
            lemma_positions_finite(secret@, guess@, i as int);
            lemma_positions_step(secret@, guess@, i as int);
        }
        if same_letter(&secret[i], &guess[i]) {
            bulls += 1;
        } else if holds_letter(secret, &guess[i]) {
            cows += 1;
        }
        i += 1;
    }
    proof {
        lemma_positions_finite(secret@, guess@, i as int);
    }
    (bulls, cows)
}

} // verus!
