//! Enumerating the ordered selections of distinct positions.

use crate::counting::arrangement_count;
use crate::counting::binomial;
use crate::counting::factorial;
use crate::counting::lemma_binomial_times_factorial;
use crate::counting::lemma_binomial_zero;
use crate::letters::words_of;
use crate::outside::heap_orderings;
use crate::outside::heap_permutations;
use vstd::prelude::*;
use vstd::relations::sorted_by;
use vstd::relations::total_ordering;
use vstd::seq_lib::group_to_multiset_ensures;
use vstd::seq_lib::lemma_sorted_unique;

verus! {

/// The most places that an ordered selection can have here: the most items
/// that the enumeration of orders takes.
pub const MAX_PLACES: usize = 16;

/// Whether `c` names `k` of the positions below `n`, in rising order.
pub open spec fn is_index_subset(c: Seq<usize>, n: nat, k: nat) -> bool {
    &&& c.len() == k
    &&& forall|i: int| 0 <= i < c.len() ==> c[i] < n
    &&& forall|i: int, j: int| 0 <= i < j < c.len() ==> c[i] < c[j]
}

/// Whether `q` names `k` of the positions below `n`, none twice, in any order.
pub open spec fn is_index_arrangement(q: Seq<usize>, n: nat, k: nat) -> bool {
    &&& q.len() == k
    &&& forall|i: int| 0 <= i < q.len() ==> q[i] < n
    &&& q.no_duplicates()
}

/// The rising selections of `k` of the positions below `n`, in the order in
/// which `index_subsets` lists them: first those without the position
/// `n - 1`, then those with it.
pub open spec fn rising_selections(n: nat, k: nat) -> Seq<Seq<usize>>
    decreases n,
{
    if k == 0 {
        seq![Seq::<usize>::empty()]
    } else if k > n {
        Seq::<Seq<usize>>::empty()
    } else {
        let shorter = rising_selections((n - 1) as nat, (k - 1) as nat);
        rising_selections((n - 1) as nat, k) + Seq::new(
            shorter.len(),
            |j: int| shorter[j].push((n - 1) as usize),
        )
    }
}

/// The orderings of the first `s` of `subsets`, one selection after the
/// other, each in the order in which the enumeration of orders yields them.
pub open spec fn orderings_of(subsets: Seq<Seq<usize>>, s: nat) -> Seq<Seq<usize>>
    decreases s,
{
    if s == 0 || s > subsets.len() {
        Seq::<Seq<usize>>::empty()
    } else {
        orderings_of(subsets, (s - 1) as nat) + heap_orderings(subsets[s - 1])
    }
}

/// The ordered selections of `k` of the positions below `n`, in the order in
/// which `index_arrangements` lists them.
pub open spec fn ordered_selections(n: nat, k: nat) -> Seq<Seq<usize>> {
    orderings_of(rising_selections(n, k), rising_selections(n, k).len())
}

/// Every way to choose `k` of the positions below `n`, each once, each in
/// rising order.
pub fn index_subsets(n: usize, k: usize) -> (subsets: Vec<Vec<usize>>)
    ensures
        words_of(subsets@) == rising_selections(n as nat, k as nat),
        subsets@.len() == binomial(n as nat, k as nat),
        forall|j: int|
            0 <= j < subsets@.len() ==> is_index_subset(
                #[trigger] words_of(subsets@)[j],
                n as nat,
                k as nat,
            ),
        words_of(subsets@).no_duplicates(),
        forall|c: Seq<usize>|
            is_index_subset(c, n as nat, k as nat) ==> #[trigger] words_of(subsets@).contains(c),
    decreases n,
{
    if k == 0 {
        let mut subsets: Vec<Vec<usize>> = Vec::new();
        subsets.push(Vec::new());
        assert(words_of(subsets@) =~= seq![Seq::<usize>::empty()]);
        assert forall|c: Seq<usize>| is_index_subset(c, n as nat, 0) implies #[trigger] words_of(
            subsets@,
        ).contains(c) by {
            assert(words_of(subsets@)[0] =~= c);
        }
        subsets
    } else if k > n {
        proof {
            lemma_binomial_zero(n as nat, k as nat);
            assert forall|c: Seq<usize>| !is_index_subset(c, n as nat, k as nat) by {
                if is_index_subset(c, n as nat, k as nat) {
                    lemma_subset_rises(c, n as nat, k as nat, k - 1);
                }
            }
        }
        let subsets: Vec<Vec<usize>> = Vec::new();
        assert(words_of(subsets@) =~= Seq::<Seq<usize>>::empty());
        subsets
    } else {
        let mut subsets = index_subsets(n - 1, k);
        let shorter = index_subsets(n - 1, k - 1);
        let ghost without = words_of(subsets@);
        let ghost short = words_of(shorter@);
        let mut i: usize = 0;
        while i < shorter.len()
            invariant
                0 < n,
                i <= shorter@.len(),
                short == words_of(shorter@),
                words_of(subsets@) == without + Seq::new(
                    i as nat,
                    |j: int| short[j].push((n - 1) as usize),
                ),
            decreases shorter@.len() - i,
        {
            let mut subset = shorter[i].clone();
            assert(subset@ == short[i as int]);
            subset.push(n - 1);
            let ghost before = words_of(subsets@);
            let ghost added = Seq::new(i as nat, |j: int| short[j].push((n - 1) as usize));
            assert(before == without + added);
            assert(before.len() == without.len() + i);
            subsets.push(subset);
            i += 1;
            proof {
                let now = words_of(subsets@);
                let want = without + Seq::new(
                    i as nat,
                    |j: int| short[j].push((n - 1) as usize),
                );
                assert(now.len() == want.len());
                assert forall|j: int| 0 <= j < now.len() implies now[j] == want[j] by {
                    if j < before.len() {
                        assert(now[j] == before[j]);
                        if j >= without.len() {
                            assert(before[j] == added[j - without.len()]);
                        }
                    }
                }
                assert(now =~= want);
            }
        }
        proof {
            lemma_pascal_subsets(without, short, n as nat, k as nat);
        }
        subsets
    }
}

/// A rising selection has, at each place, a position that is no less than the
/// number of places before it.
pub proof fn lemma_subset_rises(c: Seq<usize>, n: nat, k: nat, i: int)
    requires
        is_index_subset(c, n, k),
        0 <= i < k,
    ensures
        c[i] >= i,
    decreases i,
{
    if i > 0 {
        lemma_subset_rises(c, n, k, i - 1);
        assert(c[i - 1] < c[i]);
    }
}

/// Pascal's rule for selections: those of `k` positions below `n` are those
/// below `n - 1`, and those of `k - 1` positions below `n - 1` with `n - 1`
/// added at the end.
pub proof fn lemma_pascal_subsets(without: Seq<Seq<usize>>, short: Seq<Seq<usize>>, n: nat, k: nat)
    requires
        0 < n <= usize::MAX,
        0 < k,
        forall|j: int|
            0 <= j < without.len() ==> is_index_subset(#[trigger] without[j], (n - 1) as nat, k),
        without.no_duplicates(),
        forall|c: Seq<usize>|
            is_index_subset(c, (n - 1) as nat, k) ==> #[trigger] without.contains(c),
        forall|j: int|
            0 <= j < short.len() ==> is_index_subset(
                #[trigger] short[j],
                (n - 1) as nat,
                (k - 1) as nat,
            ),
        short.no_duplicates(),
        forall|c: Seq<usize>|
            is_index_subset(c, (n - 1) as nat, (k - 1) as nat) ==> #[trigger] short.contains(c),
    ensures
        ({
            let all = without + Seq::new(short.len(), |j: int| short[j].push((n - 1) as usize));
            &&& forall|j: int| 0 <= j < all.len() ==> is_index_subset(#[trigger] all[j], n, k)
            &&& all.no_duplicates()
            &&& forall|c: Seq<usize>| is_index_subset(c, n, k) ==> #[trigger] all.contains(c)
        }),
{
    let top = (n - 1) as usize;
    let with = Seq::new(short.len(), |j: int| short[j].push(top));
    let all = without + with;
    assert forall|j: int| 0 <= j < all.len() implies is_index_subset(#[trigger] all[j], n, k) by {
        if j < without.len() {
            assert(is_index_subset(without[j], (n - 1) as nat, k));
        } else {
            let h = j - without.len();
            assert(all[j] == short[h].push(top));
            assert(is_index_subset(short[h], (n - 1) as nat, (k - 1) as nat));
        }
    }
    assert forall|a: int, b: int| 0 <= a < all.len() && 0 <= b < all.len() && a != b implies all[a]
        != all[b] by {
        if a < without.len() && b < without.len() {
        } else if a >= without.len() && b >= without.len() {
            let ha = a - without.len();
            let hb = b - without.len();
            assert(short[ha] != short[hb]);
            assert(short[ha] =~= all[a].drop_last());
            assert(short[hb] =~= all[b].drop_last());
        } else {
            let (lo, hi) = if a < b {
                (a, b)
            } else {
                (b, a)
            };
            let h = hi - without.len();
            assert(all[hi] == short[h].push(top));
            assert(all[hi].last() == top);
            assert(is_index_subset(without[lo], (n - 1) as nat, k));
            assert(all[lo].last() < top);
        }
    }
    assert forall|c: Seq<usize>| is_index_subset(c, n, k) implies #[trigger] all.contains(c) by {
        if c.last() == top {
            let d = c.drop_last();
            assert(is_index_subset(d, (n - 1) as nat, (k - 1) as nat)) by {
                assert forall|x: int| 0 <= x < d.len() implies d[x] < (n - 1) as nat by {
                    assert(c[x] < c[c.len() - 1]);
                }
            }
            assert(short.contains(d));
            let h = choose|h: int| 0 <= h < short.len() && short[h] == d;
            assert(all[without.len() + h] == short[h].push(top));
            assert(d.push(top) =~= c);
        } else {
            assert(is_index_subset(c, (n - 1) as nat, k)) by {
                assert forall|x: int| 0 <= x < c.len() implies c[x] < (n - 1) as nat by {
                    if x < c.len() - 1 {
                        assert(c[x] < c[c.len() - 1]);
                    }
                }
            }
            assert(without.contains(c));
            let h = choose|h: int| 0 <= h < without.len() && without[h] == c;
            assert(all[h] == c);
        }
    }
}

/// The order of positions.
pub open spec fn position_order() -> spec_fn(usize, usize) -> bool {
    |a: usize, b: usize| a <= b
}

/// The same positions in another order are an ordered selection.
pub proof fn lemma_reordered_subset(p: Seq<usize>, c: Seq<usize>, n: nat, k: nat)
    requires
        is_index_subset(c, n, k),
        p.to_multiset() == c.to_multiset(),
    ensures
        is_index_arrangement(p, n, k),
{
    broadcast use group_to_multiset_ensures;

    assert(p.len() == p.to_multiset().len());
    assert(c.len() == c.to_multiset().len());
    assert forall|i: int| 0 <= i < p.len() implies p[i] < n by {
        assert(p.contains(p[i]));
        assert(c.to_multiset().count(p[i]) > 0);
        assert(c.contains(p[i]));
    }
    assert(c.no_duplicates());
    c.lemma_multiset_has_no_duplicates();
    p.lemma_multiset_has_no_duplicates_conv();
}

/// Two rising selections of the same positions are the same selection.
pub proof fn lemma_subset_is_determined(c: Seq<usize>, d: Seq<usize>, n: nat, k: nat)
    requires
        is_index_subset(c, n, k),
        is_index_subset(d, n, k),
        c.to_multiset() == d.to_multiset(),
    ensures
        c == d,
{
    let leq = position_order();
    assert(total_ordering(leq));
    assert(sorted_by(c, leq));
    assert(sorted_by(d, leq));
    lemma_sorted_unique(c, d, leq);
}

/// The positions of an ordered selection, put in rising order.
pub open spec fn risen(q: Seq<usize>) -> Seq<usize> {
    q.sort_by(position_order())
}

/// Every ordered selection is some rising selection in another order.
pub proof fn lemma_arrangement_rises(q: Seq<usize>, n: nat, k: nat)
    requires
        is_index_arrangement(q, n, k),
    ensures
        is_index_subset(risen(q), n, k),
        risen(q).to_multiset() == q.to_multiset(),
{
    broadcast use group_to_multiset_ensures;

    let leq = position_order();
    let c = risen(q);
    assert(total_ordering(leq));
    q.lemma_sort_by_ensures(leq);
    assert(q.len() == q.to_multiset().len());
    assert(c.len() == c.to_multiset().len());
    q.lemma_multiset_has_no_duplicates();
    c.lemma_multiset_has_no_duplicates_conv();
    assert forall|i: int| 0 <= i < c.len() implies c[i] < n by {
        assert(c.contains(c[i]));
        assert(q.to_multiset().count(c[i]) > 0);
        assert(q.contains(c[i]));
    }
    assert forall|i: int, j: int| 0 <= i < j < c.len() implies c[i] < c[j] by {
        assert(leq(c[i], c[j]));
        assert(c[i] != c[j]);
    }
}

/// Whether `row` is one of the first `s` selections of `subsets` in some order.
pub open spec fn is_order_of_one(row: Seq<usize>, subsets: Seq<Seq<usize>>, s: int) -> bool {
    exists|o: int| 0 <= o < s && row.to_multiset() == (#[trigger] subsets[o]).to_multiset()
}

/// Whether `rows` holds, each once, every order of each of the first `s`
/// selections of `subsets`, and nothing else.
pub open spec fn holds_orders_of(rows: Seq<Seq<usize>>, subsets: Seq<Seq<usize>>, s: int) -> bool {
    &&& forall|j: int| 0 <= j < rows.len() ==> is_order_of_one(#[trigger] rows[j], subsets, s)
    &&& rows.no_duplicates()
    &&& forall|o: int, q: Seq<usize>|
        0 <= o < s && #[trigger] q.to_multiset() == (#[trigger] subsets[o]).to_multiset()
            ==> rows.contains(q)
}

/// Adding every order of the next selection keeps the rows free of repeats.
pub proof fn lemma_orders_of_next(
    before: Seq<Seq<usize>>,
    fresh: Seq<Seq<usize>>,
    subsets: Seq<Seq<usize>>,
    s: int,
    n: nat,
    k: nat,
)
    requires
        0 <= s < subsets.len(),
        forall|j: int| 0 <= j < subsets.len() ==> is_index_subset(#[trigger] subsets[j], n, k),
        subsets.no_duplicates(),
        holds_orders_of(before, subsets, s),
        forall|j: int|
            0 <= j < fresh.len() ==> (#[trigger] fresh[j]).to_multiset()
                == subsets[s].to_multiset(),
        fresh.no_duplicates(),
        forall|p: Seq<usize>|
            #[trigger] p.to_multiset() == subsets[s].to_multiset() ==> fresh.contains(p),
    ensures
        holds_orders_of(before + fresh, subsets, s + 1),
{
    let rows = before + fresh;
    assert forall|j: int| 0 <= j < rows.len() implies is_order_of_one(
        #[trigger] rows[j],
        subsets,
        s + 1,
    ) by {
        if j < before.len() {
            assert(rows[j] == before[j]);
            assert(is_order_of_one(before[j], subsets, s));
            let o = choose|o: int|
                0 <= o < s && before[j].to_multiset() == (#[trigger] subsets[o]).to_multiset();
            assert(subsets[o].to_multiset() == rows[j].to_multiset());
        } else {
            assert(rows[j] == fresh[j - before.len()]);
            assert(subsets[s].to_multiset() == rows[j].to_multiset());
        }
    }
    assert forall|a: int, b: int| 0 <= a < rows.len() && 0 <= b < rows.len() && a != b implies rows[a]
        != rows[b] by {
        if a < before.len() && b < before.len() {
            assert(before[a] != before[b]);
        } else if a >= before.len() && b >= before.len() {
            assert(fresh[a - before.len()] != fresh[b - before.len()]);
        } else {
            let (lo, hi) = if a < b {
                (a, b)
            } else {
                (b, a)
            };
            assert(rows[hi] == fresh[hi - before.len()]);
            assert(rows[lo] == before[lo]);
            assert(is_order_of_one(before[lo], subsets, s));
            let o = choose|o: int|
                0 <= o < s && before[lo].to_multiset() == (#[trigger] subsets[o]).to_multiset();
            if rows[lo] == rows[hi] {
                assert(subsets[o].to_multiset() == subsets[s].to_multiset());
                lemma_subset_is_determined(subsets[o], subsets[s], n, k);
                assert(subsets[o] != subsets[s]);
            }
        }
    }
    assert forall|o: int, q: Seq<usize>|
        0 <= o < s + 1 && #[trigger] q.to_multiset() == (
        #[trigger] subsets[o]).to_multiset() implies rows.contains(q) by {
        if o < s {
            assert(before.contains(q));
            let j = choose|j: int| 0 <= j < before.len() && before[j] == q;
            assert(rows[j] == q);
        } else {
            assert(fresh.contains(q));
            let j = choose|j: int| 0 <= j < fresh.len() && fresh[j] == q;
            assert(rows[before.len() + j] == q);
        }
    }
}

/// All orders of all selections are all ordered selections.
pub proof fn lemma_orders_of_all(rows: Seq<Seq<usize>>, subsets: Seq<Seq<usize>>, n: nat, k: nat)
    requires
        forall|j: int| 0 <= j < subsets.len() ==> is_index_subset(#[trigger] subsets[j], n, k),
        forall|c: Seq<usize>| is_index_subset(c, n, k) ==> #[trigger] subsets.contains(c),
        holds_orders_of(rows, subsets, subsets.len() as int),
    ensures
        forall|j: int| 0 <= j < rows.len() ==> is_index_arrangement(#[trigger] rows[j], n, k),
        forall|q: Seq<usize>| is_index_arrangement(q, n, k) ==> #[trigger] rows.contains(q),
{
    assert forall|j: int| 0 <= j < rows.len() implies is_index_arrangement(
        #[trigger] rows[j],
        n,
        k,
    ) by {
        assert(is_order_of_one(rows[j], subsets, subsets.len() as int));
        let o = choose|o: int|
            0 <= o < subsets.len() && rows[j].to_multiset() == (
            #[trigger] subsets[o]).to_multiset();
        lemma_reordered_subset(rows[j], subsets[o], n, k);
    }
    assert forall|q: Seq<usize>| is_index_arrangement(q, n, k) implies #[trigger] rows.contains(
        q,
    ) by {
        lemma_arrangement_rises(q, n, k);
        assert(subsets.contains(risen(q)));
        let o = choose|o: int| 0 <= o < subsets.len() && subsets[o] == risen(q);
        assert(q.to_multiset() == subsets[o].to_multiset());
    }
}

/// Every way to choose `k` of the positions below `n` and put them in a row,
/// each once: the rising selections, each in all its orders.
pub fn index_arrangements(n: usize, k: usize) -> (rows: Vec<Vec<usize>>)
    requires
        k <= MAX_PLACES,
    ensures
        words_of(rows@) == ordered_selections(n as nat, k as nat),
        rows@.len() == arrangement_count(n as nat, k as nat),
        forall|j: int|
            0 <= j < rows@.len() ==> is_index_arrangement(
                #[trigger] words_of(rows@)[j],
                n as nat,
                k as nat,
            ),
        words_of(rows@).no_duplicates(),
        forall|q: Seq<usize>|
            is_index_arrangement(q, n as nat, k as nat) ==> #[trigger] words_of(rows@).contains(q),
{
    let subsets = index_subsets(n, k);
    let mut rows: Vec<Vec<usize>> = Vec::new();
    let mut s: usize = 0;
    while s < subsets.len()
        invariant
            k <= MAX_PLACES,
            s <= subsets@.len(),
            rows@.len() == s * factorial(k as nat),
            forall|j: int|
                0 <= j < subsets@.len() ==> is_index_subset(
                    #[trigger] words_of(subsets@)[j],
                    n as nat,
                    k as nat,
                ),
            words_of(subsets@).no_duplicates(),
            holds_orders_of(words_of(rows@), words_of(subsets@), s as int),
            words_of(rows@) == orderings_of(words_of(subsets@), s as nat),
        decreases subsets@.len() - s,
    {
        let subset = subsets[s].clone();
        assert(subset@ == words_of(subsets@)[s as int]);
        assert(is_index_subset(words_of(subsets@)[s as int], n as nat, k as nat));
        let mut orderings = heap_permutations(subset);
        let ghost before = words_of(rows@);
        let ghost fresh = words_of(orderings@);
        rows.append(&mut orderings);
        proof {
            assert(words_of(rows@) =~= before + fresh);
            assert(rows@.len() == (s + 1) * factorial(k as nat)) by (nonlinear_arith)
                requires
                    rows@.len() == s * factorial(k as nat) + factorial(k as nat),
            ;
            lemma_orders_of_next(before, fresh, words_of(subsets@), s as int, n as nat, k as nat);
        }
        s += 1;
    }
    proof {
        lemma_binomial_times_factorial(n as nat, k as nat);
        lemma_orders_of_all(words_of(rows@), words_of(subsets@), n as nat, k as nat);
    }
    rows
}

} // verus!
