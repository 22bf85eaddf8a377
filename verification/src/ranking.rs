//! Putting things in order of merit.

use vstd::prelude::*;
use vstd::relations::*;
use vstd::seq_lib::*;

verus! {

/// A thing, by its number, and what it is ranked by.
#[derive(Clone, Copy, PartialEq, Eq, Structural, Debug)]
pub struct Ranked {
    pub key: i128,
    pub idx: usize,
}

/// The greater key goes first; of equal ones, the smaller number.
pub open spec fn ahead(a: Ranked, b: Ranked) -> bool {
    a.key > b.key || (a.key == b.key && a.idx <= b.idx)
}

pub open spec fn merit() -> spec_fn(Ranked, Ranked) -> bool {
    |a: Ranked, b: Ranked| ahead(a, b)
}

/// The items in order of merit.
pub open spec fn ranking(items: Seq<Ranked>) -> Seq<Ranked> {
    items.sort_by(merit())
}

/// The numbers of the first `m` items in order of merit.
pub open spec fn best(items: Seq<Ranked>, m: nat) -> Seq<usize> {
    let n = if m < items.len() {
        m
    } else {
        items.len()
    };
    Seq::new(n, |i: int| ranking(items)[i].idx)
}

/// Whether an item has the number `idx`.
pub open spec fn listed(items: Seq<Ranked>, idx: usize) -> bool {
    exists|j: int| 0 <= j < items.len() && (#[trigger] items[j]).idx == idx
}

/// The best items are among the items.
pub proof fn lemma_best(items: Seq<Ranked>, m: nat)
    ensures
        forall|k: int| 0 <= k < best(items, m).len() ==> listed(items, #[trigger] best(items, m)[k]),
{
    lemma_ranking(items);
    assert forall|k: int| 0 <= k < best(items, m).len() implies listed(items, #[trigger] best(items, m)[k]) by {
        let x = ranking(items)[k];
        assert(items.contains(x));
        let j = choose|j: int| 0 <= j < items.len() && items[j] == x;
        assert(items[j].idx == best(items, m)[k]);
    }
}

proof fn lemma_merit()
    ensures
        total_ordering(merit()),
{
}

/// Ranking neither adds nor loses an item, and puts no item before one that
/// goes ahead of it.
pub proof fn lemma_ranking(items: Seq<Ranked>)
    ensures
        ranking(items).to_multiset() == items.to_multiset(),
        ranking(items).len() == items.len(),
        forall|i: int, j: int| 0 <= i < j < items.len() ==> ahead(#[trigger] ranking(items)[i], #[trigger] ranking(items)[j]),
        forall|i: int| 0 <= i < items.len() ==> items.contains(#[trigger] ranking(items)[i]),
{
    lemma_merit();
    items.lemma_sort_by_ensures(merit());
    let r = ranking(items);
    items.to_multiset_ensures();
    r.to_multiset_ensures();
    assert forall|i: int, j: int| 0 <= i < j < items.len() implies ahead(#[trigger] r[i], #[trigger] r[j]) by {
        assert(merit()(r[i], r[j]));
    }
    assert forall|i: int| 0 <= i < items.len() implies items.contains(#[trigger] r[i]) by {
        assert(r.contains(r[i]));
        assert(r.to_multiset().count(r[i]) > 0);
    }
}

/// No two items have the same number.
pub open spec fn apart(items: Seq<Ranked>) -> bool {
    forall|i: int, j: int| 0 <= i < j < items.len() ==> (#[trigger] items[i]).idx != (#[trigger] items[j]).idx
}

/// Where no two items have the same number, none is among the best twice.
pub proof fn lemma_best_apart(items: Seq<Ranked>, m: nat)
    requires
        apart(items),
    ensures
        forall|i: int, j: int|
            0 <= i < j < best(items, m).len() ==> #[trigger] best(items, m)[i] != #[trigger] best(items, m)[j],
{
    let r = ranking(items);
    lemma_ranking(items);
    assert(items.no_duplicates()) by {
        assert forall|i: int, j: int| 0 <= i < items.len() && 0 <= j < items.len() && i != j implies items[i]
            != items[j] by {
            if i < j {
                assert(items[i].idx != items[j].idx);
            } else {
                assert(items[j].idx != items[i].idx);
            }
        }
    }
    items.lemma_multiset_has_no_duplicates();
    r.lemma_multiset_has_no_duplicates_conv();
    assert forall|i: int, j: int| 0 <= i < j < best(items, m).len() implies #[trigger] best(items, m)[i]
        != #[trigger] best(items, m)[j] by {
        assert(items.contains(r[i]) && items.contains(r[j]));
        let a = choose|a: int| 0 <= a < items.len() && items[a] == r[i];
        let b = choose|b: int| 0 <= b < items.len() && items[b] == r[j];
        assert(r[i] != r[j]);
        if a < b {
            assert(items[a].idx != items[b].idx);
        } else {
            assert(items[b].idx != items[a].idx);
        }
    }
}

/// Where `y` is listed, `x` is too, and stands before it.
pub open spec fn leads(r: Seq<usize>, x: usize, y: usize) -> bool {
    forall|q: int| 0 <= q < r.len() && #[trigger] r[q] == y ==> exists|p: int| 0 <= p < q && #[trigger] r[p] == x
}

/// No item stands before one with a greater key, and of items with the same key none
/// stands before one with a smaller number.
pub proof fn lemma_ranking_falls(items: Seq<Ranked>)
    ensures
        forall|i: int, j: int|
            0 <= i < j < items.len() ==> (#[trigger] ranking(items)[i]).key >= (#[trigger] ranking(items)[j]).key,
        forall|i: int, j: int|
            0 <= i < j < items.len() && (#[trigger] ranking(items)[i]).key == (#[trigger] ranking(items)[j]).key
                ==> ranking(items)[i].idx <= ranking(items)[j].idx,
{
    lemma_ranking(items);
}

/// The item with the greater key stands before the other, and of two with the same
/// key the one with the smaller number: no item is listed in place of a better one.
pub proof fn lemma_best_order(items: Seq<Ranked>, m: nat, a: int, b: int)
    requires
        apart(items),
        0 <= a < items.len(),
        0 <= b < items.len(),
        items[a].key > items[b].key || (items[a].key == items[b].key && items[a].idx < items[b].idx),
    ensures
        leads(best(items, m), items[a].idx, items[b].idx),
{
    let r = ranking(items);
    let list = best(items, m);
    lemma_ranking(items);
    items.to_multiset_ensures();
    r.to_multiset_ensures();
    assert(items.to_multiset().count(items[a]) > 0) by {
        assert(items.contains(items[a]));
    }
    assert(r.contains(items[a]));
    let p = choose|p: int| 0 <= p < r.len() && r[p] == items[a];
    assert forall|q: int| 0 <= q < list.len() && #[trigger] list[q] == items[b].idx implies exists|p: int|
        0 <= p < q && #[trigger] list[p] == items[a].idx by {
        assert(items.contains(r[q]));
        let c = choose|c: int| 0 <= c < items.len() && items[c] == r[q];
        assert(c == b) by {
            if c < b {
                assert(items[c].idx != items[b].idx);
            } else if b < c {
                assert(items[b].idx != items[c].idx);
            }
        }
        if q < p {
            assert(ahead(r[q], r[p]));
        }
        assert(p < q);
        assert(list[p] == items[a].idx);
    }
}

/// As many are listed as there are and may be, and all of them where there is room.
pub proof fn lemma_best_all(items: Seq<Ranked>, m: nat)
    ensures
        best(items, m).len() <= m,
        best(items, m).len() <= items.len(),
        best(items, m).len() < m ==> best(items, m).len() == items.len(),
        best(items, m).len() == items.len() ==> forall|k: int|
            0 <= k < items.len() ==> best(items, m).contains((#[trigger] items[k]).idx),
{
    let r = ranking(items);
    let list = best(items, m);
    lemma_ranking(items);
    if list.len() == items.len() {
        items.to_multiset_ensures();
        r.to_multiset_ensures();
        assert forall|k: int| 0 <= k < items.len() implies list.contains((#[trigger] items[k]).idx) by {
            assert(items.contains(items[k]));
            assert(items.to_multiset().count(items[k]) > 0);
            assert(r.contains(items[k]));
            let p = choose|p: int| 0 <= p < r.len() && r[p] == items[k];
            assert(list[p] == items[k].idx);
        }
    }
}

/// Puts the items in order of merit.
pub fn rank(items: &Vec<Ranked>) -> (r: Vec<Ranked>)
    ensures
        r@ == ranking(items@),
        r@.to_multiset() == items@.to_multiset(),
        forall|i: int, j: int| 0 <= i < j < r@.len() ==> (#[trigger] r@[i]).key >= (#[trigger] r@[j]).key,
        forall|i: int, j: int|
            0 <= i < j < r@.len() && (#[trigger] r@[i]).key == (#[trigger] r@[j]).key ==> r@[i].idx <= r@[j].idx,
{
    let mut r: Vec<Ranked> = Vec::new();
    let mut n: usize = 0;
    assert(r@ =~= items@.take(0));
    while n < items.len()
        invariant
            n <= items@.len(),
            r@.len() == n,
            sorted_by(r@, merit()),
            r@.to_multiset() == items@.take(n as int).to_multiset(),
        decreases items@.len() - n,
    {
        let x = items[n];
        let ghost before = r@;
        let mut at: usize = r.len();
        while at > 0 && !(r[at - 1].key > x.key || (r[at - 1].key == x.key && r[at - 1].idx <= x.idx))
            invariant
                at <= r@.len(),
                r@ == before,
                sorted_by(r@, merit()),
                forall|i: int| at <= i < r@.len() ==> ahead(x, #[trigger] r@[i]),
            decreases at,
        {
            at -= 1;
        }
        proof {
            if at > 0 {
                assert forall|i: int| 0 <= i < at implies ahead(#[trigger] before[i], x) by {
                    if i < at - 1 {
                        assert(merit()(before[i], before[at - 1]));
                    }
                }
            }
        }
        r.insert(at, x);
        proof {
            assert(r@ =~= before.insert(at as int, x));
            assert forall|i: int, j: int| 0 <= i < j < r@.len() implies #[trigger] merit()(r@[i], r@[j]) by {
                let i0 = if i < at {
                    i
                } else {
                    i - 1
                };
                let j0 = if j < at {
                    j
                } else {
                    j - 1
                };
                if i != at && j != at {
                    assert(merit()(before[i0], before[j0]));
                } else if i == at {
                    assert(ahead(x, before[j0]));
                } else {
                    assert(ahead(before[i0], x));
                }
            }
            to_multiset_insert(before, at as int, x);
            items@.take(n as int).to_multiset_ensures();
            assert(items@.take(n + 1) =~= items@.take(n as int).push(x));
        }
        n += 1;
    }
    proof {
        assert(items@.take(n as int) =~= items@);
        lemma_merit();
        items@.lemma_sort_by_ensures(merit());
        lemma_sorted_unique(r@, ranking(items@), merit());
        lemma_ranking(items@);
        lemma_ranking_falls(items@);
    }
    r
}

/// The numbers of the first `m` items in order of merit.
pub fn best_of(items: &Vec<Ranked>, m: usize) -> (r: Vec<usize>)
    ensures
        r@ == best(items@, m as nat),
        r@.len() <= m,
        r@.len() == m || r@.len() == items@.len(),
        forall|k: int| 0 <= k < r@.len() ==> listed(items@, #[trigger] r@[k]),
        apart(items@) ==> forall|a: int, b: int|
            0 <= a < items@.len() && 0 <= b < items@.len() && ((#[trigger] items@[a]).key > (#[trigger] items@[b]).key
                || (items@[a].key == items@[b].key && items@[a].idx < items@[b].idx)) ==> leads(
                r@,
                items@[a].idx,
                items@[b].idx,
            ),
{
    let ranked = rank(items);
    proof {
        lemma_ranking(items@);
    }
    let mut r: Vec<usize> = Vec::new();
    while r.len() < ranked.len() && r.len() < m
        invariant
            ranked@ == ranking(items@),
            ranked@.len() == items@.len(),
            r@.len() <= ranked@.len(),
            r@.len() <= m,
            forall|i: int| 0 <= i < r@.len() ==> #[trigger] r@[i] == ranked@[i].idx,
        decreases ranked@.len() - r@.len(),
    {
        let i: usize = r.len();
        r.push(ranked[i].idx);
    }
    assert(r@ =~= best(items@, m as nat));
    proof {
        lemma_best(items@, m as nat);
        if apart(items@) {
            assert forall|a: int, b: int|
                0 <= a < items@.len() && 0 <= b < items@.len() && ((#[trigger] items@[a]).key > (
                #[trigger] items@[b]).key || (items@[a].key == items@[b].key && items@[a].idx < items@[b].idx)) implies leads(
                r@,
                items@[a].idx,
                items@[b].idx,
            ) by {
                lemma_best_order(items@, m as nat, a, b);
            }
        }
    }
    r
}

} // verus!
