//! Who survives where fleets meet.

use vstd::prelude::*;

verus! {

/// Ships of one owner that reach a planet.
#[derive(Clone, Copy, PartialEq, Eq, Structural, Debug)]
pub struct Arrival {
    pub owner: i64,
    pub ships: i64,
}

/// Ships that `owner` brings.
pub open spec fn brought_by(list: Seq<Arrival>, owner: i64) -> int
    decreases list.len(),
{
    if list.len() == 0 {
        0
    } else {
        brought_by(list.drop_last(), owner) + (if list.last().owner == owner {
            list.last().ships as int
        } else {
            0
        })
    }
}

/// Ships that all bring together.
pub open spec fn brought(list: Seq<Arrival>) -> int
    decreases list.len(),
{
    if list.len() == 0 {
        0
    } else {
        brought(list.drop_last()) + list.last().ships
    }
}

/// The most that one of the owners named in `list`, other than `owner`, brings
/// to `all`; 0 where there is no such owner.
pub open spec fn strongest_rival(list: Seq<Arrival>, all: Seq<Arrival>, owner: i64) -> int
    decreases list.len(),
{
    if list.len() == 0 {
        0
    } else {
        let best = strongest_rival(list.drop_last(), all, owner);
        let last = brought_by(all, list.last().owner);
        if list.last().owner != owner && last > best {
            last
        } else {
            best
        }
    }
}

/// What `owner` has left once its strongest rival is paid off.
pub open spec fn lead(list: Seq<Arrival>, owner: i64) -> int {
    brought_by(list, owner) - strongest_rival(list, list, owner)
}

/// The owner that has ships left, with those ships; nobody has any where the
/// strongest sides are equal.
pub open spec fn survivor(list: Seq<Arrival>) -> Option<(i64, int)> {
    if exists|i: int| 0 <= i < list.len() && lead(list, (#[trigger] list[i]).owner) > 0 {
        let i = choose|i: int| 0 <= i < list.len() && lead(list, (#[trigger] list[i]).owner) > 0;
        Some((list[i].owner, lead(list, list[i].owner)))
    } else {
        None
    }
}

/// Every arrival counts.
pub open spec fn no_debts(list: Seq<Arrival>) -> bool {
    forall|i: int| 0 <= i < list.len() ==> (#[trigger] list[i]).ships >= 0
}

pub proof fn lemma_brought_by(list: Seq<Arrival>, owner: i64)
    requires
        no_debts(list),
    ensures
        0 <= brought_by(list, owner) <= brought(list),
    decreases list.len(),
{
    if list.len() > 0 {
        let front = list.drop_last();
        assert forall|i: int| 0 <= i < front.len() implies (#[trigger] front[i]).ships >= 0 by {
            assert(front[i] == list[i]);
        }
        lemma_brought_by(front, owner);
    }
}

/// `best` is the most that an owner in `list` other than `owner` brings.
pub proof fn lemma_strongest_rival(list: Seq<Arrival>, all: Seq<Arrival>, owner: i64)
    ensures
        strongest_rival(list, all, owner) >= 0,
        forall|i: int|
            0 <= i < list.len() && (#[trigger] list[i]).owner != owner ==> brought_by(all, list[i].owner)
                <= strongest_rival(list, all, owner),
        strongest_rival(list, all, owner) > 0 ==> exists|i: int|
            0 <= i < list.len() && (#[trigger] list[i]).owner != owner && brought_by(all, list[i].owner)
                == strongest_rival(list, all, owner),
    decreases list.len(),
{
    if list.len() > 0 {
        let front = list.drop_last();
        lemma_strongest_rival(front, all, owner);
        assert forall|i: int| 0 <= i < front.len() implies #[trigger] list[i] == front[i] by {}
        let best = strongest_rival(front, all, owner);
        let last = brought_by(all, list.last().owner);
        if list.last().owner != owner && last > best {
            assert(list[list.len() - 1].owner != owner);
        } else if best > 0 {
            let i = choose|i: int|
                0 <= i < front.len() && (#[trigger] front[i]).owner != owner && brought_by(all, front[i].owner) == best;
            assert(list[i].owner != owner);
        }
    }
}

/// At most one side has ships left.
pub proof fn lemma_one_survivor(list: Seq<Arrival>, i: int, j: int)
    requires
        0 <= i < list.len(),
        0 <= j < list.len(),
        lead(list, list[i].owner) > 0,
        lead(list, list[j].owner) > 0,
    ensures
        list[i].owner == list[j].owner,
{
    lemma_strongest_rival(list, list, list[i].owner);
    lemma_strongest_rival(list, list, list[j].owner);
}

/// No side has more left than all brought.
pub proof fn lemma_survivor_bound(list: Seq<Arrival>)
    requires
        no_debts(list),
    ensures
        survivor(list) matches Some((o, s)) ==> 0 < s <= brought(list),
{
    if survivor(list) is Some {
        let i = choose|i: int| 0 <= i < list.len() && lead(list, (#[trigger] list[i]).owner) > 0;
        lemma_strongest_rival(list, list, list[i].owner);
        lemma_brought_by(list, list[i].owner);
    }
}

/// An arrival adds its ships to what its owner brings, and to nothing that others
/// bring.
pub proof fn lemma_brought_more(list: Seq<Arrival>, a: Arrival, owner: i64)
    ensures
        brought_by(Seq::empty(), owner) == 0,
        brought_by(list.push(a), a.owner) == brought_by(list, a.owner) + a.ships,
        owner != a.owner ==> brought_by(list.push(a), owner) == brought_by(list, owner),
{
    assert(list.push(a).drop_last() =~= list);
}

/// The side that survives brings more than any other, and has left what it brings
/// beyond the strongest of the others. Where nobody survives, no side brings ships and
/// more of them than every other.
pub proof fn lemma_survivor(list: Seq<Arrival>)
    requires
        no_debts(list),
    ensures
        match survivor(list) {
            Some((o, s)) => {
                &&& s > 0
                &&& exists|i: int| 0 <= i < list.len() && (#[trigger] list[i]).owner == o
                &&& forall|j: int|
                    0 <= j < list.len() && (#[trigger] list[j]).owner != o ==> brought_by(list, list[j].owner) + s
                        <= brought_by(list, o)
                &&& s == brought_by(list, o) || exists|j: int|
                    0 <= j < list.len() && (#[trigger] list[j]).owner != o && brought_by(list, list[j].owner) + s
                        == brought_by(list, o)
            },
            None => forall|i: int|
                0 <= i < list.len() && brought_by(list, (#[trigger] list[i]).owner) > 0 ==> exists|j: int|
                    0 <= j < list.len() && (#[trigger] list[j]).owner != list[i].owner && brought_by(list, list[j].owner)
                        >= brought_by(list, list[i].owner),
        },
{
    match survivor(list) {
        Some((o, s)) => {
            let i = choose|i: int| 0 <= i < list.len() && lead(list, (#[trigger] list[i]).owner) > 0;
            lemma_strongest_rival(list, list, o);
            assert(list[i].owner == o);
        },
        None => {
            assert forall|i: int|
                0 <= i < list.len() && brought_by(list, (#[trigger] list[i]).owner) > 0 implies exists|j: int|
                0 <= j < list.len() && (#[trigger] list[j]).owner != list[i].owner && brought_by(list, list[j].owner)
                    >= brought_by(list, list[i].owner) by {
                lemma_strongest_rival(list, list, list[i].owner);
                assert(lead(list, list[i].owner) <= 0);
            }
        },
    }
}

/// What each owner brings, in the order of first appearance.
fn tally(list: &Vec<Arrival>) -> (sums: Vec<Arrival>)
    requires
        no_debts(list@),
        brought(list@) <= i64::MAX,
    ensures
        is_tally(sums@, list@),
{
    let mut sums: Vec<Arrival> = Vec::new();
    let mut i: usize = 0;
    assert(list@.take(0) =~= Seq::<Arrival>::empty());
    while i < list.len()
        invariant
            i <= list@.len(),
            no_debts(list@),
            brought(list@) <= i64::MAX,
            is_tally(sums@, list@.take(i as int)),
        decreases list@.len() - i,
    {
        let a = list[i];
        let ghost before = list@.take(i as int);
        let ghost after = list@.take(i + 1);
        let ghost old_sums = sums@;
        proof {
            assert(after.drop_last() =~= before);
            assert(after.last() == a);
            lemma_take_bound(list@, i + 1);
            lemma_brought_by(after, a.owner);
        }
        let mut k: usize = 0;
        while k < sums.len() && sums[k].owner != a.owner
            invariant
                k <= sums@.len(),
                sums@ == old_sums,
                forall|m: int| 0 <= m < k ==> (#[trigger] sums@[m]).owner != a.owner,
            decreases sums@.len() - k,
        {
            k += 1;
        }
        if k < sums.len() {
            let total: i64 = sums[k].ships + a.ships;
            sums[k] = Arrival { owner: a.owner, ships: total };
        } else {
            sums.push(a);
            proof {
                assert(!named(old_sums, a.owner));
                lemma_not_named(before, a.owner);
            }
        }
        proof {
            lemma_named_push(before, a);
            assert(after =~= before.push(a));
            if k < old_sums.len() {
                lemma_named_same(old_sums, sums@);
                assert(named(old_sums, old_sums[k as int].owner));
            } else {
                lemma_named_push(old_sums, a);
            }
            assert forall|m: int| 0 <= m < sums@.len() implies (#[trigger] sums@[m]).ships == brought_by(
                after,
                sums@[m].owner,
            ) by {
                if m < old_sums.len() {
                    assert(old_sums[m].owner == sums@[m].owner);
                    assert(old_sums[m].ships == brought_by(before, old_sums[m].owner));
                    if m != k && k < old_sums.len() {
                        assert(old_sums[m].owner != old_sums[k as int].owner);
                    }
                }
            }
            assert forall|m: int, n: int| 0 <= m < n < sums@.len() implies (#[trigger] sums@[m]).owner != (
            #[trigger] sums@[n]).owner by {
                assert(old_sums[m].owner == sums@[m].owner);
                if n < old_sums.len() {
                    assert(old_sums[n].owner == sums@[n].owner);
                }
            }
        }
        i += 1;
    }
    assert(list@.take(i as int) =~= list@);
    sums
}

/// `sums` has one entry for each owner in `list`, with what it brings.
spec fn is_tally(sums: Seq<Arrival>, list: Seq<Arrival>) -> bool {
    &&& forall|m: int| 0 <= m < sums.len() ==> (#[trigger] sums[m]).ships == brought_by(list, sums[m].owner)
    &&& forall|m: int, n: int| 0 <= m < n < sums.len() ==> (#[trigger] sums[m]).owner != (#[trigger] sums[n]).owner
    &&& forall|o: i64| #[trigger] named(sums, o) <==> named(list, o)
}

/// `list` has an entry of `owner`.
spec fn named(list: Seq<Arrival>, owner: i64) -> bool {
    exists|n: int| 0 <= n < list.len() && (#[trigger] list[n]).owner == owner
}

proof fn lemma_named_push(list: Seq<Arrival>, a: Arrival)
    ensures
        forall|o: i64| #[trigger] named(list.push(a), o) <==> named(list, o) || a.owner == o,
{
    let next = list.push(a);
    assert forall|o: i64| #[trigger] named(next, o) <==> named(list, o) || a.owner == o by {
        if named(list, o) {
            let n = choose|n: int| 0 <= n < list.len() && (#[trigger] list[n]).owner == o;
            assert(next[n].owner == o);
        }
        if a.owner == o {
            assert(next[list.len() as int].owner == o);
        }
        if named(next, o) {
            let n = choose|n: int| 0 <= n < next.len() && (#[trigger] next[n]).owner == o;
            if n < list.len() {
                assert(list[n].owner == o);
            }
        }
    }
}

proof fn lemma_named_same(a: Seq<Arrival>, b: Seq<Arrival>)
    requires
        a.len() == b.len(),
        forall|i: int| 0 <= i < a.len() ==> (#[trigger] a[i]).owner == b[i].owner,
    ensures
        forall|o: i64| #[trigger] named(b, o) <==> named(a, o),
{
    assert forall|o: i64| #[trigger] named(b, o) <==> named(a, o) by {
        if named(a, o) {
            let n = choose|n: int| 0 <= n < a.len() && (#[trigger] a[n]).owner == o;
            assert(b[n].owner == o);
        }
        if named(b, o) {
            let n = choose|n: int| 0 <= n < b.len() && (#[trigger] b[n]).owner == o;
            assert(a[n].owner == o);
        }
    }
}

proof fn lemma_take_bound(list: Seq<Arrival>, n: int)
    requires
        no_debts(list),
        0 <= n <= list.len(),
    ensures
        no_debts(list.take(n)),
        0 <= brought(list.take(n)) <= brought(list),
    decreases list.len(),
{
    let t = list.take(n);
    assert forall|i: int| 0 <= i < t.len() implies (#[trigger] t[i]).ships >= 0 by {
        assert(t[i] == list[i]);
    }
    if n < list.len() {
        let front = list.drop_last();
        assert forall|i: int| 0 <= i < front.len() implies (#[trigger] front[i]).ships >= 0 by {
            assert(front[i] == list[i]);
        }
        lemma_take_bound(front, n);
        assert(front.take(n) =~= t);
        assert(list[list.len() - 1].ships >= 0);
    } else {
        assert(t =~= list);
        lemma_brought_by(list, 0);
    }
}

proof fn lemma_not_named(list: Seq<Arrival>, owner: i64)
    requires
        !named(list, owner),
    ensures
        brought_by(list, owner) == 0,
    decreases list.len(),
{
    if list.len() > 0 {
        let front = list.drop_last();
        assert(front.push(list.last()) =~= list);
        lemma_named_push(front, list.last());
        assert(!named(front.push(list.last()), owner));
        lemma_not_named(front, owner);
    }
}

/// The side that survives the meeting, with the ships that it has left.
pub fn resolve(list: &Vec<Arrival>) -> (r: Option<Arrival>)
    requires
        no_debts(list@),
        brought(list@) <= i64::MAX,
    ensures
        match r {
            Some(a) => survivor(list@) == Some((a.owner, a.ships as int)),
            None => survivor(list@) is None,
        },
        r matches Some(a) ==> a.ships > 0 && forall|j: int|
            0 <= j < list@.len() && (#[trigger] list@[j]).owner != a.owner ==> brought_by(list@, list@[j].owner) + a.ships
                <= brought_by(list@, a.owner),
{
    proof {
        lemma_survivor(list@);
    }
    let sums = tally(list);
    if sums.len() == 0 {
        assert(list@.len() == 0) by {
            if list@.len() > 0 {
                assert(named(list@, list@[0].owner));
                assert(named(sums@, list@[0].owner));
            }
        }
        return None;
    }
    let mut top: usize = 0;
    let mut second: i64 = 0;
    let mut k: usize = 1;
    proof {
        assert(sums@[0].ships == brought_by(list@, sums@[0].owner));
        lemma_brought_by(list@, sums@[0].owner);
    }
    while k < sums.len()
        invariant
            1 <= k <= sums@.len(),
            top < k,
            no_debts(list@),
            is_tally(sums@, list@),
            second >= 0,
            second <= sums@[top as int].ships,
            forall|m: int| 0 <= m < k && m != top ==> (#[trigger] sums@[m]).ships <= second,
            second > 0 ==> exists|m: int| 0 <= m < k && m != top && (#[trigger] sums@[m]).ships == second,
        decreases sums@.len() - k,
    {
        proof {
            assert(sums@[k as int].ships == brought_by(list@, sums@[k as int].owner));
            lemma_brought_by(list@, sums@[k as int].owner);
        }
        if sums[k].ships > sums[top].ships {
            second = sums[top].ships;
            top = k;
        } else if sums[k].ships > second {
            second = sums[k].ships;
        }
        k += 1;
    }
    let best = sums[top];
    proof {
        lemma_top_two(list@, sums@, top as int, second as int);
    }
    if best.ships > second {
        Some(Arrival { owner: best.owner, ships: best.ships - second })
    } else {
        None
    }
}

proof fn lemma_top_two(list: Seq<Arrival>, sums: Seq<Arrival>, top: int, second: int)
    requires
        no_debts(list),
        is_tally(sums, list),
        0 <= top < sums.len(),
        0 <= second <= sums[top].ships,
        forall|m: int| 0 <= m < sums.len() && m != top ==> (#[trigger] sums[m]).ships <= second,
        second > 0 ==> exists|m: int| 0 <= m < sums.len() && m != top && (#[trigger] sums[m]).ships == second,
    ensures
        sums[top].ships > second ==> survivor(list) == Some((sums[top].owner, sums[top].ships - second)),
        sums[top].ships == second ==> survivor(list) is None,
{
    let o = sums[top].owner;
    let rival = strongest_rival(list, list, o);
    lemma_strongest_rival(list, list, o);
    // The strongest rival of the top side is the second one.
    if rival > 0 {
        let i = choose|i: int|
            0 <= i < list.len() && (#[trigger] list[i]).owner != o && brought_by(list, list[i].owner) == rival;
        assert(named(list, list[i].owner));
        assert(named(sums, list[i].owner));
        let n = choose|n: int| 0 <= n < sums.len() && (#[trigger] sums[n]).owner == list[i].owner;
        assert(sums[n].ships == rival);
        assert(n != top);
    }
    if second > 0 {
        let m = choose|m: int| 0 <= m < sums.len() && m != top && (#[trigger] sums[m]).ships == second;
        assert(named(sums, sums[m].owner));
        let i = choose|i: int| 0 <= i < list.len() && (#[trigger] list[i]).owner == sums[m].owner;
        assert(sums[m].owner != o);
        assert(brought_by(list, list[i].owner) == second);
    }
    assert(rival == second);
    assert(sums[top].ships == brought_by(list, o));
    assert(named(sums, o));
    if sums[top].ships > second {
        let t = choose|t: int| 0 <= t < list.len() && (#[trigger] list[t]).owner == o;
        assert(lead(list, list[t].owner) > 0);
        let i = choose|i: int| 0 <= i < list.len() && lead(list, (#[trigger] list[i]).owner) > 0;
        lemma_one_survivor(list, i, t);
    } else {
        assert forall|i: int| 0 <= i < list.len() implies lead(list, (#[trigger] list[i]).owner) <= 0 by {
            let p = list[i].owner;
            lemma_strongest_rival(list, list, p);
            assert(named(list, p));
            assert(named(sums, p));
            let n = choose|n: int| 0 <= n < sums.len() && (#[trigger] sums[n]).owner == p;
            assert(sums[n].ships == brought_by(list, p));
            if p != o {
                let t = choose|t: int| 0 <= t < list.len() && (#[trigger] list[t]).owner == o;
                assert(brought_by(list, list[t].owner) <= strongest_rival(list, list, p));
            }
        }
    }
}

} // verus!
