//! Taking listed places out of a list by moving the last item into each gap,
//! from the last listed place down.

use vstd::prelude::*;

verus! {

/// Place `i` is listed.
pub open spec fn listed(places: Seq<usize>, i: int) -> bool {
    exists|m: int| 0 <= m < places.len() && #[trigger] places[m] == i
}

/// A place as a number.
pub open spec fn place_of(i: usize) -> int {
    i as int
}

/// The item at a place.
pub open spec fn at<A>(s: Seq<A>, i: usize) -> A {
    s[i as int]
}

/// `new_items` holds the items of `old_items`, each once, in some order:
/// `origin` tells for each place which of the old items it holds.
pub open spec fn rearranged_by<A>(old_items: Seq<A>, new_items: Seq<A>, origin: Seq<int>) -> bool {
    &&& origin.len() == new_items.len()
    &&& new_items.len() == old_items.len()
    &&& forall|i: int|
        0 <= i < new_items.len() ==> 0 <= #[trigger] origin[i] < old_items.len() && new_items[i]
            == old_items[origin[i]]
    &&& forall|i: int, j: int|
        0 <= i < origin.len() && 0 <= j < origin.len() && i != j ==> #[trigger] origin[i]
            != #[trigger] origin[j]
}

/// `new_items` holds the items of `old_items`, each once, in some order.
pub open spec fn rearranged<A>(old_items: Seq<A>, new_items: Seq<A>) -> bool {
    exists|origin: Seq<int>| rearranged_by(old_items, new_items, origin)
}

/// The listed places rise, and all lie below `len`.
pub open spec fn rising(places: Seq<usize>, len: nat) -> bool {
    &&& forall|m: int| 0 <= m < places.len() ==> #[trigger] places[m] < len
    &&& forall|m: int, n: int| 0 <= m < n < places.len() ==> places[m] < places[n]
}

/// Listed place number `k`, or `len` where there is none.
pub open spec fn bound_at(places: Seq<usize>, k: usize, len: nat) -> int {
    if k < places.len() {
        places[k as int] as int
    } else {
        len as int
    }
}

/// The list with the item at `at` taken out and the last item in its place.
pub open spec fn swap_removed<A>(s: Seq<A>, at: usize) -> Seq<A> {
    s.update(at as int, s.last()).drop_last()
}

/// The list of the places `0..len`, each holding itself.
pub open spec fn in_place(len: nat) -> Seq<int> {
    Seq::new(len, |i: int| i)
}

/// What holds while the listed items are taken out, from the last down:
/// `origin` tells for each place which of the old items it holds; below
/// `bound` nothing has moved, from `bound` on only unlisted items are left,
/// and every unlisted old item from `bound` on is still there.
pub open spec fn removing<A>(
    old_items: Seq<A>,
    items: Seq<A>,
    origin: Seq<int>,
    places: Seq<usize>,
    bound: int,
) -> bool {
    &&& items.len() == origin.len()
    &&& 0 <= bound <= items.len() <= old_items.len()
    &&& forall|i: int|
        0 <= i < items.len() ==> 0 <= #[trigger] origin[i] < old_items.len() && items[i]
            == old_items[origin[i]]
    &&& forall|i: int, j: int|
        0 <= i < origin.len() && 0 <= j < origin.len() && i != j ==> #[trigger] origin[i]
            != #[trigger] origin[j]
    &&& forall|i: int| 0 <= i < bound ==> #[trigger] origin[i] == i
    &&& forall|i: int|
        bound <= i < origin.len() ==> #[trigger] origin[i] >= bound && !listed(places, origin[i])
    &&& forall|j: int|
        bound <= j < old_items.len() && !listed(places, j) ==> #[trigger] origin.contains(j)
}

/// Before anything is taken out, everything is in its place.
pub proof fn lemma_removing_start<A>(old_items: Seq<A>, places: Seq<usize>)
    ensures
        removing(old_items, old_items, in_place(old_items.len()), places, old_items.len() as int),
{
}

/// Taking out the next listed item keeps what holds.
pub proof fn lemma_removing_step<A>(
    old_items: Seq<A>,
    items: Seq<A>,
    origin: Seq<int>,
    places: Seq<usize>,
    k: usize,
)
    requires
        rising(places, old_items.len()),
        0 < k <= places.len(),
        removing(old_items, items, origin, places, bound_at(places, k, old_items.len())),
    ensures
        places[k - 1] < items.len(),
        removing(
            old_items,
            swap_removed(items, places[k - 1]),
            swap_removed(origin, places[k - 1]),
            places,
            places[k - 1] as int,
        ),
{
    let bound = bound_at(places, k, old_items.len());
    let at = places[k - 1] as int;
    let last = items.len() - 1;
    let items2 = swap_removed(items, places[k - 1]);
    let origin2 = swap_removed(origin, places[k - 1]);
    assert(at < bound);
    assert forall|j: int| at < j < bound implies !listed(places, j) by {
        if listed(places, j) {
            let m = choose|m: int| 0 <= m < places.len() && #[trigger] places[m] == j;
            if m < k - 1 {
                assert(places[m] < places[k - 1]);
            } else if m > k {
                assert(places[k as int] < places[m]);
            }
        }
    }
    assert forall|i: int| at <= i < origin2.len() implies #[trigger] origin2[i] >= at && !listed(
        places,
        origin2[i],
    ) by {
        if i == at {
            assert(origin2[i] == origin[last]);
            if last < bound {
                assert(origin[last] == last);
            }
        } else {
            assert(origin2[i] == origin[i]);
            if i < bound {
                assert(origin[i] == i);
            }
        }
    }
    assert forall|j: int|
        at <= j < old_items.len() && !listed(places, j) implies #[trigger] origin2.contains(j) by {
        assert(places[k - 1] == at);
        assert(j != at);
        if j < bound {
            assert(origin[j] == j);
            if j == last {
                assert(origin2[at] == j);
            } else {
                assert(origin2[j] == j);
            }
        } else {
            assert(origin.contains(j));
            let p = choose|p: int| 0 <= p < origin.len() && origin[p] == j;
            assert(origin[at] == at);
            if p == last {
                assert(origin2[at] == j);
            } else {
                assert(origin2[p] == j);
            }
        }
    }
    assert forall|i: int| 0 <= i < items2.len() implies 0 <= #[trigger] origin2[i]
        < old_items.len() && items2[i] == old_items[origin2[i]] by {
        if i == at {
            assert(origin2[i] == origin[last] && items2[i] == items[last]);
        } else {
            assert(origin2[i] == origin[i] && items2[i] == items[i]);
        }
    }
    assert forall|i: int, j: int|
        0 <= i < origin2.len() && 0 <= j < origin2.len() && i != j implies #[trigger] origin2[i]
        != #[trigger] origin2[j] by {
        let oi = if i == at {
            last
        } else {
            i
        };
        let oj = if j == at {
            last
        } else {
            j
        };
        assert(origin2[i] == origin[oi] && origin2[j] == origin[oj]);
    }
    assert forall|i: int| 0 <= i < at implies #[trigger] origin2[i] == i by {
        assert(origin2[i] == origin[i]);
    }
}

/// When the listed items are out, the items that are left are the unlisted
/// old items, each once.
pub proof fn lemma_removing_done<A>(
    old_items: Seq<A>,
    items: Seq<A>,
    origin: Seq<int>,
    places: Seq<usize>,
)
    requires
        rising(places, old_items.len()),
        removing(old_items, items, origin, places, bound_at(places, 0, old_items.len())),
    ensures
        items.len() == origin.len(),
        forall|i: int|
            0 <= i < items.len() ==> 0 <= #[trigger] origin[i] < old_items.len() && items[i]
                == old_items[origin[i]] && !listed(places, origin[i]),
        forall|i: int, j: int|
            0 <= i < origin.len() && 0 <= j < origin.len() && i != j ==> #[trigger] origin[i]
                != #[trigger] origin[j],
        forall|j: int|
            0 <= j < old_items.len() && !listed(places, j) ==> exists|p: int|
                0 <= p < items.len() && #[trigger] origin[p] == j,
{
    let bound = bound_at(places, 0, old_items.len());
    assert forall|j: int| 0 <= j < bound implies !listed(places, j) by {
        if listed(places, j) {
            let m = choose|m: int| 0 <= m < places.len() && #[trigger] places[m] == j;
            if m > 0 {
                assert(places[0] < places[m]);
            }
        }
    }
    assert forall|i: int| 0 <= i < items.len() implies !listed(places, #[trigger] origin[i]) by {
        if i < bound {
            assert(origin[i] == i);
        }
    }
    assert forall|j: int| 0 <= j < old_items.len() && !listed(places, j) implies exists|p: int|
        0 <= p < items.len() && #[trigger] origin[p] == j by {
        if j < bound {
            assert(origin[j] == j);
        } else {
            assert(origin.contains(j));
            let p = choose|p: int| 0 <= p < origin.len() && origin[p] == j;
            assert(origin[p] == j);
        }
    }
}

/// One more listed place, above those listed so far.
pub proof fn lemma_listed_push(places: Seq<usize>, place: usize, i: int)
    ensures
        listed(places.push(place), i) <==> listed(places, i) || i == place,
{
    let after = places.push(place);
    if listed(places, i) {
        let m = choose|m: int| 0 <= m < places.len() && #[trigger] places[m] == i;
        assert(after[m] == i);
    }
    if i == place {
        assert(after[places.len() as int] == i);
    }
    if listed(after, i) {
        let m = choose|m: int| 0 <= m < after.len() && #[trigger] after[m] == i;
        if m < places.len() {
            assert(places[m] == i);
        }
    }
}

} // verus!
