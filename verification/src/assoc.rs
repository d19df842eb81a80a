//! Lists of keys and values, read as maps.
use vstd::prelude::*;

verus! {

/// No key occurs twice.
pub open spec fn unique<K, V>(s: Seq<(K, V)>) -> bool {
    forall|i: int, j: int| 0 <= i < j < s.len() ==> s[i].0 != s[j].0
}

/// Where `k` stands in the list, if it does.
pub open spec fn holds<K, V>(s: Seq<(K, V)>, k: K, i: int) -> bool {
    0 <= i < s.len() && s[i].0 == k
}

/// The map that the list stands for.
pub open spec fn assoc<K, V>(s: Seq<(K, V)>) -> Map<K, V> {
    Map::new(
        |k: K| exists|i: int| #[trigger] holds(s, k, i),
        |k: K| s[choose|i: int| #[trigger] holds(s, k, i)].1,
    )
}

/// The list's items are the map's.
pub proof fn assoc_at<K, V>(s: Seq<(K, V)>, i: int)
    requires
        unique(s),
        0 <= i < s.len(),
    ensures
        assoc(s).dom().contains(s[i].0),
        assoc(s)[s[i].0] == s[i].1,
{
    assert(holds(s, s[i].0, i));
    let j = choose|j: int| #[trigger] holds(s, s[i].0, j);
    assert(j == i);
}

/// The map's items are the list's.
pub proof fn assoc_find<K, V>(s: Seq<(K, V)>, k: K) -> (i: int)
    requires
        unique(s),
        assoc(s).dom().contains(k),
    ensures
        0 <= i < s.len(),
        s[i].0 == k,
        s[i].1 == assoc(s)[k],
{
    let i = choose|i: int| #[trigger] holds(s, k, i);
    assoc_at(s, i);
    i
}

/// A key that no item has is not in the map.
pub proof fn assoc_absent<K, V>(s: Seq<(K, V)>, k: K)
    requires
        forall|i: int| 0 <= i < s.len() ==> (#[trigger] s[i]).0 != k,
    ensures
        !assoc(s).dom().contains(k),
{
    if assoc(s).dom().contains(k) {
        let i = choose|i: int| #[trigger] holds(s, k, i);
        assert(s[i].0 == k);
    }
}

/// Putting in an item with a new key, at any place.
pub proof fn assoc_insert<K, V>(s: Seq<(K, V)>, at: int, k: K, v: V)
    requires
        unique(s),
        0 <= at <= s.len(),
        !assoc(s).dom().contains(k),
    ensures
        unique(s.insert(at, (k, v))),
        assoc(s.insert(at, (k, v))) == assoc(s).insert(k, v),
{
    let t = s.insert(at, (k, v));
    assert forall|i: int, j: int| 0 <= i < j < t.len() implies t[i].0 != t[j].0 by {
        let i0 = if i < at {
            i
        } else {
            i - 1
        };
        let j0 = if j < at {
            j
        } else {
            j - 1
        };
        if i == at {
            assoc_at(s, j0);
        } else if j == at {
            assoc_at(s, i0);
        }
    }
    assert forall|x: K| assoc(t).dom().contains(x) <==> #[trigger] assoc(s).insert(
        k,
        v,
    ).dom().contains(x) by {
        if assoc(t).dom().contains(x) {
            let i = assoc_find(t, x);
            if i < at {
                assoc_at(s, i);
            } else if i > at {
                assoc_at(s, i - 1);
            }
        }
        if assoc(s).dom().contains(x) {
            let i = assoc_find(s, x);
            if i < at {
                assoc_at(t, i);
            } else {
                assoc_at(t, i + 1);
            }
        }
        assoc_at(t, at);
    }
    assert forall|x: K| assoc(t).dom().contains(x) implies #[trigger] assoc(t)[x] == assoc(
        s,
    ).insert(k, v)[x] by {
        let i = assoc_find(t, x);
        if i < at {
            assoc_at(s, i);
        } else if i > at {
            assoc_at(s, i - 1);
        }
    }
    assert(assoc(t) =~= assoc(s).insert(k, v));
}

/// Putting in an item with a new key, at the end.
pub proof fn assoc_push<K, V>(s: Seq<(K, V)>, k: K, v: V)
    requires
        unique(s),
        !assoc(s).dom().contains(k),
    ensures
        unique(s.push((k, v))),
        assoc(s.push((k, v))) == assoc(s).insert(k, v),
{
    assoc_insert(s, s.len() as int, k, v);
    assert(s.insert(s.len() as int, (k, v)) =~= s.push((k, v)));
}

/// Giving an item another value.
pub proof fn assoc_update<K, V>(s: Seq<(K, V)>, at: int, v: V)
    requires
        unique(s),
        0 <= at < s.len(),
    ensures
        unique(s.update(at, (s[at].0, v))),
        assoc(s.update(at, (s[at].0, v))) == assoc(s).insert(s[at].0, v),
{
    let k = s[at].0;
    let t = s.update(at, (k, v));
    assert(unique(t)) by {
        assert forall|i: int, j: int| 0 <= i < j < t.len() implies t[i].0 != t[j].0 by {
            assert(s[i].0 != s[j].0);
        }
    }
    assert forall|x: K| assoc(t).dom().contains(x) <==> #[trigger] assoc(s).insert(
        k,
        v,
    ).dom().contains(x) by {
        if assoc(t).dom().contains(x) {
            let i = assoc_find(t, x);
            assoc_at(s, i);
        }
        if assoc(s).dom().contains(x) {
            let i = assoc_find(s, x);
            assoc_at(t, i);
        }
        assoc_at(t, at);
    }
    assert forall|x: K| assoc(t).dom().contains(x) implies #[trigger] assoc(t)[x] == assoc(
        s,
    ).insert(k, v)[x] by {
        let i = assoc_find(t, x);
        assoc_at(s, i);
    }
    assert(assoc(t) =~= assoc(s).insert(k, v));
}

/// Taking an item out.
pub proof fn assoc_remove<K, V>(s: Seq<(K, V)>, at: int)
    requires
        unique(s),
        0 <= at < s.len(),
    ensures
        unique(s.remove(at)),
        assoc(s.remove(at)) == assoc(s).remove(s[at].0),
{
    let k = s[at].0;
    let t = s.remove(at);
    assert forall|i: int, j: int| 0 <= i < j < t.len() implies t[i].0 != t[j].0 by {
        let i0 = if i < at {
            i
        } else {
            i + 1
        };
        let j0 = if j < at {
            j
        } else {
            j + 1
        };
        assert(s[i0].0 != s[j0].0);
    }
    assert forall|x: K| assoc(t).dom().contains(x) <==> #[trigger] assoc(s).remove(
        k,
    ).dom().contains(x) by {
        if assoc(t).dom().contains(x) {
            let i = assoc_find(t, x);
            let i0 = if i < at {
                i
            } else {
                i + 1
            };
            assoc_at(s, i0);
            assert(s[i0].0 != s[at].0);
        }
        if assoc(s).remove(k).dom().contains(x) {
            let i = assoc_find(s, x);
            if i < at {
                assoc_at(t, i);
            } else {
                assoc_at(t, i - 1);
            }
        }
    }
    assert forall|x: K| assoc(t).dom().contains(x) implies #[trigger] assoc(t)[x] == assoc(
        s,
    ).remove(k)[x] by {
        let i = assoc_find(t, x);
        let i0 = if i < at {
            i
        } else {
            i + 1
        };
        assoc_at(s, i0);
        assert(s[i0].0 != s[at].0);
    }
    assert(assoc(t) =~= assoc(s).remove(k));
}

/// The map of an empty list is empty.
pub proof fn assoc_empty<K, V>()
    ensures
        unique(Seq::<(K, V)>::empty()),
        assoc(Seq::<(K, V)>::empty()) == Map::<K, V>::empty(),
{
    assert forall|k: K| !assoc(Seq::<(K, V)>::empty()).dom().contains(k) by {
        assoc_absent(Seq::<(K, V)>::empty(), k);
    }
    assert(assoc(Seq::<(K, V)>::empty()) =~= Map::<K, V>::empty());
}

} // verus!
