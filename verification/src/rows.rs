//! The newest version of every row of every table, in the order of tables and
//! keys.
use vstd::prelude::*;

use crate::assoc;
use crate::mvcc::Place;
use crate::steps;
use crate::table::TableIdType;
use crate::tuple;
use crate::tuple::{DBIdType, Row, Tuple};

verus! {

/// A row with its table.
pub struct Item {
    pub table: TableIdType,
    pub tuple: Tuple,
}

impl Item {
    /// Where the row is.
    pub open spec fn place(self) -> Place {
        Place { table: self.table, key: self.tuple@.id }
    }
}

/// The rows, sorted by table and key.
pub struct RowStore {
    pub items: Vec<Item>,
}

/// The order of places: by table, then by key.
pub open spec fn place_before(a: Place, b: Place) -> bool {
    a.table.0 < b.table.0 || (a.table.0 == b.table.0 && tuple::key_before(a.key, b.key))
}

/// Of two places, exactly one comes first, unless they are the same.
pub proof fn place_before_total(a: Place, b: Place)
    ensures
        place_before(a, b) || place_before(b, a) || a == b,
        !(place_before(a, b) && place_before(b, a)),
        a == b ==> !place_before(a, b),
{
    tuple::key_before_total(a.key, b.key);
}

/// The order of places is transitive.
pub proof fn place_before_transitive(a: Place, b: Place, c: Place)
    requires
        place_before(a, b),
        place_before(b, c),
    ensures
        place_before(a, c),
{
    if a.table.0 == b.table.0 && b.table.0 == c.table.0 {
        tuple::key_before_transitive(a.key, b.key, c.key);
    }
}

/// The rows with their places, in order.
pub open spec fn pairs(items: Seq<Item>) -> Seq<(Place, Row)> {
    items.map_values(|it: Item| (it.place(), it.tuple@))
}

/// Are the items in order, each place once?
pub open spec fn sorted(items: Seq<Item>) -> bool {
    forall|i: int, j: int|
        0 <= i < j < items.len() ==> place_before(
            (#[trigger] items[i]).place(),
            (#[trigger] items[j]).place(),
        )
}

/// Items in order have no place twice.
pub proof fn sorted_unique(items: Seq<Item>)
    requires
        sorted(items),
    ensures
        assoc::unique(pairs(items)),
{
    assert forall|i: int, j: int| 0 <= i < j < pairs(items).len() implies pairs(items)[i].0
        != pairs(items)[j].0 by {
        assert(place_before(items[i].place(), items[j].place()));
        place_before_total(items[i].place(), items[j].place());
    }
}

/// There is only one order that rows can be in.
pub proof fn one_order(a: Seq<Item>, b: Seq<Item>)
    requires
        sorted(a),
        sorted(b),
        assoc::assoc(pairs(a)) == assoc::assoc(pairs(b)),
    ensures
        pairs(a) == pairs(b),
{
    sorted_unique(a);
    sorted_unique(b);
    same_from(a, b, 0);
    assert(pairs(a).skip(0) =~= pairs(a));
    assert(pairs(b).skip(0) =~= pairs(b));
}

/// Rows in order that agree up to `i` agree from there on.
proof fn same_from(a: Seq<Item>, b: Seq<Item>, i: int)
    requires
        sorted(a),
        sorted(b),
        assoc::unique(pairs(a)),
        assoc::unique(pairs(b)),
        assoc::assoc(pairs(a)) == assoc::assoc(pairs(b)),
        0 <= i <= a.len(),
        i <= b.len(),
        forall|j: int| 0 <= j < i ==> pairs(a)[j] == pairs(b)[j],
    ensures
        pairs(a).skip(i) == pairs(b).skip(i),
    decreases a.len() - i,
{
    let pa = pairs(a);
    let pb = pairs(b);
    if i < a.len() && i < b.len() {
        let x = a[i].place();
        let y = b[i].place();
        assert(pa[i].0 == x && pb[i].0 == y);
        assoc::assoc_at(pa, i);
        assoc::assoc_at(pb, i);
        let j = assoc::assoc_find(pb, x);
        let k = assoc::assoc_find(pa, y);
        place_before_total(x, y);
        assert(b[j].place() == x);
        assert(a[k].place() == y);
        if j < i {
            assert(pa[j] == pb[j]);
            assert(a[j].place() == x);
            place_before_total(a[j].place(), x);
            assert(place_before(a[j].place(), a[i].place()));
        }
        if k < i {
            assert(pa[k] == pb[k]);
            assert(b[k].place() == y);
            place_before_total(b[k].place(), y);
            assert(place_before(b[k].place(), b[i].place()));
        }
        if j > i {
            assert(place_before(b[i].place(), b[j].place()));
        }
        if k > i {
            assert(place_before(a[i].place(), a[k].place()));
        }
        assert(x == y);
        assert(pa[i] == pb[i]);
        same_from(a, b, i + 1);
        assert(pa.skip(i) =~= seq![pa[i]] + pa.skip(i + 1));
        assert(pb.skip(i) =~= seq![pb[i]] + pb.skip(i + 1));
    } else if i < a.len() {
        assoc::assoc_at(pa, i);
        let j = assoc::assoc_find(pb, a[i].place());
        assert(pa[j] == pb[j]);
        assert(a[j].place() == a[i].place());
        place_before_total(a[j].place(), a[i].place());
        assert(place_before(a[j].place(), a[i].place()));
    } else if i < b.len() {
        assoc::assoc_at(pb, i);
        let j = assoc::assoc_find(pa, b[i].place());
        assert(pa[j] == pb[j]);
        assert(b[j].place() == b[i].place());
        place_before_total(b[j].place(), b[i].place());
        assert(place_before(b[j].place(), b[i].place()));
    } else {
        assert(pa.skip(i) =~= pb.skip(i));
    }
}

/// Rows in order stay in order without one of them.
pub proof fn sorted_without(items: Seq<Item>, at: int)
    requires
        sorted(items),
        0 <= at < items.len(),
    ensures
        sorted(items.remove(at)),
        assoc::assoc(pairs(items.remove(at))) == assoc::assoc(pairs(items)).remove(
            items[at].place(),
        ),
{
    let less = items.remove(at);
    assert forall|i: int, j: int| 0 <= i < j < less.len() implies place_before(
        (#[trigger] less[i]).place(),
        (#[trigger] less[j]).place(),
    ) by {
        let i0 = if i < at {
            i
        } else {
            i + 1
        };
        let j0 = if j < at {
            j
        } else {
            j + 1
        };
        assert(place_before(items[i0].place(), items[j0].place()));
    }
    sorted_unique(items);
    assert(pairs(less) =~= pairs(items).remove(at));
    assoc::assoc_remove(pairs(items), at);
}

impl View for RowStore {
    type V = Map<Place, Row>;

    open spec fn view(&self) -> Map<Place, Row> {
        assoc::assoc(pairs(self.items@))
    }
}

impl RowStore {
    /// Are the rows in order?
    pub open spec fn wf(&self) -> bool {
        sorted(self.items@)
    }

    /// No rows.
    pub fn new() -> (s: RowStore)
        ensures
            s.wf(),
            s@ == Map::<Place, Row>::empty(),
    {
        let s = RowStore { items: Vec::new() };
        proof {
            assert(pairs(s.items@) =~= Seq::empty());
            assoc::assoc_empty::<Place, Row>();
        }
        s
    }

    /// Where the row is, or where it would go.
    fn slot(&self, table: TableIdType, key: &DBIdType) -> (r: (usize, bool))
        requires
            self.wf(),
        ensures
            r.0 <= self.items@.len(),
            forall|i: int|
                0 <= i < r.0 ==> place_before(
                    (#[trigger] self.items@[i]).place(),
                    (Place { table, key: key@ }),
                ),
            r.1 ==> r.0 < self.items@.len() && self.items@[r.0 as int].place() == (Place {
                table,
                key: key@,
            }),
            !r.1 ==> forall|i: int|
                r.0 <= i < self.items@.len() ==> place_before(
                    (Place { table, key: key@ }),
                    (#[trigger] self.items@[i]).place(),
                ),
    {
        let ghost want = Place { table, key: key@ };
        let mut lo: usize = 0;
        let mut hi: usize = self.items.len();
        while lo < hi
            invariant
                self.wf(),
                lo <= hi <= self.items@.len(),
                want == (Place { table, key: key@ }),
                forall|i: int|
                    0 <= i < lo ==> place_before((#[trigger] self.items@[i]).place(), want),
                forall|i: int|
                    hi <= i < self.items@.len() ==> place_before(
                        want,
                        (#[trigger] self.items@[i]).place(),
                    ),
            decreases hi - lo,
        {
            let mid: usize = lo + (hi - lo) / 2;
            let it = &self.items[mid];
            let ghost here = self.items@[mid as int].place();
            if it.table.0 == table.0 && it.tuple.id.same(key) {
                assert forall|i: int| 0 <= i < mid implies place_before(
                    (#[trigger] self.items@[i]).place(),
                    want,
                ) by {
                    assert(place_before(self.items@[i].place(), here));
                }
                return (mid, true);
            }
            if it.table.0 < table.0 || (it.table.0 == table.0 && it.tuple.id.less(key)) {
                assert forall|i: int| 0 <= i < mid + 1 implies place_before(
                    (#[trigger] self.items@[i]).place(),
                    want,
                ) by {
                    if i < mid {
                        assert(place_before(self.items@[i].place(), here));
                        place_before_transitive(self.items@[i].place(), here, want);
                    }
                }
                lo = mid + 1;
            } else {
                proof {
                    place_before_total(here, want);
                }
                assert forall|i: int| mid <= i < self.items@.len() implies place_before(
                    want,
                    (#[trigger] self.items@[i]).place(),
                ) by {
                    if i > mid {
                        assert(place_before(here, self.items@[i].place()));
                        place_before_transitive(want, here, self.items@[i].place());
                    }
                }
                hi = mid;
            }
        }
        (lo, false)
    }

    /// A place that the search did not find holds no row.
    proof fn slot_absent(&self, at: int, want: Place)
        requires
            self.wf(),
            0 <= at <= self.items@.len(),
            forall|i: int|
                0 <= i < at ==> place_before((#[trigger] self.items@[i]).place(), want),
            forall|i: int|
                at <= i < self.items@.len() ==> place_before(
                    want,
                    (#[trigger] self.items@[i]).place(),
                ),
        ensures
            !self@.dom().contains(want),
    {
        assert forall|i: int| 0 <= i < pairs(self.items@).len() implies (#[trigger] pairs(
            self.items@,
        )[i]).0 != want by {
            place_before_total(self.items@[i].place(), want);
        }
        assoc::assoc_absent(pairs(self.items@), want);
    }

    /// The newest version of a row.
    pub fn get(&self, table: TableIdType, key: &DBIdType) -> (r: Option<&Tuple>)
        requires
            self.wf(),
        ensures
            match r {
                Some(t) => self@.dom().contains(Place { table, key: key@ }) && t@ == self@[Place {
                    table,
                    key: key@,
                }],
                None => !self@.dom().contains(Place { table, key: key@ }),
            },
    {
        let (at, found) = self.slot(table, key);
        proof {
            sorted_unique(self.items@);
        }
        if found {
            proof {
                assoc::assoc_at(pairs(self.items@), at as int);
            }
            Some(&self.items[at].tuple)
        } else {
            proof {
                self.slot_absent(at as int, Place { table, key: key@ });
            }
            None
        }
    }

    /// Makes `t` the newest version of its row.
    pub fn put(&mut self, table: TableIdType, t: Tuple)
        requires
            old(self).wf(),
        ensures
            final(self).wf(),
            final(self)@ == old(self)@.insert(Place { table, key: t@.id }, t@),
    {
        let (at, found) = self.slot(table, &t.id);
        let ghost want = Place { table, key: t@.id };
        let ghost row = t@;
        let ghost before = self.items@;
        let ghost was = pairs(before);
        proof {
            sorted_unique(before);
        }
        if found {
            self.items[at] = Item { table, tuple: t };
            proof {
                assert(pairs(self.items@) =~= was.update(at as int, (was[at as int].0, row)));
                assoc::assoc_update(was, at as int, row);
            }
        } else {
            proof {
                self.slot_absent(at as int, want);
            }
            self.items.insert(at, Item { table, tuple: t });
            proof {
                assert(pairs(self.items@) =~= was.insert(at as int, (want, row)));
                assoc::assoc_insert(was, at as int, want, row);
                assert forall|i: int, j: int| 0 <= i < j < self.items@.len() implies place_before(
                    (#[trigger] self.items@[i]).place(),
                    (#[trigger] self.items@[j]).place(),
                ) by {
                    if i < at && j > at {
                        assert(place_before(before[i].place(), before[j - 1].place()));
                    } else if j < at {
                        assert(place_before(before[i].place(), before[j].place()));
                    } else if i > at {
                        assert(place_before(before[i - 1].place(), before[j - 1].place()));
                    } else if i < at {
                        assert(place_before(before[i].place(), want));
                    } else {
                        assert(place_before(want, before[j - 1].place()));
                    }
                }
            }
        }
    }

    /// Takes a row out.
    pub fn remove(&mut self, table: TableIdType, key: &DBIdType)
        requires
            old(self).wf(),
        ensures
            final(self).wf(),
            final(self)@ == old(self)@.remove(Place { table, key: key@ }),
    {
        let (at, found) = self.slot(table, key);
        let ghost want = Place { table, key: key@ };
        let ghost before = self.items@;
        proof {
            sorted_unique(before);
        }
        if found {
            let _gone = self.items.remove(at);
            proof {
                sorted_without(before, at as int);
            }
        } else {
            proof {
                self.slot_absent(at as int, want);
                assert(self@ =~= old(self)@.remove(want));
            }
        }
    }

    /// Takes all the rows of a table out.
    pub fn remove_table(&mut self, table: TableIdType)
        requires
            old(self).wf(),
        ensures
            final(self).wf(),
            final(self)@ == steps::outside(old(self)@, table),
    {
        let mut i: usize = 0;
        while i < self.items.len()
            invariant
                self.wf(),
                i <= self.items@.len(),
                forall|k: int| 0 <= k < i ==> (#[trigger] self.items@[k]).table != table,
                steps::outside(self@, table) == steps::outside(old(self)@, table),
            decreases self.items@.len() - i,
        {
            if self.items[i].table.0 == table.0 {
                let ghost before = self.items@;
                let ghost was = self@;
                let ghost want = before[i as int].place();
                let _gone = self.items.remove(i);
                proof {
                    sorted_unique(before);
                    assert(pairs(self.items@) =~= pairs(before).remove(i as int));
                    assoc::assoc_remove(pairs(before), i as int);
                    assert forall|a: int, b: int| 0 <= a < b < self.items@.len() implies
                        place_before(
                        (#[trigger] self.items@[a]).place(),
                        (#[trigger] self.items@[b]).place(),
                    ) by {
                        let a0 = if a < i {
                            a
                        } else {
                            a + 1
                        };
                        let b0 = if b < i {
                            b
                        } else {
                            b + 1
                        };
                        assert(place_before(before[a0].place(), before[b0].place()));
                    }
                    assert(steps::outside(was.remove(want), table) =~= steps::outside(was, table));
                }
            } else {
                i = i + 1;
            }
        }
        proof {
            sorted_unique(self.items@);
            assert forall|p: Place| self@.dom().contains(p) implies p.table != table by {
                let k = assoc::assoc_find(pairs(self.items@), p);
                assert(self.items@[k].table != table);
            }
            assert(steps::outside(self@, table) =~= self@);
        }
    }

    /// The same rows once more.
    pub fn copy(&self) -> (s: RowStore)
        requires
            self.wf(),
        ensures
            s.wf(),
            s@ == self@,
            pairs(s.items@) == pairs(self.items@),
    {
        let mut items: Vec<Item> = Vec::new();
        for i in 0..self.items.len()
            invariant
                items@.len() == i,
                forall|j: int|
                    0 <= j < i ==> (#[trigger] items@[j]).place() == self.items@[j].place()
                        && items@[j].tuple@ == self.items@[j].tuple@,
        {
            items.push(Item { table: self.items[i].table, tuple: self.items[i].tuple.clone() });
        }
        assert(pairs(items@) =~= pairs(self.items@));
        RowStore { items }
    }

    /// How many rows there are.
    pub fn len(&self) -> (n: usize)
        ensures
            n == self.items@.len(),
    {
        self.items.len()
    }
}

} // verus!
