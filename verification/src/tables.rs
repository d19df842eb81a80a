//! What can be relied on when tables and sequences come and go: which names are
//! refused, what a new table is like, what a dropped one leaves, and that no
//! number is handed out twice.
use vstd::prelude::*;
use vstd::string::*;

use crate::catalog;
use crate::checkpoint;
use crate::codec;
use crate::db;
use crate::db::Db;
use crate::error::Fault;
use crate::freelist;
use crate::mvcc;
use crate::mvcc::{Place, Viewer};
use crate::page::{PageId, Sheet};
use crate::schema;
use crate::steps;
use crate::table;
use crate::table::{Tab, TableIdType};
use crate::text;
use crate::tuple::Key;

verus! {

// ---------------------------------------------------------------------------
// Sequences
// ---------------------------------------------------------------------------

/// A sequence counts up by one: two values that it hands out one after the
/// other are neighbours, and so are two with only other sequences asked in
/// between.
pub proof fn values_count_up(
    a: Db,
    b: Db,
    c: Db,
    d: Db,
    name: Seq<char>,
    other: Seq<char>,
    v: u64,
    u: Result<u64, Fault>,
    w: u64,
)
    requires
        a.generator@[name].next < u64::MAX,
        schema::handed_out(a, b, name, Ok::<u64, Fault>(v)),
        schema::handed_out(b, c, other, u),
        schema::handed_out(c, d, name, Ok::<u64, Fault>(w)),
        name != other,
    ensures
        w == v + 1,
{
}

/// The first value of a sequence is the one that it was to start at, or 0.
pub proof fn first_value_is_the_start(
    a: Db,
    b: Db,
    c: Db,
    name: Seq<char>,
    start: Option<u64>,
    r: Result<u64, Fault>,
)
    requires
        schema::sequence_made(a, b, name, start, Ok::<(), Fault>(())),
        schema::handed_out(b, c, name, r),
    ensures
        match start {
            Some(s) => r == Ok::<u64, Fault>(s),
            None => r == Ok::<u64, Fault>(0),
        },
{
}

/// A sequence can be created exactly where there is none of its name, and asked
/// exactly where there is one; what is asked for in vain changes nothing.
pub proof fn sequences_are_known_by_name(
    a: Db,
    b: Db,
    c: Db,
    name: Seq<char>,
    start: Option<u64>,
    made: Result<(), Fault>,
    asked: Result<u64, Fault>,
)
    requires
        schema::sequence_made(a, b, name, start, made),
        schema::handed_out(a, c, name, asked),
    ensures
        made is Ok <==> asked is Err,
        made is Err ==> made == Err::<(), Fault>(Fault::DuplicateName(name)) && b == a,
        asked is Err ==> asked == Err::<u64, Fault>(Fault::MissingKey(name)) && c == a,
{
}

/// A sequence that was removed hands out nothing, and can be created again.
pub proof fn removed_sequence_is_gone(
    a: Db,
    b: Db,
    c: Db,
    d: Db,
    name: Seq<char>,
    start: Option<u64>,
    asked: Result<u64, Fault>,
    made: Result<(), Fault>,
)
    requires
        schema::sequence_gone(a, b, name, Ok::<(), Fault>(())),
        schema::handed_out(b, c, name, asked),
        schema::sequence_made(b, d, name, start, made),
    ensures
        asked == Err::<u64, Fault>(Fault::MissingKey(name)),
        made is Ok,
{
}

/// Whatever is done with one sequence, another hands out the same value as it
/// would have before; and no row, no transaction and no table changes.
pub proof fn sequences_do_not_meddle(
    a: Db,
    b: Db,
    c: Db,
    d: Db,
    name: Seq<char>,
    other: Seq<char>,
    start: Option<u64>,
    made: Result<(), Fault>,
    asked: Result<u64, Fault>,
    gone: Result<(), Fault>,
)
    requires
        name != other,
        schema::sequence_made(a, b, name, start, made),
        schema::handed_out(a, c, name, asked),
        schema::sequence_gone(a, d, name, gone),
    ensures
        forall|e: Db|
            e == b || e == c || e == d ==> {
                &&& #[trigger] e.generator@.dom().contains(other)
                    <==> a.generator@.dom().contains(other)
                &&& a.generator@.dom().contains(other) ==> e.generator@[other].next
                    == a.generator@[other].next
                &&& e.engine@.rows == a.engine@.rows
                &&& e.engine@.txns == a.engine@.txns
                &&& e.tables == a.tables
            },
{
}

/// The sequence that numbers the tables can be removed by nobody, and every
/// other sequence by anybody.
pub proof fn only_the_tables_numbers_are_reserved(
    before: Db,
    after: Db,
    name: Seq<char>,
    r: Result<(), Fault>,
)
    requires
        schema::sequence_gone(before, after, name, r),
    ensures
        r is Err <==> name == "__system.tables"@,
{
}

/// A value that nothing logged covers is preceded by one record, which covers
/// the thirty-two values from it on; the values that follow are handed out
/// without a record until those are used up.
pub proof fn one_record_covers_many_values(before: Db, after: Db, name: Seq<char>, v: u64)
    requires
        before.generator@[name].next <= u64::MAX - 32,
        before.generator.wf(),
        schema::handed_out(before, after, name, Ok::<u64, Fault>(v)),
    ensures
        v < after.generator@[name].high,
        before.generator@[name].high > v ==> after.queued() == before.queued()
            && after.generator@[name].high == before.generator@[name].high,
        before.generator@[name].high <= v ==> after.queued().len() == before.queued().len() + 1
            && after.generator@[name].high == v + 32,
{
}

// ---------------------------------------------------------------------------
// Tables
// ---------------------------------------------------------------------------

/// What a checkpoint leaves as it is: the tables, the rows, the transactions,
/// the pages and what every sequence hands out next.
proof fn checkpoint_keeps_tables(before: Db, after: Db, now: u128)
    requires
        checkpoint::checkpointed(before, after, now),
    ensures
        after.tables == before.tables,
        after.engine@ == before.engine@,
        after.space() == before.space(),
        forall|n: Seq<char>| #[trigger]
            after.generator@.dom().contains(n) <==> before.generator@.dom().contains(n),
        forall|n: Seq<char>| #[trigger]
            before.generator@.dom().contains(n) ==> after.generator@[n].next
                == before.generator@[n].next,
{
}

/// Which names a new table cannot have: one of more than 255 bytes, one that
/// begins like those of the system, and one that a table or a sequence has.
pub proof fn bad_names_are_refused(
    before: Db,
    after: Db,
    name: Seq<char>,
    size: u64,
    now: u128,
    r: Result<TableIdType, Fault>,
)
    requires
        before.wf(),
        schema::created(before, after, name, size, now, r),
        vstd::utf8::encode_utf8(name).len() <= usize::MAX,
    ensures
        ({
            let n = vstd::utf8::encode_utf8(name).len();
            &&& n > 255 ==> r == Err::<TableIdType, Fault>(Fault::TableNameInvalid(255, n as usize))
            &&& n <= 255 && text::starts_with(name, "__system."@) ==> r == Err::<
                TableIdType,
                Fault,
            >(Fault::ReservedTableName(name))
            &&& n <= 255 && !text::starts_with(name, "__system."@) && (schema::has_name(
                before.tables@,
                name,
            ) || before.generator@.dom().contains(name)) ==> r == Err::<TableIdType, Fault>(
                Fault::DuplicateName(name),
            )
            &&& n > 255 || text::starts_with(name, "__system."@) || schema::has_name(
                before.tables@,
                name,
            ) || before.generator@.dom().contains(name) ==> after == before
        }),
{
}

/// A table that was created is found under its name and its number, and under
/// no other; it gives its index entries the room that was asked for; nobody
/// reads a row in it; and its sequence begins at 0. Its number is one that no
/// table ever had.
#[verifier::rlimit(60)]
pub proof fn created_table_is_found_and_empty(
    before: Db,
    after: Db,
    name: Seq<char>,
    size: u64,
    now: u128,
    id: TableIdType,
    v: Viewer,
    key: Key,
)
    requires
        before.wf(),
        before.room(3),
        before.generator@[db::system_name()].next < u64::MAX,
        schema::created(before, after, name, size, now, Ok::<TableIdType, Fault>(id)),
    ensures
        !schema::has_name(before.tables@, name),
        before.engine@.next_table <= id.0,
        !before.engine@.live.contains(id),
        after.tables@.len() == before.tables@.len() + 1,
        forall|i: int|
            0 <= i < after.tables@.len() ==> ((#[trigger] after.tables@[i]).name@ == name
                <==> after.tables@[i].id == id),
        exists|i: int|
            0 <= i < after.tables@.len() && (#[trigger] after.tables@[i]).name@ == name
                && after.tables@[i].id == id && after.tables@[i].index_entry_size == size,
        after.engine@.live == before.engine@.live.insert(id),
        after.engine@.read(v, Place { table: id, key }) is None,
        after.generator@.dom().contains(name) && after.generator@[name].next == 0,
{
    let mid = creation(before, after, name, size, now, id);
    checkpoint_keeps_tables(mid, after, now);
    let n = before.tables@.len() as int;
    let was = table::tabs(before.tables@);
    let tabs = table::tabs(mid.tables@);
    assert(was.len() == n);
    assert(tabs.len() == mid.tables@.len());
    assert(tabs[n] == mid.tables@[n]@);
    let p = Place { table: id, key };
    assert(!before.engine@.live.contains(id));
    if before.engine@.rows.dom().contains(p) {
        assert(mvcc::row_ok(before.engine@, p, before.engine@.rows[p]));
    }
    assert forall|i: int| 0 <= i < mid.tables@.len() implies ((#[trigger] mid.tables@[i]).name@
        == name <==> mid.tables@[i].id == id) by {
        if i < n {
            assert(tabs[i] == mid.tables@[i]@);
            assert(was[i] == before.tables@[i]@);
            assert(before.tables@[i].name@ != name);
            assert(before.engine@.live.contains(before.tables@[i].id));
        }
    }
    assert(mid.tables@[n].name@ == name);
    assert(name != db::system_name()) by {
        reveal_strlit("__system.");
        reveal_strlit("__system.tables");
        assert("__system.tables"@.take(9) =~= "__system."@);
    }
    assert(mid.generator@.dom().contains(name));
}

/// The state in which a created table is saved.
proof fn creation(before: Db, after: Db, name: Seq<char>, size: u64, now: u128, id: TableIdType) -> (mid:
    Db)
    requires
        schema::created(before, after, name, size, now, Ok::<TableIdType, Fault>(id)),
    ensures
        schema::creation_fault(before, name) is None,
        schema::built(before, mid, name, size),
        mid.wf(),
        id.0 == before.generator@[db::system_name()].next,
        checkpoint::checkpointed(mid, after, now),
{
    choose|mid: Db|
        {
            &&& #[trigger] schema::built(before, mid, name, size)
            &&& mid.wf()
            &&& id.0 == before.generator@[db::system_name()].next && checkpoint::checkpointed(
                mid,
                after,
                now,
            )
        }
}

/// A creation changes nothing else: every other table stays in its place in the
/// list with its pages, every viewer reads in it what it read before, every
/// transaction goes on, and every other sequence but the one that numbers the
/// tables hands out the same value next.
#[verifier::rlimit(60)]
pub proof fn creation_leaves_the_rest(
    before: Db,
    after: Db,
    name: Seq<char>,
    size: u64,
    now: u128,
    id: TableIdType,
    v: Viewer,
    p: Place,
    other: Seq<char>,
)
    requires
        before.wf(),
        before.room(3),
        before.generator@[db::system_name()].next < u64::MAX,
        schema::created(before, after, name, size, now, Ok::<TableIdType, Fault>(id)),
    ensures
        table::tabs(after.tables@).take(before.tables@.len() as int) == table::tabs(before.tables@),
        after.engine@.read(v, p) == before.engine@.read(v, p),
        after.engine@.txns == before.engine@.txns,
        before.generator@.dom().contains(other) && other != "__system.tables"@
            ==> after.generator@.dom().contains(other) && after.generator@[other].next
            == before.generator@[other].next,
        after.last_checkpoint == now,
{
    let mid = creation(before, after, name, size, now, id);
    checkpoint_keeps_tables(mid, after, now);
    let was = table::tabs(before.tables@);
    assert(table::tabs(mid.tables@) == was.push(table::tabs(mid.tables@).last()));
    assert(table::tabs(mid.tables@).take(before.tables@.len() as int) =~= was);
    assert(mid.engine@.look(v, p) == before.engine@.look(v, p));
}

/// A new table takes two pages that nothing uses. Pages that are free are used
/// before the file grows, and those that were dropped last first.
pub proof fn new_table_reuses_free_pages(
    before: Db,
    after: Db,
    name: Seq<char>,
    size: u64,
    now: u128,
    id: TableIdType,
)
    requires
        before.wf(),
        before.page_count <= u64::MAX - 2,
        schema::created(before, after, name, size, now, Ok::<TableIdType, Fault>(id)),
    ensures
        ({
            let t = table::tabs(after.tables@).last();
            let free = before.free_pages@;
            &&& free.len() >= 2 ==> {
                &&& after.page_count == before.page_count
                &&& after.free_pages@ == free.take(free.len() - 2)
                &&& t.first_index_page == free[free.len() - 1]
                &&& t.first_data_page == free[free.len() - 2]
            }
            &&& free.len() == 1 ==> {
                &&& after.page_count == before.page_count + 1
                &&& after.free_pages@.len() == 0
                &&& t.first_index_page == free[0]
                &&& t.first_data_page.0 == before.page_count
            }
            &&& free.len() == 0 ==> {
                &&& after.page_count == before.page_count + 2
                &&& after.free_pages@.len() == 0
                &&& t.first_index_page.0 == before.page_count
                &&& t.first_data_page.0 == before.page_count + 1
            }
        }),
{
    let mid = creation(before, after, name, size, now, id);
    checkpoint_keeps_tables(mid, after, now);
    let free = before.free_pages@;
    assert(after.free_pages@ == after.space().free);
    assert(after.page_count == after.space().count);
    if free.len() >= 2 {
        assert(free.drop_last().drop_last() =~= free.take(free.len() - 2));
    }
}

/// A table can be dropped exactly where there is one of that name, as long as
/// the others fit the catalog. Once it is dropped neither its name nor its
/// number is known, its sequence is gone and nobody reads a row in it.
#[verifier::rlimit(60)]
pub proof fn dropped_table_is_gone(
    before: Db,
    after: Db,
    name: Seq<char>,
    now: u128,
    i: int,
    v: Viewer,
    p: Place,
)
    requires
        before.wf(),
        0 <= i < before.tables@.len(),
        before.tables@[i].name@ == name,
        schema::dropped(before, after, name, now, Ok::<(), Fault>(())),
    ensures
        !schema::has_name(after.tables@, name),
        table::tabs(after.tables@) == table::tabs(before.tables@).remove(i),
        after.engine@.live == before.engine@.live.remove(before.tables@[i].id),
        after.engine@.txns == before.engine@.txns,
        after.engine@.read(v, p) == if p.table == before.tables@[i].id {
            None
        } else {
            before.engine@.read(v, p)
        },
        !after.generator@.dom().contains(name),
        forall|n: Seq<char>|
            n != name ==> (#[trigger] after.generator@.dom().contains(n)
                <==> before.generator@.dom().contains(n)),
        forall|n: Seq<char>|
            n != name && #[trigger] before.generator@.dom().contains(n) ==> after.generator@[n].next
                == before.generator@[n].next,
        after.page_count == before.page_count,
        after.free_pages@.len() > before.free_pages@.len(),
        after.free_pages@.take(before.free_pages@.len() as int) == before.free_pages@,
        after.free_pages@.contains(before.tables@[i].first_index_page),
        after.free_pages@.contains(before.tables@[i].first_data_page),
        after.last_checkpoint == now,
{
    let mid = dropping(before, after, name, now, i);
    checkpoint_keeps_tables(mid, after, now);
    let t = before.tables@[i]@;
    assert(schema::has_name(before.tables@, name));
    steps::without_table_keeps(before.engine@, t.id);
    let gone = before.engine@.without_table(t.id);
    assert(mid.engine@.look(v, p) == gone.look(v, p));
    if p.table == t.id {
        assert(gone.look(v, p) == mvcc::Sight::NoAncestor);
    } else {
        assert(gone.look(v, p) == before.engine@.look(v, p));
    }
    assert(table::tabs(mid.tables@) =~= table::tabs(before.tables@).remove(i));
    assert forall|k: int| 0 <= k < mid.tables@.len() implies (#[trigger] mid.tables@[k]).name@
        != name by {
        if k < i {
            assert(mid.tables@[k] == before.tables@[k]);
        } else {
            assert(mid.tables@[k] == before.tables@[k + 1]);
        }
    }
    let ps = seq![t.first_index_page] + freelist::chain(
        before.links@,
        t.first_data_page.0,
        before.links@.len(),
    );
    freed_pages(before.space(), ps);
    assert(after.free_pages@ == after.space().free);
    assert(after.free_pages@ == before.free_pages@ + ps);
    assert(after.free_pages@.take(before.free_pages@.len() as int) =~= before.free_pages@);
    assert(after.free_pages@[before.free_pages@.len() as int] == ps[0]);
    assert(ps[1] == t.first_data_page);
    assert(after.free_pages@[before.free_pages@.len() as int + 1] == ps[1]);
}

/// Freeing pages puts them behind those that are free, in order.
proof fn freed_pages(s: schema::Space, ps: Seq<PageId>)
    ensures
        s.freed_all(ps).free == s.free + ps,
        s.freed_all(ps).count == s.count,
    decreases ps.len(),
{
    if ps.len() > 0 {
        freed_pages(s, ps.drop_last());
        assert(s.free + ps.drop_last().push(ps.last()) =~= (s.free + ps.drop_last()).push(
            ps.last(),
        ));
        assert(ps.drop_last().push(ps.last()) =~= ps);
    } else {
        assert(s.free + ps =~= s.free);
    }
}

/// The state in which the tables without a dropped one are saved.
proof fn dropping(before: Db, after: Db, name: Seq<char>, now: u128, i: int) -> (mid: Db)
    requires
        db::tables_apart(before.tables@),
        0 <= i < before.tables@.len(),
        before.tables@[i].name@ == name,
        schema::dropped(before, after, name, now, Ok::<(), Fault>(())),
    ensures
        schema::taken_apart(before, mid, i),
        mid.wf(),
        checkpoint::checkpointed(mid, after, now),
{
    assert(schema::has_name(before.tables@, name));
    let (mid, j) = choose|mid: Db, j: int|
        {
            &&& 0 <= j < before.tables@.len() && before.tables@[j].name@ == name
            &&& #[trigger] schema::taken_apart(before, mid, j)
            &&& mid.wf()
            &&& checkpoint::checkpointed(mid, after, now)
        };
    if i < j {
        assert(before.tables@[i].name@ != before.tables@[j].name@);
    }
    if j < i {
        assert(before.tables@[j].name@ != before.tables@[i].name@);
    }
    mid
}

/// Dropping a table that does not exist changes nothing, and says so.
pub proof fn unknown_table_is_not_dropped(
    before: Db,
    after: Db,
    name: Seq<char>,
    now: u128,
    r: Result<(), Fault>,
)
    requires
        schema::dropped(before, after, name, now, r),
        forall|i: int| 0 <= i < before.tables@.len() ==> (#[trigger] before.tables@[i]).name@ != name,
    ensures
        r == Err::<(), Fault>(Fault::TableNotFound(name)),
        after == before,
{
}

/// Every other name is accepted: one of up to 255 bytes that does not begin
/// like those of the system, and that neither a table nor a sequence has. Only
/// where the catalog has no space for it is the table refused.
pub proof fn good_names_are_accepted(
    before: Db,
    after: Db,
    name: Seq<char>,
    size: u64,
    now: u128,
    r: Result<TableIdType, Fault>,
)
    requires
        before.wf(),
        vstd::utf8::encode_utf8(name).len() <= 255,
        !text::starts_with(name, "__system."@),
        !before.generator@.dom().contains(name),
        forall|i: int| 0 <= i < before.tables@.len() ==> (#[trigger] before.tables@[i]).name@ != name,
        before.tables@.len() < u64::MAX,
        schema::created(before, after, name, size, now, r),
    ensures
        r is Ok || r == Err::<TableIdType, Fault>(Fault::PageCapacity),
{
    if let Err(f) = r {
        let mid = choose|mid: Db|
            {
                &&& #[trigger] schema::built(before, mid, name, size)
                &&& mid.wf()
                &&& checkpoint::catalog_of(mid) == Err::<Sheet, Fault>(f) && schema::unbuilt(
                    before,
                    mid,
                    after,
                )
            };
        assert(table::tabs(mid.tables@).len() == table::tabs(before.tables@).len() + 1);
        assert(table::tabs(before.tables@).len() == before.tables@.len());
        catalog::only_space_is_short(table::tabs(mid.tables@), mid.header.page_size);
    }
}

/// A table that was created with the usual room takes every number as a key,
/// and byte strings of up to 48 bytes; byte strings of more than 57 bytes it
/// never takes.
pub proof fn usual_tables_take_short_keys(t: Tab, n: u64, b: Seq<u8>)
    requires
        t.index_entry_size == schema::MAX_ENTRY_BYTES,
        t.index_entry_size <= usize::MAX,
    ensures
        table::entry_fault(t, Key::Int(n)) is None,
        b.len() <= 48 ==> table::entry_fault(t, Key::Bytes(b)) is None,
        b.len() > 57 ==> table::entry_fault(t, Key::Bytes(b)) is Some,
{
    codec::varint_limits();
    codec::varint_len(t.first_data_page.0 as nat, 10, 1);
    codec::varint_len(n as nat, 10, 1);
    table::index_has_room_for_the_key(t, Key::Int(n));
    table::index_has_room_for_the_key(t, Key::Bytes(b));
    assert(codec::varint(0).len() == 1);
    assert(codec::varint(1).len() == 1);
    if b.len() < 128 {
        assert(codec::varint(b.len()).len() == 1);
    }
}

} // verus!
