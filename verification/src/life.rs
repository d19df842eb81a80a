//! The life of a database. Whatever is called, the database is at any time as
//! a number of events left it, its log holds what they logged, and its data
//! file holds what the last save among them put there.
use vstd::prelude::*;

use crate::assoc;
use crate::catalog;
use crate::checkpoint;
use crate::clock::LsnId;
use crate::crash;
use crate::db;
use crate::db::{DataFile, Db, Durability};
use crate::durable;
use crate::ending;
use crate::engine;
use crate::engine::Engine;
use crate::error::Fault;
use crate::framing;
use crate::freelist;
use crate::generator;
use crate::generator::Marks;
use crate::header;
use crate::header::Header;
use crate::history;
use crate::history::{Event, State};
use crate::maintenance::MaintenanceStats;
use crate::memfile;
use crate::memfile::{Disk, Namespace};
use crate::mvcc;
use crate::mvcc::{Core, Grave, Place, Viewer};
use crate::opening;
use crate::operation::{Entry, Op};
use crate::page;
use crate::page::PageId;
use crate::promise;
use crate::recovery;
use crate::schema;
use crate::segment;
use crate::steps;
use crate::table;
use crate::table::{Tab, TableIdType};
use crate::tuple::{Key, Row};
use crate::txn::{ConflictPolicy, TransactionId};
use crate::upkeep;
use crate::version;
use crate::wal;

verus! {

// ---------------------------------------------------------------------------
// Events
// ---------------------------------------------------------------------------

/// What has happened to a database since it was fresh.
#[verifier::ext_equal]
pub struct Life {
    pub first: State,
    pub evs: Seq<Event>,
}

impl Life {
    /// Could all of that happen?
    pub open spec fn ok(self) -> bool {
        &&& history::fresh(self.first)
        &&& 1 <= self.first.core.counter <= u64::MAX
        &&& history::possible(self.first, self.evs)
    }

    /// The state after the first `k` events.
    pub open spec fn at(self, k: int) -> State {
        history::run(self.first, self.evs.take(k))
    }

    /// The state now.
    pub open spec fn now(self) -> State {
        history::run(self.first, self.evs)
    }

    /// Once one more event has happened.
    pub open spec fn plus(self, ev: Event) -> Life {
        Life { evs: self.evs.push(ev), ..self }
    }

    /// Is this the other life with more behind it, none of which saves
    /// anything?
    pub open spec fn goes_on_from(self, l: Life) -> bool {
        &&& self.first == l.first
        &&& l.evs.len() <= self.evs.len()
        &&& self.evs.take(l.evs.len() as int) == l.evs
        &&& self.unsaved_since(l.evs.len() as int)
    }

    /// Is this the other life with more behind it?
    pub open spec fn grew_from(self, l: Life) -> bool {
        &&& self.first == l.first
        &&& l.evs.len() <= self.evs.len()
        &&& self.evs.take(l.evs.len() as int) == l.evs
    }

    /// Was nothing saved since the first `k` events?
    pub open spec fn unsaved_since(self, k: int) -> bool {
        forall|j: int|
            k <= j < self.evs.len() ==> !history::saves(#[trigger] self.evs[j])
                && !(self.evs[j] is Crash)
    }
}

/// What an event leaves in the log, if anything.
pub open spec fn entry_of(s: State, ev: Event) -> Seq<Entry> {
    match history::logged(ev, LsnId(s.core.counter as u64)) {
        Some(e) => seq![e],
        None => seq![],
    }
}

/// Has a life led to this state, and to this log as far as it is needed?
pub open spec fn leads_to(l: Life, c: Core, log: Seq<Entry>) -> bool {
    &&& l.ok()
    &&& l.now().core == c
    &&& recovery::above(l.now().log, l.now().floor) == recovery::above(log, l.now().floor)
}

/// A life goes on from itself.
proof fn goes_on_at_first(l: Life)
    ensures
        l.goes_on_from(l),
{
    assert(l.evs.take(l.evs.len() as int) =~= l.evs);
}

/// What goes on from what goes on goes on.
proof fn goes_on_further(a: Life, b: Life, c: Life)
    requires
        b.goes_on_from(a),
        c.goes_on_from(b),
    ensures
        c.goes_on_from(a),
{
    let n = a.evs.len() as int;
    assert(c.evs.take(n) =~= a.evs) by {
        assert forall|j: int| 0 <= j < n implies c.evs[j] == a.evs[j] by {
            assert(b.evs.take(n)[j] == a.evs[j]);
            assert(c.evs.take(b.evs.len() as int)[j] == b.evs[j]);
        }
    }
    assert forall|j: int| n <= j < c.evs.len() implies !history::saves(#[trigger] c.evs[j]) && !(
    c.evs[j] is Crash) by {
        if j < b.evs.len() {
            assert(c.evs.take(b.evs.len() as int)[j] == b.evs[j]);
            assert(!history::saves(b.evs[j]));
        }
    }
}

/// One more event that saves nothing.
proof fn one_more(l: Life, c: Core, log: Seq<Entry>, ev: Event) -> (m: Life)
    requires
        leads_to(l, c, log),
        history::allowed(l.now(), ev),
        !history::saves(ev),
        !(ev is Crash),
    ensures
        m == l.plus(ev),
        m.goes_on_from(l),
        leads_to(m, history::core_after(l.now(), ev), log + entry_of(l.now(), ev)),
        m.now() == history::next(l.now(), ev),
{
    let m = l.plus(ev);
    let s = l.now();
    assert(m.evs.drop_last() =~= l.evs);
    assert(m.evs.take(l.evs.len() as int) =~= l.evs);
    crash::promises_are_always_kept(l.first, l.evs);
    match history::logged(ev, LsnId(s.core.counter as u64)) {
        Some(e) => {
            recovery::above_push(s.log, e, s.floor);
            recovery::above_push(log, e, s.floor);
            assert(log + seq![e] =~= log.push(e));
        },
        None => {
            assert(log + Seq::<Entry>::empty() =~= log);
        },
    }
    m
}

/// The data file, the floor and the tables stay as they are while nothing is
/// saved.
proof fn unsaved(l: Life, k: int)
    requires
        l.ok(),
        0 <= k <= l.evs.len(),
        l.unsaved_since(k),
    ensures
        l.at(k).disk == l.now().disk,
        l.at(k).held.subset_of(l.now().held),
        l.at(k).floor == l.now().floor,
        l.at(k).core.live == l.now().core.live,
    decreases l.evs.len() - k,
{
    if k == l.evs.len() {
        assert(l.evs.take(k) =~= l.evs);
    } else {
        unsaved(l, k + 1);
        assert(l.evs.take(k + 1).drop_last() =~= l.evs.take(k));
        assert(!history::saves(l.evs[k]));
        assert(l.evs.take(k + 1).last() == l.evs[k]);
    }
}

// ---------------------------------------------------------------------------
// The database
// ---------------------------------------------------------------------------

/// Was the database ever saved to the data file? Before that there is a header,
/// but the system's pages are missing.
pub open spec fn was_saved(data: DataFile) -> bool {
    data.header@.len() >= header::HEADER_SIZE && (header::decoded(
        data.header@.take(header::HEADER_SIZE as int),
    ) matches Ok(h) && h.page_count >= opening::FIRST_USER_PAGE)
}

/// Does the data file hold what was last saved, and can it be opened?
pub open spec fn file_says(data: DataFile, s: State, page_size: u64) -> bool {
    &&& data.rows@ == s.disk
    &&& data.header@.len() >= header::HEADER_SIZE
    &&& header::decoded(data.header@.take(header::HEADER_SIZE as int)) matches Ok(h)
        && h.checkpoint_lsn == s.floor && h.page_size == page_size && (catalog::loaded(
        data.system,
    ) matches Ok(found) && can_be_opened(data, h, found.0, found.2) && opening::ids_of(found.0)
        == s.core.live)
}

/// Do the header, the tables and the pages of a data file fit each other?
pub open spec fn can_be_opened(data: DataFile, h: Header, ts: Seq<Tab>, free: Seq<PageId>) -> bool {
    &&& opening::tabs_sound(ts)
    &&& h.page_count == data.links@.len()
    &&& db::pages_sound(ts, free, data.links@)
    &&& pages_once(ts, free, data.links@)
}

/// Is every page in use once or free once, these being the tables?
#[verifier::opaque]
pub open spec fn pages_once(ts: Seq<Tab>, free: Seq<PageId>, links: Seq<u64>) -> bool {
    db::pages_apart(opening::starts_of(ts), free, links)
}

/// Where the clock starts again.
pub open spec fn restart(h: Header, es: Seq<Entry>) -> nat {
    recovery::clock_after(opening::seeded(h) as nat, es)
}

/// Would opening the data file with these records start the clock at this
/// number, and number tables at or above this one?
pub open spec fn starts_at(data: DataFile, es: Seq<Entry>, counter: nat, next_table: u64) -> bool {
    &&& header::decoded(data.header@.take(header::HEADER_SIZE as int)) matches Ok(h) && counter
        == restart(h, es)
    &&& catalog::loaded(data.system) matches Ok(found) && {
        let m = opening::marks_after(found.1, es);
        m.dom().contains(db::system_name()) && next_table <= m[db::system_name()].next
    }
}

/// Did the log hold exactly these records after the first `k` events, as far
/// as they are needed, and was nothing saved since? Then opening the data file
/// goes on from there.
pub open spec fn durable_at(data: DataFile, l: Life, k: int, parts: Seq<Seq<Entry>>) -> bool {
    let es = recovery::above(wal::joined(parts), l.now().floor);
    &&& 0 <= k <= l.evs.len()
    &&& l.unsaved_since(k)
    &&& recovery::above(l.at(k).log, l.now().floor) == es
    &&& starts_at(data, es, l.at(k).core.counter, l.at(k).core.next_table)
}

/// Does the operation drop the sequence that numbers the tables?
pub open spec fn drops_numbers(op: Op) -> bool {
    op matches Op::Sequence { name, dropped, .. } && dropped && name == db::system_name()
}

/// Does none of the records drop the sequence that numbers the tables?
#[verifier::opaque]
pub open spec fn keeps_numbers(es: Seq<Entry>) -> bool {
    promise::never_drops(recovery::entry_ops(es), db::system_name())
}

/// Can all of the records be logged? Each has to fit a frame, and none drops
/// the sequence that numbers the tables.
pub open spec fn can_log(es: Seq<Entry>) -> bool {
    forall|k: int|
        0 <= k < es.len() ==> framing::entry_fits(#[trigger] es[k]) && !drops_numbers(es[k].op)
}

/// Have the transactions of all of the deletion marks committed?
pub open spec fn marks_of_done(s: State, gs: Seq<Grave>) -> bool {
    forall|i: int| 0 <= i < gs.len() ==> s.done.contains((#[trigger] gs[i]).txn.0)
}

/// Is every page of the database in use once or free once?
pub open spec fn apart(db: Db) -> bool {
    pages_once(table::tabs(db.tables@), db.free_pages@, db.links@)
}

/// Is the database as this life left it, with these records durable? Unless it
/// was never saved, its data file holds what was last saved, and there was a
/// moment since when the log was what is durable now.
pub open spec fn told(db: Db, l: Life, parts: Seq<Seq<Entry>>) -> bool {
    &&& leads_to(l, db.engine@, wal::joined(parts) + db.queued())
    &&& promise::log_holds(db, parts)
    &&& can_log(db.queued())
    &&& keeps_numbers(recovery::above(wal::joined(parts), l.now().floor))
    &&& marks_of_done(l.now(), db.graves())
    &&& apart(db)
    &&& was_saved(db.data) ==> file_says(db.data, l.now(), db.header.page_size)
        && exists|k: int| #[trigger] durable_at(db.data, l, k, parts)
}

// ---------------------------------------------------------------------------
// The clock
// ---------------------------------------------------------------------------

/// The largest number in a record is its own.
proof fn tops(first: State, evs: Seq<Event>)
    requires
        history::fresh(first),
        first.core.counter <= u64::MAX,
        history::possible(first, evs),
    ensures
        ({
            let log = history::run(first, evs).log;
            forall|i: int|
                0 <= i < log.len() ==> recovery::entry_top(#[trigger] log[i]) == log[i].lsn.0
        }),
    decreases evs.len(),
{
    if evs.len() > 0 {
        let front = evs.drop_last();
        tops(first, front);
        crash::promises_are_always_kept(first, front);
        match history::logged(evs.last(), LsnId(history::run(first, front).core.counter as u64)) {
            Some(e) => {
                assert(recovery::entry_top(e) == e.lsn.0);
            },
            None => {},
        }
    }
}

/// The largest number in the records at or above a floor is that of the last
/// record, if that is one of them.
proof fn top_above(log: Seq<Entry>, floor: u64)
    requires
        mvcc::ascending(log),
        forall|i: int| 0 <= i < log.len() ==> recovery::entry_top(#[trigger] log[i]) == log[i].lsn.0,
    ensures
        recovery::log_top(recovery::above(log, floor)) matches Some(m) ==> log.len() > 0 && m
            <= log.last().lsn.0,
        log.len() > 0 && log.last().lsn.0 >= floor ==> recovery::log_top(
            recovery::above(log, floor),
        ) == Some(log.last().lsn.0 as nat),
    decreases log.len(),
{
    if log.len() > 0 {
        let front = log.drop_last();
        assert forall|i: int| 0 <= i < front.len() implies recovery::entry_top(#[trigger] front[i])
            == front[i].lsn.0 by {
            assert(front[i] == log[i]);
        }
        top_above(front, floor);
        assert(recovery::entry_top(log[log.len() - 1]) == log.last().lsn.0);
        if front.len() > 0 {
            assert(log[front.len() - 1].lsn.0 < log[log.len() - 1].lsn.0);
        }
        if log.last().lsn.0 >= floor {
            let es = recovery::above(front, floor);
            assert(es.push(log.last()).drop_last() =~= es);
        }
    }
}

/// While nothing is saved, the clock does not go back and no table gets a
/// number.
proof fn clock_since(l: Life, k: int, j: int)
    requires
        l.ok(),
        0 <= k <= j <= l.evs.len(),
        l.unsaved_since(k),
    ensures
        l.at(k).core.counter <= l.at(j).core.counter,
        l.at(k).core.next_table == l.at(j).core.next_table,
    decreases j - k,
{
    if k < j {
        clock_since(l, k, j - 1);
        assert(l.evs.take(j).drop_last() =~= l.evs.take(j - 1));
        assert(!history::saves(l.evs[j - 1]));
        assert(l.evs.take(j).last() == l.evs[j - 1]);
    }
}

/// Does the event leave something in the log?
pub open spec fn logs(ev: Event) -> bool {
    ev is Write || ev is Commit || ev is FinishAbort || ev is Purge || ev is Mark
}

/// The event that left the last record.
proof fn last_logged(l: Life, k: int, n: int) -> (j: int)
    requires
        l.ok(),
        0 <= k <= n <= l.evs.len(),
        l.at(n).log == l.now().log,
        l.at(k).log != l.now().log,
    ensures
        k < j <= n,
        logs(l.evs[j - 1]),
        l.at(j).log == l.now().log,
    decreases n - k,
{
    if logs(l.evs[n - 1]) {
        n
    } else {
        assert(l.evs.take(n).drop_last() =~= l.evs.take(n - 1));
        assert(l.evs.take(n).last() == l.evs[n - 1]);
        last_logged(l, k, n - 1)
    }
}

/// Replay goes record by record.
proof fn replay_join(m: Map<Seq<char>, Marks>, a: Seq<Op>, b: Seq<Op>)
    ensures
        generator::replay_marks(m, a + b) == generator::replay_marks(
            generator::replay_marks(m, a),
            b,
        ),
    decreases b.len(),
{
    if b.len() == 0 {
        assert(a + b =~= a);
    } else {
        replay_join(m, a, b.drop_last());
        assert((a + b).drop_last() =~= a + b.drop_last());
    }
}

/// Once more records are durable, the last of which a given event left, opening
/// the data file goes on from there.
proof fn moves_up(
    data: DataFile,
    l: Life,
    k: int,
    j: int,
    some: Seq<Entry>,
    more: Seq<Entry>,
)
    requires
        l.ok(),
        0 <= k < j <= l.evs.len(),
        l.unsaved_since(k),
        starts_at(data, some, l.at(k).core.counter, l.at(k).core.next_table),
        logs(l.evs[j - 1]),
        recovery::above(l.at(j).log, l.now().floor) == some + more,
        keeps_numbers(more),
    ensures
        starts_at(data, some + more, l.at(j).core.counter, l.at(j).core.next_table),
{
    reveal(keeps_numbers);
    let name = db::system_name();
    let s = l.at(j - 1);
    let floor = l.now().floor;
    assert(l.evs.take(j).drop_last() =~= l.evs.take(j - 1));
    assert(l.evs.take(j).last() == l.evs[j - 1]);
    crash::possible_part(l.first, l.evs, j);
    crash::possible_part(l.first, l.evs, j - 1);
    crash::promises_are_always_kept(l.first, l.evs.take(j));
    crash::promises_are_always_kept(l.first, l.evs.take(j - 1));
    unsaved(l, j - 1);
    clock_since(l, k, j);
    let log = l.at(j).log;
    let e = log.last();
    assert(log =~= s.log.push(e) && e.lsn.0 == s.core.counter);
    assert(l.at(j).core.counter == s.core.counter + 1);
    tops(l.first, l.evs.take(j));
    top_above(log, floor);
    let found = catalog::loaded(data.system)->Ok_0;
    let base = generator::raised_all(Map::empty(), found.1);
    let a = recovery::entry_ops(some);
    let b = recovery::entry_ops(more);
    assert(recovery::entry_ops(some + more) =~= a + b);
    replay_join(base, a, b);
    promise::replay_reaches(generator::replay_marks(base, a), b, name);
}

/// Nothing drops a sequence that neither the one nor the other drops.
proof fn neither_drops(a: Seq<Entry>, b: Seq<Entry>)
    requires
        keeps_numbers(a),
        keeps_numbers(b),
    ensures
        keeps_numbers(a + b),
{
    reveal(keeps_numbers);
    let name = db::system_name();
    let all = recovery::entry_ops(a + b);
    assert forall|i: int| 0 <= i < all.len() implies !((
    #[trigger] all[i]) matches Op::Sequence { name: n, dropped, .. } && dropped && n == name) by {
        if i < a.len() {
            assert(all[i] == recovery::entry_ops(a)[i]);
        } else {
            assert(all[i] == recovery::entry_ops(b)[i - a.len()]);
        }
    }
}

/// Of records that can be logged, none drops the sequence that numbers the
/// tables.
proof fn logged_drops_nothing(es: Seq<Entry>, floor: u64)
    requires
        can_log(es),
    ensures
        keeps_numbers(recovery::above(es, floor)),
{
    reveal(keeps_numbers);
    let some = recovery::above(es, floor);
    let ops = recovery::entry_ops(some);
    crash::above_members(es, floor);
    assert forall|i: int| 0 <= i < ops.len() implies !((
    #[trigger] ops[i]) matches Op::Sequence { name: n, dropped, .. } && dropped && n
        == db::system_name()) by {
        assert(es.contains(some[i]));
        let k = choose|k: int| 0 <= k < es.len() && es[k] == some[i];
        assert(!drops_numbers(es[k].op));
    }
}

/// Does the one database have the files of the other, untouched?
pub open spec fn same_files(before: Db, after: Db) -> bool {
    &&& after.data == before.data
    &&& after.header == before.header
    &&& after.wal == before.wal
    &&& after.ns == before.ns
}

/// A database that goes on without touching its files is told by the life that
/// goes on.
proof fn more_is_told(before: Db, after: Db, l: Life, m: Life, parts: Seq<Seq<Entry>>)
    requires
        told(before, l, parts),
        same_files(before, after),
        m.goes_on_from(l),
        leads_to(m, after.engine@, wal::joined(parts) + after.queued()),
        can_log(after.queued()),
        marks_of_done(m.now(), after.graves()),
        apart(after),
    ensures
        told(after, m, parts),
{
    let n = l.evs.len() as int;
    unsaved(m, n);
    assert(m.at(n) == l.now());
    if was_saved(after.data) {
        let k = choose|k: int| #[trigger] durable_at(before.data, l, k, parts);
        durable_later(after.data, l, m, k, parts);
    }
}

/// A moment when the log was durable stays one.
proof fn durable_later(data: DataFile, l: Life, m: Life, k: int, parts: Seq<Seq<Entry>>)
    requires
        durable_at(data, l, k, parts),
        m.goes_on_from(l),
        m.now().floor == l.now().floor,
    ensures
        durable_at(data, m, k, parts),
{
    let n = l.evs.len() as int;
    assert(m.evs.take(k) =~= l.evs.take(k)) by {
        assert forall|j: int| 0 <= j < k implies m.evs[j] == l.evs[j] by {
            assert(m.evs.take(n)[j] == l.evs[j]);
        }
    }
    assert forall|j: int| k <= j < m.evs.len() implies !history::saves(#[trigger] m.evs[j]) && !(
    m.evs[j] is Crash) by {
        if j < n {
            assert(m.evs.take(n)[j] == l.evs[j]);
            assert(!history::saves(l.evs[j]));
        }
    }
}

/// A database whose queue was written is told by the same life, with more
/// records durable.
proof fn synced_is_told(before: Db, after: Db, l: Life, parts: Seq<Seq<Entry>>)
    requires
        told(before, l, parts),
        after.engine@ == before.engine@,
        after.data == before.data,
        after.header == before.header,
        after.graves() == before.graves(),
        after.queued().len() == 0,
        after.wf(),
        apart(after),
        after.log() == wal::ran(before.log(), wal::record_msgs(before.queued()), 0),
    ensures
        told(after, l, promise::with_more(parts, before.queued())),
{
    let es = before.queued();
    let more = promise::with_more(parts, es);
    promise::written_is_held(before.log(), before.header.page_size, parts, es);
    assert(more.drop_last() =~= parts.drop_last());
    assert(wal::joined(more) =~= wal::joined(parts) + es);
    assert(wal::joined(more) + after.queued() =~= wal::joined(parts) + es);
    written_drops_nothing(l, parts, es);
    if was_saved(after.data) {
        let k = choose|k: int| #[trigger] durable_at(before.data, l, k, parts);
        written_moves_up(after.data, l, k, parts, es);
    }
}

/// Once the queue was written, nothing in the log drops the sequence that
/// numbers the tables.
proof fn written_drops_nothing(l: Life, parts: Seq<Seq<Entry>>, es: Seq<Entry>)
    requires
        keeps_numbers(recovery::above(wal::joined(parts), l.now().floor)),
        can_log(es),
        parts.len() > 0,
    ensures
        keeps_numbers(recovery::above(wal::joined(promise::with_more(parts, es)), l.now().floor)),
{
    let floor = l.now().floor;
    let more = promise::with_more(parts, es);
    assert(more.drop_last() =~= parts.drop_last());
    assert(wal::joined(more) =~= wal::joined(parts) + es);
    recovery::above_join(wal::joined(parts), es, floor);
    logged_drops_nothing(es, floor);
    neither_drops(
        recovery::above(wal::joined(parts), floor),
        recovery::above(es, floor),
    );
}

/// Once the queue was written, the log is what it is now.
proof fn written_moves_up(
    data: DataFile,
    l: Life,
    k: int,
    parts: Seq<Seq<Entry>>,
    es: Seq<Entry>,
)
    requires
        durable_at(data, l, k, parts),
        leads_to(l, l.now().core, wal::joined(parts) + es),
        can_log(es),
        parts.len() > 0,
    ensures
        exists|j: int| #[trigger] durable_at(data, l, j, promise::with_more(parts, es)),
{
    let more = promise::with_more(parts, es);
    let floor = l.now().floor;
    let some = recovery::above(wal::joined(parts), floor);
    let new = recovery::above(es, floor);
    let n = l.evs.len() as int;
    assert(l.evs.take(n) =~= l.evs);
    assert(more.drop_last() =~= parts.drop_last());
    assert(wal::joined(more) =~= wal::joined(parts) + es);
    recovery::above_join(wal::joined(parts), es, floor);
    logged_drops_nothing(es, floor);
    if new.len() == 0 {
        assert(some + new =~= some);
        assert(durable_at(data, l, k, more));
    } else {
        assert(some + new != some) by {
            assert((some + new).len() > some.len());
        }
        let j = last_logged(l, k, n);
        moves_up(data, l, k, j, some, new);
        assert(durable_at(data, l, j, more));
    }
}

/// A database is created where no segments of a log are.
pub proof fn birth_is_told(ns: Namespace, db: Db, header: Header, now: u128) -> (l: Life)
    requires
        ns.wf(),
        ending::all_durable(ns@),
        forall|x: (u64, Seq<char>)| !(#[trigger] segment::is_segment(ns@, db.name@, x)),
        db.wf(),
        header == opening::first_header(header.page_size, header.max_index_key_size, now),
        opening::brand_new(db, db.name@, header, now),
        db.wal@ == wal::opened_wal(ns@, db.name@, header.page_size, seq![], seq![]),
        db.ns@ == wal::opened_disk(ns@, db.name@, header.page_size, seq![]),
    ensures
        l.evs.len() == 0,
        told(db, l, seq![seq![]]),
{
    let first = State {
        core: db.engine@,
        done: Set::new(|x: u64| x < db.engine@.counter),
        log: seq![],
        disk: db.engine@.rows,
        held: history::only(db.engine@.rows),
        floor: db.engine@.counter as u64,
    };
    let l = Life { first, evs: seq![] };
    let none: Seq<(u64, Seq<char>)> = seq![];
    let no_parts: Seq<Seq<Entry>> = seq![];
    let parts: Seq<Seq<Entry>> = seq![seq![]];
    assert(segment::lists_segments(ns@, db.name@, none)) by {
        assert forall|x: (u64, Seq<char>)| #[trigger] none.contains(x) <==> segment::is_segment(
            ns@,
            db.name@,
            x,
        ) by {}
    }
    segment::one_listing(ns@, db.name@, none, segment::segments_of(ns@, db.name@));
    memfile::names_are_apart(ns);
    ns.count_fits();
    durable::opened_log_is_held(ns@, db.name@, header.page_size, none, no_parts);
    assert(apart(db)) by {
        reveal(pages_once);
    }
    assert(!was_saved(db.data)) by {
        promise::written_header_reads_back(header);
    }
    assert(no_parts.push(seq![]) =~= parts);
    assert(parts.drop_last() =~= no_parts);
    assert(wal::joined(no_parts) =~= seq![]);
    assert(parts.last() =~= seq![]);
    assert(wal::joined(parts) =~= seq![]);
    assert(wal::joined(parts) + db.queued() =~= seq![]);
    reveal(keeps_numbers);
    l
}

/// The queue is written, and all of it is durable.
pub proof fn sync_is_told(before: Db, after: Db, l: Life, parts: Seq<Seq<Entry>>)
    requires
        before.wf(),
        after.wf(),
        told(before, l, parts),
        after == (Db { engine: after.engine, ns: after.ns, wal: after.wal, ..before }),
        after.engine == (Engine {
            out: after.engine.out,
            clock: after.engine.clock,
            ..before.engine
        }),
        after.engine.clock.counter == before.engine.clock.counter,
        after.engine.out@.len() == 0,
        after.log() == wal::ran(before.log(), wal::record_msgs(before.queued()), 0),
    ensures
        told(after, l, promise::with_more(parts, before.queued())),
        after.queued().len() == 0,
{
    synced_is_told(before, after, l, parts);
}

/// A transaction begins.
pub proof fn begin_is_told(
    before: Db,
    after: Db,
    policy: ConflictPolicy,
    l: Life,
    parts: Seq<Seq<Entry>>,
) -> (m: Life)
    requires
        before.wf(),
        told(before, l, parts),
        before.room(1),
        after == (Db { engine: after.engine, ..before }),
        after.engine@ == before.engine@.begun(policy),
        after.engine.out == before.engine.out,
        after.graves() == before.graves(),
    ensures
        m.goes_on_from(l),
        told(after, m, parts),
{
    let log = wal::joined(parts) + before.queued();
    let m = one_more(l, before.engine@, log, Event::Begin(policy));
    assert(log + Seq::<Entry>::empty() =~= log);
    more_is_told(before, after, l, m, parts);
    m
}

/// A transaction is rolled back, or the abort is begun.
pub proof fn rollback_is_told(
    before: Db,
    after: Db,
    x: u64,
    failed: Option<Fault>,
    l: Life,
    parts: Seq<Seq<Entry>>,
) -> (m: Life)
    requires
        before.wf(),
        told(before, l, parts),
        before.room(1),
        db::rolled_back(before, after, x, failed),
    ensures
        m.goes_on_from(l),
        told(after, m, parts),
{
    let log = wal::joined(parts) + before.queued();
    goes_on_at_first(l);
    assert(log + Seq::<Entry>::empty() =~= log);
    if !before.engine@.txns.active.dom().contains(x) {
        more_is_told(before, after, l, l, parts);
        l
    } else {
        let a = one_more(l, before.engine@, log, Event::StartAbort(x));
        if before.fail_reverts {
            assert(after.graves() == before.graves());
            more_is_told(before, after, l, a, parts);
            a
        } else {
            let b = one_more(a, before.engine@.aborting_now(x), log, Event::FinishAbort(x));
            goes_on_further(l, a, b);
            let e = Entry {
                lsn: LsnId(before.engine.clock.counter),
                op: Op::Rollback(TransactionId(x)),
            };
            assert(log + seq![e] =~= wal::joined(parts) + after.queued());
            promise::end_fits(e.lsn, x);
            more_is_told(before, after, l, b, parts);
            b
        }
    }
}

/// The deletion marks that a commit leaves are of a transaction that has
/// committed.
proof fn commit_marks(c: Core, s: State, gs: Seq<Grave>, x: u64, ts: u64)
    requires
        marks_of_done(s, gs),
        s.done.contains(x),
    ensures
        marks_of_done(s, gs + version::graves_of(mvcc::ops_of(c.records, x), ts)),
{
    let ops = mvcc::ops_of(c.records, x);
    mvcc::ops_of_members(c.records, x);
    version::graves_of_one(ops, x, ts);
    let all = gs + version::graves_of(ops, ts);
    assert forall|i: int| 0 <= i < all.len() implies s.done.contains(
        (#[trigger] all[i]).txn.0,
    ) by {
        if i < gs.len() {
            assert(all[i] == gs[i]);
        } else {
            assert(all[i] == version::graves_of(ops, ts)[i - gs.len()]);
        }
    }
}

/// A transaction commits, or the commit is refused. Where the commit waits, its
/// record and all before it are durable.
#[verifier::rlimit(60)]
#[verifier::spinoff_prover]
pub proof fn commit_is_told(
    before: Db,
    after: Db,
    x: u64,
    durability: Durability,
    failed: Option<Fault>,
    l: Life,
    parts: Seq<Seq<Entry>>,
) -> (r: (Life, Seq<Seq<Entry>>))
    requires
        before.wf(),
        after.wf(),
        told(before, l, parts),
        before.room(1),
        db::committed(before, after, x, durability, failed),
    ensures
        r.0.goes_on_from(l),
        told(after, r.0, r.1),
{
    let log = wal::joined(parts) + before.queued();
    goes_on_at_first(l);
    if before.degraded is Some || !before.engine@.txns.active.dom().contains(x) {
        more_is_told(before, after, l, l, parts);
        (l, parts)
    } else {
        let m = one_more(l, before.engine@, log, Event::Commit(x));
        let e = Entry { lsn: LsnId(before.engine.clock.counter), op: Op::Commit(TransactionId(x)) };
        let queue = before.queued().push(e);
        promise::end_fits(e.lsn, x);
        assert(marks_of_done(m.now(), before.graves())) by {
            assert forall|i: int| 0 <= i < before.graves().len() implies m.now().done.contains(
                (#[trigger] before.graves()[i]).txn.0,
            ) by {
                assert(l.now().done.contains(before.graves()[i].txn.0));
            }
        }
        commit_marks(
            before.engine@,
            m.now(),
            before.graves(),
            x,
            before.engine.clock.counter,
        );
        assert(log + seq![e] =~= wal::joined(parts) + queue);
        match durability {
            Durability::Async => {
                more_is_told(before, after, l, m, parts);
                (m, parts)
            },
            Durability::Sync => {
                let more = promise::with_more(parts, queue);
                promise::written_is_held(before.log(), before.header.page_size, parts, queue);
                assert(more.drop_last() =~= parts.drop_last());
                assert(wal::joined(more) =~= wal::joined(parts) + queue);
                assert(wal::joined(more) + after.queued() =~= wal::joined(parts) + queue);
                unsaved(m, l.evs.len() as int);
                assert(m.at(l.evs.len() as int) == l.now());
                written_drops_nothing(m, parts, queue);
                if was_saved(after.data) {
                    let k = choose|k: int| #[trigger] durable_at(before.data, l, k, parts);
                    durable_later(before.data, l, m, k, parts);
                    written_moves_up(after.data, m, k, parts, queue);
                }
                (m, more)
            },
        }
    }
}

/// A row is written, or the write is refused, and may take the transaction
/// down.
#[verifier::rlimit(60)]
#[verifier::spinoff_prover]
pub proof fn write_is_told(
    before: Db,
    after: Db,
    table: TableIdType,
    x: u64,
    row: Row,
    key: Key,
    plan: Result<(Op, Row), Fault>,
    failed: Option<Fault>,
    l: Life,
    parts: Seq<Seq<Entry>>,
) -> (m: Life)
    requires
        before.wf(),
        told(before, l, parts),
        before.room(2),
        db::wrote_row(before, after, table, x, plan, failed),
        plan == db::insert_plan(before, table, row, x) || plan == engine::update_plan(
            before.engine@,
            table,
            row,
            x,
        ) || plan == engine::remove_plan(before.engine@, table, key, x),
        can_log(after.queued()),
    ensures
        m.goes_on_from(l),
        told(after, m, parts),
{
    let c = before.engine@;
    let log = wal::joined(parts) + before.queued();
    goes_on_at_first(l);
    assert(log + Seq::<Entry>::empty() =~= log);
    if !c.txns.active.dom().contains(x) || !c.live.contains(table) {
        more_is_told(before, after, l, l, parts);
        l
    } else if before.degraded is None && plan is Ok {
        promise::writes_can_happen(l.now(), table, row, key, x);
        let (op, new) = plan->Ok_0;
        let m = one_more(l, c, log, Event::Write(op, new));
        let e = Entry { lsn: LsnId(before.engine.clock.counter), op };
        assert(log + seq![e] =~= wal::joined(parts) + after.queued());
        more_is_told(before, after, l, m, parts);
        m
    } else {
        let a = one_more(l, c, log, Event::Tick);
        if before.degraded is Some || !(plan matches Err(Fault::WriteConflict(_))) || !db::gives_up(
            before,
            x,
        ) {
            more_is_told(before, after, l, a, parts);
            a
        } else {
            let b = one_more(a, c.tick(), log, Event::StartAbort(x));
            goes_on_further(l, a, b);
            if before.fail_reverts {
                more_is_told(before, after, l, b, parts);
                b
            } else {
                let m = one_more(b, c.tick().aborting_now(x), log, Event::FinishAbort(x));
                goes_on_further(l, b, m);
                let e = Entry {
                    lsn: LsnId((before.engine.clock.counter + 1) as u64),
                    op: Op::Rollback(TransactionId(x)),
                };
                assert(log + seq![e] =~= wal::joined(parts) + after.queued());
                more_is_told(before, after, l, m, parts);
                m
            }
        }
    }
}

/// Marks of sequences are logged, one after the other.
proof fn marks_are_logged(l: Life, c: Core, log: Seq<Entry>, ops: Seq<Op>) -> (m: Life)
    requires
        leads_to(l, c, log),
        c.counter + ops.len() <= u64::MAX,
        forall|i: int| 0 <= i < ops.len() ==> (#[trigger] ops[i]) is Sequence,
    ensures
        m.goes_on_from(l),
        m.now().done == l.now().done,
        leads_to(
            m,
            Core { counter: c.counter + ops.len(), ..c },
            log + schema::stamped(ops, c.counter as u64),
        ),
    decreases ops.len(),
{
    let from = c.counter as u64;
    if ops.len() == 0 {
        goes_on_at_first(l);
        assert(log + schema::stamped(ops, from) =~= log);
        assert(Core { counter: c.counter + ops.len(), ..c } == c);
        l
    } else {
        let front = ops.drop_last();
        assert forall|i: int| 0 <= i < front.len() implies (#[trigger] front[i]) is Sequence by {
            assert(ops[i] is Sequence);
        }
        let a = marks_are_logged(l, c, log, front);
        let mid = Core { counter: c.counter + front.len(), ..c };
        let so_far = log + schema::stamped(front, from);
        assert(ops[ops.len() - 1] is Sequence);
        let m = one_more(a, mid, so_far, Event::Mark(ops.last()));
        goes_on_further(l, a, m);
        let e = Entry { lsn: LsnId(mid.counter as u64), op: ops.last() };
        assert(so_far + seq![e] =~= log + schema::stamped(ops, from));
        m
    }
}

/// A sequence is created, used or removed.
pub proof fn marks_are_told(
    before: Db,
    after: Db,
    now: Map<Seq<char>, Marks>,
    ops: Seq<Op>,
    l: Life,
    parts: Seq<Seq<Entry>>,
) -> (m: Life)
    requires
        before.wf(),
        told(before, l, parts),
        before.room(ops.len()),
        forall|i: int| 0 <= i < ops.len() ==> (#[trigger] ops[i]) is Sequence,
        schema::remarked(before, after, now, ops),
        can_log(after.queued()),
    ensures
        m.goes_on_from(l),
        told(after, m, parts),
{
    let log = wal::joined(parts) + before.queued();
    let m = marks_are_logged(l, before.engine@, log, ops);
    let marks = schema::stamped(ops, before.engine.clock.counter);
    assert(log + marks =~= wal::joined(parts) + after.queued());
    more_is_told(before, after, l, m, parts);
    m
}

// ---------------------------------------------------------------------------
// Saving
// ---------------------------------------------------------------------------

/// Can what a checkpoint writes be read back? The sizes of pages and of index
/// keys have to be such as a header may name, and names and lists such as can
/// be encoded.
pub open spec fn can_be_saved(db: Db) -> bool {
    &&& header::sizes_ok(db.header)
    &&& promise::encodable(db)
}

/// Of the records at or above a floor, those at or above a higher one.
proof fn above_twice(es: Seq<Entry>, low: u64, high: u64)
    requires
        low <= high,
    ensures
        recovery::above(recovery::above(es, low), high) == recovery::above(es, high),
    decreases es.len(),
{
    if es.len() > 0 {
        above_twice(es.drop_last(), low, high);
        if es.last().lsn.0 >= low {
            recovery::above_push(recovery::above(es.drop_last(), low), es.last(), high);
        }
    }
}

/// Fewer records drop no more.
proof fn fewer_drop(es: Seq<Entry>, floor: u64)
    requires
        keeps_numbers(es),
    ensures
        keeps_numbers(recovery::above(es, floor)),
{
    reveal(keeps_numbers);
    let name = db::system_name();
    let some = recovery::above(es, floor);
    let ops = recovery::entry_ops(some);
    crash::above_members(es, floor);
    assert forall|i: int| 0 <= i < ops.len() implies !((
    #[trigger] ops[i]) matches Op::Sequence { name: n, dropped, .. } && dropped && n == name) by {
        assert(es.contains(some[i]));
        let k = choose|k: int| 0 <= k < es.len() && es[k] == some[i];
        assert(recovery::entry_ops(es)[k] == ops[i]);
    }
}

/// What a save leaves in the data file says what was saved.
proof fn saved_file_says(ck: Db, now: u128, data: DataFile, s: State, es: Seq<Entry>)
    requires
        ck.wf(),
        can_be_saved(ck),
        apart(ck),
        checkpoint::saved(ck, now, data),
        data.system.catalog.wf(),
        s.core == ck.engine@,
        s.disk == ck.engine@.rows,
        s.floor == checkpoint::floor_of(ck.engine@),
        s.core.counter >= 1,
        keeps_numbers(es),
        recovery::log_top(es) matches Some(m) ==> m < s.core.counter,
    ensures
        was_saved(data),
        file_says(data, s, ck.header.page_size),
        starts_at(data, es, s.core.counter, s.core.next_table),
{
    reveal(keeps_numbers);
    promise::saved_header_reads_back(ck, now, data.header@);
    catalog::system_pages_read_back(
        table::tabs(ck.tables@),
        generator::next_pairs(ck.generator.gens@),
        ck.free_pages@,
        ck.header.page_size,
        data.system,
    );
    promise::saved_rows_are_sound(ck, ck.engine.clock.counter as nat);
    promise::saved_marks_reach(ck, es);
}

/// A database is saved, in the state that the last event left.
#[verifier::rlimit(60)]
#[verifier::spinoff_prover]
proof fn save_is_told(
    ck: Db,
    after: Db,
    now: u128,
    ev: Event,
    l: Life,
    parts: Seq<Seq<Entry>>,
) -> (r: (Life, Seq<Seq<Entry>>))
    requires
        ck.wf(),
        after.wf(),
        can_be_saved(ck),
        apart(ck),
        ck.wal.current.n < u64::MAX,
        checkpoint::checkpointed(ck, after, now),
        history::saves(ev),
        history::allowed(l.now(), ev),
        ck.engine@ == history::core_after(l.now(), ev),
        leads_to(l, l.now().core, wal::joined(parts) + ck.queued()),
        promise::log_holds(ck, parts),
        can_log(ck.queued()),
        keeps_numbers(recovery::above(wal::joined(parts), l.now().floor)),
        marks_of_done(l.now(), ck.graves()),
    ensures
        r.0 == l.plus(ev),
        r.0.grew_from(l),
        told(after, r.0, r.1),
        after.queued().len() == 0,
{
    let m = l.plus(ev);
    let log = wal::joined(parts) + ck.queued();
    let all = promise::with_more(parts, ck.queued());
    let floor = checkpoint::floor_of(ck.engine@);
    assert(m.evs.drop_last() =~= l.evs);
    assert(m.evs.take(l.evs.len() as int) =~= l.evs);
    assert(m.evs.take(m.evs.len() as int) =~= m.evs);
    promise::checkpoint_keeps_what_is_needed(ck, after, now, parts);
    let left = choose|left: Seq<Seq<Entry>>|
        {
            &&& #[trigger] promise::log_holds(after, left)
            &&& recovery::above(wal::joined(left), floor) == recovery::above(
                wal::joined(all),
                floor,
            )
        };
    assert(all.drop_last() =~= parts.drop_last());
    assert(wal::joined(all) =~= log);
    assert(wal::joined(left) + after.queued() =~= wal::joined(left));
    crash::floor_never_falls(l.first, l.evs);
    assert(l.now().floor <= floor) by {
        assert(checkpoint::floor_of(ck.engine@) == checkpoint::floor_of(l.now().core));
    }
    above_twice(l.now().log, l.now().floor, floor);
    above_twice(log, l.now().floor, floor);
    written_drops_nothing(l, parts, ck.queued());
    fewer_drop(recovery::above(log, l.now().floor), floor);
    crash::promises_are_always_kept(m.first, m.evs);
    tops(m.first, m.evs);
    top_above(m.now().log, floor);
    let es = recovery::above(wal::joined(left), floor);
    saved_file_says(ck, now, after.data, m.now(), es);
    assert(durable_at(after.data, m, m.evs.len() as int, left));
    (m, left)
}

/// A checkpoint is taken.
pub proof fn checkpoint_is_told(
    before: Db,
    after: Db,
    now: u128,
    l: Life,
    parts: Seq<Seq<Entry>>,
) -> (r: (Life, Seq<Seq<Entry>>))
    requires
        before.wf(),
        after.wf(),
        told(before, l, parts),
        can_be_saved(before),
        before.room(1),
        before.wal.current.n < u64::MAX,
        checkpoint::checkpointed(before, after, now),
    ensures
        r.0.grew_from(l),
        told(after, r.0, r.1),
        after.queued().len() == 0,
{
    save_is_told(before, after, now, Event::Checkpoint, l, parts)
}

/// When a table is built, every page is still in use once or free once.
proof fn built_is_apart(before: Db, mid: Db, name: Seq<char>, size: u64)
    requires
        before.wf(),
        apart(before),
        before.page_count <= u64::MAX - 2,
        schema::built(before, mid, name, size),
    ensures
        apart(mid),
{
    reveal(pages_once);
    let ts = table::tabs(before.tables@);
    let t = table::tabs(mid.tables@).last();
    schema::built_is_apart(ts, t, before.space());
    assert(table::tabs(mid.tables@) == ts.push(t));
    assert(mid.space() == before.space().taken().taken());
}

/// When a table is taken apart, every page is still in use once or free once.
proof fn taken_apart_is_apart(before: Db, mid: Db, i: int)
    requires
        apart(before),
        0 <= i < before.tables@.len(),
        schema::taken_apart(before, mid, i),
    ensures
        apart(mid),
{
    reveal(pages_once);
    let ts = table::tabs(before.tables@);
    schema::apart_is_apart(ts, i, before.space());
    assert(table::tabs(mid.tables@) =~= ts.remove(i));
    assert(mid.space().free == mid.free_pages@ && mid.space().links == mid.links@);
}

/// A table is created.
#[verifier::rlimit(60)]
#[verifier::spinoff_prover]
pub proof fn creation_is_told(
    before: Db,
    mid: Db,
    after: Db,
    name: Seq<char>,
    size: u64,
    now: u128,
    l: Life,
    parts: Seq<Seq<Entry>>,
) -> (r: (Life, Seq<Seq<Entry>>))
    requires
        before.wf(),
        mid.wf(),
        after.wf(),
        told(before, l, parts),
        before.room(3),
        before.generator@[db::system_name()].next < u64::MAX,
        schema::built(before, mid, name, size),
        before.page_count <= u64::MAX - 2,
        can_be_saved(mid),
        can_log(mid.queued()),
        before.wal.current.n < u64::MAX,
        checkpoint::checkpointed(mid, after, now),
    ensures
        r.0.grew_from(l),
        told(after, r.0, r.1),
        after.queued().len() == 0,
{
    let sys = before.generator@[db::system_name()];
    let ops = seq![generator::mark_op(name, 0, false)] + schema::next_marks(
        db::system_name(),
        sys,
    );
    let log = wal::joined(parts) + before.queued();
    let m = marks_are_logged(l, before.engine@, log, ops);
    let marks = schema::stamped(ops, before.engine.clock.counter);
    assert(log + marks =~= wal::joined(parts) + mid.queued());
    unsaved(m, l.evs.len() as int);
    assert(m.at(l.evs.len() as int) == l.now());
    built_is_apart(before, mid, name, size);
    let r = save_is_told(mid, after, now, Event::AddTable(TableIdType(sys.next)), m, parts);
    assert(r.0.evs.take(l.evs.len() as int) =~= m.evs.take(l.evs.len() as int));
    r
}

/// The creation of a table is refused, since the catalog has no room for it.
#[verifier::rlimit(60)]
#[verifier::spinoff_prover]
pub proof fn refused_creation_is_told(
    before: Db,
    mid: Db,
    after: Db,
    name: Seq<char>,
    size: u64,
    l: Life,
    parts: Seq<Seq<Entry>>,
) -> (m: Life)
    requires
        before.wf(),
        told(before, l, parts),
        before.room(3),
        before.generator@[db::system_name()].next < u64::MAX,
        !before.generator@.dom().contains(name),
        schema::built(before, mid, name, size),
        schema::unbuilt(before, mid, after),
        before.page_count <= u64::MAX - 2,
        can_log(after.queued()),
    ensures
        m.goes_on_from(l),
        told(after, m, parts),
{
    let ops = schema::unbuilt_marks(before, mid, name);
    let log = wal::joined(parts) + before.queued();
    schema::refused_creation_leaves_no_trace(before, mid, after, name, size);
    let m = marks_are_logged(l, before.engine@, log, ops);
    let marks = schema::stamped(ops, before.engine.clock.counter);
    assert(log + marks =~= wal::joined(parts) + after.queued());
    built_is_apart(before, mid, name, size);
    let n = before.tables@.len() as int;
    let end = choose|end: Db| #[trigger]
        schema::taken_apart(mid, end, n) && after == (Db {
            engine: Engine { next_table: before.engine.next_table, ..end.engine },
            ..end
        });
    assert(table::tabs(mid.tables@).len() == mid.tables@.len());
    assert(table::tabs(before.tables@).len() == n);
    taken_apart_is_apart(mid, end, n);
    more_is_told(before, after, l, m, parts);
    m
}

/// A table is dropped.
#[verifier::rlimit(60)]
#[verifier::spinoff_prover]
pub proof fn drop_is_told(
    before: Db,
    mid: Db,
    after: Db,
    i: int,
    now: u128,
    l: Life,
    parts: Seq<Seq<Entry>>,
) -> (r: (Life, Seq<Seq<Entry>>))
    requires
        before.wf(),
        mid.wf(),
        after.wf(),
        told(before, l, parts),
        before.room(2),
        0 <= i < before.tables@.len(),
        schema::taken_apart(before, mid, i),
        can_be_saved(mid),
        can_log(mid.queued()),
        before.wal.current.n < u64::MAX,
        checkpoint::checkpointed(mid, after, now),
    ensures
        r.0.grew_from(l),
        told(after, r.0, r.1),
        after.queued().len() == 0,
{
    let t = before.tables@[i]@;
    let ops = schema::removal_marks(before.generator@, t.name);
    let log = wal::joined(parts) + before.queued();
    let m = marks_are_logged(l, before.engine@, log, ops);
    let marks = schema::stamped(ops, before.engine.clock.counter);
    assert(log + marks =~= wal::joined(parts) + mid.queued());
    unsaved(m, l.evs.len() as int);
    assert(m.at(l.evs.len() as int) == l.now());
    taken_apart_is_apart(before, mid, i);
    let r = save_is_told(mid, after, now, Event::DropTable(t.id), m, parts);
    assert(r.0.evs.take(l.evs.len() as int) =~= m.evs.take(l.evs.len() as int));
    r
}

// ---------------------------------------------------------------------------
// Maintenance
// ---------------------------------------------------------------------------

/// Aborts are finished, one after the other.
proof fn aborts_are_logged(l: Life, c: Core, log: Seq<Entry>, ids: Seq<u64>) -> (m: Life)
    requires
        leads_to(l, c, log),
        c.counter + ids.len() <= u64::MAX,
        forall|i: int| 0 <= i < ids.len() ==> c.txns.aborting.contains(#[trigger] ids[i]),
        ids.no_duplicates(),
    ensures
        m.goes_on_from(l),
        m.now().done == l.now().done,
        leads_to(
            m,
            upkeep::aborted_all(c, ids),
            log + schema::stamped(upkeep::rollback_ops(ids), c.counter as u64),
        ),
    decreases ids.len(),
{
    let from = c.counter as u64;
    let ops = upkeep::rollback_ops(ids);
    if ids.len() == 0 {
        goes_on_at_first(l);
        assert(log + schema::stamped(ops, from) =~= log);
        l
    } else {
        let front = ids.drop_last();
        let x = ids.last();
        assert forall|i: int| 0 <= i < front.len() implies c.txns.aborting.contains(
            #[trigger] front[i],
        ) by {
            assert(c.txns.aborting.contains(ids[i]));
        }
        let a = aborts_are_logged(l, c, log, front);
        let mid = upkeep::aborted_all(c, front);
        let so_far = log + schema::stamped(upkeep::rollback_ops(front), from);
        upkeep::aborted_all_txns(c, front);
        assert(c.txns.aborting.contains(ids[ids.len() - 1]));
        assert(!front.contains(x));
        let m = one_more(a, mid, so_far, Event::FinishAbort(x));
        goes_on_further(l, a, m);
        let e = Entry { lsn: LsnId(mid.counter as u64), op: Op::Rollback(TransactionId(x)) };
        assert(so_far + seq![e] =~= log + schema::stamped(ops, from));
        m
    }
}

/// The records of aborts can be framed.
proof fn rollbacks_fit(ids: Seq<u64>, from: u64)
    ensures
        can_log(schema::stamped(upkeep::rollback_ops(ids), from)),
{
    let es = schema::stamped(upkeep::rollback_ops(ids), from);
    assert forall|k: int| 0 <= k < es.len() implies framing::entry_fits(#[trigger] es[k]) by {
        promise::end_fits(es[k].lsn, ids[k]);
    }
}

/// Aborts that failed are finished.
#[verifier::rlimit(60)]
#[verifier::spinoff_prover]
pub proof fn aborts_are_told(before: Db, after: Db, l: Life, parts: Seq<Seq<Entry>>) -> (m: Life)
    requires
        before.wf(),
        told(before, l, parts),
        before.room(before.engine.txns.aborting@.len()),
        same_files(before, after),
        apart(after),
        upkeep::finished_all(before, after, before.engine.txns.aborting@),
    ensures
        m.goes_on_from(l),
        told(after, m, parts),
{
    let ids = before.engine.txns.aborting@;
    let log = wal::joined(parts) + before.queued();
    let from = before.engine.clock.counter;
    assert forall|i: int| 0 <= i < ids.len() implies before.engine@.txns.aborting.contains(
        #[trigger] ids[i],
    ) by {}
    let m = aborts_are_logged(l, before.engine@, log, ids);
    let es = schema::stamped(upkeep::rollback_ops(ids), from);
    assert(log + es =~= wal::joined(parts) + after.queued());
    rollbacks_fit(ids, from);
    assert forall|k: int| 0 <= k < after.queued().len() implies framing::entry_fits(
        #[trigger] after.queued()[k],
    ) by {
        if k < before.queued().len() {
            assert(framing::entry_fits(before.queued()[k]));
        } else {
            assert(framing::entry_fits(es[k - before.queued().len()]));
        }
    }
    more_is_told(before, after, l, m, parts);
    m
}

/// The oldest active transaction is a horizon.
proof fn oldest_is_a_horizon(t: mvcc::Txns)
    ensures
        steps::horizon_ok(t, t.oldest_active()),
{
    let ids = t.active.dom();
    match t.oldest_active() {
        None => {
            assert forall|x: u64| !(#[trigger] t.active.dom().contains(x)) by {
                if ids.contains(x) {
                    crash::has_least(ids, x);
                    let m = choose|m: u64| mvcc::is_least(ids, m) && m <= x;
                    mvcc::least_is(ids, m);
                }
            }
        },
        Some(h) => {
            assert forall|x: u64| #[trigger] t.active.dom().contains(x) implies h <= x by {
                crash::has_least(ids, x);
                let m = choose|m: u64| mvcc::is_least(ids, m) && m <= x;
                mvcc::least_is(ids, m);
            }
        },
    }
}

/// Deletion marks that everybody sees are purged, one after the other.
proof fn purges_are_logged(l: Life, c: Core, log: Seq<Entry>, gs: Seq<Grave>) -> (m: Life)
    requires
        leads_to(l, c, log),
        c.counter + 2 * gs.len() < u64::MAX,
        marks_of_done(l.now(), gs),
        forall|i: int, v: Viewer|
            0 <= i < gs.len() && #[trigger] mvcc::may_look(c.txns, v) ==> mvcc::sees(
                c.txns,
                v,
                (#[trigger] gs[i]).txn.0,
            ),
    ensures
        m.goes_on_from(l),
        m.now().done == l.now().done,
        leads_to(m, upkeep::purged_all(c, gs), log + upkeep::purge_log(c, gs)),
    decreases gs.len(),
{
    if gs.len() == 0 {
        goes_on_at_first(l);
        assert(log + upkeep::purge_log(c, gs) =~= log);
        l
    } else {
        let front = gs.drop_last();
        let g = gs.last();
        assert(gs[gs.len() - 1] == g);
        assert forall|i: int| 0 <= i < front.len() implies l.now().done.contains(
            (#[trigger] front[i]).txn.0,
        ) by {
            assert(l.now().done.contains(gs[i].txn.0));
        }
        assert forall|i: int, v: Viewer|
            0 <= i < front.len() && #[trigger] mvcc::may_look(c.txns, v) implies mvcc::sees(
            c.txns,
            v,
            (#[trigger] front[i]).txn.0,
        ) by {
            assert(front[i] == gs[i]);
        }
        let a = purges_are_logged(l, c, log, front);
        let d = upkeep::purged_all(c, front);
        let so_far = log + upkeep::purge_log(c, front);
        upkeep::purged_all_facts(c, front);
        let p = Place { table: g.table_id, key: g.key };
        if !d.live.contains(g.table_id) {
            assert(log + upkeep::purge_log(c, gs) =~= so_far);
            a
        } else {
            let b = one_more(a, d, so_far, Event::Tick);
            goes_on_further(l, a, b);
            assert(so_far + Seq::<Entry>::empty() =~= so_far);
            if engine::purge_applies(d.rows, g) {
                let ev = Event::Purge(p, g.txn.0);
                assert(history::allowed(b.now(), ev));
                let m = one_more(b, d.tick(), so_far, ev);
                goes_on_further(l, b, m);
                let e = Entry {
                    lsn: LsnId((d.counter + 1) as u64),
                    op: Op::Purge { txn: g.txn, table_id: g.table_id, key: g.key },
                };
                assert(so_far + seq![e] =~= log + upkeep::purge_log(c, gs));
                m
            } else {
                assert(log + upkeep::purge_log(c, gs) =~= so_far);
                b
            }
        }
    }
}

/// What nobody needs is dropped.
#[verifier::rlimit(60)]
#[verifier::spinoff_prover]
pub proof fn sweep_is_told(before: Db, after: Db, l: Life, parts: Seq<Seq<Entry>>) -> (m: Life)
    requires
        before.wf(),
        told(before, l, parts),
        before.engine.clock.counter + 2 * before.graves().len() < u64::MAX,
        upkeep::swept(before, after),
        can_log(after.queued()),
    ensures
        m.goes_on_from(l),
        told(after, m, parts),
{
    let c0 = before.engine@;
    let horizon = c0.txns.oldest_active();
    let c = c0.pruned(horizon).vacuumed(horizon);
    let gs = version::released_graves(before.graves(), horizon);
    let left = version::waiting_graves(before.graves(), horizon);
    let log = wal::joined(parts) + before.queued();
    assert(log + Seq::<Entry>::empty() =~= log);
    oldest_is_a_horizon(c0.txns);
    let a = one_more(l, c0, log, Event::Prune(horizon));
    let b = one_more(a, c0.pruned(horizon), log, Event::Vacuum(horizon));
    goes_on_further(l, a, b);
    upkeep::filtered_ok(c0, before.graves(), |g: Grave| steps::released(horizon, g.ts));
    upkeep::filtered_ok(c0, before.graves(), |g: Grave| !steps::released(horizon, g.ts));
    filtered_done(b.now(), before.graves(), |g: Grave| steps::released(horizon, g.ts));
    filtered_done(b.now(), before.graves(), |g: Grave| !steps::released(horizon, g.ts));
    assert forall|i: int, v: Viewer|
        0 <= i < gs.len() && #[trigger] mvcc::may_look(c.txns, v) implies mvcc::sees(
        c.txns,
        v,
        (#[trigger] gs[i]).txn.0,
    ) by {
        assert(steps::grave_ok(c0, gs[i]));
        steps::released_is_seen(c0, gs[i], horizon, v);
    }
    let m = purges_are_logged(b, c, log, gs);
    goes_on_further(l, b, m);
    assert(log + upkeep::purge_log(c, gs) =~= wal::joined(parts) + after.queued());
    assert(marks_of_done(m.now(), left));
    more_is_told(before, after, l, m, parts);
    m
}

/// What grew from what grew, grew.
proof fn grew_further(a: Life, b: Life, c: Life)
    requires
        b.grew_from(a),
        c.grew_from(b),
    ensures
        c.grew_from(a),
{
    let n = a.evs.len() as int;
    assert forall|j: int| 0 <= j < n implies c.evs[j] == a.evs[j] by {
        assert(b.evs.take(n)[j] == a.evs[j]);
        assert(c.evs.take(b.evs.len() as int)[j] == b.evs[j]);
    }
    assert(c.evs.take(n) =~= a.evs);
}

/// A transaction that holds too much back is rolled back.
#[verifier::rlimit(60)]
#[verifier::spinoff_prover]
pub proof fn limits_are_told(
    before: Db,
    after: Db,
    now: u128,
    r: Result<(), Fault>,
    l: Life,
    parts: Seq<Seq<Entry>>,
) -> (t: (Life, Seq<Seq<Entry>>))
    requires
        before.wf(),
        after.wf(),
        told(before, l, parts),
        can_be_saved(before),
        before.room(2),
        before.wal.current.n < u64::MAX,
        upkeep::enforced(before, after, now, r),
    ensures
        t.0.grew_from(l),
        told(after, t.0, t.1),
{
    goes_on_at_first(l);
    match (upkeep::over_limit(before), before.engine@.txns.oldest_active()) {
        (Some(why), Some(x)) => {
            let (noted, undone) = choose|noted: Db, undone: Db|
                {
                    &&& noted == Db { forced_aborts: noted.forced_aborts, ..before }
                    &&& noted.forced() == before.forced().insert(x, upkeep::too_old_text(x, why))
                    &&& #[trigger] db::rolled_back(noted, undone, x, db::abort_fault(before, x))
                    &&& noted.wf()
                    &&& undone.wf()
                    &&& match db::abort_fault(before, x) {
                        Some(f) => after == undone && r == Err::<(), Fault>(f),
                        None => {
                            let counted = Db {
                                snapshot_too_old_aborts:
                                    before.snapshot_too_old_aborts.wrapping_add(1),
                                ..undone
                            };
                            match r {
                                Ok(()) => checkpoint::checkpointed(counted, after, now),
                                Err(f) => checkpoint::catalog_of(counted) == Err::<
                                    page::Sheet,
                                    Fault,
                                >(f) && after == counted,
                            }
                        },
                    }
                };
            more_is_told(before, noted, l, l, parts);
            let m = rollback_is_told(noted, undone, x, db::abort_fault(before, x), l, parts);
            if db::abort_fault(before, x) is Some {
                (m, parts)
            } else {
                let counted = Db {
                    snapshot_too_old_aborts: before.snapshot_too_old_aborts.wrapping_add(1),
                    ..undone
                };
                goes_on_at_first(m);
                more_is_told(undone, counted, m, m, parts);
                match r {
                    Ok(()) => {
                        let t = checkpoint_is_told(counted, after, now, m, parts);
                        grew_further(l, m, t.0);
                        t
                    },
                    Err(_) => (m, parts),
                }
            }
        },
        _ => (l, parts),
    }
}

/// What was saved can be saved again, and the next segment has a number.
proof fn saved_again(before: Db, after: Db, now: u128)
    requires
        before.wf(),
        can_be_saved(before),
        checkpoint::checkpointed(before, after, now),
        before.wal.current.n < u64::MAX - 1,
    ensures
        can_be_saved(after),
        after.wal.current.n < u64::MAX,
        after.engine.clock.counter == before.engine.clock.counter,
{
    let mid = wal::ran(before.log(), wal::record_msgs(before.queued()), 0);
    wal::records_in_batches(before.log(), before.queued(), 0);
    assert(mid.wal.current.n == before.wal.current.n);
    assert(after.log().wal.current.n == mid.wal.current.n + 1);
    let old_values = generator::next_pairs(before.generator.gens@);
    let values = generator::next_pairs(after.generator.gens@);
    assert(values == old_values);
}

/// Counting a checkpoint changes nothing that counts.
proof fn counted_is_told(mid: Db, after: Db, l: Life, parts: Seq<Seq<Entry>>)
    requires
        mid.wf(),
        told(mid, l, parts),
        can_be_saved(mid),
        after == (Db { maintenance: after.maintenance, ..mid }),
    ensures
        after.wf(),
        told(after, l, parts),
        can_be_saved(after),
{
    goes_on_at_first(l);
    more_is_told(mid, after, l, l, parts);
}

/// The log is kept short.
#[verifier::rlimit(60)]
#[verifier::spinoff_prover]
proof fn trim_is_told(
    before: Db,
    after: Db,
    now: u128,
    r: Result<(), Fault>,
    l: Life,
    parts: Seq<Seq<Entry>>,
) -> (t: (Life, Seq<Seq<Entry>>))
    requires
        before.wf(),
        after.wf(),
        told(before, l, parts),
        can_be_saved(before),
        before.room(2),
        before.wal.current.n < u64::MAX - 1,
        upkeep::trimmed(before, after, now, r),
    ensures
        t.0.grew_from(l),
        told(after, t.0, t.1),
{
    goes_on_at_first(l);
    if before.wal.segment_bytes <= upkeep::CHECKPOINT_LOG_BYTES {
        limits_are_told(before, after, now, r, l, parts)
    } else if checkpoint::catalog_of(before) is Err {
        (l, parts)
    } else {
        let mid = choose|mid: Db|
            {
                &&& #[trigger] checkpoint::checkpointed(before, mid, now)
                &&& mid.wf()
                &&& upkeep::enforced(
                    Db {
                        maintenance: MaintenanceStats {
                            checkpoints: mid.maintenance.checkpoints.wrapping_add(1),
                            ..mid.maintenance
                        },
                        ..mid
                    },
                    after,
                    now,
                    r,
                )
            };
        let counted = Db {
            maintenance: MaintenanceStats {
                checkpoints: mid.maintenance.checkpoints.wrapping_add(1),
                ..mid.maintenance
            },
            ..mid
        };
        let t = checkpoint_is_told(before, mid, now, l, parts);
        saved_again(before, mid, now);
        counted_is_told(mid, counted, t.0, t.1);
        let u = limits_are_told(counted, after, now, r, t.0, t.1);
        grew_further(l, t.0, u.0);
        u
    }
}

/// A pass of the work behind the transactions.
#[verifier::rlimit(60)]
#[verifier::spinoff_prover]
pub proof fn pass_is_told(
    before: Db,
    after: Db,
    now: u128,
    r: Result<(), Fault>,
    l: Life,
    parts: Seq<Seq<Entry>>,
) -> (t: (Life, Seq<Seq<Entry>>))
    requires
        before.wf(),
        after.wf(),
        told(before, l, parts),
        can_be_saved(before),
        before.room(upkeep::pass_numbers(before) + 1),
        before.wal.current.n < u64::MAX - 1,
        upkeep::passed(before, after, now, r),
        forall|a: Db, b: Db| #[trigger]
            upkeep::retried(before, a) && #[trigger] upkeep::swept(a, b) ==> can_log(b.queued()),
    ensures
        t.0.grew_from(l),
        told(after, t.0, t.1),
{
    let (a, b) = choose|a: Db, b: Db|
        {
            &&& #[trigger] upkeep::retried(before, a)
            &&& #[trigger] upkeep::swept(a, b)
            &&& a.wf()
            &&& b.wf()
            &&& upkeep::trimmed(b, after, now, r)
        };
    let ids = before.engine.txns.aborting@;
    goes_on_at_first(l);
    upkeep::aborted_all_txns(before.engine@, ids);
    let m = if before.fail_reverts {
        more_is_told(before, a, l, l, parts);
        l
    } else {
        aborts_are_told(before, a, l, parts)
    };
    assert(a.graves() == before.graves());
    let horizon = a.engine@.txns.oldest_active();
    let gs = version::released_graves(a.graves(), horizon);
    upkeep::purged_all_facts(a.engine@.pruned(horizon).vacuumed(horizon), gs);
    upkeep::filtered_ok(a.engine@, a.graves(), |g: Grave| steps::released(horizon, g.ts));
    let n = sweep_is_told(a, b, m, parts);
    goes_on_further(l, m, n);
    let t = trim_is_told(b, after, now, r, n, parts);
    grew_further(l, n, t.0);
    t
}

/// Of deletion marks whose transactions have committed, any have.
proof fn filtered_done(s: State, gs: Seq<Grave>, keep: spec_fn(Grave) -> bool)
    requires
        marks_of_done(s, gs),
    ensures
        marks_of_done(s, gs.filter(keep)),
    decreases gs.len(),
{
    reveal(Seq::filter);
    if gs.len() > 0 {
        assert(s.done.contains(gs[gs.len() - 1].txn.0));
        assert forall|i: int| 0 <= i < gs.drop_last().len() implies s.done.contains(
            (#[trigger] gs.drop_last()[i]).txn.0,
        ) by {
            assert(s.done.contains(gs[i].txn.0));
        }
        filtered_done(s, gs.drop_last(), keep);
    }
}

// ---------------------------------------------------------------------------
// A power cut
// ---------------------------------------------------------------------------

/// With no transactions, everything that is there is what a read gives.
proof fn reads_without_transactions(c: Core, p: Place)
    requires
        c.wf(),
        c.txns == mvcc::Txns::none(),
    ensures
        c.read(Viewer::Latest, p) == crash::read_of(c.rows, p),
{
    if c.rows.dom().contains(p) {
        assert(mvcc::row_ok(c, p, c.rows[p]));
    }
}

/// The numbers of what is durable leave room for more.
proof fn durable_leaves_room(data: DataFile, l: Life, k: int, parts: Seq<Seq<Entry>>)
    requires
        l.ok(),
        durable_at(data, l, k, parts),
    ensures
        ({
            let es = recovery::above(wal::joined(parts), l.now().floor);
            forall|i: int|
                0 <= i < es.len() ==> recovery::entry_top(#[trigger] es[i]) < u64::MAX
        }),
{
    let es = recovery::above(wal::joined(parts), l.now().floor);
    let log = l.at(k).log;
    crash::possible_part(l.first, l.evs, k);
    tops(l.first, l.evs.take(k));
    crash::promises_are_always_kept(l.first, l.evs.take(k));
    crash::above_members(log, l.now().floor);
    assert forall|i: int| 0 <= i < es.len() implies recovery::entry_top(#[trigger] es[i])
        < u64::MAX by {
        assert(log.contains(recovery::above(log, l.now().floor)[i]));
        let j = choose|j: int| 0 <= j < log.len() && log[j] == es[i];
        assert(recovery::entry_top(log[j]) == log[j].lsn.0);
    }
}

/// Does the log of the database, in these files, scan as these records?
pub open spec fn scans_as(db: Db, disk: Disk, parts: Seq<Seq<Entry>>) -> bool {
    wal::scan_all(disk, db.header.page_size, segment::segments_of(disk, db.name@)) == Ok::<
        Seq<Seq<Entry>>,
        Fault,
    >(parts)
}

/// After a power cut the log scans as the records that were durable.
proof fn cut_scans(db: Db, disk: Disk, parts: Seq<Seq<Entry>>)
    requires
        db.wf(),
        promise::log_holds(db, parts),
        ending::survived(db.ns@, disk, segment::prefix_text(db.name@)),
        ending::durable_part(db.ns@, disk),
    ensures
        scans_as(db, disk, parts),
{
    promise::snapshot_scans_alike(db, disk, db.header.page_size);
    durable::power_cut_loses_nothing_durable(db.wal@, db.ns@, db.header.page_size, parts);
}

/// Can this be the data file after a power cut, when these records are durable?
/// It is the database's own but for the rows: each place holds a row that it
/// held since the last checkpoint, as of a moment when the log was what is
/// durable.
pub open spec fn can_hold(db: Db, l: Life, parts: Seq<Seq<Entry>>, data: DataFile) -> bool {
    ending::same_but_rows(data, db.data) && exists|k: int| #[trigger]
        durable_at(db.data, l, k, parts) && history::in_file(l.at(k), data.rows@)
}

/// A data file into which no page went since the last checkpoint can be.
pub proof fn saved_rows_can_be_held(db: Db, l: Life, parts: Seq<Seq<Entry>>, data: DataFile)
    requires
        told(db, l, parts),
        was_saved(db.data),
        ending::same_data(data, db.data),
    ensures
        can_hold(db, l, parts, data),
{
    let k = choose|k: int| #[trigger] durable_at(db.data, l, k, parts);
    unsaved(l, k);
    crash::possible_part(l.first, l.evs, k);
    crash::promises_are_always_kept(l.first, l.evs.take(k));
    assert(history::in_file(l.at(k), data.rows@));
}

/// What opening finds is what was saved and what is durable.
#[verifier::rlimit(60)]
#[verifier::spinoff_prover]
proof fn found_again(
    db: Db,
    l: Life,
    parts: Seq<Seq<Entry>>,
    data: DataFile,
    disk: Disk,
    k: int,
)
    requires
        db.wf(),
        told(db, l, parts),
        was_saved(db.data),
        durable_at(db.data, l, k, parts),
        ending::same_but_rows(data, db.data),
        history::in_file(l.at(k), data.rows@),
        scans_as(db, disk, parts),
    ensures
        opening::opening(db.name@, data, disk) matches Ok(o) && {
            &&& o.parts == parts
            &&& o.header.page_size == db.header.page_size
            &&& opening::ids_of(o.tables) == l.at(k).core.live
            &&& recovery::recovered(data.rows@, opening::ids_of(o.tables), o.records)
                == history::recovered(l.at(k), data.rows@)
            &&& file_says(data, (State { disk: data.rows@, ..l.at(k) }), db.header.page_size)
            &&& restart(o.header, o.records) == l.at(k).core.counter
            &&& l.at(k).core.next_table <= o.marks[db::system_name()].next
            &&& o.records == recovery::above(wal::joined(parts), l.now().floor)
            &&& starts_at(
                data,
                o.records,
                l.at(k).core.counter,
                o.marks[db::system_name()].next,
            )
            &&& header::decoded(data.header@.take(header::HEADER_SIZE as int)) == Ok::<
                Header,
                Fault,
            >(o.header)
            &&& catalog::loaded(data.system) matches Ok(found) && o.tables == found.0 && o.links
                == data.links@ && o.free == found.2
            &&& pages_once(o.tables, o.free, o.links)
        },
{
    let s = l.at(k);
    let es = recovery::above(wal::joined(parts), l.now().floor);
    unsaved(l, k);
    crash::possible_part(l.first, l.evs, k);
    crash::promises_are_always_kept(l.first, l.evs.take(k));
    assert(catalog::loaded(data.system) == catalog::loaded(db.data.system));
    durable_leaves_room(db.data, l, k, parts);
    crash::recovered_rows_are_usable(l.first, l.evs.take(k), data.rows@);
    let h = header::decoded(data.header@.take(header::HEADER_SIZE as int))->Ok_0;
    let found = catalog::loaded(data.system)->Ok_0;
    assert(recovery::recovered(data.rows@, opening::ids_of(found.0), es) == history::recovered(
        s,
        data.rows@,
    ));
    assert(opening::rows_sound(
        history::recovered(s, data.rows@),
        opening::ids_of(found.0),
        recovery::clock_after(opening::seeded(h) as nat, es),
    ));
    assert(data.links@.take(h.page_count as int) =~= data.links@);
    assert forall|i: int| 0 <= i < found.0.len() implies (#[trigger] found.0[i]).id.0
        < s.core.next_table by {
        assert(opening::ids_of(found.0).contains(found.0[i].id));
        assert(s.core.live.contains(found.0[i].id));
    }
    promise::next_id_bound(found.0, s.core.next_table as nat);
    assert(opening::marks_sound(opening::marks_after(found.1, es), found.0));
    reveal(pages_once);
    schema::nothing_free_is_reached(opening::starts_of(found.0), found.2, data.links@);
    freelist::all_in_file(found.2, h.page_count as nat);
}

/// A database that was saved at some time opens again after a power cut,
/// whatever has happened since and whatever of it is durable.
pub proof fn told_database_opens(
    db: Db,
    l: Life,
    parts: Seq<Seq<Entry>>,
    data: DataFile,
    disk: Disk,
)
    requires
        db.wf(),
        told(db, l, parts),
        was_saved(db.data),
        can_hold(db, l, parts, data),
        ending::survived(db.ns@, disk, segment::prefix_text(db.name@)),
        ending::durable_part(db.ns@, disk),
    ensures
        opening::opening(db.name@, data, disk) is Ok,
{
    let k = choose|k: int| #[trigger]
        durable_at(db.data, l, k, parts) && history::in_file(l.at(k), data.rows@);
    cut_scans(db, disk, parts);
    found_again(db, l, parts, data, disk, k);
}

/// After a power cut the log may be replayed a second time, on what opening has
/// made of the data file: no read changes, and no sequence moves.
pub proof fn replay_can_be_repeated(
    db: Db,
    l: Life,
    parts: Seq<Seq<Entry>>,
    data: DataFile,
    disk: Disk,
    p: Place,
)
    requires
        db.wf(),
        told(db, l, parts),
        was_saved(db.data),
        can_hold(db, l, parts, data),
        ending::survived(db.ns@, disk, segment::prefix_text(db.name@)),
        ending::durable_part(db.ns@, disk),
    ensures
        opening::opening(db.name@, data, disk) matches Ok(o) && ({
            let live = opening::ids_of(o.tables);
            let rows = recovery::recovered(data.rows@, live, o.records);
            &&& crash::read_of(recovery::recovered(rows, live, o.records), p) == crash::read_of(
                rows,
                p,
            )
            &&& generator::replay_marks(o.marks, recovery::entry_ops(o.records)) == o.marks
        }),
{
    let k = choose|k: int| #[trigger]
        durable_at(db.data, l, k, parts) && history::in_file(l.at(k), data.rows@);
    cut_scans(db, disk, parts);
    found_again(db, l, parts, data, disk, k);
    unsaved(l, k);
    crash::possible_part(l.first, l.evs, k);
    crash::logs_are_honest(l.first, l.evs.take(k));
    let o = opening::opening(db.name@, data, disk)->Ok_0;
    crash::replaying_again_changes_no_read(data.rows@, opening::ids_of(o.tables), o.records, p);
    let found = catalog::loaded(data.system)->Ok_0;
    generator::replaying_again_moves_no_sequence(
        generator::raised_all(Map::empty(), found.1),
        recovery::entry_ops(o.records),
    );
}

/// A database that is opened again after a power cut goes on with the life that
/// it had when the log was last what is durable now.
#[verifier::rlimit(60)]
#[verifier::spinoff_prover]
pub proof fn reopening_is_told(
    db: Db,
    l: Life,
    parts: Seq<Seq<Entry>>,
    data: DataFile,
    ns: Namespace,
    again: Db,
) -> (r: (Life, int))
    requires
        db.wf(),
        told(db, l, parts),
        was_saved(db.data),
        ns.wf(),
        wal::next_number(segment::segments_of(ns@, db.name@)) <= u64::MAX,
        can_hold(db, l, parts, data),
        ending::survived(db.ns@, ns@, segment::prefix_text(db.name@)),
        ending::durable_part(db.ns@, ns@),
        ending::all_durable(ns@),
        opening::opening(db.name@, data, ns@) matches Ok(o) ==> opening::opened(
            again,
            db.name@,
            data,
            ns@,
            o,
        ) && again.wf() && again.room(1),
    ensures
        opening::opening(db.name@, data, ns@) is Ok,
        durable_at(db.data, l, r.1, parts),
        r.0 == (Life {
            evs: l.evs.take(r.1).push(
                Event::Crash(again.generator@[db::system_name()].next, data.rows@),
            ),
            ..l
        }),
        told(again, r.0, parts.push(seq![])),
{
    let k = choose|k: int| #[trigger]
        durable_at(db.data, l, k, parts) && history::in_file(l.at(k), data.rows@);
    let s = l.at(k);
    cut_scans(db, ns@, parts);
    found_again(db, l, parts, data, ns@, k);
    let o = opening::opening(db.name@, data, ns@)->Ok_0;
    let t = o.marks[db::system_name()].next;
    let ev = Event::Crash(t, data.rows@);
    let m = Life { evs: l.evs.take(k).push(ev), ..l };
    let list = segment::segments_of(ns@, db.name@);
    let more = parts.push(seq![]);
    unsaved(l, k);
    crash::possible_part(l.first, l.evs, k);
    assert(m.evs.drop_last() =~= l.evs.take(k));
    assert(m.evs.take(m.evs.len() as int) =~= m.evs);
    assert(again.engine@ == history::core_after(s, ev));
    assert(more.drop_last() =~= parts);
    assert(wal::joined(more) =~= wal::joined(parts));
    assert(wal::joined(more) + again.queued() =~= wal::joined(parts));
    assert(m.now() == history::next(s, ev));
    memfile::names_are_apart(ns);
    ns.count_fits();
    listed_after_power_cut(db, ns@);
    durable::opened_log_is_held(ns@, db.name@, o.header.page_size, list, parts);
    assert(durable_at(again.data, m, m.evs.len() as int, more));
    (m, k)
}

/// The segments that survive a power cut are listed.
proof fn listed_after_power_cut(db: Db, disk: Disk)
    requires
        db.wf(),
        ending::survived(db.ns@, disk, segment::prefix_text(db.name@)),
    ensures
        segment::lists_segments(disk, db.name@, segment::segments_of(disk, db.name@)),
{
    let list = wal::seg_pairs(db.wal@.older.push(db.wal@.current));
    assert forall|x: (u64, Seq<char>)| #[trigger] list.contains(x) <==> segment::is_segment(
        disk,
        db.name@,
        x,
    ) by {
        assert(list.contains(x) <==> segment::is_segment(db.ns@, db.name@, x));
    }
    assert(segment::lists_segments(disk, db.name@, list));
}

/// A database that is opened with a log that scans as what was durable gives
/// every read what a transaction would have read at that moment.
#[verifier::rlimit(60)]
#[verifier::spinoff_prover]
proof fn reads_again(
    db: Db,
    l: Life,
    parts: Seq<Seq<Entry>>,
    data: DataFile,
    disk: Disk,
    again: Db,
) -> (k: int)
    requires
        db.wf(),
        told(db, l, parts),
        was_saved(db.data),
        can_hold(db, l, parts, data),
        scans_as(db, disk, parts),
        opening::opening(db.name@, data, disk) matches Ok(o) ==> opening::resumed(
            again,
            db.name@,
            data,
            o,
        ) && again.wf(),
    ensures
        opening::opening(db.name@, data, disk) is Ok,
        durable_at(db.data, l, k, parts),
        forall|p: Place| #[trigger]
            again.engine@.read(Viewer::Latest, p) == l.at(k).core.read(Viewer::Latest, p),
        db.queued().len() == 0 ==> forall|p: Place| #[trigger]
            again.engine@.read(Viewer::Latest, p) == db.engine@.read(Viewer::Latest, p),
{
    let k = choose|k: int| #[trigger]
        durable_at(db.data, l, k, parts) && history::in_file(l.at(k), data.rows@);
    let s = l.at(k);
    unsaved(l, k);
    crash::promises_are_always_kept(l.first, l.evs);
    assert(history::possible(l.first, l.evs.take(k))) by {
        crash::possible_part(l.first, l.evs, k);
    }
    found_again(db, l, parts, data, disk, k);
    assert(again.engine@.rows == history::recovered(s, data.rows@));
    assert forall|p: Place| #[trigger] again.engine@.read(Viewer::Latest, p) == s.core.read(
        Viewer::Latest,
        p,
    ) by {
        reads_without_transactions(again.engine@, p);
        crash::recovery_gives_back_what_committed(l.first, l.evs.take(k), data.rows@, p);
    }
    if db.queued().len() == 0 {
        let n = l.evs.len() as int;
        assert(l.evs.take(n) =~= l.evs);
        assert(wal::joined(parts) + db.queued() =~= wal::joined(parts));
        assert forall|p: Place| #[trigger] again.engine@.read(Viewer::Latest, p)
            == db.engine@.read(Viewer::Latest, p) by {
            reads_without_transactions(again.engine@, p);
            assert(history::in_file(l.now(), data.rows@));
            crash::recovery_gives_back_what_committed(l.first, l.evs, data.rows@, p);
            assert(history::recovered(l.now(), data.rows@) == history::recovered(s, data.rows@));
        }
    }
    k
}

/// After a power cut a database opens again, and gives every read exactly
/// what a transaction would have read that began at the moment when the log
/// was last what is durable now: nothing that had committed by then is lost,
/// and nothing else comes back.
pub proof fn power_cut_is_survived(
    db: Db,
    l: Life,
    parts: Seq<Seq<Entry>>,
    data: DataFile,
    disk: Disk,
    again: Db,
) -> (k: int)
    requires
        db.wf(),
        told(db, l, parts),
        was_saved(db.data),
        can_hold(db, l, parts, data),
        ending::survived(db.ns@, disk, segment::prefix_text(db.name@)),
        ending::durable_part(db.ns@, disk),
        opening::opening(db.name@, data, disk) matches Ok(o) ==> opening::resumed(
            again,
            db.name@,
            data,
            o,
        ) && again.wf(),
    ensures
        opening::opening(db.name@, data, disk) is Ok,
        durable_at(db.data, l, k, parts),
        forall|p: Place| #[trigger]
            again.engine@.read(Viewer::Latest, p) == l.at(k).core.read(Viewer::Latest, p),
        db.queued().len() == 0 ==> forall|p: Place| #[trigger]
            again.engine@.read(Viewer::Latest, p) == db.engine@.read(Viewer::Latest, p),
{
    cut_scans(db, disk, parts);
    reads_again(db, l, parts, data, disk, again)
}

/// Finishing aborts changes nothing that a read gives.
proof fn aborts_hide_nothing(c: Core, ids: Seq<u64>, p: Place)
    requires
        c.wf(),
        forall|i: int| 0 <= i < ids.len() ==> c.txns.aborting.contains(#[trigger] ids[i]),
        ids.no_duplicates(),
    ensures
        upkeep::aborted_all(c, ids).wf(),
        upkeep::aborted_all(c, ids).read(Viewer::Latest, p) == c.read(Viewer::Latest, p),
    decreases ids.len(),
{
    if ids.len() > 0 {
        let front = ids.drop_last();
        let x = ids.last();
        assert forall|i: int| 0 <= i < front.len() implies c.txns.aborting.contains(
            #[trigger] front[i],
        ) by {
            assert(c.txns.aborting.contains(ids[i]));
        }
        aborts_hide_nothing(c, front, p);
        upkeep::aborted_all_txns(c, front);
        assert(c.txns.aborting.contains(ids[ids.len() - 1]));
        assert(!front.contains(x));
        steps::aborted_keeps(upkeep::aborted_all(c, front), x);
    }
}

/// A database that was closed opens again, and gives every read what it gave
/// before.
#[verifier::rlimit(60)]
#[verifier::spinoff_prover]
pub proof fn closing_keeps_everything(
    db: Db,
    l: Life,
    parts: Seq<Seq<Entry>>,
    now: u128,
    mid: Db,
    last: Db,
    again: Db,
)
    requires
        db.wf(),
        told(db, l, parts),
        can_be_saved(db),
        db.room(db.engine.txns.aborting@.len() + 1),
        db.wal.current.n < u64::MAX,
        mid == (Db { engine: mid.engine, ..db }),
        upkeep::finished_all(db, mid, db.engine.txns.aborting@),
        mid.wf(),
        checkpoint::checkpointed(mid, last, now),
        last.wf(),
        opening::opening(db.name@, last.data, last.ns@) matches Ok(o) ==> opening::resumed(
            again,
            db.name@,
            last.data,
            o,
        ) && again.wf(),
    ensures
        opening::opening(db.name@, last.data, last.ns@) is Ok,
        forall|p: Place| #[trigger]
            again.engine@.read(Viewer::Latest, p) == db.engine@.read(Viewer::Latest, p),
{
    let ids = db.engine.txns.aborting@;
    assert forall|i: int| 0 <= i < ids.len() implies db.engine@.txns.aborting.contains(
        #[trigger] ids[i],
    ) by {}
    upkeep::aborted_all_txns(db.engine@, ids);
    let m = aborts_are_told(db, mid, l, parts);
    let (n, left) = checkpoint_is_told(mid, last, now, m, parts);
    assert(was_saved(last.data)) by {
        promise::saved_header_reads_back(mid, now, last.data.header@);
    }
    saved_rows_can_be_held(last, n, left, last.data);
    durable::log_scans_back(last.wal@, last.ns@, last.header.page_size, left);
    let k = reads_again(last, n, left, last.data, last.ns@, again);
    assert forall|p: Place| #[trigger] again.engine@.read(Viewer::Latest, p) == db.engine@.read(
        Viewer::Latest,
        p,
    ) by {
        aborts_hide_nothing(db.engine@, ids, p);
        assert(last.engine@ == mid.engine@);
    }
}

/// Sequences that start at their numbers stand there.
proof fn raised_to(vs: Seq<(Seq<char>, u64)>, i: int)
    requires
        0 <= i < vs.len(),
        forall|a: int, b: int| 0 <= a < b < vs.len() ==> (#[trigger] vs[a]).0 != (
        #[trigger] vs[b]).0,
    ensures
        generator::raised_all(Map::empty(), vs).dom().contains(vs[i].0),
        generator::raised_all(Map::empty(), vs)[vs[i].0].next == vs[i].1,
    decreases vs.len(),
{
    let front = vs.drop_last();
    raised_only(front);
    if i < front.len() {
        assert(front[i] == vs[i]);
        assert forall|a: int, b: int| 0 <= a < b < front.len() implies (#[trigger] front[a]).0 != (
        #[trigger] front[b]).0 by {
            assert(vs[a].0 != vs[b].0);
        }
        raised_to(front, i);
        assert(vs[i].0 != vs[vs.len() - 1].0);
    } else if generator::raised_all(Map::empty(), front).dom().contains(vs[i].0) {
        let a = choose|a: int| 0 <= a < front.len() && (#[trigger] front[a]).0 == vs[i].0;
        assert(vs[a].0 != vs[i].0);
    }
}

/// Only sequences that are named are there.
proof fn raised_only(vs: Seq<(Seq<char>, u64)>)
    ensures
        forall|name: Seq<char>| #[trigger]
            generator::raised_all(Map::empty(), vs).dom().contains(name) <==> exists|a: int|
                0 <= a < vs.len() && (#[trigger] vs[a]).0 == name,
    decreases vs.len(),
{
    if vs.len() > 0 {
        let front = vs.drop_last();
        raised_only(front);
        assert forall|name: Seq<char>| #[trigger]
            generator::raised_all(Map::empty(), vs).dom().contains(name) <==> exists|a: int|
                0 <= a < vs.len() && (#[trigger] vs[a]).0 == name by {
            let was = generator::raised_all(Map::empty(), front);
            let now = generator::raised_all(Map::empty(), vs);
            assert(now == generator::raised(was, vs.last().0, vs.last().1));
            assert(now.dom().contains(name) <==> was.dom().contains(name) || name == vs.last().0);
            if exists|a: int| 0 <= a < front.len() && (#[trigger] front[a]).0 == name {
                let a = choose|a: int| 0 <= a < front.len() && (#[trigger] front[a]).0 == name;
                assert(vs[a].0 == name);
            }
            if exists|a: int| 0 <= a < vs.len() && (#[trigger] vs[a]).0 == name {
                let a = choose|a: int| 0 <= a < vs.len() && (#[trigger] vs[a]).0 == name;
                if a < front.len() {
                    assert(front[a].0 == name);
                }
            }
            assert(vs[vs.len() - 1] == vs.last());
        }
    }
}

/// The sequences of a database, started at their next values, are those of the
/// database.
proof fn sequences_read_back(db: Db)
    requires
        db.wf(),
    ensures
        ({
            let m = generator::raised_all(
                Map::empty(),
                generator::next_pairs(db.generator.gens@),
            );
            &&& m.dom() == db.generator@.dom()
            &&& forall|name: Seq<char>| #[trigger]
                db.generator@.dom().contains(name) ==> m[name].next == db.generator@[name].next
        }),
{
    let gens = generator::seq_pairs(db.generator.gens@);
    let vs = generator::next_pairs(db.generator.gens@);
    let m = generator::raised_all(Map::empty(), vs);
    raised_only(vs);
    assert forall|a: int, b: int| 0 <= a < b < vs.len() implies (#[trigger] vs[a]).0 != (
    #[trigger] vs[b]).0 by {
        assert(gens[a].0 != gens[b].0);
    }
    assert forall|name: Seq<char>| #[trigger] m.dom().contains(name)
        <==> db.generator@.dom().contains(name) by {
        if m.dom().contains(name) {
            let a = choose|a: int| 0 <= a < vs.len() && (#[trigger] vs[a]).0 == name;
            assoc::assoc_at(gens, a);
            assert(gens[a].0 == name);
        }
        if db.generator@.dom().contains(name) {
            let a = assoc::assoc_find(gens, name);
            assert(vs[a].0 == name);
        }
    }
    assert(m.dom() =~= db.generator@.dom());
    assert forall|name: Seq<char>| #[trigger] db.generator@.dom().contains(name) implies m[name].next
        == db.generator@[name].next by {
        let a = assoc::assoc_find(gens, name);
        assoc::assoc_at(gens, a);
        assert(vs[a].0 == name);
        raised_to(vs, a);
    }
}

/// Records that all have numbers below the floor are not needed.
proof fn none_needed(es: Seq<Entry>, floor: u64)
    requires
        forall|i: int| 0 <= i < es.len() ==> (#[trigger] es[i]).lsn.0 < floor,
    ensures
        recovery::above(es, floor).len() == 0,
{
    crash::above_members(es, floor);
    if recovery::above(es, floor).len() > 0 {
        let e = recovery::above(es, floor)[0];
        assert(es.contains(e));
    }
}

/// Is no transaction active?
pub open spec fn nobody_is_active(db: Db) -> bool {
    forall|x: u64| !(#[trigger] db.engine@.txns.active.dom().contains(x))
}

/// A record of a segment is one of the log.
proof fn part_of_joined(parts: Seq<Seq<Entry>>, i: int, e: Entry)
    requires
        0 <= i < parts.len(),
        parts[i].contains(e),
    ensures
        wal::joined(parts).contains(e),
    decreases parts.len(),
{
    let front = wal::joined(parts.drop_last());
    let all = wal::joined(parts);
    if i < parts.len() - 1 {
        assert(parts.drop_last()[i] == parts[i]);
        part_of_joined(parts.drop_last(), i, e);
        let k = choose|k: int| 0 <= k < front.len() && front[k] == e;
        assert(all[k] == e);
    } else {
        let k = choose|k: int| 0 <= k < parts[i].len() && parts[i][k] == e;
        assert(all[front.len() + k] == e);
    }
}

/// A checkpoint that is taken while no transaction is in flight leaves no
/// record in the log, in one segment.
#[verifier::rlimit(60)]
#[verifier::spinoff_prover]
proof fn nothing_is_left(mid: Db, last: Db, now: u128, n: Life, left: Seq<Seq<Entry>>)
    requires
        mid.wf(),
        last.wf(),
        checkpoint::checkpointed(mid, last, now),
        forall|x: u64| !(#[trigger] mid.engine@.txns.unfinished(x)),
        told(last, n, left),
        last.queued().len() == 0,
        n.now().floor == checkpoint::floor_of(mid.engine@),
    ensures
        recovery::above(wal::joined(left), n.now().floor).len() == 0,
        last.wal@.older.len() == 0,
        last.ns@.files[last.wal@.at as int].data == last.wal@.header,
        last.wal@.header.len() == framing::log_header_len(),
{
    let floor = n.now().floor;
    let ids = mid.engine@.txns.active.dom().union(mid.engine@.txns.aborting);
    assert forall|x: u64| !(#[trigger] ids.contains(x)) by {
        assert(!mid.engine@.txns.unfinished(x));
    }
    assert(floor == mid.engine@.counter) by {
        if exists|x: u64| mvcc::is_least(ids, x) {
            let x = choose|x: u64| mvcc::is_least(ids, x);
            assert(ids.contains(x));
        }
    }
    crash::promises_are_always_kept(n.first, n.evs);
    assert(wal::joined(left) + last.queued() =~= wal::joined(left));
    none_needed(n.now().log, floor);
    let es = wal::joined(left);
    crash::above_members(es, floor);
    assert forall|i: int| 0 <= i < es.len() implies (#[trigger] es[i]).lsn.0 < floor by {
        if es[i].lsn.0 >= floor {
            assert(recovery::above(es, floor).contains(es[i]));
        }
    }
    let run = wal::ran(mid.log(), wal::record_msgs(mid.queued()), 0);
    let segs = run.wal.older.push(
        segment::Seg { bytes: run.wal.segment_bytes, ..run.wal.current },
    );
    wal::kept_at_floor(segs, floor);
    if last.wal@.older.len() > 0 {
        let all = durable::all_segs(last.wal@);
        assert(all[0] == last.wal@.older[0]);
        assert(durable::seg_holds(last.ns@, last.header.page_size, all[0], left[0]));
        assert forall|i: int| 0 <= i < left[0].len() implies (#[trigger] left[0][i]).lsn.0
            < floor by {
            assert(left[0].contains(left[0][i]));
            part_of_joined(left, 0, left[0][i]);
            let k = choose|k: int| 0 <= k < es.len() && es[k] == left[0][i];
            assert(es[k].lsn.0 < floor);
        }
        wal::top_lsn_bound(0, left[0], floor);
    }
    framing::log_header_round_trip(wal::header_of(last.header.page_size), Seq::empty());
    assert(last.ns@ == wal::rolled(run, floor).disk);
    assert(last.wal@.at == run.disk.files.len() as usize);
    wal::records_in_batches(mid.log(), mid.queued(), 0);
    last.ns.count_fits();
}

/// A database that was closed opens again with the tables, the pages and the
/// free list that it had, and hands out only numbers that it had not handed
/// out. If no transaction was active, nothing is replayed, the log is one
/// segment that holds no record, and every sequence goes on where it was.
#[verifier::rlimit(60)]
#[verifier::spinoff_prover]
pub proof fn closed_database_opens_as_it_was(
    db: Db,
    l: Life,
    parts: Seq<Seq<Entry>>,
    now: u128,
    mid: Db,
    last: Db,
    again: Db,
)
    requires
        db.wf(),
        told(db, l, parts),
        can_be_saved(db),
        db.room(db.engine.txns.aborting@.len() + 1),
        db.wal.current.n < u64::MAX,
        mid == (Db { engine: mid.engine, ..db }),
        upkeep::finished_all(db, mid, db.engine.txns.aborting@),
        mid.wf(),
        checkpoint::checkpointed(mid, last, now),
        last.wf(),
        opening::opening(db.name@, last.data, last.ns@) matches Ok(o) ==> opening::resumed(
            again,
            db.name@,
            last.data,
            o,
        ) && again.wf(),
    ensures
        opening::opening(db.name@, last.data, last.ns@) is Ok,
        table::tabs(again.tables@) == table::tabs(db.tables@),
        again.page_count == db.page_count,
        again.links@ == db.links@,
        again.free_pages@ == db.free_pages@,
        again.engine.clock.counter >= db.engine.clock.counter,
        nobody_is_active(db) ==> {
            &&& again.recovered_records == 0
            &&& again.generator@.dom() == db.generator@.dom()
            &&& forall|name: Seq<char>| #[trigger]
                db.generator@.dom().contains(name) ==> again.generator@[name].next
                    == db.generator@[name].next
            &&& last.wal@.older.len() == 0
            &&& last.ns@.files[last.wal@.at as int].data == last.wal@.header
            &&& last.wal@.header.len() == framing::log_header_len()
        },
{
    let ids = db.engine.txns.aborting@;
    assert forall|i: int| 0 <= i < ids.len() implies db.engine@.txns.aborting.contains(
        #[trigger] ids[i],
    ) by {}
    upkeep::aborted_all_txns(db.engine@, ids);
    let m = aborts_are_told(db, mid, l, parts);
    let (n, left) = checkpoint_is_told(mid, last, now, m, parts);
    promise::saved_header_reads_back(mid, now, last.data.header@);
    catalog::system_pages_read_back(
        table::tabs(mid.tables@),
        generator::next_pairs(mid.generator.gens@),
        mid.free_pages@,
        mid.header.page_size,
        last.data.system,
    );
    durable::log_scans_back(last.wal@, last.ns@, last.header.page_size, left);
    saved_rows_can_be_held(last, n, left, last.data);
    let k = choose|k: int| #[trigger]
        durable_at(last.data, n, k, left) && history::in_file(n.at(k), last.data.rows@);
    found_again(last, n, left, last.data, last.ns@, k);
    let o = opening::opening(db.name@, last.data, last.ns@)->Ok_0;
    assert(o.header == checkpoint::checkpoint_header(mid, now));
    if nobody_is_active(db) {
        nothing_is_left(mid, last, now, n, left);
        sequences_read_back(db);
        assert(recovery::entry_ops(o.records) =~= seq![]);
    }
}

} // verus!
