//! Tables and sequences: what comes into being and goes outside of
//! transactions.
use vstd::prelude::*;
use vstd::string::*;

use crate::catalog;
use crate::checkpoint;
use crate::clock::LsnId;
use crate::db;
use crate::db::Db;
use crate::engine::Engine;
use crate::error::{Fault, StoreError};
use crate::freelist;
use crate::freelist::page_chain;
use crate::generator;
use crate::generator::{Generator, Marks, SEQUENCE_CHUNK};
use crate::mvcc;
use crate::mvcc::{Core, Place};
use crate::opening;
use crate::operation;
use crate::operation::{Entry, LogRecord, Op, Operation};
use crate::page::{PageId, Sheet};
use crate::steps;
use crate::table;
use crate::table::{Tab, Table, TableIdType};
use crate::text;
use crate::text::{chars_of, has_prefix, same_text};

verus! {

/// The longest name that a table can have, in bytes.
pub const MAX_TABLE_NAME_LEN: usize = 255;

/// The room that an index entry gets in a table that asks for none.
pub const MAX_ENTRY_BYTES: u64 = 64;

/// The operations under consecutive numbers.
pub open spec fn stamped(ops: Seq<Op>, from: u64) -> Seq<Entry> {
    Seq::new(ops.len(), |i: int| Entry { lsn: LsnId((from + i) as u64), op: ops[i] })
}

impl Db {
    /// Queues the marks that the sequences left, each under a number of its
    /// own.
    fn queue_marks(&mut self)
        requires
            old(self).engine.wf(),
            steps::graves_ok(old(self).engine@, old(self).graves()),
            old(self).room(old(self).generator.outbox@.len()),
        ensures
            final(self).engine.wf(),
            steps::graves_ok(final(self).engine@, final(self).graves()),
            *final(self) == (Db {
                engine: final(self).engine,
                generator: final(self).generator,
                ..*old(self)
            }),
            final(self).generator.gens == old(self).generator.gens,
            final(self).generator.attached == old(self).generator.attached,
            final(self).generator.outbox@.len() == 0,
            final(self).engine == (Engine {
                out: final(self).engine.out,
                clock: final(self).engine.clock,
                ..old(self).engine
            }),
            final(self).engine@ == (Core {
                counter: old(self).engine@.counter + old(self).generator.outbox@.len(),
                ..old(self).engine@
            }),
            final(self).engine.clock.last_written == old(self).engine.clock.last_written,
            final(self).queued() == old(self).queued() + stamped(
                old(self).generator.log(),
                old(self).engine.clock.counter,
            ),
    {
        let mut marks: Vec<Operation> = Vec::new();
        std::mem::swap(&mut marks, &mut self.generator.outbox);
        let ghost from = self.engine.clock.counter;
        let ghost all = stamped(generator::ops(marks@), from);
        let ghost gen = self.generator;
        let ghost total = marks@.len();
        assert(old(self).queued() + all.take(0) =~= old(self).queued());
        for op in it: marks
            invariant
                it.seq() == marks@,
                total == marks@.len(),
                all == stamped(generator::ops(marks@), from),
                from + total <= u64::MAX,
                from == old(self).engine.clock.counter,
                self.engine.wf(),
                steps::graves_ok(self.engine@, self.graves()),
                steps::graves_ok(old(self).engine@, old(self).graves()),
                *self == (Db { engine: self.engine, generator: gen, ..*old(self) }),
                self.engine == (Engine {
                    out: self.engine.out,
                    clock: self.engine.clock,
                    ..old(self).engine
                }),
                self.engine@ == (Core {
                    counter: (from + it.index()) as nat,
                    ..old(self).engine@
                }),
                self.engine.clock.last_written == old(self).engine.clock.last_written,
                self.queued() == old(self).queued() + all.take(it.index()),
        {
            let ghost i = it.index();
            let lsn = self.engine.next_lsn();
            let record = LogRecord { lsn, operation: op };
            let ghost before = self.queued();
            self.engine.out.push(record);
            proof {
                assert(all[i] == record@);
                assert(self.queued() =~= before.push(record@));
                assert(all.take(i + 1) =~= all.take(i).push(all[i]));
                assert(self.queued() =~= old(self).queued() + all.take(i + 1));
                steps::graves_stay(old(self).engine@, self.engine@, self.graves());
            }
        }
        assert(all.take(total as int) =~= all);
    }
}

// ---------------------------------------------------------------------------
// Sequences
// ---------------------------------------------------------------------------

/// What a change of the sequences comes to: they are as `now` says, and the
/// marks are queued.
pub open spec fn remarked(
    before: Db,
    after: Db,
    now: Map<Seq<char>, Marks>,
    marks: Seq<Op>,
) -> bool {
    &&& after == Db { engine: after.engine, generator: after.generator, ..before }
    &&& after.generator@ == now
    &&& after.engine@ == Core { counter: before.engine@.counter + marks.len(), ..before.engine@ }
    &&& after.queued() == before.queued() + stamped(marks, before.engine.clock.counter)
    &&& after.graves() == before.graves()
    &&& after.engine.clock.last_written == before.engine.clock.last_written
}

/// How far a sequence is covered once its next value is handed out.
pub open spec fn next_high(m: Marks) -> u64 {
    if m.next >= m.high {
        (m.next + SEQUENCE_CHUNK) as u64
    } else {
        m.high
    }
}

/// The marks that handing out the next value of a sequence leaves.
pub open spec fn next_marks(name: Seq<char>, m: Marks) -> Seq<Op> {
    if m.next >= m.high {
        seq![generator::mark_op(name, next_high(m), false)]
    } else {
        seq![]
    }
}

/// What the creation of a sequence comes to: there is one of that name, or it
/// starts where it was asked to, or at 0, and that is logged.
pub open spec fn sequence_made(
    before: Db,
    after: Db,
    name: Seq<char>,
    start: Option<u64>,
    r: Result<(), Fault>,
) -> bool {
    match r {
        Ok(()) => {
            let s = start.unwrap_or(0);
            &&& !before.generator@.dom().contains(name)
            &&& remarked(
                before,
                after,
                before.generator@.insert(name, Marks { next: s, high: s }),
                seq![generator::mark_op(name, s, false)],
            )
        },
        Err(f) => before.generator@.dom().contains(name) && f == Fault::DuplicateName(name)
            && after == before,
    }
}

/// What asking a sequence for a value comes to: there is none of that name, or
/// its next value is handed out.
pub open spec fn handed_out(before: Db, after: Db, name: Seq<char>, r: Result<u64, Fault>) -> bool {
    match r {
        Ok(v) => {
            let m = before.generator@[name];
            &&& before.generator@.dom().contains(name)
            &&& v == m.next
            &&& remarked(
                before,
                after,
                before.generator@.insert(
                    name,
                    Marks { next: (m.next + 1) as u64, high: next_high(m) },
                ),
                next_marks(name, m),
            )
        },
        Err(f) => !before.generator@.dom().contains(name) && f == Fault::MissingKey(name) && after
            == before,
    }
}

/// What the removal of a sequence comes to: it is gone, whether it was there or
/// not, unless it is the one that numbers the tables.
pub open spec fn sequence_gone(before: Db, after: Db, name: Seq<char>, r: Result<(), Fault>) -> bool {
    match r {
        Ok(()) => name != db::system_name() && remarked(
            before,
            after,
            before.generator@.remove(name),
            removal_marks(before.generator@, name),
        ),
        Err(f) => name == db::system_name() && f == Fault::ReservedTableName(name) && after
            == before,
    }
}

impl Db {
    /// The sequences.
    pub fn get_generator(&self) -> (g: &Generator)
        ensures
            *g == self.generator,
    {
        &self.generator
    }

    /// Creates a sequence that starts at `start`, or at 0.
    pub fn create_generator(&mut self, name: &str, start: Option<u64>) -> (r: Result<
        (),
        StoreError,
    >)
        requires
            old(self).wf(),
            old(self).room(1),
        ensures
            final(self).wf(),
            sequence_made(*old(self), *final(self), name@, start, outcome(r)),
    {
        if let Err(e) = self.generator.create_generator(name, start) {
            return Err(e);
        }
        proof {
            let s = start.unwrap_or(0);
            assert(self.generator.log() =~= seq![generator::mark_op(name@, s, false)]);
        }
        self.queue_marks();
        Ok(())
    }

    /// Hands out the next value of a sequence.
    pub fn gen_key(&mut self, name: &str) -> (r: Result<u64, StoreError>)
        requires
            old(self).wf(),
            old(self).room(1),
            old(self).generator@.dom().contains(name@) ==> old(self).generator@[name@].next
                <= u64::MAX - SEQUENCE_CHUNK,
        ensures
            final(self).wf(),
            handed_out(*old(self), *final(self), name@, outcome(r)),
    {
        let v: u64 = match self.generator.gen_key(name) {
            Ok(v) => v,
            Err(e) => {
                return Err(e);
            },
        };
        proof {
            assert(self.generator.log() =~= next_marks(name@, old(self).generator@[name@]));
        }
        self.queue_marks();
        Ok(v)
    }

    /// Removes a sequence; one that does not exist is no error. The sequence
    /// that numbers the tables is reserved, and stays.
    pub fn remove_generator(&mut self, name: &str) -> (r: Result<(), StoreError>)
        requires
            old(self).wf(),
            old(self).room(1),
        ensures
            final(self).wf(),
            sequence_gone(*old(self), *final(self), name@, outcome(r)),
    {
        if same_text(name, "__system.tables") {
            return Err(StoreError::ReservedTableName(name.to_owned()));
        }
        let r = self.generator.remove_generator(name);
        proof {
            assert(self.generator.log() =~= removal_marks(old(self).generator@, name@));
        }
        self.queue_marks();
        r
    }
}

/// The marks that the removal of a sequence leaves.
pub open spec fn removal_marks(m: Map<Seq<char>, Marks>, name: Seq<char>) -> Seq<Op> {
    if m.dom().contains(name) {
        seq![generator::mark_op(name, 0, true)]
    } else {
        seq![]
    }
}

// ---------------------------------------------------------------------------
// Pages
// ---------------------------------------------------------------------------

/// The pages of the file: which are free, how many there are, and what is
/// behind each.
#[verifier::ext_equal]
pub struct Space {
    pub free: Seq<PageId>,
    pub count: u64,
    pub links: Seq<u64>,
}

impl Space {
    /// The links with none behind `p`.
    pub open spec fn cut(self, p: PageId) -> Seq<u64> {
        if p.0 < self.links.len() {
            self.links.update(p.0 as int, 0)
        } else {
            self.links
        }
    }

    /// The page that is used next: one that is free, or a new one.
    pub open spec fn next(self) -> PageId {
        if self.free.len() > 0 {
            self.free.last()
        } else {
            PageId(self.count)
        }
    }

    /// Once the next page is in use.
    pub open spec fn taken(self) -> Space {
        if self.free.len() > 0 {
            Space { free: self.free.drop_last(), links: self.cut(self.free.last()), ..self }
        } else {
            Space { count: (self.count + 1) as u64, links: self.links.push(0), ..self }
        }
    }

    /// Once a page is free.
    pub open spec fn freed(self, p: PageId) -> Space {
        Space { free: self.free.push(p), links: self.cut(p), ..self }
    }

    /// Once these pages are free.
    pub open spec fn freed_all(self, ps: Seq<PageId>) -> Space
        decreases ps.len(),
    {
        if ps.len() == 0 {
            self
        } else {
            self.freed_all(ps.drop_last()).freed(ps.last())
        }
    }
}

impl Db {
    /// The pages of the file.
    pub open spec fn space(&self) -> Space {
        Space { free: self.free_pages@, count: self.page_count, links: self.links@ }
    }

    /// Puts a page to use.
    fn alloc_page(&mut self) -> (p: PageId)
        requires
            old(self).links@.len() == old(self).page_count,
            old(self).page_count < u64::MAX,
        ensures
            final(self).links@.len() == final(self).page_count,
            final(self).page_count <= old(self).page_count + 1,
            *final(self) == (Db {
                free_pages: final(self).free_pages,
                page_count: final(self).page_count,
                links: final(self).links,
                ..*old(self)
            }),
            p == old(self).space().next(),
            final(self).space() == old(self).space().taken(),
    {
        match self.free_pages.pop() {
            Some(p) => {
                if p.0 < self.links.len() as u64 {
                    self.links.set(p.0 as usize, 0);
                }
                p
            },
            None => {
                let p = PageId(self.page_count);
                self.links.push(0);
                self.page_count = self.page_count + 1;
                p
            },
        }
    }

    /// Frees pages.
    fn free_all(&mut self, ps: &Vec<PageId>)
        ensures
            final(self).links@.len() == old(self).links@.len(),
            *final(self) == (Db {
                free_pages: final(self).free_pages,
                links: final(self).links,
                ..*old(self)
            }),
            final(self).space() == old(self).space().freed_all(ps@),
    {
        for i in 0..ps.len()
            invariant
                self.links@.len() == old(self).links@.len(),
                *self == (Db { free_pages: self.free_pages, links: self.links, ..*old(self) }),
                self.space() == old(self).space().freed_all(ps@.take(i as int)),
        {
            let p = ps[i];
            self.free_pages.push(p);
            if p.0 < self.links.len() as u64 {
                self.links.set(p.0 as usize, 0);
            }
            proof {
                assert(ps@.take(i + 1).drop_last() =~= ps@.take(i as int));
                assert(self.space() =~= old(self).space().freed_all(ps@.take(i as int)).freed(p));
            }
        }
        assert(ps@.take(ps@.len() as int) =~= ps@);
    }
}

// ---------------------------------------------------------------------------
// Tables
// ---------------------------------------------------------------------------

/// Is there a table of this name?
pub open spec fn has_name(s: Seq<Table>, name: Seq<char>) -> bool {
    exists|i: int| 0 <= i < s.len() && (#[trigger] s[i]).name@ == name
}

/// Why a table cannot have this name, if it cannot.
pub open spec fn name_fault(db: Db, name: Seq<char>) -> Option<Fault> {
    let len = vstd::utf8::encode_utf8(name).len();
    if len > MAX_TABLE_NAME_LEN {
        Some(Fault::TableNameInvalid(MAX_TABLE_NAME_LEN, len as usize))
    } else if text::starts_with(name, db::reserved_prefix()) {
        Some(Fault::ReservedTableName(name))
    } else if has_name(db.tables@, name) {
        Some(Fault::DuplicateName(name))
    } else {
        None
    }
}

/// Once a table is built: it has the next number, a sequence of its own, and
/// two pages.
pub open spec fn built(before: Db, after: Db, name: Seq<char>, size: u64) -> bool {
    let sys = before.generator@[db::system_name()];
    let marks = seq![generator::mark_op(name, 0, false)] + next_marks(db::system_name(), sys);
    let id = TableIdType(sys.next);
    let ticked = Core { counter: before.engine@.counter + marks.len(), ..before.engine@ };
    &&& after == Db {
        tables: after.tables,
        generator: after.generator,
        engine: after.engine,
        free_pages: after.free_pages,
        page_count: after.page_count,
        links: after.links,
        ..before
    }
    &&& table::tabs(after.tables@) == table::tabs(before.tables@).push(
        Tab {
            id,
            name,
            first_index_page: before.space().next(),
            first_data_page: before.space().taken().next(),
            index_entry_size: size,
        },
    )
    &&& after.space() == before.space().taken().taken()
    &&& after.generator@ == before.generator@.insert(name, Marks { next: 0, high: 0 }).insert(
        db::system_name(),
        Marks { next: (sys.next + 1) as u64, high: next_high(sys) },
    )
    &&& after.engine@ == ticked.with_table(id)
    &&& after.queued() == before.queued() + stamped(marks, before.engine.clock.counter)
    &&& after.graves() == before.graves()
    &&& after.engine.clock.last_written == before.engine.clock.last_written
}

/// The first pages of tables: those of the system, and two of each table.
pub proof fn starts_listed(ts: Seq<Tab>, p: PageId)
    ensures
        opening::starts_of(ts).contains(p) <==> p.0 < 3 || exists|i: int|
            0 <= i < ts.len() && ((#[trigger] ts[i]).first_index_page == p
                || ts[i].first_data_page == p),
    decreases ts.len(),
{
    let s = opening::starts_of(ts);
    if ts.len() == 0 {
        if p.0 < 3 {
            assert(s[p.0 as int] == p);
        }
    } else {
        let front = ts.drop_last();
        let f = opening::starts_of(front);
        let t = ts.last();
        starts_listed(front, p);
        let n = f.len() as int;
        if f.contains(p) {
            let i = choose|i: int| 0 <= i < f.len() && f[i] == p;
            assert(s[i] == p);
        }
        if t.first_index_page == p {
            assert(s[n] == p);
        }
        if t.first_data_page == p {
            assert(s[n + 1] == p);
        }
        if s.contains(p) {
            let i = choose|i: int| 0 <= i < s.len() && s[i] == p;
            if i < n {
                assert(f[i] == p);
                if p.0 >= 3 {
                    let j = choose|j: int|
                        0 <= j < front.len() && ((#[trigger] front[j]).first_index_page == p
                            || front[j].first_data_page == p);
                    assert(ts[j] == front[j]);
                }
            } else {
                assert(ts[ts.len() - 1] == t);
            }
        }
        if exists|i: int|
            0 <= i < ts.len() && ((#[trigger] ts[i]).first_index_page == p
                || ts[i].first_data_page == p) {
            let i = choose|i: int|
                0 <= i < ts.len() && ((#[trigger] ts[i]).first_index_page == p
                    || ts[i].first_data_page == p);
            if i < ts.len() - 1 {
                assert(front[i] == ts[i]);
            }
        }
    }
}

/// Pages that hang together still do with one more in use.
proof fn taken_is_sound(ts: Seq<Tab>, s: Space)
    requires
        s.links.len() == s.count,
        s.count < u64::MAX,
        db::pages_sound(ts, s.free, s.links),
    ensures
        db::pages_sound(ts, s.taken().free, s.taken().links),
        s.taken().links.len() == s.taken().count,
        freelist::links_fewer(s.taken().links, s.links),
        s.links.len() <= s.taken().links.len(),
        s.next().0 < s.taken().links.len(),
        freelist::next_of(s.taken().links, s.next().0) is None,
{
    let t = s.taken();
    let starts = opening::starts_of(ts);
    assert forall|p: u64| #[trigger] freelist::next_of(t.links, p) is Some implies freelist::next_of(
        t.links,
        p,
    ) == freelist::next_of(s.links, p) by {}
    if s.free.len() > 0 {
        assert(s.free[s.free.len() - 1].0 < s.links.len());
    }
    assert forall|i: int| 0 <= i < t.free.len() implies (#[trigger] t.free[i]).0
        < t.links.len() by {
        assert(s.free[i].0 < s.links.len());
    }
    freelist::stays_inside(s.links, starts, t.links, starts);
}

/// Pages that hang together still do when a table gets two of them.
proof fn built_is_sound(ts: Seq<Tab>, t: Tab, s: Space)
    requires
        s.links.len() == s.count,
        s.count < u64::MAX - 1,
        db::pages_sound(ts, s.free, s.links),
        t.first_index_page == s.next(),
        t.first_data_page == s.taken().next(),
    ensures
        db::pages_sound(ts.push(t), s.taken().taken().free, s.taken().taken().links),
{
    let a = s.taken();
    let b = a.taken();
    taken_is_sound(ts, s);
    taken_is_sound(ts, a);
    let old = opening::starts_of(ts);
    let new = opening::starts_of(ts.push(t));
    assert(ts.push(t).drop_last() =~= ts);
    assert(freelist::next_of(b.links, s.next().0) is None) by {
        if freelist::next_of(b.links, s.next().0) is Some {
            assert(freelist::next_of(a.links, s.next().0) is Some);
        }
    }
    assert forall|i: int| 0 <= i < new.len() implies old.contains(#[trigger] new[i]) || (new[i].0
        < b.links.len() && freelist::next_of(b.links, new[i].0) is None) by {
        if i < old.len() {
            assert(new[i] == old[i]);
        }
    }
    freelist::stays_inside(a.links, old, b.links, new);
}

/// Freeing pages cuts links, and nothing else.
proof fn freed_all_facts(s: Space, ps: Seq<PageId>)
    requires
        forall|i: int| 0 <= i < s.free.len() ==> (#[trigger] s.free[i]).0 < s.links.len(),
        forall|i: int| 0 <= i < ps.len() ==> (#[trigger] ps[i]).0 < s.links.len(),
    ensures
        s.freed_all(ps).links.len() == s.links.len(),
        freelist::links_fewer(s.freed_all(ps).links, s.links),
        forall|i: int|
            0 <= i < s.freed_all(ps).free.len() ==> (#[trigger] s.freed_all(ps).free[i]).0
                < s.links.len(),
    decreases ps.len(),
{
    if ps.len() > 0 {
        let front = ps.drop_last();
        let f = s.freed_all(front);
        let t = s.freed_all(ps);
        assert forall|i: int| 0 <= i < front.len() implies (#[trigger] front[i]).0
            < s.links.len() by {
            assert(ps[i].0 < s.links.len());
        }
        freed_all_facts(s, front);
        assert(ps[ps.len() - 1].0 < s.links.len());
        assert forall|i: int| 0 <= i < t.free.len() implies (#[trigger] t.free[i]).0
            < s.links.len() by {
            if i < f.free.len() {
                assert(t.free[i] == f.free[i]);
            }
        }
        assert forall|p: u64| #[trigger] freelist::next_of(t.links, p)
            is Some implies freelist::next_of(t.links, p) == freelist::next_of(s.links, p) by {
            assert(freelist::next_of(f.links, p) is Some);
        }
    }
}

/// Pages that hang together still do without a table, once its pages are free.
proof fn apart_is_sound(ts: Seq<Tab>, i: int, s: Space)
    requires
        0 <= i < ts.len(),
        db::pages_sound(ts, s.free, s.links),
    ensures
        ({
            let ps = seq![ts[i].first_index_page] + freelist::chain(
                s.links,
                ts[i].first_data_page.0,
                s.links.len(),
            );
            db::pages_sound(ts.remove(i), s.freed_all(ps).free, s.freed_all(ps).links)
        }),
{
    let chain = freelist::chain(s.links, ts[i].first_data_page.0, s.links.len());
    let ps = seq![ts[i].first_index_page] + chain;
    let starts = opening::starts_of(ts);
    let left = opening::starts_of(ts.remove(i));
    starts_listed(ts, ts[i].first_index_page);
    starts_listed(ts, ts[i].first_data_page);
    assert forall|k: int| 0 <= k < ps.len() implies (#[trigger] ps[k]).0 < s.links.len() by {
        if k == 0 {
            let j = choose|j: int| 0 <= j < starts.len() && starts[j] == ts[i].first_index_page;
            assert(freelist::nth(s.links, starts[j].0, 0) == Some(ps[k].0));
            assert(freelist::reached(s.links, starts, ps[k].0));
        } else {
            let j = choose|j: int| 0 <= j < starts.len() && starts[j] == ts[i].first_data_page;
            freelist::chain_is_reached(
                s.links,
                ts[i].first_data_page.0,
                s.links.len(),
                k - 1,
            );
            assert(freelist::nth(s.links, starts[j].0, (k - 1) as nat) == Some(ps[k].0));
            assert(freelist::reached(s.links, starts, ps[k].0));
        }
    }
    freed_all_facts(s, ps);
    assert forall|k: int| 0 <= k < left.len() implies starts.contains(#[trigger] left[k]) by {
        let p = left[k];
        starts_listed(ts.remove(i), p);
        starts_listed(ts, p);
        assert(left.contains(p));
        if p.0 >= 3 {
            let less = ts.remove(i);
            let j = choose|j: int|
                0 <= j < less.len() && ((#[trigger] less[j]).first_index_page == p
                    || less[j].first_data_page == p);
            let from = if j < i {
                j
            } else {
                j + 1
            };
            assert(ts[from] == less[j]);
        }
    }
    freelist::stays_inside(s.links, starts, s.freed_all(ps).links, left);
}

/// Where the first pages of tables stand in the list of all.
proof fn starts_in_order(ts: Seq<Tab>)
    ensures
        opening::starts_of(ts).len() == 3 + 2 * ts.len(),
        forall|i: int| 0 <= i < 3 ==> (#[trigger] opening::starts_of(ts)[i]).0 == i,
        forall|j: int|
            0 <= j < ts.len() ==> opening::starts_of(ts)[3 + 2 * j] == (
            #[trigger] ts[j]).first_index_page && opening::starts_of(ts)[4 + 2 * j]
                == ts[j].first_data_page,
    decreases ts.len(),
{
    if ts.len() > 0 {
        let front = ts.drop_last();
        let s = opening::starts_of(ts);
        starts_in_order(front);
        assert forall|i: int| 0 <= i < 3 implies (#[trigger] s[i]).0 == i by {
            assert(s[i] == opening::starts_of(front)[i]);
        }
        assert forall|j: int| 0 <= j < ts.len() implies s[3 + 2 * j] == (
        #[trigger] ts[j]).first_index_page && s[4 + 2 * j] == ts[j].first_data_page by {
            if j < front.len() {
                assert(front[j] == ts[j]);
                assert(s[3 + 2 * j] == opening::starts_of(front)[3 + 2 * j]);
                assert(s[4 + 2 * j] == opening::starts_of(front)[4 + 2 * j]);
            }
        }
    }
}

/// With one more page in use, every page is still in use once or free once.
proof fn taken_is_apart(starts: Seq<PageId>, s: Space)
    requires
        s.links.len() == s.count,
        s.count < u64::MAX,
        forall|i: int| 0 <= i < s.free.len() ==> (#[trigger] s.free[i]).0 < s.links.len(),
        db::pages_apart(starts, s.free, s.links),
    ensures
        ({
            let t = s.taken();
            &&& db::pages_apart(starts.push(s.next()), t.free, t.links)
            &&& t.links.len() == t.count
            &&& forall|i: int| 0 <= i < t.free.len() ==> (#[trigger] t.free[i]).0 < t.links.len()
        }),
{
    let t = s.taken();
    let p = s.next();
    let more = starts.push(p);
    if s.free.len() > 0 {
        assert(s.free[s.free.len() - 1] == p);
    }
    assert(!starts.contains(p)) by {
        if starts.contains(p) {
            let i = choose|i: int| 0 <= i < starts.len() && starts[i] == p;
            assert(starts[i].0 < s.links.len());
        }
    }
    assert forall|i: int| 0 <= i < t.free.len() implies !more.contains(#[trigger] t.free[i])
        && t.free[i].0 < t.links.len() by {
        assert(t.free[i] == s.free[i]);
        assert(!starts.contains(s.free[i]));
        if more.contains(t.free[i]) {
            let k = choose|k: int| 0 <= k < more.len() && more[k] == t.free[i];
            if k < starts.len() {
                assert(starts[k] == s.free[i]);
            }
        }
    }
    assert forall|i: int| 0 <= i < more.len() implies (#[trigger] more[i]).0 < t.links.len() by {
        if i < starts.len() {
            assert(starts[i].0 < s.links.len());
        }
    }
}

/// When a table gets two pages, every page is still in use once or free once.
pub proof fn built_is_apart(ts: Seq<Tab>, t: Tab, s: Space)
    requires
        s.links.len() == s.count,
        s.count < u64::MAX - 1,
        db::pages_sound(ts, s.free, s.links),
        db::pages_apart(opening::starts_of(ts), s.free, s.links),
        t.first_index_page == s.next(),
        t.first_data_page == s.taken().next(),
    ensures
        db::pages_apart(
            opening::starts_of(ts.push(t)),
            s.taken().taken().free,
            s.taken().taken().links,
        ),
{
    taken_is_apart(opening::starts_of(ts), s);
    taken_is_apart(opening::starts_of(ts).push(s.next()), s.taken());
    assert(ts.push(t).drop_last() =~= ts);
}

/// When a table goes and its pages are free, every page is still in use once or
/// free once.
pub proof fn apart_is_apart(ts: Seq<Tab>, i: int, s: Space)
    requires
        0 <= i < ts.len(),
        db::pages_apart(opening::starts_of(ts), s.free, s.links),
    ensures
        ({
            let ps = seq![ts[i].first_index_page] + freelist::chain(
                s.links,
                ts[i].first_data_page.0,
                s.links.len(),
            );
            db::pages_apart(
                opening::starts_of(ts.remove(i)),
                s.freed_all(ps).free,
                s.freed_all(ps).links,
            )
        }),
{
    let a = ts[i].first_index_page;
    let b = ts[i].first_data_page;
    let less = ts.remove(i);
    let all = opening::starts_of(ts);
    let left = opening::starts_of(less);
    starts_in_order(ts);
    starts_in_order(less);
    assert(all[3 + 2 * i] == a && all[4 + 2 * i] == b);
    let chain = freelist::chain(s.links, b.0, s.links.len());
    assert(s.links[b.0 as int] == 0);
    assert(chain =~= seq![b]);
    let ps = seq![a] + chain;
    assert(ps =~= seq![a, b]);
    assert(ps.drop_last() =~= seq![a]);
    assert(seq![a].drop_last() =~= seq![]);
    let one = s.freed_all(seq![a]);
    let end = s.freed_all(ps);
    assert(s.freed_all(seq![]) == s);
    assert(one == s.freed(a));
    assert(end == one.freed(b));
    assert(end.free =~= s.free.push(a).push(b));
    assert(all.contains(a));
    assert(all.contains(b));
    assert forall|k: int| 0 <= k < left.len() implies #[trigger] left[k] == all[if k < 3 + 2 * i {
        k
    } else {
        k + 2
    }] by {
        if k >= 3 {
            let j = (k - 3) / 2;
            let from = if j < i {
                j
            } else {
                j + 1
            };
            assert(less[j] == ts[from]);
            assert(k == 3 + 2 * j || k == 4 + 2 * j);
            assert(left[3 + 2 * j] == less[j].first_index_page);
            assert(all[3 + 2 * from] == ts[from].first_index_page);
        } else {
            assert(all[k].0 == k);
            assert(left[k].0 == k);
        }
    }
    assert forall|k: int| 0 <= k < end.free.len() implies !left.contains(
        #[trigger] end.free[k],
    ) by {
        let p = end.free[k];
        if left.contains(p) {
            let m = choose|m: int| 0 <= m < left.len() && left[m] == p;
            let from = if m < 3 + 2 * i {
                m
            } else {
                m + 2
            };
            assert(all[from] == p);
            if k < s.free.len() {
                assert(p == s.free[k]);
                assert(all.contains(p));
            }
        }
    }
    assert(end.free.no_duplicates()) by {
        assert forall|x: int, y: int| 0 <= x < y < end.free.len() implies end.free[x]
            != end.free[y] by {
            if x < s.free.len() {
                assert(!all.contains(s.free[x]));
            }
        }
    }
    assert(left.no_duplicates()) by {
        assert forall|x: int, y: int| 0 <= x < y < left.len() implies left[x] != left[y] by {
            assert(left[x] == all[if x < 3 + 2 * i {
                x
            } else {
                x + 2
            }]);
            assert(left[y] == all[if y < 3 + 2 * i {
                y
            } else {
                y + 2
            }]);
        }
    }
}

/// Where every page is in use once or free once, no page that is free is
/// reached.
pub proof fn nothing_free_is_reached(starts: Seq<PageId>, free: Seq<PageId>, links: Seq<u64>)
    requires
        db::pages_apart(starts, free, links),
    ensures
        freelist::not_reached(free, links, starts) == free,
    decreases free.len(),
{
    if free.len() > 0 {
        let front = free.drop_last();
        assert forall|i: int| 0 <= i < front.len() implies !starts.contains(
            #[trigger] front[i],
        ) by {
            assert(!starts.contains(free[i]));
        }
        nothing_free_is_reached(starts, front, links);
        let p = free[free.len() - 1];
        assert(!starts.contains(p));
        if freelist::reached(links, starts, p.0) {
            let (i, k) = choose|i: int, k: nat|
                0 <= i < starts.len() && #[trigger] freelist::nth(
                    links,
                    (#[trigger] starts[i]).0,
                    k,
                ) == Some(p.0);
            freelist::ends_here(links, starts[i].0, k);
            assert(starts[i] == p);
        }
        assert(front.push(p) =~= free);
    }
}

/// Once a table is taken apart: its rows, its sequence and its entry are gone,
/// and its pages are free.
pub open spec fn taken_apart(before: Db, after: Db, i: int) -> bool {
    let t = before.tables@[i]@;
    let marks = removal_marks(before.generator@, t.name);
    &&& after == Db {
        tables: after.tables,
        generator: after.generator,
        engine: after.engine,
        free_pages: after.free_pages,
        links: after.links,
        ..before
    }
    &&& after.tables@ == before.tables@.remove(i)
    &&& after.space() == before.space().freed_all(
        seq![t.first_index_page] + freelist::chain(
            before.links@,
            t.first_data_page.0,
            before.links@.len(),
        ),
    )
    &&& after.generator@ == before.generator@.remove(t.name)
    &&& after.engine@ == Core {
        counter: before.engine@.counter + marks.len(),
        ..before.engine@.without_table(t.id)
    }
    &&& after.queued() == before.queued() + stamped(marks, before.engine.clock.counter)
    &&& after.graves() == before.graves()
    &&& after.engine.clock.last_written == before.engine.clock.last_written
}

/// Once a table that was just built is taken apart again: the tables, the rows
/// and the sequences are those from before. The numbers that were handed out
/// stay so, and the pages that the table had are free.
pub open spec fn unbuilt(before: Db, mid: Db, after: Db) -> bool {
    exists|end: Db| #[trigger]
        taken_apart(mid, end, before.tables@.len() as int) && after == (Db {
            engine: Engine { next_table: before.engine.next_table, ..end.engine },
            ..end
        })
}

/// What is logged for a table that is built and taken apart again.
pub open spec fn unbuilt_marks(before: Db, mid: Db, name: Seq<char>) -> Seq<Op> {
    let sys = before.generator@[db::system_name()];
    (seq![generator::mark_op(name, 0, false)] + next_marks(db::system_name(), sys))
        + removal_marks(mid.generator@, name)
}

/// A table that is built and taken apart again, since the catalog has no room
/// for it, leaves everything as if it had never been: the tables, the rows, the
/// transactions and the sequences. Only the numbers are gone that were handed
/// out.
pub proof fn refused_creation_leaves_no_trace(
    before: Db,
    mid: Db,
    after: Db,
    name: Seq<char>,
    size: u64,
)
    requires
        before.wf(),
        before.room(3),
        before.generator@[db::system_name()].next < u64::MAX,
        !before.generator@.dom().contains(name),
        built(before, mid, name, size),
        unbuilt(before, mid, after),
    ensures
        ({
            let marks = unbuilt_marks(before, mid, name);
            &&& marks.len() <= 3
            &&& after.engine@ == Core {
                counter: before.engine@.counter + marks.len(),
                ..before.engine@
            }
            &&& after.queued() == before.queued() + stamped(marks, before.engine.clock.counter)
            &&& after.graves() == before.graves()
            &&& table::tabs(after.tables@) == table::tabs(before.tables@)
            &&& after.generator@.remove(db::system_name()) == before.generator@.remove(
                db::system_name(),
            )
            &&& after == Db {
                tables: after.tables,
                generator: after.generator,
                engine: after.engine,
                free_pages: after.free_pages,
                page_count: after.page_count,
                links: after.links,
                ..before
            }
        }),
{
    let n = before.tables@.len() as int;
    let end = choose|end: Db| #[trigger]
        taken_apart(mid, end, n) && after == (Db {
            engine: Engine { next_table: before.engine.next_table, ..end.engine },
            ..end
        });
    let sys = before.generator@[db::system_name()];
    let id = TableIdType(sys.next);
    let m1 = seq![generator::mark_op(name, 0, false)] + next_marks(db::system_name(), sys);
    let m2 = removal_marks(mid.generator@, name);
    assert(table::tabs(mid.tables@).len() == mid.tables@.len());
    assert(table::tabs(before.tables@).len() == n);
    assert(table::tabs(mid.tables@)[n] == mid.tables@[n]@);
    assert(mid.tables@[n]@.name == name && mid.tables@[n]@.id == id);
    assert(!before.engine@.live.contains(id));
    assert(after.engine@.live =~= before.engine@.live);
    assert forall|p: Place| #[trigger] before.engine@.rows.dom().contains(p) implies p.table
        != id by {
        assert(mvcc::row_ok(before.engine@, p, before.engine@.rows[p]));
    }
    assert(after.engine@.rows =~= before.engine@.rows);
    assert(after.generator@.remove(db::system_name()) =~= before.generator@.remove(
        db::system_name(),
    ));
    stamped_join(m1, m2, before.engine.clock.counter);
    assert(after.queued() =~= before.queued() + stamped(m1 + m2, before.engine.clock.counter));
    assert(table::tabs(after.tables@) =~= table::tabs(before.tables@)) by {
        assert forall|i: int| 0 <= i < n implies table::tabs(after.tables@)[i] == table::tabs(
            before.tables@,
        )[i] by {
            assert(after.tables@[i] == mid.tables@[i]);
            assert(table::tabs(mid.tables@)[i] == mid.tables@[i]@);
        }
    }
}

/// The operations under consecutive numbers, in two parts.
proof fn stamped_join(a: Seq<Op>, b: Seq<Op>, from: u64)
    requires
        from + a.len() <= u64::MAX,
    ensures
        stamped(a + b, from) == stamped(a, from) + stamped(b, (from + a.len()) as u64),
{
    assert(stamped(a + b, from) =~= stamped(a, from) + stamped(b, (from + a.len()) as u64));
}

impl Db {
    /// Where the table of this name stands in the list.
    fn table_slot(&self, name: &str) -> (r: Option<usize>)
        requires
            db::tables_apart(self.tables@),
        ensures
            match r {
                Some(i) => i < self.tables@.len() && self.tables@[i as int].name@ == name@,
                None => !has_name(self.tables@, name@),
            },
    {
        for i in 0..self.tables.len()
            invariant
                forall|j: int| 0 <= j < i ==> (#[trigger] self.tables@[j]).name@ != name@,
        {
            if same_text(self.tables[i].name.as_str(), name) {
                return Some(i);
            }
        }
        None
    }

    /// The number of the table of this name.
    pub fn table_id_by_name(&self, name: &str) -> (r: Result<Option<TableIdType>, StoreError>)
        requires
            self.wf(),
        ensures
            r matches Ok(found) && match found {
                Some(id) => exists|i: int|
                    0 <= i < self.tables@.len() && (#[trigger] self.tables@[i]).name@ == name@
                        && self.tables@[i].id == id,
                None => !has_name(self.tables@, name@),
            },
    {
        match self.table_slot(name) {
            Some(i) => Ok(Some(self.tables[i].id)),
            None => Ok(None),
        }
    }

    /// What the catalog says of every table.
    pub fn get_tables(&self) -> (r: Result<Vec<Table>, StoreError>)
        ensures
            r matches Ok(out) && table::tabs(out@) == table::tabs(self.tables@),
    {
        let mut out: Vec<Table> = Vec::new();
        for i in 0..self.tables.len()
            invariant
                out@.len() == i,
                forall|j: int| 0 <= j < i ==> (#[trigger] out@[j])@ == self.tables@[j]@,
        {
            out.push(self.tables[i].clone());
        }
        assert(table::tabs(out@) =~= table::tabs(self.tables@));
        Ok(out)
    }

    /// Fails if a table cannot have this name.
    fn validate_table_name(&self, name: &str) -> (r: Result<(), StoreError>)
        requires
            db::tables_apart(self.tables@),
        ensures
            match r {
                Ok(()) => name_fault(*self, name@) is None,
                Err(e) => name_fault(*self, name@) == Some(e@),
            },
    {
        let len: usize = name.as_bytes().len();
        if len > MAX_TABLE_NAME_LEN {
            return Err(StoreError::TableNameInvalid(MAX_TABLE_NAME_LEN, len));
        }
        if has_prefix(&chars_of(name), &chars_of("__system.")) {
            return Err(StoreError::ReservedTableName(name.to_owned()));
        }
        match self.table_slot(name) {
            Some(_) => Err(StoreError::DuplicateName(name.to_owned())),
            None => Ok(()),
        }
    }

    /// Builds a table.
    fn build_table(&mut self, name: String, index_entry_size: u64) -> (id: TableIdType)
        requires
            old(self).wf(),
            old(self).room(2),
            old(self).page_count <= u64::MAX - 2,
            old(self).generator@[db::system_name()].next <= u64::MAX - SEQUENCE_CHUNK,
            name_fault(*old(self), name@) is None,
            !old(self).generator@.dom().contains(name@),
        ensures
            final(self).wf(),
            built(*old(self), *final(self), name@, index_entry_size),
            id.0 == old(self).generator@[db::system_name()].next,
    {
        let _made = self.create_generator(name.as_str(), None);
        let ghost a = *self;
        let key: u64 = match self.gen_key("__system.tables") {
            Ok(v) => v,
            Err(_) => 0,
        };
        let ghost b = *self;
        let id = TableIdType(key);
        let first_index_page = self.alloc_page();
        let first_data_page = self.alloc_page();
        self.engine.add_table(id);
        let ghost t = Table { id, name, first_index_page, first_data_page, index_entry_size };
        self.tables.push(Table { id, name, first_index_page, first_data_page, index_entry_size });
        proof {
            let sys = old(self).generator@[db::system_name()];
            let m1 = seq![generator::mark_op(name@, 0, false)];
            let m2 = next_marks(db::system_name(), sys);
            let from = old(self).engine.clock.counter;
            stamped_join(m1, m2, from);
            assert(self.queued() =~= old(self).queued() + stamped(m1 + m2, from));
            assert(table::tabs(self.tables@) =~= table::tabs(old(self).tables@).push(t@));
            built_is_sound(table::tabs(old(self).tables@), t@, old(self).space());
            steps::graves_stay(old(self).engine@, self.engine@, self.graves());
            let ts = self.tables@;
            let n = old(self).tables@.len();
            assert(ts[n as int].name@ == name@ && ts[n as int].id == id);
            assert forall|i: int, j: int| 0 <= i < j < ts.len() implies (#[trigger] ts[i]).id
                != (#[trigger] ts[j]).id && ts[i].name@ != ts[j].name@ by {
                assert(ts[i] == old(self).tables@[i]);
                if j == n {
                    assert(old(self).engine@.live.contains(ts[i].id));
                } else {
                    assert(ts[j] == old(self).tables@[j]);
                }
            }
            assert forall|x: TableIdType| #[trigger]
                self.engine@.live.contains(x) <==> exists|i: int|
                    0 <= i < ts.len() && (#[trigger] ts[i]).id == x by {
                if old(self).engine@.live.contains(x) {
                    let i = choose|i: int|
                        0 <= i < n && (#[trigger] old(self).tables@[i]).id == x;
                    assert(ts[i].id == x);
                }
                if exists|i: int| 0 <= i < ts.len() && (#[trigger] ts[i]).id == x {
                    let i = choose|i: int| 0 <= i < ts.len() && (#[trigger] ts[i]).id == x;
                    if i < n {
                        assert(old(self).tables@[i].id == x);
                    }
                }
            }
            reveal_strlit("__system.tables");
            reveal_strlit("__system.");
            assert(db::system_name().take(db::reserved_prefix().len() as int)
                =~= db::reserved_prefix());
        }
        id
    }

    /// Takes a table apart.
    fn take_apart(&mut self, i: usize)
        requires
            old(self).wf(),
            old(self).room(1),
            i < old(self).tables@.len(),
        ensures
            final(self).wf(),
            taken_apart(*old(self), *final(self), i as int),
    {
        proof {
            apart_is_sound(table::tabs(self.tables@), i as int, self.space());
        }
        let t = self.tables.remove(i);
        let chain = page_chain(t.first_data_page, &self.links);
        let mut ps: Vec<PageId> = Vec::new();
        ps.push(t.first_index_page);
        let mut chain = chain;
        ps.append(&mut chain);
        assert(ps@ =~= seq![t.first_index_page] + freelist::chain(
            old(self).links@,
            t.first_data_page.0,
            old(self).links@.len(),
        ));
        self.free_all(&ps);
        self.engine.drop_table(t.id);
        proof {
            let ts = self.tables@;
            let was = old(self).tables@;
            assert(table::tabs(ts) =~= table::tabs(was).remove(i as int));
            assert forall|a: int, b: int| 0 <= a < b < ts.len() implies (#[trigger] ts[a]).id
                != (#[trigger] ts[b]).id && ts[a].name@ != ts[b].name@ by {
                let a2 = if a < i { a } else { a + 1 };
                let b2 = if b < i { b } else { b + 1 };
                assert(ts[a] == was[a2] && ts[b] == was[b2]);
            }
            assert forall|x: TableIdType| #[trigger]
                self.engine@.live.contains(x) <==> exists|k: int|
                    0 <= k < ts.len() && (#[trigger] ts[k]).id == x by {
                if self.engine@.live.contains(x) {
                    assert(old(self).engine@.live.contains(x));
                    let k = choose|k: int| 0 <= k < was.len() && (#[trigger] was[k]).id == x;
                    let k2 = if k < i { k } else { k - 1 };
                    assert(ts[k2] == was[k]);
                }
                if exists|k: int| 0 <= k < ts.len() && (#[trigger] ts[k]).id == x {
                    let k = choose|k: int| 0 <= k < ts.len() && (#[trigger] ts[k]).id == x;
                    let k2 = if k < i { k } else { k + 1 };
                    assert(was[k2] == ts[k]);
                    assert(was[i as int].id == t.id);
                    assert(old(self).engine@.live.contains(x));
                }
            }
            steps::graves_stay(old(self).engine@, self.engine@, self.graves());
            assert forall|k: int| 0 <= k < ts.len() implies (#[trigger] ts[k]).name@
                != db::system_name() by {
                let k2 = if k < i { k } else { k + 1 };
                assert(was[k2] == ts[k]);
            }
            assert(was[i as int].name@ != db::system_name());
        }
        let _gone = self.remove_generator(t.name.as_str());
    }
}

/// May a table of this name be created, as far as its name goes?
pub open spec fn creation_fault(db: Db, name: Seq<char>) -> Option<Fault> {
    match name_fault(db, name) {
        Some(f) => Some(f),
        None => if db.generator@.dom().contains(name) {
            Some(Fault::DuplicateName(name))
        } else {
            None
        },
    }
}

/// What the creation of a table comes to. A name that cannot be is refused. A
/// table that was built is durable once it is there; where the catalog has no
/// room for it, it is taken apart again.
pub open spec fn created(
    before: Db,
    after: Db,
    name: Seq<char>,
    size: u64,
    now: u128,
    r: Result<TableIdType, Fault>,
) -> bool {
    match creation_fault(before, name) {
        Some(f) => r == Err::<TableIdType, Fault>(f) && after == before,
        None => exists|mid: Db|
            {
                &&& #[trigger] built(before, mid, name, size)
                &&& mid.wf()
                &&& match r {
                    Ok(id) => id.0 == before.generator@[db::system_name()].next
                        && checkpoint::checkpointed(mid, after, now),
                    Err(f) => checkpoint::catalog_of(mid) == Err::<Sheet, Fault>(f) && unbuilt(
                        before,
                        mid,
                        after,
                    ),
                }
            },
    }
}

/// What the dropping of a table comes to: there is none of that name, or it is
/// taken apart, and that is durable.
pub open spec fn dropped(
    before: Db,
    after: Db,
    name: Seq<char>,
    now: u128,
    r: Result<(), Fault>,
) -> bool {
    if !has_name(before.tables@, name) {
        r == Err::<(), Fault>(Fault::TableNotFound(name)) && after == before
    } else {
        exists|mid: Db, i: int|
            {
                &&& 0 <= i < before.tables@.len() && before.tables@[i].name@ == name
                &&& #[trigger] taken_apart(before, mid, i)
                &&& mid.wf()
                &&& match r {
                    Ok(()) => checkpoint::checkpointed(mid, after, now),
                    Err(f) => checkpoint::catalog_of(mid) == Err::<Sheet, Fault>(f) && after == mid,
                }
            }
    }
}

/// Tables that fit the catalog still do after a creation, whether it came off
/// or was refused.
pub proof fn creation_leaves_tables_that_fit(
    before: Db,
    after: Db,
    name: Seq<char>,
    size: u64,
    now: u128,
    r: Result<TableIdType, Fault>,
)
    requires
        before.wf(),
        before.room(3),
        before.generator@[db::system_name()].next < u64::MAX,
        checkpoint::catalog_of(before) is Ok,
        created(before, after, name, size, now, r),
    ensures
        checkpoint::catalog_of(after) is Ok,
{
    if creation_fault(before, name) is None {
        let mid = choose|mid: Db|
            {
                &&& #[trigger] built(before, mid, name, size)
                &&& mid.wf()
                &&& match r {
                    Ok(id) => id.0 == before.generator@[db::system_name()].next
                        && checkpoint::checkpointed(mid, after, now),
                    Err(f) => checkpoint::catalog_of(mid) == Err::<Sheet, Fault>(f) && unbuilt(
                        before,
                        mid,
                        after,
                    ),
                }
            };
        if r is Err {
            refused_creation_leaves_no_trace(before, mid, after, name, size);
        }
    }
}

/// While the tables fit the catalog, a table that exists can be dropped, and
/// the others fit.
pub proof fn drop_is_not_refused(
    before: Db,
    after: Db,
    name: Seq<char>,
    now: u128,
    r: Result<(), Fault>,
)
    requires
        catalog::entries_exist(table::tabs(before.tables@)),
        checkpoint::catalog_of(before) is Ok,
        dropped(before, after, name, now, r),
    ensures
        r is Ok <==> has_name(before.tables@, name),
        checkpoint::catalog_of(after) is Ok,
{
    if has_name(before.tables@, name) {
        let (mid, i) = choose|mid: Db, i: int|
            {
                &&& 0 <= i < before.tables@.len() && before.tables@[i].name@ == name
                &&& #[trigger] taken_apart(before, mid, i)
                &&& mid.wf()
                &&& match r {
                    Ok(()) => checkpoint::checkpointed(mid, after, now),
                    Err(f) => checkpoint::catalog_of(mid) == Err::<Sheet, Fault>(f) && after == mid,
                }
            };
        let ts = table::tabs(before.tables@);
        catalog::fewer_tables_fit(ts, before.header.page_size, i);
        assert(table::tabs(mid.tables@) =~= ts.remove(i));
    }
}

/// A result, with its error as a value.
pub open spec fn outcome<T>(r: Result<T, StoreError>) -> Result<T, Fault> {
    match r {
        Ok(v) => Ok(v),
        Err(e) => Err(e@),
    }
}

impl Db {
    /// Creates a table whose index entries get the usual room. It is durable
    /// when this returns.
    pub fn create_table(&mut self, name: String, now: u128) -> (r: Result<TableIdType, StoreError>)
        requires
            old(self).wf(),
            old(self).room(3),
            old(self).page_count <= u64::MAX - 2,
            old(self).generator@[db::system_name()].next <= u64::MAX - SEQUENCE_CHUNK,
            old(self).wal.current.n < u64::MAX,
        ensures
            final(self).wf(),
            created(*old(self), *final(self), name@, MAX_ENTRY_BYTES, now, outcome(r)),
    {
        self.create_table_with_index_entry_size(name, MAX_ENTRY_BYTES, now)
    }

    /// Creates a table that says how much room its index entries get. It is
    /// durable when this returns.
    pub fn create_table_with_index_entry_size(
        &mut self,
        name: String,
        index_entry_size: u64,
        now: u128,
    ) -> (r: Result<TableIdType, StoreError>)
        requires
            old(self).wf(),
            old(self).room(3),
            old(self).page_count <= u64::MAX - 2,
            old(self).generator@[db::system_name()].next <= u64::MAX - SEQUENCE_CHUNK,
            old(self).wal.current.n < u64::MAX,
        ensures
            final(self).wf(),
            created(*old(self), *final(self), name@, index_entry_size, now, outcome(r)),
    {
        if let Err(e) = self.validate_table_name(name.as_str()) {
            return Err(e);
        }
        if self.generator.has(name.as_str()) {
            return Err(StoreError::DuplicateName(name));
        }
        let at: usize = self.tables.len();
        let id = self.build_table(name, index_entry_size);
        let ghost mid = *self;
        assert(built(*old(self), mid, name@, index_entry_size));
        assert(table::tabs(mid.tables@).len() == mid.tables@.len());
        assert(table::tabs(old(self).tables@).len() == at);
        if let Err(e) = self.checkpoint(now) {
            self.take_apart(at);
            let ghost end = *self;
            assert(taken_apart(mid, end, at as int));
            self.engine.next_table = Ghost(old(self).engine.next_table@);
            proof {
                assert(unbuilt(*old(self), mid, *self));
                refused_creation_leaves_no_trace(
                    *old(self),
                    mid,
                    *self,
                    name@,
                    index_entry_size,
                );
                let marks = unbuilt_marks(*old(self), mid, name@);
                steps::ticks_keep(old(self).engine@, marks.len());
                steps::graves_stay(old(self).engine@, self.engine@, self.graves());
            }
            return Err(e);
        }
        Ok(id)
    }

    /// Drops a table: its rows are gone and its pages are free when this
    /// returns, and that is durable. No transaction can take it back.
    pub fn drop_table(&mut self, name: &str, now: u128) -> (r: Result<(), StoreError>)
        requires
            old(self).wf(),
            old(self).room(1),
            old(self).wal.current.n < u64::MAX,
        ensures
            final(self).wf(),
            dropped(*old(self), *final(self), name@, now, outcome(r)),
    {
        let at: usize = match self.table_slot(name) {
            Some(i) => i,
            None => {
                return Err(StoreError::TableNotFound(name.to_owned()));
            },
        };
        self.take_apart(at);
        let ghost mid = *self;
        assert(taken_apart(*old(self), mid, at as int));
        self.checkpoint(now)
    }
}

} // verus!
