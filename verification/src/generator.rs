//! Named sequences of numbers that are never handed out twice, not even after
//! a crash.
use vstd::prelude::*;
use vstd::string::*;

use crate::assoc;
use crate::clock;
use crate::error::{Fault, StoreError};
use crate::operation::{Op, Operation};
use crate::text::same_text;

verus! {

/// How many values a sequence hands out before it must log a new mark. A crash
/// skips at most one chunk of values and never repeats one.
pub const SEQUENCE_CHUNK: u64 = 32;

/// A sequence.
pub struct NamedSeq {
    pub name: String,
    /// The next value to hand out.
    pub next: u64,
    /// Every value below this is covered by a record that was logged, or by
    /// the last checkpoint.
    pub logged_high: u64,
}

/// A sequence, as contracts speak of it.
pub struct Marks {
    pub next: u64,
    pub high: u64,
}

/// The sequences of a database. Each crossing into a new chunk is logged
/// before the first value of the chunk is handed out, and so are creation and
/// removal.
pub struct Generator {
    pub gens: Vec<NamedSeq>,
    /// Is there a log to write to?
    pub attached: bool,
    /// What is to be logged, in order.
    pub outbox: Vec<Operation>,
}

/// The sequences by name.
pub open spec fn seq_pairs(s: Seq<NamedSeq>) -> Seq<(Seq<char>, Marks)> {
    s.map_values(|g: NamedSeq| (g.name@, Marks { next: g.next, high: g.logged_high }))
}

/// The operations, as contracts speak of them.
pub open spec fn ops(s: Seq<Operation>) -> Seq<Op> {
    s.map_values(|o: Operation| o@)
}

impl View for Generator {
    type V = Map<Seq<char>, Marks>;

    open spec fn view(&self) -> Map<Seq<char>, Marks> {
        assoc::assoc(seq_pairs(self.gens@))
    }
}

/// The record of a mark.
pub open spec fn mark_op(name: Seq<char>, high_water: u64, dropped: bool) -> Op {
    Op::Sequence { name, high_water, dropped }
}

impl Generator {
    /// Is every name listed once, and no sequence past what is covered?
    pub open spec fn wf(&self) -> bool {
        &&& assoc::unique(seq_pairs(self.gens@))
        &&& forall|n: Seq<char>| #[trigger]
            self@.dom().contains(n) ==> self@[n].next <= self@[n].high
    }

    /// What is to be logged, as contracts speak of it.
    pub open spec fn log(&self) -> Seq<Op> {
        ops(self.outbox@)
    }

    /// The log after one more record, if there is a log.
    pub open spec fn logged(&self, op: Op) -> Seq<Op> {
        if self.attached {
            self.log().push(op)
        } else {
            self.log()
        }
    }

    /// No sequences, and no log to write to.
    pub fn new() -> (g: Generator)
        ensures
            g.wf(),
            g@ == Map::<Seq<char>, Marks>::empty(),
            g.log() == Seq::<Op>::empty(),
            !g.attached,
    {
        let g = Generator { gens: Vec::new(), attached: false, outbox: Vec::new() };
        proof {
            assert(seq_pairs(g.gens@) =~= Seq::empty());
            assoc::assoc_empty::<Seq<char>, Marks>();
            assert(g.log() =~= Seq::empty());
        }
        g
    }

    /// From now on, marks are logged.
    pub fn attach_logger(&mut self)
        requires
            old(self).wf(),
        ensures
            final(self).wf(),
            *final(self) == (Generator { attached: true, ..*old(self) }),
    {
        self.attached = true;
        assert(self@ == old(self)@);
    }

    /// From now on, nothing is logged.
    pub fn detach_logger(&mut self)
        requires
            old(self).wf(),
        ensures
            final(self).wf(),
            *final(self) == (Generator { attached: false, ..*old(self) }),
    {
        self.attached = false;
        assert(self@ == old(self)@);
    }

    /// Puts a mark into the log, if there is one.
    fn log_mark(&mut self, name: &str, high_water: u64, dropped: bool)
        ensures
            final(self).gens == old(self).gens,
            final(self).attached == old(self).attached,
            final(self).log() == old(self).logged(mark_op(name@, high_water, dropped)),
    {
        if self.attached {
            let ghost was = self.outbox@;
            let op = Operation::Sequence { name: name.to_owned(), high_water, dropped };
            self.outbox.push(op);
            assert(ops(self.outbox@) =~= ops(was).push(op@));
        }
    }

    /// Where the sequence stands in the list.
    fn slot(&self, name: &str) -> (r: Option<usize>)
        requires
            self.wf(),
        ensures
            match r {
                Some(i) => i < self.gens@.len() && self.gens@[i as int].name@ == name@
                    && self@.dom().contains(name@) && self@[name@] == (Marks {
                    next: self.gens@[i as int].next,
                    high: self.gens@[i as int].logged_high,
                }),
                None => !self@.dom().contains(name@),
            },
    {
        for i in 0..self.gens.len()
            invariant
                self.wf(),
                forall|k: int| 0 <= k < i ==> (#[trigger] self.gens@[k]).name@ != name@,
        {
            if same_text(self.gens[i].name.as_str(), name) {
                proof {
                    assoc::assoc_at(seq_pairs(self.gens@), i as int);
                }
                return Some(i);
            }
        }
        proof {
            assert forall|k: int| 0 <= k < seq_pairs(self.gens@).len() implies (
            #[trigger] seq_pairs(self.gens@)[k]).0 != name@ by {
                assert(self.gens@[k].name@ != name@);
            }
            assoc::assoc_absent(seq_pairs(self.gens@), name@);
        }
        None
    }

    /// Is there a sequence of this name?
    pub fn has(&self, name: &str) -> (r: bool)
        requires
            self.wf(),
        ensures
            r == self@.dom().contains(name@),
    {
        self.slot(name).is_some()
    }

    /// The value that a sequence hands out next.
    pub fn peek(&self, name: &str) -> (r: Option<u64>)
        requires
            self.wf(),
        ensures
            match r {
                Some(v) => self@.dom().contains(name@) && self@[name@].next == v,
                None => !self@.dom().contains(name@),
            },
    {
        match self.slot(name) {
            Some(i) => Some(self.gens[i].next),
            None => None,
        }
    }

    /// Gives the sequence at `i` other marks.
    fn set_marks(&mut self, i: usize, next: u64, high: u64)
        requires
            old(self).wf(),
            i < old(self).gens@.len(),
            next <= high,
        ensures
            final(self).wf(),
            final(self)@ == old(self)@.insert(
                old(self).gens@[i as int].name@,
                Marks { next, high },
            ),
            final(self).attached == old(self).attached,
            final(self).outbox == old(self).outbox,
            final(self).gens@.len() == old(self).gens@.len(),
    {
        let ghost was = self.gens@;
        let name = self.gens[i].name.clone();
        self.gens[i] = NamedSeq { name, next, logged_high: high };
        proof {
            let pairs = seq_pairs(was);
            assert(seq_pairs(self.gens@) =~= pairs.update(
                i as int,
                (pairs[i as int].0, Marks { next, high }),
            ));
            assoc::assoc_update(pairs, i as int, Marks { next, high });
            assert(self@ == old(self)@.insert(was[i as int].name@, Marks { next, high }));
        }
    }

    /// Adds a sequence under a new name.
    fn add(&mut self, name: &str, start: u64)
        requires
            old(self).wf(),
            !old(self)@.dom().contains(name@),
        ensures
            final(self).wf(),
            final(self)@ == old(self)@.insert(name@, Marks { next: start, high: start }),
            final(self).attached == old(self).attached,
            final(self).outbox == old(self).outbox,
    {
        let ghost was = self.gens@;
        self.gens.push(NamedSeq { name: name.to_owned(), next: start, logged_high: start });
        proof {
            assert(seq_pairs(self.gens@) =~= seq_pairs(was).push(
                (name@, Marks { next: start, high: start }),
            ));
            assoc::assoc_push(seq_pairs(was), name@, Marks { next: start, high: start });
        }
    }

    /// Creates a sequence that starts at `start`, or at 0. Logged before it
    /// can be used.
    pub fn create_generator(&mut self, name: &str, start: Option<u64>) -> (r: Result<
        (),
        StoreError,
    >)
        requires
            old(self).wf(),
        ensures
            final(self).wf(),
            final(self).attached == old(self).attached,
            match r {
                Ok(()) => !old(self)@.dom().contains(name@) && ({
                    let s = start.unwrap_or(0);
                    &&& final(self)@ == old(self)@.insert(name@, Marks { next: s, high: s })
                    &&& final(self).log() == old(self).logged(mark_op(name@, s, false))
                }),
                Err(e) => old(self)@.dom().contains(name@) && e@ == Fault::DuplicateName(name@)
                    && *final(self) == *old(self),
            },
    {
        let s: u64 = start.unwrap_or(0);
        if self.slot(name).is_some() {
            return Err(StoreError::DuplicateName(name.to_owned()));
        }
        self.log_mark(name, s, false);
        self.add(name, s);
        Ok(())
    }

    /// Takes a sequence out of the list, if it is there.
    fn take_out(&mut self, name: &str) -> (found: bool)
        requires
            old(self).wf(),
        ensures
            final(self).wf(),
            found == old(self)@.dom().contains(name@),
            final(self)@ == old(self)@.remove(name@),
            final(self).attached == old(self).attached,
            final(self).outbox == old(self).outbox,
    {
        match self.slot(name) {
            Some(i) => {
                let ghost was = self.gens@;
                let _gone = self.gens.remove(i);
                proof {
                    assert(seq_pairs(self.gens@) =~= seq_pairs(was).remove(i as int));
                    assoc::assoc_remove(seq_pairs(was), i as int);
                }
                true
            },
            None => {
                assert(self@.remove(name@) =~= self@);
                false
            },
        }
    }

    /// Removes a sequence; one that does not exist is no error.
    pub fn remove_generator(&mut self, name: &str) -> (r: Result<(), StoreError>)
        requires
            old(self).wf(),
        ensures
            final(self).wf(),
            r is Ok,
            final(self)@ == old(self)@.remove(name@),
            final(self).attached == old(self).attached,
            final(self).log() == if old(self)@.dom().contains(name@) {
                old(self).logged(mark_op(name@, 0, true))
            } else {
                old(self).log()
            },
    {
        if self.take_out(name) {
            self.log_mark(name, 0, true);
        }
        Ok(())
    }

    /// Makes sure that the sequence exists and hands out nothing below
    /// `at_least`. Never lowers a sequence.
    pub fn ensure_at_least(&mut self, name: &str, at_least: u64)
        requires
            old(self).wf(),
        ensures
            final(self).wf(),
            final(self)@ == raised(old(self)@, name@, at_least),
            final(self).attached == old(self).attached,
            final(self).outbox == old(self).outbox,
    {
        match self.slot(name) {
            Some(i) => {
                let next: u64 = if self.gens[i].next < at_least {
                    at_least
                } else {
                    self.gens[i].next
                };
                let high: u64 = if self.gens[i].logged_high < at_least {
                    at_least
                } else {
                    self.gens[i].logged_high
                };
                self.set_marks(i, next, high);
            },
            None => {
                self.add(name, at_least);
            },
        }
    }

    /// Forgets a sequence that the log says was dropped.
    pub fn remove_unlogged(&mut self, name: &str)
        requires
            old(self).wf(),
        ensures
            final(self).wf(),
            final(self)@ == old(self)@.remove(name@),
            final(self).attached == old(self).attached,
            final(self).outbox == old(self).outbox,
    {
        let _found = self.take_out(name);
    }

    /// Hands out the next value of a sequence. A value that nothing logged
    /// covers is preceded by a record of a new mark.
    pub fn gen_key(&mut self, name: &str) -> (r: Result<u64, StoreError>)
        requires
            old(self).wf(),
            old(self)@.dom().contains(name@) ==> old(self)@[name@].next <= u64::MAX
                - SEQUENCE_CHUNK,
        ensures
            final(self).wf(),
            final(self).attached == old(self).attached,
            match r {
                Ok(v) => old(self)@.dom().contains(name@) && ({
                    let m = old(self)@[name@];
                    let crosses = m.next >= m.high;
                    let high = if crosses {
                        (m.next + SEQUENCE_CHUNK) as u64
                    } else {
                        m.high
                    };
                    &&& v == m.next
                    &&& final(self)@ == old(self)@.insert(
                        name@,
                        Marks { next: (m.next + 1) as u64, high },
                    )
                    &&& final(self).log() == if crosses {
                        old(self).logged(mark_op(name@, high, false))
                    } else {
                        old(self).log()
                    }
                    &&& v < final(self)@[name@].high
                }),
                Err(e) => !old(self)@.dom().contains(name@) && e@ == Fault::MissingKey(name@)
                    && *final(self) == *old(self),
            },
    {
        match self.slot(name) {
            None => Err(StoreError::MissingKey(name.to_owned())),
            Some(i) => {
                let v: u64 = self.gens[i].next;
                let high: u64 = self.gens[i].logged_high;
                if v >= high {
                    let new_high: u64 = v + SEQUENCE_CHUNK;
                    self.log_mark(name, new_high, false);
                    self.set_marks(i, v + 1, new_high);
                } else {
                    self.set_marks(i, v + 1, high);
                }
                Ok(v)
            },
        }
    }

    /// Every sequence with its next value, for a checkpoint to persist.
    pub fn get_values(&self) -> (out: Vec<(String, u64)>)
        ensures
            value_pairs(out@) == next_pairs(self.gens@),
    {
        let mut out: Vec<(String, u64)> = Vec::new();
        assert(value_pairs(out@) =~= next_pairs(self.gens@.take(0)));
        for i in 0..self.gens.len()
            invariant
                value_pairs(out@) == next_pairs(self.gens@.take(i as int)),
        {
            let ghost was = out@;
            let ghost item = self.gens@[i as int];
            out.push((self.gens[i].name.clone(), self.gens[i].next));
            assert(value_pairs(out@) =~= value_pairs(was).push((item.name@, item.next)));
            assert(self.gens@.take(i + 1) =~= self.gens@.take(i as int).push(item));
            assert(next_pairs(self.gens@.take(i + 1)) =~= next_pairs(
                self.gens@.take(i as int),
            ).push((item.name@, item.next)));
        }
        assert(self.gens@.take(self.gens@.len() as int) =~= self.gens@);
        out
    }

    /// Puts back what a checkpoint persisted; nothing is lowered.
    pub fn set_values(&mut self, values: &Vec<(String, u64)>)
        requires
            old(self).wf(),
        ensures
            final(self).wf(),
            final(self)@ == raised_all(old(self)@, value_pairs(values@)),
            final(self).attached == old(self).attached,
            final(self).outbox == old(self).outbox,
    {
        let ghost vs = value_pairs(values@);
        assert(raised_all(self@, vs.take(0)) == self@);
        for i in 0..values.len()
            invariant
                vs == value_pairs(values@),
                self.wf(),
                self.attached == old(self).attached,
                self.outbox == old(self).outbox,
                self@ == raised_all(old(self)@, vs.take(i as int)),
        {
            self.ensure_at_least(values[i].0.as_str(), values[i].1);
            assert(vs.take(i + 1).drop_last() =~= vs.take(i as int));
            assert(vs.take(i + 1).last() == vs[i as int]);
        }
        assert(vs.take(vs.len() as int) =~= vs);
    }

    /// A checkpoint has persisted the next values, and what was logged before
    /// it will not be read again: from here on a value is covered only by the
    /// checkpoint or by a record that is still to come.
    pub fn start_chunks(&mut self)
        requires
            old(self).wf(),
        ensures
            final(self).wf(),
            final(self)@ == rebased(old(self)@),
            next_pairs(final(self).gens@) == next_pairs(old(self).gens@),
            final(self).attached == old(self).attached,
            final(self).outbox == old(self).outbox,
    {
        let n: usize = self.gens.len();
        let ghost first = self@;
        let mut i: usize = 0;
        while i < n
            invariant
                self.wf(),
                i <= n,
                n == self.gens@.len(),
                n == old(self).gens@.len(),
                first == old(self)@,
                self.attached == old(self).attached,
                self.outbox == old(self).outbox,
                forall|k: int|
                    0 <= k < n ==> (#[trigger] self.gens@[k]).name == old(self).gens@[k].name
                        && self.gens@[k].next == old(self).gens@[k].next,
                forall|k: int|
                    0 <= k < i ==> (#[trigger] self.gens@[k]).logged_high == self.gens@[k].next,
            decreases n - i,
        {
            let next: u64 = self.gens[i].next;
            let name = self.gens[i].name.clone();
            let ghost was = self.gens@;
            let ghost before = self@;
            self.gens[i] = NamedSeq { name, next, logged_high: next };
            proof {
                let pairs = seq_pairs(was);
                let marks = Marks { next, high: next };
                assert(seq_pairs(self.gens@) =~= pairs.update(
                    i as int,
                    (pairs[i as int].0, marks),
                ));
                assoc::assoc_update(pairs, i as int, marks);
            }
            i = i + 1;
        }
        proof {
            assert forall|x: Seq<char>| self@.dom().contains(x) <==> first.dom().contains(x) by {
                if self@.dom().contains(x) {
                    let k = assoc::assoc_find(seq_pairs(self.gens@), x);
                    assert(self.gens@[k].name == old(self).gens@[k].name);
                    assoc::assoc_at(seq_pairs(old(self).gens@), k);
                }
                if first.dom().contains(x) {
                    let k = assoc::assoc_find(seq_pairs(old(self).gens@), x);
                    assert(self.gens@[k].name == old(self).gens@[k].name);
                    assoc::assoc_at(seq_pairs(self.gens@), k);
                }
            }
            assert forall|x: Seq<char>| self@.dom().contains(x) implies #[trigger] self@[x]
                == rebased(first)[x] by {
                let k = assoc::assoc_find(seq_pairs(self.gens@), x);
                assert(self.gens@[k].name == old(self).gens@[k].name);
                assoc::assoc_at(seq_pairs(old(self).gens@), k);
                assert(first.dom().contains(x));
            }
            assert(self@ =~= rebased(first));
            assert(next_pairs(self.gens@) =~= next_pairs(old(self).gens@));
        }
    }
}

/// Names with numbers, as contracts speak of them.
pub open spec fn value_pairs(s: Seq<(String, u64)>) -> Seq<(Seq<char>, u64)> {
    s.map_values(|v: (String, u64)| (v.0@, v.1))
}

/// Every sequence with its next value, in the list's order.
pub open spec fn next_pairs(s: Seq<NamedSeq>) -> Seq<(Seq<char>, u64)> {
    s.map_values(|g: NamedSeq| (g.name@, g.next))
}

/// The sequences, once `name` hands out nothing below `at_least`.
pub open spec fn raised(
    m: Map<Seq<char>, Marks>,
    name: Seq<char>,
    at_least: u64,
) -> Map<Seq<char>, Marks> {
    if m.dom().contains(name) {
        m.insert(
            name,
            Marks {
                next: clock::larger(m[name].next, at_least),
                high: clock::larger(m[name].high, at_least),
            },
        )
    } else {
        m.insert(name, Marks { next: at_least, high: at_least })
    }
}

/// The sequences, once each of these hands out nothing below its number.
pub open spec fn raised_all(m: Map<Seq<char>, Marks>, vs: Seq<(Seq<char>, u64)>) -> Map<
    Seq<char>,
    Marks,
>
    decreases vs.len(),
{
    if vs.len() == 0 {
        m
    } else {
        raised(raised_all(m, vs.drop_last()), vs.last().0, vs.last().1)
    }
}

/// The sequences with nothing covered beyond what was handed out.
pub open spec fn rebased(m: Map<Seq<char>, Marks>) -> Map<Seq<char>, Marks> {
    Map::new(
        |n: Seq<char>| m.dom().contains(n),
        |n: Seq<char>| Marks { next: m[n].next, high: m[n].next },
    )
}

// ---------------------------------------------------------------------------
// No value is handed out twice
// ---------------------------------------------------------------------------

/// What recovery makes of one record.
pub open spec fn replay_mark(m: Map<Seq<char>, Marks>, op: Op) -> Map<Seq<char>, Marks> {
    match op {
        Op::Sequence { name, high_water, dropped } => if dropped {
            m.remove(name)
        } else {
            raised(m, name, high_water)
        },
        _ => m,
    }
}

/// What recovery makes of the records in the log's order.
pub open spec fn replay_marks(m: Map<Seq<char>, Marks>, log: Seq<Op>) -> Map<Seq<char>, Marks>
    decreases log.len(),
{
    if log.len() == 0 {
        m
    } else {
        replay_mark(replay_marks(m, log.drop_last()), log.last())
    }
}

/// Would recovery, from `base` and these records, put every sequence at or
/// above what is covered now, and leave out those that are gone?
pub open spec fn covers(
    base: Map<Seq<char>, Marks>,
    log: Seq<Op>,
    now: Map<Seq<char>, Marks>,
) -> bool {
    let m = replay_marks(base, log);
    forall|n: Seq<char>| #[trigger]
        now.dom().contains(n) ==> m.dom().contains(n) && now[n].high <= m[n].next
}

/// One more record, replayed.
proof fn replay_push(base: Map<Seq<char>, Marks>, log: Seq<Op>, op: Op)
    ensures
        replay_marks(base, log.push(op)) == replay_mark(replay_marks(base, log), op),
{
    assert(log.push(op).drop_last() =~= log);
}

/// Handing out a value keeps every value covered: after a crash, recovery
/// resumes above it.
pub proof fn gen_key_stays_covered(
    base: Map<Seq<char>, Marks>,
    log: Seq<Op>,
    now: Map<Seq<char>, Marks>,
    name: Seq<char>,
)
    requires
        covers(base, log, now),
        now.dom().contains(name),
        now[name].next <= u64::MAX - SEQUENCE_CHUNK,
    ensures
        ({
            let m = now[name];
            let crosses = m.next >= m.high;
            let high = if crosses {
                (m.next + SEQUENCE_CHUNK) as u64
            } else {
                m.high
            };
            let log2 = if crosses {
                log.push(mark_op(name, high, false))
            } else {
                log
            };
            let then = now.insert(name, Marks { next: (m.next + 1) as u64, high });
            &&& covers(base, log2, then)
            &&& m.next < replay_marks(base, log2)[name].next
        }),
{
    let m = now[name];
    let high = (m.next + SEQUENCE_CHUNK) as u64;
    replay_push(base, log, mark_op(name, high, false));
}

/// Creating and removing sequences keeps every value covered.
pub proof fn creation_and_removal_stay_covered(
    base: Map<Seq<char>, Marks>,
    log: Seq<Op>,
    now: Map<Seq<char>, Marks>,
    name: Seq<char>,
    start: u64,
)
    requires
        covers(base, log, now),
    ensures
        !now.dom().contains(name) ==> covers(
            base,
            log.push(mark_op(name, start, false)),
            now.insert(name, Marks { next: start, high: start }),
        ),
        covers(base, log.push(mark_op(name, 0, true)), now.remove(name)),
{
    replay_push(base, log, mark_op(name, start, false));
    replay_push(base, log, mark_op(name, 0, true));
}

/// A checkpoint that persists the next values starts a new account: with no
/// records at all, everything handed out so far is covered by it.
pub proof fn checkpoint_covers(now: Map<Seq<char>, Marks>)
    ensures
        covers(rebased(now), seq![], rebased(now)),
{
}

/// A sequence's marks, if there is such a sequence.
pub open spec fn marks_at(m: Map<Seq<char>, Marks>, name: Seq<char>) -> Option<Marks> {
    if m.dom().contains(name) {
        Some(m[name])
    } else {
        None
    }
}

/// What a raise makes of a sequence's marks.
pub open spec fn raise_at(o: Option<Marks>, at_least: u64) -> Option<Marks> {
    match o {
        Some(k) => Some(
            Marks { next: clock::larger(k.next, at_least), high: clock::larger(k.high, at_least) },
        ),
        None => Some(Marks { next: at_least, high: at_least }),
    }
}

/// What replaying the records makes of one sequence's marks.
pub open spec fn replay_at(o: Option<Marks>, log: Seq<Op>, name: Seq<char>) -> Option<Marks>
    decreases log.len(),
{
    if log.len() == 0 {
        o
    } else {
        let front = replay_at(o, log.drop_last(), name);
        match log.last() {
            Op::Sequence { name: n, high_water, dropped } => if n != name {
                front
            } else if dropped {
                None
            } else {
                raise_at(front, high_water)
            },
            _ => front,
        }
    }
}

/// Replay goes sequence by sequence.
proof fn replay_by_name(m: Map<Seq<char>, Marks>, log: Seq<Op>, name: Seq<char>)
    ensures
        marks_at(replay_marks(m, log), name) == replay_at(marks_at(m, name), log, name),
    decreases log.len(),
{
    if log.len() > 0 {
        replay_by_name(m, log.drop_last(), name);
    }
}

/// Where a record drops the sequence, it does not matter what was there
/// before; and where none does, a raise may come before or after.
proof fn replay_forgets_or_commutes(
    a: Option<Marks>,
    b: Option<Marks>,
    log: Seq<Op>,
    name: Seq<char>,
    at_least: u64,
)
    ensures
        replay_at(a, log, name) == replay_at(b, log, name) || (replay_at(
            raise_at(a, at_least),
            log,
            name,
        ) == raise_at(replay_at(a, log, name), at_least)),
    decreases log.len(),
{
    if log.len() > 0 {
        replay_forgets_or_commutes(a, b, log.drop_last(), name, at_least);
    }
}

/// Replaying the records twice makes of one sequence what replaying them once
/// makes of it.
proof fn replay_at_twice(o: Option<Marks>, log: Seq<Op>, name: Seq<char>)
    ensures
        replay_at(replay_at(o, log, name), log, name) == replay_at(o, log, name),
    decreases log.len(),
{
    if log.len() > 0 {
        let front = log.drop_last();
        let once = replay_at(o, front, name);
        replay_at_twice(o, front, name);
        match log.last() {
            Op::Sequence { name: n, high_water, dropped } => if n == name && !dropped {
                replay_forgets_or_commutes(once, raise_at(once, high_water), front, name, high_water);
            },
            _ => {},
        }
    }
}

/// Replaying the log a second time, on what it gave the first time, leaves
/// every sequence as it is.
pub proof fn replaying_again_moves_no_sequence(m: Map<Seq<char>, Marks>, log: Seq<Op>)
    ensures
        replay_marks(replay_marks(m, log), log) == replay_marks(m, log),
{
    let once = replay_marks(m, log);
    let twice = replay_marks(once, log);
    assert forall|n: Seq<char>| marks_at(twice, n) == #[trigger] marks_at(once, n) by {
        replay_by_name(m, log, n);
        replay_by_name(once, log, n);
        replay_at_twice(marks_at(m, n), log, n);
    }
    assert forall|n: Seq<char>| #[trigger] twice.dom().contains(n) == once.dom().contains(n) by {
        assert(marks_at(twice, n) == marks_at(once, n));
    }
    assert forall|n: Seq<char>| once.dom().contains(n) implies #[trigger] twice[n] == once[n] by {
        assert(marks_at(twice, n) == marks_at(once, n));
    }
    assert(twice =~= once);
}

/// A sequence that is raised exists, hands out nothing below the number that
/// was asked for, and no less than before; it is raised no further than that,
/// and no other sequence is touched.
pub proof fn raising_never_lowers(
    m: Map<Seq<char>, Marks>,
    name: Seq<char>,
    at_least: u64,
    other: Seq<char>,
)
    ensures
        ({
            let r = raised(m, name, at_least);
            &&& r.dom() == m.dom().insert(name)
            &&& r[name].next >= at_least
            &&& m.dom().contains(name) ==> r[name].next >= m[name].next
            &&& r[name].next == at_least || (m.dom().contains(name) && r[name].next
                == m[name].next)
            &&& other != name && m.dom().contains(other) ==> r[other] == m[other]
        }),
{
    assert(raised(m, name, at_least).dom() =~= m.dom().insert(name));
}

} // verus!
