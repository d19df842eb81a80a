//! Which pages are really free: a list that was saved a while ago may name
//! pages that have been put to use since.
use std::collections::HashSet;

use vstd::prelude::*;

use crate::error::{Fault, IoFault, StoreError};
use crate::page::PageId;

verus! {

/// The page behind a page, if there is one; page 0 never is.
pub open spec fn next_of(links: Seq<u64>, p: u64) -> Option<u64> {
    if p < links.len() && links[p as int] != 0 {
        Some(links[p as int])
    } else {
        None
    }
}

/// The page `k` steps behind a page, if the chain goes that far.
pub open spec fn nth(links: Seq<u64>, p: u64, k: nat) -> Option<u64>
    decreases k,
{
    if k == 0 {
        Some(p)
    } else {
        match nth(links, p, (k - 1) as nat) {
            Some(q) => next_of(links, q),
            None => None,
        }
    }
}

/// Is the page on the chain that begins with one of these?
pub open spec fn reached(links: Seq<u64>, starts: Seq<PageId>, p: u64) -> bool {
    exists|i: int, k: nat|
        0 <= i < starts.len() && #[trigger] nth(links, (#[trigger] starts[i]).0, k) == Some(p)
}

/// Does the set hold the page behind each of its pages?
pub open spec fn closed(links: Seq<u64>, s: Set<u64>) -> bool {
    forall|p: u64| #[trigger]
        s.contains(p) ==> (next_of(links, p) matches Some(q) ==> s.contains(q))
}

/// A closed set that holds a page holds the chain behind it.
proof fn closed_holds_chain(links: Seq<u64>, s: Set<u64>, p: u64, k: nat)
    requires
        closed(links, s),
        s.contains(p),
    ensures
        nth(links, p, k) matches Some(q) ==> s.contains(q),
    decreases k,
{
    if k > 0 {
        closed_holds_chain(links, s, p, (k - 1) as nat);
    }
}

/// Does a chain of pages lead out of the file?
pub open spec fn leads_out(links: Seq<u64>, starts: Seq<PageId>) -> bool {
    exists|p: u64| #[trigger] reached(links, starts, p) && p >= links.len()
}

/// Is every page that is behind another here behind it there too?
pub open spec fn links_fewer(a: Seq<u64>, b: Seq<u64>) -> bool {
    forall|p: u64| #[trigger] next_of(a, p) is Some ==> next_of(a, p) == next_of(b, p)
}

/// With fewer links a chain goes no further.
proof fn fewer_links(a: Seq<u64>, b: Seq<u64>, p: u64, k: nat)
    requires
        links_fewer(a, b),
    ensures
        nth(a, p, k) is Some ==> nth(a, p, k) == nth(b, p, k),
    decreases k,
{
    if k > 0 {
        fewer_links(a, b, p, (k - 1) as nat);
    }
}

/// Behind a page without a link there is none.
pub proof fn ends_here(links: Seq<u64>, p: u64, k: nat)
    requires
        next_of(links, p) is None,
    ensures
        k > 0 ==> nth(links, p, k) is None,
    decreases k,
{
    assert(nth(links, p, 0) == Some(p));
    if k > 1 {
        ends_here(links, p, (k - 1) as nat);
    }
}

/// Chains that stay in the file still do once links are cut, pages are added
/// at the end, or chains of one page begin.
pub proof fn stays_inside(was: Seq<u64>, from: Seq<PageId>, links: Seq<u64>, starts: Seq<PageId>)
    requires
        !leads_out(was, from),
        links_fewer(links, was),
        was.len() <= links.len(),
        forall|i: int|
            0 <= i < starts.len() ==> from.contains(#[trigger] starts[i]) || (starts[i].0
                < links.len() && next_of(links, starts[i].0) is None),
    ensures
        !leads_out(links, starts),
{
    assert forall|p: u64| #[trigger] reached(links, starts, p) implies p < links.len() by {
        let (i, k) = choose|i: int, k: nat|
            0 <= i < starts.len() && #[trigger] nth(links, (#[trigger] starts[i]).0, k) == Some(p);
        if from.contains(starts[i]) {
            let j = choose|j: int| 0 <= j < from.len() && from[j] == starts[i];
            fewer_links(links, was, starts[i].0, k);
            assert(nth(was, from[j].0, k) == Some(p));
            assert(reached(was, from, p));
        } else {
            ends_here(links, starts[i].0, k);
        }
    }
}

/// The chain behind a page goes on behind the next.
proof fn one_further(links: Seq<u64>, p: u64, k: nat)
    ensures
        next_of(links, p) matches Some(q) ==> nth(links, p, k + 1) == nth(links, q, k),
    decreases k,
{
    assert(nth(links, p, 0) == Some(p));
    if k > 0 {
        one_further(links, p, (k - 1) as nat);
    }
}

/// Every page of a chain is reached from its first.
pub proof fn chain_is_reached(links: Seq<u64>, p: u64, most: nat, i: int)
    requires
        0 <= i < chain(links, p, most).len(),
    ensures
        nth(links, p, i as nat) == Some(chain(links, p, most)[i].0),
    decreases most,
{
    if i > 0 {
        match next_of(links, p) {
            Some(q) => {
                chain_is_reached(links, q, (most - 1) as nat, i - 1);
                one_further(links, p, (i - 1) as nat);
            },
            None => {},
        }
    }
}

/// All the pages on the chains that begin with these. Fails if a chain leads
/// out of the file.
pub fn reachable_pages(starts: &Vec<PageId>, links: &Vec<u64>) -> (r: Result<
    HashSet<u64>,
    StoreError,
>)
    ensures
        match r {
            Ok(s) => (forall|p: u64| #[trigger] s@.contains(p) <==> reached(links@, starts@, p))
                && (forall|p: u64| reached(links@, starts@, p) ==> p < links@.len()),
            Err(e) => e@ == Fault::Io(IoFault::UnexpectedEof) && exists|p: u64|
                reached(links@, starts@, p) && p >= links@.len(),
        },
{
    broadcast use vstd::std_specs::hash::group_hash_axioms;

    let mut seen: HashSet<u64> = HashSet::new();
    for i in 0..starts.len()
        invariant
            seen@.finite(),
            closed(links@, seen@),
            forall|j: int| 0 <= j < i ==> seen@.contains((#[trigger] starts@[j]).0),
            forall|p: u64| #[trigger]
                seen@.contains(p) ==> reached(links@, starts@, p) && p < links@.len(),
    {
        let start: u64 = starts[i].0;
        let mut cur: u64 = start;
        let mut more: bool = true;
        let ghost mut k: nat = 0;
        proof {
            assert(nth(links@, start, 0) == Some(start));
        }
        // Every step adds a page, so there are no more steps than pages.
        while more
            invariant
                start == starts@[i as int].0,
                0 <= i < starts@.len(),
                forall|j: int| 0 <= j < i ==> seen@.contains((#[trigger] starts@[j]).0),
                forall|p: u64| #[trigger]
                    seen@.contains(p) ==> reached(links@, starts@, p) && p < links@.len(),
                more ==> nth(links@, start, k) == Some(cur),
                more ==> forall|p: u64| #[trigger]
                    seen@.contains(p) ==> (next_of(links@, p) matches Some(q) ==> seen@.contains(q)
                        || q == cur),
                !more ==> closed(links@, seen@),
                seen@.contains(start) || (cur == start && more),
                seen@.finite(),
                seen@.subset_of(Set::new(|p: u64| p < links@.len())),
            decreases links@.len() - seen@.len(), more as int,
        {
            if cur >= links.len() as u64 {
                proof {
                    assert(reached(links@, starts@, cur)) by {
                        assert(nth(links@, starts@[i as int].0, k) == Some(cur));
                    }
                }
                return Err(StoreError::IoError(IoFault::UnexpectedEof));
            }
            let ghost was = seen@;
            let fresh: bool = seen.insert(cur);
            proof {
                assert(reached(links@, starts@, cur)) by {
                    assert(nth(links@, starts@[i as int].0, k) == Some(cur));
                }
            }
            if !fresh {
                more = false;
                assert(seen@ =~= was);
            } else {
                let next: u64 = links[cur as usize];
                proof {
                    bounded_len(links@, seen@);
                }
                if !PageId(next).is_valid_next_page() {
                    more = false;
                } else {
                    cur = next;
                    proof {
                        k = k + 1;
                    }
                }
            }
        }
    }
    proof {
        assert forall|p: u64| reached(links@, starts@, p) implies seen@.contains(p) by {
            let (i, k) = choose|i: int, k: nat|
                0 <= i < starts@.len() && #[trigger] nth(links@, (#[trigger] starts@[i]).0, k)
                    == Some(p);
            closed_holds_chain(links@, seen@, starts@[i].0, k);
        }
        assert forall|p: u64| reached(links@, starts@, p) implies p < links@.len() by {
            assert(seen@.contains(p));
        }
    }
    Ok(seen)
}

/// A set of pages of a file has no more of them than the file.
proof fn bounded_len(links: Seq<u64>, s: Set<u64>)
    requires
        s.finite(),
        forall|p: u64| #[trigger] s.contains(p) ==> p < links.len(),
    ensures
        s.len() <= links.len(),
{
    let all = vstd::set_lib::set_int_range(0, links.len() as int);
    vstd::set_lib::lemma_int_range(0, links.len() as int);
    let number = |p: u64| p as int;
    let ints = s.map(number);
    vstd::set_lib::lemma_map_size(s, ints, number);
    assert(ints.subset_of(all));
    vstd::set_lib::lemma_len_subset(ints, all);
}

/// The pages of a free list that nothing reaches, in order.
pub open spec fn not_reached(free: Seq<PageId>, links: Seq<u64>, starts: Seq<PageId>) -> Seq<
    PageId,
>
    decreases free.len(),
{
    if free.len() == 0 {
        free
    } else if reached(links, starts, free.last().0) {
        not_reached(free.drop_last(), links, starts)
    } else {
        not_reached(free.drop_last(), links, starts).push(free.last())
    }
}

/// Takes the pages out of a free list that are reached from `starts`: what is
/// in use is not free, whatever the list says.
pub fn reconcile_free_list(free: &Vec<PageId>, starts: &Vec<PageId>, links: &Vec<u64>) -> (r:
    Result<Vec<PageId>, StoreError>)
    ensures
        match r {
            Ok(out) => out@ == not_reached(free@, links@, starts@) && (forall|p: u64|
                reached(links@, starts@, p) ==> p < links@.len()),
            Err(e) => e@ == Fault::Io(IoFault::UnexpectedEof) && exists|p: u64|
                reached(links@, starts@, p) && p >= links@.len(),
        },
{
    broadcast use vstd::std_specs::hash::group_hash_axioms;

    let reachable = match reachable_pages(starts, links) {
        Ok(s) => s,
        Err(e) => {
            return Err(e);
        },
    };
    let mut out: Vec<PageId> = Vec::new();
    assert(free@.take(0) =~= seq![]);
    for i in 0..free.len()
        invariant
            forall|p: u64| #[trigger]
                reachable@.contains(p) <==> reached(links@, starts@, p),
            out@ == not_reached(free@.take(i as int), links@, starts@),
    {
        proof {
            assert(free@.take(i + 1).drop_last() =~= free@.take(i as int));
            assert(free@.take(i + 1).last() == free@[i as int]);
        }
        let p = free[i];
        if !reachable.contains(&p.0) {
            out.push(p);
        }
    }
    assert(free@.take(free@.len() as int) =~= free@);
    Ok(out)
}

/// The pages of the chain that begins with `p`, in order, `most` at most.
pub open spec fn chain(links: Seq<u64>, p: u64, most: nat) -> Seq<PageId>
    decreases most,
{
    if most == 0 {
        seq![]
    } else {
        seq![PageId(p)] + match next_of(links, p) {
            Some(q) => chain(links, q, (most - 1) as nat),
            None => seq![],
        }
    }
}

/// The pages of the chain that begins with `start`, in order. A chain that
/// runs in a circle ends after as many pages as there are.
pub fn page_chain(start: PageId, links: &Vec<u64>) -> (out: Vec<PageId>)
    ensures
        out@ == chain(links@, start.0, links@.len()),
{
    let mut out: Vec<PageId> = Vec::new();
    let mut at: u64 = start.0;
    let mut left: usize = links.len();
    let mut open: bool = left > 0;
    while open
        invariant
            open ==> left > 0,
            left <= links@.len(),
            chain(links@, start.0, links@.len()) == out@ + if open {
                chain(links@, at, left as nat)
            } else {
                seq![]
            },
        decreases left,
    {
        let ghost so_far = out@;
        out.push(PageId(at));
        left = left - 1;
        let mut next: u64 = 0;
        if at < links.len() as u64 {
            next = links[at as usize];
        }
        proof {
            let here = seq![PageId(at)];
            let rest = match next_of(links@, at) {
                Some(q) => chain(links@, q, left as nat),
                None => seq![],
            };
            assert(so_far + (here + rest) =~= out@ + rest);
            assert(next_of(links@, at) == if next == 0 {
                None::<u64>
            } else {
                Some(next)
            });
        }
        open = next != 0 && left > 0;
        at = next;
    }
    assert(out@ + Seq::<PageId>::empty() =~= out@);
    out
}

/// The pages of a list that are in a file of `n` pages, in order.
pub open spec fn in_file(free: Seq<PageId>, n: nat) -> Seq<PageId>
    decreases free.len(),
{
    if free.len() == 0 {
        free
    } else if free.last().0 < n {
        in_file(free.drop_last(), n).push(free.last())
    } else {
        in_file(free.drop_last(), n)
    }
}

/// Those pages are in the file.
pub proof fn in_file_is_in_file(free: Seq<PageId>, n: nat)
    ensures
        forall|i: int| 0 <= i < in_file(free, n).len() ==> (#[trigger] in_file(free, n)[i]).0 < n,
    decreases free.len(),
{
    if free.len() > 0 {
        let front = in_file(free.drop_last(), n);
        in_file_is_in_file(free.drop_last(), n);
        assert forall|i: int| 0 <= i < in_file(free, n).len() implies (#[trigger] in_file(
            free,
            n,
        )[i]).0 < n by {
            if i < front.len() {
                assert(in_file(free, n)[i] == front[i]);
            }
        }
    }
}

/// If all of the pages are in the file, none is left out.
pub proof fn all_in_file(free: Seq<PageId>, n: nat)
    requires
        forall|i: int| 0 <= i < free.len() ==> (#[trigger] free[i]).0 < n,
    ensures
        in_file(free, n) == free,
    decreases free.len(),
{
    if free.len() > 0 {
        let front = free.drop_last();
        assert forall|i: int| 0 <= i < front.len() implies (#[trigger] front[i]).0 < n by {
            assert(free[i].0 < n);
        }
        all_in_file(front, n);
        assert(free[free.len() - 1].0 < n);
        assert(front.push(free.last()) =~= free);
    }
}

/// Takes the pages out of a list that are not in a file of `n` pages.
pub fn keep_in_file(free: &Vec<PageId>, n: u64) -> (out: Vec<PageId>)
    ensures
        out@ == in_file(free@, n as nat),
{
    let mut out: Vec<PageId> = Vec::new();
    assert(free@.take(0) =~= seq![]);
    for i in 0..free.len()
        invariant
            out@ == in_file(free@.take(i as int), n as nat),
    {
        proof {
            assert(free@.take(i + 1).drop_last() =~= free@.take(i as int));
        }
        let p = free[i];
        if p.0 < n {
            out.push(p);
        }
    }
    assert(free@.take(free@.len() as int) =~= free@);
    out
}

/// A page stays on the free list exactly where nothing reaches it, and the list
/// keeps its order.
pub proof fn free_list_keeps_the_unreached(
    free: Seq<PageId>,
    links: Seq<u64>,
    starts: Seq<PageId>,
    p: PageId,
)
    ensures
        not_reached(free, links, starts).contains(p) <==> free.contains(p) && !reached(
            links,
            starts,
            p.0,
        ),
        not_reached(free, links, starts).len() <= free.len(),
    decreases free.len(),
{
    if free.len() > 0 {
        let front = free.drop_last();
        let rest = not_reached(front, links, starts);
        free_list_keeps_the_unreached(front, links, starts, p);
        last_or_before(free, p);
        last_or_before(rest.push(free.last()), p);
        assert(rest.push(free.last()).drop_last() =~= rest);
    }
}

/// What a list holds is its last item or among those before it.
proof fn last_or_before(s: Seq<PageId>, p: PageId)
    requires
        s.len() > 0,
    ensures
        s.contains(p) <==> s.drop_last().contains(p) || p == s.last(),
{
    let front = s.drop_last();
    if s.contains(p) {
        let i = s.index_of(p);
        if i < front.len() {
            assert(front[i] == p);
        }
    }
    if front.contains(p) {
        assert(s[front.index_of(p)] == p);
    }
    if p == s.last() {
        assert(s[s.len() - 1] == p);
    }
}

/// A page stays on the free list exactly where the file has it.
pub proof fn free_list_keeps_what_is_in_the_file(free: Seq<PageId>, n: nat, p: PageId)
    ensures
        in_file(free, n).contains(p) <==> free.contains(p) && p.0 < n,
    decreases free.len(),
{
    if free.len() > 0 {
        let front = free.drop_last();
        let rest = in_file(front, n);
        free_list_keeps_what_is_in_the_file(front, n, p);
        last_or_before(free, p);
        last_or_before(rest.push(free.last()), p);
        assert(rest.push(free.last()).drop_last() =~= rest);
    }
}

/// A chain begins with the page that it was asked for, goes from each page to
/// the one behind it, and ends where there is none, or after as many pages as
/// were allowed.
pub proof fn chain_follows_the_links(links: Seq<u64>, p: u64, most: nat, i: int)
    requires
        most > 0,
    ensures
        chain(links, p, most).len() > 0,
        chain(links, p, most)[0].0 == p,
        chain(links, p, most).len() <= most,
        0 <= i < chain(links, p, most).len() - 1 ==> next_of(links, chain(links, p, most)[i].0)
            == Some(chain(links, p, most)[i + 1].0),
        chain(links, p, most).len() < most ==> next_of(links, chain(links, p, most).last().0) is None,
    decreases most,
{
    if let Some(q) = next_of(links, p) {
        let rest = chain(links, q, (most - 1) as nat);
        let all = chain(links, p, most);
        assert(all =~= seq![PageId(p)] + rest);
        if most > 1 {
            chain_follows_the_links(links, q, (most - 1) as nat, i - 1);
            if 0 < i < all.len() - 1 {
                assert(all[i] == rest[i - 1]);
                assert(all[i + 1] == rest[i]);
            }
            assert(all.last() == rest.last());
        }
    } else {
        assert(chain(links, p, most) =~= seq![PageId(p)]);
    }
}

} // verus!
