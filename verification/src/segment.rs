//! The files that the write-ahead log is cut into: their names and their order.
use vstd::prelude::*;
use vstd::string::*;

use crate::memfile;
use crate::memfile::{Disk, MemFile, Namespace};
use crate::text;
use crate::text::{chars_of, comes_before, has_prefix, parse_u64, push_decimal};

verus! {

/// One segment of the log.
#[derive(Debug)]
pub struct Segment {
    /// Its number; the segments of a log are replayed in this order.
    pub n: u64,
    /// The name of its file.
    pub path: String,
    /// The highest sequence number in it, or 0: all that deleting it depends
    /// on.
    pub max_lsn: u64,
    /// How many bytes it takes.
    pub bytes: u64,
}

/// A segment, as values.
#[verifier::ext_equal]
pub struct Seg {
    pub n: u64,
    pub path: Seq<char>,
    pub max_lsn: u64,
    pub bytes: u64,
}

impl View for Segment {
    type V = Seg;

    open spec fn view(&self) -> Seg {
        Seg { n: self.n, path: self.path@, max_lsn: self.max_lsn, bytes: self.bytes }
    }
}

/// What the names of a database's segments begin with.
pub open spec fn prefix_text(name: Seq<char>) -> Seq<char> {
    name + ".wal."@
}

/// The name of a segment.
pub open spec fn path_text(name: Seq<char>, n: u64) -> Seq<char> {
    prefix_text(name) + text::decimal(n as nat)
}

/// The number that a segment's name ends in.
pub open spec fn number_of(prefix: Seq<char>, path: Seq<char>) -> Option<u64> {
    if text::starts_with(path, prefix) {
        text::parse_spec(path.skip(prefix.len() as int))
    } else {
        None
    }
}

/// A segment's name gives its number back.
pub proof fn path_gives_number(name: Seq<char>, n: u64)
    ensures
        number_of(prefix_text(name), path_text(name, n)) == Some(n),
{
    let prefix = prefix_text(name);
    let path = path_text(name, n);
    assert(path.take(prefix.len() as int) =~= prefix);
    assert(path.skip(prefix.len() as int) =~= text::decimal(n as nat));
    text::decimal_round_trip(n);
}

/// What the names of a database's segments begin with.
pub fn segment_prefix(name: &str) -> (out: String)
    ensures
        out@ == prefix_text(name@),
{
    let mut out = name.to_owned();
    out.append(".wal.");
    out
}

/// The name of a segment.
pub fn segment_path(name: &str, n: u64) -> (out: String)
    ensures
        out@ == path_text(name@, n),
{
    let mut out = segment_prefix(name);
    push_decimal(&mut out, n);
    out
}

/// The number that a segment's name ends in, if it is the name of one.
pub fn segment_number(prefix: &str, path: &str) -> (r: Option<u64>)
    ensures
        r == number_of(prefix@, path@),
{
    let want = chars_of(prefix);
    let have = chars_of(path);
    if has_prefix(&have, &want) {
        parse_u64(&have, want.len())
    } else {
        None
    }
}

// ---------------------------------------------------------------------------
// The segments of a log, oldest first
// ---------------------------------------------------------------------------

/// Does one segment come before another: by number, and then by name?
pub open spec fn before(a: (u64, Seq<char>), b: (u64, Seq<char>)) -> bool {
    a.0 < b.0 || (a.0 == b.0 && text::text_before(a.1, b.1))
}

/// Are the segments in order, without one that occurs twice?
pub open spec fn ordered(s: Seq<(u64, Seq<char>)>) -> bool {
    forall|i: int, j: int| 0 <= i < j < s.len() ==> before(#[trigger] s[i], #[trigger] s[j])
}

/// Is the file one of the database's segments?
pub open spec fn is_segment(d: Disk, name: Seq<char>, s: (u64, Seq<char>)) -> bool {
    d.names.dom().contains(s.1) && number_of(prefix_text(name), s.1) == Some(s.0)
}

/// Are these all of the database's segments, in order?
pub open spec fn lists_segments(d: Disk, name: Seq<char>, s: Seq<(u64, Seq<char>)>) -> bool {
    &&& ordered(s)
    &&& forall|x: (u64, Seq<char>)| #[trigger] s.contains(x) <==> is_segment(d, name, x)
}

/// The database's segments, in order.
pub open spec fn segments_of(d: Disk, name: Seq<char>) -> Seq<(u64, Seq<char>)> {
    choose|s: Seq<(u64, Seq<char>)>| lists_segments(d, name, s)
}

/// Segments as values.
pub open spec fn pairs(s: Seq<(u64, String)>) -> Seq<(u64, Seq<char>)> {
    s.map_values(|p: (u64, String)| (p.0, p.1@))
}

/// The order is strict and total.
pub proof fn before_total(a: (u64, Seq<char>), b: (u64, Seq<char>))
    ensures
        before(a, b) || before(b, a) || a == b,
        !(before(a, b) && before(b, a)),
        a == b ==> !before(a, b),
{
    text::text_before_total(a.1, b.1);
}

/// The order is transitive.
pub proof fn before_transitive(
    a: (u64, Seq<char>),
    b: (u64, Seq<char>),
    c: (u64, Seq<char>),
)
    requires
        before(a, b),
        before(b, c),
    ensures
        before(a, c),
{
    if a.0 == b.0 && b.0 == c.0 {
        text::text_before_transitive(a.1, b.1, c.1);
    }
}

/// There is only one way to list a database's segments.
pub proof fn one_listing(
    d: Disk,
    name: Seq<char>,
    a: Seq<(u64, Seq<char>)>,
    b: Seq<(u64, Seq<char>)>,
)
    requires
        lists_segments(d, name, a),
        lists_segments(d, name, b),
    ensures
        a == b,
{
    same_order(a, b, 0);
    assert(a.skip(0) =~= a);
    assert(b.skip(0) =~= b);
}

/// Two ordered lists that hold the same from `i` on are the same from there.
proof fn same_order(a: Seq<(u64, Seq<char>)>, b: Seq<(u64, Seq<char>)>, i: int)
    requires
        ordered(a),
        ordered(b),
        0 <= i <= a.len(),
        i <= b.len(),
        forall|x: (u64, Seq<char>)| #[trigger] a.contains(x) <==> b.contains(x),
        forall|j: int| 0 <= j < i ==> a[j] == b[j],
    ensures
        a.skip(i) == b.skip(i),
    decreases a.len() - i,
{
    if i == a.len() {
        if i < b.len() {
            assert(b.contains(b[i]));
            assert(a.contains(b[i]));
            let j = choose|j: int| 0 <= j < a.len() && a[j] == b[i];
            before_total(b[j], b[i]);
            assert(before(b[j], b[i]));
        }
        assert(a.skip(i) =~= b.skip(i));
    } else {
        assert(a.contains(a[i]));
        assert(b.contains(a[i]));
        let j = choose|j: int| 0 <= j < b.len() && b[j] == a[i];
        if j < i {
            before_total(a[j], a[i]);
            assert(before(a[j], a[i]));
        }
        assert(b.contains(b[i]));
        assert(a.contains(b[i]));
        let k = choose|k: int| 0 <= k < a.len() && a[k] == b[i];
        if k < i {
            before_total(b[k], b[i]);
            assert(before(b[k], b[i]));
        }
        before_total(a[i], b[i]);
        if j > i {
            assert(before(b[i], b[j]));
        }
        if k > i {
            assert(before(a[i], a[k]));
        }
        assert(a[i] == b[i]);
        same_order(a, b, i + 1);
        assert(a.skip(i) =~= seq![a[i]] + a.skip(i + 1));
        assert(b.skip(i) =~= seq![b[i]] + b.skip(i + 1));
    }
}

/// Puts one more segment in its place.
fn put_segment(out: &mut Vec<(u64, String)>, n: u64, path: String)
    requires
        ordered(pairs(old(out)@)),
        !pairs(old(out)@).contains((n, path@)),
    ensures
        ordered(pairs(final(out)@)),
        forall|x: (u64, Seq<char>)| #[trigger]
            pairs(final(out)@).contains(x) <==> pairs(old(out)@).contains(x) || x == (n, path@),
{
    let ghost was = pairs(out@);
    let ghost new = (n, path@);
    let mut at: usize = 0;
    while at < out.len() && (out[at].0 < n || (out[at].0 == n && comes_before(
        out[at].1.as_str(),
        path.as_str(),
    )))
        invariant
            pairs(out@) == was,
            new == (n, path@),
            at <= out@.len(),
            forall|j: int| 0 <= j < at ==> before(#[trigger] was[j], new),
        decreases out@.len() - at,
    {
        assert(was[at as int] == (out@[at as int].0, out@[at as int].1@));
        at = at + 1;
    }
    proof {
        assert forall|j: int| at <= j < was.len() implies before(new, #[trigger] was[j]) by {
            assert(was[at as int] == (out@[at as int].0, out@[at as int].1@));
            assert(was.contains(was[at as int]));
            before_total(was[at as int], new);
            if j > at {
                before_transitive(new, was[at as int], was[j]);
            }
        }
    }
    out.insert(at, (n, path));
    proof {
        let now = pairs(out@);
        assert(now =~= was.insert(at as int, new));
        assert forall|i: int, j: int| 0 <= i < j < now.len() implies before(
            #[trigger] now[i],
            #[trigger] now[j],
        ) by {
            if i < at {
                assert(now[i] == was[i]);
            } else if i > at {
                assert(now[i] == was[i - 1]);
            }
            if j < at {
                assert(now[j] == was[j]);
            } else if j > at {
                assert(now[j] == was[j - 1]);
            }
        }
        assert forall|x: (u64, Seq<char>)| #[trigger] now.contains(x) <==> was.contains(x) || x
            == new by {
            if now.contains(x) {
                let i = choose|i: int| 0 <= i < now.len() && now[i] == x;
                if i < at {
                    assert(was[i] == x);
                } else if i > at {
                    assert(was[i - 1] == x);
                }
            }
            if was.contains(x) {
                let i = choose|i: int| 0 <= i < was.len() && was[i] == x;
                if i < at {
                    assert(now[i] == x);
                } else {
                    assert(now[i + 1] == x);
                }
            }
            assert(now[at as int] == new);
        }
    }
}

/// The database's segments, oldest first.
pub fn list_segments(handle: &MemFile, ns: &Namespace, name: &str) -> (out: Vec<(u64, String)>)
    requires
        ns.wf(),
    ensures
        pairs(out@) == segments_of(ns@, name@),
        lists_segments(ns@, name@, segments_of(ns@, name@)),
{
    let prefix = segment_prefix(name);
    let ghost pre = prefix_text(name@);
    let paths = handle.list_siblings(ns, prefix.as_str());
    let mut out: Vec<(u64, String)> = Vec::new();
    for i in 0..paths.len()
        invariant
            ns.wf(),
            pre == prefix_text(name@),
            prefix@ == pre,
            memfile::listing(ns@, pre, paths@),
            ordered(pairs(out@)),
            forall|x: (u64, Seq<char>)| #[trigger]
                pairs(out@).contains(x) <==> number_of(pre, x.1) == Some(x.0) && memfile::among(
                    paths@.take(i as int),
                    x.1,
                ),
    {
        let ghost was = pairs(out@);
        let ghost front = paths@.take(i as int);
        let ghost next = paths@.take(i + 1);
        let path = paths[i].as_str();
        proof {
            if memfile::among(front, path@) {
                let j = choose|j: int| 0 <= j < front.len() && (#[trigger] front[j])@ == path@;
                assert(paths@[j]@ != paths@[i as int]@);
            }
            assert forall|t: Seq<char>| #[trigger] memfile::among(next, t) <==> memfile::among(
                front,
                t,
            ) || t == path@ by {
                if memfile::among(next, t) {
                    let j = choose|j: int| 0 <= j < next.len() && (#[trigger] next[j])@ == t;
                    if j < i {
                        assert(front[j]@ == t);
                    }
                }
                if memfile::among(front, t) {
                    let j = choose|j: int| 0 <= j < front.len() && (#[trigger] front[j])@ == t;
                    assert(next[j]@ == t);
                }
                assert(next[i as int]@ == path@);
            }
        }
        match segment_number(prefix.as_str(), path) {
            Some(n) => {
                proof {
                    assert(!was.contains((n, path@)));
                }
                put_segment(&mut out, n, path.to_owned());
                proof {
                    assert forall|x: (u64, Seq<char>)| #[trigger]
                        pairs(out@).contains(x) <==> number_of(pre, x.1) == Some(x.0)
                            && memfile::among(next, x.1) by {
                        assert(was.contains(x) <==> number_of(pre, x.1) == Some(x.0)
                            && memfile::among(front, x.1));
                    }
                }
            },
            None => {
                proof {
                    assert forall|x: (u64, Seq<char>)| #[trigger]
                        pairs(out@).contains(x) <==> number_of(pre, x.1) == Some(x.0)
                            && memfile::among(next, x.1) by {
                        assert(was.contains(x) <==> number_of(pre, x.1) == Some(x.0)
                            && memfile::among(front, x.1));
                    }
                }
            },
        }
    }
    proof {
        let s = pairs(out@);
        assert(paths@.take(paths@.len() as int) =~= paths@);
        assert forall|x: (u64, Seq<char>)| #[trigger] s.contains(x) <==> is_segment(
            ns@,
            name@,
            x,
        ) by {
            if memfile::among(paths@, x.1) {
                let j = choose|j: int| 0 <= j < paths@.len() && (#[trigger] paths@[j])@ == x.1;
                assert(ns@.names.dom().contains(paths@[j]@));
            }
        }
        assert(lists_segments(ns@, name@, s));
        one_listing(ns@, name@, s, segments_of(ns@, name@));
    }
    out
}

} // verus!
