//! Files in memory that tell what was written from what would survive a power
//! cut. Files of one namespace can find each other by name; a handle is a
//! number and a position, so handles to one file share its bytes.
use vstd::prelude::*;
use vstd::string::*;

use crate::assoc;
use crate::error::{Fault, IoFault, StoreError};
use crate::text;
use crate::text::{chars_of, comes_before, has_prefix, same_text};

verus! {

/// What is known of a file without reading it.
#[derive(Debug, Clone, Copy, PartialEq, Eq, Structural)]
pub struct Meta {
    pub len: u64,
}

/// Where to move a handle to.
#[derive(Debug, Clone, Copy, PartialEq, Eq, Structural)]
pub enum SeekFrom {
    Start(u64),
    End(i64),
    Current(i64),
}

// ---------------------------------------------------------------------------
// One file's bytes
// ---------------------------------------------------------------------------

/// The bytes of a file: what was written, what the last sync published, and
/// the range that was written since.
pub struct MemBuf {
    pub data: Vec<u8>,
    pub synced: Vec<u8>,
    pub dirty: Option<(usize, usize)>,
}

/// What a file holds: the live bytes, and those that survive a power cut.
#[verifier::ext_equal]
pub struct Bytes {
    pub data: Seq<u8>,
    pub synced: Seq<u8>,
}

impl View for MemBuf {
    type V = Bytes;

    open spec fn view(&self) -> Bytes {
        Bytes { data: self.data@, synced: self.synced@ }
    }
}

/// The byte at a place, where a file that is too short reads as zeros.
pub open spec fn at_or_zero(s: Seq<u8>, i: int) -> u8 {
    if i < s.len() {
        s[i]
    } else {
        0
    }
}

/// Was the place written since the last sync?
pub open spec fn in_range(dirty: Option<(usize, usize)>, i: int) -> bool {
    dirty matches Some(r) && r.0 <= i < r.1
}

/// The bytes after `buf` is written at an offset; a gap before it reads as
/// zeros.
pub open spec fn written(s: Seq<u8>, at: nat, buf: Seq<u8>) -> Seq<u8> {
    Seq::new(
        if s.len() < at + buf.len() {
            at + buf.len()
        } else {
            s.len()
        },
        |i: int|
            if at <= i < at + buf.len() {
                buf[i - at]
            } else {
                at_or_zero(s, i)
            },
    )
}

/// The bytes that a read of at most `want` bytes at an offset gives.
pub open spec fn readable(s: Seq<u8>, at: nat, want: nat) -> Seq<u8> {
    if at >= s.len() {
        Seq::empty()
    } else if s.len() - at < want {
        s.subrange(at as int, s.len() as int)
    } else {
        s.subrange(at as int, (at + want) as int)
    }
}

/// Writing at the end appends.
pub proof fn written_at_end(s: Seq<u8>, buf: Seq<u8>)
    ensures
        written(s, s.len(), buf) == s + buf,
{
    assert(written(s, s.len(), buf) =~= s + buf);
}

/// What is read where it was just written is what was written.
pub proof fn read_gives_what_was_written(s: Seq<u8>, at: nat, buf: Seq<u8>)
    ensures
        buf.len() > 0 ==> readable(written(s, at, buf), at, buf.len()) == buf,
{
    if buf.len() > 0 {
        assert(readable(written(s, at, buf), at, buf.len()) =~= buf);
    }
}

/// A copy of bytes.
fn copy_of(s: &Vec<u8>) -> (out: Vec<u8>)
    ensures
        out@ == s@,
{
    let mut out: Vec<u8> = Vec::new();
    for i in 0..s.len()
        invariant
            out@ == s@.take(i as int),
    {
        out.push(s[i]);
        assert(s@.take(i + 1) =~= s@.take(i as int).push(s@[i as int]));
    }
    assert(s@.take(s@.len() as int) =~= s@);
    out
}

impl MemBuf {
    /// Outside the range that was written since, the last sync holds.
    pub open spec fn wf(&self) -> bool {
        &&& self.dirty matches Some(r) ==> r.0 <= r.1
        &&& self.data@.len() < self.synced@.len() ==> (self.dirty matches Some(r) && r.0 == 0)
        &&& forall|i: int|
            0 <= i < self.data@.len() && !in_range(self.dirty, i) ==> (#[trigger] self.data@[i])
                == at_or_zero(self.synced@, i)
    }

    /// An empty file.
    pub fn new() -> (b: MemBuf)
        ensures
            b.wf(),
            b@ == (Bytes { data: Seq::empty(), synced: Seq::empty() }),
    {
        MemBuf { data: Vec::new(), synced: Vec::new(), dirty: None }
    }

    /// A file that holds the bytes, as if they had just been synced.
    pub fn from_bytes(bytes: Vec<u8>) -> (b: MemBuf)
        ensures
            b.wf(),
            b@ == (Bytes { data: bytes@, synced: bytes@ }),
    {
        MemBuf { synced: copy_of(&bytes), data: bytes, dirty: None }
    }

    /// Notes that a range was written.
    fn mark_dirty(&mut self, lo: usize, hi: usize)
        ensures
            final(self).data == old(self).data,
            final(self).synced == old(self).synced,
            final(self).dirty == Some(
                match old(self).dirty {
                    Some(r) => (
                        if r.0 < lo {
                            r.0
                        } else {
                            lo
                        },
                        if r.1 > hi {
                            r.1
                        } else {
                            hi
                        },
                    ),
                    None => (lo, hi),
                },
            ),
    {
        self.dirty =
        match self.dirty {
            Some((a, b)) => {
                let from: usize = if a < lo {
                    a
                } else {
                    lo
                };
                let to: usize = if b > hi {
                    b
                } else {
                    hi
                };
                Some((from, to))
            },
            None => Some((lo, hi)),
        };
    }

    /// Writes at an offset, growing the file as far as needed. What was synced
    /// stays as it is.
    pub fn write_at(&mut self, buf: &[u8], offset: usize)
        requires
            old(self).wf(),
            offset + buf@.len() <= usize::MAX,
        ensures
            final(self).wf(),
            final(self)@ == (Bytes {
                data: written(old(self)@.data, offset as nat, buf@),
                ..old(self)@
            }),
    {
        let n: usize = buf.len();
        let end: usize = offset + n;
        if end > self.data.len() {
            self.data.resize(end, 0);
        }
        let ghost base = self.data@;
        proof {
            assert forall|i: int| 0 <= i < base.len() implies (#[trigger] base[i]) == at_or_zero(
                old(self).data@,
                i,
            ) by {
                if i < old(self).data@.len() {
                    let m = old(self).data@.len() as int;
                    assert(base.subrange(0, m)[i] == base[i]);
                }
            }
        }
        for k in 0..n
            invariant
                n == buf@.len(),
                end == offset + n,
                end <= base.len(),
                self.data@.len() == base.len(),
                self.synced == old(self).synced,
                self.dirty == old(self).dirty,
                forall|i: int|
                    0 <= i < base.len() ==> (#[trigger] self.data@[i]) == if offset <= i < offset
                        + k {
                        buf@[i - offset]
                    } else {
                        base[i]
                    },
        {
            self.data.set(offset + k, buf[k]);
        }
        assert(self.data@ =~= written(old(self).data@, offset as nat, buf@));
        self.mark_dirty(offset, end);
        proof {
            assert forall|i: int|
                0 <= i < self.data@.len() && !in_range(self.dirty, i) implies (
            #[trigger] self.data@[i]) == at_or_zero(self.synced@, i) by {
                if i < old(self).data@.len() {
                    assert(!in_range(old(self).dirty, i));
                    assert(old(self).data@[i] == at_or_zero(old(self).synced@, i));
                } else {
                    // The file grew over this place: nothing was synced there,
                    // or everything from the start counts as written.
                    assert(old(self).data@.len() >= old(self).synced@.len());
                }
            }
        }
    }

    /// Writes behind the last byte.
    pub fn append(&mut self, buf: &[u8])
        requires
            old(self).wf(),
        ensures
            final(self).wf(),
            final(self)@ == (Bytes { data: old(self)@.data + buf@, ..old(self)@ }),
    {
        let lo: usize = self.data.len();
        for k in 0..buf.len()
            invariant
                self.synced == old(self).synced,
                self.dirty == old(self).dirty,
                self.data@ == old(self).data@ + buf@.take(k as int),
        {
            self.data.push(buf[k]);
            assert(buf@.take(k + 1) =~= buf@.take(k as int).push(buf@[k as int]));
        }
        assert(buf@.take(buf@.len() as int) =~= buf@);
        let hi: usize = self.data.len();
        self.mark_dirty(lo, hi);
        proof {
            assert forall|i: int|
                0 <= i < self.data@.len() && !in_range(self.dirty, i) implies (
            #[trigger] self.data@[i]) == at_or_zero(self.synced@, i) by {
                if i < old(self).data@.len() {
                    assert(!in_range(old(self).dirty, i));
                    assert(old(self).data@[i] == at_or_zero(old(self).synced@, i));
                }
            }
        }
    }

    /// Reads at an offset, at most as many bytes as `buf` holds.
    pub fn read_at(&self, buf: &mut Vec<u8>, offset: usize) -> (n: usize)
        ensures
            final(buf)@.len() == old(buf)@.len(),
            n == readable(self@.data, offset as nat, old(buf)@.len()).len(),
            forall|i: int|
                0 <= i < final(buf)@.len() ==> (#[trigger] final(buf)@[i]) == if i < n {
                    readable(self@.data, offset as nat, old(buf)@.len())[i]
                } else {
                    old(buf)@[i]
                },
    {
        if offset >= self.data.len() {
            return 0;
        }
        let len: usize = self.data.len();
        let left: usize = len - offset;
        let n: usize = if left < buf.len() {
            left
        } else {
            buf.len()
        };
        let ghost want = old(buf)@.len();
        for k in 0..n
            invariant
                len == self.data@.len(),
                offset < len,
                want == old(buf)@.len(),
                n <= want,
                n <= self.data@.len() - offset,
                n == readable(self@.data, offset as nat, want).len(),
                buf@.len() == want,
                forall|i: int|
                    0 <= i < want ==> (#[trigger] buf@[i]) == if i < k {
                        readable(self@.data, offset as nat, want)[i]
                    } else {
                        old(buf)@[i]
                    },
        {
            buf.set(k, self.data[offset + k]);
        }
        n
    }

    /// Empties the file. What was synced stays until the next sync.
    pub fn truncate(&mut self)
        requires
            old(self).wf(),
        ensures
            final(self).wf(),
            final(self)@ == (Bytes { data: Seq::empty(), ..old(self)@ }),
    {
        self.data.clear();
        // Everything that gets written from here on is new content.
        self.dirty = Some((0, 0));
    }

    /// Publishes what was written: from here on it survives a power cut. Only
    /// the range that was written since the last sync is copied.
    pub fn sync(&mut self)
        requires
            old(self).wf(),
        ensures
            final(self).wf(),
            final(self)@ == (Bytes { data: old(self)@.data, synced: old(self)@.data }),
    {
        let n: usize = self.data.len();
        self.synced.resize(n, 0);
        let ghost base = self.synced@;
        proof {
            assert forall|i: int| 0 <= i < n implies (#[trigger] base[i]) == at_or_zero(
                old(self).synced@,
                i,
            ) by {
                let m = old(self).synced@.len() as int;
                if i < m && n > m {
                    assert(base.subrange(0, m)[i] == base[i]);
                }
            }
        }
        match self.dirty {
            Some((lo, top)) => {
                let hi: usize = if top < n {
                    top
                } else {
                    n
                };
                let mut i: usize = lo;
                while i < hi
                    invariant
                        n == self.data@.len(),
                        self.data == old(self).data,
                        hi <= n,
                        lo <= i,
                        i <= hi || i == lo,
                        base.len() == n,
                        self.synced@.len() == n,
                        forall|j: int|
                            0 <= j < n ==> (#[trigger] self.synced@[j]) == if lo <= j < i {
                                self.data@[j]
                            } else {
                                base[j]
                            },
                    decreases hi - i,
                {
                    let b: u8 = self.data[i];
                    self.synced.set(i, b);
                    i = i + 1;
                }
            },
            None => {},
        }
        proof {
            assert forall|j: int| 0 <= j < n implies (#[trigger] self.synced@[j])
                == self.data@[j] by {
                assert(base[j] == at_or_zero(old(self).synced@, j));
                if !in_range(old(self).dirty, j) {
                    assert(old(self).data@[j] == at_or_zero(old(self).synced@, j));
                }
            }
            assert(self.synced@ =~= self.data@);
        }
        self.dirty = None;
    }
}

// ---------------------------------------------------------------------------
// The files of one namespace
// ---------------------------------------------------------------------------

/// A name and the file that it stands for.
pub struct NamedFile {
    pub name: String,
    pub at: usize,
}

/// The files that can see each other. Every database has a namespace of its
/// own, so two that use one name never see each other's files.
pub struct Namespace {
    pub files: Vec<MemBuf>,
    pub names: Vec<NamedFile>,
}

/// What a namespace holds.
#[verifier::ext_equal]
pub struct Disk {
    pub files: Seq<Bytes>,
    pub names: Map<Seq<char>, usize>,
}

/// The names with the files they stand for, as pairs.
pub open spec fn name_pairs(s: Seq<NamedFile>) -> Seq<(Seq<char>, usize)> {
    s.map_values(|f: NamedFile| (f.name@, f.at))
}

/// The bytes of the files.
pub open spec fn file_views(s: Seq<MemBuf>) -> Seq<Bytes> {
    s.map_values(|b: MemBuf| b@)
}

impl View for Namespace {
    type V = Disk;

    open spec fn view(&self) -> Disk {
        Disk {
            files: file_views(self.files@),
            names: assoc::assoc(name_pairs(self.names@)),
        }
    }
}

/// Does every name stand for a file of its own?
pub open spec fn apart(d: Disk) -> bool {
    &&& forall|p: Seq<char>| #[trigger] d.names.dom().contains(p) ==> d.names[p] < d.files.len()
    &&& forall|p: Seq<char>, q: Seq<char>| #[trigger]
        d.names.dom().contains(p) && #[trigger] d.names.dom().contains(q) && p != q
            ==> d.names[p] != d.names[q]
}

/// In every namespace each name stands for a file of its own.
pub proof fn names_are_apart(ns: Namespace)
    requires
        ns.wf(),
    ensures
        apart(ns@),
{
    let pairs = name_pairs(ns.names@);
    assert forall|p: Seq<char>| #[trigger] ns@.names.dom().contains(p) implies ns@.names[p]
        < ns@.files.len() by {
        let i = assoc::assoc_find(pairs, p);
        assert(ns.names@[i].at == pairs[i].1);
    }
    assert forall|p: Seq<char>, q: Seq<char>| #[trigger]
        ns@.names.dom().contains(p) && #[trigger] ns@.names.dom().contains(q) && p
            != q implies ns@.names[p] != ns@.names[q] by {
        let i = assoc::assoc_find(pairs, p);
        let j = assoc::assoc_find(pairs, q);
        assert(ns.names@[i].at == pairs[i].1);
        assert(ns.names@[j].at == pairs[j].1);
    }
}

/// Are the names exactly those that begin with the prefix, each once?
pub open spec fn listing(d: Disk, prefix: Seq<char>, out: Seq<String>) -> bool {
    &&& forall|i: int|
        0 <= i < out.len() ==> d.names.dom().contains((#[trigger] out[i])@) && text::starts_with(
            out[i]@,
            prefix,
        )
    &&& forall|n: Seq<char>| #[trigger]
        d.names.dom().contains(n) && text::starts_with(n, prefix) ==> exists|i: int|
            0 <= i < out.len() && (#[trigger] out[i])@ == n
    &&& forall|i: int, j: int|
        0 <= i < j < out.len() ==> (#[trigger] out[i])@ != (#[trigger] out[j])@
}

impl Namespace {
    /// Names are unique and stand for files that are there, each for its own.
    pub open spec fn wf(&self) -> bool {
        &&& assoc::unique(name_pairs(self.names@))
        &&& forall|i: int, j: int|
            0 <= i < j < self.names@.len() ==> (#[trigger] self.names@[i]).at != (
            #[trigger] self.names@[j]).at
        &&& forall|i: int|
            0 <= i < self.names@.len() ==> (#[trigger] self.names@[i]).at < self.files@.len()
        &&& forall|i: int| 0 <= i < self.files@.len() ==> (#[trigger] self.files@[i]).wf()
    }

    /// There are no more files than a length can say.
    pub proof fn count_fits(&self)
        ensures
            self@.files.len() <= usize::MAX,
    {
        assert(self.files.len() == self.files@.len());
    }

    /// No file is longer than a length can say.
    pub proof fn lengths_fit(&self, i: int)
        requires
            0 <= i < self@.files.len(),
        ensures
            self@.files[i].data.len() <= usize::MAX,
    {
        assert(self@.files[i].data == self.files@[i].data@);
        assert(self.files@[i].data.len() == self.files@[i].data@.len());
    }

    /// A namespace without files.
    pub fn new() -> (ns: Namespace)
        ensures
            ns.wf(),
            ns@ == (Disk { files: Seq::empty(), names: Map::empty() }),
    {
        let ns = Namespace { files: Vec::new(), names: Vec::new() };
        proof {
            assert(name_pairs(ns.names@) =~= Seq::empty());
            assert(file_views(ns.files@) =~= Seq::empty());
            assoc::assoc_empty::<Seq<char>, usize>();
        }
        ns
    }

    /// Adds a file without a name.
    fn add(&mut self, b: MemBuf) -> (at: usize)
        requires
            old(self).wf(),
            b.wf(),
        ensures
            final(self).wf(),
            final(self)@ == (Disk { files: old(self)@.files.push(b@), ..old(self)@ }),
            final(self).names == old(self).names,
            at == old(self)@.files.len(),
    {
        let at: usize = self.files.len();
        self.files.push(b);
        assert(file_views(self.files@) =~= file_views(old(self).files@).push(b@));
        at
    }

    /// The position of a name.
    fn position(&self, name: &str) -> (r: Option<usize>)
        requires
            self.wf(),
        ensures
            match r {
                Some(i) => i < self.names@.len() && self.names@[i as int].name@ == name@
                    && self@.names.dom().contains(name@) && self@.names[name@]
                    == self.names@[i as int].at,
                None => !self@.names.dom().contains(name@),
            },
    {
        let ghost pairs = name_pairs(self.names@);
        for i in 0..self.names.len()
            invariant
                self.wf(),
                pairs == name_pairs(self.names@),
                forall|j: int| 0 <= j < i ==> (#[trigger] self.names@[j]).name@ != name@,
        {
            if same_text(self.names[i].name.as_str(), name) {
                proof {
                    assert(pairs[i as int] == (name@, self.names@[i as int].at));
                    assoc::assoc_at(pairs, i as int);
                }
                return Some(i);
            }
        }
        proof {
            assert forall|j: int| 0 <= j < pairs.len() implies (#[trigger] pairs[j]).0
                != name@ by {
                assert(self.names@[j].name@ != name@);
            }
            assoc::assoc_absent(pairs, name@);
        }
        None
    }

    /// Lets a name stand for a file.
    fn register(&mut self, name: &str, at: usize)
        requires
            old(self).wf(),
            at < old(self)@.files.len(),
            forall|i: int| 0 <= i < old(self).names@.len() ==> (#[trigger] old(self).names@[i]).at
                != at,
        ensures
            final(self).wf(),
            final(self)@ == (Disk { names: old(self)@.names.insert(name@, at), ..old(self)@ }),
    {
        let ghost pairs = name_pairs(self.names@);
        match self.position(name) {
            Some(i) => {
                let named = NamedFile { name: name.to_owned(), at };
                self.names.set(i, named);
                proof {
                    assoc::assoc_update(pairs, i as int, at);
                    assert(name_pairs(self.names@) =~= pairs.update(i as int, (name@, at)));
                }
            },
            None => {
                self.names.push(NamedFile { name: name.to_owned(), at });
                proof {
                    assoc::assoc_push(pairs, name@, at);
                    assert(name_pairs(self.names@) =~= pairs.push((name@, at)));
                }
            },
        }
    }

    /// The names that begin with a prefix, in no particular order.
    fn list(&self, prefix: &str) -> (out: Vec<String>)
        requires
            self.wf(),
        ensures
            listing(self@, prefix@, out@),
    {
        let want = chars_of(prefix);
        let mut out: Vec<String> = Vec::new();
        let ghost mut from: Seq<int> = seq![];
        let ghost pairs = name_pairs(self.names@);
        for i in 0..self.names.len()
            invariant
                self.wf(),
                want@ == prefix@,
                pairs == name_pairs(self.names@),
                from.len() == out@.len(),
                forall|j: int|
                    0 <= j < out@.len() ==> {
                        &&& 0 <= #[trigger] from[j] < i
                        &&& out@[j]@ == self.names@[from[j]].name@
                        &&& text::starts_with(out@[j]@, prefix@)
                    },
                forall|j: int, k: int|
                    0 <= j < k < from.len() ==> (#[trigger] from[j]) < (#[trigger] from[k]),
                forall|j: int|
                    0 <= j < i && text::starts_with((#[trigger] self.names@[j]).name@, prefix@)
                        ==> exists|k: int| 0 <= k < from.len() && #[trigger] from[k] == j,
        {
            let ghost before = from;
            let have = chars_of(self.names[i].name.as_str());
            if has_prefix(&have, &want) {
                out.push(self.names[i].name.as_str().to_owned());
                proof {
                    from = from.push(i as int);
                    assert(from[before.len() as int] == i);
                }
            }
            proof {
                assert forall|j: int|
                    0 <= j < i + 1 && text::starts_with(
                        (#[trigger] self.names@[j]).name@,
                        prefix@,
                    ) implies exists|k: int| 0 <= k < from.len() && #[trigger] from[k] == j by {
                    if j < i {
                        let k = choose|k: int| 0 <= k < before.len() && #[trigger] before[k] == j;
                        assert(from[k] == j);
                    }
                }
            }
        }
        proof {
            assert forall|j: int| 0 <= j < out@.len() implies self@.names.dom().contains(
                (#[trigger] out@[j])@,
            ) && text::starts_with(out@[j]@, prefix@) by {
                let _ = from[j];
                assert(pairs[from[j]].0 == out@[j]@);
                assoc::assoc_at(pairs, from[j]);
            }
            assert forall|n: Seq<char>| #[trigger]
                self@.names.dom().contains(n) && text::starts_with(n, prefix@) implies exists|
                j: int,
            |
                0 <= j < out@.len() && (#[trigger] out@[j])@ == n by {
                let at = assoc::assoc_find(pairs, n);
                assert(self.names@[at].name@ == n);
                let k = choose|k: int| 0 <= k < from.len() && #[trigger] from[k] == at;
                assert(out@[k]@ == n);
            }
            assert forall|j: int, k: int| 0 <= j < k < out@.len() implies (#[trigger] out@[j])@
                != (#[trigger] out@[k])@ by {
                let _ = from[j];
                let _ = from[k];
                assert(pairs[from[j]].0 != pairs[from[k]].0);
            }
        }
        out
    }

    /// Takes a name away; a name that is not there is no error. Handles to the
    /// file keep working.
    fn remove(&mut self, path: &str)
        requires
            old(self).wf(),
        ensures
            final(self).wf(),
            final(self)@ == (Disk { names: old(self)@.names.remove(path@), ..old(self)@ }),
    {
        let ghost pairs = name_pairs(self.names@);
        match self.position(path) {
            Some(i) => {
                self.names.remove(i);
                proof {
                    assoc::assoc_remove(pairs, i as int);
                    assert(name_pairs(self.names@) =~= pairs.remove(i as int));
                    assert(pairs[i as int].0 == path@);
                }
            },
            None => {
                assert(self@.names =~= old(self)@.names.remove(path@));
            },
        }
    }

    /// The paths that begin with a prefix, in order, with the bytes of each
    /// that would survive a power cut.
    fn synced_under(&self, prefix: &str) -> (out: Vec<(String, Vec<u8>)>)
        requires
            self.wf(),
        ensures
            listing(self@, prefix@, out@.map_values(|p: (String, Vec<u8>)| p.0)),
            forall|i: int|
                0 <= i < out@.len() ==> (#[trigger] out@[i]).1@
                    == self@.files[self@.names[out@[i].0@] as int].synced,
            forall|i: int, j: int|
                0 <= i < j < out@.len() ==> text::text_before(
                    (#[trigger] out@[i]).0@,
                    (#[trigger] out@[j]).0@,
                ),
    {
        let paths = sorted_paths(self.list(prefix));
        let mut out: Vec<(String, Vec<u8>)> = Vec::new();
        for i in 0..paths.len()
            invariant
                self.wf(),
                listing(self@, prefix@, paths@),
                out@.len() == i,
                forall|j: int| 0 <= j < i ==> (#[trigger] out@[j]).0@ == paths@[j]@,
                forall|j: int|
                    0 <= j < i ==> (#[trigger] out@[j]).1@
                        == self@.files[self@.names[out@[j].0@] as int].synced,
        {
            let path = paths[i].as_str();
            assert(paths@[i as int]@ == path@);
            match self.position(path) {
                Some(k) => {
                    let at: usize = self.names[k].at;
                    out.push((path.to_owned(), copy_of(&self.files[at].synced)));
                },
                None => {
                    assert(false);
                },
            }
        }
        proof {
            let names = out@.map_values(|p: (String, Vec<u8>)| p.0);
            assert forall|i: int| 0 <= i < names.len() implies (#[trigger] names[i])@
                == paths@[i]@ by {
                assert(out@[i].0@ == paths@[i]@);
            }
            assert forall|i: int| 0 <= i < names.len() implies self@.names.dom().contains(
                (#[trigger] names[i])@,
            ) && text::starts_with(names[i]@, prefix@) by {
                assert(self@.names.dom().contains(paths@[i]@));
            }
            assert forall|n: Seq<char>| #[trigger]
                self@.names.dom().contains(n) && text::starts_with(n, prefix@) implies exists|
                i: int,
            |
                0 <= i < names.len() && (#[trigger] names[i])@ == n by {
                let i = choose|i: int| 0 <= i < paths@.len() && (#[trigger] paths@[i])@ == n;
                assert(names[i]@ == n);
            }
            assert forall|i: int, j: int| 0 <= i < j < names.len() implies (#[trigger] names[i])@
                != (#[trigger] names[j])@ by {
                assert(paths@[i]@ != paths@[j]@);
            }
            assert forall|i: int, j: int| 0 <= i < j < out@.len() implies text::text_before(
                (#[trigger] out@[i]).0@,
                (#[trigger] out@[j]).0@,
            ) by {
                assert(text::text_before(paths@[i]@, paths@[j]@));
            }
        }
        out
    }
}

// ---------------------------------------------------------------------------
// Names in a directory
// ---------------------------------------------------------------------------

/// The names as texts.
pub open spec fn name_texts(names: Seq<String>) -> Seq<Seq<char>> {
    names.map_values(|n: String| n@)
}

/// Those of the names that begin with a prefix, in order.
pub open spec fn with_prefix(names: Seq<Seq<char>>, prefix: Seq<char>) -> Seq<Seq<char>>
    decreases names.len(),
{
    if names.len() == 0 {
        names
    } else if text::starts_with(names.last(), prefix) {
        with_prefix(names.drop_last(), prefix).push(names.last())
    } else {
        with_prefix(names.drop_last(), prefix)
    }
}

/// Of the names that a directory lists, those that begin with a prefix.
pub fn names_with_prefix(names: &Vec<String>, prefix: &str) -> (out: Vec<String>)
    ensures
        name_texts(out@) == with_prefix(name_texts(names@), prefix@),
{
    let want = chars_of(prefix);
    let mut out: Vec<String> = Vec::new();
    let ghost all = name_texts(names@);
    assert(all.take(0) =~= seq![]);
    for i in 0..names.len()
        invariant
            want@ == prefix@,
            all == name_texts(names@),
            name_texts(out@) == with_prefix(all.take(i as int), prefix@),
    {
        let ghost before = out@;
        let have = chars_of(names[i].as_str());
        proof {
            assert(all.take(i + 1).drop_last() =~= all.take(i as int));
            assert(all.take(i + 1).last() == names@[i as int]@);
        }
        if has_prefix(&have, &want) {
            out.push(names[i].as_str().to_owned());
            assert(name_texts(out@) =~= name_texts(before).push(names@[i as int]@));
        }
    }
    assert(all.take(all.len() as int) =~= all);
    out
}

// ---------------------------------------------------------------------------
// Handles
// ---------------------------------------------------------------------------

/// A handle to a file of a namespace: which file, and where the next read or
/// write goes. A copy is another handle to the same file.
#[derive(Debug, Clone, Copy, PartialEq, Eq, Structural)]
pub struct MemFile {
    pub at: usize,
    pub seek_pos: usize,
}

/// Where a handle at `from` goes in a file of `len` bytes, never before the
/// start.
pub open spec fn sought(from: nat, len: nat, pos: SeekFrom) -> int {
    let to = match pos {
        SeekFrom::Start(s) => s as int,
        SeekFrom::End(e) => len + e,
        SeekFrom::Current(c) => from + c,
    };
    if to < 0 {
        0
    } else {
        to
    }
}

impl MemFile {
    /// Is the handle one of the namespace's?
    pub open spec fn is_of(&self, d: Disk) -> bool {
        self.at < d.files.len()
    }

    /// The bytes behind the handle.
    pub open spec fn of(&self, d: Disk) -> Bytes {
        d.files[self.at as int]
    }

    /// The namespace with other bytes behind the handle.
    pub open spec fn updated(&self, d: Disk, b: Bytes) -> Disk {
        Disk { files: d.files.update(self.at as int, b), ..d }
    }

    /// A new, empty file without a name.
    pub fn new(ns: &mut Namespace) -> (f: MemFile)
        requires
            old(ns).wf(),
        ensures
            final(ns).wf(),
            final(ns)@ == (Disk {
                files: old(ns)@.files.push(Bytes { data: Seq::empty(), synced: Seq::empty() }),
                ..old(ns)@
            }),
            f.at == old(ns)@.files.len(),
            f.seek_pos == 0,
    {
        MemFile { at: ns.add(MemBuf::new()), seek_pos: 0 }
    }

    /// A new file without a name that holds the bytes, as if they had just
    /// been written and synced.
    pub fn from_bytes(ns: &mut Namespace, bytes: Vec<u8>) -> (f: MemFile)
        requires
            old(ns).wf(),
        ensures
            final(ns).wf(),
            final(ns)@ == (Disk {
                files: old(ns)@.files.push(Bytes { data: bytes@, synced: bytes@ }),
                ..old(ns)@
            }),
            f.at == old(ns)@.files.len(),
            f.seek_pos == 0,
    {
        MemFile { at: ns.add(MemBuf::from_bytes(bytes)), seek_pos: 0 }
    }

    /// A new, empty file under a name.
    pub fn open(ns: &mut Namespace, path: &str) -> (f: MemFile)
        requires
            old(ns).wf(),
        ensures
            final(ns).wf(),
            final(ns)@ == (Disk {
                files: old(ns)@.files.push(Bytes { data: Seq::empty(), synced: Seq::empty() }),
                names: old(ns)@.names.insert(path@, f.at),
            }),
            f.at == old(ns)@.files.len(),
            f.seek_pos == 0,
    {
        let at: usize = ns.add(MemBuf::new());
        ns.register(path, at);
        MemFile { at, seek_pos: 0 }
    }

    /// Puts a file that holds the bytes, synced, under a name: how a disk is
    /// built up again from what survived.
    pub fn add_sibling_from_bytes(&self, ns: &mut Namespace, path: &str, bytes: Vec<u8>) -> (f:
        MemFile)
        requires
            old(ns).wf(),
        ensures
            final(ns).wf(),
            final(ns)@ == (Disk {
                files: old(ns)@.files.push(Bytes { data: bytes@, synced: bytes@ }),
                names: old(ns)@.names.insert(path@, f.at),
            }),
            f.at == old(ns)@.files.len(),
            f.seek_pos == 0,
    {
        let at: usize = ns.add(MemBuf::from_bytes(bytes));
        ns.register(path, at);
        MemFile { at, seek_pos: 0 }
    }

    /// A handle to the file under a name, at its start. If there is none, a
    /// new, empty file gets the name.
    pub fn open_sibling(&self, ns: &mut Namespace, path: &str) -> (f: MemFile)
        requires
            old(ns).wf(),
        ensures
            final(ns).wf(),
            f.seek_pos == 0,
            f.is_of(final(ns)@),
            if old(ns)@.names.dom().contains(path@) {
                final(ns)@ == old(ns)@ && f.at == old(ns)@.names[path@]
            } else {
                final(ns)@ == (Disk {
                    files: old(ns)@.files.push(Bytes { data: Seq::empty(), synced: Seq::empty() }),
                    names: old(ns)@.names.insert(path@, f.at),
                }) && f.at == old(ns)@.files.len()
            },
    {
        match ns.position(path) {
            Some(i) => MemFile { at: ns.names[i].at, seek_pos: 0 },
            None => MemFile::open(ns, path),
        }
    }

    /// The names that begin with a prefix, in no particular order.
    pub fn list_siblings(&self, ns: &Namespace, prefix: &str) -> (out: Vec<String>)
        requires
            ns.wf(),
        ensures
            listing(ns@, prefix@, out@),
    {
        ns.list(prefix)
    }

    /// Takes a name away; a name that is not there is no error. Handles to the
    /// file keep working.
    pub fn remove_sibling(&self, ns: &mut Namespace, path: &str)
        requires
            old(ns).wf(),
        ensures
            final(ns).wf(),
            final(ns)@ == (Disk { names: old(ns)@.names.remove(path@), ..old(ns)@ }),
    {
        ns.remove(path)
    }

    /// The paths that begin with a prefix, in order, with the bytes of each
    /// that would survive a power cut.
    pub fn synced_siblings(&self, ns: &Namespace, prefix: &str) -> (out: Vec<(String, Vec<u8>)>)
        requires
            ns.wf(),
        ensures
            listing(ns@, prefix@, out@.map_values(|p: (String, Vec<u8>)| p.0)),
            forall|i: int|
                0 <= i < out@.len() ==> (#[trigger] out@[i]).1@
                    == ns@.files[ns@.names[out@[i].0@] as int].synced,
            forall|i: int, j: int|
                0 <= i < j < out@.len() ==> text::text_before(
                    (#[trigger] out@[i]).0@,
                    (#[trigger] out@[j]).0@,
                ),
    {
        ns.synced_under(prefix)
    }

    /// The live bytes.
    pub fn data(&self, ns: &Namespace) -> (out: Vec<u8>)
        requires
            self.is_of(ns@),
        ensures
            out@ == self.of(ns@).data,
    {
        copy_of(&ns.files[self.at].data)
    }

    /// The bytes that would survive a power cut right now.
    pub fn synced_data(&self, ns: &Namespace) -> (out: Vec<u8>)
        requires
            self.is_of(ns@),
        ensures
            out@ == self.of(ns@).synced,
    {
        copy_of(&ns.files[self.at].synced)
    }

    /// A file of its own, in a namespace of its own, that holds only what
    /// would survive a power cut.
    pub fn synced_snapshot(&self, ns: &Namespace) -> (r: (Namespace, MemFile))
        requires
            self.is_of(ns@),
        ensures
            r.0.wf(),
            r.0@.files == seq![Bytes { data: self.of(ns@).synced, synced: self.of(ns@).synced }],
            r.0@.names == Map::<Seq<char>, usize>::empty(),
            r.1.at == 0,
            r.1.seek_pos == 0,
    {
        let mut fresh = Namespace::new();
        let f = MemFile::from_bytes(&mut fresh, self.synced_data(ns));
        (fresh, f)
    }

    /// How long the file is.
    pub fn get_metadata(&self, ns: &Namespace) -> (m: Meta)
        requires
            self.is_of(ns@),
        ensures
            m.len == self.of(ns@).data.len(),
    {
        Meta { len: ns.files[self.at].data.len() as u64 }
    }

    /// Publishes what was written through any handle.
    pub fn do_sync(&self, ns: &mut Namespace)
        requires
            old(ns).wf(),
            self.is_of(old(ns)@),
        ensures
            final(ns).wf(),
            final(ns)@ == self.updated(
                old(ns)@,
                Bytes { data: self.of(old(ns)@).data, synced: self.of(old(ns)@).data },
            ),
    {
        ns.files[self.at].sync();
        assert(ns@.files =~= self.updated(
            old(ns)@,
            Bytes { data: self.of(old(ns)@).data, synced: self.of(old(ns)@).data },
        ).files);
    }

    /// Empties the file.
    pub fn truncate(&self, ns: &mut Namespace)
        requires
            old(ns).wf(),
            self.is_of(old(ns)@),
        ensures
            final(ns).wf(),
            final(ns)@ == self.updated(
                old(ns)@,
                Bytes { data: Seq::empty(), ..self.of(old(ns)@) },
            ),
    {
        ns.files[self.at].truncate();
        assert(ns@.files =~= self.updated(
            old(ns)@,
            Bytes { data: Seq::empty(), ..self.of(old(ns)@) },
        ).files);
    }

    /// Reads at an offset, at most as many bytes as `buf` holds; the handle's
    /// own position plays no part. Returns how many there were.
    pub fn pread(&self, ns: &Namespace, buf: &mut Vec<u8>, offset: u64) -> (n: usize)
        requires
            self.is_of(ns@),
            offset <= usize::MAX,
        ensures
            final(buf)@.len() == old(buf)@.len(),
            n == readable(self.of(ns@).data, offset as nat, old(buf)@.len()).len(),
            forall|i: int|
                0 <= i < final(buf)@.len() ==> (#[trigger] final(buf)@[i]) == if i < n {
                    readable(self.of(ns@).data, offset as nat, old(buf)@.len())[i]
                } else {
                    old(buf)@[i]
                },
    {
        ns.files[self.at].read_at(buf, offset as usize)
    }

    /// Writes at an offset; the handle's own position plays no part. Returns
    /// how many bytes were written: all.
    pub fn pwrite(&self, ns: &mut Namespace, buf: &[u8], offset: u64) -> (n: usize)
        requires
            old(ns).wf(),
            self.is_of(old(ns)@),
            offset + buf@.len() <= usize::MAX,
        ensures
            final(ns).wf(),
            n == buf@.len(),
            final(ns)@ == self.updated(
                old(ns)@,
                Bytes {
                    data: written(self.of(old(ns)@).data, offset as nat, buf@),
                    ..self.of(old(ns)@)
                },
            ),
    {
        ns.files[self.at].write_at(buf, offset as usize);
        assert(ns@.files =~= self.updated(
            old(ns)@,
            Bytes {
                data: written(self.of(old(ns)@).data, offset as nat, buf@),
                ..self.of(old(ns)@)
            },
        ).files);
        buf.len()
    }

    /// Writes where the handle is and moves it behind what was written.
    pub fn write(&mut self, ns: &mut Namespace, buf: &[u8]) -> (n: usize)
        requires
            old(ns).wf(),
            old(self).is_of(old(ns)@),
            old(self).seek_pos + buf@.len() <= usize::MAX,
        ensures
            final(ns).wf(),
            n == buf@.len(),
            final(self).at == old(self).at,
            final(self).seek_pos == old(self).seek_pos + buf@.len(),
            final(ns)@ == old(self).updated(
                old(ns)@,
                Bytes {
                    data: written(old(self).of(old(ns)@).data, old(self).seek_pos as nat, buf@),
                    ..old(self).of(old(ns)@)
                },
            ),
    {
        let n: usize = self.pwrite(ns, buf, self.seek_pos as u64);
        self.seek_pos = self.seek_pos + n;
        n
    }

    /// Moves the handle to the end of the file and writes there.
    pub fn append(&mut self, ns: &mut Namespace, buf: &[u8])
        requires
            old(ns).wf(),
            old(self).is_of(old(ns)@),
        ensures
            final(ns).wf(),
            final(self).at == old(self).at,
            final(self).seek_pos == old(self).of(old(ns)@).data.len() + buf@.len(),
            final(ns)@ == old(self).updated(
                old(ns)@,
                Bytes {
                    data: old(self).of(old(ns)@).data + buf@,
                    ..old(self).of(old(ns)@)
                },
            ),
    {
        ns.files[self.at].append(buf);
        assert(ns@.files =~= old(self).updated(
            old(ns)@,
            Bytes { data: old(self).of(old(ns)@).data + buf@, ..old(self).of(old(ns)@) },
        ).files);
        self.seek_pos = ns.files[self.at].data.len();
    }

    /// Reads where the handle is, at most as many bytes as `buf` holds, and
    /// moves the handle behind what was read.
    pub fn read(&mut self, ns: &Namespace, buf: &mut Vec<u8>) -> (n: usize)
        requires
            old(self).is_of(ns@),
        ensures
            final(self).at == old(self).at,
            final(self).seek_pos == old(self).seek_pos + n,
            final(buf)@.len() == old(buf)@.len(),
            n == readable(
                old(self).of(ns@).data,
                old(self).seek_pos as nat,
                old(buf)@.len(),
            ).len(),
            forall|i: int|
                0 <= i < final(buf)@.len() ==> (#[trigger] final(buf)@[i]) == if i < n {
                    readable(
                        old(self).of(ns@).data,
                        old(self).seek_pos as nat,
                        old(buf)@.len(),
                    )[i]
                } else {
                    old(buf)@[i]
                },
    {
        let _len: usize = ns.files[self.at].data.len();
        let n: usize = ns.files[self.at].read_at(buf, self.seek_pos);
        self.seek_pos = self.seek_pos + n;
        n
    }

    /// Fills `buf` from where the handle is. Fails if the file ends first.
    pub fn read_exact(&mut self, ns: &Namespace, buf: &mut Vec<u8>) -> (r: Result<(), StoreError>)
        requires
            old(self).is_of(ns@),
        ensures
            final(self).at == old(self).at,
            final(buf)@.len() == old(buf)@.len(),
            match r {
                Ok(()) => old(self).seek_pos + old(buf)@.len() <= old(self).of(ns@).data.len()
                    && final(self).seek_pos == old(self).seek_pos + old(buf)@.len()
                    && final(buf)@ == old(self).of(ns@).data.subrange(
                    old(self).seek_pos as int,
                    old(self).seek_pos + old(buf)@.len(),
                ) || old(buf)@.len() == 0 && final(self).seek_pos == old(self).seek_pos,
                Err(e) => e@ == Fault::Io(IoFault::UnexpectedEof) && old(buf)@.len() > 0
                    && old(self).seek_pos + old(buf)@.len() > old(self).of(ns@).data.len(),
            },
    {
        let n: usize = self.read(ns, buf);
        if n < buf.len() {
            return Err(StoreError::IoError(IoFault::UnexpectedEof));
        }
        proof {
            if old(buf)@.len() > 0 {
                assert(buf@ =~= old(self).of(ns@).data.subrange(
                    old(self).seek_pos as int,
                    old(self).seek_pos + old(buf)@.len(),
                ));
            }
        }
        Ok(())
    }

    /// Moves the handle and says where it is now.
    pub fn seek(&mut self, ns: &Namespace, pos: SeekFrom) -> (to: u64)
        requires
            old(self).is_of(ns@),
            old(self).seek_pos <= i64::MAX,
            old(self).of(ns@).data.len() <= i64::MAX,
            pos is Start || sought(
                old(self).seek_pos as nat,
                old(self).of(ns@).data.len(),
                pos,
            ) <= i64::MAX,
            sought(old(self).seek_pos as nat, old(self).of(ns@).data.len(), pos) <= usize::MAX,
        ensures
            final(self).at == old(self).at,
            final(self).seek_pos == sought(
                old(self).seek_pos as nat,
                old(self).of(ns@).data.len(),
                pos,
            ),
            to == final(self).seek_pos,
    {
        match pos {
            SeekFrom::Current(c) => {
                let to: i64 = self.seek_pos as i64 + c;
                self.seek_pos = if to < 0 {
                    0
                } else {
                    to as usize
                };
            },
            SeekFrom::End(e) => {
                let to: i64 = ns.files[self.at].data.len() as i64 + e;
                self.seek_pos = if to < 0 {
                    0
                } else {
                    to as usize
                };
            },
            SeekFrom::Start(s) => {
                self.seek_pos = s as usize;
            },
        }
        self.seek_pos as u64
    }
}

/// Is a text among the strings?
pub open spec fn among(s: Seq<String>, n: Seq<char>) -> bool {
    exists|i: int| 0 <= i < s.len() && (#[trigger] s[i])@ == n
}

/// Are the texts in order, without one that occurs twice?
pub open spec fn in_order(s: Seq<String>) -> bool {
    forall|i: int, j: int|
        0 <= i < j < s.len() ==> text::text_before((#[trigger] s[i])@, (#[trigger] s[j])@)
}

/// Puts one more string in its place among strings that are in order.
fn put_sorted(out: &mut Vec<String>, s: String)
    requires
        in_order(old(out)@),
        !among(old(out)@, s@),
    ensures
        in_order(final(out)@),
        forall|n: Seq<char>| #[trigger] among(final(out)@, n) <==> among(old(out)@, n) || n == s@,
{
    let ghost was = out@;
    let mut at: usize = 0;
    while at < out.len() && comes_before(out[at].as_str(), s.as_str())
        invariant
            out@ == was,
            at <= was.len(),
            forall|j: int| 0 <= j < at ==> text::text_before((#[trigger] was[j])@, s@),
        decreases was.len() - at,
    {
        at = at + 1;
    }
    proof {
        assert forall|j: int| at <= j < was.len() implies text::text_before(
            s@,
            (#[trigger] was[j])@,
        ) by {
            assert(was[at as int]@ != s@);
            text::text_before_total(was[at as int]@, s@);
            if j > at {
                assert(text::text_before(was[at as int]@, was[j]@));
                text::text_before_transitive(s@, was[at as int]@, was[j]@);
            }
        }
    }
    let ghost text = s@;
    out.insert(at, s);
    proof {
        assert forall|i: int, j: int| 0 <= i < j < out@.len() implies text::text_before(
            (#[trigger] out@[i])@,
            (#[trigger] out@[j])@,
        ) by {
            if i < at {
                assert(out@[i] == was[i]);
            } else if i > at {
                assert(out@[i] == was[i - 1]);
            }
            if j < at {
                assert(out@[j] == was[j]);
            } else if j > at {
                assert(out@[j] == was[j - 1]);
            }
        }
        assert forall|n: Seq<char>| #[trigger] among(out@, n) <==> among(was, n) || n == text by {
            if among(out@, n) {
                let i = choose|i: int| 0 <= i < out@.len() && (#[trigger] out@[i])@ == n;
                if i < at {
                    assert(was[i]@ == n);
                } else if i > at {
                    assert(was[i - 1]@ == n);
                }
            }
            if among(was, n) {
                let i = choose|i: int| 0 <= i < was.len() && (#[trigger] was[i])@ == n;
                if i < at {
                    assert(out@[i]@ == n);
                } else {
                    assert(out@[i + 1]@ == n);
                }
            }
            assert(out@[at as int]@ == text);
        }
    }
}

/// The same strings in order.
fn sorted_paths(paths: Vec<String>) -> (out: Vec<String>)
    requires
        forall|i: int, j: int|
            0 <= i < j < paths@.len() ==> (#[trigger] paths@[i])@ != (#[trigger] paths@[j])@,
    ensures
        in_order(out@),
        forall|n: Seq<char>| #[trigger] among(out@, n) <==> among(paths@, n),
        forall|i: int, j: int|
            0 <= i < j < out@.len() ==> (#[trigger] out@[i])@ != (#[trigger] out@[j])@,
        forall|i: int| 0 <= i < out@.len() ==> among(paths@, (#[trigger] out@[i])@),
        forall|i: int| 0 <= i < paths@.len() ==> among(out@, (#[trigger] paths@[i])@),
{
    let mut out: Vec<String> = Vec::new();
    for i in 0..paths.len()
        invariant
            forall|j: int, k: int|
                0 <= j < k < paths@.len() ==> (#[trigger] paths@[j])@ != (#[trigger] paths@[k])@,
            in_order(out@),
            forall|n: Seq<char>| #[trigger] among(out@, n) <==> among(paths@.take(i as int), n),
    {
        let s = paths[i].as_str().to_owned();
        let ghost was = out@;
        let ghost front = paths@.take(i as int);
        let ghost next = paths@.take(i + 1);
        proof {
            if among(out@, s@) {
                assert(among(front, s@));
                let j = choose|j: int| 0 <= j < front.len() && (#[trigger] front[j])@ == s@;
                assert(paths@[j]@ != paths@[i as int]@);
            }
        }
        let ghost text = s@;
        put_sorted(&mut out, s);
        proof {
            assert forall|n: Seq<char>| #[trigger] among(out@, n) <==> among(next, n) by {
                if among(next, n) {
                    let j = choose|j: int| 0 <= j < next.len() && (#[trigger] next[j])@ == n;
                    if j < i {
                        assert(front[j]@ == n);
                    }
                }
                if among(front, n) {
                    let j = choose|j: int| 0 <= j < front.len() && (#[trigger] front[j])@ == n;
                    assert(next[j]@ == n);
                }
                assert(next[i as int]@ == text);
                assert(among(out@, n) <==> among(was, n) || n == text);
            }
        }
    }
    proof {
        assert(paths@.take(paths@.len() as int) =~= paths@);
        assert forall|i: int, j: int| 0 <= i < j < out@.len() implies (#[trigger] out@[i])@ != (
        #[trigger] out@[j])@ by {
            text::text_before_total(out@[i]@, out@[j]@);
        }
        assert forall|i: int| 0 <= i < out@.len() implies among(
            paths@,
            (#[trigger] out@[i])@,
        ) by {
            assert(among(out@, out@[i]@));
        }
        assert forall|i: int| 0 <= i < paths@.len() implies among(
            out@,
            (#[trigger] paths@[i])@,
        ) by {
            assert(among(paths@, paths@[i]@));
        }
    }
    out
}

// ---------------------------------------------------------------------------
// What reads, writes and seeks have to do with each other
// ---------------------------------------------------------------------------

/// A write puts its bytes where they were to go, leaves all others, fills what
/// lies between the old end and its beginning with zeros, and makes a file as
/// long as it has to be and no shorter than it was.
pub proof fn write_changes_its_range_only(s: Seq<u8>, at: nat, buf: Seq<u8>, i: int)
    requires
        0 <= i,
    ensures
        written(s, at, buf).len() >= s.len(),
        written(s, at, buf).len() >= at + buf.len(),
        written(s, at, buf).len() == s.len() || written(s, at, buf).len() == at + buf.len(),
        at <= i < at + buf.len() ==> written(s, at, buf)[i] == buf[i - at],
        i < s.len() && !(at <= i < at + buf.len()) ==> written(s, at, buf)[i] == s[i],
        s.len() <= i < at && at + buf.len() >= s.len() ==> written(s, at, buf)[i] == 0,
{
}

/// A read gives as many bytes as were asked for, or as there are from there on,
/// and they are the bytes of the file; so two reads, one behind the other, give
/// together what one gives.
pub proof fn reads_go_on_where_they_ended(s: Seq<u8>, at: nat, m: nat, n: nat, i: int)
    ensures
        readable(s, at, m).len() == if at >= s.len() {
            0
        } else if s.len() - at < m {
            s.len() - at
        } else {
            m as int
        },
        0 <= i < readable(s, at, m).len() ==> readable(s, at, m)[i] == s[at + i],
        readable(s, at, m) + readable(s, at + m, n) == readable(s, at, m + n),
{
    assert(readable(s, at, m) + readable(s, at + m, n) =~= readable(s, at, m + n));
}

/// A seek goes where it was told to: so far from the beginning, from the end or
/// from where it is, and never to before the beginning.
pub proof fn seeks_are_relative(from: nat, len: nat, s: u64, d: i64)
    ensures
        sought(from, len, SeekFrom::Start(s)) == s,
        len + d >= 0 ==> sought(from, len, SeekFrom::End(d)) - len == d,
        from + d >= 0 ==> sought(from, len, SeekFrom::Current(d)) - from == d,
        len + d < 0 ==> sought(from, len, SeekFrom::End(d)) == 0,
        from + d < 0 ==> sought(from, len, SeekFrom::Current(d)) == 0,
{
}

/// A name is listed under a prefix exactly where it is there and begins with
/// it.
pub proof fn prefix_picks_names(names: Seq<Seq<char>>, prefix: Seq<char>, name: Seq<char>)
    ensures
        with_prefix(names, prefix).contains(name) <==> names.contains(name) && prefix.len()
            <= name.len() && name.take(prefix.len() as int) == prefix,
    decreases names.len(),
{
    if names.len() > 0 {
        let front = names.drop_last();
        let rest = with_prefix(front, prefix);
        prefix_picks_names(front, prefix, name);
        assert(names.contains(name) <==> front.contains(name) || name == names.last()) by {
            if names.contains(name) {
                let i = names.index_of(name);
                if i < front.len() {
                    assert(front[i] == name);
                }
            }
            if front.contains(name) {
                assert(names[front.index_of(name)] == name);
            }
            if name == names.last() {
                assert(names[names.len() - 1] == name);
            }
        }
        let more = rest.push(names.last());
        assert(more.contains(name) <==> rest.contains(name) || name == names.last()) by {
            if more.contains(name) {
                let i = more.index_of(name);
                if i < rest.len() {
                    assert(rest[i] == name);
                }
            }
            if rest.contains(name) {
                assert(more[rest.index_of(name)] == name);
            }
            if name == names.last() {
                assert(more[rest.len() as int] == name);
            }
        }
    }
}

} // verus!
