//! The bidirectional index between watched paths and open kernel handles.
//!
//! The registry is the sole owner of handle lifetime at the bookkeeping
//! level: every entry pairs a path with the handle that watches it, no path
//! and no handle occurs twice, and every operation that drops entries hands
//! the dropped handles back to the caller so that exactly those get closed.
//! Closing a handle is what deregisters its kernel interest, so keeping the
//! two directions consistent keeps the registry in step with the kernel.

use crate::path::{is_under, WatchPath};
use vstd::prelude::*;

verus! {

/// One registered watch: a path and the open handle that watches it.
struct WatchEntry {
    path: WatchPath,
    fd: i32,
}

/// The model of a list of entries: each a pair of the path's components
/// and the handle's number, in registration order.
spec fn entries_model(es: Seq<WatchEntry>) -> Seq<(Seq<Seq<u8>>, int)> {
    es.map_values(|e: WatchEntry| (e.path@, e.fd as int))
}

/// No path and no handle occurs in two entries: the two directions of the
/// index are mutually inverse.
pub open spec fn distinct_entries(s: Seq<(Seq<Seq<u8>>, int)>) -> bool {
    forall|i: int, j: int|
        0 <= i < j < s.len() ==> (#[trigger] s[i]).0 != (#[trigger] s[j]).0 && s[i].1 != s[j].1
}

/// Some entry watches path `p`.
pub open spec fn has_path(s: Seq<(Seq<Seq<u8>>, int)>, p: Seq<Seq<u8>>) -> bool {
    exists|i: int| 0 <= i < s.len() && (#[trigger] s[i]).0 == p
}

/// Some entry owns handle `fd`.
pub open spec fn has_fd(s: Seq<(Seq<Seq<u8>>, int)>, fd: int) -> bool {
    exists|i: int| 0 <= i < s.len() && (#[trigger] s[i]).1 == fd
}

/// What registering `(p, fd)` does: a no-op reporting `false` when the path
/// is already watched or the handle already owned, else one new entry at
/// the end and `true`.
pub open spec fn insert_model(s: Seq<(Seq<Seq<u8>>, int)>, p: Seq<Seq<u8>>, fd: int) -> (
    Seq<(Seq<Seq<u8>>, int)>,
    bool,
) {
    if has_path(s, p) || has_fd(s, fd) {
        (s, false)
    } else {
        (s.push((p, fd)), true)
    }
}

/// The entries of `s` that satisfy `pred`, in order.
pub open spec fn keep(
    s: Seq<(Seq<Seq<u8>>, int)>,
    pred: spec_fn((Seq<Seq<u8>>, int)) -> bool,
) -> Seq<(Seq<Seq<u8>>, int)>
    decreases s.len(),
{
    if s.len() == 0 {
        s
    } else {
        let rest = keep(s.drop_last(), pred);
        if pred(s.last()) {
            rest.push(s.last())
        } else {
            rest
        }
    }
}

/// The entries whose paths lie outside the subtree rooted at `prefix`.
pub open spec fn kept_outside(s: Seq<(Seq<Seq<u8>>, int)>, prefix: Seq<Seq<u8>>) -> Seq<
    (Seq<Seq<u8>>, int),
> {
    keep(s, |e: (Seq<Seq<u8>>, int)| !is_under(prefix, e.0))
}

/// The entries whose paths lie under `prefix`, in order.
pub open spec fn dropped_under(s: Seq<(Seq<Seq<u8>>, int)>, prefix: Seq<Seq<u8>>) -> Seq<
    (Seq<Seq<u8>>, int),
> {
    keep(s, |e: (Seq<Seq<u8>>, int)| is_under(prefix, e.0))
}

/// The entries whose path is not `p`.
pub open spec fn without_path(s: Seq<(Seq<Seq<u8>>, int)>, p: Seq<Seq<u8>>) -> Seq<
    (Seq<Seq<u8>>, int),
> {
    keep(s, |e: (Seq<Seq<u8>>, int)| e.0 != p)
}

/// The handles of the entries of `s`, in order.
pub open spec fn fds_of(s: Seq<(Seq<Seq<u8>>, int)>) -> Seq<int> {
    s.map_values(|e: (Seq<Seq<u8>>, int)| e.1)
}

/// Registering a list of pairs one after the other, each by `insert_model`.
pub open spec fn insert_all(
    s: Seq<(Seq<Seq<u8>>, int)>,
    items: Seq<(Seq<Seq<u8>>, int)>,
) -> Seq<(Seq<Seq<u8>>, int)>
    decreases items.len(),
{
    if items.len() == 0 {
        s
    } else {
        insert_all(insert_model(s, items[0].0, items[0].1).0, items.skip(1))
    }
}

/// How many of the pairs `insert_all` actually registers.
pub open spec fn insert_all_count(
    s: Seq<(Seq<Seq<u8>>, int)>,
    items: Seq<(Seq<Seq<u8>>, int)>,
) -> nat
    decreases items.len(),
{
    if items.len() == 0 {
        0
    } else {
        (if insert_model(s, items[0].0, items[0].1).1 {
            1nat
        } else {
            0nat
        }) + insert_all_count(insert_model(s, items[0].0, items[0].1).0, items.skip(1))
    }
}

/// Unfolds `keep` over one more entry of a prefix of `s`.
proof fn lemma_keep_step(
    s: Seq<(Seq<Seq<u8>>, int)>,
    pred: spec_fn((Seq<Seq<u8>>, int)) -> bool,
    i: int,
)
    requires
        0 <= i < s.len(),
    ensures
        keep(s.take(i + 1), pred) == (if pred(s[i]) {
            keep(s.take(i), pred).push(s[i])
        } else {
            keep(s.take(i), pred)
        }),
{
    assert(s.take(i + 1).drop_last() =~= s.take(i));
    assert(s.take(i + 1).last() == s[i]);
}

/// Every kept entry satisfies the predicate and comes from `s`; dropping
/// entries from a consistent index — one path, a whole subtree, or
/// anything else — leaves a consistent index.
pub proof fn lemma_keep_entries(
    s: Seq<(Seq<Seq<u8>>, int)>,
    pred: spec_fn((Seq<Seq<u8>>, int)) -> bool,
)
    ensures
        keep(s, pred).len() <= s.len(),
        forall|i: int|
            0 <= i < keep(s, pred).len() ==> pred(#[trigger] keep(s, pred)[i]) && s.contains(
                keep(s, pred)[i],
            ),
        distinct_entries(s) ==> distinct_entries(keep(s, pred)),
    decreases s.len(),
{
    if s.len() > 0 {
        let rest = keep(s.drop_last(), pred);
        lemma_keep_entries(s.drop_last(), pred);
        assert forall|x: (Seq<Seq<u8>>, int)| s.drop_last().contains(x) implies s.contains(x) by {
            let j = choose|j: int| 0 <= j < s.drop_last().len() && s.drop_last()[j] == x;
            assert(s[j] == x);
        }
        if distinct_entries(s) {
            assert forall|i: int, j: int| 0 <= i < j < s.drop_last().len() implies (
            #[trigger] s.drop_last()[i]).0 != (#[trigger] s.drop_last()[j]).0 && s.drop_last()[i].1
                != s.drop_last()[j].1 by {
                assert(s[i] == s.drop_last()[i]);
                assert(s[j] == s.drop_last()[j]);
            }
            if pred(s.last()) {
                let out = rest.push(s.last());
                assert forall|i: int, j: int| 0 <= i < j < out.len() implies (#[trigger] out[i]).0
                    != (#[trigger] out[j]).0 && out[i].1 != out[j].1 by {
                    if j < rest.len() {
                        assert(out[i] == rest[i] && out[j] == rest[j]);
                    } else {
                        assert(out[j] == s.last());
                        assert(rest.contains(out[i]));
                        let k = choose|k: int|
                            0 <= k < s.drop_last().len() && s.drop_last()[k] == out[i];
                        assert(s[k] == out[i]);
                        assert(s[s.len() - 1] == s.last());
                    }
                }
            }
        }
    }
}

/// When every entry satisfies the predicate, keeping changes nothing.
proof fn lemma_keep_all(s: Seq<(Seq<Seq<u8>>, int)>, pred: spec_fn((Seq<Seq<u8>>, int)) -> bool)
    requires
        forall|i: int| 0 <= i < s.len() ==> pred(#[trigger] s[i]),
    ensures
        keep(s, pred) == s,
    decreases s.len(),
{
    if s.len() > 0 {
        assert forall|i: int| 0 <= i < s.drop_last().len() implies pred(
            #[trigger] s.drop_last()[i],
        ) by {
            assert(s.drop_last()[i] == s[i]);
        }
        lemma_keep_all(s.drop_last(), pred);
        assert(pred(s[s.len() - 1]));
        assert(keep(s, pred) =~= s);
    }
}

/// The bidirectional path-to-handle index. A single list of entries in
/// registration order carries both directions; its invariant — no path and
/// no handle twice — holds at every observable point.
pub struct HandleRegistry {
    entries: Vec<WatchEntry>,
}

impl View for HandleRegistry {
    type V = Seq<(Seq<Seq<u8>>, int)>;

    closed spec fn view(&self) -> Seq<(Seq<Seq<u8>>, int)> {
        entries_model(self.entries@)
    }
}

impl HandleRegistry {
    #[verifier::type_invariant]
    spec fn wf(&self) -> bool {
        distinct_entries(self@)
    }

    /// An empty registry.
    pub fn new() -> (r: HandleRegistry)
        ensures
            r@.len() == 0,
    {
        HandleRegistry { entries: Vec::new() }
    }

    /// How many paths are watched.
    pub fn len(&self) -> (n: usize)
        ensures
            n == self@.len(),
    {
        self.entries.len()
    }

    /// Is `p` watched?
    pub fn contains(&self, p: &WatchPath) -> (r: bool)
        ensures
            r == has_path(self@, p@),
    {
        let mut i: usize = 0;
        while i < self.entries.len()
            invariant
                i <= self.entries@.len(),
                self@ == entries_model(self.entries@),
                forall|k: int| 0 <= k < i ==> (#[trigger] self@[k]).0 != p@,
            decreases self.entries@.len() - i,
        {
            if self.entries[i].path.eq_path(p) {
                proof {
                    assert((self@[i as int]).0 == p@);
                }
                return true;
            }
            i = i + 1;
        }
        false
    }

    /// The path watched by handle `fd`, if any; a copy owned by the caller.
    pub fn resolve(&self, fd: i32) -> (r: Option<WatchPath>)
        ensures
            match r {
                Some(p) => exists|i: int|
                    0 <= i < self@.len() && #[trigger] self@[i] == (p@, fd as int),
                None => !has_fd(self@, fd as int),
            },
    {
        let mut i: usize = 0;
        while i < self.entries.len()
            invariant
                i <= self.entries@.len(),
                self@ == entries_model(self.entries@),
                forall|k: int| 0 <= k < i ==> (#[trigger] self@[k]).1 != fd as int,
            decreases self.entries@.len() - i,
        {
            if self.entries[i].fd == fd {
                let p = self.entries[i].path.duplicate();
                proof {
                    assert(self@[i as int] == (p@, fd as int));
                }
                return Some(p);
            }
            i = i + 1;
        }
        None
    }

    /// Registers `(path, fd)`: a no-op reporting `false` when the path is
    /// already watched or the handle already owned, else a new entry and
    /// `true`.
    pub fn insert(&mut self, path: WatchPath, fd: i32) -> (added: bool)
        ensures
            final(self)@ == insert_model(old(self)@, path@, fd as int).0,
            added == insert_model(old(self)@, path@, fd as int).1,
    {
        proof {
            use_type_invariant(&*self);
        }
        let mut i: usize = 0;
        while i < self.entries.len()
            invariant
                i <= self.entries@.len(),
                self@ == old(self)@,
                self@ == entries_model(self.entries@),
                forall|k: int|
                    0 <= k < i ==> (#[trigger] self@[k]).0 != path@ && self@[k].1 != fd as int,
            decreases self.entries@.len() - i,
        {
            if self.entries[i].path.eq_path(&path) {
                proof {
                    assert((self@[i as int]).0 == path@);
                }
                return false;
            }
            if self.entries[i].fd == fd {
                proof {
                    assert((self@[i as int]).1 == fd as int);
                }
                return false;
            }
            i = i + 1;
        }
        let ghost pre = self@;
        let entry = WatchEntry { path, fd };
        let mut entries: Vec<WatchEntry> = Vec::new();
        std::mem::swap(&mut self.entries, &mut entries);
        entries.push(entry);
        proof {
            assert(entries_model(entries@) =~= pre.push((entry.path@, entry.fd as int)));
            lemma_insert_preserves_consistency(pre, entry.path@, entry.fd as int);
        }
        self.entries = entries;
        true
    }

    /// Drops the entry for `p`, handing back its handle for the caller to
    /// close; reports `None` when `p` was not watched.
    pub fn remove(&mut self, p: &WatchPath) -> (r: Option<i32>)
        ensures
            final(self)@ == without_path(old(self)@, p@),
            match r {
                Some(fd) => (exists|i: int|
                    0 <= i < old(self)@.len() && #[trigger] old(self)@[i] == (p@, fd as int))
                    && (forall|i: int|
                    0 <= i < old(self)@.len() && (#[trigger] old(self)@[i]).0 == p@ ==> old(
                        self,
                    )@[i].1 == fd as int),
                None => !has_path(old(self)@, p@),
            },
    {
        proof {
            use_type_invariant(&*self);
        }
        let ghost orig = self@;
        let ghost pred = |e: (Seq<Seq<u8>>, int)| e.0 != p@;
        let mut kept: Vec<WatchEntry> = Vec::new();
        let mut found: Option<i32> = None;
        let mut i: usize = 0;
        while i < self.entries.len()
            invariant
                i <= self.entries@.len(),
                self@ == orig,
                self@ == entries_model(self.entries@),
                pred == (|e: (Seq<Seq<u8>>, int)| e.0 != p@),
                entries_model(kept@) == keep(orig.take(i as int), pred),
                match found {
                    Some(fd) => exists|k: int|
                        0 <= k < i && #[trigger] orig[k] == (p@, fd as int),
                    None => forall|k: int| 0 <= k < i ==> (#[trigger] orig[k]).0 != p@,
                },
            decreases self.entries@.len() - i,
        {
            proof {
                lemma_keep_step(orig, pred, i as int);
            }
            if self.entries[i].path.eq_path(p) {
                proof {
                    assert(orig[i as int] == (p@, self.entries@[i as int].fd as int));
                }
                found = Some(self.entries[i].fd);
            } else {
                let e = WatchEntry {
                    path: self.entries[i].path.duplicate(),
                    fd: self.entries[i].fd,
                };
                let ghost prev = entries_model(kept@);
                kept.push(e);
                proof {
                    assert(entries_model(kept@) =~= prev.push((e.path@, e.fd as int)));
                    assert(orig[i as int] == (e.path@, e.fd as int));
                }
            }
            i = i + 1;
        }
        proof {
            assert(orig.take(orig.len() as int) =~= orig);
            lemma_keep_entries(orig, pred);
            match found {
                Some(fd) => {
                    let k = choose|k: int| 0 <= k < orig.len() && orig[k] == (p@, fd as int);
                    assert forall|a: int|
                        0 <= a < orig.len() && (#[trigger] orig[a]).0 == p@ implies orig[a].1
                        == fd as int by {
                        if a < k {
                            assert(orig[a].0 != orig[k].0);
                        }
                        if a > k {
                            assert(orig[k].0 != orig[a].0);
                        }
                    }
                },
                None => {},
            }
        }
        self.entries = kept;
        found
    }

    /// Drops every entry whose path lies under `prefix` — the structural
    /// subtree, never a string prefix — handing back the dropped handles,
    /// in registration order, for the caller to close.
    pub fn remove_subtree(&mut self, prefix: &WatchPath) -> (closed: Vec<i32>)
        ensures
            final(self)@ == kept_outside(old(self)@, prefix@),
            closed@.map_values(|fd: i32| fd as int) == fds_of(
                dropped_under(old(self)@, prefix@),
            ),
    {
        proof {
            use_type_invariant(&*self);
        }
        let ghost orig = self@;
        let ghost out_pred = |e: (Seq<Seq<u8>>, int)| !is_under(prefix@, e.0);
        let ghost in_pred = |e: (Seq<Seq<u8>>, int)| is_under(prefix@, e.0);
        let mut kept: Vec<WatchEntry> = Vec::new();
        let mut closed: Vec<i32> = Vec::new();
        let mut i: usize = 0;
        while i < self.entries.len()
            invariant
                i <= self.entries@.len(),
                self@ == orig,
                self@ == entries_model(self.entries@),
                out_pred == (|e: (Seq<Seq<u8>>, int)| !is_under(prefix@, e.0)),
                in_pred == (|e: (Seq<Seq<u8>>, int)| is_under(prefix@, e.0)),
                entries_model(kept@) == keep(orig.take(i as int), out_pred),
                closed@.map_values(|fd: i32| fd as int) == fds_of(
                    keep(orig.take(i as int), in_pred),
                ),
            decreases self.entries@.len() - i,
        {
            proof {
                lemma_keep_step(orig, out_pred, i as int);
                lemma_keep_step(orig, in_pred, i as int);
            }
            if self.entries[i].path.starts_with(prefix) {
                let ghost prev = closed@.map_values(|fd: i32| fd as int);
                closed.push(self.entries[i].fd);
                proof {
                    assert(orig[i as int] == (
                        self.entries@[i as int].path@,
                        self.entries@[i as int].fd as int,
                    ));
                    assert(closed@.map_values(|fd: i32| fd as int) =~= prev.push(
                        orig[i as int].1,
                    ));
                    assert(fds_of(keep(orig.take(i as int), in_pred).push(orig[i as int])) =~= fds_of(
                        keep(orig.take(i as int), in_pred),
                    ).push(orig[i as int].1));
                }
            } else {
                let e = WatchEntry {
                    path: self.entries[i].path.duplicate(),
                    fd: self.entries[i].fd,
                };
                let ghost prev = entries_model(kept@);
                kept.push(e);
                proof {
                    assert(entries_model(kept@) =~= prev.push((e.path@, e.fd as int)));
                    assert(orig[i as int] == (e.path@, e.fd as int));
                }
            }
            i = i + 1;
        }
        proof {
            assert(orig.take(orig.len() as int) =~= orig);
            lemma_keep_entries(orig, out_pred);
        }
        self.entries = kept;
        closed
    }

    /// Empties the registry, handing back every owned handle, in
    /// registration order, for the caller to close.
    pub fn drain_all(&mut self) -> (closed: Vec<i32>)
        ensures
            final(self)@.len() == 0,
            closed@.map_values(|fd: i32| fd as int) == fds_of(old(self)@),
    {
        let ghost orig = self@;
        let mut closed: Vec<i32> = Vec::new();
        let mut i: usize = 0;
        while i < self.entries.len()
            invariant
                i <= self.entries@.len(),
                self@ == orig,
                self@ == entries_model(self.entries@),
                closed@.map_values(|fd: i32| fd as int) == fds_of(orig.take(i as int)),
            decreases self.entries@.len() - i,
        {
            let ghost prev = closed@.map_values(|fd: i32| fd as int);
            closed.push(self.entries[i].fd);
            proof {
                assert(orig[i as int] == (
                    self.entries@[i as int].path@,
                    self.entries@[i as int].fd as int,
                ));
                assert(closed@.map_values(|fd: i32| fd as int) =~= prev.push(orig[i as int].1));
                assert(fds_of(orig.take(i + 1)) =~= fds_of(orig.take(i as int)).push(
                    orig[i as int].1,
                ));
            }
            i = i + 1;
        }
        proof {
            assert(orig.take(orig.len() as int) =~= orig);
        }
        self.entries = Vec::new();
        closed
    }
}

/// A subtree removal partitions the registry: every entry is either kept
/// or dropped, never both, never neither.
pub proof fn lemma_subtree_partition(s: Seq<(Seq<Seq<u8>>, int)>, prefix: Seq<Seq<u8>>)
    ensures
        kept_outside(s, prefix).len() + dropped_under(s, prefix).len() == s.len(),
    decreases s.len(),
{
    if s.len() > 0 {
        lemma_subtree_partition(s.drop_last(), prefix);
    }
}

/// A batch of fresh pairs registers them all: when no path or handle of
/// the batch is already registered and none repeats within it, every pair
/// counts and every pair ends up in the registry.
pub proof fn lemma_insert_all_fresh(
    s: Seq<(Seq<Seq<u8>>, int)>,
    items: Seq<(Seq<Seq<u8>>, int)>,
)
    requires
        forall|i: int|
            0 <= i < items.len() ==> !has_path(s, (#[trigger] items[i]).0) && !has_fd(
                s,
                items[i].1,
            ),
        forall|i: int, j: int|
            0 <= i < j < items.len() ==> (#[trigger] items[i]).0 != (#[trigger] items[j]).0
                && items[i].1 != items[j].1,
    ensures
        insert_all(s, items).len() == s.len() + items.len(),
        insert_all_count(s, items) == items.len(),
    decreases items.len(),
{
    if items.len() > 0 {
        let e = items[0];
        assert(!has_path(s, e.0) && !has_fd(s, e.1));
        let s1 = s.push(e);
        assert(insert_model(s, e.0, e.1) == (s1, true));
        let rest = items.skip(1);
        assert forall|i: int|
            0 <= i < rest.len() implies !has_path(s1, (#[trigger] rest[i]).0) && !has_fd(
            s1,
            rest[i].1,
        ) by {
            assert(rest[i] == items[i + 1]);
            if has_path(s1, rest[i].0) {
                let k = choose|k: int| 0 <= k < s1.len() && (#[trigger] s1[k]).0 == rest[i].0;
                if k < s.len() {
                    assert(s[k] == s1[k]);
                    assert(has_path(s, items[i + 1].0));
                } else {
                    assert(s1[k] == e);
                    assert(items[0].0 == items[i + 1].0);
                }
            }
            if has_fd(s1, rest[i].1) {
                let k = choose|k: int| 0 <= k < s1.len() && (#[trigger] s1[k]).1 == rest[i].1;
                if k < s.len() {
                    assert(s[k] == s1[k]);
                    assert(has_fd(s, items[i + 1].1));
                } else {
                    assert(s1[k] == e);
                    assert(items[0].1 == items[i + 1].1);
                }
            }
        }
        assert forall|i: int, j: int| 0 <= i < j < rest.len() implies (#[trigger] rest[i]).0 != (
        #[trigger] rest[j]).0 && rest[i].1 != rest[j].1 by {
            assert(rest[i] == items[i + 1]);
            assert(rest[j] == items[j + 1]);
        }
        lemma_insert_all_fresh(s1, rest);
    }
}

/// One registration keeps the two directions of the index consistent: it
/// refuses any pair that would repeat a path or a handle.
pub proof fn lemma_insert_preserves_consistency(
    s: Seq<(Seq<Seq<u8>>, int)>,
    p: Seq<Seq<u8>>,
    fd: int,
)
    requires
        distinct_entries(s),
    ensures
        distinct_entries(insert_model(s, p, fd).0),
{
    if !(has_path(s, p) || has_fd(s, fd)) {
        let out = s.push((p, fd));
        assert forall|a: int, b: int| 0 <= a < b < out.len() implies (#[trigger] out[a]).0 != (
        #[trigger] out[b]).0 && out[a].1 != out[b].1 by {
            if b < s.len() {
                assert(out[a] == s[a]);
                assert(out[b] == s[b]);
            } else {
                assert(out[b] == (p, fd));
                assert(out[a] == s[a]);
                if s[a].0 == p {
                    assert(has_path(s, p));
                }
                if s[a].1 == fd {
                    assert(has_fd(s, fd));
                }
            }
        }
    }
}

/// Registering the same path twice registers one handle: given a fresh
/// handle for the first registration — as the kernel hands them out — the
/// second registration reports `false` and changes nothing, whatever
/// handle it brings.
pub proof fn lemma_insert_idempotent(
    s: Seq<(Seq<Seq<u8>>, int)>,
    p: Seq<Seq<u8>>,
    fd1: int,
    fd2: int,
)
    requires
        !has_fd(s, fd1),
    ensures
        insert_model(insert_model(s, p, fd1).0, p, fd2).0 == insert_model(s, p, fd1).0,
        !insert_model(insert_model(s, p, fd1).0, p, fd2).1,
{
    let s1 = insert_model(s, p, fd1).0;
    if has_path(s, p) {
        assert(s1 == s);
    } else {
        assert(s1 == s.push((p, fd1)));
        assert(s1[s1.len() - 1].0 == p);
        assert(has_path(s1, p));
    }
}

/// Keeping what lies outside a subtree commutes with registering entries
/// that all lie under it.
proof fn lemma_insert_all_under(
    s: Seq<(Seq<Seq<u8>>, int)>,
    root: Seq<Seq<u8>>,
    items: Seq<(Seq<Seq<u8>>, int)>,
)
    requires
        forall|i: int| 0 <= i < items.len() ==> is_under(root, (#[trigger] items[i]).0),
    ensures
        kept_outside(insert_all(s, items), root) == kept_outside(s, root),
    decreases items.len(),
{
    if items.len() > 0 {
        let s1 = insert_model(s, items[0].0, items[0].1).0;
        let pred = |e: (Seq<Seq<u8>>, int)| !is_under(root, e.0);
        if !(has_path(s, items[0].0) || has_fd(s, items[0].1)) {
            assert(s1 == s.push((items[0].0, items[0].1)));
            assert(s1.drop_last() =~= s);
            assert(s1.last() == (items[0].0, items[0].1));
            assert(is_under(root, s1.last().0));
            assert(keep(s1, pred) == keep(s, pred));
        }
        assert forall|i: int| 0 <= i < items.skip(1).len() implies is_under(
            root,
            (#[trigger] items.skip(1)[i]).0,
        ) by {
            assert(items.skip(1)[i] == items[i + 1]);
        }
        lemma_insert_all_under(s1, root, items.skip(1));
        assert(insert_all(s, items) == insert_all(s1, items.skip(1)));
    }
}

/// Round trip: registering, under a root that nothing in the registry lies
/// under, any run of entries whose paths all lie under that root, and then
/// dropping the root's subtree, restores the registry exactly — same
/// cardinality, same contents.
pub proof fn lemma_recursive_round_trip(
    s: Seq<(Seq<Seq<u8>>, int)>,
    root: Seq<Seq<u8>>,
    items: Seq<(Seq<Seq<u8>>, int)>,
)
    requires
        forall|i: int| 0 <= i < s.len() ==> !is_under(root, (#[trigger] s[i]).0),
        forall|i: int| 0 <= i < items.len() ==> is_under(root, (#[trigger] items[i]).0),
    ensures
        kept_outside(insert_all(s, items), root) == s,
{
    lemma_insert_all_under(s, root, items);
    lemma_keep_all(s, |e: (Seq<Seq<u8>>, int)| !is_under(root, e.0));
}

} // verus!
