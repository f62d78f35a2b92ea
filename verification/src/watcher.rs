//! The reconciliation state machine.
//!
//! The watcher composes the handle registry with the set of rescan roots
//! and decides, for each raw kernel record, which semantic event to
//! surface, which registry entries to drop, and which follow-up work —
//! walking one subtree again, or rescanning every root — the driver must
//! carry out. The driver performs all operating-system work: it opens
//! paths, talks to the kernel queue, walks directory trees, closes the
//! handles this module hands back, and feeds the discovered paths and
//! fresh handles back in.

use crate::events::{classify, spec_classify, Event, EventKind, RawRecord};
use crate::path::WatchPath;
use crate::registry::{
    dropped_under, fds_of, has_fd, has_path, insert_all, insert_all_count, insert_model,
    kept_outside, without_path, HandleRegistry,
};
use vstd::prelude::*;

verus! {

/// The model of a watcher: the registry's entries and the rescan roots.
pub ghost struct WatcherView {
    pub reg: Seq<(Seq<Seq<u8>>, int)>,
    pub roots: Seq<Seq<Seq<u8>>>,
}

/// Follow-up work a reconciled record asks of the driver.
#[derive(Debug)]
pub enum FollowUp {
    /// Nothing further.
    Stay,
    /// Walk the subtree at this path again and register what is found:
    /// the path may have gained children.
    Walk(WatchPath),
    /// Re-walk every rescan root and register what is found: the only way
    /// to discover where a renamed entry went.
    Rescan,
}

/// What reconciling one raw record produced.
#[derive(Debug)]
pub enum Reconciled {
    /// The record itself flagged an error for its interest entry, with
    /// this code: surface it as an error, distinct from a poll failure.
    Faulted(i64),
    /// The record's identity is no longer registered: a benign race with
    /// an earlier removal. Discard it and keep polling.
    Unknown,
    /// A semantic event, the handles whose entries were dropped — the
    /// driver must close exactly those — and the follow-up work.
    Delivered(Event, Vec<i32>, FollowUp),
}

/// The per-call ceiling on interest records submitted to the kernel in
/// one batch-registration call.
pub const BATCH_CHUNK: usize = 4096;

/// How many batch-registration calls a list of `n` paths needs: `n`
/// divided by the chunk size, rounded up.
pub open spec fn spec_chunk_count(n: nat) -> nat {
    if n % (BATCH_CHUNK as nat) == 0 {
        n / (BATCH_CHUNK as nat)
    } else {
        n / (BATCH_CHUNK as nat) + 1
    }
}

/// The number of fixed-size chunks that cover `n` paths.
pub fn chunk_count(n: usize) -> (c: usize)
    ensures
        c as nat == spec_chunk_count(n as nat),
{
    if n % BATCH_CHUNK == 0 {
        n / BATCH_CHUNK
    } else {
        n / BATCH_CHUNK + 1
    }
}

/// The half-open range of indices that chunk `k` of `n` paths covers:
/// each chunk holds the chunk size, the last what remains.
pub fn chunk_span(n: usize, k: usize) -> (span: (usize, usize))
    requires
        (k as nat) < spec_chunk_count(n as nat),
    ensures
        span.0 == k * BATCH_CHUNK,
        span.1 == (if k * BATCH_CHUNK + BATCH_CHUNK <= n {
            k * BATCH_CHUNK + BATCH_CHUNK
        } else {
            n as int
        }),
        span.0 < span.1 <= n,
{
    proof {
        assert(4096 * (n as int / 4096) + n as int % 4096 == n as int);
        assert(k * 4096 < n);
    }
    let start = k * BATCH_CHUNK;
    let end = if n - start > BATCH_CHUNK {
        start + BATCH_CHUNK
    } else {
        n
    };
    (start, end)
}

/// The model of a list of path-handle pairs handed in by the driver.
pub open spec fn pairs_model(items: Seq<(WatchPath, i32)>) -> Seq<(Seq<Seq<u8>>, int)> {
    items.map_values(|c: (WatchPath, i32)| (c.0@, c.1 as int))
}

/// The watcher: the path-to-handle registry and the rescan roots.
pub struct Watcher {
    registry: HandleRegistry,
    roots: Vec<WatchPath>,
}

impl View for Watcher {
    type V = WatcherView;

    closed spec fn view(&self) -> WatcherView {
        WatcherView {
            reg: self.registry@,
            roots: self.roots@.map_values(|p: WatchPath| p@),
        }
    }
}

impl Watcher {
    /// A watcher with nothing registered and no rescan roots.
    pub fn new() -> (w: Watcher)
        ensures
            w@.reg.len() == 0,
            w@.roots.len() == 0,
    {
        Watcher { registry: HandleRegistry::new(), roots: Vec::new() }
    }

    /// How many paths are watched.
    pub fn len(&self) -> (n: usize)
        ensures
            n == self@.reg.len(),
    {
        self.registry.len()
    }

    /// Is `p` watched?
    pub fn contains(&self, p: &WatchPath) -> (r: bool)
        ensures
            r == has_path(self@.reg, p@),
    {
        self.registry.contains(p)
    }

    /// Designates `root` for full rescans. A root already designated is
    /// not re-added; roots never expire.
    pub fn add_recursive_rescan(&mut self, root: WatchPath) -> (added: bool)
        ensures
            final(self)@.reg == old(self)@.reg,
            added == !old(self)@.roots.contains(root@),
            final(self)@.roots == (if added {
                old(self)@.roots.push(root@)
            } else {
                old(self)@.roots
            }),
    {
        let mut i: usize = 0;
        while i < self.roots.len()
            invariant
                i <= self.roots@.len(),
                self@ == old(self)@,
                forall|k: int| 0 <= k < i ==> #[trigger] self@.roots[k] != root@,
            decreases self.roots@.len() - i,
        {
            if self.roots[i].eq_path(&root) {
                proof {
                    assert(self@.roots[i as int] == root@);
                }
                return false;
            }
            i = i + 1;
        }
        proof {
            assert(!old(self)@.roots.contains(root@));
        }
        let ghost pre = self@.roots;
        self.roots.push(root);
        proof {
            assert(final(self)@.roots =~= pre.push(root@));
        }
        true
    }

    /// Copies of the rescan roots, in designation order, for the driver
    /// to walk.
    pub fn roots(&self) -> (r: Vec<WatchPath>)
        ensures
            r@.map_values(|p: WatchPath| p@) == self@.roots,
    {
        let mut out: Vec<WatchPath> = Vec::new();
        let mut i: usize = 0;
        while i < self.roots.len()
            invariant
                i <= self.roots@.len(),
                self@.roots.len() == self.roots@.len(),
                out@.len() == i,
                forall|k: int| 0 <= k < i ==> (#[trigger] out@[k])@ == self@.roots[k],
            decreases self.roots@.len() - i,
        {
            out.push(self.roots[i].duplicate());
            i = i + 1;
        }
        proof {
            assert(out@.map_values(|p: WatchPath| p@) =~= self@.roots);
        }
        out
    }

    /// Registers one discovered path with the fresh handle the driver
    /// opened for it. A no-op reporting `false` when the path is already
    /// watched or the handle already owned; the driver then closes the
    /// handle it opened.
    pub fn add(&mut self, path: WatchPath, fd: i32) -> (added: bool)
        ensures
            final(self)@.reg == insert_model(old(self)@.reg, path@, fd as int).0,
            added == insert_model(old(self)@.reg, path@, fd as int).1,
            final(self)@.roots == old(self)@.roots,
    {
        self.registry.insert(path, fd)
    }

    /// Drops the entry for `p`, handing back its handle for the driver to
    /// close; `None` when `p` was not watched.
    pub fn remove(&mut self, p: &WatchPath) -> (r: Option<i32>)
        ensures
            final(self)@.reg == without_path(old(self)@.reg, p@),
            final(self)@.roots == old(self)@.roots,
            match r {
                Some(fd) => exists|i: int|
                    0 <= i < old(self)@.reg.len() && #[trigger] old(self)@.reg[i] == (
                        p@,
                        fd as int,
                    ),
                None => !has_path(old(self)@.reg, p@),
            },
    {
        self.registry.remove(p)
    }

    /// Drops every entry in the structural subtree at `p`, handing back
    /// the dropped handles, in registration order, for the driver to
    /// close.
    pub fn remove_recursive(&mut self, p: &WatchPath) -> (closed: Vec<i32>)
        ensures
            final(self)@.reg == kept_outside(old(self)@.reg, p@),
            final(self)@.roots == old(self)@.roots,
            closed@.map_values(|fd: i32| fd as int) == fds_of(dropped_under(old(self)@.reg, p@)),
    {
        self.registry.remove_subtree(p)
    }

    /// Tears the watcher down: drops every entry and every root, handing
    /// back all owned handles for the driver to close.
    pub fn close(&mut self) -> (closed: Vec<i32>)
        ensures
            final(self)@.reg.len() == 0,
            final(self)@.roots.len() == 0,
            closed@.map_values(|fd: i32| fd as int) == fds_of(old(self)@.reg),
    {
        let closed = self.registry.drain_all();
        self.roots = Vec::new();
        closed
    }

    /// Commits one batch-registration chunk. When the kernel call was
    /// applied, registers each pair in order and reports how many were
    /// new; when it failed, registers nothing and reports zero — the
    /// driver then closes every handle of the chunk. Chunks already
    /// committed are unaffected either way.
    pub fn commit_chunk(&mut self, chunk: Vec<(WatchPath, i32)>, applied: bool) -> (n: usize)
        ensures
            final(self)@.roots == old(self)@.roots,
            applied ==> final(self)@.reg == insert_all(old(self)@.reg, pairs_model(chunk@))
                && n as nat == insert_all_count(old(self)@.reg, pairs_model(chunk@)),
            !applied ==> final(self)@.reg == old(self)@.reg && n == 0,
    {
        if !applied {
            return 0;
        }
        let total = chunk.len();
        let ghost all = pairs_model(chunk@);
        let ghost orig = self@.reg;
        let mut items = chunk;
        let mut n: usize = 0;
        while items.len() > 0
            invariant
                self@.roots == old(self)@.roots,
                n <= total - items@.len(),
                items@.len() <= total,
                insert_all(self@.reg, pairs_model(items@)) == insert_all(orig, all),
                n as nat + insert_all_count(self@.reg, pairs_model(items@)) == insert_all_count(
                    orig,
                    all,
                ),
            decreases items@.len(),
        {
            let ghost pre_items = items@;
            let (p, fd) = items.remove(0);
            proof {
                assert(items@ =~= pre_items.skip(1));
                assert(pairs_model(items@) =~= pairs_model(pre_items).skip(1));
                assert(pairs_model(pre_items)[0] == (p@, fd as int));
                assert(pairs_model(pre_items).len() > 0);
            }
            let added = self.registry.insert(p, fd);
            if added {
                n = n + 1;
            }
        }
        proof {
            assert(pairs_model(items@) =~= Seq::<(Seq<Seq<u8>>, int)>::empty());
            assert(insert_all(self@.reg, pairs_model(items@)) == self@.reg);
        }
        n
    }

    /// Reconciles one raw record into at most one semantic event.
    ///
    /// A record that flags an error for its own interest entry is
    /// surfaced as `Faulted`. A record whose identity is no longer
    /// registered is `Unknown`: an expected race with a concurrent
    /// removal, to be discarded. Otherwise the record is classified by
    /// the fixed precedence order and the registry updated: a delete
    /// drops the path's entry, a revoke drops its subtree, a rename
    /// drops its subtree and asks for a full rescan, a link or write
    /// asks for the subtree to be walked again; anything else changes
    /// nothing.
    pub fn reconcile(&mut self, rec: RawRecord) -> (r: Reconciled)
        ensures
            final(self)@.roots == old(self)@.roots,
            match r {
                Reconciled::Faulted(code) => rec.error && code == rec.error_data && final(self)@.reg
                    == old(self)@.reg,
                Reconciled::Unknown => !rec.error && !has_fd(old(self)@.reg, rec.ident as int)
                    && final(self)@.reg == old(self)@.reg,
                Reconciled::Delivered(event, closed, follow) => {
                    &&& !rec.error
                    &&& exists|i: int|
                        0 <= i < old(self)@.reg.len() && #[trigger] old(self)@.reg[i] == (
                            event.path@,
                            rec.ident as int,
                        )
                    &&& event.kind == spec_classify(rec.categories)
                    &&& match event.kind {
                        EventKind::Delete => final(self)@.reg == without_path(
                            old(self)@.reg,
                            event.path@,
                        ) && closed@.map_values(|fd: i32| fd as int) == seq![rec.ident as int]
                            && (follow matches FollowUp::Stay),
                        EventKind::Revoke => final(self)@.reg == kept_outside(
                            old(self)@.reg,
                            event.path@,
                        ) && closed@.map_values(|fd: i32| fd as int) == fds_of(
                            dropped_under(old(self)@.reg, event.path@),
                        ) && (follow matches FollowUp::Stay),
                        EventKind::Rename => final(self)@.reg == kept_outside(
                            old(self)@.reg,
                            event.path@,
                        ) && closed@.map_values(|fd: i32| fd as int) == fds_of(
                            dropped_under(old(self)@.reg, event.path@),
                        ) && (follow matches FollowUp::Rescan),
                        EventKind::Link | EventKind::Write => final(self)@.reg == old(self)@.reg
                            && closed@.len() == 0 && (follow matches FollowUp::Walk(w) && w@
                            == event.path@),
                        EventKind::Extend | EventKind::Other => final(self)@.reg == old(self)@.reg
                            && closed@.len() == 0 && (follow matches FollowUp::Stay),
                    }
                },
            },
    {
        if rec.error {
            return Reconciled::Faulted(rec.error_data);
        }
        let resolved = self.registry.resolve(rec.ident);
        match resolved {
            None => Reconciled::Unknown,
            Some(path) => {
                let kind = classify(rec.categories);
                let c = rec.categories;
                if c.delete {
                    proof {
                        let i = choose|i: int|
                            0 <= i < self@.reg.len() && #[trigger] self@.reg[i] == (
                                path@,
                                rec.ident as int,
                            );
                        assert(self@.reg[i].0 == path@);
                        assert(has_path(self@.reg, path@));
                    }
                    let fd_opt = self.registry.remove(&path);
                    let mut closed: Vec<i32> = Vec::new();
                    match fd_opt {
                        Some(fd) => {
                            proof {
                                let i = choose|i: int|
                                    0 <= i < old(self)@.reg.len() && #[trigger] old(self)@.reg[i]
                                        == (path@, rec.ident as int);
                                assert(old(self)@.reg[i].1 == fd as int);
                            }
                            closed.push(fd);
                            proof {
                                assert(closed@.map_values(|x: i32| x as int) =~= seq![
                                    rec.ident as int,
                                ]);
                            }
                        },
                        None => {
                            proof {
                                assert(false);
                            }
                        },
                    }
                    Reconciled::Delivered(Event { path, kind }, closed, FollowUp::Stay)
                } else if c.revoke {
                    let closed = self.registry.remove_subtree(&path);
                    Reconciled::Delivered(Event { path, kind }, closed, FollowUp::Stay)
                } else if c.rename {
                    let closed = self.registry.remove_subtree(&path);
                    Reconciled::Delivered(Event { path, kind }, closed, FollowUp::Rescan)
                } else if c.link || c.write {
                    let target = path.duplicate();
                    Reconciled::Delivered(Event { path, kind }, Vec::new(), FollowUp::Walk(target))
                } else {
                    Reconciled::Delivered(Event { path, kind }, Vec::new(), FollowUp::Stay)
                }
            },
        }
    }
}

} // verus!
