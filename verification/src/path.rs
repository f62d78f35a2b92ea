//! Filesystem paths as sequences of components.
//!
//! Subtree queries must be structural: `/tmp/foo` is an ancestor of
//! `/tmp/foo/x` but not of `/tmp/foobar`, even though the latter shares a
//! string prefix. Holding a path as its list of components makes the
//! ancestor test a plain sequence-prefix test.

use vstd::prelude::*;

verus! {

/// A filesystem path, held as the sequence of its components, each a byte
/// string. The root path is the empty sequence.
#[derive(Debug, Clone, PartialEq, Eq)]
pub struct WatchPath {
    segs: Vec<Vec<u8>>,
}

impl View for WatchPath {
    type V = Seq<Seq<u8>>;

    closed spec fn view(&self) -> Seq<Seq<u8>> {
        self.segs@.map_values(|s: Vec<u8>| s@)
    }
}

/// `p` lies in the directory subtree rooted at `prefix`: every component of
/// `prefix` is matched, component for component, at the start of `p`.
/// `prefix` itself lies under `prefix`.
pub open spec fn is_under(prefix: Seq<Seq<u8>>, p: Seq<Seq<u8>>) -> bool {
    prefix.len() <= p.len() && forall|k: int| 0 <= k < prefix.len() ==> p[k] == prefix[k]
}

/// Byte-for-byte equality of two byte vectors.
fn bytes_eq(a: &Vec<u8>, b: &Vec<u8>) -> (r: bool)
    ensures
        r == (a@ == b@),
{
    if a.len() != b.len() {
        return false;
    }
    let mut i: usize = 0;
    while i < a.len()
        invariant
            i <= a.len(),
            a@.len() == b@.len(),
            forall|k: int| 0 <= k < i ==> a@[k] == b@[k],
        decreases a.len() - i,
    {
        if a[i] != b[i] {
            return false;
        }
        i = i + 1;
    }
    proof {
        assert(a@ =~= b@);
    }
    true
}

impl WatchPath {
    /// Builds a path from its components.
    pub fn from_segments(segs: Vec<Vec<u8>>) -> (p: WatchPath)
        ensures
            p@.len() == segs@.len(),
            forall|i: int| 0 <= i < segs@.len() ==> p@[i] == segs@[i]@,
    {
        WatchPath { segs }
    }

    /// The number of components.
    pub fn depth(&self) -> (n: usize)
        ensures
            n == self@.len(),
    {
        self.segs.len()
    }

    /// Structural equality of two paths: same components in the same order.
    pub fn eq_path(&self, other: &WatchPath) -> (r: bool)
        ensures
            r == (self@ == other@),
    {
        if self.segs.len() != other.segs.len() {
            proof {
                assert(self@.len() != other@.len());
            }
            return false;
        }
        let mut i: usize = 0;
        while i < self.segs.len()
            invariant
                i <= self.segs.len(),
                self.segs@.len() == other.segs@.len(),
                self@.len() == self.segs@.len(),
                other@.len() == other.segs@.len(),
                forall|k: int| 0 <= k < i ==> self@[k] == other@[k],
            decreases self.segs.len() - i,
        {
            if !bytes_eq(&self.segs[i], &other.segs[i]) {
                proof {
                    assert(self@[i as int] != other@[i as int]);
                }
                return false;
            }
            i = i + 1;
        }
        proof {
            assert(self@ =~= other@);
        }
        true
    }

    /// Structural subtree test: does `self` lie under `prefix`?
    /// Matching is per component, never by string prefix within a component.
    pub fn starts_with(&self, prefix: &WatchPath) -> (r: bool)
        ensures
            r == is_under(prefix@, self@),
    {
        if prefix.segs.len() > self.segs.len() {
            return false;
        }
        let mut i: usize = 0;
        while i < prefix.segs.len()
            invariant
                i <= prefix.segs.len(),
                prefix.segs@.len() <= self.segs@.len(),
                self@.len() == self.segs@.len(),
                prefix@.len() == prefix.segs@.len(),
                forall|k: int| 0 <= k < i ==> self@[k] == prefix@[k],
            decreases prefix.segs.len() - i,
        {
            if !bytes_eq(&self.segs[i], &prefix.segs[i]) {
                proof {
                    assert(self@[i as int] != prefix@[i as int]);
                }
                return false;
            }
            i = i + 1;
        }
        true
    }

    /// The components, for a driver to rebuild an operating-system path.
    pub fn segments(&self) -> (r: &Vec<Vec<u8>>)
        ensures
            r@.map_values(|s: Vec<u8>| s@) == self@,
    {
        &self.segs
    }

    /// A copy of this path with the same components.
    pub fn duplicate(&self) -> (r: WatchPath)
        ensures
            r@ == self@,
    {
        let mut segs: Vec<Vec<u8>> = Vec::new();
        let mut i: usize = 0;
        while i < self.segs.len()
            invariant
                i <= self.segs.len(),
                self@.len() == self.segs@.len(),
                segs@.len() == i,
                forall|k: int| 0 <= k < i ==> segs@[k]@ == self@[k],
            decreases self.segs.len() - i,
        {
            let mut seg: Vec<u8> = Vec::new();
            let mut j: usize = 0;
            while j < self.segs[i].len()
                invariant
                    i < self.segs.len(),
                    j <= self.segs@[i as int].len(),
                    seg@.len() == j,
                    forall|k: int| 0 <= k < j ==> seg@[k] == self.segs@[i as int]@[k],
                decreases self.segs@[i as int].len() - j,
            {
                seg.push(self.segs[i][j]);
                j = j + 1;
            }
            proof {
                assert(seg@ =~= self.segs@[i as int]@);
            }
            segs.push(seg);
            i = i + 1;
        }
        let r = WatchPath { segs };
        proof {
            assert(r@ =~= self@);
        }
        r
    }
}

} // verus!
