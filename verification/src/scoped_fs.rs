//! Sandboxed output paths: every artifact path is formed under a fixed root
//! and may not escape it through a parent-directory component.
use vstd::prelude::*;

verus! {

/// True when the byte at `i` begins a ".." component of path `p`.
pub open spec fn dotdot_at(p: Seq<u8>, i: int) -> bool {
    &&& 0 <= i
    &&& i + 2 <= p.len()
    &&& p[i] == 0x2e
    &&& p[i + 1] == 0x2e
    &&& (i == 0 || p[i - 1] == 0x2f)
    &&& (i + 2 == p.len() || p[i + 2] == 0x2f)
}

/// True when some component of path `p` is "..".
pub open spec fn has_parent_component(p: Seq<u8>) -> bool {
    exists|i: int| dotdot_at(p, i)
}

/// A sandboxed output root.  In null mode nothing is meant to be written;
/// paths are still formed and checked the same way.
pub struct ScopedFs {
    root: Vec<u8>,
    is_null: bool,
}

impl ScopedFs {
    /// The root all output paths are joined under.
    pub closed spec fn spec_root(&self) -> Seq<u8> {
        self.root@
    }

    /// True for a sink that discards output instead of writing it.
    pub closed spec fn spec_is_null(&self) -> bool {
        self.is_null
    }

    /// A writing sink rooted at `root`, which the caller gives in canonical
    /// form (absolute, free of parent-directory components).
    pub fn new(root: &[u8]) -> (r: ScopedFs)
        ensures
            r.spec_root() == root@,
            !r.spec_is_null(),
    {
        let mut owned: Vec<u8> = Vec::new();
        crate::bytes::push_bytes(&mut owned, root);
        proof {
            assert(owned@ =~= root@);
        }
        ScopedFs { root: owned, is_null: false }
    }

    /// A discarding sink: paths are formed and checked, nothing is written.
    pub fn new_null(root: &[u8]) -> (r: ScopedFs)
        ensures
            r.spec_root() == root@,
            r.spec_is_null(),
    {
        let mut owned: Vec<u8> = Vec::new();
        crate::bytes::push_bytes(&mut owned, root);
        proof {
            assert(owned@ =~= root@);
        }
        ScopedFs { root: owned, is_null: true }
    }

    /// Joins `path` under the root.  The result always begins with the root
    /// and holds no ".." component; a path that would escape (an absolute
    /// one, or one with a ".." component) is refused.
    pub fn format_path(&self, path: &[u8]) -> (r: Option<Vec<u8>>)
        ensures
            match r {
                Some(v) => {
                    &&& v@ == self.spec_root() + seq![0x2fu8] + path@
                    &&& v@.subrange(0, self.spec_root().len() as int) == self.spec_root()
                    &&& !has_parent_component(v@)
                    &&& path@.len() == 0 || path@[0] != 0x2f
                },
                None => has_parent_component(self.spec_root() + seq![0x2fu8] + path@) || (path@.len()
                    > 0 && path@[0] == 0x2f),
            },
    {
        if path.len() > 0 && path[0] == 0x2f {
            return None;
        }
        let mut joined: Vec<u8> = Vec::new();
        crate::bytes::push_bytes(&mut joined, self.root.as_slice());
        joined.push(0x2f);
        crate::bytes::push_bytes(&mut joined, path);
        proof {
            assert(joined@ =~= self.spec_root() + seq![0x2fu8] + path@);
        }
        let n = joined.len();
        let mut i: usize = 0;
        while i < n
            invariant
                i <= n,
                n == joined@.len(),
                joined@ == self.spec_root() + seq![0x2fu8] + path@,
                forall|j: int| j < i ==> !dotdot_at(joined@, j),
            decreases n - i,
        {
            if n - i >= 2 && joined[i] == 0x2e && joined[i + 1] == 0x2e && (i == 0 || joined[i - 1]
                == 0x2f) && (n - i == 2 || joined[i + 2] == 0x2f) {
                proof {
                    assert(dotdot_at(joined@, i as int));
                }
                return None;
            }
            i += 1;
        }
        proof {
            assert(forall|j: int| !dotdot_at(joined@, j));
            assert(joined@.subrange(0, self.spec_root().len() as int) =~= self.spec_root());
        }
        Some(joined)
    }
}

} // verus!
