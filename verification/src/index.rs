//! The bijection between frame names and dense integer ids.

use vstd::prelude::*;

verus! {

/// Frame names in allocation order; a name's id is its position. Ids are
/// never recycled and the mapping is stable for the index's lifetime.
pub struct NodeIndex {
    /// The known names, each exactly once.
    pub names: Vec<String>,
}

/// Whether the sequence of names knows `s`.
pub open spec fn spec_contains_name(names: Seq<String>, s: Seq<char>) -> bool {
    exists|i: int| 0 <= i < names.len() && names[i]@ == s
}

/// The id of a known name.
pub open spec fn spec_id_of(names: Seq<String>, s: Seq<char>) -> int {
    choose|i: int| 0 <= i < names.len() && names[i]@ == s
}

impl NodeIndex {
    /// Every name appears exactly once.
    pub open spec fn wf(&self) -> bool {
        forall|i: int, j: int|
            0 <= i < j < self.names@.len() ==> self.names@[i]@ != self.names@[j]@
    }

    /// An empty index.
    pub fn new() -> (r: Self)
        ensures
            r.wf(),
            r.names@ == Seq::<String>::empty(),
    {
        NodeIndex { names: Vec::new() }
    }

    /// The id of `node`: the existing one where the name is known, a fresh
    /// one (the next position) where it is not.
    pub fn index(&mut self, node: String) -> (r: usize)
        requires
            old(self).wf(),
        ensures
            final(self).wf(),
            r < final(self).names@.len(),
            final(self).names@[r as int]@ == node@,
            spec_contains_name(old(self).names@, node@) ==> *final(self) == *old(self) && r
                == spec_id_of(old(self).names@, node@),
            !spec_contains_name(old(self).names@, node@) ==> final(self).names@ == old(
                self,
            ).names@.push(node) && r == old(self).names@.len(),
    {
        let n = self.names.len();
        let mut i: usize = 0;
        while i < n
            invariant
                i <= n,
                n == self.names@.len(),
                *self == *old(self),
                self.wf(),
                forall|j: int| 0 <= j < i ==> self.names@[j]@ != node@,
            decreases n - i,
        {
            if self.names[i].eq(&node) {
                proof {
                    assert(spec_contains_name(self.names@, node@));
                    let w = spec_id_of(self.names@, node@);
                    assert(self.names@[w]@ == node@);
                    if w != i {
                        assert(self.names@[w]@ == self.names@[i as int]@);
                        assert(false);
                    }
                }
                return i;
            }
            i = i + 1;
        }
        self.names.push(node);
        n
    }

    /// Whether the name is known; a pure read.
    pub fn contains(&self, node: &String) -> (r: bool)
        ensures
            r == spec_contains_name(self.names@, node@),
    {
        let n = self.names.len();
        let mut i: usize = 0;
        while i < n
            invariant
                i <= n,
                n == self.names@.len(),
                forall|j: int| 0 <= j < i ==> self.names@[j]@ != node@,
            decreases n - i,
        {
            if self.names[i].eq(node) {
                return true;
            }
            i = i + 1;
        }
        false
    }
}

} // verus!
