//! Disjoint-set structure over a fixed universe of elements, used during
//! tree construction to detect redundant segments and to check that a net
//! ends fully connected.

use vstd::prelude::*;
use vstd::seq_lib::*;

verus! {

/// How many distinct sets a labelling holds.
pub open spec fn num_classes(labels: Seq<usize>) -> nat {
    labels.to_set().len()
}

/// A fresh structure holds one singleton set per element.
pub proof fn lemma_new_classes(labels: Seq<usize>)
    requires
        forall|i: int| 0 <= i < labels.len() ==> labels[i] == i,
    ensures
        num_classes(labels) == labels.len(),
{
    assert(labels.no_duplicates());
    labels.unique_seq_to_set();
}

/// Merging two different sets reduces the number of sets by exactly one:
/// the merged-away label disappears and no other label is touched.
pub proof fn lemma_union_classes(old_l: Seq<usize>, new_l: Seq<usize>, a: int, b: int)
    requires
        0 <= a < old_l.len(),
        0 <= b < old_l.len(),
        old_l[a] != old_l[b],
        new_l.len() == old_l.len(),
        forall|i: int|
            0 <= i < old_l.len() ==> new_l[i] == (if old_l[i] == old_l[b] {
                old_l[a]
            } else {
                old_l[i]
            }),
    ensures
        num_classes(new_l) + 1 == num_classes(old_l),
{
    broadcast use vstd::seq_lib::seq_to_set_is_finite;
    broadcast use vstd::set::group_set_axioms;

    assert(new_l.to_set() =~= old_l.to_set().remove(old_l[b])) by {
        assert forall|x: usize| new_l.to_set().contains(x) implies old_l.to_set().contains(x)
            && x != old_l[b] by {
            let i = choose|i: int| 0 <= i < new_l.len() && new_l[i] == x;
            if old_l[i] == old_l[b] {
                assert(old_l.contains(old_l[a]));
            } else {
                assert(old_l.contains(x));
            }
        }
        assert forall|x: usize|
            old_l.to_set().contains(x) && x != old_l[b] implies new_l.to_set().contains(x) by {
            let i = choose|i: int| 0 <= i < old_l.len() && old_l[i] == x;
            assert(new_l[i] == x);
            assert(new_l.contains(x));
        }
    }
    assert(old_l.contains(old_l[b]));
    assert(old_l.to_set().contains(old_l[b]));
    assert(old_l.to_set().finite());
}

/// When every element carries the same label, one set is left.
pub proof fn lemma_single_class(l: Seq<usize>)
    requires
        l.len() > 0,
        forall|i: int, j: int| 0 <= i < l.len() && 0 <= j < l.len() ==> l[i] == l[j],
    ensures
        num_classes(l) == 1,
{
    broadcast use vstd::seq_lib::seq_to_set_is_finite;
    broadcast use vstd::set::group_set_axioms;

    assert(l.to_set() =~= Set::empty().insert(l[0])) by {
        assert(l.contains(l[0]));
        assert forall|x: usize| l.to_set().contains(x) implies x == l[0] by {
            let i = choose|i: int| 0 <= i < l.len() && l[i] == x;
        }
    }
    assert(Set::empty().insert(l[0]).len() == 1);
}

/// Each element carries a component label; two elements are connected exactly
/// when their labels are equal. Merging relabels one component wholesale, so
/// connectivity reporting is exact. (Path compression would only speed this
/// up; correctness needs nothing more than accurate reporting.)
pub struct UnionFind {
    comp: Vec<usize>,
}

impl UnionFind {
    /// The component label of every element.
    pub closed spec fn labels(&self) -> Seq<usize> {
        self.comp@
    }

    /// The number of elements in the universe.
    pub open spec fn len(&self) -> nat {
        self.labels().len()
    }

    /// Two elements are in the same set when their labels match.
    pub open spec fn same_set(&self, a: int, b: int) -> bool {
        self.labels()[a] == self.labels()[b]
    }

    /// Creates the structure with each of the n elements in its own
    /// singleton set.
    pub fn new(n: usize) -> (r: UnionFind)
        ensures
            r.len() == n,
            forall|i: int| 0 <= i < n ==> r.labels()[i] == i,
    {
        let mut comp: Vec<usize> = Vec::new();
        let mut i: usize = 0;
        while i < n
            invariant
                i <= n,
                comp@.len() == i,
                forall|k: int| 0 <= k < i ==> comp@[k] == k,
            decreases n - i,
        {
            comp.push(i);
            i = i + 1;
        }
        UnionFind { comp }
    }

    /// Merges the sets of `a` and `b`; returns whether a merge happened
    /// (false when the two were already connected, i.e. the edge joining
    /// them is redundant).
    pub fn union(&mut self, a: usize, b: usize) -> (merged: bool)
        requires
            a < old(self).len(),
            b < old(self).len(),
        ensures
            final(self).len() == old(self).len(),
            merged <==> !old(self).same_set(a as int, b as int),
            forall|i: int|
                0 <= i < old(self).len() ==> final(self).labels()[i] == (
                if old(self).labels()[i] == old(self).labels()[b as int] {
                    old(self).labels()[a as int]
                } else {
                    old(self).labels()[i]
                }),
    {
        let la = self.comp[a];
        let lb = self.comp[b];
        if la == lb {
            return false;
        }
        let n = self.comp.len();
        let mut i: usize = 0;
        while i < n
            invariant
                i <= n,
                n == old(self).len(),
                self.comp@.len() == n,
                la == old(self).labels()[a as int],
                lb == old(self).labels()[b as int],
                forall|k: int|
                    0 <= k < i ==> self.comp@[k] == (
                    if old(self).labels()[k] == lb {
                        la
                    } else {
                        old(self).labels()[k]
                    }),
                forall|k: int| i <= k < n ==> self.comp@[k] == old(self).labels()[k],
            decreases n - i,
        {
            if self.comp[i] == lb {
                self.comp[i] = la;
            }
            i = i + 1;
        }
        true
    }

    /// Whether the structure has collapsed to a single set, i.e. every
    /// element is connected to every other.
    pub fn done(&self) -> (r: bool)
        ensures
            r <==> forall|i: int, j: int|
                0 <= i < self.len() && 0 <= j < self.len() ==> self.same_set(i, j),
    {
        let n = self.comp.len();
        if n == 0 {
            return true;
        }
        let l0 = self.comp[0];
        let mut i: usize = 1;
        while i < n
            invariant
                1 <= i <= n,
                n == self.len(),
                l0 == self.labels()[0],
                forall|k: int| 0 <= k < i ==> self.labels()[k] == l0,
            decreases n - i,
        {
            if self.comp[i] != l0 {
                proof {
                    assert(!self.same_set(0, i as int));
                }
                return false;
            }
            i = i + 1;
        }
        true
    }
}

} // verus!
