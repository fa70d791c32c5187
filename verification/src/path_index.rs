//! A table from file paths to node ids.
use crate::paths::{ModulePath, PathView};
use vstd::prelude::*;

verus! {

/// One row of a [`PathIndex`].
#[derive(Debug)]
struct PathEntry {
    path: ModulePath,
    node_id: usize,
}

/// The ids of the nodes that files belong to. No path occurs twice.
#[derive(Debug)]
pub struct PathIndex {
    entries: Vec<PathEntry>,
}

spec fn entry_map(entries: Seq<PathEntry>) -> Map<PathView, int>
    decreases entries.len(),
{
    if entries.len() == 0 {
        Map::empty()
    } else {
        entry_map(entries.drop_last()).insert(entries.last().path@, entries.last().node_id as int)
    }
}

spec fn distinct_paths(entries: Seq<PathEntry>) -> bool {
    forall|i: int, j: int|
        0 <= i < j < entries.len() ==> (#[trigger] entries[i]).path@ != (
        #[trigger] entries[j]).path@
}

proof fn lemma_entry_map(entries: Seq<PathEntry>, path: PathView)
    requires
        distinct_paths(entries),
    ensures
        entry_map(entries).contains_key(path) <==> exists|i: int|
            0 <= i < entries.len() && (#[trigger] entries[i]).path@ == path,
        forall|i: int|
            0 <= i < entries.len() && (#[trigger] entries[i]).path@ == path ==> entry_map(
                entries,
            )[path] == entries[i].node_id,
    decreases entries.len(),
{
    if entries.len() > 0 {
        let rest = entries.drop_last();
        assert forall|i: int, j: int| 0 <= i < j < rest.len() implies (
        #[trigger] rest[i]).path@ != (#[trigger] rest[j]).path@ by {
            assert(rest[i] == entries[i] && rest[j] == entries[j]);
        }
        lemma_entry_map(rest, path);
        assert forall|i: int|
            0 <= i < entries.len() && (#[trigger] entries[i]).path@ == path implies entry_map(
            entries,
        )[path] == entries[i].node_id && entry_map(entries).contains_key(path) by {
            if i < rest.len() {
                assert(rest[i] == entries[i]);
            }
        }
        if entry_map(entries).contains_key(path) {
            if path == entries.last().path@ {
                assert(entries[entries.len() - 1].path@ == path);
            } else {
                let i = choose|i: int|
                    0 <= i < rest.len() && (#[trigger] rest[i]).path@ == path;
                assert(entries[i].path@ == path);
            }
        }
    }
}

impl View for PathIndex {
    type V = Map<PathView, int>;

    closed spec fn view(&self) -> Map<PathView, int> {
        entry_map(self.entries@)
    }
}

impl Clone for PathIndex {
    fn clone(&self) -> (copy: Self)
        ensures
            copy@ == self@,
    {
        proof {
            use_type_invariant(self);
        }
        let mut entries: Vec<PathEntry> = Vec::new();
        let mut i: usize = 0;
        while i < self.entries.len()
            invariant
                i <= self.entries.len(),
                entries.len() == i,
                forall|j: int|
                    0 <= j < i ==> (#[trigger] entries@[j]).path@ == self.entries@[j].path@
                        && entries@[j].node_id == self.entries@[j].node_id,
            decreases self.entries.len() - i,
        {
            entries.push(
                PathEntry {
                    path: self.entries[i].path.clone(),
                    node_id: self.entries[i].node_id,
                },
            );
            i += 1;
        }
        proof {
            lemma_same_entry_map(entries@, self.entries@);
        }
        PathIndex { entries }
    }
}

/// Rows with the same paths and ids make the same table.
proof fn lemma_same_entry_map(left: Seq<PathEntry>, right: Seq<PathEntry>)
    requires
        left.len() == right.len(),
        forall|i: int|
            0 <= i < left.len() ==> (#[trigger] left[i]).path@ == right[i].path@
                && left[i].node_id == right[i].node_id,
    ensures
        entry_map(left) == entry_map(right),
        distinct_paths(right) ==> distinct_paths(left),
    decreases left.len(),
{
    if left.len() > 0 {
        assert(left.last() == left[left.len() - 1]);
        assert forall|i: int| 0 <= i < left.len() - 1 implies (
        #[trigger] left.drop_last()[i]).path@ == right.drop_last()[i].path@
            && left.drop_last()[i].node_id == right.drop_last()[i].node_id by {
            assert(left.drop_last()[i] == left[i]);
        }
        lemma_same_entry_map(left.drop_last(), right.drop_last());
    }
    if distinct_paths(right) {
        assert forall|i: int, j: int| 0 <= i < j < left.len() implies (
        #[trigger] left[i]).path@ != (#[trigger] left[j]).path@ by {
            assert(right[i].path@ != right[j].path@);
        }
    }
}

impl PathIndex {
    #[verifier::type_invariant]
    spec fn wf(self) -> bool {
        distinct_paths(self.entries@)
    }

    /// The table without rows.
    pub fn new() -> (index: PathIndex)
        ensures
            index@ == Map::<PathView, int>::empty(),
    {
        PathIndex { entries: Vec::new() }
    }

    /// The node that the file at `path` belongs to.
    pub fn get(&self, path: &ModulePath) -> (node_id: Option<usize>)
        ensures
            match node_id {
                Some(id) => self@.contains_key(path@) && self@[path@] == id,
                None => !self@.contains_key(path@),
            },
    {
        proof {
            use_type_invariant(self);
            lemma_entry_map(self.entries@, path@);
        }
        let mut i: usize = 0;
        while i < self.entries.len()
            invariant
                i <= self.entries.len(),
                forall|j: int| 0 <= j < i ==> (#[trigger] self.entries@[j]).path@ != path@,
                self@ == entry_map(self.entries@),
                forall|j: int|
                    0 <= j < self.entries.len() && (#[trigger] self.entries@[j]).path@ == path@
                        ==> self@.contains_key(path@) && self@[path@] == self.entries@[j].node_id,
            decreases self.entries.len() - i,
        {
            if self.entries[i].path.same(path) {
                return Some(self.entries[i].node_id);
            }
            i += 1;
        }
        None
    }

    /// Says that the file at `path` belongs to the given node, unless it belongs to one already.
    pub fn insert_first(&mut self, path: ModulePath, node_id: usize)
        ensures
            final(self)@ == if old(self)@.contains_key(path@) {
                old(self)@
            } else {
                old(self)@.insert(path@, node_id as int)
            },
    {
        if self.get(&path).is_none() {
            proof {
                use_type_invariant(&*self);
                lemma_entry_map(self.entries@, path@);
            }
            let ghost before = self.entries@;
            let entry = PathEntry { path, node_id };
            assert(before.push(entry).drop_last() =~= before);
            assert(distinct_paths(before.push(entry)));
            let mut entries: Vec<PathEntry> = Vec::new();
            std::mem::swap(&mut entries, &mut self.entries);
            entries.push(entry);
            self.entries = entries;
        }
    }
}

impl PathIndex {
    /// Whether every row of the table is also in the other one.
    fn is_within(&self, other: &PathIndex) -> (within: bool)
        ensures
            within == forall|path: PathView| #[trigger]
                self@.contains_key(path) ==> other@.contains_key(path) && other@[path]
                    == self@[path],
    {
        proof {
            use_type_invariant(self);
        }
        let mut i: usize = 0;
        while i < self.entries.len()
            invariant
                i <= self.entries.len(),
                distinct_paths(self.entries@),
                self@ == entry_map(self.entries@),
                forall|j: int|
                    0 <= j < i ==> other@.contains_key((#[trigger] self.entries@[j]).path@)
                        && other@[self.entries@[j].path@] == self.entries@[j].node_id,
            decreases self.entries.len() - i,
        {
            proof {
                lemma_entry_map(self.entries@, self.entries@[i as int].path@);
                assert(self@.contains_key(self.entries@[i as int].path@));
            }
            match other.get(&self.entries[i].path) {
                Some(node_id) => {
                    if node_id != self.entries[i].node_id {
                        return false;
                    }
                },
                None => {
                    return false;
                },
            }
            i += 1;
        }
        assert forall|path: PathView| #[trigger] self@.contains_key(path) implies
            other@.contains_key(path) && other@[path] == self@[path] by {
            lemma_entry_map(self.entries@, path);
        }
        true
    }
}

impl PartialEq for PathIndex {
    fn eq(&self, other: &PathIndex) -> (same: bool) {
        let same = self.is_within(other) && other.is_within(self);
        assert(same ==> self@ =~= other@);
        same
    }
}

impl vstd::std_specs::cmp::PartialEqSpecImpl for PathIndex {
    open spec fn obeys_eq_spec() -> bool {
        true
    }

    open spec fn eq_spec(&self, other: &PathIndex) -> bool {
        self@ == other@
    }
}

impl Eq for PathIndex {

}

} // verus!
