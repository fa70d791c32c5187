//! The mathematical model of Rojo sourcemaps.
use crate::instance_path::{InstancePathRoot, InstancePathView, StepView};
use crate::paths::{joined, normalized, ModulePath, PathView};
use crate::rojo_sourcemap::RojoSourcemapNode;
use vstd::prelude::*;

verus! {

/// A node as it is met on the walk through a sourcemap.
pub struct VisitView {
    pub name: Seq<char>,
    pub parent_id: int,
    pub file_paths: Seq<PathView>,
}

/// The files that a node lists.
pub open spec fn listed_files(file_paths: Seq<ModulePath>) -> Seq<PathView> {
    file_paths.map_values(|path: ModulePath| path@)
}

/// The nodes of the subtree at `node` in the order in which they are visited: a node before its
/// children, and the last child first. Nodes get consecutive ids, and `node` gets `id`.
pub open spec fn visits(node: RojoSourcemapNode, parent_id: int, id: int) -> Seq<VisitView>
    decreases node,
{
    seq![
        VisitView {
            name: node.name@,
            parent_id,
            file_paths: listed_files(node.file_paths@),
        },
    ] + child_visits(node.children@, id, id + 1)
}

/// The nodes of the subtrees at `children`, the last child first. The first node gets `id`.
pub open spec fn child_visits(
    children: Seq<RojoSourcemapNode>,
    parent_id: int,
    id: int,
) -> Seq<VisitView>
    decreases children,
{
    if children.len() == 0 {
        Seq::empty()
    } else {
        let last = visits(children.last(), parent_id, id);
        last + child_visits(children.drop_last(), parent_id, id + last.len())
    }
}

/// Whether the node with the given id lists a file that stands at `path`, where files are listed
/// relative to the directory `base`.
pub open spec fn claims(
    visits: Seq<VisitView>,
    base: PathView,
    id: int,
    path: PathView,
) -> bool {
    0 <= id < visits.len() && lists(visits[id].file_paths, base, path)
}

/// Whether one of the files stands at `path`.
pub open spec fn lists(file_paths: Seq<PathView>, base: PathView, path: PathView) -> bool {
    exists|i: int|
        0 <= i < file_paths.len() && #[trigger] normalized(joined(base, file_paths[i]), false)
            == path
}

/// Whether the node with the given id is the first one that lists the file at `path`.
pub open spec fn claims_first(
    visits: Seq<VisitView>,
    base: PathView,
    id: int,
    path: PathView,
) -> bool {
    &&& claims(visits, base, id, path)
    &&& forall|earlier: int| 0 <= earlier < id ==> !claims(visits, base, earlier, path)
}

/// The node of each file: the first node visited that lists it.
pub open spec fn ids_by_path(visits: Seq<VisitView>, base: PathView) -> Map<PathView, int> {
    Map::new(
        |path: PathView| exists|id: int| claims(visits, base, id, path),
        |path: PathView| choose|id: int| claims_first(visits, base, id, path),
    )
}

/// A node of an indexed sourcemap.
pub struct NodeView {
    pub name: Seq<char>,
    pub parent_id: int,
}

/// What a [`RojoSourcemap`] stands for.
pub struct SourcemapView {
    pub nodes: Seq<NodeView>,
    pub node_ids_by_path: Map<PathView, int>,
    pub is_datamodel: bool,
}

/// The nodes that are visited.
pub open spec fn visited_nodes(visits: Seq<VisitView>) -> Seq<NodeView> {
    visits.map_values(
        |visit: VisitView| NodeView { name: visit.name, parent_id: visit.parent_id },
    )
}

/// The sourcemap of the tree at `root`, whose files are listed relative to the directory `base`.
pub open spec fn sourcemap_of(root: RojoSourcemapNode, base: PathView) -> SourcemapView {
    let all = visits(root, 0, 0);
    SourcemapView {
        nodes: visited_nodes(all),
        node_ids_by_path: ids_by_path(all, base),
        is_datamodel: root.class_name@ == "DataModel"@,
    }
}

impl SourcemapView {
    /// What holds of every sourcemap: the root has id 0 and is its own parent, the parent of any
    /// other node comes before it, and files belong to nodes that are there.
    pub open spec fn wf(self) -> bool {
        &&& self.nodes.len() > 0
        &&& self.nodes[0].parent_id == 0
        &&& forall|id: int|
            0 < id < self.nodes.len() ==> 0 <= (#[trigger] self.nodes[id]).parent_id < id
        &&& forall|path: PathView| #[trigger]
            self.node_ids_by_path.contains_key(path) ==> 0 <= self.node_ids_by_path[path]
                < self.nodes.len()
    }

    /// The ids of the node and its ancestors, up to the root.
    pub open spec fn ancestors(self, id: int) -> Seq<int>
        decreases id,
    {
        if 0 < id < self.nodes.len() && 0 <= self.nodes[id].parent_id < id {
            seq![id] + self.ancestors(self.nodes[id].parent_id)
        } else {
            seq![id]
        }
    }

    /// Whether the nodes `from` and `target` first meet at the ancestor that is `climb` levels
    /// above the one and `descent` levels above the other.
    pub open spec fn meet(self, from: int, target: int, climb: int, descent: int) -> bool {
        first_common(self.ancestors(from), self.ancestors(target), climb, descent)
    }

    /// The steps down through the given nodes.
    pub open spec fn steps_down(self, ids: Seq<int>) -> Seq<StepView> {
        ids.map_values(|id: int| StepView::Child(self.nodes[id].name))
    }

    /// The path from the script `from` to the node `target`, by way of their nearest common
    /// ancestor.
    pub open spec fn path_from_script(
        self,
        target: int,
        climb: int,
        descent: int,
    ) -> InstancePathView {
        InstancePathView {
            root: InstancePathRoot::Script,
            components: steps_up(climb) + self.steps_down(
                self.ancestors(target).take(descent).reverse(),
            ),
        }
    }

    /// The path from the DataModel to the node `target`.
    pub open spec fn path_from_root(self, target: int) -> InstancePathView {
        InstancePathView {
            root: InstancePathRoot::Root,
            components: self.steps_down(self.ancestors(target).drop_last().reverse()),
        }
    }

    /// The path from the script `from` to the node `target`: relative to the script, except that
    /// in a DataModel it starts at the root where the relative path takes more steps than the
    /// target has ancestors, itself counted.
    pub open spec fn instance_path(self, from: int, target: int) -> InstancePathView {
        let (climb, descent) = choose|climb: int, descent: int|
            self.meet(from, target, climb, descent);
        if !self.is_datamodel || climb + descent <= self.ancestors(target).len() {
            self.path_from_script(target, climb, descent)
        } else {
            self.path_from_root(target)
        }
    }
}

/// Whether `left[i]` is the first element of `left` that occurs in `right`, where it first
/// occurs at `j`.
pub open spec fn first_common(left: Seq<int>, right: Seq<int>, i: int, j: int) -> bool {
    &&& 0 <= i < left.len()
    &&& 0 <= j < right.len()
    &&& left[i] == right[j]
    &&& forall|k: int| 0 <= k < i ==> !right.contains(#[trigger] left[k])
    &&& forall|k: int| 0 <= k < j ==> #[trigger] right[k] != left[i]
}

/// The given number of steps to the parent.
pub open spec fn steps_up(count: int) -> Seq<StepView> {
    Seq::new(count as nat, |i: int| StepView::Parent)
}

/// Every node comes after its parent.
pub(crate) proof fn lemma_visits_parents(node: RojoSourcemapNode, parent_id: int, id: int)
    ensures
        visits(node, parent_id, id).len() > 0,
        visits(node, parent_id, id)[0].parent_id == parent_id,
        forall|i: int|
            0 < i < visits(node, parent_id, id).len() ==> id <= (#[trigger] visits(
                node,
                parent_id,
                id,
            )[i]).parent_id < id + i,
    decreases node,
{
    lemma_child_visits_parents(node.children@, id, id + 1);
    let below = child_visits(node.children@, id, id + 1);
    assert forall|i: int| 0 < i < visits(node, parent_id, id).len() implies id <= (
    #[trigger] visits(node, parent_id, id)[i]).parent_id < id + i by {
        assert(visits(node, parent_id, id)[i] == below[i - 1]);
    }
}

pub(crate) proof fn lemma_child_visits_parents(
    children: Seq<RojoSourcemapNode>,
    parent_id: int,
    id: int,
)
    requires
        parent_id < id,
    ensures
        forall|i: int|
            0 <= i < child_visits(children, parent_id, id).len() ==> parent_id <= (
            #[trigger] child_visits(children, parent_id, id)[i]).parent_id < id + i,
    decreases children,
{
    if children.len() > 0 {
        let last = visits(children.last(), parent_id, id);
        let rest = child_visits(children.drop_last(), parent_id, id + last.len());
        lemma_visits_parents(children.last(), parent_id, id);
        lemma_child_visits_parents(children.drop_last(), parent_id, id + last.len());
        assert forall|i: int|
            0 <= i < child_visits(children, parent_id, id).len() implies parent_id <= (
        #[trigger] child_visits(children, parent_id, id)[i]).parent_id < id + i by {
            if i < last.len() {
                assert(child_visits(children, parent_id, id)[i] == last[i]);
            } else {
                assert(child_visits(children, parent_id, id)[i] == rest[i - last.len()]);
            }
        }
    }
}

pub(crate) proof fn lemma_claims_first_is_unique(
    visits: Seq<VisitView>,
    base: PathView,
    left: int,
    right: int,
    path: PathView,
)
    requires
        claims_first(visits, base, left, path),
        claims_first(visits, base, right, path),
    ensures
        left == right,
{
}

/// In the sourcemap of any tree, the root has id 0 and is its own parent, the parent of any other
/// node comes before it, and each file belongs to a node.
pub proof fn lemma_sourcemap_is_well_formed(root: RojoSourcemapNode, base: PathView)
    ensures
        sourcemap_of(root, base).wf(),
{
    let all = visits(root, 0, 0);
    let sourcemap = sourcemap_of(root, base);
    lemma_visits_parents(root, 0, 0);
    assert forall|id: int| 0 < id < sourcemap.nodes.len() implies 0 <= (
    #[trigger] sourcemap.nodes[id]).parent_id < id by {
        assert(sourcemap.nodes[id].parent_id == all[id].parent_id);
    }
    assert forall|path: PathView| #[trigger]
        sourcemap.node_ids_by_path.contains_key(path) implies 0
        <= sourcemap.node_ids_by_path[path] < sourcemap.nodes.len() by {
        let id = choose|id: int| claims(all, base, id, path);
        lemma_claims_first_exists(all, base, id, path);
    }
}

pub(crate) proof fn lemma_claims_first_exists(
    visits: Seq<VisitView>,
    base: PathView,
    id: int,
    path: PathView,
)
    requires
        claims(visits, base, id, path),
    ensures
        exists|first: int| claims_first(visits, base, first, path),
    decreases id,
{
    if exists|earlier: int| 0 <= earlier < id && claims(visits, base, earlier, path) {
        let earlier = choose|earlier: int|
            0 <= earlier < id && claims(visits, base, earlier, path);
        lemma_claims_first_exists(visits, base, earlier, path);
    } else {
        assert(claims_first(visits, base, id, path));
    }
}

/// A chain of ancestors goes from the node down in ids to the root.
pub(crate) proof fn lemma_ancestors(sourcemap: SourcemapView, id: int)
    requires
        sourcemap.wf(),
        0 <= id < sourcemap.nodes.len(),
    ensures
        ({
            let chain = sourcemap.ancestors(id);
            &&& 0 < chain.len() <= id + 1
            &&& chain[0] == id
            &&& chain.last() == 0
            &&& forall|i: int| 0 <= i < chain.len() ==> 0 <= #[trigger] chain[i] <= id
            &&& chain.len() == id + 1 ==> forall|other: int|
                0 <= other <= id ==> chain.contains(other)
        }),
    decreases id,
{
    let chain = sourcemap.ancestors(id);
    if id > 0 {
        let parent = sourcemap.nodes[id].parent_id;
        let rest = sourcemap.ancestors(parent);
        lemma_ancestors(sourcemap, parent);
        assert(chain == seq![id] + rest);
        assert(chain.last() == rest.last());
        assert forall|i: int| 0 <= i < chain.len() implies 0 <= #[trigger] chain[i] <= id by {
            if i > 0 {
                assert(chain[i] == rest[i - 1]);
            }
        }
        if chain.len() == id + 1 {
            assert forall|other: int| 0 <= other <= id implies chain.contains(other) by {
                if other == id {
                    assert(chain[0] == other);
                } else {
                    assert(rest.contains(other));
                    let i = choose|i: int| 0 <= i < rest.len() && rest[i] == other;
                    assert(chain[i + 1] == other);
                }
            }
        }
    } else {
        assert(chain[0] == 0);
    }
}

/// In a chain of ancestors each node is followed by its parent.
pub(crate) proof fn lemma_ancestors_step(sourcemap: SourcemapView, id: int, i: int)
    requires
        sourcemap.wf(),
        0 <= id < sourcemap.nodes.len(),
        0 <= i < sourcemap.ancestors(id).len() - 1,
    ensures
        0 < sourcemap.ancestors(id)[i] < sourcemap.nodes.len(),
        sourcemap.ancestors(id)[i + 1] == sourcemap.nodes[sourcemap.ancestors(id)[i]].parent_id,
    decreases id,
{
    let parent = sourcemap.nodes[id].parent_id;
    let rest = sourcemap.ancestors(parent);
    lemma_ancestors(sourcemap, parent);
    assert(sourcemap.ancestors(id) == seq![id] + rest);
    if i > 0 {
        lemma_ancestors_step(sourcemap, parent, i - 1);
        assert(sourcemap.ancestors(id)[i] == rest[i - 1]);
        assert(sourcemap.ancestors(id)[i + 1] == rest[i]);
    }
}

pub(crate) proof fn lemma_first_common_is_unique(
    left: Seq<int>,
    right: Seq<int>,
    i: int,
    j: int,
    other_i: int,
    other_j: int,
)
    requires
        first_common(left, right, i, j),
        first_common(left, right, other_i, other_j),
    ensures
        i == other_i && j == other_j,
{
    assert(right.contains(left[i]));
    assert(right.contains(left[other_i]));
}

} // verus!
