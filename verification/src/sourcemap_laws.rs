//! What instance paths taken from a sourcemap are good for.
use crate::instance_path::{InstancePathRoot, StepView};
use crate::paths::PathView;
use crate::rojo_sourcemap::RojoSourcemapNode;
use crate::sourcemap_model::{
    child_visits, claims, first_common, lemma_ancestors, lemma_ancestors_step,
    lemma_first_common_is_unique, listed_files, lists, sourcemap_of, steps_up, visits,
    SourcemapView,
};
use vstd::prelude::*;

verus! {

impl SourcemapView {
    /// Whether one step goes from the node `id` to the node `next`.
    pub open spec fn step_leads(self, id: int, step: StepView, next: int) -> bool {
        match step {
            StepView::Parent => {
                &&& 0 < id < self.nodes.len()
                &&& next == self.nodes[id].parent_id
            },
            StepView::Child(name) => {
                &&& 0 < next < self.nodes.len()
                &&& self.nodes[next].parent_id == id
                &&& self.nodes[next].name == name
            },
        }
    }

    /// Whether the steps can be followed from the node `start` to the node `end`.
    pub open spec fn steps_lead(self, start: int, steps: Seq<StepView>, end: int) -> bool
        decreases steps.len(),
    {
        if steps.len() == 0 {
            start == end
        } else {
            exists|id: int|
                self.steps_lead(start, steps.drop_last(), id) && #[trigger] self.step_leads(
                    id,
                    steps.last(),
                    end,
                )
        }
    }

    /// The node at which an instance path of the script `script` starts.
    pub open spec fn start_node(self, root: InstancePathRoot, script: int) -> int {
        match root {
            InstancePathRoot::Root => 0,
            InstancePathRoot::Script => script,
        }
    }
}

proof fn lemma_one_more_step(
    sourcemap: SourcemapView,
    start: int,
    steps: Seq<StepView>,
    id: int,
    step: StepView,
    end: int,
)
    requires
        sourcemap.steps_lead(start, steps, id),
        sourcemap.step_leads(id, step, end),
    ensures
        sourcemap.steps_lead(start, steps.push(step), end),
{
    assert(steps.push(step).drop_last() =~= steps);
    assert(sourcemap.step_leads(id, steps.push(step).last(), end));
}

/// Any two nodes have a nearest common ancestor.
proof fn lemma_nodes_meet(sourcemap: SourcemapView, from: int, target: int) -> (found: (int, int))
    requires
        sourcemap.wf(),
        0 <= from < sourcemap.nodes.len(),
        0 <= target < sourcemap.nodes.len(),
    ensures
        sourcemap.meet(from, target, found.0, found.1),
{
    let left = sourcemap.ancestors(from);
    let right = sourcemap.ancestors(target);
    lemma_ancestors(sourcemap, from);
    lemma_ancestors(sourcemap, target);
    assert(right[right.len() - 1] == 0);
    lemma_first_common_exists(left, right, left.len() - 1)
}

proof fn lemma_first_common_exists(left: Seq<int>, right: Seq<int>, i: int) -> (found: (
    int,
    int,
))
    requires
        0 <= i < left.len(),
        right.contains(left[i]),
    ensures
        first_common(left, right, found.0, found.1),
    decreases i,
{
    if exists|k: int| 0 <= k < i && right.contains(#[trigger] left[k]) {
        let k = choose|k: int| 0 <= k < i && right.contains(#[trigger] left[k]);
        lemma_first_common_exists(left, right, k)
    } else {
        let j = choose|j: int| 0 <= j < right.len() && right[j] == left[i];
        lemma_first_occurrence(left, right, i, j)
    }
}

proof fn lemma_first_occurrence(left: Seq<int>, right: Seq<int>, i: int, j: int) -> (found: (
    int,
    int,
))
    requires
        0 <= i < left.len(),
        0 <= j < right.len(),
        right[j] == left[i],
        forall|k: int| 0 <= k < i ==> !right.contains(#[trigger] left[k]),
    ensures
        first_common(left, right, found.0, found.1),
    decreases j,
{
    if exists|k: int| 0 <= k < j && #[trigger] right[k] == left[i] {
        let k = choose|k: int| 0 <= k < j && #[trigger] right[k] == left[i];
        lemma_first_occurrence(left, right, i, k)
    } else {
        (i, j)
    }
}

proof fn lemma_climb(sourcemap: SourcemapView, id: int, climb: int)
    requires
        sourcemap.wf(),
        0 <= id < sourcemap.nodes.len(),
        0 <= climb < sourcemap.ancestors(id).len(),
    ensures
        sourcemap.steps_lead(id, steps_up(climb), sourcemap.ancestors(id)[climb]),
    decreases climb,
{
    lemma_ancestors(sourcemap, id);
    if climb > 0 {
        lemma_climb(sourcemap, id, climb - 1);
        lemma_ancestors_step(sourcemap, id, climb - 1);
        lemma_one_more_step(
            sourcemap,
            id,
            steps_up(climb - 1),
            sourcemap.ancestors(id)[climb - 1],
            StepView::Parent,
            sourcemap.ancestors(id)[climb],
        );
        assert(steps_up(climb - 1).push(StepView::Parent) =~= steps_up(climb));
    }
}

/// From the ancestor `from` levels above `target` down to the one `to` levels above it.
proof fn lemma_descend(
    sourcemap: SourcemapView,
    start: int,
    steps: Seq<StepView>,
    target: int,
    from: int,
    to: int,
)
    requires
        sourcemap.wf(),
        0 <= target < sourcemap.nodes.len(),
        0 <= to <= from < sourcemap.ancestors(target).len(),
        sourcemap.steps_lead(start, steps, sourcemap.ancestors(target)[from]),
    ensures
        sourcemap.steps_lead(
            start,
            steps + sourcemap.steps_down(
                sourcemap.ancestors(target).subrange(to, from).reverse(),
            ),
            sourcemap.ancestors(target)[to],
        ),
    decreases from - to,
{
    let chain = sourcemap.ancestors(target);
    let down = sourcemap.steps_down(chain.subrange(to, from).reverse());
    if to == from {
        assert(steps + down =~= steps);
    } else {
        let shorter = sourcemap.steps_down(chain.subrange(to + 1, from).reverse());
        lemma_descend(sourcemap, start, steps, target, from, to + 1);
        lemma_ancestors_step(sourcemap, target, to);
        let step = StepView::Child(sourcemap.nodes[chain[to]].name);
        lemma_one_more_step(sourcemap, start, steps + shorter, chain[to + 1], step, chain[to]);
        assert((steps + shorter).push(step) =~= steps + down);
    }
}

/// The instance path from one node to another leads there: its steps can be followed from the
/// script, or from the root if the path starts there, and they end in the target.
pub proof fn lemma_instance_path_leads_to_target(
    sourcemap: SourcemapView,
    from: int,
    target: int,
)
    requires
        sourcemap.wf(),
        0 <= from < sourcemap.nodes.len(),
        0 <= target < sourcemap.nodes.len(),
    ensures
        ({
            let path = sourcemap.instance_path(from, target);
            sourcemap.steps_lead(sourcemap.start_node(path.root, from), path.components, target)
        }),
{
    lemma_nodes_meet(sourcemap, from, target);
    let (climb, descent) = choose|climb: int, descent: int|
        sourcemap.meet(from, target, climb, descent);
    let chain = sourcemap.ancestors(target);
    lemma_ancestors(sourcemap, target);
    lemma_climb(sourcemap, from, climb);
    lemma_descend(sourcemap, from, steps_up(climb), target, descent, 0);
    assert(chain.subrange(0, descent) =~= chain.take(descent));
    lemma_descend(sourcemap, 0, Seq::empty(), target, chain.len() - 1, 0);
    assert(chain.subrange(0, chain.len() - 1) =~= chain.drop_last());
    assert(Seq::<StepView>::empty() + sourcemap.steps_down(chain.drop_last().reverse())
        =~= sourcemap.steps_down(chain.drop_last().reverse()));
}

/// A walk between two nodes is at least as long as the way over one of their common ancestors.
proof fn lemma_walk_passes_common_ancestor(
    sourcemap: SourcemapView,
    from: int,
    steps: Seq<StepView>,
    target: int,
) -> (found: (int, int))
    requires
        sourcemap.wf(),
        0 <= from < sourcemap.nodes.len(),
        sourcemap.steps_lead(from, steps, target),
    ensures
        0 <= target < sourcemap.nodes.len(),
        0 <= found.0 < sourcemap.ancestors(from).len(),
        0 <= found.1 < sourcemap.ancestors(target).len(),
        sourcemap.ancestors(from)[found.0] == sourcemap.ancestors(target)[found.1],
        found.0 + found.1 <= steps.len(),
    decreases steps.len(),
{
    lemma_ancestors(sourcemap, from);
    if steps.len() == 0 {
        (0, 0)
    } else {
        let id = choose|id: int|
            sourcemap.steps_lead(from, steps.drop_last(), id) && #[trigger] sourcemap.step_leads(
                id,
                steps.last(),
                target,
            );
        let (i, j) = lemma_walk_passes_common_ancestor(sourcemap, from, steps.drop_last(), id);
        let left = sourcemap.ancestors(from);
        lemma_ancestors(sourcemap, id);
        match steps.last() {
            StepView::Parent => {
                assert(sourcemap.ancestors(id) == seq![id] + sourcemap.ancestors(target));
                lemma_ancestors(sourcemap, target);
                if j > 0 {
                    assert(sourcemap.ancestors(id)[j] == sourcemap.ancestors(target)[j - 1]);
                    (i, j - 1)
                } else {
                    assert(left[i] == id);
                    assert(i < left.len() - 1) by {
                        if i == left.len() - 1 {
                            assert(left.last() == 0);
                        }
                    }
                    lemma_ancestors_step(sourcemap, from, i);
                    (i + 1, 0)
                }
            },
            StepView::Child(_) => {
                assert(sourcemap.ancestors(target) == seq![target] + sourcemap.ancestors(id));
                assert(sourcemap.ancestors(target)[j + 1] == sourcemap.ancestors(id)[j]);
                (i, j + 1)
            },
        }
    }
}

/// In a chain of ancestors the ids fall.
proof fn lemma_ancestors_fall(sourcemap: SourcemapView, id: int, i: int, j: int)
    requires
        sourcemap.wf(),
        0 <= id < sourcemap.nodes.len(),
        0 <= i < j < sourcemap.ancestors(id).len(),
    ensures
        sourcemap.ancestors(id)[j] < sourcemap.ancestors(id)[i],
    decreases j,
{
    lemma_ancestors_step(sourcemap, id, j - 1);
    if i < j - 1 {
        lemma_ancestors_fall(sourcemap, id, i, j - 1);
    }
}

/// Two chains of ancestors that have met go on alike.
proof fn lemma_chains_agree(
    sourcemap: SourcemapView,
    from: int,
    target: int,
    i: int,
    j: int,
    further: int,
)
    requires
        sourcemap.wf(),
        0 <= from < sourcemap.nodes.len(),
        0 <= target < sourcemap.nodes.len(),
        0 <= i && i + further < sourcemap.ancestors(from).len(),
        0 <= j < sourcemap.ancestors(target).len(),
        0 <= further,
        sourcemap.ancestors(from)[i] == sourcemap.ancestors(target)[j],
    ensures
        j + further < sourcemap.ancestors(target).len(),
        sourcemap.ancestors(from)[i + further] == sourcemap.ancestors(target)[j + further],
    decreases further,
{
    if further > 0 {
        lemma_chains_agree(sourcemap, from, target, i, j, further - 1);
        lemma_ancestors(sourcemap, target);
        lemma_ancestors_step(sourcemap, from, i + further - 1);
        assert(j + further - 1 < sourcemap.ancestors(target).len() - 1) by {
            if j + further - 1 == sourcemap.ancestors(target).len() - 1 {
                assert(sourcemap.ancestors(target).last() == 0);
            }
        }
        lemma_ancestors_step(sourcemap, target, j + further - 1);
    }
}

/// No detours: no way from the script to the target is shorter than the instance path, and where
/// the path starts at the root, every way from the script takes at least two steps more.
pub proof fn lemma_instance_path_is_shortest(
    sourcemap: SourcemapView,
    from: int,
    target: int,
    steps: Seq<StepView>,
)
    requires
        sourcemap.wf(),
        0 <= from < sourcemap.nodes.len(),
        0 <= target < sourcemap.nodes.len(),
        sourcemap.steps_lead(from, steps, target),
    ensures
        ({
            let path = sourcemap.instance_path(from, target);
            match path.root {
                InstancePathRoot::Script => path.components.len() <= steps.len(),
                InstancePathRoot::Root => path.components.len() + 2 <= steps.len(),
            }
        }),
{
    lemma_nodes_meet(sourcemap, from, target);
    let (climb, descent) = choose|climb: int, descent: int|
        sourcemap.meet(from, target, climb, descent);
    let left = sourcemap.ancestors(from);
    let right = sourcemap.ancestors(target);
    lemma_ancestors(sourcemap, target);
    let (i, j) = lemma_walk_passes_common_ancestor(sourcemap, from, steps, target);
    assert(right.contains(left[i]));
    assert(climb <= i);
    lemma_chains_agree(sourcemap, from, target, climb, descent, i - climb);
    assert(j == descent + (i - climb)) by {
        if j < descent + (i - climb) {
            lemma_ancestors_fall(sourcemap, target, j, descent + (i - climb));
        } else if j > descent + (i - climb) {
            lemma_ancestors_fall(sourcemap, target, descent + (i - climb), j);
        }
    }
    assert(climb + descent <= steps.len());
}

/// Outside of a DataModel, instance paths start at the script; in a DataModel they start at the
/// root only where the path from the script is longer than the target is deep.
pub proof fn lemma_instance_path_start(
    sourcemap: SourcemapView,
    from: int,
    target: int,
    climb: int,
    descent: int,
)
    requires
        sourcemap.wf(),
        0 <= from < sourcemap.nodes.len(),
        0 <= target < sourcemap.nodes.len(),
        sourcemap.meet(from, target, climb, descent),
    ensures
        sourcemap.instance_path(from, target).root == InstancePathRoot::Root <==> {
            &&& sourcemap.is_datamodel
            &&& climb + descent > sourcemap.ancestors(target).len()
        },
        sourcemap.instance_path(from, target) == if sourcemap.is_datamodel && climb + descent
            > sourcemap.ancestors(target).len() {
            sourcemap.path_from_root(target)
        } else {
            sourcemap.path_from_script(target, climb, descent)
        },
{
    let (i, j) = choose|i: int, j: int| sourcemap.meet(from, target, i, j);
    lemma_first_common_is_unique(
        sourcemap.ancestors(from),
        sourcemap.ancestors(target),
        climb,
        descent,
        i,
        j,
    );
}

/// In a DataModel an instance path starts at the root exactly if the way from there is at least
/// two steps shorter than the way from the script, and then there is no shorter way from the root.
/// Elsewhere it starts at the script.
pub proof fn lemma_instance_path_start_is_nearer(
    sourcemap: SourcemapView,
    from: int,
    target: int,
    from_root: Seq<StepView>,
)
    requires
        sourcemap.wf(),
        0 <= from < sourcemap.nodes.len(),
        0 <= target < sourcemap.nodes.len(),
    ensures
        ({
            let path = sourcemap.instance_path(from, target);
            match path.root {
                InstancePathRoot::Script => sourcemap.is_datamodel && sourcemap.steps_lead(
                    0,
                    from_root,
                    target,
                ) ==> path.components.len() < from_root.len() + 2,
                InstancePathRoot::Root => {
                    &&& sourcemap.is_datamodel
                    &&& sourcemap.steps_lead(0, from_root, target) ==> path.components.len()
                        <= from_root.len()
                },
            }
        }),
{
    let (climb, descent) = lemma_nodes_meet(sourcemap, from, target);
    lemma_instance_path_start(sourcemap, from, target, climb, descent);
    let chain = sourcemap.ancestors(target);
    lemma_ancestors(sourcemap, target);
    if sourcemap.steps_lead(0, from_root, target) {
        let (i, j) = lemma_walk_passes_common_ancestor(sourcemap, 0, from_root, target);
        assert(sourcemap.ancestors(0).len() == 1);
        assert(chain[j] == 0);
        if j < chain.len() - 1 {
            lemma_ancestors_step(sourcemap, target, j);
        }
    }
}

/// The hierarchy of a node goes from the node up to the root, always to the parent.
pub proof fn lemma_hierarchy_goes_up_to_the_root(sourcemap: SourcemapView, id: int, i: int)
    requires
        sourcemap.wf(),
        0 <= id < sourcemap.nodes.len(),
    ensures
        sourcemap.ancestors(id).len() > 0,
        sourcemap.ancestors(id).first() == id,
        sourcemap.ancestors(id).last() == 0,
        0 <= i < sourcemap.ancestors(id).len() - 1 ==> {
            &&& 0 < sourcemap.ancestors(id)[i] < sourcemap.nodes.len()
            &&& sourcemap.ancestors(id)[i + 1]
                == sourcemap.nodes[sourcemap.ancestors(id)[i]].parent_id
        },
{
    lemma_ancestors(sourcemap, id);
    if 0 <= i < sourcemap.ancestors(id).len() - 1 {
        lemma_ancestors_step(sourcemap, id, i);
    }
}

/// A script that requires itself goes nowhere.
pub proof fn lemma_instance_path_to_itself(sourcemap: SourcemapView, id: int)
    requires
        sourcemap.wf(),
        0 <= id < sourcemap.nodes.len(),
    ensures
        sourcemap.instance_path(id, id).root == InstancePathRoot::Script,
        sourcemap.instance_path(id, id).components.len() == 0,
{
    lemma_ancestors(sourcemap, id);
    assert(sourcemap.meet(id, id, 0, 0));
    lemma_instance_path_start(sourcemap, id, id, 0, 0);
}

/// Whether `node` is the root of a tree or somewhere under it.
pub open spec fn in_tree(root: RojoSourcemapNode, node: RojoSourcemapNode) -> bool
    decreases root,
{
    root == node || exists|i: int|
        0 <= i < root.children@.len() && in_tree(#[trigger] root.children@[i], node)
}

/// The subtree of each child is visited in one go.
proof fn lemma_child_is_visited(
    children: Seq<RojoSourcemapNode>,
    parent_id: int,
    id: int,
    i: int,
) -> (found: (int, int))
    requires
        0 <= i < children.len(),
    ensures
        ({
            let all = child_visits(children, parent_id, id);
            let of_child = visits(children[i], parent_id, found.1);
            &&& 0 <= found.0 && found.0 + of_child.len() <= all.len()
            &&& forall|k: int|
                0 <= k < of_child.len() ==> #[trigger] of_child[k] == all[found.0 + k]
        }),
    decreases children.len(),
{
    let last = visits(children.last(), parent_id, id);
    if i == children.len() - 1 {
        (0, id)
    } else {
        let (start, child_id) = lemma_child_is_visited(
            children.drop_last(),
            parent_id,
            id + last.len(),
            i,
        );
        let rest = child_visits(children.drop_last(), parent_id, id + last.len());
        let of_child = visits(children[i], parent_id, child_id);
        assert forall|k: int| 0 <= k < of_child.len() implies #[trigger] of_child[k]
            == child_visits(children, parent_id, id)[last.len() + start + k] by {
            assert(rest[start + k] == of_child[k]);
        }
        (last.len() + start, child_id)
    }
}

/// Every node of a tree is visited.
proof fn lemma_node_is_visited(
    root: RojoSourcemapNode,
    parent_id: int,
    id: int,
    node: RojoSourcemapNode,
) -> (k: int)
    requires
        in_tree(root, node),
    ensures
        0 <= k < visits(root, parent_id, id).len(),
        visits(root, parent_id, id)[k].name == node.name@,
        visits(root, parent_id, id)[k].file_paths == listed_files(node.file_paths@),
    decreases root,
{
    if root == node {
        0
    } else {
        let i = choose|i: int|
            0 <= i < root.children@.len() && in_tree(#[trigger] root.children@[i], node);
        let (start, child_id) = lemma_child_is_visited(root.children@, id, id + 1, i);
        let k = lemma_node_is_visited(root.children@[i], id, child_id, node);
        let of_child = visits(root.children@[i], id, child_id);
        assert(of_child[k] == child_visits(root.children@, id, id + 1)[start + k]);
        1 + start + k
    }
}

/// Only nodes of the tree are visited.
proof fn lemma_visit_is_in_tree(root: RojoSourcemapNode, parent_id: int, id: int, k: int) -> (node:
    RojoSourcemapNode)
    requires
        0 <= k < visits(root, parent_id, id).len(),
    ensures
        in_tree(root, node),
        visits(root, parent_id, id)[k].file_paths == listed_files(node.file_paths@),
    decreases root,
{
    if k == 0 {
        root
    } else {
        let (i, node) = lemma_child_visit_is_in_tree(root.children@, id, id + 1, k - 1);
        assert(in_tree(root.children@[i], node));
        node
    }
}

proof fn lemma_child_visit_is_in_tree(
    children: Seq<RojoSourcemapNode>,
    parent_id: int,
    id: int,
    k: int,
) -> (found: (int, RojoSourcemapNode))
    requires
        0 <= k < child_visits(children, parent_id, id).len(),
    ensures
        0 <= found.0 < children.len(),
        in_tree(children[found.0], found.1),
        child_visits(children, parent_id, id)[k].file_paths == listed_files(
            found.1.file_paths@,
        ),
    decreases children,
{
    let last = visits(children.last(), parent_id, id);
    if k < last.len() {
        let node = lemma_visit_is_in_tree(children.last(), parent_id, id, k);
        (children.len() - 1, node)
    } else {
        let (i, node) = lemma_child_visit_is_in_tree(
            children.drop_last(),
            parent_id,
            id + last.len(),
            k - last.len(),
        );
        assert(children.drop_last()[i] == children[i]);
        (i, node)
    }
}

/// A sourcemap holds the files that the nodes of its tree list, and no others.
pub proof fn lemma_sourcemap_holds_the_listed_files(
    root: RojoSourcemapNode,
    base: PathView,
    path: PathView,
)
    ensures
        sourcemap_of(root, base).node_ids_by_path.contains_key(path) <==> exists|
            node: RojoSourcemapNode,
        | #[trigger]
            in_tree(root, node) && lists(listed_files(node.file_paths@), base, path),
{
    let all = visits(root, 0, 0);
    if sourcemap_of(root, base).node_ids_by_path.contains_key(path) {
        let id = choose|id: int| claims(all, base, id, path);
        let node = lemma_visit_is_in_tree(root, 0, 0, id);
        assert(in_tree(root, node) && lists(listed_files(node.file_paths@), base, path));
    }
    if exists|node: RojoSourcemapNode| #[trigger]
        in_tree(root, node) && lists(listed_files(node.file_paths@), base, path) {
        let node = choose|node: RojoSourcemapNode| #[trigger]
            in_tree(root, node) && lists(listed_files(node.file_paths@), base, path);
        let k = lemma_node_is_visited(root, 0, 0, node);
        assert(claims(all, base, k, path));
    }
}

} // verus!
