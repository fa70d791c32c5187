//! Rojo sourcemaps: which instance each file of a project becomes.
use crate::error::DarkluaError;
use crate::instance_path::{InstancePath, InstancePathRoot};
use crate::path_index::PathIndex;
use crate::paths::{joined, normalized, ModulePath, PathView};
use crate::sourcemap_model::{
    child_visits, claims, claims_first, first_common, ids_by_path, lemma_ancestors,
    lemma_claims_first_is_unique, lemma_first_common_is_unique, lemma_sourcemap_is_well_formed,
    listed_files, lists, sourcemap_of, steps_up, visited_nodes, visits, NodeView, SourcemapView,
    VisitView,
};
use vstd::prelude::*;

verus! {

/// The index of a node in a sourcemap.
pub type NodeId = usize;

/// A node of a Rojo sourcemap, with the subtree under it.
#[derive(Debug, PartialEq, Eq)]
pub struct RojoSourcemapNode {
    pub name: String,
    pub class_name: String,
    pub file_paths: Vec<ModulePath>,
    pub children: Vec<RojoSourcemapNode>,
}

/// Ids as integers.
pub open spec fn int_ids(ids: Seq<NodeId>) -> Seq<int> {
    ids.map_values(|id: NodeId| id as int)
}

spec fn stack_visits(stack: Seq<(RojoSourcemapNode, NodeId)>, id: int) -> Seq<VisitView>
    decreases stack.len(),
{
    if stack.len() == 0 {
        Seq::empty()
    } else {
        let top = visits(stack.last().0, stack.last().1 as int, id);
        top + stack_visits(stack.drop_last(), id + top.len())
    }
}

spec fn with_parent(
    children: Seq<RojoSourcemapNode>,
    parent_id: NodeId,
) -> Seq<(RojoSourcemapNode, NodeId)> {
    children.map_values(|child: RojoSourcemapNode| (child, parent_id))
}

proof fn lemma_stack_visits_children(
    stack: Seq<(RojoSourcemapNode, NodeId)>,
    children: Seq<RojoSourcemapNode>,
    parent_id: NodeId,
    id: int,
)
    ensures
        stack_visits(stack + with_parent(children, parent_id), id) == child_visits(
            children,
            parent_id as int,
            id,
        ) + stack_visits(stack, id + child_visits(children, parent_id as int, id).len()),
    decreases children.len(),
{
    let pushed = stack + with_parent(children, parent_id);
    if children.len() == 0 {
        assert(pushed =~= stack);
        assert(child_visits(children, parent_id as int, id) + stack_visits(stack, id)
            =~= stack_visits(stack, id));
    } else {
        let top = visits(children.last(), parent_id as int, id);
        assert(pushed.last() == (children.last(), parent_id));
        assert(pushed.drop_last() =~= stack + with_parent(children.drop_last(), parent_id));
        lemma_stack_visits_children(stack, children.drop_last(), parent_id, id + top.len());
        let rest = child_visits(children.drop_last(), parent_id as int, id + top.len());
        assert(child_visits(children, parent_id as int, id) == top + rest);
        let below = stack_visits(stack, id + top.len() + rest.len());
        assert(top + (rest + below) =~= (top + rest) + below);
    }
}

/// A node of a [`RojoSourcemap`].
#[derive(Debug, PartialEq, Eq)]
struct IndexedNode {
    name: String,
    parent_id: NodeId,
}

/// A Rojo sourcemap flattened into a list of nodes indexed by id, where the root node has id 0
/// and is its own parent.
#[derive(Debug, PartialEq, Eq)]
pub struct RojoSourcemap {
    nodes: Vec<IndexedNode>,
    node_ids_by_path: PathIndex,
    is_datamodel: bool,
}

impl View for RojoSourcemap {
    type V = SourcemapView;

    closed spec fn view(&self) -> SourcemapView {
        SourcemapView {
            nodes: node_views(self.nodes@),
            node_ids_by_path: self.node_ids_by_path@,
            is_datamodel: self.is_datamodel,
        }
    }
}

spec fn node_views(nodes: Seq<IndexedNode>) -> Seq<NodeView> {
    nodes.map_values(
        |node: IndexedNode| NodeView { name: node.name@, parent_id: node.parent_id as int },
    )
}

/// Puts the children of a node on the stack.
fn push_children(
    stack: &mut Vec<(RojoSourcemapNode, NodeId)>,
    children: Vec<RojoSourcemapNode>,
    parent_id: NodeId,
)
    ensures
        final(stack)@ == old(stack)@ + with_parent(children@, parent_id),
{
    let ghost before = stack@;
    let ghost all = children@;
    for child in iter: children.into_iter()
        invariant
            iter.seq() == all,
            stack@ =~= before + with_parent(all.take(iter.index()), parent_id),
    {
        stack.push((child, parent_id));
    }
    assert(all.take(all.len() as int) =~= all);
}

/// What the table holds once the nodes before `id`, and the first `listed` files of the node
/// with that id, have been seen.
spec fn indexed(
    index: Map<PathView, int>,
    all: Seq<VisitView>,
    base: PathView,
    id: int,
    listed: int,
) -> bool {
    forall|path: PathView|
        #![trigger index.contains_key(path)]
        {
            &&& index.contains_key(path) <==> {
                ||| exists|earlier: int| 0 <= earlier < id && claims(all, base, earlier, path)
                ||| 0 <= id < all.len() && lists(
                    all[id].file_paths.take(listed),
                    base,
                    path,
                )
            }
            &&& index.contains_key(path) ==> claims_first(all, base, index[path], path)
        }
}

impl Clone for RojoSourcemap {
    fn clone(&self) -> (copy: Self)
        ensures
            copy@ == self@,
    {
        proof {
            use_type_invariant(self);
        }
        let mut nodes: Vec<IndexedNode> = Vec::new();
        let mut i: usize = 0;
        while i < self.nodes.len()
            invariant
                i <= self.nodes.len(),
                node_views(nodes@) == node_views(self.nodes@).take(i as int),
            decreases self.nodes.len() - i,
        {
            let node = IndexedNode {
                name: self.nodes[i].name.clone(),
                parent_id: self.nodes[i].parent_id,
            };
            let ghost before = nodes@;
            nodes.push(node);
            i += 1;
            assert(node_views(nodes@) =~= node_views(before).push(
                node_views(self.nodes@)[i - 1],
            ));
        }
        assert(node_views(nodes@) =~= node_views(self.nodes@));
        RojoSourcemap {
            nodes,
            node_ids_by_path: self.node_ids_by_path.clone(),
            is_datamodel: self.is_datamodel,
        }
    }
}

impl RojoSourcemap {
    /// A sourcemap is always well-formed.
    #[verifier::type_invariant]
    pub open spec fn well_formed(self) -> bool {
        self@.wf()
    }

    /// The sourcemap of a tree whose files are listed relative to the directory `relative_to`.
    pub fn from_node(root_node: RojoSourcemapNode, relative_to: &ModulePath) -> (sourcemap:
        RojoSourcemap)
        ensures
            sourcemap@ == sourcemap_of(root_node, relative_to@),
            sourcemap@.wf(),
    {
        let ghost root = root_node;
        let ghost all = visits(root_node, 0, 0);
        let ghost base = relative_to@;
        let is_datamodel = root_node.class_name == "DataModel".to_owned();

        let mut nodes: Vec<IndexedNode> = Vec::new();
        let mut node_ids_by_path = PathIndex::new();
        let mut queue: Vec<(RojoSourcemapNode, NodeId)> = Vec::new();
        queue.push((root_node, 0));
        proof {
            assert(queue@.drop_last() =~= Seq::empty());
            assert(stack_visits(queue@.drop_last(), all.len() as int) =~= Seq::empty());
            assert(stack_visits(queue@, 0) =~= all.skip(0));
        }

        while queue.len() > 0
            invariant
                base == relative_to@,
                nodes.len() <= all.len(),
                stack_visits(queue@, nodes.len() as int) == all.skip(nodes.len() as int),
                node_views(nodes@) == visited_nodes(all.take(nodes.len() as int)),
                indexed(node_ids_by_path@, all, base, nodes.len() as int, 0),
            decreases all.len() - nodes.len(),
        {
            let id = nodes.len();
            let ghost stack = queue@;
            if let Some((node, parent_id)) = queue.pop() {
                let ghost visited = node;
                let ghost top = visits(node, parent_id as int, id as int);
                let ghost below = child_visits(node.children@, id as int, id + 1);
                proof {
                    assert(stack.last() == (node, parent_id));
                    assert(queue@ =~= stack.drop_last());
                    assert(all.skip(id as int) == top + stack_visits(queue@, id + top.len()));
                    assert(all[id as int] == all.skip(id as int)[0]);
                    assert(all[id as int] == top[0]);
                }
                let RojoSourcemapNode { name, class_name: _, file_paths, children } = node;
                let mut i: usize = 0;
                while i < file_paths.len()
                    invariant
                        base == relative_to@,
                        i <= file_paths.len(),
                        0 <= id < all.len(),
                        all[id as int].file_paths == listed_files(file_paths@),
                        indexed(node_ids_by_path@, all, base, id as int, i as int),
                    decreases file_paths.len() - i,
                {
                    let path = relative_to.join(&file_paths[i]).normalize(false);
                    proof {
                        lemma_indexed_insert(
                            node_ids_by_path@,
                            all,
                            base,
                            id as int,
                            i as int,
                            path@,
                        );
                    }
                    node_ids_by_path.insert_first(path, id);
                    i += 1;
                }
                proof {
                    lemma_indexed_next(node_ids_by_path@, all, base, id as int);
                }
                let ghost seen = nodes@;
                nodes.push(IndexedNode { name, parent_id });
                proof {
                    let added = NodeView { name: name@, parent_id: parent_id as int };
                    assert(node_views(nodes@) =~= node_views(seen).push(added));
                    assert(visited_nodes(all.take(id + 1)) =~= visited_nodes(
                        all.take(id as int),
                    ).push(added));
                }
                push_children(&mut queue, children, id);
                proof {
                    lemma_stack_visits_children(
                        stack.drop_last(),
                        visited.children@,
                        id,
                        id + 1,
                    );
                    assert(all.skip(id + 1) =~= all.skip(id as int).skip(1));
                    assert(all.skip(id + 1) =~= below + stack_visits(
                        stack.drop_last(),
                        id + top.len(),
                    ));
                }
            }
        }
        proof {
            assert(all.skip(nodes.len() as int).len() == 0);
            assert(all.take(nodes.len() as int) =~= all);
            lemma_indexed_all(node_ids_by_path@, all, base);
            lemma_sourcemap_is_well_formed(root, base);
        }
        RojoSourcemap { nodes, node_ids_by_path, is_datamodel }
    }
}

/// One more file.
proof fn lemma_indexed_insert(
    index: Map<PathView, int>,
    all: Seq<VisitView>,
    base: PathView,
    id: int,
    listed: int,
    path: PathView,
)
    requires
        indexed(index, all, base, id, listed),
        0 <= id < all.len(),
        0 <= listed < all[id].file_paths.len(),
        path == normalized(joined(base, all[id].file_paths[listed]), false),
    ensures
        indexed(
            if index.contains_key(path) {
                index
            } else {
                index.insert(path, id)
            },
            all,
            base,
            id,
            listed + 1,
        ),
{
    let files = all[id].file_paths;
    let next = if index.contains_key(path) {
        index
    } else {
        index.insert(path, id)
    };
    assert forall|other: PathView|
        #![trigger next.contains_key(other)]
        {
            &&& next.contains_key(other) <==> {
                ||| exists|earlier: int| 0 <= earlier < id && claims(all, base, earlier, other)
                ||| 0 <= id < all.len() && lists(files.take(listed + 1), base, other)
            }
            &&& next.contains_key(other) ==> claims_first(all, base, next[other], other)
        } by {
        assert(index.contains_key(other) ==> next.contains_key(other));
        if lists(files.take(listed), base, other) {
            let i = choose|i: int|
                0 <= i < files.take(listed).len() && #[trigger] normalized(
                    joined(base, files.take(listed)[i]),
                    false,
                ) == other;
            assert(files.take(listed + 1)[i] == files.take(listed)[i]);
            assert(lists(files.take(listed + 1), base, other));
        }
        if lists(files.take(listed + 1), base, other) && other != path {
            let i = choose|i: int|
                0 <= i < files.take(listed + 1).len() && #[trigger] normalized(
                    joined(base, files.take(listed + 1)[i]),
                    false,
                ) == other;
            assert(i < listed);
            assert(files.take(listed)[i] == files.take(listed + 1)[i]);
            assert(lists(files.take(listed), base, other));
        }
        if other == path {
            assert(files.take(listed + 1)[listed] == files[listed]);
            assert(lists(files.take(listed + 1), base, path));
            assert(lists(files, base, path));
            if !index.contains_key(path) {
                assert(claims_first(all, base, id, path));
            }
        }
    }
}

/// All the files of a node are seen.
proof fn lemma_indexed_next(
    index: Map<PathView, int>,
    all: Seq<VisitView>,
    base: PathView,
    id: int,
)
    requires
        0 <= id < all.len(),
        indexed(index, all, base, id, all[id].file_paths.len() as int),
    ensures
        indexed(index, all, base, id + 1, 0),
{
    let files = all[id].file_paths;
    assert(files.take(files.len() as int) =~= files);
    assert forall|path: PathView|
        #![trigger index.contains_key(path)]
        {
            &&& index.contains_key(path) <==> {
                ||| exists|earlier: int|
                    0 <= earlier < id + 1 && claims(all, base, earlier, path)
                ||| 0 <= id + 1 < all.len() && lists(
                    all[id + 1].file_paths.take(0),
                    base,
                    path,
                )
            }
            &&& index.contains_key(path) ==> claims_first(all, base, index[path], path)
        } by {
        if lists(files, base, path) {
            assert(claims(all, base, id, path));
        }
    }
}

/// All the nodes are seen.
proof fn lemma_indexed_all(index: Map<PathView, int>, all: Seq<VisitView>, base: PathView)
    requires
        indexed(index, all, base, all.len() as int, 0),
    ensures
        index == ids_by_path(all, base),
{
    assert forall|path: PathView| index.contains_key(path) == ids_by_path(
        all,
        base,
    ).contains_key(path) by {}
    assert forall|path: PathView| #[trigger] index.contains_key(path) implies index[path]
        == ids_by_path(all, base)[path] by {
        lemma_claims_first_is_unique(
            all,
            base,
            index[path],
            choose|id: int| claims_first(all, base, id, path),
            path,
        );
    }
    assert(index =~= ids_by_path(all, base));
}

fn position(ids: &Vec<NodeId>, id: NodeId) -> (found: Option<usize>)
    ensures
        match found {
            Some(i) => i < ids.len() && ids@[i as int] == id && forall|k: int|
                0 <= k < i ==> #[trigger] ids@[k] != id,
            None => !ids@.contains(id),
        },
{
    let mut i: usize = 0;
    while i < ids.len()
        invariant
            i <= ids.len(),
            forall|k: int| 0 <= k < i ==> #[trigger] ids@[k] != id,
        decreases ids.len() - i,
    {
        if ids[i] == id {
            return Some(i);
        }
        i += 1;
    }
    None
}

/// Where two chains that end in the root first meet.
fn nearest_common(from: &Vec<NodeId>, target: &Vec<NodeId>) -> (found: (usize, usize))
    requires
        from.len() > 0 && target.len() > 0,
        int_ids(from@).last() == 0 && int_ids(target@).last() == 0,
    ensures
        first_common(int_ids(from@), int_ids(target@), found.0 as int, found.1 as int),
{
    let ghost left = int_ids(from@);
    let ghost right = int_ids(target@);
    let mut climb: usize = 0;
    while climb < from.len() - 1
        invariant
            from.len() > 0 && target.len() > 0,
            climb < from.len(),
            left == int_ids(from@),
            right == int_ids(target@),
            forall|k: int| 0 <= k < climb ==> !right.contains(#[trigger] left[k]),
        decreases from.len() - climb,
    {
        if let Some(descent) = position(target, from[climb]) {
            return (climb, descent);
        }
        proof {
            if right.contains(left[climb as int]) {
                let k = choose|k: int| 0 <= k < right.len() && right[k] == left[climb as int];
                assert(target@[k] == from@[climb as int]);
            }
        }
        climb += 1;
    }
    let mut descent: usize = 0;
    if let Some(index) = position(target, from[climb]) {
        descent = index;
    } else {
        assert(target@[target.len() - 1] == from@[climb as int]);
    }
    (climb, descent)
}

/// The first `count` ids, the last one first.
fn reversed(ids: &Vec<NodeId>, count: usize) -> (result: Vec<NodeId>)
    requires
        count <= ids.len(),
    ensures
        int_ids(result@) == int_ids(ids@).take(count as int).reverse(),
        forall|i: int| 0 <= i < result.len() ==> ids@.contains(#[trigger] result@[i]),
{
    let mut result: Vec<NodeId> = Vec::new();
    let mut left: usize = count;
    while left > 0
        invariant
            left <= count <= ids.len(),
            result.len() == count - left,
            forall|k: int|
                0 <= k < result.len() ==> #[trigger] result@[k] == ids@[count - 1 - k],
        decreases left,
    {
        left -= 1;
        result.push(ids[left]);
    }
    assert(int_ids(result@) =~= int_ids(ids@).take(count as int).reverse());
    result
}

impl RojoSourcemap {
    /// The sourcemap that the given content describes, once it is decoded, with its files listed
    /// relative to the directory `relative_to`.
    pub fn parse<D>(content: &str, relative_to: &ModulePath, decode: D) -> (result: Result<
        RojoSourcemap,
        DarkluaError,
    >) where D: FnOnce(&str) -> Result<RojoSourcemapNode, DarkluaError>
        requires
            call_requires(decode, (content,)),
        ensures
            exists|reply: Result<RojoSourcemapNode, DarkluaError>|
                {
                    &&& #[trigger] call_ensures(decode, (content,), reply)
                    &&& match reply {
                        Ok(root) => result matches Ok(sourcemap) && sourcemap@ == sourcemap_of(
                            root,
                            relative_to@,
                        ),
                        Err(reason) => result matches Err(error) && error == reason,
                    }
                },
    {
        match decode(content) {
            Ok(root_node) => Ok(RojoSourcemap::from_node(root_node, relative_to)),
            Err(error) => Err(error),
        }
    }

    /// Whether the file at `path` is in the sourcemap.
    pub fn contains(&self, path: &ModulePath) -> (found: bool)
        ensures
            found == self@.node_ids_by_path.contains_key(path@),
    {
        self.node_ids_by_path.get(path).is_some()
    }

    /// Returns the ids of each ancestor of the given node and itself.
    pub fn hierarchy(&self, node_id: NodeId) -> (ids: Vec<NodeId>)
        requires
            node_id < self@.nodes.len(),
        ensures
            int_ids(ids@) == self@.ancestors(node_id as int),
    {
        proof {
            use_type_invariant(self);
        }
        let mut ids: Vec<NodeId> = Vec::new();
        ids.push(node_id);
        let mut current_id = node_id;
        assert(int_ids(ids@) =~= seq![node_id as int]);
        assert(int_ids(ids@).drop_last() + self@.ancestors(current_id as int)
            =~= self@.ancestors(node_id as int));
        while current_id != 0
            invariant
                self@.wf(),
                self@.nodes == node_views(self.nodes@),
                current_id < self@.nodes.len(),
                ids.len() > 0,
                int_ids(ids@).last() == current_id,
                int_ids(ids@).drop_last() + self@.ancestors(current_id as int)
                    == self@.ancestors(node_id as int),
            decreases current_id,
        {
            let ghost before = ids@;
            assert(self@.nodes[current_id as int].parent_id
                == self.nodes@[current_id as int].parent_id);
            assert(self@.ancestors(current_id as int) == seq![current_id as int]
                + self@.ancestors(self@.nodes[current_id as int].parent_id));
            current_id = self.nodes[current_id].parent_id;
            ids.push(current_id);
            proof {
                assert(int_ids(ids@).drop_last() =~= int_ids(before));
                assert(int_ids(before) =~= int_ids(before).drop_last().push(
                    int_ids(before).last(),
                ));
                assert(int_ids(ids@).drop_last() + self@.ancestors(current_id as int)
                    =~= int_ids(before).drop_last() + (seq![int_ids(before).last()]
                    + self@.ancestors(current_id as int)));
            }
        }
        assert(int_ids(ids@) =~= int_ids(ids@).drop_last() + seq![0int]);
        ids
    }

    /// Goes on from the end of an instance path down through the given nodes.
    pub fn index_descendants(
        &self,
        instance_path: InstancePath,
        descendants: &Vec<NodeId>,
    ) -> (path: InstancePath)
        requires
            forall|i: int|
                0 <= i < descendants.len() ==> #[trigger] descendants@[i] < self@.nodes.len(),
        ensures
            path@ == instance_path@.then_steps(self@.steps_down(int_ids(descendants@))),
    {
        let ghost ids = int_ids(descendants@);
        let ghost start = instance_path@;
        let mut instance_path = instance_path;
        let mut i: usize = 0;
        assert(instance_path@.components =~= start.components + self@.steps_down(ids).take(0));
        while i < descendants.len()
            invariant
                forall|k: int|
                    0 <= k < descendants.len() ==> #[trigger] descendants@[k]
                        < self@.nodes.len(),
                i <= descendants.len(),
                self@.nodes == node_views(self.nodes@),
                ids == int_ids(descendants@),
                instance_path@.root == start.root,
                instance_path@.components == start.components + self@.steps_down(ids).take(
                    i as int,
                ),
            decreases descendants.len() - i,
        {
            let descendant_id = descendants[i];
            let ghost before = instance_path@.components;
            instance_path.child(self.nodes[descendant_id].name.as_str());
            i += 1;
            proof {
                assert(ids[i - 1] == descendant_id);
                assert(self@.nodes[descendant_id as int].name
                    == self.nodes@[descendant_id as int].name@);
                assert(instance_path@.components =~= start.components + self@.steps_down(
                    ids,
                ).take(i as int));
            }
        }
        assert(self@.steps_down(ids).take(i as int) =~= self@.steps_down(ids));
        instance_path
    }

    /// The path from the instance of one file to the instance of another, if both files are in
    /// the sourcemap.
    pub fn get_instance_path(
        &self,
        from_file: &ModulePath,
        target_file: &ModulePath,
    ) -> (path: Option<InstancePath>)
        ensures
            self@.wf(),
            match path {
                Some(path) => {
                    &&& self@.node_ids_by_path.contains_key(from_file@)
                    &&& self@.node_ids_by_path.contains_key(target_file@)
                    &&& path@ == self@.instance_path(
                        self@.node_ids_by_path[from_file@],
                        self@.node_ids_by_path[target_file@],
                    )
                },
                None => !self@.node_ids_by_path.contains_key(from_file@)
                    || !self@.node_ids_by_path.contains_key(target_file@),
            },
    {
        proof {
            use_type_invariant(self);
        }
        let from_node = match self.node_ids_by_path.get(from_file) {
            Some(id) => id,
            None => {
                return None;
            },
        };
        let target_node = match self.node_ids_by_path.get(target_file) {
            Some(id) => id,
            None => {
                return None;
            },
        };

        let from_ancestors = self.hierarchy(from_node);
        let target_ancestors = self.hierarchy(target_node);
        let ghost left = self@.ancestors(from_node as int);
        let ghost right = self@.ancestors(target_node as int);
        proof {
            lemma_ancestors(self@, from_node as int);
            lemma_ancestors(self@, target_node as int);
            assert forall|id: NodeId| #[trigger] target_ancestors@.contains(id) implies id
                < self@.nodes.len() by {
                let k = choose|k: int|
                    0 <= k < target_ancestors.len() && target_ancestors@[k] == id;
                assert(right[k] == id);
            }
        }

        let (climb, descent) = nearest_common(&from_ancestors, &target_ancestors);
        proof {
            let (i, j) = choose|i: int, j: int|
                self@.meet(from_node as int, target_node as int, i, j);
            assert(self@.meet(from_node as int, target_node as int, climb as int, descent as int));
            lemma_first_common_is_unique(left, right, climb as int, descent as int, i, j);
        }

        let relative_path_length = climb.saturating_add(descent);
        proof {
            // A chain as long as the largest length holds every node, so nothing is climbed.
            if climb + descent > usize::MAX && right.len() == usize::MAX {
                assert(self@.nodes.len() == self.nodes.len());
                assert(target_node + 1 == right.len());
                assert(right.contains(from_node as int));
                assert(!right.contains(left[0]));
            }
        }

        if !self.is_datamodel || relative_path_length <= target_ancestors.len() {
            let mut instance_path = InstancePath::from_script();
            let mut i: usize = 0;
            while i < climb
                invariant
                    i <= climb,
                    instance_path@.root == InstancePathRoot::Script,
                    instance_path@.components =~= steps_up(i as int),
                decreases climb - i,
            {
                instance_path.parent();
                i += 1;
            }
            let descendants = reversed(&target_ancestors, descent);
            Some(self.index_descendants(instance_path, &descendants))
        } else {
            let descendants = reversed(&target_ancestors, target_ancestors.len() - 1);
            Some(self.index_descendants(InstancePath::from_root(), &descendants))
        }
    }
}

} // verus!
