//! What an indexed sourcemap has to do with the tree that it was made from.
use crate::instance_path::{InstancePathRoot, StepView};
use crate::paths::{joined, normalized, PathView};
use crate::rojo_sourcemap::RojoSourcemapNode;
use crate::sourcemap_laws::{
    lemma_instance_path_is_shortest, lemma_instance_path_leads_to_target,
    lemma_instance_path_start_is_nearer,
};
use crate::sourcemap_model::{
    child_visits, claims, claims_first, lemma_claims_first_exists, lemma_claims_first_is_unique,
    lemma_sourcemap_is_well_formed, listed_files, lists, sourcemap_of, visits, VisitView,
};
use vstd::prelude::*;

verus! {

/// The node that a route leads to: each index picks a child.
pub open spec fn node_at(root: RojoSourcemapNode, route: Seq<int>) -> Option<RojoSourcemapNode>
    decreases route.len(),
{
    if route.len() == 0 {
        Some(root)
    } else {
        match node_at(root, route.drop_last()) {
            Some(node) => if 0 <= route.last() < node.children@.len() {
                Some(node.children@[route.last()])
            } else {
                None
            },
            None => None,
        }
    }
}

/// Whether one route comes before another on the walk through a tree: a node comes before what is
/// under it, and the last child of a node, with what is under it, comes first.
pub open spec fn comes_before(route: Seq<int>, other: Seq<int>) -> bool {
    exists|n: int| #[trigger] parts_before(route, other, n)
}

/// Whether one route comes before another, and they part after the given number of steps.
pub open spec fn parts_before(route: Seq<int>, other: Seq<int>, n: int) -> bool {
    &&& 0 <= n <= route.len()
    &&& n < other.len()
    &&& route.take(n) == other.take(n)
    &&& n < route.len() ==> route[n] > other[n]
}

/// Whether the node that a route leads to lists the file at `path`, where files are listed
/// relative to the directory `base`.
pub open spec fn lists_file(
    root: RojoSourcemapNode,
    base: PathView,
    route: Seq<int>,
    path: PathView,
) -> bool {
    node_at(root, route) matches Some(node) && exists|i: int|
        0 <= i < node.file_paths@.len() && normalized(
            joined(base, (#[trigger] node.file_paths@[i])@),
            false,
        ) == path
}

/// Whether the node that a route leads to is the first one on the walk that lists the file.
pub open spec fn lists_file_first(
    root: RojoSourcemapNode,
    base: PathView,
    route: Seq<int>,
    path: PathView,
) -> bool {
    &&& lists_file(root, base, route, path)
    &&& forall|other: Seq<int>| #[trigger]
        lists_file(root, base, other, path) ==> other == route || comes_before(route, other)
}

/// Where the visits of the child `i` start among those of all the children.
spec fn child_start(children: Seq<RojoSourcemapNode>, parent_id: int, id: int, i: int) -> int
    decreases children.len(),
{
    if children.len() == 0 || i == children.len() - 1 {
        0
    } else {
        let last = visits(children.last(), parent_id, id);
        last.len() + child_start(children.drop_last(), parent_id, id + last.len(), i)
    }
}

spec fn child_block(
    children: Seq<RojoSourcemapNode>,
    parent_id: int,
    id: int,
    i: int,
) -> bool {
    let start = child_start(children, parent_id, id, i);
    let all = child_visits(children, parent_id, id);
    let of_child = visits(children[i], parent_id, id + start);
    &&& 0 <= start && start + of_child.len() <= all.len()
    &&& all.subrange(start, start + of_child.len()) == of_child
}

proof fn lemma_child_block(children: Seq<RojoSourcemapNode>, parent_id: int, id: int, i: int)
    requires
        0 <= i < children.len(),
    ensures
        child_block(children, parent_id, id, i),
    decreases children.len(),
{
    let last = visits(children.last(), parent_id, id);
    let all = child_visits(children, parent_id, id);
    if i == children.len() - 1 {
        assert(all.subrange(0, last.len() as int) =~= last);
    } else {
        let rest = child_visits(children.drop_last(), parent_id, id + last.len());
        lemma_child_block(children.drop_last(), parent_id, id + last.len(), i);
        let start = child_start(children.drop_last(), parent_id, id + last.len(), i);
        let of_child = visits(children[i], parent_id, id + last.len() + start);
        assert(children.drop_last()[i] == children[i]);
        assert(all.subrange(last.len() + start, last.len() + start + of_child.len())
            =~= rest.subrange(start, start + of_child.len()));
    }
}

/// The later of two children is visited before the other.
proof fn lemma_child_order(
    children: Seq<RojoSourcemapNode>,
    parent_id: int,
    id: int,
    i: int,
    j: int,
)
    requires
        0 <= j < i < children.len(),
    ensures
        ({
            let start = child_start(children, parent_id, id, i);
            start + visits(children[i], parent_id, id + start).len() <= child_start(
                children,
                parent_id,
                id,
                j,
            )
        }),
    decreases children.len(),
{
    let last = visits(children.last(), parent_id, id);
    if i == children.len() - 1 {
        lemma_child_block(children.drop_last(), parent_id, id + last.len(), j);
    } else {
        lemma_child_order(children.drop_last(), parent_id, id + last.len(), i, j);
        assert(children.drop_last()[i] == children[i]);
    }
}

/// Each of the visits is one of a child.
proof fn lemma_visit_of_child(
    children: Seq<RojoSourcemapNode>,
    parent_id: int,
    id: int,
    k: int,
) -> (i: int)
    requires
        0 <= k < child_visits(children, parent_id, id).len(),
    ensures
        0 <= i < children.len(),
        child_start(children, parent_id, id, i) <= k,
        k < child_start(children, parent_id, id, i) + visits(
            children[i],
            parent_id,
            id + child_start(children, parent_id, id, i),
        ).len(),
    decreases children.len(),
{
    let last = visits(children.last(), parent_id, id);
    if k < last.len() {
        children.len() - 1
    } else {
        let i = lemma_visit_of_child(
            children.drop_last(),
            parent_id,
            id + last.len(),
            k - last.len(),
        );
        assert(children.drop_last()[i] == children[i]);
        i
    }
}

/// The id of the node that a route leads to.
spec fn id_at(root: RojoSourcemapNode, route: Seq<int>) -> int
    decreases route.len(),
{
    if route.len() == 0 {
        0
    } else {
        let parent = id_at(root, route.drop_last());
        parent + 1 + child_start(
            node_at(root, route.drop_last())->0.children@,
            parent,
            parent + 1,
            route.last(),
        )
    }
}

spec fn parent_id_at(root: RojoSourcemapNode, route: Seq<int>) -> int {
    if route.len() == 0 {
        0
    } else {
        id_at(root, route.drop_last())
    }
}

/// The visits of the subtree that a route leads to.
spec fn visits_at(root: RojoSourcemapNode, route: Seq<int>) -> Seq<VisitView> {
    visits(node_at(root, route)->0, parent_id_at(root, route), id_at(root, route))
}

/// The subtree that a route leads to is visited in one go, from the id of its root on.
proof fn lemma_subtree_block(root: RojoSourcemapNode, route: Seq<int>)
    requires
        node_at(root, route) is Some,
    ensures
        ({
            let all = visits(root, 0, 0);
            let id = id_at(root, route);
            let block = visits_at(root, route);
            &&& 0 <= id && id + block.len() <= all.len()
            &&& block.len() > 0
            &&& all.subrange(id, id + block.len()) == block
        }),
    decreases route.len(),
{
    let all = visits(root, 0, 0);
    if route.len() == 0 {
        assert(all.subrange(0, all.len() as int) =~= all);
    } else {
        let up = route.drop_last();
        let node = node_at(root, up)->0;
        let parent = id_at(root, up);
        let i = route.last();
        lemma_subtree_block(root, up);
        lemma_child_block(node.children@, parent, parent + 1, i);
        let outer = visits_at(root, up);
        let below = child_visits(node.children@, parent, parent + 1);
        let start = child_start(node.children@, parent, parent + 1, i);
        let block = visits_at(root, route);
        assert(outer.len() == below.len() + 1);
        assert forall|k: int| 0 <= k < block.len() implies #[trigger] block[k] == all[parent + 1
            + start + k] by {
            assert(below.subrange(start, start + block.len())[k] == below[start + k]);
            assert(outer[1 + start + k] == below[start + k]);
            assert(all.subrange(parent, parent + outer.len())[1 + start + k] == all[parent + 1
                + start + k]);
        }
        assert(all.subrange(id_at(root, route), id_at(root, route) + block.len()) =~= block);
    }
}

/// What a route goes through is there.
proof fn lemma_route_start(root: RojoSourcemapNode, route: Seq<int>, n: int)
    requires
        node_at(root, route) is Some,
        0 <= n <= route.len(),
    ensures
        node_at(root, route.take(n)) is Some,
    decreases route.len(),
{
    if n == route.len() {
        assert(route.take(n) =~= route);
    } else {
        lemma_route_start(root, route.drop_last(), n);
        assert(route.drop_last().take(n) =~= route.take(n));
    }
}

/// A node is visited within the subtree of each of its ancestors, and after them.
proof fn lemma_visited_within(root: RojoSourcemapNode, route: Seq<int>, n: int)
    requires
        node_at(root, route) is Some,
        0 <= n <= route.len(),
    ensures
        node_at(root, route.take(n)) is Some,
        id_at(root, route.take(n)) <= id_at(root, route),
        n < route.len() ==> id_at(root, route.take(n)) < id_at(root, route),
        id_at(root, route) + visits_at(root, route).len() <= id_at(root, route.take(n))
            + visits_at(root, route.take(n)).len(),
    decreases route.len(),
{
    if n == route.len() {
        assert(route.take(n) =~= route);
    } else {
        let up = route.drop_last();
        lemma_visited_within(root, up, n);
        assert(up.take(n) =~= route.take(n));
        let parent = id_at(root, up);
        lemma_child_block(node_at(root, up)->0.children@, parent, parent + 1, route.last());
    }
}

/// Ids follow the walk.
proof fn lemma_ids_follow_the_walk(root: RojoSourcemapNode, route: Seq<int>, other: Seq<int>)
    requires
        node_at(root, route) is Some,
        node_at(root, other) is Some,
        comes_before(route, other),
    ensures
        id_at(root, route) < id_at(root, other),
{
    let n = choose|n: int| #[trigger] parts_before(route, other, n);
    if n == route.len() {
        assert(route.take(n) =~= route);
        lemma_visited_within(root, other, n);
    } else {
        let up = route.take(n);
        lemma_route_start(root, route, n + 1);
        lemma_route_start(root, other, n + 1);
        lemma_visited_within(root, route, n + 1);
        lemma_visited_within(root, other, n + 1);
        lemma_subtree_block(root, route);
        assert(route.take(n + 1).drop_last() =~= up);
        assert(other.take(n + 1).drop_last() =~= up);
        assert(route.take(n + 1).last() == route[n]);
        assert(other.take(n + 1).last() == other[n]);
        let parent = id_at(root, up);
        lemma_child_order(
            node_at(root, up)->0.children@,
            parent,
            parent + 1,
            route[n],
            other[n],
        );
    }
}

/// Of two routes one comes before the other.
proof fn lemma_routes_are_ordered(route: Seq<int>, other: Seq<int>, n: int)
    requires
        0 <= n <= route.len(),
        n <= other.len(),
        route.take(n) == other.take(n),
        route != other,
    ensures
        comes_before(route, other) || comes_before(other, route),
    decreases route.len() - n,
{
    if n < route.len() && n < other.len() && route[n] == other[n] {
        assert(route.take(n + 1) =~= route.take(n).push(route[n]));
        assert(other.take(n + 1) =~= other.take(n).push(other[n]));
        lemma_routes_are_ordered(route, other, n + 1);
    } else if n == route.len() && n == other.len() {
        assert(route.take(n) =~= route);
        assert(other.take(n) =~= other);
    } else if n < other.len() && (n == route.len() || route[n] > other[n]) {
        assert(parts_before(route, other, n));
    } else {
        assert(parts_before(other, route, n));
    }
}

/// Different routes lead to different ids.
proof fn lemma_ids_are_distinct(root: RojoSourcemapNode, route: Seq<int>, other: Seq<int>)
    requires
        node_at(root, route) is Some,
        node_at(root, other) is Some,
        id_at(root, route) == id_at(root, other),
    ensures
        route == other,
{
    if route != other {
        assert(route.take(0) =~= other.take(0));
        lemma_routes_are_ordered(route, other, 0);
        if comes_before(route, other) {
            lemma_ids_follow_the_walk(root, route, other);
        } else {
            lemma_ids_follow_the_walk(root, other, route);
        }
    }
}

/// Every id in the subtree at `start` has a route.
proof fn lemma_route_to_id(
    root: RojoSourcemapNode,
    start: Seq<int>,
    node: RojoSourcemapNode,
    id: int,
) -> (route: Seq<int>)
    requires
        node_at(root, start) == Some(node),
        id_at(root, start) <= id < id_at(root, start) + visits_at(root, start).len(),
    ensures
        node_at(root, route) is Some,
        id_at(root, route) == id,
    decreases node,
{
    let first = id_at(root, start);
    if id == first {
        start
    } else {
        let i = lemma_visit_of_child(node.children@, first, first + 1, id - first - 1);
        let next = start.push(i);
        assert(next.drop_last() =~= start);
        assert(next.last() == i);
        lemma_route_to_id(root, next, node.children@[i], id)
    }
}

proof fn lemma_lists_file(
    root: RojoSourcemapNode,
    base: PathView,
    route: Seq<int>,
    path: PathView,
)
    requires
        node_at(root, route) is Some,
    ensures
        lists_file(root, base, route, path) <==> claims(
            visits(root, 0, 0),
            base,
            id_at(root, route),
            path,
        ),
        visits(root, 0, 0)[id_at(root, route)].name == node_at(root, route)->0.name@,
        visits(root, 0, 0)[id_at(root, route)].parent_id == parent_id_at(root, route),
        0 <= id_at(root, route) < visits(root, 0, 0).len(),
{
    let all = visits(root, 0, 0);
    let id = id_at(root, route);
    let node = node_at(root, route)->0;
    lemma_subtree_block(root, route);
    let block = visits_at(root, route);
    assert(all.subrange(id, id + block.len())[0] == all[id]);
    assert(all[id] == block[0]);
    let files = all[id].file_paths;
    assert(files == listed_files(node.file_paths@));
    if lists_file(root, base, route, path) {
        let i = choose|i: int|
            0 <= i < node.file_paths@.len() && normalized(
                joined(base, (#[trigger] node.file_paths@[i])@),
                false,
            ) == path;
        assert(files[i] == node.file_paths@[i]@);
        assert(lists(files, base, path));
    }
    if lists(files, base, path) {
        let i = choose|i: int|
            0 <= i < files.len() && #[trigger] normalized(joined(base, files[i]), false) == path;
        assert(files[i] == node.file_paths@[i]@);
        assert(lists_file(root, base, route, path));
    }
}

/// Whether an id is the one of some node of a tree.
pub open spec fn belongs_to_a_node(
    root: RojoSourcemapNode,
    id_of: spec_fn(Seq<int>) -> int,
    id: int,
) -> bool {
    exists|route: Seq<int>| node_at(root, route) is Some && #[trigger] id_of(route) == id
}

/// The table mirrors the tree.
///
/// Each route to a node of the tree has an id of its own, and every id belongs to a route. The
/// root has id 0. The table holds at the id of a node its name, and the id of the node that has
/// it among its children; the root is its own parent. Ids follow the walk through the tree.
/// A file is in the sourcemap exactly if some node lists it, and then it belongs to the first
/// node on the walk that does. The tree is a DataModel if the class of its root says so.
pub proof fn lemma_table_mirrors_the_tree(root: RojoSourcemapNode, base: PathView) -> (id_of:
    spec_fn(Seq<int>) -> int)
    ensures
        sourcemap_of(root, base).is_datamodel <==> root.class_name@ == "DataModel"@,
        id_of(Seq::empty()) == 0,
        sourcemap_of(root, base).nodes[0].parent_id == 0,
        forall|route: Seq<int>|
            (#[trigger] node_at(root, route)) is Some ==> {
                &&& 0 <= id_of(route) < sourcemap_of(root, base).nodes.len()
                &&& sourcemap_of(root, base).nodes[id_of(route)].name == node_at(
                    root,
                    route,
                )->0.name@
                &&& route.len() > 0 ==> sourcemap_of(root, base).nodes[id_of(route)].parent_id
                    == id_of(route.drop_last())
            },
        forall|id: int|
            0 <= id < sourcemap_of(root, base).nodes.len() ==> #[trigger] belongs_to_a_node(
                root,
                id_of,
                id,
            ),
        forall|route: Seq<int>, other: Seq<int>|
            #![trigger node_at(root, route), node_at(root, other)]
            node_at(root, route) is Some && node_at(root, other) is Some ==> {
                &&& id_of(route) < id_of(other) <==> comes_before(route, other)
                &&& id_of(route) == id_of(other) ==> route == other
            },
        forall|path: PathView|
            (#[trigger] sourcemap_of(root, base).node_ids_by_path.contains_key(path)) <==> (exists|
                route: Seq<int>,
            | lists_file(root, base, route, path)),
        forall|path: PathView, route: Seq<int>| #[trigger]
            lists_file_first(root, base, route, path) ==> sourcemap_of(
                root,
                base,
            ).node_ids_by_path.contains_key(path) && sourcemap_of(root, base).node_ids_by_path[path]
                == id_of(route),
        forall|path: PathView| #[trigger]
            sourcemap_of(root, base).node_ids_by_path.contains_key(path) ==> exists|
                route: Seq<int>,
            | lists_file_first(root, base, route, path),
{
    let sourcemap = sourcemap_of(root, base);
    let all = visits(root, 0, 0);
    let id_of = |route: Seq<int>| id_at(root, route);
    lemma_sourcemap_is_well_formed(root, base);
    assert forall|route: Seq<int>| (#[trigger] node_at(root, route)) is Some implies {
        &&& 0 <= id_of(route) < sourcemap.nodes.len()
        &&& sourcemap.nodes[id_of(route)].name == node_at(root, route)->0.name@
        &&& route.len() > 0 ==> sourcemap.nodes[id_of(route)].parent_id == id_of(
            route.drop_last(),
        )
    } by {
        lemma_lists_file(root, base, route, PathView::empty());
    }
    assert forall|id: int| 0 <= id < sourcemap.nodes.len() implies #[trigger] belongs_to_a_node(
        root,
        id_of,
        id,
    ) by {
        let route = lemma_route_to_id(root, Seq::empty(), root, id);
        assert(id_of(route) == id);
    }
    assert forall|route: Seq<int>, other: Seq<int>|
        #![trigger node_at(root, route), node_at(root, other)]
        node_at(root, route) is Some && node_at(root, other) is Some implies {
        &&& id_of(route) < id_of(other) <==> comes_before(route, other)
        &&& id_of(route) == id_of(other) ==> route == other
    } by {
        if comes_before(route, other) {
            lemma_ids_follow_the_walk(root, route, other);
        } else if route != other {
            assert(route.take(0) =~= other.take(0));
            lemma_routes_are_ordered(route, other, 0);
            lemma_ids_follow_the_walk(root, other, route);
        }
    }
    assert forall|path: PathView| #[trigger]
        sourcemap.node_ids_by_path.contains_key(path) implies exists|route: Seq<int>|
        lists_file_first(root, base, route, path) by {
        lemma_first_listing_exists(root, base, path);
    }
    assert forall|path: PathView|
        (#[trigger] sourcemap.node_ids_by_path.contains_key(path)) <==> (exists|route: Seq<int>|
            lists_file(root, base, route, path)) by {
        if sourcemap.node_ids_by_path.contains_key(path) {
            let route = choose|route: Seq<int>| lists_file_first(root, base, route, path);
            assert(lists_file(root, base, route, path));
        }
        if exists|route: Seq<int>| lists_file(root, base, route, path) {
            let route = choose|route: Seq<int>| lists_file(root, base, route, path);
            lemma_lists_file(root, base, route, path);
            assert(claims(all, base, id_at(root, route), path));
        }
    }
    assert forall|path: PathView, route: Seq<int>| #[trigger]
        lists_file_first(root, base, route, path) implies sourcemap.node_ids_by_path.contains_key(
        path,
    ) && sourcemap.node_ids_by_path[path] == id_of(route) by {
        lemma_first_listing_is_claimed_first(root, base, route, path);
        lemma_claims_first_is_unique(
            all,
            base,
            id_at(root, route),
            sourcemap.node_ids_by_path[path],
            path,
        );
    }
    id_of
}

/// The first node that lists a file is the first one that is visited.
proof fn lemma_first_listing_is_claimed_first(
    root: RojoSourcemapNode,
    base: PathView,
    route: Seq<int>,
    path: PathView,
)
    requires
        lists_file_first(root, base, route, path),
    ensures
        claims_first(visits(root, 0, 0), base, id_at(root, route), path),
{
    let all = visits(root, 0, 0);
    lemma_lists_file(root, base, route, path);
    assert forall|earlier: int| 0 <= earlier < id_at(root, route) implies !claims(
        all,
        base,
        earlier,
        path,
    ) by {
        if claims(all, base, earlier, path) {
            let other = lemma_route_to_id(root, Seq::empty(), root, earlier);
            lemma_lists_file(root, base, other, path);
            assert(lists_file(root, base, other, path));
            if other != route {
                lemma_ids_follow_the_walk(root, route, other);
            }
        }
    }
}

proof fn lemma_first_listing_exists(root: RojoSourcemapNode, base: PathView, path: PathView)
    requires
        sourcemap_of(root, base).node_ids_by_path.contains_key(path),
    ensures
        exists|route: Seq<int>| lists_file_first(root, base, route, path),
{
    let all = visits(root, 0, 0);
    let some_id = choose|id: int| claims(all, base, id, path);
    lemma_claims_first_exists(all, base, some_id, path);
    let id = choose|id: int| claims_first(all, base, id, path);
    let route = lemma_route_to_id(root, Seq::empty(), root, id);
    lemma_lists_file(root, base, route, path);
    assert forall|other: Seq<int>| #[trigger]
        lists_file(root, base, other, path) implies other == route || comes_before(
        route,
        other,
    ) by {
        lemma_lists_file(root, base, other, path);
        if other != route {
            assert(route.take(0) =~= other.take(0));
            lemma_routes_are_ordered(route, other, 0);
            if comes_before(other, route) {
                lemma_ids_follow_the_walk(root, other, route);
            }
        }
    }
    assert(lists_file_first(root, base, route, path));
}

/// Whether one step goes from one node of a tree to another: to the node that has it among its
/// children, or to a child with the given name.
pub open spec fn tree_step(
    root: RojoSourcemapNode,
    route: Seq<int>,
    step: StepView,
    next: Seq<int>,
) -> bool {
    match step {
        StepView::Parent => {
            &&& route.len() > 0
            &&& next == route.drop_last()
        },
        StepView::Child(name) => {
            &&& next.len() > 0
            &&& next.drop_last() == route
            &&& node_at(root, next) matches Some(node) && node.name@ == name
        },
    }
}

/// Whether the steps can be followed through a tree from one node to another.
pub open spec fn tree_walk(
    root: RojoSourcemapNode,
    start: Seq<int>,
    steps: Seq<StepView>,
    end: Seq<int>,
) -> bool
    decreases steps.len(),
{
    if steps.len() == 0 {
        start == end
    } else {
        exists|route: Seq<int>|
            tree_walk(root, start, steps.drop_last(), route) && #[trigger] tree_step(
                root,
                route,
                steps.last(),
                end,
            )
    }
}

/// Steps that can be followed through the table can be followed through the tree.
proof fn lemma_table_walk_is_tree_walk(
    root: RojoSourcemapNode,
    base: PathView,
    start: Seq<int>,
    steps: Seq<StepView>,
    end: Seq<int>,
)
    requires
        node_at(root, start) is Some,
        node_at(root, end) is Some,
        sourcemap_of(root, base).steps_lead(id_at(root, start), steps, id_at(root, end)),
    ensures
        tree_walk(root, start, steps, end),
    decreases steps.len(),
{
    let sourcemap = sourcemap_of(root, base);
    if steps.len() == 0 {
        lemma_ids_are_distinct(root, start, end);
    } else {
        let id = choose|id: int|
            sourcemap.steps_lead(id_at(root, start), steps.drop_last(), id)
                && #[trigger] sourcemap.step_leads(id, steps.last(), id_at(root, end));
        lemma_sourcemap_is_well_formed(root, base);
        lemma_lists_file(root, base, end, PathView::empty());
        let route = match steps.last() {
            StepView::Parent => lemma_route_to_id(root, Seq::empty(), root, id),
            StepView::Child(_) => end.drop_last(),
        };
        match steps.last() {
            StepView::Parent => {
                lemma_lists_file(root, base, route, PathView::empty());
                assert(sourcemap.nodes[id].parent_id == id_at(root, route.drop_last()));
                lemma_ids_are_distinct(root, route.drop_last(), end);
            },
            StepView::Child(_) => {
                assert(end.len() > 0);
                assert(id_at(root, route) == id);
            },
        }
        lemma_table_walk_is_tree_walk(root, base, start, steps.drop_last(), route);
        assert(tree_step(root, route, steps.last(), end));
    }
}

/// Steps that can be followed through the tree can be followed through the table.
proof fn lemma_tree_walk_is_table_walk(
    root: RojoSourcemapNode,
    base: PathView,
    start: Seq<int>,
    steps: Seq<StepView>,
    end: Seq<int>,
)
    requires
        node_at(root, start) is Some,
        tree_walk(root, start, steps, end),
    ensures
        node_at(root, end) is Some,
        sourcemap_of(root, base).steps_lead(id_at(root, start), steps, id_at(root, end)),
    decreases steps.len(),
{
    let sourcemap = sourcemap_of(root, base);
    if steps.len() > 0 {
        let route = choose|route: Seq<int>|
            tree_walk(root, start, steps.drop_last(), route) && #[trigger] tree_step(
                root,
                route,
                steps.last(),
                end,
            );
        lemma_tree_walk_is_table_walk(root, base, start, steps.drop_last(), route);
        lemma_lists_file(root, base, route, PathView::empty());
        lemma_lists_file(root, base, end, PathView::empty());
        match steps.last() {
            StepView::Parent => {
                lemma_visited_within(root, route, 0);
                assert(route.take(0) =~= Seq::empty());
            },
            StepView::Child(_) => {
                lemma_visited_within(root, end, 0);
                assert(end.take(0) =~= Seq::empty());
            },
        }
        assert(sourcemap.step_leads(id_at(root, route), steps.last(), id_at(root, end)));
    }
}

/// The instance path between two files of a sourcemap, followed through the tree that the
/// sourcemap was made from, leads from the first node that lists the one file, or from the root,
/// to the first node that lists the other. It starts at the root exactly if the tree is a
/// DataModel and the way from there is at least two steps shorter, and it is the shortest way
/// from where it starts.
pub proof fn lemma_instance_path_leads_through_the_tree(
    root: RojoSourcemapNode,
    base: PathView,
    from_file: PathView,
    target_file: PathView,
    from: Seq<int>,
    target: Seq<int>,
)
    requires
        lists_file_first(root, base, from, from_file),
        lists_file_first(root, base, target, target_file),
    ensures
        ({
            let ids = sourcemap_of(root, base).node_ids_by_path;
            let path = sourcemap_of(root, base).instance_path(ids[from_file], ids[target_file]);
            let steps = path.components;
            &&& ids.contains_key(from_file) && ids.contains_key(target_file)
            &&& match path.root {
                InstancePathRoot::Script => {
                    &&& tree_walk(root, from, steps, target)
                    &&& root.class_name@ == "DataModel"@ ==> forall|other: Seq<StepView>| #[trigger]
                        tree_walk(root, Seq::empty(), other, target) ==> steps.len()
                            < other.len() + 2
                },
                InstancePathRoot::Root => {
                    &&& root.class_name@ == "DataModel"@
                    &&& tree_walk(root, Seq::empty(), steps, target)
                    &&& forall|other: Seq<StepView>| #[trigger]
                        tree_walk(root, Seq::empty(), other, target) ==> steps.len()
                            <= other.len()
                },
            }
            &&& forall|other: Seq<StepView>| #[trigger]
                tree_walk(root, from, other, target) ==> match path.root {
                    InstancePathRoot::Script => steps.len() <= other.len(),
                    InstancePathRoot::Root => steps.len() + 2 <= other.len(),
                }
        }),
{
    let sourcemap = sourcemap_of(root, base);
    let id_of = lemma_table_mirrors_the_tree(root, base);
    lemma_sourcemap_is_well_formed(root, base);
    let ids = sourcemap.node_ids_by_path;
    lemma_lists_file(root, base, from, from_file);
    lemma_lists_file(root, base, target, target_file);
    lemma_first_listing_is_claimed_first(root, base, from, from_file);
    lemma_first_listing_is_claimed_first(root, base, target, target_file);
    let from_id = id_at(root, from);
    let target_id = id_at(root, target);
    lemma_claims_first_is_unique(visits(root, 0, 0), base, from_id, ids[from_file], from_file);
    lemma_claims_first_is_unique(
        visits(root, 0, 0),
        base,
        target_id,
        ids[target_file],
        target_file,
    );
    let path = sourcemap.instance_path(from_id, target_id);
    lemma_instance_path_leads_to_target(sourcemap, from_id, target_id);
    let top = Seq::<int>::empty();
    match path.root {
        InstancePathRoot::Script => {
            lemma_table_walk_is_tree_walk(root, base, from, path.components, target);
        },
        InstancePathRoot::Root => {
            lemma_table_walk_is_tree_walk(root, base, top, path.components, target);
        },
    }
    assert forall|other: Seq<StepView>| #[trigger]
        tree_walk(root, top, other, target) implies (match path.root {
        InstancePathRoot::Script => root.class_name@ == "DataModel"@ ==> path.components.len()
            < other.len() + 2,
        InstancePathRoot::Root => path.components.len() <= other.len(),
    }) by {
        lemma_tree_walk_is_table_walk(root, base, top, other, target);
        lemma_instance_path_start_is_nearer(sourcemap, from_id, target_id, other);
    }
    assert forall|other: Seq<StepView>| #[trigger]
        tree_walk(root, from, other, target) implies (match path.root {
        InstancePathRoot::Script => path.components.len() <= other.len(),
        InstancePathRoot::Root => path.components.len() + 2 <= other.len(),
    }) by {
        lemma_tree_walk_is_table_walk(root, base, from, other, target);
        lemma_instance_path_is_shortest(sourcemap, from_id, target_id, other);
    }
    assert(path.root == InstancePathRoot::Root ==> sourcemap.is_datamodel) by {
        lemma_instance_path_start_is_nearer(sourcemap, from_id, target_id, path.components);
    }
}

} // verus!
