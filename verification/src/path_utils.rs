//! The path from one file to another.
use crate::paths::{
    component_views, joined, normalized, ComponentView, ModulePath, PathComponent, PathView,
};
use vstd::prelude::*;

verus! {

/// The directory that holds the file at `path`: `.` for a single component, and `..` where there
/// is nothing to leave out.
pub open spec fn relative_parent(path: PathView) -> PathView {
    if path.len() == 0 || path.last() is RootDir || path.last() is Prefix {
        seq![ComponentView::ParentDir]
    } else if path.len() == 1 {
        seq![ComponentView::CurDir]
    } else {
        path.drop_last()
    }
}

/// The path without a leading `.`.
pub open spec fn without_current_dir(path: PathView) -> PathView {
    if path.len() > 0 && path[0] is CurDir {
        path.drop_first()
    } else {
        path
    }
}

/// How many components at the start of a path say where it is anchored: its prefix and its root.
pub open spec fn anchor_len(path: PathView) -> int {
    if path.len() > 0 && path[0] is Prefix {
        if path.len() > 1 && path[1] is RootDir {
            2
        } else {
            1
        }
    } else if path.len() > 0 && path[0] is RootDir {
        1
    } else {
        0
    }
}

/// The prefix and the root of a path.
pub open spec fn anchor(path: PathView) -> PathView {
    path.take(anchor_len(path))
}

/// How many components two paths have in common at the start.
pub open spec fn common_len(left: PathView, right: PathView) -> int
    decreases left.len(),
{
    if left.len() > 0 && right.len() > 0 && left[0] == right[0] {
        1 + common_len(left.drop_first(), right.drop_first())
    } else {
        0
    }
}

/// The given number of `..`.
pub open spec fn parent_dirs(count: int) -> PathView {
    Seq::new(count as nat, |i: int| ComponentView::ParentDir)
}

/// The way from the directory `base` to `path`: up from `base` to what they have in common, and
/// down from there.
///
/// A path that is anchored elsewhere stands as it is. There is no way where `base` is anchored
/// elsewhere, or would have to be left through a `..` of its own.
pub open spec fn path_between(path: PathView, base: PathView) -> Option<PathView> {
    let to = without_current_dir(path);
    let from = without_current_dir(base);
    let common = common_len(to, from);
    if anchor(to) != anchor(from) {
        if anchor_len(to) > 0 {
            Some(path)
        } else {
            None
        }
    } else if forall|i: int| common <= i < from.len() ==> (#[trigger] from[i]).is_name() {
        Some(parent_dirs(from.len() - common) + to.skip(common))
    } else {
        None
    }
}

/// The path of `require_path` relative to the directory of the file at `source_path`. Where
/// `use_current_dir_prefix` holds, it starts with `.` if it does not lead upwards.
pub open spec fn relative_path(
    require_path: PathView,
    source_path: PathView,
    use_current_dir_prefix: bool,
) -> Option<PathView> {
    match path_between(require_path, relative_parent(source_path)) {
        Some(path) => {
            let leads_up_or_stays = path.len() > 0 && (path[0] is CurDir || path[0] is ParentDir);
            if use_current_dir_prefix && !leads_up_or_stays {
                Some(normalized(joined(seq![ComponentView::CurDir], path), true))
            } else {
                Some(normalized(path, true))
            }
        },
        None => None,
    }
}

/// The directory that holds the file at `path`: `.` for a single component, and `..` where there
/// is nothing to leave out.
pub fn get_relative_parent_path(path: &ModulePath) -> (parent: ModulePath)
    ensures
        parent@ == relative_parent(path@),
{
    let len = path.components.len();
    let mut components: Vec<PathComponent> = Vec::new();
    if len == 0 {
        components.push(PathComponent::ParentDir);
    } else {
        assert(path@.last() == path.components@.last()@);
        match &path.components[len - 1] {
            PathComponent::RootDir | PathComponent::Prefix(_) => {
                components.push(PathComponent::ParentDir);
            },
            _ => {
                if len == 1 {
                    components.push(PathComponent::CurDir);
                } else {
                    let mut parent = path.clone();
                    assert(parent.components.len() == parent@.len());
                    parent.components.pop();
                    assert(parent@ =~= path@.drop_last());
                    return parent;
                }
            },
        }
    }
    let parent = ModulePath { components };
    assert(parent@ =~= relative_parent(path@));
    parent
}

/// How many components at the start of a path, from index `start` on, say where it is anchored.
fn anchor_end(path: &ModulePath, start: usize) -> (end: usize)
    requires
        start <= path.components.len(),
    ensures
        end == start + anchor_len(path@.skip(start as int)),
        end <= path.components.len(),
{
    let len = path.components.len();
    let ghost rest = path@.skip(start as int);
    if start >= len {
        return start;
    }
    assert(rest[0] == path.components@[start as int]@);
    match &path.components[start] {
        PathComponent::Prefix(_) => {
            if len - start > 1 {
                assert(rest[1] == path.components@[start + 1]@);
                if let PathComponent::RootDir = &path.components[start + 1] {
                    return start + 2;
                }
            }
            start + 1
        },
        PathComponent::RootDir => start + 1,
        _ => start,
    }
}

/// The index of the first component of a path that is not a leading `.`.
fn first_step(path: &ModulePath) -> (start: usize)
    ensures
        start <= path.components.len(),
        path@.skip(start as int) == without_current_dir(path@),
{
    if path.components.len() > 0 {
        assert(path@[0] == path.components@[0]@);
        if let PathComponent::CurDir = &path.components[0] {
            assert(path@.skip(1) =~= path@.drop_first());
            return 1;
        }
    }
    assert(path@.skip(0) =~= path@);
    0
}

proof fn lemma_common_len(left: PathView, right: PathView, len: int)
    requires
        0 <= len <= left.len(),
        len <= right.len(),
        forall|i: int| 0 <= i < len ==> left[i] == right[i],
        len == left.len() || len == right.len() || left[len] != right[len],
    ensures
        common_len(left, right) == len,
    decreases len,
{
    if len > 0 {
        lemma_common_len(left.drop_first(), right.drop_first(), len - 1);
    }
}

pub(crate) proof fn lemma_common_len_bounds(left: PathView, right: PathView)
    ensures
        0 <= common_len(left, right) <= left.len(),
        common_len(left, right) <= right.len(),
        left.take(common_len(left, right)) == right.take(common_len(left, right)),
        common_len(left, right) == left.len() || common_len(left, right) == right.len()
            || left[common_len(left, right)] != right[common_len(left, right)],
    decreases left.len(),
{
    let len = common_len(left, right);
    if left.len() > 0 && right.len() > 0 && left[0] == right[0] {
        lemma_common_len_bounds(left.drop_first(), right.drop_first());
        let rest = len - 1;
        assert(left.take(len) =~= seq![left[0]] + left.drop_first().take(rest));
        assert(right.take(len) =~= seq![right[0]] + right.drop_first().take(rest));
    } else {
        assert(left.take(0) =~= right.take(0));
    }
}

/// The way from the directory `base` to `path`.
fn find_path_between(path: &ModulePath, base: &ModulePath) -> (found: Option<ModulePath>)
    ensures
        match found {
            Some(found) => path_between(path@, base@) == Some(found@),
            None => path_between(path@, base@) is None,
        },
{
    let to_start = first_step(path);
    let from_start = first_step(base);
    let ghost to = path@.skip(to_start as int);
    let ghost from = base@.skip(from_start as int);
    let to_len = path.components.len() - to_start;
    let from_len = base.components.len() - from_start;

    let mut common: usize = 0;
    while common < to_len && common < from_len && path.components[to_start + common].same(
        &base.components[from_start + common],
    )
        invariant
            to == path@.skip(to_start as int),
            from == base@.skip(from_start as int),
            to_start <= path.components.len(),
            from_start <= base.components.len(),
            to_len == path.components.len() - to_start,
            from_len == base.components.len() - from_start,
            common <= to_len,
            common <= from_len,
            forall|i: int| 0 <= i < common ==> to[i] == from[i],
        decreases to_len - common,
    {
        assert(to[common as int] == path.components@[to_start + common]@);
        assert(from[common as int] == base.components@[from_start + common]@);
        common += 1;
    }
    proof {
        if common < to_len && common < from_len {
            assert(to[common as int] == path.components@[to_start + common]@);
            assert(from[common as int] == base.components@[from_start + common]@);
        }
        lemma_common_len(to, from, common as int);
    }

    let to_anchor = anchor_end(path, to_start) - to_start;
    let from_anchor = anchor_end(base, from_start) - from_start;
    if to_anchor != from_anchor || common < to_anchor {
        proof {
            if to_anchor == from_anchor {
                assert(anchor(to)[common as int] == to[common as int]);
                assert(anchor(from)[common as int] == from[common as int]);
            } else {
                assert(anchor(to).len() != anchor(from).len());
            }
        }
        if to_anchor > 0 {
            return Some(path.clone());
        } else {
            return None;
        }
    }
    assert(anchor(to) =~= anchor(from));

    let mut components: Vec<PathComponent> = Vec::new();
    let mut i: usize = common;
    while i < from_len
        invariant
            from == base@.skip(from_start as int),
            to == without_current_dir(path@),
            from == without_current_dir(base@),
            common == common_len(to, from),
            anchor(to) == anchor(from),
            from_start <= base.components.len(),
            from_len == base.components.len() - from_start,
            common <= i <= from_len,
            forall|k: int| common <= k < i ==> (#[trigger] from[k]).is_name(),
            component_views(components@) =~= parent_dirs(i - common),
        decreases from_len - i,
    {
        assert(from[i as int] == base.components@[from_start + i]@);
        match &base.components[from_start + i] {
            PathComponent::Normal(_) | PathComponent::NonUnicode { .. } => {},
            _ => {
                assert(!from[i as int].is_name());
                return None;
            },
        }
        assert(component_views(components@.push(PathComponent::ParentDir)) =~= component_views(
            components@,
        ).push(ComponentView::ParentDir));
        components.push(PathComponent::ParentDir);
        i += 1;
    }
    let rest = path.suffix(to_start + common);
    let mut found = ModulePath { components };
    found.append(&rest);
    assert(path@.skip(to_start + common) =~= to.skip(common as int));
    Some(found)
}

/// The path of `require_path` relative to the directory of the file at `source_path`. Where
/// `use_current_dir_prefix` is set, it starts with `.` if it does not lead upwards.
pub fn get_relative_path(
    require_path: &ModulePath,
    source_path: &ModulePath,
    use_current_dir_prefix: bool,
) -> (path: Option<ModulePath>)
    ensures
        match path {
            Some(path) => relative_path(require_path@, source_path@, use_current_dir_prefix)
                == Some(path@),
            None => relative_path(require_path@, source_path@, use_current_dir_prefix) is None,
        },
{
    let base = get_relative_parent_path(source_path);
    match find_path_between(require_path, &base) {
        Some(path) => {
            let mut leads_up_or_stays = false;
            if path.components.len() > 0 {
                assert(path@[0] == path.components@[0]@);
                match &path.components[0] {
                    PathComponent::CurDir | PathComponent::ParentDir => {
                        leads_up_or_stays = true;
                    },
                    _ => {},
                }
            }
            if use_current_dir_prefix && !leads_up_or_stays {
                let mut components: Vec<PathComponent> = Vec::new();
                components.push(PathComponent::CurDir);
                let current_dir = ModulePath { components };
                assert(current_dir@ =~= seq![ComponentView::CurDir]);
                Some(current_dir.join(&path).normalize(true))
            } else {
                Some(path.normalize(true))
            }
        },
        None => None,
    }
}

} // verus!
