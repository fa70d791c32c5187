//! What normal and relative paths are good for.
use crate::path_utils::{
    anchor, anchor_len, common_len, lemma_common_len_bounds, parent_dirs, path_between,
    relative_parent, relative_path, without_current_dir,
};
use crate::paths::{
    is_verbatim, joined, normalized, rooted, verbatim_followed, ComponentView, ModulePath,
    PathComponent, PathPrefix, PathView,
};
use vstd::prelude::*;

verus! {

/// Whether a path holds nothing redundant: `.` only at the start, and only where
/// `keep_current_dir` holds, and `..` only where there is nothing that it could take back.
pub open spec fn is_normal(path: PathView, keep_current_dir: bool) -> bool {
    &&& forall|i: int|
        0 <= i < path.len() && (#[trigger] path[i]) is CurDir ==> keep_current_dir && i == 0
    &&& forall|i: int, j: int|
        #![trigger path[i], path[j]]
        0 <= i < path.len() && j == i + 1 && j < path.len() && path[j] is ParentDir
            ==> path[i] is ParentDir || path[i] is Prefix
}

/// Whether prefix and root stand only at the start of a path.
pub open spec fn is_anchored_at_start(path: PathView) -> bool {
    forall|i: int|
        anchor_len(path) <= i < path.len() ==> !((#[trigger] path[i]) is Prefix)
            && !(path[i] is RootDir)
}

/// Whether a path has its prefix and root within its first `len` components.
pub open spec fn is_anchored_within(path: PathView, len: int) -> bool {
    forall|i: int| len <= i < path.len() ==> !((#[trigger] path[i]) is Prefix) && !(path[i]
        is RootDir)
}

/// Normalizing leaves nothing redundant.
pub proof fn lemma_normalized_is_normal(path: PathView, keep_current_dir: bool)
    ensures
        is_normal(normalized(path, keep_current_dir), keep_current_dir),
    decreases path.len(),
{
    if path.len() > 0 {
        lemma_normalized_is_normal(path.drop_last(), keep_current_dir);
    }
}

/// A path that holds nothing redundant stays as it is.
pub proof fn lemma_normal_path_stays(path: PathView, keep_current_dir: bool)
    requires
        is_normal(path, keep_current_dir),
    ensures
        normalized(path, keep_current_dir) == path,
    decreases path.len(),
{
    if path.len() > 0 {
        let rest = path.drop_last();
        assert forall|i: int| 0 <= i < rest.len() implies rest[i] == path[i] by {}
        assert(is_normal(rest, keep_current_dir));
        lemma_normal_path_stays(rest, keep_current_dir);
        assert(path =~= rest.push(path.last()));
        assert(path.last() == path[path.len() - 1]);
        if rest.len() > 0 {
            assert(rest.last() == path[path.len() - 2]);
        }
    }
}

/// Normalizing twice is normalizing once.
pub proof fn lemma_normalize_is_idempotent(path: PathView, keep_current_dir: bool)
    ensures
        normalized(normalized(path, keep_current_dir), keep_current_dir) == normalized(
            path,
            keep_current_dir,
        ),
{
    lemma_normalized_is_normal(path, keep_current_dir);
    lemma_normal_path_stays(normalized(path, keep_current_dir), keep_current_dir);
}

/// What follows a path is normalized as it would be after the normal form of the path.
pub proof fn lemma_normalized_append(path: PathView, other: PathView, keep_current_dir: bool)
    ensures
        normalized(path + other, keep_current_dir) == normalized(
            normalized(path, keep_current_dir) + other,
            keep_current_dir,
        ),
    decreases other.len(),
{
    let start = normalized(path, keep_current_dir);
    if other.len() == 0 {
        assert(path + other =~= path);
        assert(start + other =~= start);
        lemma_normalize_is_idempotent(path, keep_current_dir);
    } else {
        lemma_normalized_append(path, other.drop_last(), keep_current_dir);
        assert((path + other).drop_last() =~= path + other.drop_last());
        assert((start + other).drop_last() =~= start + other.drop_last());
        assert((path + other).last() == other.last());
        assert((start + other).last() == other.last());
    }
}

/// Each `..` takes back one name.
proof fn lemma_parent_dirs_take_back(path: PathView, count: int)
    requires
        is_normal(path, false),
        0 <= count <= path.len(),
        forall|i: int| path.len() - count <= i < path.len() ==> (#[trigger] path[i]).is_name(),
    ensures
        normalized(path + parent_dirs(count), false) == path.take(path.len() - count),
    decreases count,
{
    let all = path + parent_dirs(count);
    if count == 0 {
        assert(all =~= path);
        assert(path.take(path.len() as int) =~= path);
        lemma_normal_path_stays(path, false);
    } else {
        lemma_parent_dirs_take_back(path, count - 1);
        assert(all.drop_last() =~= path + parent_dirs(count - 1));
        assert(all.last() is ParentDir);
        let before = path.take(path.len() - (count - 1));
        assert(before.last() == path[path.len() - count]);
        assert(before.drop_last() =~= path.take(path.len() - count));
    }
}

/// A path that does not start with a name does not start with one when normalized either.
proof fn lemma_normalized_start(path: PathView)
    requires
        path.len() > 0,
        !path[0].is_name(),
    ensures
        normalized(path, true).len() > 0,
        !normalized(path, true)[0].is_name(),
    decreases path.len(),
{
    let rest = path.drop_last();
    if rest.len() > 0 {
        assert(rest[0] == path[0]);
        lemma_normalized_start(rest);
    } else {
        assert(normalized(rest, true) =~= PathView::empty());
        assert(path.last() == path[0]);
    }
}

/// A relative path with the current directory as its prefix is never empty and never starts with
/// a name: it starts with `.` or `..`, or it is anchored.
pub proof fn lemma_prefixed_relative_path_start(require_path: PathView, source_path: PathView)
    ensures
        relative_path(require_path, source_path, true) matches Some(path) ==> path.len() > 0
            && !path[0].is_name(),
{
    if let Some(path) = path_between(require_path, relative_parent(source_path)) {
        if path.len() > 0 && (path[0] is CurDir || path[0] is ParentDir) {
            lemma_normalized_start(path);
        } else {
            lemma_normalized_start(joined(seq![ComponentView::CurDir], path));
        }
    }
}

proof fn lemma_common_len_covers_anchor(left: PathView, right: PathView)
    requires
        anchor(left) == anchor(right),
    ensures
        anchor_len(left) == anchor_len(right),
        anchor_len(left) <= common_len(left, right),
{
    let len = common_len(left, right);
    lemma_common_len_bounds(left, right);
    assert(anchor(left).len() == anchor_len(left));
    assert(anchor(right).len() == anchor_len(right));
    if len < anchor_len(left) {
        assert(left[len] == anchor(left)[len]);
        assert(right[len] == anchor(right)[len]);
    }
}

/// The way up from one path and down to another.
pub open spec fn way(to: PathView, from: PathView) -> PathView {
    parent_dirs(from.len() - common_len(to, from)) + to.skip(common_len(to, from))
}

/// The way between two paths that share their anchors is normal and has no anchor.
proof fn lemma_way_is_normal(to: PathView, from: PathView)
    requires
        is_normal(to, false),
        is_anchored_within(to, common_len(to, from)),
    ensures
        is_normal(way(to, from), true),
        forall|i: int|
            0 <= i < way(to, from).len() ==> {
                &&& !((#[trigger] way(to, from)[i]) is CurDir)
                &&& !(way(to, from)[i] is Prefix)
                &&& !(way(to, from)[i] is RootDir)
            },
{
    let common = common_len(to, from);
    let path = way(to, from);
    let up = from.len() - common;
    lemma_common_len_bounds(to, from);
    assert forall|i: int| 0 <= i < path.len() implies {
        &&& !((#[trigger] path[i]) is CurDir)
        &&& !(path[i] is Prefix)
        &&& !(path[i] is RootDir)
    } by {
        if i >= up {
            assert(path[i] == to[i - up + common]);
        }
    }
    assert forall|i: int| 0 < i < path.len() && (#[trigger] path[i]) is ParentDir implies path[i
        - 1] is ParentDir || path[i - 1] is Prefix by {
        if i > up {
            assert(path[i] == to[i - up + common]);
            assert(path[i - 1] == to[i - 1 - up + common]);
        }
    }
}

/// The way between two paths leads from one to the other.
proof fn lemma_way_leads_back(to: PathView, from: PathView, base: PathView)
    requires
        is_normal(to, false),
        is_normal(from, false),
        normalized(base, false) == from,
        forall|i: int| common_len(to, from) <= i < from.len() ==> (#[trigger] from[i]).is_name(),
    ensures
        normalized(base + way(to, from), false) == to,
{
    let common = common_len(to, from);
    let up = parent_dirs(from.len() - common);
    let down = to.skip(common);
    lemma_common_len_bounds(to, from);
    assert(base + way(to, from) =~= (base + up) + down);
    lemma_normalized_append(base + up, down, false);
    lemma_normalized_append(base, up, false);
    lemma_parent_dirs_take_back(from, from.len() - common);
    assert(from.take(common) + down =~= to);
    lemma_normal_path_stays(to, false);
}

/// The directory of a file, normalized, is the path of the file without its name.
pub(crate) proof fn lemma_relative_parent_of_file(path: PathView)
    requires
        is_normal(path, false),
        path.len() > 0,
        path.last().is_name(),
    ensures
        relative_parent(path).len() > 0,
        without_current_dir(relative_parent(path)) == path.drop_last(),
        normalized(relative_parent(path), false) == path.drop_last(),
        is_normal(path.drop_last(), false),
        relative_parent(path)[0] is CurDir || relative_parent(path)[0] == path[0],
{
    let base = relative_parent(path);
    let rest = path.drop_last();
    assert forall|i: int| 0 <= i < rest.len() implies rest[i] == path[i] by {}
    if path.len() == 1 {
        assert(base.drop_last() =~= PathView::empty());
        assert(normalized(base.drop_last(), false) =~= PathView::empty());
        assert(base.drop_first() =~= rest);
        assert(normalized(base, false) =~= rest);
    } else {
        assert(rest[0] == path[0]);
        lemma_normal_path_stays(rest, false);
    }
}

/// A path without an anchor, put after `.` where it does not lead upwards, leads on from any
/// directory as it does without the `.`.
proof fn lemma_prefixed_way(base: PathView, path: PathView)
    requires
        base.len() > 0,
        !is_verbatim(base),
        is_normal(path, true),
        path.len() > 0 ==> !(path[0] is CurDir) && !(path[0] is Prefix) && !(path[0] is RootDir),
    ensures
        joined(base, path) == base + path,
        path.len() > 0 && path[0] is ParentDir || joined(
            base,
            normalized(joined(seq![ComponentView::CurDir], path), true),
        ) == base + path,
{
    assert(joined(base, path) =~= base + path);
    if !(path.len() > 0 && path[0] is ParentDir) {
        lemma_after_current_dir(path);
        assert((seq![ComponentView::CurDir] + path).drop_first() =~= path);
    }
}

/// A path without an anchor that does not lead upwards, put after `.`, is normal.
proof fn lemma_after_current_dir(path: PathView)
    requires
        is_normal(path, true),
        path.len() > 0 ==> {
            &&& !(path[0] is CurDir)
            &&& !(path[0] is ParentDir)
            &&& !(path[0] is Prefix)
            &&& !(path[0] is RootDir)
        },
    ensures
        normalized(joined(seq![ComponentView::CurDir], path), true) == seq![ComponentView::CurDir]
            + path,
{
    let prefixed = seq![ComponentView::CurDir] + path;
    assert(joined(seq![ComponentView::CurDir], path) =~= prefixed);
    assert forall|i: int| 0 < i < prefixed.len() implies prefixed[i] == path[i - 1] by {}
    assert(is_normal(prefixed, true));
    lemma_normal_path_stays(prefixed, true);
}

proof fn lemma_verbatim_followed_append(base: PathView, left: PathView, right: PathView)
    ensures
        verbatim_followed(base, left + right) == verbatim_followed(
            verbatim_followed(base, left),
            right,
        ),
    decreases right.len(),
{
    if right.len() == 0 {
        assert(left + right =~= left);
    } else {
        lemma_verbatim_followed_append(base, left, right.drop_last());
        assert((left + right).drop_last() =~= left + right.drop_last());
        assert((left + right).last() == right.last());
    }
}

proof fn lemma_verbatim_parent_dirs(base: PathView, count: int)
    requires
        0 <= count <= base.len(),
        forall|i: int| base.len() - count <= i < base.len() ==> (#[trigger] base[i]).is_name(),
    ensures
        verbatim_followed(base, parent_dirs(count)) == base.take(base.len() - count),
    decreases count,
{
    if count == 0 {
        assert(base.take(base.len() as int) =~= base);
    } else {
        lemma_verbatim_parent_dirs(base, count - 1);
        assert(parent_dirs(count).drop_last() =~= parent_dirs(count - 1));
        assert(parent_dirs(count).last() is ParentDir);
        let before = base.take(base.len() - (count - 1));
        assert(before.last() == base[base.len() - count]);
        assert(before.drop_last() =~= base.take(base.len() - count));
    }
}

proof fn lemma_verbatim_names(base: PathView, names: PathView)
    requires
        forall|i: int| 0 <= i < names.len() ==> (#[trigger] names[i]).is_name(),
    ensures
        verbatim_followed(base, names) == base + names,
    decreases names.len(),
{
    if names.len() == 0 {
        assert(base + names =~= base);
    } else {
        lemma_verbatim_names(base, names.drop_last());
        assert(names.last() == names[names.len() - 1]);
        assert((base + names.drop_last()).push(names.last()) =~= base + names);
    }
}

/// Below a root, a normal path holds nothing but names.
proof fn lemma_names_below_root(path: PathView, index: int)
    requires
        is_normal(path, false),
        is_anchored_at_start(path),
        anchor_len(path) == 2,
        2 <= index < path.len(),
    ensures
        path[index].is_name(),
    decreases index,
{
    assert(!(path[index] is CurDir) && !(path[index] is Prefix) && !(path[index] is RootDir));
    if index > 2 {
        lemma_names_below_root(path, index - 1);
    }
    assert(path[index - 1] is RootDir || path[index - 1].is_name());
}

/// The way between two paths leads from one to the other also after a verbatim prefix.
proof fn lemma_verbatim_way_leads_back(to: PathView, from: PathView)
    requires
        is_verbatim(from),
        from.len() > 1,
        from[1] is RootDir,
        is_normal(to, false),
        is_anchored_at_start(to),
        anchor(to) == anchor(from),
        forall|i: int| common_len(to, from) <= i < from.len() ==> (#[trigger] from[i]).is_name(),
    ensures
        rooted(verbatim_followed(from, way(to, from))) == to,
        rooted(verbatim_followed(from, seq![ComponentView::CurDir] + way(to, from))) == to,
{
    let common = common_len(to, from);
    let up = parent_dirs(from.len() - common);
    let down = to.skip(common);
    lemma_common_len_bounds(to, from);
    lemma_common_len_covers_anchor(to, from);
    assert(to[1] == anchor(to)[1]);
    assert(from[1] == anchor(from)[1]);
    assert forall|i: int| 0 <= i < down.len() implies (#[trigger] down[i]).is_name() by {
        lemma_names_below_root(to, common + i);
    }
    lemma_verbatim_parent_dirs(from, from.len() - common);
    lemma_verbatim_names(from.take(common), down);
    lemma_verbatim_followed_append(from, up, down);
    assert(from.take(common) + down =~= to);
    let stay = seq![ComponentView::CurDir];
    assert(stay.drop_last() =~= PathView::empty());
    assert(verbatim_followed(from, stay.drop_last()) == from);
    assert(verbatim_followed(from, stay) == from);
    lemma_verbatim_followed_append(from, stay, way(to, from));
}

/// The relative path leads from the directory of the source file back to the required path.
///
/// Both paths are normal, the source path names a file, and a required path that has a root but
/// no prefix does not meet a source path with a prefix: which prefix it stands under is open.
/// What follows a verbatim prefix stands under its root.
pub proof fn lemma_relative_path_leads_back(
    require_path: PathView,
    source_path: PathView,
    use_current_dir_prefix: bool,
)
    requires
        is_normal(require_path, false),
        is_normal(source_path, false),
        is_anchored_at_start(require_path),
        source_path.len() > 0,
        source_path.last().is_name(),
        !(require_path.len() > 0 && require_path[0] is RootDir && source_path[0] is Prefix),
        rooted(source_path) == source_path || !is_verbatim(source_path),
    ensures
        relative_path(require_path, source_path, use_current_dir_prefix) matches Some(path)
            ==> normalized(joined(relative_parent(source_path), path), false) == require_path,
{
    let base = relative_parent(source_path);
    let from = source_path.drop_last();
    lemma_relative_parent_of_file(source_path);
    assert(without_current_dir(require_path) == require_path);
    if let Some(between) = path_between(require_path, base) {
        if anchor(require_path) != anchor(from) {
            lemma_normal_path_stays(require_path, false);
            lemma_normal_path_stays(require_path, true);
        } else {
            assert(between == way(require_path, from));
            lemma_common_len_covers_anchor(require_path, from);
            lemma_way_is_normal(require_path, from);
            lemma_normal_path_stays(between, true);
            if is_verbatim(source_path) {
                assert(source_path[1] is RootDir) by {
                    assert(rooted(source_path).len() == source_path.len());
                }
                assert(source_path.len() > 2) by {
                    assert(source_path.last() == source_path[source_path.len() - 1]);
                }
                assert(from[1] == source_path[1]);
                assert(base == from);
                lemma_verbatim_way_leads_back(require_path, from);
                if !(between.len() > 0 && between[0] is ParentDir) {
                    lemma_after_current_dir(between);
                }
                lemma_normal_path_stays(require_path, false);
                lemma_normal_path_stays(from, false);
                assert(between.len() == 0 ==> verbatim_followed(from, between) == from);
            } else {
                lemma_prefixed_way(base, between);
                lemma_way_leads_back(require_path, from, base);
            }
        }
    }
}

/// The relative path, with the current directory as its prefix, to a path that does not lead
/// upwards: it is anchored, or it is the way up and down, put after `.` if nothing leads up.
pub(crate) proof fn lemma_relative_way(require_path: PathView, source_path: PathView)
    requires
        is_normal(source_path, false),
        source_path.len() > 0,
        source_path.last().is_name(),
        forall|i: int|
            anchor_len(require_path) <= i < require_path.len() ==> (
            #[trigger] require_path[i]).is_name(),
    ensures
        relative_path(require_path, source_path, true) matches Some(path) ==> {
            let from = source_path.drop_last();
            let path_way = way(require_path, from);
            let common = common_len(require_path, from);
            ||| path.len() > 0 && (path[0] is Prefix || path[0] is RootDir)
            ||| anchor_len(require_path) <= common < from.len() && path == path_way
            ||| anchor_len(require_path) <= common == from.len() && path == seq![
                ComponentView::CurDir,
            ] + path_way
        },
{
    let base = relative_parent(source_path);
    let from = source_path.drop_last();
    lemma_relative_parent_of_file(source_path);
    assert(without_current_dir(require_path) == require_path);
    assert(is_normal(require_path, false));
    if let Some(between) = path_between(require_path, base) {
        if anchor(require_path) != anchor(from) {
            lemma_normal_path_stays(require_path, true);
        } else {
            let common = common_len(require_path, from);
            lemma_common_len_bounds(require_path, from);
            lemma_common_len_covers_anchor(require_path, from);
            lemma_way_is_normal(require_path, from);
            lemma_normal_path_stays(between, true);
            if common == from.len() {
                if between.len() > 0 {
                    assert(between[0] == require_path[common]);
                }
                let prefixed = seq![ComponentView::CurDir] + between;
                assert(joined(seq![ComponentView::CurDir], between) =~= prefixed);
                assert forall|i: int| 0 < i < prefixed.len() implies prefixed[i] == between[i
                    - 1] by {}
                assert(is_normal(prefixed, true));
                lemma_normal_path_stays(prefixed, true);
            } else {
                assert(between[0] is ParentDir);
            }
        }
    }
}

/// A name and a `..` after it cancel out, wherever they stand.
pub proof fn lemma_parent_dir_takes_back_a_name(
    start: PathView,
    name: ComponentView,
    rest: PathView,
    keep_current_dir: bool,
)
    requires
        name is Normal || name is NonUnicode,
    ensures
        normalized(start + seq![name, ComponentView::ParentDir] + rest, keep_current_dir)
            == normalized(start + rest, keep_current_dir),
{
    let pair = seq![name, ComponentView::ParentDir];
    assert((start + pair).drop_last() =~= start.push(name));
    assert(start.push(name).drop_last() =~= start);
    let before = normalized(start, keep_current_dir);
    assert(normalized(start.push(name), keep_current_dir) == before.push(name));
    assert(before.push(name).drop_last() =~= before);
    assert(normalized(start + pair, keep_current_dir) == before);
    lemma_normalized_append(start + pair, rest, keep_current_dir);
    lemma_normalized_append(start, rest, keep_current_dir);
}

/// A `..` after a root says nothing, wherever it stands.
pub proof fn lemma_root_is_its_own_parent(
    start: PathView,
    rest: PathView,
    keep_current_dir: bool,
)
    ensures
        normalized(
            start + seq![ComponentView::RootDir, ComponentView::ParentDir] + rest,
            keep_current_dir,
        ) == normalized(start + seq![ComponentView::RootDir] + rest, keep_current_dir),
{
    let root = ComponentView::RootDir;
    let pair = seq![root, ComponentView::ParentDir];
    let single = seq![root];
    assert((start + pair).drop_last() =~= start.push(root));
    assert(start + single =~= start.push(root));
    assert(start.push(root).drop_last() =~= start);
    let before = normalized(start, keep_current_dir);
    assert(normalized(start.push(root), keep_current_dir) == before.push(root));
    assert(normalized(start + pair, keep_current_dir) == before.push(root));
    lemma_normalized_append(start + pair, rest, keep_current_dir);
    lemma_normalized_append(start + single, rest, keep_current_dir);
}

/// A `.` says nothing, wherever it stands, except at the start where it is kept.
pub proof fn lemma_current_dir_says_nothing(
    start: PathView,
    rest: PathView,
    keep_current_dir: bool,
)
    requires
        !keep_current_dir || normalized(start, true).len() > 0,
    ensures
        normalized(start + seq![ComponentView::CurDir] + rest, keep_current_dir) == normalized(
            start + rest,
            keep_current_dir,
        ),
{
    let stay = seq![ComponentView::CurDir];
    assert((start + stay).drop_last() =~= start);
    assert(normalized(start + stay, keep_current_dir) == normalized(start, keep_current_dir));
    lemma_normalized_append(start + stay, rest, keep_current_dir);
    lemma_normalized_append(start, rest, keep_current_dir);
}

/// A `..` after a `.` at the start takes its place.
pub proof fn lemma_parent_dir_replaces_current_dir(rest: PathView, keep_current_dir: bool)
    ensures
        normalized(
            seq![ComponentView::CurDir, ComponentView::ParentDir] + rest,
            keep_current_dir,
        ) == normalized(seq![ComponentView::ParentDir] + rest, keep_current_dir),
{
    let up = seq![ComponentView::ParentDir];
    let stay = seq![ComponentView::CurDir];
    let pair = seq![ComponentView::CurDir, ComponentView::ParentDir];
    let nothing = PathView::empty();
    assert(pair.drop_last() =~= stay);
    assert(stay.drop_last() =~= nothing);
    assert(up.drop_last() =~= nothing);
    assert(normalized(nothing, keep_current_dir) == nothing);
    assert(normalized(up, keep_current_dir) =~= up);
    if keep_current_dir {
        assert(normalized(stay, keep_current_dir) =~= stay);
        assert(stay.drop_last().push(ComponentView::ParentDir) =~= up);
    } else {
        assert(normalized(stay, keep_current_dir) =~= nothing);
    }
    assert(normalized(pair, keep_current_dir) =~= up);
    lemma_normalized_append(pair, rest, keep_current_dir);
    lemma_normalized_append(up, rest, keep_current_dir);
}

/// What a join gives: a path with a prefix, or with a root where there is no prefix to keep,
/// stands for itself. Another path is put after the directory, without a leading `.` unless
/// nothing stands before it. After a directory with a verbatim prefix, it is normalized with it.
pub proof fn lemma_joined_paths(base: PathView, other: PathView)
    ensures
        other.len() == 0 && !(base.len() == 1 && base[0] is Prefix) ==> joined(base, other) == base,
        other.len() > 0 && other[0] is Prefix ==> joined(base, other) == other,
        other.len() > 0 && other[0] is RootDir && !(base.len() > 0 && base[0] is Prefix) ==> joined(
            base,
            other,
        ) == other,
        other.len() > 0 && other[0] is RootDir && base.len() > 0 && (base[0] matches
            ComponentView::Prefix(prefix) && (prefix is Drive || prefix is Share || prefix
            is Device)) ==> joined(base, other) == seq![base[0]] + other,
        other.len() > 0 && (other[0] is ParentDir || other[0] is Normal || other[0] is NonUnicode)
            && !(base.len() > 0 && (base[0] matches ComponentView::Prefix(prefix) && !(prefix
            is Drive || prefix is Share || prefix is Device))) ==> joined(base, other) == base
            + other,
        other.len() > 0 && other[0] is CurDir && base.len() > 0 && !(base[0] matches
            ComponentView::Prefix(prefix) && !(prefix is Drive || prefix is Share || prefix
            is Device)) ==> joined(base, other) == base + other.skip(1),
        other.len() > 0 && other[0] is CurDir && base.len() == 0 ==> joined(base, other) == other,
        other.len() > 0 && base.len() > 1 && (base[0] matches ComponentView::Prefix(prefix) && (
        prefix is Verbatim || prefix is VerbatimShare || prefix is VerbatimDrive)) && base[1]
            is RootDir && (forall|i: int| 2 <= i < base.len() ==> (#[trigger] base[i]).is_name()) && (
        forall|i: int|
            0 <= i < other.len() ==> !((#[trigger] other[i]) is Prefix) && !(other[i] is RootDir))
            ==> joined(base, other) == normalized(base + other, false),
{
    if other.len() > 0 {
        assert(other.skip(1) =~= other.drop_first());
    }
    if base.len() > 1 && is_verbatim(base) && base[1] is RootDir && (forall|i: int|
        2 <= i < base.len() ==> (#[trigger] base[i]).is_name()) && (forall|i: int|
        0 <= i < other.len() ==> !((#[trigger] other[i]) is Prefix) && !(other[i] is RootDir)) {
        lemma_verbatim_join_normalizes(base, other);
        if other.len() > 0 {
            assert(!(other[0] is Prefix));
        }
    }
}

/// After a verbatim prefix and its root, joining is normalizing.
proof fn lemma_verbatim_join_normalizes(base: PathView, other: PathView)
    requires
        base.len() > 1,
        is_verbatim(base),
        base[1] is RootDir,
        forall|i: int| 2 <= i < base.len() ==> (#[trigger] base[i]).is_name(),
        forall|i: int|
            0 <= i < other.len() ==> !((#[trigger] other[i]) is Prefix) && !(other[i] is RootDir),
    ensures
        ({
            let path = verbatim_followed(base, other);
            &&& path == normalized(base + other, false)
            &&& path.len() > 1 && path[0] == base[0] && path[1] is RootDir
            &&& forall|i: int| 2 <= i < path.len() ==> (#[trigger] path[i]).is_name()
            &&& rooted(path) == path
        }),
    decreases other.len(),
{
    if other.len() == 0 {
        assert(base + other =~= base);
        assert(is_normal(base, false));
        lemma_normal_path_stays(base, false);
    } else {
        let rest = other.drop_last();
        assert forall|i: int| 0 <= i < rest.len() implies !((#[trigger] rest[i]) is Prefix) && !(
        rest[i] is RootDir) by {
            assert(rest[i] == other[i]);
        }
        lemma_verbatim_join_normalizes(base, rest);
        assert((base + other).drop_last() =~= base + rest);
        assert((base + other).last() == other.last());
        assert(other.last() == other[other.len() - 1]);
        let before = verbatim_followed(base, rest);
        assert(before.last() == before[before.len() - 1]);
    }
}

/// A path is joined to a bare verbatim prefix as to its root, but the root does not show where
/// nothing follows it. A root takes back all but the prefix.
pub proof fn lemma_joined_after_a_verbatim_prefix(base: PathView, other: PathView)
    requires
        base.len() > 0,
        base[0] matches ComponentView::Prefix(prefix) && (prefix is Verbatim || prefix
            is VerbatimShare || prefix is VerbatimDrive),
        forall|i: int| 0 < i < other.len() ==> !((#[trigger] other[i]) is RootDir),
        forall|i: int| 0 <= i < other.len() ==> !((#[trigger] other[i]) is Prefix),
    ensures
        other.len() == 0 && base.len() == 1 ==> joined(base, other) == base.push(
            ComponentView::RootDir,
        ),
        other.len() > 0 && other[0] is RootDir ==> joined(base, other) == normalized(
            seq![base[0]] + other,
            false,
        ),
        other.len() > 0 && !(other[0] is RootDir) && base.len() == 1 ==> {
            let path = normalized(seq![base[0], ComponentView::RootDir] + other, false);
            joined(base, other) == if path.len() > 2 {
                path
            } else {
                base
            }
        },
{
    let root = seq![base[0], ComponentView::RootDir];
    if other.len() > 0 && other[0] is RootDir {
        let rest = other.drop_first();
        let first = seq![other[0]];
        assert(other =~= first + rest);
        assert(first.drop_last() =~= PathView::empty());
        assert(verbatim_followed(base, first.drop_last()) == base);
        assert(verbatim_followed(base, first) =~= root);
        lemma_verbatim_followed_append(base, first, rest);
        assert forall|i: int| 0 <= i < rest.len() implies !((#[trigger] rest[i]) is Prefix) && !(
        rest[i] is RootDir) by {
            assert(rest[i] == other[i + 1]);
        }
        lemma_verbatim_join_normalizes(root, rest);
        assert(seq![base[0]] + other =~= root + rest);
    } else if other.len() > 0 && base.len() == 1 {
        assert(base =~= seq![base[0]]);
        assert forall|i: int| 0 <= i < other.len() implies !((#[trigger] other[i]) is Prefix) && !(
        other[i] is RootDir) by {}
        lemma_verbatim_join_normalizes(root, other);
        lemma_verbatim_root_shows(base, other);
    }
}

/// What follows a bare prefix is what follows its root.
proof fn lemma_verbatim_root_shows(base: PathView, other: PathView)
    requires
        base.len() == 1,
        base[0] is Prefix,
        forall|i: int|
            0 <= i < other.len() ==> !((#[trigger] other[i]) is Prefix) && !(other[i] is RootDir),
    ensures
        ({
            let bare = verbatim_followed(base, other);
            let below = verbatim_followed(seq![base[0], ComponentView::RootDir], other);
            &&& bare.len() > 0 && bare[0] == base[0]
            &&& below == seq![base[0], ComponentView::RootDir] + bare.skip(1)
            &&& forall|i: int| 0 < i < bare.len() ==> (#[trigger] bare[i]).is_name()
        }),
    decreases other.len(),
{
    let root = seq![base[0], ComponentView::RootDir];
    if other.len() == 0 {
        assert(root =~= root + base.skip(1));
    } else {
        let rest = other.drop_last();
        assert forall|i: int| 0 <= i < rest.len() implies !((#[trigger] rest[i]) is Prefix) && !(
        rest[i] is RootDir) by {
            assert(rest[i] == other[i]);
        }
        lemma_verbatim_root_shows(base, rest);
        let bare = verbatim_followed(base, rest);
        let below = verbatim_followed(root, rest);
        let component = other.last();
        assert(component == other[other.len() - 1]);
        assert(bare.last() == bare[bare.len() - 1]);
        if bare.len() > 1 {
            assert(below.last() == bare.last());
            assert(below.drop_last() =~= root + bare.drop_last().skip(1));
        } else {
            assert(below.last() is RootDir);
        }
        assert(below.push(component) =~= root + bare.push(component).skip(1));
    }
}

/// The directory of a file, followed by the name of the file, is the path of the file. Where the
/// path is that name alone, the directory is `.`, and where nothing can be left out, it is `..`.
pub proof fn lemma_relative_parent_holds_the_file(path: PathView)
    ensures
        path.len() > 1 && !(path.last() is RootDir) && !(path.last() is Prefix)
            ==> relative_parent(path).push(path.last()) == path,
        path.len() == 1 && !(path.last() is RootDir) && !(path.last() is Prefix)
            ==> relative_parent(path) == seq![ComponentView::CurDir],
        path.len() == 0 || path.last() is RootDir || path.last() is Prefix ==> relative_parent(
            path,
        ) == seq![ComponentView::ParentDir],
        path.len() > 0 && !(path.last() is RootDir) && !(path.last() is Prefix) ==> normalized(
            relative_parent(path).push(path.last()),
            false,
        ) == normalized(path, false),
{
    if path.len() > 1 {
        assert(path.drop_last().push(path.last()) =~= path);
    } else if path.len() == 1 {
        let stay = seq![ComponentView::CurDir];
        assert(path =~= seq![path.last()]);
        assert(stay.push(path.last()) =~= PathView::empty() + stay + path);
        assert(PathView::empty() + path =~= path);
        lemma_current_dir_says_nothing(PathView::empty(), path, false);
    }
}

/// A file is found where its name is looked up in its directory, also where the path starts with
/// `.` or is not normal.
pub proof fn lemma_file_is_found_in_its_directory(path: PathView)
    requires
        path.len() > 0,
        path.last() is Normal || path.last() is NonUnicode,
        !(path[0] matches ComponentView::Prefix(prefix) && (prefix is Verbatim || prefix
            is VerbatimShare || prefix is VerbatimDrive)),
    ensures
        normalized(joined(relative_parent(path), seq![path.last()]), false) == normalized(
            path,
            false,
        ),
{
    let base = relative_parent(path);
    lemma_relative_parent_holds_the_file(path);
    if path.len() > 1 {
        assert(base.push(path.last())[0] == path[0]);
        assert(base[0] == path[0]);
    }
    lemma_joined_paths(base, seq![path.last()]);
    assert(base + seq![path.last()] =~= base.push(path.last()));
}

/// What the way from the directory `from` to `path` consists of: `..` for each component of `from`
/// that is not shared, and then what follows the shared part. It is put after `.` where that is
/// asked for and it does not lead upwards.
pub open spec fn is_way(
    way: PathView,
    path: PathView,
    from: PathView,
    shared: int,
    use_current_dir_prefix: bool,
) -> bool {
    let up = from.len() - shared;
    let down = path.len() - shared;
    let leads_up = up > 0 || down > 0 && path[shared] is ParentDir;
    let start: int = if use_current_dir_prefix && !leads_up {
        1
    } else {
        0
    };
    &&& way.len() == start + up + down
    &&& start == 1 ==> way[0] is CurDir
    &&& forall|i: int| start <= i < start + up ==> (#[trigger] way[i]) is ParentDir
    &&& forall|i: int| start + up <= i < way.len() ==> #[trigger] way[i] == path[i - start - up
        + shared]
}

/// Whether `shared` is the number of components that two paths have in common at the start.
pub open spec fn shares(left: PathView, right: PathView, shared: int) -> bool {
    &&& 0 <= shared <= left.len()
    &&& shared <= right.len()
    &&& forall|i: int| #![trigger left[i]] #![trigger right[i]] 0 <= i < shared ==> left[i] == right[i]
    &&& shared < left.len() && shared < right.len() ==> left[shared] != right[shared]
}

proof fn lemma_shares_is_common_len(left: PathView, right: PathView, shared: int)
    requires
        shares(left, right, shared),
    ensures
        common_len(left, right) == shared,
{
    let common = common_len(left, right);
    lemma_common_len_bounds(left, right);
    if common < shared {
        assert(left[common] == right[common]);
    } else if common > shared {
        assert(left.take(common)[shared] == left[shared]);
        assert(right.take(common)[shared] == right[shared]);
    }
}

/// The relative path to a normal path goes up from the directory of the source file to the nearest
/// directory that holds both, and down from there. There is none exactly where something else
/// than a name would have to be left. `from` is the directory of the source file, without a
/// leading `.`.
pub proof fn lemma_relative_path_goes_up_and_down(
    require_path: PathView,
    source_path: PathView,
    from: PathView,
    shared: int,
    use_current_dir_prefix: bool,
)
    requires
        is_normal(require_path, false),
        relative_parent(source_path) == from || relative_parent(source_path)
            == seq![ComponentView::CurDir] + from,
        from.len() == 0 || !(from[0] is CurDir),
        shares(require_path, from, shared),
        is_anchored_within(require_path, shared),
        is_anchored_within(from, shared),
    ensures
        match relative_path(require_path, source_path, use_current_dir_prefix) {
            Some(path) => is_way(path, require_path, from, shared, use_current_dir_prefix)
                && forall|i: int|
                shared <= i < from.len() ==> (#[trigger] from[i]).is_name(),
            None => !(forall|i: int|
                shared <= i < from.len() ==> (#[trigger] from[i]).is_name()),
        },
{
    let base = relative_parent(source_path);
    lemma_shares_is_common_len(require_path, from, shared);
    assert(without_current_dir(base) =~= from) by {
        assert((seq![ComponentView::CurDir] + from).drop_first() =~= from);
    }
    if require_path.len() > 0 {
        assert(!(require_path[0] is CurDir));
    }
    assert(without_current_dir(require_path) == require_path);
    lemma_anchors_agree(require_path, from, shared);
    if let Some(between) = path_between(require_path, base) {
        assert(between == way(require_path, from));
        lemma_way_is_normal(require_path, from);
        lemma_normal_path_stays(between, true);
        let up = from.len() - shared;
        if between.len() > 0 {
            if up > 0 {
                assert(between[0] is ParentDir);
            } else {
                assert(between[0] == require_path[shared]);
            }
        }
        if use_current_dir_prefix && !(between.len() > 0 && between[0] is ParentDir) {
            lemma_after_current_dir(between);
        }
    }
}

/// Paths that are anchored within what they share are anchored alike.
proof fn lemma_anchors_agree(left: PathView, right: PathView, shared: int)
    requires
        shares(left, right, shared),
        is_anchored_within(left, shared),
        is_anchored_within(right, shared),
    ensures
        anchor(left) == anchor(right),
{
    if shared > 0 {
        assert(left[0] == right[0]);
    }
    if shared > 1 {
        assert(left[1] == right[1]);
    }
    assert(anchor_len(left) == anchor_len(right));
    assert(anchor(left) =~= anchor(right));
}

/// Whether prefix and root stand where they can stand in a path of a host: a prefix at the start,
/// and a root at the start or after the prefix.
pub open spec fn is_host_like(path: PathView) -> bool {
    forall|i: int|
        0 <= i < path.len() ==> {
            &&& (#[trigger] path[i]) is Prefix ==> i == 0
            &&& path[i] is RootDir ==> i == 0 || i == 1 && path[0] is Prefix
        }
}

/// A normal path that is anchored elsewhere stands for itself, and there is no way to a path that
/// is not anchored from a directory that is.
pub proof fn lemma_relative_path_to_another_anchor(
    require_path: PathView,
    source_path: PathView,
    from: PathView,
    shared: int,
    use_current_dir_prefix: bool,
)
    requires
        is_normal(require_path, false),
        is_host_like(require_path),
        is_host_like(from),
        relative_parent(source_path) == from || relative_parent(source_path)
            == seq![ComponentView::CurDir] + from,
        from.len() == 0 || !(from[0] is CurDir),
        shares(require_path, from, shared),
        !is_anchored_within(require_path, shared) || !is_anchored_within(from, shared),
    ensures
        relative_path(require_path, source_path, use_current_dir_prefix) == if require_path.len()
            > 0 && (require_path[0] is Prefix || require_path[0] is RootDir) {
            Some(require_path)
        } else {
            None
        },
{
    let base = relative_parent(source_path);
    lemma_shares_is_common_len(require_path, from, shared);
    assert(without_current_dir(base) =~= from) by {
        assert((seq![ComponentView::CurDir] + from).drop_first() =~= from);
    }
    if require_path.len() > 0 {
        assert(!(require_path[0] is CurDir));
    }
    assert(without_current_dir(require_path) == require_path);
    assert(anchor(require_path) != anchor(from)) by {
        if anchor(require_path) == anchor(from) {
            lemma_common_len_covers_anchor(require_path, from);
        }
    }
    lemma_normal_path_stays(require_path, true);
}

/// Which of the two normal forms of a path follows another path makes no difference.
proof fn lemma_normal_form_follows(start: PathView, path: PathView)
    ensures
        normalized(start + normalized(path, true), false) == normalized(start + path, false),
    decreases path.len(),
{
    if path.len() == 0 {
        assert(start + normalized(path, true) =~= start + path);
    } else {
        let rest = path.drop_last();
        let component = path.last();
        let before = normalized(rest, true);
        let now = normalized(path, true);
        lemma_normal_form_follows(start, rest);
        lemma_normalized_is_normal(rest, true);
        assert((start + path).drop_last() =~= start + rest);
        assert((start + path).last() == component);
        if now == before.push(component) {
            assert((start + now).drop_last() =~= start + before);
            assert((start + now).last() == component);
        } else if before.len() > 0 && component is ParentDir {
            assert((start + before).drop_last() =~= start + before.drop_last());
            assert((start + before).last() == before.last());
            assert(before.last() == before[before.len() - 1]);
            if before.last() is CurDir {
                assert(before.drop_last() =~= PathView::empty());
                assert(now =~= seq![component]);
                assert((start + now).drop_last() =~= start);
                assert((start + now).last() == component);
                assert(start + before.drop_last() =~= start);
            }
        }
    }
}

/// Names and as many `..` cancel out.
proof fn lemma_names_are_taken_back(start: PathView, names: PathView)
    requires
        forall|i: int| 0 <= i < names.len() ==> (#[trigger] names[i]).is_name(),
    ensures
        normalized(start + names + parent_dirs(names.len() as int), false) == normalized(
            start,
            false,
        ),
    decreases names.len(),
{
    let count = names.len() as int;
    if count == 0 {
        assert(start + names + parent_dirs(count) =~= start);
    } else {
        let rest = names.drop_last();
        lemma_names_are_taken_back(start, rest);
        assert(names.last() == names[count - 1]);
        lemma_parent_dir_takes_back_a_name(
            start + rest,
            names.last(),
            parent_dirs(count - 1),
            false,
        );
        assert(start + names + parent_dirs(count) =~= start + rest + seq![
            names.last(),
            ComponentView::ParentDir,
        ] + parent_dirs(count - 1));
    }
}

/// The relative path to any path that is not anchored, put after the directory of the source file,
/// stands for the required path, whether they are normal or not. The `.` that may be asked for
/// changes nothing but the start. There is none exactly where the directory of the source file is
/// anchored, or something else than a name would have to be left. `to` and `from` are the required
/// path and the directory of the source file without a leading `.`.
pub proof fn lemma_relative_path_stands_for_the_module(
    require_path: PathView,
    source_path: PathView,
    to: PathView,
    from: PathView,
    shared: int,
    use_current_dir_prefix: bool,
)
    requires
        require_path == to && (to.len() == 0 || !(to[0] is CurDir)) || require_path
            == seq![ComponentView::CurDir] + to,
        relative_parent(source_path) == from && (from.len() == 0 || !(from[0] is CurDir))
            || relative_parent(source_path) == seq![ComponentView::CurDir] + from,
        to.len() > 0 ==> !(to[0] is Prefix) && !(to[0] is RootDir),
        shares(to, from, shared),
    ensures
        match relative_path(require_path, source_path, use_current_dir_prefix) {
            Some(path) => {
                &&& normalized(relative_parent(source_path) + path, false) == normalized(
                    require_path,
                    false,
                )
                &&& from.len() > 0 ==> !(from[0] is Prefix) && !(from[0] is RootDir)
                &&& forall|i: int| shared <= i < from.len() ==> (#[trigger] from[i]).is_name()
                &&& use_current_dir_prefix ==> path.len() > 0 && !path[0].is_name()
            },
            None => from.len() > 0 && (from[0] is Prefix || from[0] is RootDir) || !(forall|i: int|
                shared <= i < from.len() ==> (#[trigger] from[i]).is_name()),
        },
{
    let base = relative_parent(source_path);
    let stay = seq![ComponentView::CurDir];
    lemma_shares_is_common_len(to, from, shared);
    lemma_common_len_bounds(to, from);
    lemma_prefixed_relative_path_start(require_path, source_path);
    assert((stay + from).drop_first() =~= from);
    assert((stay + to).drop_first() =~= to);
    assert(without_current_dir(base) == from);
    assert(without_current_dir(require_path) == to);
    assert(anchor_len(to) == 0);
    assert(anchor(to) == anchor(from) <==> anchor_len(from) == 0) by {
        if anchor_len(from) == 0 {
            assert(anchor(to) =~= anchor(from));
        } else {
            assert(anchor(from).len() > 0);
            assert(anchor(to).len() == 0);
        }
    }
    if let Some(between) = path_between(require_path, base) {
        assert(between == way(to, from));
        lemma_leading_current_dir(from);
        lemma_leading_current_dir(to);
        lemma_any_way_leads_back(to, from, base);
        lemma_way_after_current_dir(base, between);
    }
}

proof fn lemma_leading_current_dir(path: PathView)
    ensures
        normalized(seq![ComponentView::CurDir] + path, false) == normalized(path, false),
{
    let stay = seq![ComponentView::CurDir];
    assert(PathView::empty() + stay + path =~= stay + path);
    assert(PathView::empty() + path =~= path);
    lemma_current_dir_says_nothing(PathView::empty(), path, false);
}

/// The way between two paths leads from one to the other, whether they are normal or not.
proof fn lemma_any_way_leads_back(to: PathView, from: PathView, base: PathView)
    requires
        normalized(base, false) == normalized(from, false),
        forall|i: int| common_len(to, from) <= i < from.len() ==> (#[trigger] from[i]).is_name(),
    ensures
        normalized(base + way(to, from), false) == normalized(to, false),
{
    let shared = common_len(to, from);
    lemma_common_len_bounds(to, from);
    let names = from.skip(shared);
    let common = from.take(shared);
    let up = parent_dirs(from.len() - shared);
    let down = to.skip(shared);
    let between = way(to, from);
    lemma_normalized_append(base, between, false);
    lemma_normalized_append(from, between, false);
    assert forall|i: int| 0 <= i < names.len() implies (#[trigger] names[i]).is_name() by {
        assert(names[i] == from[shared + i]);
    }
    lemma_names_are_taken_back(common, names);
    assert(from =~= common + names);
    assert(from + between =~= (from + up) + down);
    lemma_normalized_append(from + up, down, false);
    lemma_normalized_append(common, down, false);
    assert(common + down =~= to);
}

/// What follows a directory, normalized and put after `.`, stands for the same as before.
proof fn lemma_way_after_current_dir(base: PathView, path: PathView)
    ensures
        normalized(base + normalized(path, true), false) == normalized(base + path, false),
        normalized(
            base + normalized(joined(seq![ComponentView::CurDir], path), true),
            false,
        ) == normalized(base + path, false),
{
    let stay = seq![ComponentView::CurDir];
    let prefixed = joined(stay, path);
    lemma_normal_form_follows(base, path);
    lemma_normal_form_follows(base, prefixed);
    if path.len() > 0 && path[0] is CurDir {
        assert(prefixed =~= path);
    } else if path.len() == 0 || !(path[0] is Prefix) && !(path[0] is RootDir) {
        assert(prefixed =~= stay + path);
        assert(base + prefixed =~= base + stay + path);
        lemma_current_dir_says_nothing(base, path, false);
    }
}

/// Two components stand for the same exactly if they are of one kind and say the same. The letter
/// of a drive says the same in upper and lower case.
pub proof fn lemma_components_are_told_apart(left: PathComponent, right: PathComponent)
    ensures
        left@ == right@ <==> match (left, right) {
            (PathComponent::RootDir, PathComponent::RootDir) => true,
            (PathComponent::CurDir, PathComponent::CurDir) => true,
            (PathComponent::ParentDir, PathComponent::ParentDir) => true,
            (PathComponent::Normal(name), PathComponent::Normal(other)) => name@ == other@,
            (
                PathComponent::NonUnicode { bytes, lossy },
                PathComponent::NonUnicode { bytes: other, lossy: other_lossy },
            ) => bytes@ == other@ && lossy@ == other_lossy@,
            (PathComponent::Prefix(prefix), PathComponent::Prefix(other)) => match (
                prefix,
                other,
            ) {
                (
                    PathPrefix::Verbatim { name },
                    PathPrefix::Verbatim { name: other },
                ) => name@ == other@,
                (PathPrefix::Device { name }, PathPrefix::Device { name: other }) => name@
                    == other@,
                (
                    PathPrefix::VerbatimShare { server, share },
                    PathPrefix::VerbatimShare { server: other_server, share: other },
                ) => server@ == other_server@ && share@ == other@,
                (
                    PathPrefix::Share { server, share },
                    PathPrefix::Share { server: other_server, share: other },
                ) => server@ == other_server@ && share@ == other@,
                (
                    PathPrefix::VerbatimDrive { letter },
                    PathPrefix::VerbatimDrive { letter: other },
                ) => same_letter(letter, other),
                (PathPrefix::Drive { letter }, PathPrefix::Drive { letter: other }) => same_letter(
                    letter,
                    other,
                ),
                _ => false,
            },
            _ => false,
        },
{
}

/// Whether two ASCII characters are the same, or the same letter in upper and lower case.
pub open spec fn same_letter(letter: u8, other: u8) -> bool {
    ||| letter == other
    ||| 0x41 <= letter <= 0x5a && other == letter + 0x20
    ||| 0x41 <= other <= 0x5a && letter == other + 0x20
}

/// A path stands for the sequence of what its components stand for.
pub proof fn lemma_path_is_its_components(path: ModulePath, i: int)
    ensures
        path@.len() == path.components@.len(),
        0 <= i < path@.len() ==> path@[i] == path.components@[i]@,
{
}

} // verus!
