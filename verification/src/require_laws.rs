//! What the instances that requires are converted to are good for.
use crate::error::ErrorKindView;
use crate::host_path::{path_text, plainly_written, HostPathView};
use crate::instance_path::{InstancePathRoot, InstancePathView, StepView};
use crate::path_laws::{
    is_anchored_within, is_host_like, is_normal, is_way, lemma_current_dir_says_nothing,
    lemma_normalize_is_idempotent, lemma_normalized_append, lemma_normalized_is_normal,
    lemma_parent_dir_takes_back_a_name, lemma_prefixed_relative_path_start,
    lemma_relative_parent_of_file, lemma_relative_path_goes_up_and_down,
    lemma_relative_path_stands_for_the_module, lemma_relative_path_to_another_anchor,
    lemma_relative_way, shares, way,
};
use crate::path_utils::{
    anchor_len, common_len, lemma_common_len_bounds, parent_dirs, path_between, relative_parent,
    relative_path, without_current_dir,
};
use crate::paths::{joined, normalized, ComponentView, PathView};
use crate::require_mode::{is_module_folder, last_dot};
use crate::roblox_require_mode::{
    instance_at, path_of_module, steps_along, steps_at_start, MissingRequire, ModeView,
};
use crate::rojo_sourcemap::RojoSourcemapNode;
use crate::sourcemap_laws::lemma_instance_path_leads_to_target;
use crate::sourcemap_model::{sourcemap_of, SourcemapView};
use crate::tree_laws::{
    lemma_instance_path_leads_through_the_tree, lists_file_first, tree_walk,
};
use vstd::prelude::*;

verus! {

/// With a sourcemap, a require becomes an instance exactly if nothing is missing, and that
/// instance is the one of the required module: the path can be followed from the instance of the
/// source file, or from the root, and ends there.
pub proof fn lemma_generated_instance_leads_to_module(
    mode: ModeView,
    require_path: HostPathView,
    module_folder_name: Seq<char>,
    current_path: HostPathView,
)
    requires
        mode.uses_sourcemap(),
        mode.cached_sourcemap->0.wf(),
    ensures
        mode.missing(require_path.path, current_path.path) is Some <==> mode.generated(
            require_path,
            module_folder_name,
            current_path,
        ) == Ok::<Option<InstancePathView>, ErrorKindView>(None),
        mode.missing(require_path.path, current_path.path) is None ==> {
            let sourcemap = mode.cached_sourcemap->0;
            let target = relative_path(
                require_path.path,
                relative_parent(mode.rojo_sourcemap->0.path),
                false,
            )->0;
            let source = normalized(current_path.path, false);
            &&& mode.generated(require_path, module_folder_name, current_path) matches Ok(
                Some(path),
            )
            &&& sourcemap.steps_lead(
                sourcemap.start_node(path.root, sourcemap.node_ids_by_path[source]),
                path.components,
                sourcemap.node_ids_by_path[target],
            )
        },
{
    let sourcemap = mode.cached_sourcemap->0;
    if mode.missing(require_path.path, current_path.path) is None {
        let target = relative_path(
            require_path.path,
            relative_parent(mode.rojo_sourcemap->0.path),
            false,
        )->0;
        let source = normalized(current_path.path, false);
        assert(sourcemap.node_ids_by_path.contains_key(source));
        assert(sourcemap.node_ids_by_path.contains_key(target));
        lemma_instance_path_leads_to_target(
            sourcemap,
            sourcemap.node_ids_by_path[source],
            sourcemap.node_ids_by_path[target],
        );
    }
}

/// Without a sourcemap, a require becomes an instance or fails, nothing is passed over, and
/// instances are found from the script. It fails only where the module cannot be reached by a
/// relative path that leads through names that are valid Unicode.
pub proof fn lemma_generated_without_sourcemap(
    mode: ModeView,
    require_path: HostPathView,
    module_folder_name: Seq<char>,
    current_path: HostPathView,
)
    requires
        !mode.uses_sourcemap(),
    ensures
        match mode.generated(require_path, module_folder_name, current_path) {
            Ok(Some(path)) => path.root == InstancePathRoot::Script,
            Ok(None) => false,
            Err(kind) => kind is NoRelativePath || kind is Absolute || kind is NotUnicode
                || kind is UnexpectedComponent,
        },
{
    let source_path = normalized(current_path.path, false);
    lemma_prefixed_relative_path_start(require_path.path, source_path);
    if let Some(path) = relative_path(require_path.path, source_path, true) {
        let module = path_of_module(path, module_folder_name);
        if is_module_folder(path, module_folder_name) {
            assert(path.len() > 1) by {
                if path.len() == 1 {
                    assert(path.last() == path[0]);
                }
            }
        }
        assert(module[0] == path[0]);
        lemma_steps_along_errors(
            module.drop_first(),
            require_path.text,
            plainly_written(path, require_path.prefix, require_path.separator).text,
        );
    }
}

proof fn lemma_steps_along_errors(
    components: PathView,
    require_path: Seq<char>,
    relative_require_path: Seq<char>,
)
    ensures
        steps_along(components, require_path, relative_require_path) matches Err(kind) ==> kind
            is NotUnicode || kind is UnexpectedComponent,
    decreases components.len(),
{
    if components.len() > 0 {
        lemma_steps_along_errors(components.drop_last(), require_path, relative_require_path);
    }
}

/// A file that stands for its folder is required as the folder is.
pub proof fn lemma_module_folder_file_stands_for_its_folder(
    require_path: HostPathView,
    source_path: HostPathView,
    folder: HostPathView,
    file: HostPathView,
    module_folder_name: Seq<char>,
)
    requires
        file.path.len() > 0,
        file.path.drop_last() == folder.path,
        is_module_folder(file.path, module_folder_name),
        !is_module_folder(folder.path, module_folder_name),
    ensures
        match (
            instance_at(require_path, source_path, file, module_folder_name),
            instance_at(require_path, source_path, folder, module_folder_name),
        ) {
            (Ok(of_file), Ok(of_folder)) => of_file == of_folder,
            (Err(_), Err(_)) => true,
            _ => false,
        },
{
    if folder.path.len() > 0 {
        lemma_steps_along_whatever_is_written(
            folder.path.drop_first(),
            (require_path.text, require_path.text),
            (file.text, folder.text),
        );
    }
}

/// What is written of the paths shows in errors alone.
proof fn lemma_steps_along_whatever_is_written(
    components: PathView,
    require_path: (Seq<char>, Seq<char>),
    relative_require_path: (Seq<char>, Seq<char>),
)
    ensures
        match (
            steps_along(components, require_path.0, relative_require_path.0),
            steps_along(components, require_path.1, relative_require_path.1),
        ) {
            (Ok(left_steps), Ok(right_steps)) => left_steps == right_steps,
            (Err(_), Err(_)) => true,
            _ => false,
        },
    decreases components.len(),
{
    if components.len() > 0 {
        lemma_steps_along_whatever_is_written(
            components.drop_last(),
            require_path,
            relative_require_path,
        );
    }
}

/// How paths are written does not change what a require becomes: paths that stand for the same
/// files give the same instance, nothing at all, or an error each.
pub proof fn lemma_generated_whatever_is_written(
    mode: ModeView,
    require_path: HostPathView,
    same_require_path: HostPathView,
    module_folder_name: Seq<char>,
    current_path: HostPathView,
    same_current_path: HostPathView,
)
    requires
        require_path.path == same_require_path.path,
        current_path.path == same_current_path.path,
    ensures
        match (
            mode.generated(require_path, module_folder_name, current_path),
            mode.generated(same_require_path, module_folder_name, same_current_path),
        ) {
            (Ok(instance), Ok(same_instance)) => instance == same_instance,
            (Err(_), Err(_)) => true,
            _ => false,
        },
{
    let source_path = normalized(current_path.path, false);
    if let Some(path) = relative_path(require_path.path, source_path, true) {
        let module = path_of_module(path, module_folder_name);
        if module.len() > 0 {
            lemma_steps_along_whatever_is_written(
                module.drop_first(),
                (require_path.text, same_require_path.text),
                (
                    plainly_written(path, require_path.prefix, require_path.separator).text,
                    plainly_written(
                        path,
                        same_require_path.prefix,
                        same_require_path.separator,
                    ).text,
                ),
            );
        }
    }
}

/// A script that stands for its folder is one level closer to every module than the other
/// scripts in the folder.
pub proof fn lemma_module_folder_script_is_one_level_up(
    require_path: HostPathView,
    folder_script: HostPathView,
    other_script: HostPathView,
    relative_require_path: HostPathView,
    module_folder_name: Seq<char>,
)
    requires
        is_module_folder(folder_script.path, module_folder_name),
        !is_module_folder(other_script.path, module_folder_name),
    ensures
        match (
            instance_at(
                require_path,
                folder_script,
                relative_require_path,
                module_folder_name,
            ),
            instance_at(require_path, other_script, relative_require_path, module_folder_name),
        ) {
            (Ok(near), Ok(far)) => far.components == seq![StepView::Parent] + near.components,
            (Err(_), Err(_)) => true,
            _ => false,
        },
{
    let path = path_of_module(relative_require_path.path, module_folder_name);
    if path.len() > 0 {
        let near = steps_at_start(path[0], true);
        let far = steps_at_start(path[0], false);
        assert(far =~= seq![StepView::Parent] + near);
        if let Ok(steps) = steps_along(
            path.drop_first(),
            require_path.text,
            relative_require_path.text,
        ) {
            assert(far + steps =~= seq![StepView::Parent] + (near + steps));
        }
    }
}

/// Where the steps lead from a path, if the children of a folder are the entries in it.
pub open spec fn followed(path: PathView, steps: Seq<StepView>) -> PathView
    decreases steps.len(),
{
    if steps.len() == 0 {
        path
    } else {
        match steps.last() {
            StepView::Parent => followed(path, steps.drop_last()).drop_last(),
            StepView::Child(name) => followed(path, steps.drop_last()).push(
                ComponentView::Normal(name),
            ),
        }
    }
}

proof fn lemma_followed_append(path: PathView, steps: Seq<StepView>, more: Seq<StepView>)
    ensures
        followed(path, steps + more) == followed(followed(path, steps), more),
    decreases more.len(),
{
    if more.len() == 0 {
        assert(steps + more =~= steps);
    } else {
        lemma_followed_append(path, steps, more.drop_last());
        assert((steps + more).drop_last() =~= steps + more.drop_last());
        assert((steps + more).last() == more.last());
    }
}

/// Upwards, and then down through names.
proof fn lemma_followed_way(
    path: PathView,
    up: int,
    down: PathView,
    require_path: Seq<char>,
    relative_require_path: Seq<char>,
)
    requires
        0 <= up <= path.len(),
        forall|i: int| 0 <= i < down.len() ==> (#[trigger] down[i]).is_name(),
    ensures
        steps_along(
            parent_dirs(up) + down,
            require_path,
            relative_require_path,
        ) matches Ok(steps) ==> followed(path, steps) == path.take(path.len() - up) + down,
    decreases up + down.len(),
{
    let components = parent_dirs(up) + down;
    if down.len() > 0 {
        lemma_followed_way(path, up, down.drop_last(), require_path, relative_require_path);
        assert(components.drop_last() =~= parent_dirs(up) + down.drop_last());
        assert(components.last() == down.last());
        assert(down.last() == down[down.len() - 1]);
        if let Ok(steps) = steps_along(components, require_path, relative_require_path) {
            assert(steps.drop_last() =~= steps_along(
                components.drop_last(),
                require_path,
                relative_require_path,
            )->Ok_0);
            assert(followed(path, steps) =~= path.take(path.len() - up) + down);
        }
    } else if up > 0 {
        lemma_followed_way(path, up - 1, down, require_path, relative_require_path);
        assert(components.drop_last() =~= parent_dirs(up - 1) + down);
        assert(components.last() is ParentDir);
        if let Ok(steps) = steps_along(components, require_path, relative_require_path) {
            assert(steps.drop_last() =~= steps_along(
                components.drop_last(),
                require_path,
                relative_require_path,
            )->Ok_0);
            assert(followed(path, steps) =~= path.take(path.len() - up) + down);
        }
    } else {
        assert(components =~= PathView::empty());
        assert(path.take(path.len() as int) + down =~= path);
    }
}

/// The first steps lead to the directory of the source file, or to the one above it.
proof fn lemma_followed_start(
    source_path: PathView,
    first: ComponentView,
    module_folder_name: Seq<char>,
)
    requires
        source_path.len() > 0,
        first is ParentDir ==> source_path.len() > 1,
    ensures
        followed(
            path_of_module(source_path, module_folder_name),
            steps_at_start(first, is_module_folder(source_path, module_folder_name)),
        ) == if first is ParentDir {
            source_path.drop_last().drop_last()
        } else {
            source_path.drop_last()
        },
{
    let script = path_of_module(source_path, module_folder_name);
    let up_one = seq![StepView::Parent];
    let up_two = seq![StepView::Parent, StepView::Parent];
    assert(up_one.drop_last() =~= Seq::empty());
    assert(up_two.drop_last() =~= up_one);
    assert(followed(script, up_one.drop_last()) == script);
    assert(followed(script, up_one) == script.drop_last());
    assert(followed(script, up_two) == script.drop_last().drop_last());
}

/// The part of the way down that is followed to a module.
spec fn way_down(
    require_path: PathView,
    common: int,
    leave_out_file: bool,
) -> PathView {
    if leave_out_file {
        require_path.skip(common).drop_last()
    } else {
        require_path.skip(common)
    }
}

/// The steps from the directory of the source file.
proof fn lemma_followed_module(
    from: PathView,
    require_path: PathView,
    path: PathView,
    module: PathView,
    leave_out_file: bool,
    require_text: Seq<char>,
    relative_text: Seq<char>,
)
    requires
        ({
            let common = common_len(require_path, from);
            ||| common < from.len() && path == way(require_path, from)
            ||| common == from.len() && path == seq![ComponentView::CurDir] + way(
                require_path,
                from,
            )
        }),
        forall|i: int|
            common_len(require_path, from) <= i < require_path.len() ==> (
            #[trigger] require_path[i]).is_name(),
        leave_out_file ==> path.len() > 0 && path.last().is_name(),
        module == if leave_out_file {
            path.drop_last()
        } else {
            path
        },
    ensures
        module.len() > 0,
        module[0] is ParentDir <==> common_len(require_path, from) < from.len(),
        steps_along(module.drop_first(), require_text, relative_text) matches Ok(steps) ==> followed(
            if module[0] is ParentDir {
                from.drop_last()
            } else {
                from
            },
            steps,
        ) == if leave_out_file {
            require_path.drop_last()
        } else {
            require_path
        },
{
    let common = common_len(require_path, from);
    let up = from.len() - common;
    let down = require_path.skip(common);
    lemma_common_len_bounds(require_path, from);
    if leave_out_file {
        assert(down.len() > 0) by {
            if down.len() == 0 {
                assert(!path[path.len() - 1].is_name());
            }
        }
    }
    let kept = way_down(require_path, common, leave_out_file);
    assert forall|i: int| 0 <= i < kept.len() implies (#[trigger] kept[i]).is_name() by {
        assert(kept[i] == require_path[common + i]);
    }
    assert(from.take(common) + down =~= require_path);
    if leave_out_file {
        assert(from.take(common) + kept =~= require_path.drop_last());
    }
    assert(module[0] == path[0]);
    if up > 0 {
        assert(module.drop_first() =~= parent_dirs(up - 1) + kept);
        lemma_followed_way(from.drop_last(), up - 1, kept, require_text, relative_text);
        assert(from.drop_last().take(from.len() - up) =~= from.take(common));
    } else {
        assert(module.drop_first() =~= parent_dirs(0) + kept);
        lemma_followed_way(from, 0, kept, require_text, relative_text);
    }
}

/// Without a sourcemap, the instance that a require becomes mirrors the files: its steps, followed
/// from the source file, or from its folder where it stands for that, lead to the required file,
/// or to its folder where that is required in its place.
///
/// Both paths are normal, the source path names a file, and the required path does not lead
/// upwards.
pub proof fn lemma_relative_instance_mirrors_files(
    require_path: HostPathView,
    source_path: HostPathView,
    relative_require_path: HostPathView,
    module_folder_name: Seq<char>,
)
    requires
        is_normal(source_path.path, false),
        source_path.path.len() > 0,
        source_path.path.last().is_name(),
        forall|i: int|
            anchor_len(require_path.path) <= i < require_path.path.len() ==> (
            #[trigger] require_path.path[i]).is_name(),
        relative_path(require_path.path, source_path.path, true) == Some(
            relative_require_path.path,
        ),
    ensures
        instance_at(
            require_path,
            source_path,
            relative_require_path,
            module_folder_name,
        ) matches Ok(instance) ==> followed(
            path_of_module(source_path.path, module_folder_name),
            instance.components,
        ) == if is_module_folder(relative_require_path.path, module_folder_name) {
            require_path.path.drop_last()
        } else {
            require_path.path
        },
{
    let path = relative_require_path.path;
    if let Ok(instance) = instance_at(
        require_path,
        source_path,
        relative_require_path,
        module_folder_name,
    ) {
        let from = source_path.path.drop_last();
        let module = path_of_module(path, module_folder_name);
        lemma_relative_way(require_path.path, source_path.path);
        lemma_prefixed_relative_path_start(require_path.path, source_path.path);
        assert(module[0] == path[0]);
        lemma_followed_module(
            from,
            require_path.path,
            path,
            module,
            is_module_folder(path, module_folder_name),
            require_path.text,
            relative_require_path.text,
        );
        lemma_followed_start(source_path.path, module[0], module_folder_name);
        lemma_followed_append(
            path_of_module(source_path.path, module_folder_name),
            steps_at_start(module[0], is_module_folder(source_path.path, module_folder_name)),
            steps_along(
                module.drop_first(),
                require_path.text,
                relative_require_path.text,
            )->Ok_0,
        );
    }
}

/// With a sourcemap, a require becomes an instance exactly if there is a path from the sourcemap
/// to the module, and both files are in the sourcemap. Then nothing is missing, and the instance
/// is the one that the sourcemap has between the two files. Otherwise what is missing is said,
/// and the require is left as it is.
pub proof fn lemma_generated_exactly_if_both_files_are_there(
    mode: ModeView,
    require_path: HostPathView,
    module_folder_name: Seq<char>,
    current_path: HostPathView,
    sourcemap: SourcemapView,
    sourcemap_path: HostPathView,
)
    requires
        mode.cached_sourcemap == Some(sourcemap),
        mode.rojo_sourcemap == Some(sourcemap_path),
    ensures
        ({
            let ids = sourcemap.node_ids_by_path;
            let source = normalized(current_path.path, false);
            let target = relative_path(
                require_path.path,
                relative_parent(sourcemap_path.path),
                false,
            );
            let generated = mode.generated(require_path, module_folder_name, current_path);
            let missing = mode.missing(require_path.path, current_path.path);
            if target is Some && ids.contains_key(source) && ids.contains_key(target->0) {
                &&& missing is None
                &&& generated == Ok::<Option<InstancePathView>, ErrorKindView>(
                    Some(sourcemap.instance_path(ids[source], ids[target->0])),
                )
            } else {
                &&& generated == Ok::<Option<InstancePathView>, ErrorKindView>(None)
                &&& missing == if target is None {
                    Some(MissingRequire::NoRelativePath)
                } else if !ids.contains_key(source) {
                    Some(MissingRequire::SourceNotInSourcemap)
                } else {
                    Some(MissingRequire::RequireNotInSourcemap)
                }
            }
        }),
{
}

/// With the sourcemap of a tree, the instance that a require becomes leads through that tree: from
/// the first node that lists the source file, or from the root, to the first node that lists the
/// required file.
pub proof fn lemma_generated_instance_leads_through_the_tree(
    mode: ModeView,
    require_path: HostPathView,
    module_folder_name: Seq<char>,
    current_path: HostPathView,
    root: RojoSourcemapNode,
    base: PathView,
    sourcemap_path: HostPathView,
    target_file: PathView,
    from: Seq<int>,
    target: Seq<int>,
)
    requires
        mode.cached_sourcemap == Some(sourcemap_of(root, base)),
        mode.rojo_sourcemap == Some(sourcemap_path),
        relative_path(require_path.path, relative_parent(sourcemap_path.path), false) == Some(
            target_file,
        ),
        lists_file_first(root, base, from, normalized(current_path.path, false)),
        lists_file_first(root, base, target, target_file),
    ensures
        mode.generated(require_path, module_folder_name, current_path) matches Ok(Some(path))
            && tree_walk(
            root,
            match path.root {
                InstancePathRoot::Root => Seq::empty(),
                InstancePathRoot::Script => from,
            },
            path.components,
            target,
        ),
{
    lemma_instance_path_leads_through_the_tree(
        root,
        base,
        normalized(current_path.path, false),
        target_file,
        from,
        target,
    );
    lemma_generated_exactly_if_both_files_are_there(
        mode,
        require_path,
        module_folder_name,
        current_path,
        sourcemap_of(root, base),
        sourcemap_path,
    );
}

/// Whether a name consists of a stem, a `.`, and an extension in which there is no further `.`.
pub open spec fn has_extension(name: Seq<char>, stem: Seq<char>, extension: Seq<char>) -> bool {
    &&& name == stem + seq!['.'] + extension
    &&& !extension.contains('.')
}

proof fn lemma_last_dot(name: Seq<char>)
    ensures
        -1 <= last_dot(name) < name.len(),
        last_dot(name) >= 0 ==> name[last_dot(name)] == '.',
        forall|i: int| last_dot(name) < i < name.len() ==> #[trigger] name[i] != '.',
    decreases name.len(),
{
    if name.len() > 0 {
        lemma_last_dot(name.drop_last());
        assert(name.last() == name[name.len() - 1]);
        assert forall|i: int| last_dot(name) < i < name.len() implies #[trigger] name[i]
            != '.' by {
            if i < name.len() - 1 {
                assert(name.drop_last()[i] == name[i]);
            }
        }
    }
}

/// The files that stand for their folder are those with the given name, with or without an
/// extension.
pub proof fn lemma_module_folder_files(path: PathView, module_folder_name: Seq<char>)
    ensures
        is_module_folder(path, module_folder_name) <==> {
            &&& path.len() > 0
            &&& path.last() matches ComponentView::Normal(name) && {
                ||| name == module_folder_name
                ||| module_folder_name.len() > 0 && exists|extension: Seq<char>|
                    has_extension(name, module_folder_name, extension)
            }
        },
{
    if path.len() > 0 {
        if let ComponentView::Normal(name) = path.last() {
            lemma_last_dot(name);
            let dot = last_dot(name);
            if dot > 0 && name.take(dot) == module_folder_name {
                let extension = name.skip(dot + 1);
                assert(name =~= name.take(dot) + seq!['.'] + extension);
                assert(!extension.contains('.')) by {
                    if extension.contains('.') {
                        let i = choose|i: int| 0 <= i < extension.len() && extension[i] == '.';
                        assert(name[dot + 1 + i] == '.');
                    }
                }
                assert(has_extension(name, module_folder_name, extension));
            }
            if module_folder_name.len() > 0 && exists|extension: Seq<char>|
                has_extension(name, module_folder_name, extension) {
                let extension = choose|extension: Seq<char>|
                    has_extension(name, module_folder_name, extension);
                let len = module_folder_name.len() as int;
                assert(name[len] == '.');
                assert(dot == len) by {
                    if dot > len {
                        assert(extension[dot - len - 1] == name[dot]);
                        assert(extension.contains('.'));
                    }
                }
                assert(name.take(dot) =~= module_folder_name);
            }
        }
    }
}

/// The step that a component stands for.
pub open spec fn step_of(component: ComponentView) -> StepView {
    match component {
        ComponentView::Normal(name) => StepView::Child(name),
        _ => StepView::Parent,
    }
}

/// Each component is one step, as far as names are valid Unicode.
proof fn lemma_steps_are_mapped(
    components: PathView,
    require_path: Seq<char>,
    relative_require_path: Seq<char>,
)
    requires
        forall|i: int|
            0 <= i < components.len() ==> (#[trigger] components[i]) is ParentDir
                || components[i].is_name(),
    ensures
        match steps_along(components, require_path, relative_require_path) {
            Ok(steps) => {
                &&& steps.len() == components.len()
                &&& forall|i: int|
                    #![trigger components[i]]
                    #![trigger steps[i]]
                    0 <= i < components.len() ==> !(components[i] is NonUnicode) && steps[i]
                        == step_of(components[i])
            },
            Err(kind) => kind is NotUnicode && exists|i: int|
                0 <= i < components.len() && (#[trigger] components[i]) is NonUnicode,
        },
    decreases components.len(),
{
    if components.len() > 0 {
        let rest = components.drop_last();
        assert forall|i: int| 0 <= i < rest.len() implies (#[trigger] rest[i]) is ParentDir
            || rest[i].is_name() by {
            assert(rest[i] == components[i]);
        }
        lemma_steps_are_mapped(rest, require_path, relative_require_path);
        assert(components.last() == components[components.len() - 1]);
        match steps_along(components, require_path, relative_require_path) {
            Ok(steps) => {
                assert forall|i: int|
                    #![trigger components[i]]
                    #![trigger steps[i]]
                    0 <= i < components.len() implies !(components[i] is NonUnicode) && steps[i]
                    == step_of(components[i]) by {
                    if i < rest.len() {
                        assert(rest[i] == components[i]);
                        assert(steps_along(rest, require_path, relative_require_path)->Ok_0[i]
                            == steps[i]);
                    }
                }
            },
            Err(_) => {
                if steps_along(rest, require_path, relative_require_path) is Err {
                    let i = choose|i: int|
                        0 <= i < rest.len() && (#[trigger] rest[i]) is NonUnicode;
                    assert(components[i] is NonUnicode);
                }
            },
        }
    }
}

/// How many components of a required path are followed: a file that stands for its folder is left
/// out, unless it is in what the paths share.
pub open spec fn followed_len(
    require_path: PathView,
    shared: int,
    module_folder_name: Seq<char>,
) -> int {
    if shared < require_path.len() && is_module_folder(require_path, module_folder_name) {
        require_path.len() - 1
    } else {
        require_path.len() as int
    }
}

/// Whether the steps of an instance go up the given number of levels, and then down through the
/// components of `path` from `shared` to `end`.
pub open spec fn goes_up_and_down(
    steps: Seq<StepView>,
    up: int,
    path: PathView,
    shared: int,
    end: int,
) -> bool {
    &&& steps.len() == up + end - shared
    &&& forall|i: int| 0 <= i < up ==> (#[trigger] steps[i]) is Parent
    &&& forall|i: int| up <= i < steps.len() ==> #[trigger] steps[i] == step_of(path[i - up
        + shared])
}

/// The instance at the end of a way.
proof fn lemma_instance_at_end_of_way(
    require_path: HostPathView,
    source_path: HostPathView,
    relative: HostPathView,
    from: PathView,
    shared: int,
    module_folder_name: Seq<char>,
)
    requires
        is_normal(require_path.path, false),
        shares(require_path.path, from, shared),
        is_anchored_within(require_path.path, shared),
        is_way(relative.path, require_path.path, from, shared, true),
    ensures
        ({
            let end = followed_len(require_path.path, shared, module_folder_name);
            let up = from.len() - shared + if is_module_folder(
                source_path.path,
                module_folder_name,
            ) {
                0int
            } else {
                1int
            };
            match instance_at(require_path, source_path, relative, module_folder_name) {
                Ok(instance) => {
                    &&& instance.root == InstancePathRoot::Script
                    &&& goes_up_and_down(instance.components, up, require_path.path, shared, end)
                    &&& forall|i: int|
                        shared <= i < end ==> !((#[trigger] require_path.path[i]) is NonUnicode)
                },
                Err(kind) => {
                    &&& kind is NotUnicode
                    &&& exists|i: int|
                        shared <= i < end && (#[trigger] require_path.path[i]) is NonUnicode
                },
            }
        }),
{
    let path = relative.path;
    let to = require_path.path;
    let levels = from.len() - shared;
    let end = followed_len(to, shared, module_folder_name);
    let module = path_of_module(path, module_folder_name);
    assert(path.len() > 0);
    let start = path.len() - levels - (to.len() - shared);
    assert(path.last() == path[path.len() - 1]);
    if shared < to.len() {
        assert(path.last() == to[to.len() - 1]);
        assert(to.last() == to[to.len() - 1]);
    }
    assert(is_module_folder(path, module_folder_name) <==> end < to.len());
    assert(module.len() == start + levels + (end - shared));
    assert(path[0] is CurDir || path[0] is ParentDir) by {
        if start == 0 && levels == 0 {
            assert(path[0] == to[shared]);
        }
    }
    assert(module.len() > 0) by {
        if end < to.len() {
            assert(path.last().is_name());
        }
    }
    assert(module[0] == path[0]);
    let rest = module.drop_first();
    assert forall|i: int| 0 <= i < rest.len() implies (#[trigger] rest[i]) is ParentDir
        || rest[i].is_name() by {
        assert(rest[i] == path[i + 1]);
        if i + 1 >= start + levels {
            assert(path[i + 1] == to[i + 1 - start - levels + shared]);
            let k = i + 1 - start - levels + shared;
            assert(!(to[k] is CurDir) && !(to[k] is Prefix) && !(to[k] is RootDir));
        }
    }
    lemma_steps_are_mapped(rest, require_path.text, relative.text);
    match steps_along(rest, require_path.text, relative.text) {
        Ok(steps) => {
            let is_folder = is_module_folder(source_path.path, module_folder_name);
            let first = steps_at_start(module[0], is_folder);
            let all = first + steps;
            let up = levels + if is_folder {
                0int
            } else {
                1int
            };
            assert(all.len() == up + end - shared);
            assert forall|i: int| 0 <= i < up implies (#[trigger] all[i]) is Parent by {
                if i >= first.len() {
                    let k = i - first.len();
                    assert(all[i] == steps[k]);
                    assert(rest[k] == path[k + 1]);
                }
            }
            assert forall|i: int| up <= i < all.len() implies #[trigger] all[i] == step_of(
                to[i - up + shared],
            ) by {
                if i >= first.len() {
                    let k = i - first.len();
                    assert(all[i] == steps[k]);
                    assert(rest[k] == path[k + 1]);
                    assert(path[k + 1] == to[i - up + shared]);
                } else {
                    assert(path[0] == to[i - up + shared]);
                }
            }
            assert forall|i: int| shared <= i < end implies !((#[trigger] to[i])
                is NonUnicode) by {
                let k = i - shared + start + levels;
                assert(path[k] == to[i]);
                if k > 0 {
                    assert(rest[k - 1] == path[k]);
                }
            }
        },
        Err(_) => {
            let k = choose|k: int| 0 <= k < rest.len() && (#[trigger] rest[k]) is NonUnicode;
            assert(rest[k] == path[k + 1]);
            assert(path[k + 1] == to[k + 1 - start - levels + shared]);
        },
    }
}

/// Without a sourcemap, a require of a normal path becomes the instance that goes up from the
/// script to the nearest folder that holds both files, and down from there by the names of the
/// required path. A script that stands for its folder is that folder, and a required file that
/// stands for its folder is left out. `shared` is how much the required path shares with the
/// directory of the source file.
///
/// It fails exactly where something else than a name would have to be left, or where a name on the
/// way down is not valid Unicode.
pub proof fn lemma_generated_goes_up_and_down(
    mode: ModeView,
    require_path: HostPathView,
    module_folder_name: Seq<char>,
    current_path: HostPathView,
    source_path: PathView,
    shared: int,
)
    requires
        mode.cached_sourcemap is None || mode.rojo_sourcemap is None,
        source_path == normalized(current_path.path, false),
        source_path.len() > 0,
        source_path.last().is_name(),
        is_normal(require_path.path, false),
        shares(require_path.path, source_path.drop_last(), shared),
        is_anchored_within(require_path.path, shared),
        is_anchored_within(source_path.drop_last(), shared),
    ensures
        ({
            let from = source_path.drop_last();
            let end = followed_len(require_path.path, shared, module_folder_name);
            let up = from.len() - shared + if is_module_folder(source_path, module_folder_name) {
                0int
            } else {
                1int
            };
            match mode.generated(require_path, module_folder_name, current_path) {
                Ok(Some(instance)) => {
                    &&& instance.root == InstancePathRoot::Script
                    &&& goes_up_and_down(instance.components, up, require_path.path, shared, end)
                    &&& forall|i: int| shared <= i < from.len() ==> (#[trigger] from[i]).is_name()
                    &&& forall|i: int|
                        shared <= i < end ==> !((#[trigger] require_path.path[i]) is NonUnicode)
                },
                Ok(None) => false,
                Err(kind) => {
                    ||| kind == (ErrorKindView::NoRelativePath {
                        require_path: require_path.text,
                        source_path: path_text(
                            source_path,
                            current_path.prefix,
                            current_path.separator,
                        ),
                    }) && !(forall|i: int|
                        shared <= i < from.len() ==> (#[trigger] from[i]).is_name())
                    ||| kind is NotUnicode && (forall|i: int|
                        shared <= i < from.len() ==> (#[trigger] from[i]).is_name()) && exists|
                        i: int,
                    |
                        shared <= i < end && (#[trigger] require_path.path[i]) is NonUnicode
                },
            }
        }),
{
    let from = source_path.drop_last();
    lemma_normalized_is_normal(current_path.path, false);
    lemma_relative_parent_of_file(source_path);
    if source_path.len() == 1 {
        assert(relative_parent(source_path) =~= seq![ComponentView::CurDir] + from);
    }
    if from.len() > 0 {
        assert(from[0] == source_path[0]);
        assert(!(source_path[0] is CurDir));
    }
    lemma_relative_path_goes_up_and_down(require_path.path, source_path, from, shared, true);
    if let Some(path) = relative_path(require_path.path, source_path, true) {
        lemma_instance_at_end_of_way(
            require_path,
            current_path.normal(),
            plainly_written(path, require_path.prefix, require_path.separator),
            from,
            shared,
            module_folder_name,
        );
    }
}

/// Without a sourcemap, a require of a normal path that is anchored elsewhere than the source file
/// is refused: as an absolute path, or because there is no way to it.
pub proof fn lemma_generated_across_anchors(
    mode: ModeView,
    require_path: HostPathView,
    module_folder_name: Seq<char>,
    current_path: HostPathView,
    source_path: PathView,
    shared: int,
)
    requires
        mode.cached_sourcemap is None || mode.rojo_sourcemap is None,
        source_path == normalized(current_path.path, false),
        source_path.len() > 0,
        source_path.last().is_name(),
        is_normal(require_path.path, false),
        is_host_like(require_path.path),
        is_host_like(source_path.drop_last()),
        shares(require_path.path, source_path.drop_last(), shared),
        !is_anchored_within(require_path.path, shared) || !is_anchored_within(
            source_path.drop_last(),
            shared,
        ),
    ensures
        mode.generated(require_path, module_folder_name, current_path) matches Err(kind)
            && if require_path.path.len() > 0 && (require_path.path[0] is Prefix
            || require_path.path[0] is RootDir) {
            kind == (ErrorKindView::Absolute { require_path: require_path.text })
        } else {
            kind == (ErrorKindView::NoRelativePath {
                require_path: require_path.text,
                source_path: path_text(
                    source_path,
                    current_path.prefix,
                    current_path.separator,
                ),
            })
        },
{
    let from = source_path.drop_last();
    let to = require_path.path;
    lemma_normalized_is_normal(current_path.path, false);
    lemma_relative_parent_of_file(source_path);
    if source_path.len() == 1 {
        assert(relative_parent(source_path) =~= seq![ComponentView::CurDir] + from);
    }
    if from.len() > 0 {
        assert(from[0] == source_path[0]);
        assert(!(source_path[0] is CurDir));
    }
    lemma_relative_path_to_another_anchor(to, source_path, from, shared, true);
    if to.len() > 0 && (to[0] is Prefix || to[0] is RootDir) {
        let module = path_of_module(to, module_folder_name);
        if is_module_folder(to, module_folder_name) {
            assert(to.last() == to[to.len() - 1]);
            assert(to.len() > 1);
        }
        assert(module[0] == to[0]);
    }
}

/// A relative path that is `.` or `..` leads to the folder of the script, or to the one above it.
/// One that is a single other component is refused, and so is one that is empty.
pub proof fn lemma_relative_instance_start(
    require_path: HostPathView,
    source_path: HostPathView,
    relative_require_path: HostPathView,
    module_folder_name: Seq<char>,
)
    requires
        relative_require_path.path.len() <= 1,
        !is_module_folder(relative_require_path.path, module_folder_name),
    ensures
        ({
            let path = relative_require_path.path;
            let found = instance_at(
                require_path,
                source_path,
                relative_require_path,
                module_folder_name,
            );
            if path.len() == 0 {
                found == Err::<InstancePathView, ErrorKindView>(
                    ErrorKindView::EmptyRelativePath {
                        require_path: require_path.text,
                        source_path: source_path.text,
                        relative_require_path: relative_require_path.text,
                    },
                )
            } else if path[0] is CurDir || path[0] is ParentDir {
                &&& found matches Ok(instance)
                &&& instance.root == InstancePathRoot::Script
                &&& forall|i: int|
                    0 <= i < instance.components.len() ==> (#[trigger] instance.components[i])
                        is Parent
                &&& instance.components.len() == (if path[0] is ParentDir {
                    1int
                } else {
                    0
                }) + (if is_module_folder(source_path.path, module_folder_name) {
                    0int
                } else {
                    1
                })
            } else if path[0] is Prefix || path[0] is RootDir {
                found == Err::<InstancePathView, ErrorKindView>(
                    ErrorKindView::Absolute { require_path: require_path.text },
                )
            } else {
                found == Err::<InstancePathView, ErrorKindView>(
                    ErrorKindView::NotRelative {
                        require_path: require_path.text,
                        relative_require_path: relative_require_path.text,
                    },
                )
            }
        }),
{
    let path = relative_require_path.path;
    if path.len() > 0 {
        assert(path.drop_first() =~= PathView::empty());
        assert(steps_along(
            path.drop_first(),
            require_path.text,
            relative_require_path.text,
        ) == Ok::<Seq<StepView>, ErrorKindView>(Seq::empty()));
    }
}

/// Each further component of a relative path is one step more: to a child, to the parent, or none
/// at all. What is no step is refused, and what was refused stays so.
pub proof fn lemma_relative_instance_step(
    require_path: HostPathView,
    source_path: HostPathView,
    shorter: HostPathView,
    longer: HostPathView,
    module_folder_name: Seq<char>,
)
    requires
        shorter.path.len() > 0,
        longer.path.len() == shorter.path.len() + 1,
        longer.path.take(shorter.path.len() as int) == shorter.path,
        !is_module_folder(shorter.path, module_folder_name),
        !is_module_folder(longer.path, module_folder_name),
    ensures
        match (
            instance_at(require_path, source_path, shorter, module_folder_name),
            instance_at(require_path, source_path, longer, module_folder_name),
        ) {
            (Ok(before), Ok(after)) => {
                &&& after.root == before.root
                &&& match longer.path[longer.path.len() - 1] {
                    ComponentView::CurDir => after.components == before.components,
                    ComponentView::ParentDir => after.components == before.components.push(
                        StepView::Parent,
                    ),
                    ComponentView::Normal(name) => after.components == before.components.push(
                        StepView::Child(name),
                    ),
                    _ => false,
                }
            },
            (Ok(_), Err(kind)) => match longer.path[longer.path.len() - 1] {
                ComponentView::NonUnicode { lossy, .. } => kind == (ErrorKindView::NotUnicode {
                    lossy,
                }),
                ComponentView::Prefix(_) | ComponentView::RootDir => kind == (
                ErrorKindView::UnexpectedComponent {
                    require_path: require_path.text,
                    relative_require_path: longer.text,
                }),
                _ => false,
            },
            (Err(_), after) => after is Err,
        },
{
    let short = shorter.path;
    let long = longer.path;
    assert(long.drop_last() =~= short);
    assert(long[0] == short[0]);
    let rest = long.drop_first();
    assert(rest.drop_last() =~= short.drop_first());
    assert(rest.last() == long[long.len() - 1]);
    lemma_steps_along_whatever_is_written(
        short.drop_first(),
        (require_path.text, require_path.text),
        (shorter.text, longer.text),
    );
    let first = steps_at_start(
        short[0],
        is_module_folder(source_path.path, module_folder_name),
    );
    if let Ok(steps) = steps_along(short.drop_first(), require_path.text, longer.text) {
        if let Ok(more) = steps_along(rest, require_path.text, longer.text) {
            assert(more.len() > steps.len() ==> first + more =~= (first + steps).push(
                more.last(),
            ));
        }
    }
}

/// A mode that gets a sourcemap keeps its configuration.
pub proof fn lemma_sourcemap_changes_no_configuration(mode: ModeView, sourcemap: SourcemapView)
    ensures
        mode.with_sourcemap(sourcemap).rojo_sourcemap == mode.rojo_sourcemap,
        mode.with_sourcemap(sourcemap).indexing_style == mode.indexing_style,
        mode.with_sourcemap(sourcemap).cached_sourcemap == Some(sourcemap),
        mode.with_sourcemap(sourcemap).uses_sourcemap() <==> mode.rojo_sourcemap is Some,
{
}

/// The path that steps spell: `..` for each step to a parent, and the name of each child.
pub open spec fn spelled(steps: Seq<StepView>) -> PathView {
    Seq::new(
        steps.len(),
        |i: int|
            match steps[i] {
                StepView::Parent => ComponentView::ParentDir,
                StepView::Child(name) => ComponentView::Normal(name),
            },
    )
}

/// Steps along components spell what the components stand for.
proof fn lemma_steps_spell_components(
    start: PathView,
    components: PathView,
    require_path: Seq<char>,
    relative_require_path: Seq<char>,
)
    ensures
        match steps_along(components, require_path, relative_require_path) {
            Ok(steps) => normalized(start + spelled(steps), false) == normalized(
                start + components,
                false,
            ),
            Err(_) => exists|i: int|
                0 <= i < components.len() && ((#[trigger] components[i]) is NonUnicode
                    || components[i] is Prefix || components[i] is RootDir),
        },
    decreases components.len(),
{
    if components.len() == 0 {
        assert(spelled(Seq::empty()) =~= components);
    } else {
        let rest = components.drop_last();
        let last = components.last();
        lemma_steps_spell_components(start, rest, require_path, relative_require_path);
        assert((start + components).drop_last() =~= start + rest);
        assert((start + components).last() == last);
        assert(last == components[components.len() - 1]);
        match steps_along(rest, require_path, relative_require_path) {
            Ok(before) => {
                if let Ok(steps) = steps_along(components, require_path, relative_require_path) {
                    if !(last is CurDir) {
                        assert(spelled(steps) =~= spelled(before).push(last));
                        assert((start + spelled(steps)).drop_last() =~= start + spelled(before));
                        assert((start + spelled(steps)).last() == last);
                    }
                }
            },
            Err(_) => {
                let i = choose|i: int|
                    0 <= i < rest.len() && ((#[trigger] rest[i]) is NonUnicode || rest[i]
                        is Prefix || rest[i] is RootDir);
                assert(components[i] == rest[i]);
            },
        }
    }
}

/// The instance at the end of a relative path stands for the path after the directory of the
/// script.
proof fn lemma_instance_spells_relative_path(
    require_path: HostPathView,
    source_path: HostPathView,
    relative: HostPathView,
    module_folder_name: Seq<char>,
)
    requires
        source_path.path.len() > 0,
        source_path.path.last().is_name(),
        relative.path.len() > 0,
        relative.path[0] is CurDir || relative.path[0] is ParentDir,
    ensures
        match instance_at(require_path, source_path, relative, module_folder_name) {
            Ok(instance) => {
                &&& instance.root == InstancePathRoot::Script
                &&& normalized(
                    path_of_module(source_path.path, module_folder_name) + spelled(
                        instance.components,
                    ),
                    false,
                ) == normalized(
                    source_path.path.drop_last() + path_of_module(
                        relative.path,
                        module_folder_name,
                    ),
                    false,
                )
            },
            Err(_) => exists|i: int|
                0 <= i < relative.path.len() && ((#[trigger] relative.path[i]) is NonUnicode
                    || relative.path[i] is Prefix || relative.path[i] is RootDir),
        },
{
    let path = relative.path;
    let source = source_path.path;
    let folder = source.drop_last();
    let is_folder = is_module_folder(source, module_folder_name);
    let script = path_of_module(source, module_folder_name);
    let module = path_of_module(path, module_folder_name);
    assert(module.len() > 0) by {
        if path.len() == 1 {
            assert(path.last() == path[0]);
        }
    }
    assert(module[0] == path[0]);
    let rest = module.drop_first();
    let first = steps_at_start(module[0], is_folder);
    let head = seq![module[0]];
    assert(head + rest =~= module);
    lemma_first_steps_spell_start(source, module[0], is_folder);
    lemma_steps_spell_components(script + spelled(first), rest, require_path.text, relative.text);
    match steps_along(rest, require_path.text, relative.text) {
        Ok(steps) => {
            assert(spelled(first + steps) =~= spelled(first) + spelled(steps));
            assert(script + (spelled(first) + spelled(steps)) =~= script + spelled(first)
                + spelled(steps));
            lemma_normalized_append(script + spelled(first), rest, false);
            lemma_normalized_append(folder + head, rest, false);
            assert(folder + head + rest =~= folder + module);
        },
        Err(_) => {
            let i = choose|i: int|
                0 <= i < rest.len() && ((#[trigger] rest[i]) is NonUnicode || rest[i] is Prefix
                    || rest[i] is RootDir);
            assert(path[i + 1] == rest[i]);
        },
    }
}

proof fn lemma_first_steps_spell_start(source: PathView, first: ComponentView, is_folder: bool)
    requires
        source.len() > 0,
        source.last().is_name(),
        first is CurDir || first is ParentDir,
    ensures
        normalized(
            (if is_folder {
                source.drop_last()
            } else {
                source
            }) + spelled(steps_at_start(first, is_folder)),
            false,
        ) == normalized(source.drop_last() + seq![first], false),
{
    let folder = source.drop_last();
    let up = ComponentView::ParentDir;
    let nothing = PathView::empty();
    lemma_current_dir_says_nothing(folder, nothing, false);
    assert(folder + seq![ComponentView::CurDir] + nothing =~= folder + seq![
        ComponentView::CurDir,
    ]);
    assert(folder + nothing =~= folder);
    let steps = spelled(steps_at_start(first, is_folder));
    if is_folder {
        if first is CurDir {
            assert(folder + steps =~= folder);
        } else {
            assert(steps =~= seq![up]);
        }
    } else {
        let pair = seq![source.last(), up];
        if first is CurDir {
            lemma_parent_dir_takes_back_a_name(folder, source.last(), nothing, false);
            assert(source + steps =~= folder + pair + nothing);
        } else {
            lemma_parent_dir_takes_back_a_name(folder, source.last(), seq![up], false);
            assert(source + steps =~= folder + pair + seq![up]);
        }
    }
}

/// What a normal form consists of was there before.
proof fn lemma_normal_form_has_no_more(path: PathView, keep_current_dir: bool, i: int)
    requires
        0 <= i < normalized(path, keep_current_dir).len(),
    ensures
        path.contains(normalized(path, keep_current_dir)[i]),
    decreases path.len(),
{
    let rest = path.drop_last();
    let before = normalized(rest, keep_current_dir);
    let now = normalized(path, keep_current_dir);
    assert(path[path.len() - 1] == path.last());
    if i < before.len() && now[i] == before[i] {
        lemma_normal_form_has_no_more(rest, keep_current_dir, i);
        let k = choose|k: int| 0 <= k < rest.len() && rest[k] == before[i];
        assert(path[k] == now[i]);
    }
}

/// Without a sourcemap, the instance that a require becomes stands for the required file, however
/// the paths are made up: its steps, spelled after the path of the script, stand for the required
/// path, or for its folder where the required file stands for that. The script is at the path of
/// the source file, or at its folder where the source file stands for that.
///
/// A path that is not anchored, with names that are valid Unicode, is refused only where there is
/// no relative path to it.
pub proof fn lemma_generated_instance_stands_for_the_module(
    mode: ModeView,
    require_path: HostPathView,
    module_folder_name: Seq<char>,
    current_path: HostPathView,
    source_path: PathView,
    script: PathView,
)
    requires
        mode.cached_sourcemap is None || mode.rojo_sourcemap is None,
        source_path == normalized(current_path.path, false),
        source_path.len() > 0,
        source_path.last().is_name(),
        script == if is_module_folder(source_path, module_folder_name) {
            source_path.drop_last()
        } else {
            source_path
        },
        forall|i: int|
            0 <= i < require_path.path.len() ==> {
                &&& !((#[trigger] require_path.path[i]) is Prefix)
                &&& !(require_path.path[i] is RootDir)
                &&& !(require_path.path[i] is NonUnicode)
            },
    ensures
        match mode.generated(require_path, module_folder_name, current_path) {
            Ok(Some(instance)) => {
                let module = normalized(require_path.path, false);
                let found = normalized(script + spelled(instance.components), false);
                &&& instance.root == InstancePathRoot::Script
                &&& relative_path(require_path.path, source_path, true) is Some
                &&& found == module || is_module_folder(module, module_folder_name) && found
                    == module.drop_last()
            },
            Ok(None) => false,
            Err(_) => relative_path(require_path.path, source_path, true) is None,
        },
{
    let to = require_path.path;
    let folder = source_path.drop_last();
    lemma_normalized_is_normal(current_path.path, false);
    lemma_relative_parent_of_file(source_path);
    lemma_prefixed_relative_path_start(to, source_path);
    if let Some(path) = relative_path(to, source_path, true) {
        let relative = plainly_written(path, require_path.prefix, require_path.separator);
        lemma_relative_path_of_plain_names(to, source_path);
        lemma_instance_spells_relative_path(
            require_path,
            current_path.normal(),
            relative,
            module_folder_name,
        );
        let module = path_of_module(path, module_folder_name);
        assert(normalized(folder + path, false) == normalized(to, false));
        if is_module_folder(path, module_folder_name) {
            assert((folder + path).drop_last() =~= folder + module);
            assert((folder + path).last() == path.last());
            let before = normalized(folder + module, false);
            assert(normalized(to, false) == before.push(path.last()));
            assert(before.push(path.last()).drop_last() =~= before);
        }
    }
}

/// The relative path to a path without anchors and with names that are valid Unicode has none and
/// such names as well, starts with `.` or `..`, and stands for the path after the directory of the
/// source file.
proof fn lemma_relative_path_of_plain_names(require_path: PathView, source_path: PathView)
    requires
        is_normal(source_path, false),
        source_path.len() > 0,
        source_path.last().is_name(),
        forall|i: int|
            0 <= i < require_path.len() ==> {
                &&& !((#[trigger] require_path[i]) is Prefix)
                &&& !(require_path[i] is RootDir)
                &&& !(require_path[i] is NonUnicode)
            },
    ensures
        relative_path(require_path, source_path, true) matches Some(path) ==> {
            &&& path.len() > 0 && (path[0] is CurDir || path[0] is ParentDir)
            &&& forall|i: int|
                0 <= i < path.len() ==> {
                    &&& !((#[trigger] path[i]) is Prefix)
                    &&& !(path[i] is RootDir)
                    &&& !(path[i] is NonUnicode)
                }
            &&& normalized(source_path.drop_last() + path, false) == normalized(
                require_path,
                false,
            )
        },
{
    let base = relative_parent(source_path);
    let stay = seq![ComponentView::CurDir];
    lemma_relative_parent_of_file(source_path);
    lemma_prefixed_relative_path_start(require_path, source_path);
    let from = without_current_dir(base);
    let to = without_current_dir(require_path);
    let shared = common_len(to, from);
    lemma_common_len_bounds(to, from);
    if from.len() > 0 {
        assert(!(source_path[0] is CurDir));
        assert(from[0] == source_path[0]);
    }
    if source_path.len() == 1 {
        assert(base =~= stay + from);
    }
    if require_path.len() > 0 && require_path[0] is CurDir {
        assert(require_path =~= stay + to);
        assert forall|i: int| 0 <= i < to.len() implies to[i] == require_path[i + 1] by {}
    }
    assert forall|i: int| #![trigger to[i]] 0 <= i < shared implies to[i] == from[i] by {
        assert(to.take(shared)[i] == from.take(shared)[i]);
    }
    if to.len() > 0 {
        assert(require_path.contains(to[0]));
    }
    lemma_relative_path_stands_for_the_module(
        require_path,
        source_path,
        to,
        from,
        shared,
        true,
    );
    if let Some(path) = relative_path(require_path, source_path, true) {
        lemma_normalized_append(base, path, false);
        lemma_normalized_append(source_path.drop_last(), path, false);
        lemma_normalize_is_idempotent(base, false);
        assert(normalized(source_path.drop_last(), false) == normalized(base, false));
        let between = path_between(require_path, base)->0;
        assert(anchor_len(to) == 0);
        assert forall|i: int| 0 <= i < between.len() implies {
            &&& !((#[trigger] between[i]) is Prefix)
            &&& !(between[i] is RootDir)
            &&& !(between[i] is NonUnicode)
        } by {
            let up = from.len() - shared;
            if i >= up {
                let k = i - up + shared;
                assert(between[i] == to[k]);
                assert(require_path.contains(to[k]));
            }
        }
        let whole = if between.len() > 0 && (between[0] is CurDir || between[0] is ParentDir) {
            between
        } else {
            joined(stay, between)
        };
        if between.len() == 0 || !(between[0] is CurDir || between[0] is ParentDir) {
            assert(whole =~= stay + between);
        }
        assert forall|i: int| 0 <= i < path.len() implies {
            &&& !((#[trigger] path[i]) is Prefix)
            &&& !(path[i] is RootDir)
            &&& !(path[i] is NonUnicode)
        } by {
            lemma_normal_form_has_no_more(whole, true, i);
            let k = choose|k: int| 0 <= k < whole.len() && whole[k] == path[i];
            if whole == stay + between && k > 0 {
                assert(whole[k] == between[k - 1]);
            }
        }
    }
}

/// A leading `.` of a required path that is not anchored changes nothing but what is shown.
pub proof fn lemma_leading_current_dir_changes_no_require(
    mode: ModeView,
    plain: HostPathView,
    dotted: HostPathView,
    module_folder_name: Seq<char>,
    current_path: HostPathView,
)
    requires
        dotted.path == seq![ComponentView::CurDir] + plain.path,
        plain.path.len() > 0 ==> !(plain.path[0] is CurDir) && !(plain.path[0] is Prefix) && !(
        plain.path[0] is RootDir),
    ensures
        match (
            mode.generated(plain, module_folder_name, current_path),
            mode.generated(dotted, module_folder_name, current_path),
        ) {
            (Ok(instance), Ok(same_instance)) => instance == same_instance,
            (Err(_), Err(_)) => true,
            _ => false,
        },
        mode.missing(plain.path, current_path.path) == mode.missing(
            dotted.path,
            current_path.path,
        ),
{
    assert(dotted.path.drop_first() =~= plain.path);
    assert(without_current_dir(dotted.path) == plain.path);
    assert(without_current_dir(plain.path) == plain.path);
    let source = normalized(current_path.path, false);
    assert(anchor_len(plain.path) == 0);
    assert forall|base: PathView| #[trigger] path_between(plain.path, base) == path_between(
        dotted.path,
        base,
    ) by {}
    if let Some(path) = relative_path(plain.path, source, true) {
        let module = path_of_module(path, module_folder_name);
        if module.len() > 0 {
            lemma_steps_along_whatever_is_written(
                module.drop_first(),
                (plain.text, dotted.text),
                (
                    plainly_written(path, plain.prefix, plain.separator).text,
                    plainly_written(path, dotted.prefix, dotted.separator).text,
                ),
            );
        }
    }
}

} // verus!
