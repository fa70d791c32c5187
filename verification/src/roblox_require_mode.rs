//! Requires of Roblox instances.
use crate::error::{
    DarkluaError, ErrorContext, ErrorContextView, ErrorKind, ErrorKindView, ErrorView,
};
use crate::host_path::{plainly_written, HostPath, HostPathView};
use crate::instance_path::{InstancePath, InstancePathRoot, InstancePathView, StepView};
use crate::parsed_sourcemap::{decoded_tree, holds, kept, ParsedSourcemap};
use crate::path_utils::{
    get_relative_parent_path, get_relative_path, relative_parent, relative_path,
};
use crate::paths::{normalized, ComponentView, ModulePath, PathComponent, PathView};
use crate::require_mode::{is_module_folder, RequireMode};
use crate::rojo_sourcemap::{RojoSourcemap, RojoSourcemapNode};
use crate::sourcemap_model::{sourcemap_of, SourcemapView};
use std::sync::Arc;
use vstd::prelude::*;

verus! {

/// How a child of an instance is written.
#[derive(Debug, Clone, Copy, PartialEq, Eq, Structural)]
pub enum RobloxIndexStyle {
    /// With a call of `FindFirstChild`.
    FindFirstChild,
    /// With a call of `WaitForChild`.
    WaitForChild,
    /// As a field.
    Property,
}

impl Default for RobloxIndexStyle {
    fn default() -> (style: RobloxIndexStyle)
        ensures
            style == RobloxIndexStyle::FindFirstChild,
    {
        RobloxIndexStyle::FindFirstChild
    }
}

/// The argument of a require: an instance, and how its children are written.
#[derive(Debug, PartialEq, Eq)]
pub struct Arguments {
    pub instance: InstancePath,
    pub indexing_style: RobloxIndexStyle,
}

/// What [`Arguments`] stand for.
pub struct ArgumentsView {
    pub instance: InstancePathView,
    pub indexing_style: RobloxIndexStyle,
}

impl View for Arguments {
    type V = ArgumentsView;

    open spec fn view(&self) -> ArgumentsView {
        ArgumentsView { instance: self.instance@, indexing_style: self.indexing_style }
    }
}

/// The require mode that takes Roblox instances.
#[derive(Debug, PartialEq, Eq)]
pub struct RobloxRequireMode {
    rojo_sourcemap: Option<HostPath>,
    indexing_style: RobloxIndexStyle,
    cached_sourcemap: Option<Arc<RojoSourcemap>>,
}

/// What a [`RobloxRequireMode`] stands for.
pub struct ModeView {
    pub rojo_sourcemap: Option<HostPathView>,
    pub indexing_style: RobloxIndexStyle,
    pub cached_sourcemap: Option<SourcemapView>,
}

impl View for RobloxRequireMode {
    type V = ModeView;

    closed spec fn view(&self) -> ModeView {
        ModeView {
            rojo_sourcemap: match self.rojo_sourcemap {
                Some(path) => Some(path@),
                None => None,
            },
            indexing_style: self.indexing_style,
            cached_sourcemap: match self.cached_sourcemap {
                Some(sourcemap) => Some(sourcemap@),
                None => None,
            },
        }
    }
}

/// The steps from an instance along a relative path, or why there are none: each component leads
/// to a child or to the parent.
pub open spec fn steps_along(
    components: PathView,
    require_path: Seq<char>,
    relative_require_path: Seq<char>,
) -> Result<Seq<StepView>, ErrorKindView>
    decreases components.len(),
{
    if components.len() == 0 {
        Ok(Seq::empty())
    } else {
        match steps_along(components.drop_last(), require_path, relative_require_path) {
            Ok(steps) => match components.last() {
                ComponentView::CurDir => Ok(steps),
                ComponentView::ParentDir => Ok(steps.push(StepView::Parent)),
                ComponentView::Normal(name) => Ok(steps.push(StepView::Child(name))),
                ComponentView::NonUnicode { lossy, .. } => Err(
                    ErrorKindView::NotUnicode { lossy },
                ),
                ComponentView::Prefix(_) | ComponentView::RootDir => Err(
                    ErrorKindView::UnexpectedComponent { require_path, relative_require_path },
                ),
            },
            Err(error) => Err(error),
        }
    }
}

/// The steps from a script to the directory that the first component of a relative path stands
/// for. A script that stands for its folder is that directory itself.
pub open spec fn steps_at_start(first: ComponentView, source_is_module_folder: bool) -> Seq<
    StepView,
> {
    match (first is ParentDir, source_is_module_folder) {
        (false, true) => seq![],
        (false, false) => seq![StepView::Parent],
        (true, true) => seq![StepView::Parent],
        (true, false) => seq![StepView::Parent, StepView::Parent],
    }
}

/// The relative path that leads to a module: a file that stands for its folder is left out.
pub open spec fn path_of_module(
    relative_require_path: PathView,
    module_folder_name: Seq<char>,
) -> PathView {
    if is_module_folder(relative_require_path, module_folder_name) {
        relative_require_path.drop_last()
    } else {
        relative_require_path
    }
}

/// The instance that a relative path leads to from the script at `source_path`, or why there is
/// none.
pub open spec fn instance_at(
    require_path: HostPathView,
    source_path: HostPathView,
    relative_require_path: HostPathView,
    module_folder_name: Seq<char>,
) -> Result<InstancePathView, ErrorKindView> {
    let path = path_of_module(relative_require_path.path, module_folder_name);
    if path.len() == 0 {
        Err(
            ErrorKindView::EmptyRelativePath {
                require_path: require_path.text,
                source_path: source_path.text,
                relative_require_path: relative_require_path.text,
            },
        )
    } else if path[0].is_name() {
        Err(
            ErrorKindView::NotRelative {
                require_path: require_path.text,
                relative_require_path: relative_require_path.text,
            },
        )
    } else if path[0] is Prefix || path[0] is RootDir {
        Err(ErrorKindView::Absolute { require_path: require_path.text })
    } else {
        match steps_along(path.drop_first(), require_path.text, relative_require_path.text) {
            Ok(steps) => Ok(
                InstancePathView {
                    root: InstancePathRoot::Script,
                    components: steps_at_start(
                        path[0],
                        is_module_folder(source_path.path, module_folder_name),
                    ) + steps,
                },
            ),
            Err(error) => Err(error),
        }
    }
}

/// Why a required module is not found with a sourcemap.
#[derive(Debug, Clone, Copy, PartialEq, Eq, Structural)]
pub enum MissingRequire {
    /// There is no path from the sourcemap to the module.
    NoRelativePath,
    /// The source file is not in the sourcemap.
    SourceNotInSourcemap,
    /// The module is not in the sourcemap.
    RequireNotInSourcemap,
}

/// The instance of a required module in a sourcemap that is at the given path, or why there is
/// none.
pub open spec fn instance_in_sourcemap(
    sourcemap: SourcemapView,
    sourcemap_path: PathView,
    require_path: PathView,
    source_path: PathView,
) -> Result<InstancePathView, MissingRequire> {
    match relative_path(require_path, relative_parent(sourcemap_path), false) {
        Some(target) => if !sourcemap.node_ids_by_path.contains_key(source_path) {
            Err(MissingRequire::SourceNotInSourcemap)
        } else if !sourcemap.node_ids_by_path.contains_key(target) {
            Err(MissingRequire::RequireNotInSourcemap)
        } else {
            Ok(
                sourcemap.instance_path(
                    sourcemap.node_ids_by_path[source_path],
                    sourcemap.node_ids_by_path[target],
                ),
            )
        },
        None => Err(MissingRequire::NoRelativePath),
    }
}

impl ModeView {
    /// What holds of every mode: its sourcemap is well-formed.
    pub open spec fn wf(self) -> bool {
        self.cached_sourcemap matches Some(sourcemap) ==> sourcemap.wf()
    }

    /// Whether requires are looked up in a sourcemap.
    pub open spec fn uses_sourcemap(self) -> bool {
        self.cached_sourcemap is Some && self.rojo_sourcemap is Some
    }

    /// What a require of the module at `require_path` from the file at `current_path` becomes.
    pub open spec fn generated(
        self,
        require_path: HostPathView,
        module_folder_name: Seq<char>,
        current_path: HostPathView,
    ) -> Result<Option<InstancePathView>, ErrorKindView> {
        let source_path = current_path.normal();
        if self.uses_sourcemap() {
            match instance_in_sourcemap(
                self.cached_sourcemap->0,
                self.rojo_sourcemap->0.path,
                require_path.path,
                source_path.path,
            ) {
                Ok(instance) => Ok(Some(instance)),
                Err(_) => Ok(None),
            }
        } else {
            match relative_path(require_path.path, source_path.path, true) {
                Some(relative_require_path) => {
                    match instance_at(
                        require_path,
                        source_path,
                        plainly_written(
                            relative_require_path,
                            require_path.prefix,
                            require_path.separator,
                        ),
                        module_folder_name,
                    ) {
                        Ok(instance) => Ok(Some(instance)),
                        Err(error) => Err(error),
                    }
                },
                None => Err(
                    ErrorKindView::NoRelativePath {
                        require_path: require_path.text,
                        source_path: source_path.text,
                    },
                ),
            }
        }
    }

    /// Why a required module is not found with the sourcemap, if one is used.
    pub open spec fn missing(
        self,
        require_path: PathView,
        current_path: PathView,
    ) -> Option<MissingRequire> {
        if self.uses_sourcemap() {
            match instance_in_sourcemap(
                self.cached_sourcemap->0,
                self.rojo_sourcemap->0.path,
                require_path,
                normalized(current_path, false),
            ) {
                Ok(_) => None,
                Err(missing) => Some(missing),
            }
        } else {
            None
        }
    }

    /// The mode with the given sourcemap.
    pub open spec fn with_sourcemap(self, sourcemap: SourcemapView) -> ModeView {
        ModeView {
            rojo_sourcemap: self.rojo_sourcemap,
            indexing_style: self.indexing_style,
            cached_sourcemap: Some(sourcemap),
        }
    }
}

/// The instance that a relative path leads to from the script at `source_path`.
pub fn relative_instance_path(
    require_path: &HostPath,
    source_path: &HostPath,
    relative_require_path: &HostPath,
    current: &RequireMode,
) -> (result: Result<InstancePath, DarkluaError>)
    ensures
        match instance_at(
            require_path@,
            source_path@,
            relative_require_path@,
            current.module_folder_name@,
        ) {
            Ok(instance) => result matches Ok(path) && path@ == instance,
            Err(kind) => result matches Err(error) && error@ == (ErrorView {
                kind,
                context: None,
            }),
        },
{
    // a path like `./x/y/z/init.lua` leads to the folder that the file is in
    let take_components = if current.is_module_folder_name(&relative_require_path.path) {
        relative_require_path.path.components.len() - 1
    } else {
        relative_require_path.path.components.len()
    };
    let ghost path = path_of_module(relative_require_path.path@, current.module_folder_name@);
    assert(path =~= relative_require_path.path@.take(take_components as int));

    if take_components == 0 {
        return Err(
            DarkluaError::new(
                ErrorKind::EmptyRelativePath {
                    require_path: require_path.text.clone(),
                    source_path: source_path.text.clone(),
                    relative_require_path: relative_require_path.text.clone(),
                },
            ),
        );
    }
    assert(path[0] == relative_require_path.path.components@[0]@);
    let source_is_module_folder_name = current.is_module_folder_name(&source_path.path);
    let mut instance = InstancePath::from_script();
    match &relative_require_path.path.components[0] {
        PathComponent::CurDir => {
            if !source_is_module_folder_name {
                instance.parent();
            }
        },
        PathComponent::ParentDir => {
            instance.parent();
            if !source_is_module_folder_name {
                instance.parent();
            }
        },
        PathComponent::Normal(_) | PathComponent::NonUnicode { .. } => {
            return Err(
                DarkluaError::new(
                    ErrorKind::NotRelative {
                        require_path: require_path.text.clone(),
                        relative_require_path: relative_require_path.text.clone(),
                    },
                ),
            );
        },
        PathComponent::Prefix(_) | PathComponent::RootDir => {
            return Err(
                DarkluaError::new(ErrorKind::Absolute { require_path: require_path.text.clone() }),
            );
        },
    }
    let ghost start = steps_at_start(path[0], source_is_module_folder_name);
    assert(instance@.components =~= start);

    let ghost rest = path.drop_first();
    let mut i: usize = 1;
    proof {
        assert(rest.take(0) =~= PathView::empty());
        assert(start + Seq::<StepView>::empty() =~= start);
    }
    while i < take_components
        invariant
            1 <= i <= take_components <= relative_require_path.path.components.len(),
            path == relative_require_path.path@.take(take_components as int),
            path == path_of_module(relative_require_path.path@, current.module_folder_name@),
            rest == path.drop_first(),
            path[0] is CurDir || path[0] is ParentDir,
            start == steps_at_start(
                path[0],
                is_module_folder(source_path.path@, current.module_folder_name@),
            ),
            instance@.root == InstancePathRoot::Script,
            steps_along(
                rest.take(i - 1),
                require_path.text@,
                relative_require_path.text@,
            ) matches Ok(steps) && instance@.components == start + steps,
        decreases take_components - i,
    {
        let ghost now = rest.take(i as int);
        let ghost steps = steps_along(
            rest.take(i - 1),
            require_path.text@,
            relative_require_path.text@,
        )->Ok_0;
        proof {
            assert(now.drop_last() =~= rest.take(i - 1));
            assert(now.last() == relative_require_path.path.components@[i as int]@);
        }
        match &relative_require_path.path.components[i] {
            PathComponent::CurDir => {},
            PathComponent::ParentDir => {
                instance.parent();
                assert(instance@.components =~= start + steps.push(StepView::Parent));
            },
            PathComponent::Normal(name) => {
                instance.child(name.as_str());
                assert(instance@.components =~= start + steps.push(StepView::Child(name@)));
            },
            PathComponent::NonUnicode { bytes: _, lossy } => {
                let error = DarkluaError::new(ErrorKind::NotUnicode { lossy: lossy.clone() });
                proof {
                    lemma_first_error_stays(
                        rest,
                        i as int,
                        require_path.text@,
                        relative_require_path.text@,
                    );
                }
                return Err(error);
            },
            PathComponent::Prefix(_) | PathComponent::RootDir => {
                let error = DarkluaError::new(
                    ErrorKind::UnexpectedComponent {
                        require_path: require_path.text.clone(),
                        relative_require_path: relative_require_path.text.clone(),
                    },
                );
                proof {
                    lemma_first_error_stays(
                        rest,
                        i as int,
                        require_path.text@,
                        relative_require_path.text@,
                    );
                }
                return Err(error);
            },
        }
        i += 1;
    }
    assert(rest.take(i - 1) =~= rest);
    Ok(instance)
}

/// What goes wrong first goes wrong for the whole path.
proof fn lemma_first_error_stays(
    components: PathView,
    len: int,
    require_path: Seq<char>,
    relative_require_path: Seq<char>,
)
    requires
        0 <= len <= components.len(),
        steps_along(components.take(len), require_path, relative_require_path) is Err,
    ensures
        steps_along(components, require_path, relative_require_path) == steps_along(
            components.take(len),
            require_path,
            relative_require_path,
        ),
    decreases components.len(),
{
    if len == components.len() {
        assert(components.take(len) =~= components);
    } else {
        assert(components.drop_last().take(len) =~= components.take(len));
        lemma_first_error_stays(
            components.drop_last(),
            len,
            require_path,
            relative_require_path,
        );
    }
}

impl Default for RobloxRequireMode {
    fn default() -> (mode: RobloxRequireMode)
        ensures
            mode@ == (ModeView {
                rojo_sourcemap: None,
                indexing_style: RobloxIndexStyle::FindFirstChild,
                cached_sourcemap: None,
            }),
    {
        RobloxRequireMode::new(None, RobloxIndexStyle::FindFirstChild)
    }
}

impl Clone for RobloxRequireMode {
    fn clone(&self) -> (copy: Self)
        ensures
            copy@ == self@,
            copy.shared() == self.shared(),
    {
        proof {
            use_type_invariant(self);
        }
        RobloxRequireMode {
            rojo_sourcemap: match &self.rojo_sourcemap {
                Some(path) => Some(path.clone()),
                None => None,
            },
            indexing_style: self.indexing_style,
            cached_sourcemap: match &self.cached_sourcemap {
                Some(sourcemap) => Some(Arc::clone(sourcemap)),
                None => None,
            },
        }
    }
}

impl RobloxRequireMode {
    /// The sourcemap of the mode, as it was handed out.
    pub closed spec fn shared(&self) -> Option<Arc<RojoSourcemap>> {
        self.cached_sourcemap
    }

    /// A mode is always well-formed.
    #[verifier::type_invariant]
    pub open spec fn well_formed(self) -> bool {
        self@.wf()
    }

    /// A require mode, with the path of its sourcemap if it has one.
    pub fn new(
        rojo_sourcemap: Option<HostPath>,
        indexing_style: RobloxIndexStyle,
    ) -> (mode: RobloxRequireMode)
        ensures
            mode@ == (ModeView {
                rojo_sourcemap: match rojo_sourcemap {
                    Some(path) => Some(path@),
                    None => None,
                },
                indexing_style,
                cached_sourcemap: None,
            }),
    {
        RobloxRequireMode { rojo_sourcemap, indexing_style, cached_sourcemap: None }
    }

    /// Where the sourcemap of the mode is found, if it has one.
    pub fn sourcemap_location(&self, project_location: &HostPath) -> (location: Option<HostPath>)
        ensures
            match self@.rojo_sourcemap {
                Some(path) => location matches Some(location) && location@
                    == project_location@.joined_with(path),
                None => location is None,
            },
    {
        match &self.rojo_sourcemap {
            Some(path) => Some(project_location.join(path)),
            None => None,
        }
    }

    /// Whether requires are looked up in a sourcemap.
    pub fn uses_sourcemap(&self) -> (used: bool)
        ensures
            used == self@.uses_sourcemap(),
    {
        self.cached_sourcemap.is_some() && self.rojo_sourcemap.is_some()
    }

    /// Makes the mode ready for use. If it has a sourcemap, `resource` is what reading it from
    /// its location gave. The content is decoded only if it is not what was parsed last.
    pub fn initialize<D>(
        &mut self,
        parsed_sourcemap: &mut ParsedSourcemap,
        project_location: &HostPath,
        resource: Option<Result<String, DarkluaError>>,
        decode: D,
    ) -> (result: Result<(), DarkluaError>) where
        D: FnOnce(&str) -> Result<RojoSourcemapNode, DarkluaError>,

        requires
            old(self)@.rojo_sourcemap is Some ==> resource is Some,
            match (old(self)@.rojo_sourcemap, resource) {
                (Some(path), Some(Ok(content))) => !holds(
                    old(parsed_sourcemap)@,
                    project_location@.joined_with(path).path,
                    content@,
                ) ==> forall|text: &str| text@ == content@ ==> call_requires(decode, (text,)),
                _ => true,
            },
        ensures
            final(self).shared() == if old(self)@.rojo_sourcemap is Some && result is Ok {
                final(parsed_sourcemap).shared()
            } else {
                old(self).shared()
            },
            match (old(self)@.rojo_sourcemap, resource) {
                (Some(path), Some(Ok(content))) => {
                    let location = project_location@.joined_with(path);
                    if holds(old(parsed_sourcemap)@, location.path, content@) {
                        &&& result is Ok
                        &&& final(parsed_sourcemap)@ == old(parsed_sourcemap)@
                        &&& final(self)@ == old(self)@.with_sourcemap(
                            old(parsed_sourcemap)@->0.sourcemap,
                        )
                    } else {
                        exists|text: &str, reply: Result<RojoSourcemapNode, DarkluaError>|
                            {
                                &&& text@ == content@
                                &&& #[trigger] call_ensures(decode, (text,), reply)
                                &&& final(parsed_sourcemap)@ == kept(
                                    old(parsed_sourcemap)@,
                                    location.path,
                                    content@,
                                    decoded_tree(reply),
                                )
                                &&& match reply {
                                    Ok(root) => result is Ok && final(self)@
                                        == old(self)@.with_sourcemap(
                                        sourcemap_of(root, relative_parent(location.path)),
                                    ),
                                    Err(reason) => final(self)@ == old(self)@ && (
                                    result matches Err(error) && error@ == reason@.in_context(
                                        ErrorContextView::Sourcemap(location.text),
                                    )),
                                }
                            }
                    }
                },
                (Some(_), Some(Err(reason))) => {
                    &&& result matches Err(error) && error@ == reason@.in_context(
                        ErrorContextView::Initialization,
                    )
                    &&& final(parsed_sourcemap)@ == old(parsed_sourcemap)@
                    &&& final(self)@ == old(self)@
                },
                _ => {
                    &&& result is Ok
                    &&& final(parsed_sourcemap)@ == old(parsed_sourcemap)@
                    &&& final(self)@ == old(self)@
                },
            },
    {
        if let Some(location) = self.sourcemap_location(project_location) {
            if let Some(resource) = resource {
                let content = match resource {
                    Ok(content) => content,
                    Err(error) => {
                        return Err(error.context(ErrorContext::Initialization));
                    },
                };
                match parsed_sourcemap.get_or_parse(&location.path, content, decode) {
                    Ok(sourcemap) => {
                        self.cached_sourcemap = Some(sourcemap);
                    },
                    Err(error) => {
                        return Err(error.context(ErrorContext::Sourcemap(location.text)));
                    },
                }
            }
        }
        Ok(())
    }

    /// Requires of Roblox instances cannot be found.
    pub fn find_require(&self) -> (result: Result<Option<HostPath>, DarkluaError>)
        ensures
            result matches Err(error) && error@ == (ErrorView {
                kind: ErrorKindView::UnsupportedRequireMode,
                context: Some(ErrorContextView::CurrentRequireMode),
            }),
    {
        Err(
            DarkluaError::new(ErrorKind::UnsupportedRequireMode).context(
                ErrorContext::CurrentRequireMode,
            ),
        )
    }

    /// What a require of the module at `require_path` from the file at `current_path` becomes.
    /// There is nothing to require where a sourcemap is used and does not hold both.
    pub fn generate_require(
        &self,
        require_path: &HostPath,
        current: &RequireMode,
        current_path: &HostPath,
    ) -> (result: Result<Option<Arguments>, DarkluaError>)
        ensures
            self@.wf(),
            match self@.generated(require_path@, current.module_folder_name@, current_path@) {
                Ok(Some(instance)) => result matches Ok(Some(arguments)) && arguments@ == (
                ArgumentsView { instance, indexing_style: self@.indexing_style }),
                Ok(None) => result matches Ok(None),
                Err(kind) => result matches Err(error) && error@ == (ErrorView {
                    kind,
                    context: None,
                }),
            },
    {
        proof {
            use_type_invariant(self);
        }
        let source_path = current_path.normalize();

        if let (Some(sourcemap), Some(sourcemap_path)) = (
            &self.cached_sourcemap,
            &self.rojo_sourcemap,
        ) {
            match get_relative_path(
                &require_path.path,
                &get_relative_parent_path(&sourcemap_path.path),
                false,
            ) {
                Some(require_relative_to_sourcemap) => {
                    match sourcemap.get_instance_path(
                        &source_path.path,
                        &require_relative_to_sourcemap,
                    ) {
                        Some(instance) => Ok(
                            Some(Arguments { instance, indexing_style: self.indexing_style }),
                        ),
                        None => Ok(None),
                    }
                },
                None => Ok(None),
            }
        } else {
            match get_relative_path(&require_path.path, &source_path.path, true) {
                Some(relative_require_path) => {
                    match relative_instance_path(
                        require_path,
                        &source_path,
                        &HostPath::plain(
                            relative_require_path,
                            require_path.prefix.clone(),
                            require_path.separator.clone(),
                        ),
                        current,
                    ) {
                        Ok(instance) => Ok(
                            Some(Arguments { instance, indexing_style: self.indexing_style }),
                        ),
                        Err(error) => Err(error),
                    }
                },
                None => Err(
                    DarkluaError::new(
                        ErrorKind::NoRelativePath {
                            require_path: require_path.text.clone(),
                            source_path: source_path.text,
                        },
                    ),
                ),
            }
        }
    }

    /// Why a required module is not found with the sourcemap, if one is used.
    pub fn missing_require(
        &self,
        require_path: &ModulePath,
        current_path: &ModulePath,
    ) -> (missing: Option<MissingRequire>)
        ensures
            missing == self@.missing(require_path@, current_path@),
    {
        let source_path = current_path.normalize(false);

        if let (Some(sourcemap), Some(sourcemap_path)) = (
            &self.cached_sourcemap,
            &self.rojo_sourcemap,
        ) {
            match get_relative_path(
                require_path,
                &get_relative_parent_path(&sourcemap_path.path),
                false,
            ) {
                Some(require_relative_to_sourcemap) => {
                    if !sourcemap.contains(&source_path) {
                        Some(MissingRequire::SourceNotInSourcemap)
                    } else if !sourcemap.contains(&require_relative_to_sourcemap) {
                        Some(MissingRequire::RequireNotInSourcemap)
                    } else {
                        None
                    }
                },
                None => Some(MissingRequire::NoRelativePath),
            }
        } else {
            None
        }
    }
}

} // verus!
