//! File paths as sequences of components, and the lexical operations on them.
use vstd::prelude::*;

verus! {

/// A prefix of a file path, as hosts with drives and shares know it. A name is held by the bytes
/// that the host has for it.
#[derive(Debug)]
pub enum PathPrefix {
    /// A verbatim prefix, such as `\\?\pictures`.
    Verbatim { name: Vec<u8> },
    /// A verbatim share, such as `\\?\UNC\server\share`.
    VerbatimShare { server: Vec<u8>, share: Vec<u8> },
    /// A verbatim drive, such as `\\?\C:`.
    VerbatimDrive { letter: u8 },
    /// A device, such as `\\.\COM42`.
    Device { name: Vec<u8> },
    /// A share, such as `\\server\share`.
    Share { server: Vec<u8>, share: Vec<u8> },
    /// A drive, such as `C:`.
    Drive { letter: u8 },
}

/// What a [`PathPrefix`] stands for.
pub enum PrefixView {
    Verbatim { name: Seq<u8> },
    VerbatimShare { server: Seq<u8>, share: Seq<u8> },
    VerbatimDrive { letter: u8 },
    Device { name: Seq<u8> },
    Share { server: Seq<u8>, share: Seq<u8> },
    Drive { letter: u8 },
}

/// The drive that an ASCII letter stands for: upper and lower case are one drive.
pub open spec fn drive(letter: u8) -> u8 {
    if 0x61 <= letter <= 0x7a {
        (letter - 0x20) as u8
    } else {
        letter
    }
}

impl View for PathPrefix {
    type V = PrefixView;

    open spec fn view(&self) -> PrefixView {
        match self {
            PathPrefix::Verbatim { name } => PrefixView::Verbatim { name: name@ },
            PathPrefix::VerbatimShare { server, share } => PrefixView::VerbatimShare {
                server: server@,
                share: share@,
            },
            PathPrefix::VerbatimDrive { letter } => PrefixView::VerbatimDrive {
                letter: drive(*letter),
            },
            PathPrefix::Device { name } => PrefixView::Device { name: name@ },
            PathPrefix::Share { server, share } => PrefixView::Share {
                server: server@,
                share: share@,
            },
            PathPrefix::Drive { letter } => PrefixView::Drive { letter: drive(*letter) },
        }
    }
}

impl PrefixView {
    /// Whether the host takes what follows the prefix as it is written.
    pub open spec fn is_verbatim(self) -> bool {
        self is Verbatim || self is VerbatimShare || self is VerbatimDrive
    }
}

/// One component of a file path, as the host splits a path into components.
#[derive(Debug, PartialEq, Eq)]
pub enum PathComponent {
    /// A drive or share prefix, such as `C:`.
    Prefix(PathPrefix),
    /// The root directory.
    RootDir,
    /// The current directory, `.`.
    CurDir,
    /// The parent directory, `..`.
    ParentDir,
    /// A name.
    Normal(String),
    /// A name that is not valid Unicode: the host's bytes, and the text that is shown for them.
    NonUnicode { bytes: Vec<u8>, lossy: String },
}

/// What a [`PathComponent`] stands for.
pub enum ComponentView {
    Prefix(PrefixView),
    RootDir,
    CurDir,
    ParentDir,
    Normal(Seq<char>),
    NonUnicode { bytes: Seq<u8>, lossy: Seq<char> },
}

/// What a [`ModulePath`] stands for: its components, in order.
pub type PathView = Seq<ComponentView>;

impl View for PathComponent {
    type V = ComponentView;

    open spec fn view(&self) -> ComponentView {
        match self {
            PathComponent::Prefix(prefix) => ComponentView::Prefix(prefix@),
            PathComponent::RootDir => ComponentView::RootDir,
            PathComponent::CurDir => ComponentView::CurDir,
            PathComponent::ParentDir => ComponentView::ParentDir,
            PathComponent::Normal(name) => ComponentView::Normal(name@),
            PathComponent::NonUnicode { bytes, lossy } => ComponentView::NonUnicode {
                bytes: bytes@,
                lossy: lossy@,
            },
        }
    }
}

impl ComponentView {
    /// Whether the component names an entry of a directory.
    pub open spec fn is_name(self) -> bool {
        self is Normal || self is NonUnicode
    }
}

fn same_bytes(left: &Vec<u8>, right: &Vec<u8>) -> (same: bool)
    ensures
        same == (left@ == right@),
{
    if left.len() != right.len() {
        return false;
    }
    let mut i: usize = 0;
    while i < left.len()
        invariant
            i <= left.len(),
            left.len() == right.len(),
            forall|j: int| 0 <= j < i ==> left@[j] == right@[j],
        decreases left.len() - i,
    {
        if left[i] != right[i] {
            return false;
        }
        i += 1;
    }
    assert(left@ =~= right@);
    true
}

fn copy_bytes(bytes: &Vec<u8>) -> (copy: Vec<u8>)
    ensures
        copy@ == bytes@,
{
    let mut copy: Vec<u8> = Vec::new();
    let mut i: usize = 0;
    while i < bytes.len()
        invariant
            i <= bytes.len(),
            copy@ =~= bytes@.take(i as int),
        decreases bytes.len() - i,
    {
        copy.push(bytes[i]);
        i += 1;
    }
    copy
}

fn drive_of(letter: u8) -> (upper: u8)
    ensures
        upper == drive(letter),
{
    if 0x61 <= letter && letter <= 0x7a {
        letter - 0x20
    } else {
        letter
    }
}

impl Clone for PathPrefix {
    fn clone(&self) -> (copy: Self)
        ensures
            copy@ == self@,
    {
        match self {
            PathPrefix::Verbatim { name } => PathPrefix::Verbatim { name: copy_bytes(name) },
            PathPrefix::VerbatimShare { server, share } => PathPrefix::VerbatimShare {
                server: copy_bytes(server),
                share: copy_bytes(share),
            },
            PathPrefix::VerbatimDrive { letter } => PathPrefix::VerbatimDrive { letter: *letter },
            PathPrefix::Device { name } => PathPrefix::Device { name: copy_bytes(name) },
            PathPrefix::Share { server, share } => PathPrefix::Share {
                server: copy_bytes(server),
                share: copy_bytes(share),
            },
            PathPrefix::Drive { letter } => PathPrefix::Drive { letter: *letter },
        }
    }
}

impl PathPrefix {
    /// Whether two prefixes are the same.
    pub fn same(&self, other: &PathPrefix) -> (same: bool)
        ensures
            same == (self@ == other@),
    {
        match (self, other) {
            (PathPrefix::Verbatim { name: left }, PathPrefix::Verbatim { name: right }) => {
                same_bytes(left, right)
            },
            (
                PathPrefix::VerbatimShare { server: left_server, share: left },
                PathPrefix::VerbatimShare { server: right_server, share: right },
            ) => same_bytes(left_server, right_server) && same_bytes(left, right),
            (
                PathPrefix::VerbatimDrive { letter: left },
                PathPrefix::VerbatimDrive { letter: right },
            ) => drive_of(*left) == drive_of(*right),
            (PathPrefix::Device { name: left }, PathPrefix::Device { name: right }) => {
                same_bytes(left, right)
            },
            (
                PathPrefix::Share { server: left_server, share: left },
                PathPrefix::Share { server: right_server, share: right },
            ) => same_bytes(left_server, right_server) && same_bytes(left, right),
            (PathPrefix::Drive { letter: left }, PathPrefix::Drive { letter: right }) => {
                drive_of(*left) == drive_of(*right)
            },
            _ => false,
        }
    }

    /// Whether the host takes what follows the prefix as it is written.
    pub fn is_verbatim(&self) -> (verbatim: bool)
        ensures
            verbatim == self@.is_verbatim(),
    {
        match self {
            PathPrefix::Verbatim { .. } => true,
            PathPrefix::VerbatimShare { .. } => true,
            PathPrefix::VerbatimDrive { .. } => true,
            _ => false,
        }
    }
}

impl PartialEq for PathPrefix {
    fn eq(&self, other: &PathPrefix) -> (same: bool) {
        self.same(other)
    }
}

impl vstd::std_specs::cmp::PartialEqSpecImpl for PathPrefix {
    open spec fn obeys_eq_spec() -> bool {
        true
    }

    open spec fn eq_spec(&self, other: &PathPrefix) -> bool {
        self@ == other@
    }
}

impl Eq for PathPrefix {

}

impl Clone for PathComponent {
    fn clone(&self) -> (copy: Self)
        ensures
            copy@ == self@,
    {
        match self {
            PathComponent::Prefix(prefix) => PathComponent::Prefix(prefix.clone()),
            PathComponent::RootDir => PathComponent::RootDir,
            PathComponent::CurDir => PathComponent::CurDir,
            PathComponent::ParentDir => PathComponent::ParentDir,
            PathComponent::Normal(name) => PathComponent::Normal(name.clone()),
            PathComponent::NonUnicode { bytes, lossy } => PathComponent::NonUnicode {
                bytes: copy_bytes(bytes),
                lossy: lossy.clone(),
            },
        }
    }
}

impl PathComponent {
    /// Whether two components are the same.
    pub fn same(&self, other: &PathComponent) -> (same: bool)
        ensures
            same == (self@ == other@),
    {
        match (self, other) {
            (PathComponent::Prefix(left), PathComponent::Prefix(right)) => left.same(right),
            (PathComponent::RootDir, PathComponent::RootDir) => true,
            (PathComponent::CurDir, PathComponent::CurDir) => true,
            (PathComponent::ParentDir, PathComponent::ParentDir) => true,
            (PathComponent::Normal(left), PathComponent::Normal(right)) => *left == *right,
            (
                PathComponent::NonUnicode { bytes: left, lossy: left_text },
                PathComponent::NonUnicode { bytes: right, lossy: right_text },
            ) => same_bytes(left, right) && *left_text == *right_text,
            _ => false,
        }
    }
}

/// Whether a path starts with a verbatim prefix.
pub open spec fn is_verbatim(path: PathView) -> bool {
    path.len() > 0 && (path[0] matches ComponentView::Prefix(prefix) && prefix.is_verbatim())
}

/// The components `other`, taken one by one after the verbatim path `base`: `.` and `..` are
/// not kept, `..` takes back the name before it if there is one, and a root takes back all but
/// the prefix.
pub open spec fn verbatim_followed(base: PathView, other: PathView) -> PathView
    decreases other.len(),
{
    if other.len() == 0 {
        base
    } else {
        let before = verbatim_followed(base, other.drop_last());
        match other.last() {
            ComponentView::RootDir => before.take(1).push(ComponentView::RootDir),
            ComponentView::CurDir => before,
            ComponentView::ParentDir => if before.len() > 0 && before.last().is_name() {
                before.drop_last()
            } else {
                before
            },
            component => before.push(component),
        }
    }
}

/// The path with a root between its prefix and what follows, as a separator there means one.
pub open spec fn rooted(path: PathView) -> PathView {
    if path.len() > 1 && !(path[1] is RootDir) {
        seq![path[0], ComponentView::RootDir] + path.skip(1)
    } else {
        path
    }
}

/// The path `other`, seen from the directory `base`.
///
/// An absolute `other` replaces `base` (but keeps its prefix when it has none of its own), and a
/// leading `.` of `other` says nothing once there is something before it: a `.` is a component
/// only at the beginning of a path, and after a prefix it is not there. After a verbatim prefix,
/// `.` and `..` are taken back, and what follows stands under the root.
pub open spec fn joined(base: PathView, other: PathView) -> PathView {
    if other.len() == 0 {
        if is_verbatim(base) && base.len() == 1 {
            base.push(ComponentView::RootDir)
        } else {
            base
        }
    } else if other[0] is Prefix {
        other
    } else if is_verbatim(base) {
        rooted(verbatim_followed(base, other))
    } else if other[0] is RootDir {
        if base.len() > 0 && base[0] is Prefix {
            seq![base[0]] + other
        } else {
            other
        }
    } else if other[0] is CurDir && base.len() > 0 {
        base + other.drop_first()
    } else {
        base + other
    }
}

/// The normal path `path`, followed by `component`: `.` stays only where `keep_current_dir` holds
/// and nothing stands before it, and `..` takes back the name before it.
pub open spec fn normal_push(
    path: PathView,
    component: ComponentView,
    keep_current_dir: bool,
) -> PathView {
    if component is CurDir {
        if keep_current_dir && path.len() == 0 {
            path.push(component)
        } else {
            path
        }
    } else if component is ParentDir && path.len() > 0 {
        if path.last().is_name() {
            path.drop_last()
        } else if path.last() is RootDir {
            path
        } else if path.last() is CurDir {
            path.drop_last().push(component)
        } else {
            path.push(component)
        }
    } else {
        path.push(component)
    }
}

/// The path without its redundant components.
pub open spec fn normalized(path: PathView, keep_current_dir: bool) -> PathView
    decreases path.len(),
{
    if path.len() == 0 {
        path
    } else {
        normal_push(
            normalized(path.drop_last(), keep_current_dir),
            path.last(),
            keep_current_dir,
        )
    }
}

/// A file path: the components it is made of.
#[derive(Debug, PartialEq, Eq)]
pub struct ModulePath {
    pub components: Vec<PathComponent>,
}

impl View for ModulePath {
    type V = PathView;

    open spec fn view(&self) -> PathView {
        component_views(self.components@)
    }
}

impl Clone for ModulePath {
    fn clone(&self) -> (copy: Self)
        ensures
            copy@ == self@,
    {
        let mut components: Vec<PathComponent> = Vec::new();
        push_from(&mut components, &self.components, 0);
        let copy = ModulePath { components };
        assert(copy@ =~= self@);
        copy
    }
}

/// What the components of a path stand for.
pub open spec fn component_views(components: Seq<PathComponent>) -> PathView {
    components.map_values(|component: PathComponent| component@)
}

/// Appends copies of the components of `source` from index `start` on.
fn push_from(target: &mut Vec<PathComponent>, source: &Vec<PathComponent>, start: usize)
    requires
        start <= source.len(),
    ensures
        component_views(final(target)@) == component_views(old(target)@) + component_views(
            source@,
        ).skip(start as int),
{
    let ghost before = component_views(target@);
    let mut i: usize = start;
    while i < source.len()
        invariant
            start <= i <= source.len(),
            component_views(target@) =~= before + component_views(source@).subrange(
                start as int,
                i as int,
            ),
        decreases source.len() - i,
    {
        let component = source[i].clone();
        assert(component_views(target@.push(component)) =~= component_views(target@).push(
            component@,
        ));
        target.push(component);
        i += 1;
    }
}

impl ModulePath {
    /// The path with no component.
    pub fn new() -> (path: ModulePath)
        ensures
            path@ == PathView::empty(),
    {
        let path = ModulePath { components: Vec::new() };
        assert(path@ =~= PathView::empty());
        path
    }

    /// Whether two paths have the same components.
    pub fn same(&self, other: &ModulePath) -> (same: bool)
        ensures
            same == (self@ == other@),
    {
        if self.components.len() != other.components.len() {
            assert(self@.len() != other@.len());
            return false;
        }
        let mut i: usize = 0;
        while i < self.components.len()
            invariant
                i <= self.components.len(),
                self.components.len() == other.components.len(),
                forall|j: int| 0 <= j < i ==> self@[j] == other@[j],
            decreases self.components.len() - i,
        {
            if !self.components[i].same(&other.components[i]) {
                assert(self@[i as int] != other@[i as int]);
                return false;
            }
            i += 1;
        }
        assert(self@ =~= other@);
        true
    }

    /// The components of the path from index `start` on.
    pub fn suffix(&self, start: usize) -> (path: ModulePath)
        requires
            start <= self.components.len(),
        ensures
            path@ == self@.skip(start as int),
    {
        let mut components: Vec<PathComponent> = Vec::new();
        push_from(&mut components, &self.components, start);
        let path = ModulePath { components };
        assert(path@ =~= self@.skip(start as int));
        path
    }

    /// Adds the components of another path.
    pub fn append(&mut self, other: &ModulePath)
        ensures
            final(self)@ == old(self)@ + other@,
    {
        push_from(&mut self.components, &other.components, 0);
        assert(self@ =~= old(self)@ + other@);
    }

    /// Whether the path starts with a verbatim prefix.
    pub fn is_verbatim(&self) -> (verbatim: bool)
        ensures
            verbatim == is_verbatim(self@),
    {
        if self.components.len() == 0 {
            return false;
        }
        assert(self@[0] == self.components@[0]@);
        match &self.components[0] {
            PathComponent::Prefix(prefix) => prefix.is_verbatim(),
            _ => false,
        }
    }

    /// Whether the path starts with a prefix.
    pub fn has_prefix(&self) -> (found: bool)
        ensures
            found == (self@.len() > 0 && self@[0] is Prefix),
    {
        if self.components.len() == 0 {
            return false;
        }
        assert(self@[0] == self.components@[0]@);
        match &self.components[0] {
            PathComponent::Prefix(_) => true,
            _ => false,
        }
    }

    /// The components of `other`, taken one by one after the verbatim path `self`.
    fn verbatim_join(&self, other: &ModulePath) -> (path: ModulePath)
        requires
            is_verbatim(self@),
            other@.len() > 0 ==> !(other@[0] is Prefix),
        ensures
            path@ == rooted(verbatim_followed(self@, other@)),
    {
        let mut path = self.clone();
        assert(path.components.len() == path@.len());
        let mut i: usize = 0;
        assert(other@.take(0) =~= PathView::empty());
        while i < other.components.len()
            invariant
                i <= other.components.len(),
                path@ == verbatim_followed(self@, other@.take(i as int)),
                path@.len() > 0,
                path@[0] is Prefix,
            decreases other.components.len() - i,
        {
            let ghost before = path@;
            let ghost now = other@.take(i + 1);
            assert(now.drop_last() =~= other@.take(i as int));
            assert(now.last() == other.components@[i as int]@);
            let len = path.components.len();
            assert(before.last() == path.components@[len - 1]@);
            match &other.components[i] {
                PathComponent::RootDir => {
                    path.components.truncate(1);
                    assert(path@ =~= before.take(1));
                    path.components.push(PathComponent::RootDir);
                    assert(path@ =~= before.take(1).push(ComponentView::RootDir));
                },
                PathComponent::CurDir => {},
                PathComponent::ParentDir => {
                    match &path.components[len - 1] {
                        PathComponent::Normal(_) | PathComponent::NonUnicode { .. } => {
                            path.components.pop();
                            assert(path@ =~= before.drop_last());
                        },
                        _ => {},
                    }
                },
                component => {
                    let copy = component.clone();
                    path.components.push(copy);
                    assert(path@ =~= before.push(copy@));
                },
            }
            i += 1;
        }
        assert(other@.take(i as int) =~= other@);
        let ghost followed = path@;
        if path.components.len() > 1 {
            assert(followed[1] == path.components@[1]@);
            match &path.components[1] {
                PathComponent::RootDir => {},
                _ => {
                    path.components.insert(1, PathComponent::RootDir);
                    assert(path@ =~= rooted(followed));
                },
            }
        }
        path
    }

    /// The path `other`, seen from the directory `self`.
    pub fn join(&self, other: &ModulePath) -> (path: ModulePath)
        ensures
            path@ == joined(self@, other@),
    {
        if self.is_verbatim() && other.components.len() > 0 && !other.has_prefix() {
            return self.verbatim_join(other);
        }
        let mut components: Vec<PathComponent> = Vec::new();
        let mut start: usize = 0;
        if other.components.len() == 0 {
            push_from(&mut components, &self.components, 0);
            if self.components.len() == 1 && self.is_verbatim() {
                assert(component_views(components@.push(PathComponent::RootDir))
                    =~= component_views(components@).push(ComponentView::RootDir));
                components.push(PathComponent::RootDir);
            }
        } else {
            match &other.components[0] {
                PathComponent::Prefix(_) => {},
                PathComponent::RootDir => {
                    if self.has_prefix() {
                        components.push(self.components[0].clone());
                    }
                },
                PathComponent::CurDir => {
                    push_from(&mut components, &self.components, 0);
                    if self.components.len() > 0 {
                        start = 1;
                    }
                },
                _ => {
                    push_from(&mut components, &self.components, 0);
                },
            }
            push_from(&mut components, &other.components, start);
        }
        let path = ModulePath { components };
        proof {
            if other.components.len() > 0 {
                assert(other@[0] == other.components@[0]@);
            }
            if self.components.len() > 0 {
                assert(self@[0] == self.components@[0]@);
            }
            assert(path@ =~= joined(self@, other@));
        }
        path
    }

    /// The path without its redundant components: `.` is left out, except at the start where
    /// `keep_current_dir` is set, and `..` takes back the name before it.
    pub fn normalize(&self, keep_current_dir: bool) -> (path: ModulePath)
        ensures
            path@ == normalized(self@, keep_current_dir),
    {
        let mut path = ModulePath::new();
        let mut i: usize = 0;
        assert(self@.take(0) =~= PathView::empty());
        while i < self.components.len()
            invariant
                i <= self.components.len(),
                path@ == normalized(self@.take(i as int), keep_current_dir),
            decreases self.components.len() - i,
        {
            assert(self@.take(i + 1).drop_last() =~= self@.take(i as int));
            assert(self@.take(i + 1).last() == self.components@[i as int]@);
            path.push_normal(&self.components[i], keep_current_dir);
            i += 1;
        }
        assert(self@.take(i as int) =~= self@);
        path
    }

    /// Adds one component to a normal path.
    fn push_normal(&mut self, component: &PathComponent, keep_current_dir: bool)
        ensures
            final(self)@ == normal_push(old(self)@, component@, keep_current_dir),
    {
        let len = self.components.len();
        match component {
            PathComponent::CurDir => {
                if !keep_current_dir || len > 0 {
                    return;
                }
            },
            PathComponent::ParentDir => {
                if len > 0 {
                    assert(self@.last() == self.components@.last()@);
                    match &self.components[len - 1] {
                        PathComponent::Normal(_) | PathComponent::NonUnicode { .. } => {
                            self.components.pop();
                            assert(self@ =~= old(self)@.drop_last());
                            return;
                        },
                        PathComponent::RootDir => {
                            return;
                        },
                        PathComponent::CurDir => {
                            self.components.pop();
                            assert(self@ =~= old(self)@.drop_last());
                        },
                        _ => {},
                    }
                }
            },
            _ => {},
        }
        let ghost before = self@;
        self.components.push(component.clone());
        assert(self@ =~= before.push(component@));
    }
}

} // verus!
