//! Paths as the host writes them: the components of a path, and the text that is shown for it.
use crate::paths::{
    is_verbatim, joined, normalized, ComponentView, ModulePath, PathComponent, PathPrefix,
    PathView,
};
use vstd::prelude::*;

verus! {

/// A path of the host. The same components can be written in several ways, such as `a/b`,
/// `a//b` and `a/b/`, and what is shown of a path is how it was written.
#[derive(Debug)]
pub struct HostPath {
    /// What the path stands for.
    pub path: ModulePath,
    /// The path as it is written.
    pub text: String,
    /// The prefix of the path as it is written, or nothing if the path has none.
    pub prefix: String,
    /// What the host writes between two components.
    pub separator: String,
}

/// What a [`HostPath`] stands for.
pub struct HostPathView {
    pub path: PathView,
    pub text: Seq<char>,
    pub prefix: Seq<char>,
    pub separator: Seq<char>,
}

impl View for HostPath {
    type V = HostPathView;

    open spec fn view(&self) -> HostPathView {
        HostPathView {
            path: self.path@,
            text: self.text@,
            prefix: self.prefix@,
            separator: self.separator@,
        }
    }
}

impl Clone for HostPath {
    fn clone(&self) -> (copy: Self)
        ensures
            copy@ == self@,
    {
        HostPath {
            path: self.path.clone(),
            text: self.text.clone(),
            prefix: self.prefix.clone(),
            separator: self.separator.clone(),
        }
    }
}

// How a path is written does not tell it apart from others.
impl PartialEq for HostPath {
    fn eq(&self, other: &HostPath) -> (same: bool) {
        self.path.same(&other.path)
    }
}

impl vstd::std_specs::cmp::PartialEqSpecImpl for HostPath {
    open spec fn obeys_eq_spec() -> bool {
        true
    }

    open spec fn eq_spec(&self, other: &HostPath) -> bool {
        self@.path == other@.path
    }
}

impl Eq for HostPath {

}

/// The text of a component, for a path whose prefix is written as given.
pub open spec fn component_text(
    component: ComponentView,
    prefix: Seq<char>,
    separator: Seq<char>,
) -> Seq<char> {
    match component {
        ComponentView::Prefix(_) => prefix,
        ComponentView::RootDir => separator,
        ComponentView::CurDir => "."@,
        ComponentView::ParentDir => ".."@,
        ComponentView::Normal(name) => name,
        ComponentView::NonUnicode { lossy, .. } => lossy,
    }
}

/// The text of a path that is put together from its components: one separator stands between two
/// of them, and none after a prefix or a root.
pub open spec fn path_text(path: PathView, prefix: Seq<char>, separator: Seq<char>) -> Seq<char>
    decreases path.len(),
{
    if path.len() == 0 {
        ""@
    } else if path.len() == 1 || path[path.len() - 2] is RootDir || path[path.len() - 2] is Prefix {
        path_text(path.drop_last(), prefix, separator) + component_text(
            path.last(),
            prefix,
            separator,
        )
    } else {
        path_text(path.drop_last(), prefix, separator) + separator + component_text(
            path.last(),
            prefix,
            separator,
        )
    }
}

/// The path that is put together from its components, with its prefix as given.
pub open spec fn plainly_written(
    path: PathView,
    prefix: Seq<char>,
    separator: Seq<char>,
) -> HostPathView {
    HostPathView { path, text: path_text(path, prefix, separator), prefix, separator }
}

impl HostPathView {
    /// Whether the path starts with a prefix.
    pub open spec fn has_prefix(self) -> bool {
        self.path.len() > 0 && self.path[0] is Prefix
    }

    /// Whether the path is a drive, such as `C:`, and nothing more.
    pub open spec fn is_drive(self) -> bool {
        &&& self.path.len() == 1
        &&& self.path[0] matches ComponentView::Prefix(prefix) && prefix is Drive
        &&& self.text == self.prefix
    }

    /// Whether a relative path can be written directly after this one: it is empty, ends with a
    /// separator, or is a drive. Every host takes `/` for a separator.
    pub open spec fn is_open_ended(self) -> bool {
        ||| self.text.len() == 0
        ||| "/"@.is_suffix_of(self.text)
        ||| self.separator.is_suffix_of(self.text)
        ||| self.is_drive()
    }

    /// The text of the path `other`, seen from the directory `self`: an absolute `other` is
    /// shown as it is written, after the prefix of `self` when it has none of its own, and
    /// another `other` after all of `self`. After a verbatim prefix, the path is put together
    /// from its components.
    pub open spec fn joined_text(self, other: HostPathView) -> Seq<char> {
        if other.has_prefix() {
            other.text
        } else if is_verbatim(self.path) && other.path.len() > 0 {
            path_text(joined(self.path, other.path), self.prefix, self.separator)
        } else if other.path.len() > 0 && other.path[0] is RootDir {
            if self.has_prefix() {
                self.prefix + other.text
            } else {
                other.text
            }
        } else if self.is_open_ended() {
            self.text + other.text
        } else {
            self.text + self.separator + other.text
        }
    }

    /// The path `other`, seen from the directory `self`.
    pub open spec fn joined_with(self, other: HostPathView) -> HostPathView {
        HostPathView {
            path: joined(self.path, other.path),
            text: self.joined_text(other),
            prefix: if other.has_prefix() {
                other.prefix
            } else {
                self.prefix
            },
            separator: self.separator,
        }
    }

    /// The path without its redundant components.
    pub open spec fn normal(self) -> HostPathView {
        plainly_written(normalized(self.path, false), self.prefix, self.separator)
    }
}

fn ends_with(text: &str, end: &str) -> (found: bool)
    ensures
        found == end@.is_suffix_of(text@),
{
    let text_len: usize = text.unicode_len();
    let end_len: usize = end.unicode_len();
    if text_len < end_len {
        return false;
    }
    text.substring_char(text_len - end_len, text_len).to_owned() == end.to_owned()
}

/// The text of a component.
fn text_of<'a>(component: &'a PathComponent, prefix: &'a str, separator: &'a str) -> (text: &'a str)
    ensures
        text@ == component_text(component@, prefix@, separator@),
{
    match component {
        PathComponent::Prefix(_) => prefix,
        PathComponent::RootDir => separator,
        PathComponent::CurDir => ".",
        PathComponent::ParentDir => "..",
        PathComponent::Normal(name) => name.as_str(),
        PathComponent::NonUnicode { bytes: _, lossy } => lossy.as_str(),
    }
}

/// The text of a path that is put together from its components.
fn text_of_path(path: &ModulePath, prefix: &str, separator: &str) -> (text: String)
    ensures
        text@ == path_text(path@, prefix@, separator@),
{
    let mut text = "".to_owned();
    let mut i: usize = 0;
    assert(path@.take(0) =~= PathView::empty());
    while i < path.components.len()
        invariant
            i <= path.components.len(),
            text@ == path_text(path@.take(i as int), prefix@, separator@),
        decreases path.components.len() - i,
    {
        let ghost before = path@.take(i as int);
        let ghost now = path@.take(i + 1);
        assert(now.drop_last() =~= before);
        assert(now.last() == path.components@[i as int]@);
        if i > 0 {
            assert(now[i - 1] == path.components@[i - 1]@);
            match &path.components[i - 1] {
                PathComponent::RootDir | PathComponent::Prefix(_) => {},
                _ => {
                    text.append(separator);
                },
            }
        }
        text.append(text_of(&path.components[i], prefix, separator));
        i += 1;
    }
    assert(path@.take(i as int) =~= path@);
    text
}

impl HostPath {
    /// The path that is put together from its components, with its prefix as given.
    pub fn plain(path: ModulePath, prefix: String, separator: String) -> (written: HostPath)
        ensures
            written@ == plainly_written(path@, prefix@, separator@),
    {
        let text = text_of_path(&path, prefix.as_str(), separator.as_str());
        HostPath { path, text, prefix, separator }
    }

    fn is_drive(&self) -> (found: bool)
        ensures
            found == self@.is_drive(),
    {
        if self.path.components.len() != 1 {
            return false;
        }
        assert(self.path@[0] == self.path.components@[0]@);
        match &self.path.components[0] {
            PathComponent::Prefix(PathPrefix::Drive { .. }) => self.text == self.prefix,
            _ => false,
        }
    }

    fn is_open_ended(&self) -> (found: bool)
        ensures
            found == self@.is_open_ended(),
    {
        let text = self.text.as_str();
        text.unicode_len() == 0 || ends_with(text, "/") || ends_with(text, self.separator.as_str())
            || self.is_drive()
    }

    /// The text of the path `other`, seen from the directory `self`.
    fn join_text(&self, other: &HostPath) -> (text: String)
        ensures
            text@ == self@.joined_text(other@),
    {
        if other.path.has_prefix() {
            return other.text.clone();
        }
        let mut text: String;
        if other.path.components.len() > 0 {
            assert(other.path@[0] == other.path.components@[0]@);
            if self.path.is_verbatim() {
                return text_of_path(
                    &self.path.join(&other.path),
                    self.prefix.as_str(),
                    self.separator.as_str(),
                );
            }
            if let PathComponent::RootDir = &other.path.components[0] {
                if !self.path.has_prefix() {
                    return other.text.clone();
                }
                text = self.prefix.clone();
                text.append(other.text.as_str());
                return text;
            }
        }
        text = self.text.clone();
        if !self.is_open_ended() {
            text.append(self.separator.as_str());
        }
        text.append(other.text.as_str());
        text
    }

    /// The path `other`, seen from the directory `self`.
    pub fn join(&self, other: &HostPath) -> (path: HostPath)
        ensures
            path@ == self@.joined_with(other@),
    {
        HostPath {
            path: self.path.join(&other.path),
            text: self.join_text(other),
            prefix: if other.path.has_prefix() {
                other.prefix.clone()
            } else {
                self.prefix.clone()
            },
            separator: self.separator.clone(),
        }
    }

    /// The path without its redundant components.
    pub fn normalize(&self) -> (path: HostPath)
        ensures
            path@ == self@.normal(),
    {
        HostPath::plain(self.path.normalize(false), self.prefix.clone(), self.separator.clone())
    }
}

/// The text of a path of one component.
pub proof fn lemma_text_of_one_component(
    component: ComponentView,
    prefix: Seq<char>,
    separator: Seq<char>,
)
    ensures
        path_text(PathView::empty(), prefix, separator) == Seq::<char>::empty(),
        path_text(seq![component], prefix, separator) == match component {
            ComponentView::Prefix(_) => prefix,
            ComponentView::RootDir => separator,
            ComponentView::CurDir => seq!['.'],
            ComponentView::ParentDir => seq!['.', '.'],
            ComponentView::Normal(name) => name,
            ComponentView::NonUnicode { lossy, .. } => lossy,
        },
{
    reveal_strlit("");
    reveal_strlit(".");
    reveal_strlit("..");
    assert("."@ =~= seq!['.']);
    assert(".."@ =~= seq!['.', '.']);
    assert(seq![component].drop_last() =~= PathView::empty());
    assert(""@ =~= Seq::<char>::empty());
    assert(path_text(PathView::empty(), prefix, separator) =~= Seq::<char>::empty());
    assert(path_text(seq![component], prefix, separator) =~= component_text(
        component,
        prefix,
        separator,
    ));
}

/// The text of two paths put together: their texts, and a separator between them unless the first
/// one ends with a prefix or a root.
pub proof fn lemma_text_of_paths_put_together(
    start: PathView,
    rest: PathView,
    prefix: Seq<char>,
    separator: Seq<char>,
)
    requires
        start.len() > 0,
        rest.len() > 0,
    ensures
        path_text(start + rest, prefix, separator) == if start.last() is Prefix || start.last()
            is RootDir {
            path_text(start, prefix, separator) + path_text(rest, prefix, separator)
        } else {
            path_text(start, prefix, separator) + separator + path_text(rest, prefix, separator)
        },
    decreases rest.len(),
{
    let all = start + rest;
    let before = rest.drop_last();
    assert(all.drop_last() =~= start + before);
    assert(all.last() == rest.last());
    let glue = if start.last() is Prefix || start.last() is RootDir {
        Seq::<char>::empty()
    } else {
        separator
    };
    let head = path_text(start, prefix, separator);
    let last = component_text(rest.last(), prefix, separator);
    if before.len() == 0 {
        assert(rest =~= seq![rest.last()]);
        assert(start + before =~= start);
        assert(all[all.len() - 2] == start.last());
        reveal_strlit("");
        assert(path_text(before, prefix, separator) == ""@);
        assert(path_text(rest, prefix, separator) =~= last);
        assert(path_text(all, prefix, separator) =~= head + glue + last);
    } else {
        lemma_text_of_paths_put_together(start, before, prefix, separator);
        assert(all[all.len() - 2] == rest[rest.len() - 2]);
        let middle = path_text(before, prefix, separator);
        assert(path_text(start + before, prefix, separator) =~= head + glue + middle);
        if rest[rest.len() - 2] is RootDir || rest[rest.len() - 2] is Prefix {
            assert(path_text(rest, prefix, separator) =~= middle + last);
            assert(path_text(all, prefix, separator) =~= head + glue + (middle + last));
        } else {
            assert(path_text(rest, prefix, separator) =~= middle + separator + last);
            assert(path_text(all, prefix, separator) =~= head + glue + (middle + separator + last));
        }
    }
    assert(path_text(all, prefix, separator) =~= head + glue + path_text(
        rest,
        prefix,
        separator,
    ));
}

/// The text of a joined path ends with the text of the path that is joined, as it is written. What
/// stands before it is nothing where that path is absolute, or all of the directory, with a
/// separator unless the directory is written with one at its end, is a mere drive, or is empty.
/// The prefix of the directory is kept where the path has none of its own.
pub proof fn lemma_joined_text_shows_both(base: HostPathView, other: HostPathView)
    requires
        !(base.path.len() > 0 && (base.path[0] matches ComponentView::Prefix(prefix) && !(prefix
            is Drive || prefix is Share || prefix is Device))),
    ensures
        ({
            let joined = base.joined_with(other);
            let text = base.text;
            let is_absolute = other.path.len() > 0 && other.path[0] is RootDir;
            let ends_open = {
                ||| text.len() == 0
                ||| text[text.len() - 1] == '/'
                ||| base.separator.len() == 1 && text[text.len() - 1] == base.separator[0]
                ||| text == base.prefix && base.path.len() == 1 && (base.path[0] matches
                    ComponentView::Prefix(prefix) && prefix is Drive)
            };
            &&& joined.separator == base.separator
            &&& if other.path.len() > 0 && other.path[0] is Prefix {
                joined.text == other.text && joined.prefix == other.prefix
            } else {
                &&& joined.prefix == base.prefix
                &&& is_absolute && !(base.path.len() > 0 && base.path[0] is Prefix) ==> joined.text
                    == other.text
                &&& is_absolute && base.path.len() > 0 && base.path[0] is Prefix ==> joined.text
                    == base.prefix + other.text
                &&& !is_absolute && base.separator.len() == 1 ==> joined.text == if ends_open {
                    text + other.text
                } else {
                    text + base.separator + other.text
                }
            }
        }),
{
    reveal_strlit("/");
    let text = base.text;
    assert("/"@ =~= seq!['/']);
    if text.len() > 0 {
        let end = text.subrange(text.len() - 1, text.len() as int);
        assert(end =~= seq![text[text.len() - 1]]);
        assert(end[0] == text[text.len() - 1]);
        assert("/"@[0] == '/');
        if base.separator.len() == 1 {
            assert(base.separator =~= seq![base.separator[0]]);
        }
    }
}

/// After a verbatim prefix, a joined path is put together from its components.
pub proof fn lemma_joined_text_after_a_verbatim_prefix(base: HostPathView, other: HostPathView)
    requires
        base.path.len() > 0,
        base.path[0] matches ComponentView::Prefix(prefix) && (prefix is Verbatim || prefix
            is VerbatimShare || prefix is VerbatimDrive),
        other.path.len() > 0,
        !(other.path[0] is Prefix),
    ensures
        base.joined_with(other).text == path_text(
            base.joined_with(other).path,
            base.prefix,
            base.separator,
        ),
        base.joined_with(other).path == joined(base.path, other.path),
        base.joined_with(other).prefix == base.prefix,
{
}

} // verus!
