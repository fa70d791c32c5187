//! The last sourcemap that was parsed.
use crate::error::DarkluaError;
use crate::path_utils::{get_relative_parent_path, relative_parent};
use crate::paths::{ComponentView, ModulePath, PathView};
use crate::rojo_sourcemap::{RojoSourcemap, RojoSourcemapNode};
use crate::sourcemap_model::{sourcemap_of, SourcemapView};
use crate::tree_laws::{lemma_table_mirrors_the_tree, lists_file, lists_file_first, node_at};
use std::sync::Arc;
use vstd::prelude::*;

verus! {

/// A sourcemap, with where it was found and what it was parsed from.
struct ParsedSourcemapEntry {
    path: ModulePath,
    content: String,
    sourcemap: Arc<RojoSourcemap>,
}

/// What is kept of a sourcemap.
pub struct EntryView {
    pub path: PathView,
    pub content: Seq<char>,
    pub sourcemap: SourcemapView,
}

/// What a [`ParsedSourcemap`] stands for.
pub type CacheView = Option<EntryView>;

/// Whether the given content, found at the given path, is what was parsed last.
pub open spec fn holds(cache: CacheView, path: PathView, content: Seq<char>) -> bool {
    cache matches Some(entry) && entry.path == path && entry.content == content
}

/// The sourcemap at the given path, whose content decodes to the given tree.
pub open spec fn parsed(path: PathView, decoded: Option<RojoSourcemapNode>) -> Option<
    SourcemapView,
> {
    match decoded {
        Some(root) => Some(sourcemap_of(root, relative_parent(path))),
        None => None,
    }
}

/// The sourcemap that is handed out: the one that is kept, if it still fits, or else the one that
/// is parsed.
pub open spec fn answer(
    cache: CacheView,
    path: PathView,
    content: Seq<char>,
    decoded: Option<RojoSourcemapNode>,
) -> Option<SourcemapView> {
    if holds(cache, path, content) {
        Some(cache->0.sourcemap)
    } else {
        parsed(path, decoded)
    }
}

/// What is kept once the given content was decoded: a sourcemap that could be parsed replaces the
/// one before it.
pub open spec fn replaced(
    cache: CacheView,
    path: PathView,
    content: Seq<char>,
    decoded: Option<RojoSourcemapNode>,
) -> CacheView {
    match parsed(path, decoded) {
        Some(sourcemap) => Some(EntryView { path, content, sourcemap }),
        None => cache,
    }
}

/// What is kept afterwards: the sourcemap before, if it still fits, or else the one that was
/// parsed.
pub open spec fn kept(
    cache: CacheView,
    path: PathView,
    content: Seq<char>,
    decoded: Option<RojoSourcemapNode>,
) -> CacheView {
    if holds(cache, path, content) {
        cache
    } else {
        replaced(cache, path, content, decoded)
    }
}

/// Whether the sourcemap that is kept is the one that its content decodes to.
pub open spec fn is_faithful(
    cache: CacheView,
    decode: spec_fn(Seq<char>) -> Option<RojoSourcemapNode>,
) -> bool {
    cache matches Some(entry) ==> parsed(entry.path, decode(entry.content)) == Some(
        entry.sourcemap,
    )
}

/// Keeping a sourcemap changes nothing: what is handed out is what parsing the content would
/// give, and stays so.
pub proof fn lemma_cache_is_transparent(
    cache: CacheView,
    path: PathView,
    content: Seq<char>,
    decode: spec_fn(Seq<char>) -> Option<RojoSourcemapNode>,
)
    requires
        is_faithful(cache, decode),
    ensures
        answer(cache, path, content, decode(content)) == parsed(path, decode(content)),
        is_faithful(kept(cache, path, content, decode(content)), decode),
{
}

/// A sourcemap that was handed out is handed out again while its path and content stay the same,
/// whatever decoding would give by then, and it stays kept.
pub proof fn lemma_unchanged_sourcemap_is_reused(
    cache: CacheView,
    path: PathView,
    content: Seq<char>,
    decoded: Option<RojoSourcemapNode>,
    decoded_later: Option<RojoSourcemapNode>,
)
    requires
        answer(cache, path, content, decoded) is Some,
    ensures
        ({
            let later = kept(cache, path, content, decoded);
            &&& holds(later, path, content)
            &&& answer(later, path, content, decoded_later) == answer(
                cache,
                path,
                content,
                decoded,
            )
            &&& kept(later, path, content, decoded_later) == later
        }),
{
}

/// After a sourcemap was handed out, another path or another content is parsed again.
pub proof fn lemma_changed_sourcemap_is_parsed_again(
    cache: CacheView,
    path: PathView,
    content: Seq<char>,
    decoded: Option<RojoSourcemapNode>,
    new_path: PathView,
    new_content: Seq<char>,
    new_decoded: Option<RojoSourcemapNode>,
)
    requires
        answer(cache, path, content, decoded) is Some,
        new_path != path || new_content != content,
    ensures
        answer(kept(cache, path, content, decoded), new_path, new_content, new_decoded) == parsed(
            new_path,
            new_decoded,
        ),
{
}

/// The last sourcemap parsed by a require mode. The sourcemap is only parsed again when its path
/// or content changes.
pub struct ParsedSourcemap {
    entry: Option<ParsedSourcemapEntry>,
}

impl View for ParsedSourcemap {
    type V = CacheView;

    closed spec fn view(&self) -> CacheView {
        match self.entry {
            Some(entry) => Some(
                EntryView {
                    path: entry.path@,
                    content: entry.content@,
                    sourcemap: entry.sourcemap@,
                },
            ),
            None => None,
        }
    }
}

impl Default for ParsedSourcemap {
    fn default() -> (cache: ParsedSourcemap)
        ensures
            cache@ is None,
    {
        ParsedSourcemap { entry: None }
    }
}

// What is kept does not change how a require mode behaves.
impl PartialEq for ParsedSourcemap {
    fn eq(&self, _other: &ParsedSourcemap) -> (same: bool) {
        true
    }
}

impl vstd::std_specs::cmp::PartialEqSpecImpl for ParsedSourcemap {
    open spec fn obeys_eq_spec() -> bool {
        true
    }

    open spec fn eq_spec(&self, other: &ParsedSourcemap) -> bool {
        true
    }
}

impl Eq for ParsedSourcemap {

}

/// What decoding gave, without the reason of a failure.
pub open spec fn decoded_tree(reply: Result<RojoSourcemapNode, DarkluaError>) -> Option<
    RojoSourcemapNode,
> {
    match reply {
        Ok(root) => Some(root),
        Err(_) => None,
    }
}

impl ParsedSourcemap {
    /// The sourcemap that is kept, as it is handed out.
    pub closed spec fn shared(&self) -> Option<Arc<RojoSourcemap>> {
        match self.entry {
            Some(entry) => Some(entry.sourcemap),
            None => None,
        }
    }

    /// The sourcemap that is kept, if it was parsed from the given content at the given path.
    pub fn get(&self, path: &ModulePath, content: &String) -> (sourcemap: Option<
        Arc<RojoSourcemap>,
    >)
        ensures
            match sourcemap {
                Some(sourcemap) => {
                    &&& holds(self@, path@, content@)
                    &&& self.shared() == Some(sourcemap)
                    &&& sourcemap@ == self@->0.sourcemap
                    &&& sourcemap@.wf()
                },
                None => !holds(self@, path@, content@),
            },
    {
        match &self.entry {
            Some(entry) => {
                proof {
                    use_type_invariant(&*entry.sourcemap);
                }
                if entry.path.same(path) && entry.content == *content {
                    Some(Arc::clone(&entry.sourcemap))
                } else {
                    None
                }
            },
            None => None,
        }
    }

    /// Keeps the sourcemap at the given path, given what its content was decoded to.
    pub fn store(
        &mut self,
        path: &ModulePath,
        content: String,
        reply: Result<RojoSourcemapNode, DarkluaError>,
    ) -> (result: Result<Arc<RojoSourcemap>, DarkluaError>)
        ensures
            final(self)@ == replaced(old(self)@, path@, content@, decoded_tree(reply)),
            result matches Ok(sourcemap) ==> sourcemap@.wf(),
            final(self).shared() == match result {
                Ok(sourcemap) => Some(sourcemap),
                Err(_) => old(self).shared(),
            },
            match reply {
                Ok(root) => result matches Ok(sourcemap) && sourcemap@ == sourcemap_of(
                    root,
                    relative_parent(path@),
                ),
                Err(reason) => result matches Err(error) && error == reason,
            },
    {
        match reply {
            Ok(root) => {
                let sourcemap = Arc::new(
                    RojoSourcemap::from_node(root, &get_relative_parent_path(path)),
                );
                self.entry = Some(
                    ParsedSourcemapEntry {
                        path: path.clone(),
                        content,
                        sourcemap: Arc::clone(&sourcemap),
                    },
                );
                Ok(sourcemap)
            },
            Err(error) => Err(error),
        }
    }

    /// The sourcemap that the given content, found at the given path, describes. The content is
    /// decoded only if it is not what was parsed last.
    pub fn get_or_parse<D>(&mut self, path: &ModulePath, content: String, decode: D) -> (result:
        Result<Arc<RojoSourcemap>, DarkluaError>) where
        D: FnOnce(&str) -> Result<RojoSourcemapNode, DarkluaError>,

        requires
            !holds(old(self)@, path@, content@) ==> forall|text: &str|
                text@ == content@ ==> call_requires(decode, (text,)),
        ensures
            result matches Ok(sourcemap) ==> sourcemap@.wf(),
            final(self).shared() == match result {
                Ok(sourcemap) => Some(sourcemap),
                Err(_) => old(self).shared(),
            },
            holds(old(self)@, path@, content@) ==> {
                &&& final(self)@ == old(self)@
                &&& final(self).shared() == old(self).shared()
                &&& result matches Ok(sourcemap) && sourcemap@ == old(self)@->0.sourcemap
            },
            !holds(old(self)@, path@, content@) ==> exists|
                text: &str,
                reply: Result<RojoSourcemapNode, DarkluaError>,
            |
                {
                    &&& text@ == content@
                    &&& #[trigger] call_ensures(decode, (text,), reply)
                    &&& final(self)@ == kept(
                        old(self)@,
                        path@,
                        content@,
                        decoded_tree(reply),
                    )
                    &&& match reply {
                        Ok(root) => result matches Ok(sourcemap) && sourcemap@ == sourcemap_of(
                            root,
                            relative_parent(path@),
                        ),
                        Err(reason) => result matches Err(error) && error == reason,
                    }
                },
    {
        if let Some(sourcemap) = self.get(path, &content) {
            return Ok(sourcemap);
        }
        let reply = decode(content.as_str());
        self.store(path, content, reply)
    }
}

/// The files that a sourcemap lists stand in the directory of the sourcemap: a sourcemap that is
/// found at `path` holds exactly the files that its tree lists relative to the path without its
/// last component, or relative to `.` where that is all there is.
pub proof fn lemma_files_stand_in_the_directory_of_the_sourcemap(
    path: PathView,
    root: RojoSourcemapNode,
    directory: PathView,
    file: PathView,
)
    requires
        path.len() > 0,
        path.last() is Normal || path.last() is NonUnicode,
        directory == if path.len() > 1 {
            path.take(path.len() - 1)
        } else {
            seq![ComponentView::CurDir]
        },
    ensures
        parsed(path, Some(root)) matches Some(sourcemap) && {
            &&& sourcemap.node_ids_by_path.contains_key(file) <==> exists|route: Seq<int>|
                lists_file(root, directory, route, file)
            &&& forall|route: Seq<int>| #[trigger]
                lists_file_first(root, directory, route, file) ==> node_at(root, route) is Some
                    && sourcemap.nodes[sourcemap.node_ids_by_path[file]].name == node_at(
                    root,
                    route,
                )->0.name@
            &&& sourcemap.is_datamodel <==> root.class_name@ == "DataModel"@
        },
{
    assert(path.take(path.len() - 1) =~= path.drop_last());
    assert(relative_parent(path) == directory);
    let id_of = lemma_table_mirrors_the_tree(root, directory);
}

/// A content that was decoded is kept with its path, and what is kept is the sourcemap of its
/// tree. A content that could not be decoded changes nothing and gives no sourcemap.
pub proof fn lemma_reply_decides_what_is_kept(
    cache: CacheView,
    path: PathView,
    content: Seq<char>,
    reply: Result<RojoSourcemapNode, DarkluaError>,
)
    requires
        !(cache matches Some(entry) && entry.path == path && entry.content == content),
    ensures
        ({
            let after = kept(cache, path, content, decoded_tree(reply));
            match reply {
                Ok(root) => {
                    &&& after matches Some(entry)
                    &&& entry.path == path
                    &&& entry.content == content
                    &&& Some(entry.sourcemap) == parsed(path, Some(root))
                },
                Err(_) => {
                    &&& after == cache
                    &&& answer(cache, path, content, decoded_tree(reply)) is None
                },
            }
        }),
{
}

} // verus!
