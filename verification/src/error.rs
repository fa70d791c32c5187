//! What can go wrong when requires are converted. Paths are held by the text that is shown.
use vstd::prelude::*;

verus! {

/// What went wrong.
#[derive(Debug, PartialEq, Eq)]
pub enum ErrorKind {
    /// Requires of the current require mode cannot be found.
    UnsupportedRequireMode,
    /// A resource cannot be read, for the given reason.
    Resource(String),
    /// A sourcemap is not what it should be, for the given reason.
    Json(String),
    /// A name, shown by the given text, is not valid Unicode.
    NotUnicode { lossy: String },
    /// A required path starts with a name.
    NotRelative { require_path: String, relative_require_path: String },
    /// A required path is absolute.
    Absolute { require_path: String },
    /// A relative path holds a prefix or a root.
    UnexpectedComponent { require_path: String, relative_require_path: String },
    /// A relative path is empty.
    EmptyRelativePath {
        require_path: String,
        source_path: String,
        relative_require_path: String,
    },
    /// There is no path from the source file to the required path.
    NoRelativePath { require_path: String, source_path: String },
}

/// What was being done when something went wrong.
#[derive(Debug, PartialEq, Eq)]
pub enum ErrorContext {
    /// A require of the current require mode was looked for.
    CurrentRequireMode,
    /// The require mode was initialized.
    Initialization,
    /// The sourcemap at the given path was parsed.
    Sourcemap(String),
}

/// An error, with what was being done.
#[derive(Debug, PartialEq, Eq)]
pub struct DarkluaError {
    pub kind: ErrorKind,
    pub context: Option<ErrorContext>,
}

/// What an [`ErrorKind`] stands for.
pub enum ErrorKindView {
    UnsupportedRequireMode,
    Resource(Seq<char>),
    Json(Seq<char>),
    NotUnicode { lossy: Seq<char> },
    NotRelative { require_path: Seq<char>, relative_require_path: Seq<char> },
    Absolute { require_path: Seq<char> },
    UnexpectedComponent { require_path: Seq<char>, relative_require_path: Seq<char> },
    EmptyRelativePath {
        require_path: Seq<char>,
        source_path: Seq<char>,
        relative_require_path: Seq<char>,
    },
    NoRelativePath { require_path: Seq<char>, source_path: Seq<char> },
}

/// What an [`ErrorContext`] stands for.
pub enum ErrorContextView {
    CurrentRequireMode,
    Initialization,
    Sourcemap(Seq<char>),
}

/// What a [`DarkluaError`] stands for.
pub struct ErrorView {
    pub kind: ErrorKindView,
    pub context: Option<ErrorContextView>,
}

impl View for ErrorKind {
    type V = ErrorKindView;

    open spec fn view(&self) -> ErrorKindView {
        match self {
            ErrorKind::UnsupportedRequireMode => ErrorKindView::UnsupportedRequireMode,
            ErrorKind::Resource(reason) => ErrorKindView::Resource(reason@),
            ErrorKind::Json(reason) => ErrorKindView::Json(reason@),
            ErrorKind::NotUnicode { lossy } => ErrorKindView::NotUnicode { lossy: lossy@ },
            ErrorKind::NotRelative { require_path, relative_require_path } => {
                ErrorKindView::NotRelative {
                    require_path: require_path@,
                    relative_require_path: relative_require_path@,
                }
            },
            ErrorKind::Absolute { require_path } => ErrorKindView::Absolute {
                require_path: require_path@,
            },
            ErrorKind::UnexpectedComponent { require_path, relative_require_path } => {
                ErrorKindView::UnexpectedComponent {
                    require_path: require_path@,
                    relative_require_path: relative_require_path@,
                }
            },
            ErrorKind::EmptyRelativePath { require_path, source_path, relative_require_path } => {
                ErrorKindView::EmptyRelativePath {
                    require_path: require_path@,
                    source_path: source_path@,
                    relative_require_path: relative_require_path@,
                }
            },
            ErrorKind::NoRelativePath { require_path, source_path } => {
                ErrorKindView::NoRelativePath {
                    require_path: require_path@,
                    source_path: source_path@,
                }
            },
        }
    }
}

impl View for ErrorContext {
    type V = ErrorContextView;

    open spec fn view(&self) -> ErrorContextView {
        match self {
            ErrorContext::CurrentRequireMode => ErrorContextView::CurrentRequireMode,
            ErrorContext::Initialization => ErrorContextView::Initialization,
            ErrorContext::Sourcemap(path) => ErrorContextView::Sourcemap(path@),
        }
    }
}

impl View for DarkluaError {
    type V = ErrorView;

    open spec fn view(&self) -> ErrorView {
        ErrorView {
            kind: self.kind@,
            context: match self.context {
                Some(context) => Some(context@),
                None => None,
            },
        }
    }
}

impl ErrorKindView {
    /// The text that says what went wrong.
    pub open spec fn message(self) -> Seq<char> {
        match self {
            ErrorKindView::UnsupportedRequireMode => "unsupported initial require mode"@,
            ErrorKindView::Resource(reason) => reason,
            ErrorKindView::Json(reason) => reason,
            ErrorKindView::NotUnicode { lossy } => "unable to convert operating system string `"@
                + lossy + "` into a utf-8 string"@,
            ErrorKindView::NotRelative { require_path, relative_require_path } => {
                "unable to convert path `"@ + require_path
                    + "`: the require path should be relative and start with `.` or `..` (got `"@
                    + relative_require_path + "`)"@
            },
            ErrorKindView::Absolute { require_path } => "unable to convert absolute path `"@
                + require_path
                + "`: without a provided Rojo sourcemap, darklua can only convert relative paths (starting with `.` or `..`)"@,
            ErrorKindView::UnexpectedComponent { require_path, relative_require_path } => {
                "unable to convert path `"@ + require_path
                    + "`: unexpected component in relative path `"@ + relative_require_path + "`"@
            },
            ErrorKindView::EmptyRelativePath {
                require_path,
                source_path,
                relative_require_path,
            } => {
                "unable to convert path `"@ + require_path + "` from `"@ + source_path
                    + "` without a sourcemap: the relative path is empty `"@
                    + relative_require_path + "`"@
            },
            ErrorKindView::NoRelativePath { require_path, source_path } => {
                "unable to convert path `"@ + require_path + "` from `"@ + source_path
                    + "` without a sourcemap: unable to make the require path relative to the source file"@
            },
        }
    }
}

impl ErrorContextView {
    /// The text that says what was being done.
    pub open spec fn message(self) -> Seq<char> {
        match self {
            ErrorContextView::CurrentRequireMode => {
                "Roblox require mode cannot be used as the current require mode"@
            },
            ErrorContextView::Initialization => "while initializing Roblox require mode"@,
            ErrorContextView::Sourcemap(path) => "unable to parse Rojo sourcemap at `"@ + path
                + "`"@,
        }
    }
}

impl ErrorView {
    /// The error, said to have come up in the given context.
    pub open spec fn in_context(self, context: ErrorContextView) -> ErrorView {
        ErrorView { kind: self.kind, context: Some(context) }
    }
}

impl ErrorKind {
    /// The text that says what went wrong.
    pub fn message(&self) -> (text: String)
        ensures
            text@ == self@.message(),
    {
        match self {
            ErrorKind::UnsupportedRequireMode => "unsupported initial require mode".to_owned(),
            ErrorKind::Resource(reason) => reason.clone(),
            ErrorKind::Json(reason) => reason.clone(),
            ErrorKind::NotUnicode { lossy } => {
                let mut text = "unable to convert operating system string `".to_owned();
                text.append(lossy.as_str());
                text.append("` into a utf-8 string");
                text
            },
            ErrorKind::NotRelative { require_path, relative_require_path } => {
                let mut text = "unable to convert path `".to_owned();
                text.append(require_path.as_str());
                text.append(
                    "`: the require path should be relative and start with `.` or `..` (got `",
                );
                text.append(relative_require_path.as_str());
                text.append("`)");
                text
            },
            ErrorKind::Absolute { require_path } => {
                let mut text = "unable to convert absolute path `".to_owned();
                text.append(require_path.as_str());
                text.append(
                    "`: without a provided Rojo sourcemap, darklua can only convert relative paths (starting with `.` or `..`)",
                );
                text
            },
            ErrorKind::UnexpectedComponent { require_path, relative_require_path } => {
                let mut text = "unable to convert path `".to_owned();
                text.append(require_path.as_str());
                text.append("`: unexpected component in relative path `");
                text.append(relative_require_path.as_str());
                text.append("`");
                text
            },
            ErrorKind::EmptyRelativePath { require_path, source_path, relative_require_path } => {
                let mut text = "unable to convert path `".to_owned();
                text.append(require_path.as_str());
                text.append("` from `");
                text.append(source_path.as_str());
                text.append("` without a sourcemap: the relative path is empty `");
                text.append(relative_require_path.as_str());
                text.append("`");
                text
            },
            ErrorKind::NoRelativePath { require_path, source_path } => {
                let mut text = "unable to convert path `".to_owned();
                text.append(require_path.as_str());
                text.append("` from `");
                text.append(source_path.as_str());
                text.append(
                    "` without a sourcemap: unable to make the require path relative to the source file",
                );
                text
            },
        }
    }
}

impl ErrorContext {
    /// The text that says what was being done.
    pub fn message(&self) -> (text: String)
        ensures
            text@ == self@.message(),
    {
        match self {
            ErrorContext::CurrentRequireMode => {
                "Roblox require mode cannot be used as the current require mode".to_owned()
            },
            ErrorContext::Initialization => "while initializing Roblox require mode".to_owned(),
            ErrorContext::Sourcemap(path) => {
                let mut text = "unable to parse Rojo sourcemap at `".to_owned();
                text.append(path.as_str());
                text.append("`");
                text
            },
        }
    }
}

impl DarkluaError {
    /// An error without a context.
    pub fn new(kind: ErrorKind) -> (error: DarkluaError)
        ensures
            error@ == (ErrorView { kind: kind@, context: None }),
    {
        DarkluaError { kind, context: None }
    }

    /// The error, said to have come up in the given context.
    pub fn context(self, context: ErrorContext) -> (error: DarkluaError)
        ensures
            error@ == self@.in_context(context@),
    {
        DarkluaError { kind: self.kind, context: Some(context) }
    }
}

/// Whether a text shows another one whole, between backquotes.
pub open spec fn shows(text: Seq<char>, shown: Seq<char>) -> bool {
    exists|before: Seq<char>, after: Seq<char>|
        text == #[trigger] (before + seq!['`'] + shown + seq!['`'] + after)
}

proof fn lemma_shows(before: Seq<char>, shown: Seq<char>, after: Seq<char>)
    requires
        before.len() > 0 && before.last() == '`',
        after.len() > 0 && after[0] == '`',
    ensures
        shows(before + shown + after, shown),
{
    let start = before.drop_last();
    let rest = after.drop_first();
    assert(before + shown + after =~= start + seq!['`'] + shown + seq!['`'] + rest);
}

/// An error shows each of the paths and names that it is about, whole and as it was written.
pub proof fn lemma_errors_show_their_paths(kind: ErrorKindView)
    ensures
        match kind {
            ErrorKindView::NotUnicode { lossy } => shows(kind.message(), lossy),
            ErrorKindView::Absolute { require_path } => shows(kind.message(), require_path),
            ErrorKindView::NotRelative { require_path, relative_require_path } => {
                &&& shows(kind.message(), require_path)
                &&& shows(kind.message(), relative_require_path)
            },
            ErrorKindView::UnexpectedComponent { require_path, relative_require_path } => {
                &&& shows(kind.message(), require_path)
                &&& shows(kind.message(), relative_require_path)
            },
            ErrorKindView::NoRelativePath { require_path, source_path } => {
                &&& shows(kind.message(), require_path)
                &&& shows(kind.message(), source_path)
            },
            ErrorKindView::EmptyRelativePath {
                require_path,
                source_path,
                relative_require_path,
            } => {
                &&& shows(kind.message(), require_path)
                &&& shows(kind.message(), source_path)
                &&& shows(kind.message(), relative_require_path)
            },
            ErrorKindView::Resource(reason) => kind.message() == reason,
            ErrorKindView::Json(reason) => kind.message() == reason,
            ErrorKindView::UnsupportedRequireMode => true,
        },
{
    let convert = "unable to convert path `"@;
    reveal_strlit("unable to convert path `");
    match kind {
        ErrorKindView::NotUnicode { lossy } => {
            reveal_strlit("unable to convert operating system string `");
            reveal_strlit("` into a utf-8 string");
            lemma_shows(
                "unable to convert operating system string `"@,
                lossy,
                "` into a utf-8 string"@,
            );
        },
        ErrorKindView::Absolute { require_path } => {
            reveal_strlit("unable to convert absolute path `");
            reveal_strlit(
                "`: without a provided Rojo sourcemap, darklua can only convert relative paths (starting with `.` or `..`)",
            );
            lemma_shows(
                "unable to convert absolute path `"@,
                require_path,
                "`: without a provided Rojo sourcemap, darklua can only convert relative paths (starting with `.` or `..`)"@,
            );
        },
        ErrorKindView::NotRelative { require_path, relative_require_path } => {
            let middle =
                "`: the require path should be relative and start with `.` or `..` (got `"@;
            reveal_strlit(
                "`: the require path should be relative and start with `.` or `..` (got `",
            );
            reveal_strlit("`)");
            let end = "`)"@;
            assert(kind.message() =~= convert + require_path + (middle + relative_require_path
                + end));
            assert(kind.message() =~= (convert + require_path + middle) + relative_require_path
                + end);
            lemma_shows(convert, require_path, middle + relative_require_path + end);
            lemma_shows(convert + require_path + middle, relative_require_path, end);
        },
        ErrorKindView::UnexpectedComponent { require_path, relative_require_path } => {
            let middle = "`: unexpected component in relative path `"@;
            reveal_strlit("`: unexpected component in relative path `");
            reveal_strlit("`");
            let end = "`"@;
            assert(kind.message() =~= convert + require_path + (middle + relative_require_path
                + end));
            assert(kind.message() =~= (convert + require_path + middle) + relative_require_path
                + end);
            lemma_shows(convert, require_path, middle + relative_require_path + end);
            lemma_shows(convert + require_path + middle, relative_require_path, end);
        },
        ErrorKindView::NoRelativePath { require_path, source_path } => {
            let middle = "` from `"@;
            reveal_strlit("` from `");
            reveal_strlit(
                "` without a sourcemap: unable to make the require path relative to the source file",
            );
            let end =
                "` without a sourcemap: unable to make the require path relative to the source file"@;
            assert(kind.message() =~= convert + require_path + (middle + source_path + end));
            assert(kind.message() =~= (convert + require_path + middle) + source_path + end);
            lemma_shows(convert, require_path, middle + source_path + end);
            lemma_shows(convert + require_path + middle, source_path, end);
        },
        ErrorKindView::EmptyRelativePath { require_path, source_path, relative_require_path } => {
            let from = "` from `"@;
            let empty = "` without a sourcemap: the relative path is empty `"@;
            let end = "`"@;
            reveal_strlit("` from `");
            reveal_strlit("` without a sourcemap: the relative path is empty `");
            reveal_strlit("`");
            let relative = relative_require_path;
            assert(kind.message() =~= convert + require_path + (from + source_path + empty
                + relative + end));
            assert(kind.message() =~= (convert + require_path + from) + source_path + (empty
                + relative + end));
            assert(kind.message() =~= (convert + require_path + from + source_path + empty)
                + relative + end);
            lemma_shows(convert, require_path, from + source_path + empty + relative + end);
            lemma_shows(convert + require_path + from, source_path, empty + relative + end);
            lemma_shows(
                convert + require_path + from + source_path + empty,
                relative,
                end,
            );
        },
        _ => {},
    }
}

/// An error that says that a sourcemap cannot be parsed shows where the sourcemap is, and an error
/// that is said to have come up in a context stays what it was.
pub proof fn lemma_contexts_show_their_paths(error: ErrorView, path: Seq<char>)
    ensures
        shows(ErrorContextView::Sourcemap(path).message(), path),
        error.in_context(ErrorContextView::Sourcemap(path)).kind == error.kind,
        error.in_context(ErrorContextView::Sourcemap(path)).context == Some(
            ErrorContextView::Sourcemap(path),
        ),
        error.in_context(ErrorContextView::Initialization).kind == error.kind,
        error.in_context(ErrorContextView::Initialization).context == Some(
            ErrorContextView::Initialization,
        ),
{
    reveal_strlit("unable to parse Rojo sourcemap at `");
    reveal_strlit("`");
    lemma_shows("unable to parse Rojo sourcemap at `"@, path, "`"@);
}

/// Two texts that differ only in what they show: the same words stand around it.
pub open spec fn differ_only_in(
    text: Seq<char>,
    other: Seq<char>,
    shown: Seq<Seq<char>>,
    other_shown: Seq<Seq<char>>,
) -> bool {
    exists|words: Seq<Seq<char>>|
        {
            &&& words.len() == shown.len() + 1
            &&& words.len() == other_shown.len() + 1
            &&& text == #[trigger] filled(words, shown)
            &&& other == filled(words, other_shown)
        }
}

/// The words, with what is shown between them.
pub open spec fn filled(words: Seq<Seq<char>>, shown: Seq<Seq<char>>) -> Seq<char>
    decreases shown.len(),
{
    if shown.len() == 0 {
        words[0]
    } else {
        filled(words, shown.drop_last()) + shown.last() + words[shown.len() as int]
    }
}

/// The paths and names that an error is about.
pub open spec fn subjects(kind: ErrorKindView) -> Seq<Seq<char>> {
    match kind {
        ErrorKindView::UnsupportedRequireMode => seq![],
        ErrorKindView::Resource(reason) => seq![reason],
        ErrorKindView::Json(reason) => seq![reason],
        ErrorKindView::NotUnicode { lossy } => seq![lossy],
        ErrorKindView::NotRelative { require_path, relative_require_path } => seq![
            require_path,
            relative_require_path,
        ],
        ErrorKindView::Absolute { require_path } => seq![require_path],
        ErrorKindView::UnexpectedComponent { require_path, relative_require_path } => seq![
            require_path,
            relative_require_path,
        ],
        ErrorKindView::EmptyRelativePath { require_path, source_path, relative_require_path } => {
            seq![require_path, source_path, relative_require_path]
        },
        ErrorKindView::NoRelativePath { require_path, source_path } => seq![
            require_path,
            source_path,
        ],
    }
}

/// Whether two errors are of one kind.
pub open spec fn same_kind(kind: ErrorKindView, other: ErrorKindView) -> bool {
    match kind {
        ErrorKindView::UnsupportedRequireMode => other is UnsupportedRequireMode,
        ErrorKindView::Resource(_) => other is Resource,
        ErrorKindView::Json(_) => other is Json,
        ErrorKindView::NotUnicode { .. } => other is NotUnicode,
        ErrorKindView::NotRelative { .. } => other is NotRelative,
        ErrorKindView::Absolute { .. } => other is Absolute,
        ErrorKindView::UnexpectedComponent { .. } => other is UnexpectedComponent,
        ErrorKindView::EmptyRelativePath { .. } => other is EmptyRelativePath,
        ErrorKindView::NoRelativePath { .. } => other is NoRelativePath,
    }
}

/// The words around what an error of one kind is about.
spec fn words_of(kind: ErrorKindView) -> Seq<Seq<char>> {
    match kind {
        ErrorKindView::UnsupportedRequireMode => seq!["unsupported initial require mode"@],
        ErrorKindView::Resource(_) => seq![Seq::empty(), Seq::empty()],
        ErrorKindView::Json(_) => seq![Seq::empty(), Seq::empty()],
        ErrorKindView::NotUnicode { .. } => seq![
            "unable to convert operating system string `"@,
            "` into a utf-8 string"@,
        ],
        ErrorKindView::NotRelative { .. } => seq![
            "unable to convert path `"@,
            "`: the require path should be relative and start with `.` or `..` (got `"@,
            "`)"@,
        ],
        ErrorKindView::Absolute { .. } => seq![
            "unable to convert absolute path `"@,
            "`: without a provided Rojo sourcemap, darklua can only convert relative paths (starting with `.` or `..`)"@,
        ],
        ErrorKindView::UnexpectedComponent { .. } => seq![
            "unable to convert path `"@,
            "`: unexpected component in relative path `"@,
            "`"@,
        ],
        ErrorKindView::EmptyRelativePath { .. } => seq![
            "unable to convert path `"@,
            "` from `"@,
            "` without a sourcemap: the relative path is empty `"@,
            "`"@,
        ],
        ErrorKindView::NoRelativePath { .. } => seq![
            "unable to convert path `"@,
            "` from `"@,
            "` without a sourcemap: unable to make the require path relative to the source file"@,
        ],
    }
}

proof fn lemma_message_is_filled(kind: ErrorKindView)
    ensures
        kind.message() == filled(words_of(kind), subjects(kind)),
        words_of(kind).len() == subjects(kind).len() + 1,
{
    let words = words_of(kind);
    let shown = subjects(kind);
    reveal_with_fuel(filled, 4);
    if shown.len() > 0 {
        assert(shown.drop_last() =~= shown.take(shown.len() - 1));
    }
    if shown.len() > 1 {
        assert(shown.drop_last().drop_last() =~= shown.take(shown.len() - 2));
    }
    assert(kind.message() =~= filled(words, shown));
}

/// Errors of one kind differ only in what they are about.
pub proof fn lemma_errors_of_one_kind_differ_only_in_paths(
    kind: ErrorKindView,
    other: ErrorKindView,
)
    requires
        same_kind(kind, other),
    ensures
        differ_only_in(kind.message(), other.message(), subjects(kind), subjects(other)),
{
    lemma_message_is_filled(kind);
    lemma_message_is_filled(other);
    assert(words_of(kind) == words_of(other));
    assert(kind.message() == filled(words_of(kind), subjects(kind)));
}

} // verus!
