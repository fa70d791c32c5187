//! How the requires of a source file are read.
use crate::paths::{ComponentView, ModulePath, PathComponent, PathView};
use vstd::prelude::*;

verus! {

/// The index of the last `.` in a name, or -1 if there is none.
pub open spec fn last_dot(name: Seq<char>) -> int
    decreases name.len(),
{
    if name.len() == 0 {
        -1
    } else if name.last() == '.' {
        name.len() - 1
    } else {
        last_dot(name.drop_last())
    }
}

/// The name of a file without its extension. A dot at the start of a name starts no extension.
pub open spec fn file_stem(name: Seq<char>) -> Seq<char> {
    if last_dot(name) > 0 {
        name.take(last_dot(name))
    } else {
        name
    }
}

/// Whether a path ends in a file that stands for the folder that it is in.
pub open spec fn is_module_folder(path: PathView, module_folder_name: Seq<char>) -> bool {
    path.len() > 0 && (path.last() matches ComponentView::Normal(name) && (name
        == module_folder_name || file_stem(name) == module_folder_name))
}

/// The require mode of the files that are converted.
#[derive(Debug, PartialEq, Eq)]
pub struct RequireMode {
    /// The name, with or without an extension, of the files that stand for their folder.
    pub module_folder_name: String,
}

impl Default for RequireMode {
    fn default() -> (mode: RequireMode)
        ensures
            mode.module_folder_name@ == "init"@,
    {
        RequireMode { module_folder_name: "init".to_owned() }
    }
}

/// The number of characters before the last `.` of a name, if there is one.
fn find_last_dot(name: &str) -> (found: Option<usize>)
    ensures
        match found {
            Some(i) => last_dot(name@) == i && i < name@.len(),
            None => last_dot(name@) == -1,
        },
{
    let mut end = name.unicode_len();
    assert(name@.take(end as int) =~= name@);
    while end > 0
        invariant
            end <= name@.len(),
            last_dot(name@) == last_dot(name@.take(end as int)),
        decreases end,
    {
        assert(name@.take(end as int).last() == name@[end - 1]);
        assert(name@.take(end as int).drop_last() =~= name@.take(end - 1));
        end -= 1;
        if name.get_char(end) == '.' {
            return Some(end);
        }
    }
    None
}

impl RequireMode {
    /// Whether a path ends in a file that stands for the folder that it is in.
    pub fn is_module_folder_name(&self, path: &ModulePath) -> (result: bool)
        ensures
            result == is_module_folder(path@, self.module_folder_name@),
    {
        let len = path.components.len();
        if len == 0 {
            return false;
        }
        assert(path@.last() == path.components@.last()@);
        match &path.components[len - 1] {
            PathComponent::Normal(name) => {
                if *name == self.module_folder_name {
                    return true;
                }
                match find_last_dot(name.as_str()) {
                    Some(dot) => {
                        if dot > 0 {
                            let stem = name.as_str().substring_char(0, dot).to_owned();
                            assert(name@.subrange(0, dot as int) =~= name@.take(dot as int));
                            stem == self.module_folder_name
                        } else {
                            false
                        }
                    },
                    None => false,
                }
            },
            _ => false,
        }
    }
}

} // verus!
