use roblox_require::host_path::HostPath;
use roblox_require::path_utils::{get_relative_parent_path, get_relative_path};
use roblox_require::paths::{ModulePath, PathComponent, PathPrefix};
use roblox_require::require_mode::RequireMode;
use std::path::{Component, Path};

fn path(text: &str) -> ModulePath {
    let mut components = Vec::new();
    for component in Path::new(text).components() {
        components.push(match component {
            Component::Prefix(_) => panic!("no prefix is expected"),
            Component::RootDir => PathComponent::RootDir,
            Component::CurDir => PathComponent::CurDir,
            Component::ParentDir => PathComponent::ParentDir,
            Component::Normal(name) => PathComponent::Normal(name.to_str().unwrap().to_owned()),
        });
    }
    ModulePath { components }
}

fn drive(text: &str, rest: &str) -> ModulePath {
    let mut drive = ModulePath {
        components: vec![PathComponent::Prefix(PathPrefix::Drive {
            letter: text.as_bytes()[0],
        })],
    };
    drive.append(&path(rest));
    drive
}

fn verbatim(rest: &str) -> ModulePath {
    let mut verbatim = ModulePath {
        components: vec![PathComponent::Prefix(PathPrefix::VerbatimDrive { letter: b'C' })],
    };
    verbatim.append(&path(rest));
    verbatim
}

#[test]
fn joins_as_the_standard_library_does() {
    let cases = ["", ".", "..", "a", "./a", "../a", "a/b", "/", "/a", "a/../b"];
    for base in cases {
        for other in cases {
            let expected = Path::new(base).join(other);
            assert_eq!(
                path(base).join(&path(other)),
                path(expected.to_str().unwrap()),
                "{} joined with {}",
                base,
                other
            );
        }
    }
}

#[test]
fn joins_keep_a_prefix() {
    assert_eq!(drive("C:", "/a").join(&path("b")), drive("C:", "/a/b"));
    assert_eq!(drive("C:", "/a").join(&path("/b")), drive("C:", "/b"));
    assert_eq!(drive("C:", "/a").join(&drive("D:", "/b")), drive("D:", "/b"));
    assert_eq!(drive("C:", "").join(&path("./a")), drive("C:", "a"));
    assert_eq!(drive("C:", "").join(&path("")), drive("C:", ""));
}

#[test]
fn joins_after_a_verbatim_prefix() {
    let cases = [
        ("/a", "b", "/a/b"),
        ("/a", "./b/../c", "/a/c"),
        ("/a", "..", "/"),
        ("/a", "../../b", "/b"),
        ("/a", ".", "/a"),
        ("/a/b", "/c", "/c"),
        ("/a", "", "/a"),
        ("", "b", "/b"),
        ("", "b/..", ""),
        ("", "", "/"),
    ];
    for (base, other, expected) in cases {
        assert_eq!(
            verbatim(base).join(&path(other)),
            verbatim(expected),
            "{} joined with {}",
            base,
            other
        );
    }
    assert_eq!(verbatim("/a").join(&drive("D:", "/b")), drive("D:", "/b"));
}

#[test]
fn prefixes_are_told_apart() {
    let name = |text: &str| text.as_bytes().to_vec();
    let prefixes = [
        PathPrefix::Verbatim { name: name("a") },
        PathPrefix::Verbatim { name: name("A") },
        PathPrefix::VerbatimShare { server: name("a"), share: name("b") },
        PathPrefix::VerbatimDrive { letter: b'C' },
        PathPrefix::Device { name: name("a") },
        PathPrefix::Share { server: name("a"), share: name("b") },
        PathPrefix::Share { server: name("b"), share: name("b") },
        PathPrefix::Share { server: name("a"), share: name("a") },
        PathPrefix::Drive { letter: b'C' },
        PathPrefix::Drive { letter: b'D' },
    ];
    for (i, left) in prefixes.iter().enumerate() {
        for (j, right) in prefixes.iter().enumerate() {
            assert_eq!(left == right, i == j);
            assert_eq!(left.clone().same(right), i == j);
        }
    }
    assert_eq!(PathPrefix::Drive { letter: b'c' }, PathPrefix::Drive { letter: b'C' });
    assert_eq!(
        PathPrefix::VerbatimDrive { letter: b'z' },
        PathPrefix::VerbatimDrive { letter: b'Z' }
    );
    assert_eq!(
        get_relative_path(&drive("c:", "/a/b.lua"), &drive("C:", "/a/c.lua"), true),
        Some(path("./b.lua"))
    );
}

#[test]
fn normalizes() {
    let cases = [
        ("", "", ""),
        (".", "", "."),
        ("./a", "a", "./a"),
        ("a/./b", "a/b", "a/b"),
        ("a/..", "", ""),
        ("./a/..", "", "."),
        ("./..", "..", ".."),
        ("../../a", "../../a", "../../a"),
        ("a/../../b", "../b", "../b"),
        ("/..", "/", "/"),
        ("/a/../../b", "/b", "/b"),
        ("a/b/../../c/./d", "c/d", "c/d"),
    ];
    for (input, plain, with_current_dir) in cases {
        assert_eq!(path(input).normalize(false), path(plain), "{}", input);
        assert_eq!(
            path(input).normalize(true),
            path(with_current_dir),
            "{} with current directory",
            input
        );
        let once = path(input).normalize(false);
        assert_eq!(once.normalize(false), once);
    }
}

#[test]
fn relative_parents() {
    let cases = [
        ("", ".."),
        ("/", ".."),
        (".", "."),
        ("a", "."),
        ("a/b", "a"),
        ("/a", "/"),
        ("./a", "."),
        ("../a", ".."),
    ];
    for (input, parent) in cases {
        assert_eq!(get_relative_parent_path(&path(input)), path(parent), "{}", input);
    }
}

#[test]
fn relative_paths() {
    let cases = [
        ("src/b.lua", "src/a.lua", "./b.lua", "b.lua"),
        ("src/lib/b.lua", "src/a.lua", "./lib/b.lua", "lib/b.lua"),
        ("b.lua", "src/a.lua", "../b.lua", "../b.lua"),
        ("lib/b.lua", "src/x/a.lua", "../../lib/b.lua", "../../lib/b.lua"),
        ("src", "src/a.lua", ".", ""),
        ("./b.lua", "a.lua", "./b.lua", "b.lua"),
        ("../b.lua", "../a.lua", "./b.lua", "b.lua"),
        ("../b.lua", "src/a.lua", "../../b.lua", "../../b.lua"),
        ("/x/b.lua", "/x/a.lua", "./b.lua", "b.lua"),
        ("/b.lua", "a.lua", "/b.lua", "/b.lua"),
    ];
    for (require_path, source_path, prefixed, plain) in cases {
        let require_path = path(require_path);
        let source_path = path(source_path);
        let found = get_relative_path(&require_path, &source_path, true).unwrap();
        assert_eq!(found, path(prefixed));
        assert_eq!(
            get_relative_path(&require_path, &source_path, false),
            Some(path(plain))
        );
        assert_eq!(
            get_relative_parent_path(&source_path).join(&found).normalize(false),
            require_path.normalize(false)
        );
    }
}

#[test]
fn no_relative_path() {
    assert_eq!(get_relative_path(&path("b.lua"), &path("../a.lua"), true), None);
    assert_eq!(get_relative_path(&path("b.lua"), &path("/a.lua"), true), None);
    assert_eq!(get_relative_path(&path("b.lua"), &path(""), false), None);
}

#[test]
fn drives_are_not_related() {
    let require_path = drive("D:", "/b.lua");
    assert_eq!(
        get_relative_path(&require_path, &drive("C:", "/a.lua"), true),
        Some(require_path)
    );
}

fn written(text: &str) -> HostPath {
    HostPath {
        path: path(text),
        text: text.to_owned(),
        prefix: String::new(),
        separator: "/".to_owned(),
    }
}

fn written_on_drive(prefix: &str, rest: &str) -> HostPath {
    HostPath {
        path: drive(prefix, &rest.replace('\\', "/")),
        text: format!("{}{}", prefix, rest),
        prefix: prefix.to_owned(),
        separator: "\\".to_owned(),
    }
}

#[test]
fn displays() {
    for text in ["", "/", "a", "a/b", "/a/b", "./a", "../../a"] {
        assert_eq!(HostPath::plain(path(text), String::new(), "/".to_owned()).text, text);
    }
    let separator = "\\".to_owned();
    assert_eq!(HostPath::plain(path("../a/b"), String::new(), separator.clone()).text, "..\\a\\b");
    let prefix = "c:".to_owned();
    assert_eq!(
        HostPath::plain(drive("c:", "/a"), prefix.clone(), separator.clone()).text,
        "c:\\a"
    );
    assert_eq!(HostPath::plain(drive("c:", "a"), prefix, separator).text, "c:a");
}

#[test]
fn joined_text_is_that_of_the_standard_library() {
    let cases = [
        "", ".", "./", "..", "a", "a/", "a//b", "./a", "../a/", "/", "//", "/a", "//a/./b", "a/../b",
    ];
    for base in cases {
        for other in cases {
            let expected = Path::new(base).join(other);
            let found = written(base).join(&written(other));
            assert_eq!(found.text, expected.display().to_string());
            assert_eq!(found.path, path(expected.to_str().unwrap()));
            assert_eq!(found.separator, "/");
        }
    }
}

#[test]
fn joined_text_keeps_a_drive() {
    let cases = [
        ("C:", "", "C:a"),
        ("C:", "\\", "C:\\a"),
        ("C:", "b", "C:b\\a"),
        ("C:", "/b/", "C:/b/a"),
    ];
    for (prefix, rest, expected) in cases {
        assert_eq!(written_on_drive(prefix, rest).join(&written("a")).text, expected);
    }
    assert_eq!(
        written_on_drive("C:", "\\b").join(&written("/a")).text,
        "C:/a"
    );
    assert_eq!(
        written_on_drive("C:", "\\b").join(&written_on_drive("D:", "\\a")).text,
        "D:\\a"
    );
    let joined = written_on_drive("c:", "").join(&written("./a"));
    assert_eq!(joined.text, "c:./a");
    assert_eq!(joined.prefix, "c:");
    assert_eq!(joined.normalize().text, "c:a");
}

#[test]
fn joined_text_after_a_verbatim_prefix() {
    let base = HostPath {
        path: verbatim("/a"),
        text: "\\\\?\\C:\\a".to_owned(),
        prefix: "\\\\?\\C:".to_owned(),
        separator: "\\".to_owned(),
    };
    assert_eq!(base.join(&written("./b//../c/")).text, "\\\\?\\C:\\a\\c");
    assert_eq!(base.join(&written("/b/c")).text, "\\\\?\\C:\\b\\c");
    assert_eq!(base.join(&written("")).text, "\\\\?\\C:\\a\\");
}

#[test]
fn normal_paths_are_written_plainly() {
    let found = written("./lib//../src/./main.lua/").normalize();
    assert_eq!(found.text, "src/main.lua");
    assert_eq!(found.path, path("src/main.lua"));
    assert_eq!(found.separator, "/");
}

#[test]
fn how_a_path_is_written_does_not_tell_it_apart() {
    assert_eq!(written("a//b/"), written("a/b"));
    assert_ne!(written("./a"), written("a"));
    assert_eq!(written("a//b/").clone().text, "a//b/");
}

#[test]
fn names_of_module_folders() {
    let mode = RequireMode::default();
    for text in ["init", "init.lua", "x/init.luau", "./x/init.lua"] {
        assert!(mode.is_module_folder_name(&path(text)), "{}", text);
    }
    for text in ["", ".", "..", "/", "init/x", "x.init", "init.x.lua", ".init", "Init.lua"] {
        assert!(!mode.is_module_folder_name(&path(text)), "{}", text);
    }
    let hidden = RequireMode {
        module_folder_name: ".init".to_owned(),
    };
    assert!(hidden.is_module_folder_name(&path("x/.init")));
    assert!(hidden.is_module_folder_name(&path("x/.init.lua")));
}

#[test]
fn paths_are_told_apart_by_their_components() {
    assert!(path("a//b/./c/").same(&path("a/b/c")));
    assert!(!path("./a").same(&path("a")));
    assert!(!path("a/b").same(&path("a")));
    let raw = |byte: u8| ModulePath {
        components: vec![PathComponent::NonUnicode {
            bytes: vec![byte],
            lossy: "\u{fffd}".to_owned(),
        }],
    };
    assert!(raw(0xff).same(&raw(0xff)));
    assert!(!raw(0xff).same(&raw(0xfe)));
    assert_eq!(raw(0xff).clone(), raw(0xff));
    assert_eq!(path("a/b/c").suffix(1), path("b/c"));
}
