use roblox_require::error::{DarkluaError, ErrorContext, ErrorKind};
use roblox_require::host_path::HostPath;
use roblox_require::instance_path::InstancePath;
use roblox_require::parsed_sourcemap::ParsedSourcemap;
use roblox_require::paths::{ModulePath, PathComponent, PathPrefix};
use roblox_require::require_mode::RequireMode;
use roblox_require::roblox_require_mode::{
    relative_instance_path, Arguments, MissingRequire, RobloxIndexStyle, RobloxRequireMode,
};
use roblox_require::rojo_sourcemap::RojoSourcemapNode;
use std::path::{Component, Path};

fn path(text: &str) -> ModulePath {
    let mut components = Vec::new();
    for component in Path::new(text).components() {
        components.push(match component {
            Component::Prefix(_) => panic!("no prefix is expected"),
            Component::RootDir => PathComponent::RootDir,
            Component::CurDir => PathComponent::CurDir,
            Component::ParentDir => PathComponent::ParentDir,
            Component::Normal(name) => PathComponent::Normal(name.to_str().unwrap().to_owned()),
        });
    }
    ModulePath { components }
}

fn written(text: &str) -> HostPath {
    HostPath {
        path: path(text),
        text: text.to_owned(),
        prefix: String::new(),
        separator: "/".to_owned(),
    }
}

fn plain(components: Vec<PathComponent>) -> HostPath {
    HostPath::plain(ModulePath { components }, String::new(), "/".to_owned())
}

fn script_path(components: &[&'static str]) -> InstancePath {
    let mut path = InstancePath::from_script();
    for component in components {
        match *component {
            "parent" => path.parent(),
            child_name => path.child(child_name),
        }
    }
    path
}

fn undecodable() -> PathComponent {
    PathComponent::NonUnicode {
        bytes: vec![0xff],
        lossy: "\u{fffd}".to_owned(),
    }
}

fn generate(require_path: &str, current_path: &str) -> Result<Option<Arguments>, DarkluaError> {
    RobloxRequireMode::default().generate_require(
        &written(require_path),
        &RequireMode::default(),
        &written(current_path),
    )
}

fn generated(require_path: &str, current_path: &str) -> InstancePath {
    let arguments = generate(require_path, current_path).unwrap().unwrap();
    assert_eq!(arguments.indexing_style, RobloxIndexStyle::FindFirstChild);
    arguments.instance
}

fn leaf(name: &str, file: &str) -> RojoSourcemapNode {
    RojoSourcemapNode {
        name: name.to_owned(),
        class_name: "ModuleScript".to_owned(),
        file_paths: vec![path(file)],
        children: Vec::new(),
    }
}

fn decode(_content: &str) -> Result<RojoSourcemapNode, DarkluaError> {
    Ok(RojoSourcemapNode {
        name: "Project".to_owned(),
        class_name: "Folder".to_owned(),
        file_paths: Vec::new(),
        children: vec![leaf("main", "src/main.lua"), leaf("value", "src/value.lua")],
    })
}

fn no_decode(_content: &str) -> Result<RojoSourcemapNode, DarkluaError> {
    panic!("nothing should be decoded")
}

fn ready_mode(style: RobloxIndexStyle) -> RobloxRequireMode {
    let mut mode = RobloxRequireMode::new(Some(written("sourcemap.json")), style);
    let mut parsed_sourcemap = ParsedSourcemap::default();
    mode.initialize(
        &mut parsed_sourcemap,
        &written(""),
        Some(Ok("content".to_owned())),
        decode,
    )
    .unwrap();
    mode
}

#[test]
fn sibling_without_sourcemap() {
    assert_eq!(
        generated("src/value.lua", "src/main.lua"),
        script_path(&["parent", "value.lua"])
    );
}

#[test]
fn source_path_is_normalized() {
    assert_eq!(
        generated("src/value.lua", "./lib/../src/./main.lua"),
        script_path(&["parent", "value.lua"])
    );
}

#[test]
fn module_folder_source_without_sourcemap() {
    assert_eq!(
        generated("src/value.lua", "src/init.lua"),
        script_path(&["value.lua"])
    );
    assert_eq!(
        generated("value.lua", "src/init.lua"),
        script_path(&["parent", "value.lua"])
    );
}

#[test]
fn module_above_without_sourcemap() {
    assert_eq!(
        generated("value.lua", "src/main.lua"),
        script_path(&["parent", "parent", "value.lua"])
    );
    assert_eq!(
        generated("lib/value.lua", "src/deep/main.lua"),
        script_path(&["parent", "parent", "parent", "lib", "value.lua"])
    );
}

#[test]
fn module_folder_file_is_required_as_its_folder() {
    assert_eq!(
        generated("src/x/y/init.lua", "src/main.lua"),
        script_path(&["parent", "x", "y"])
    );
    assert_eq!(
        generated("src/x/y", "src/main.lua"),
        script_path(&["parent", "x", "y"])
    );
    assert_eq!(generated("src/init.lua", "src/main.lua"), script_path(&["parent"]));
    assert_eq!(generated("src/init.lua", "src/init.lua"), script_path(&[]));
}

#[test]
fn relative_components_in_the_middle() {
    let found = relative_instance_path(
        &written("value"),
        &written("src/init.lua"),
        &plain(vec![
            PathComponent::CurDir,
            PathComponent::Normal("a".to_owned()),
            PathComponent::CurDir,
            PathComponent::ParentDir,
            PathComponent::Normal("b".to_owned()),
        ]),
        &RequireMode::default(),
    );
    assert_eq!(found.unwrap(), script_path(&["a", "parent", "b"]));
}

#[test]
fn absolute_require_is_refused() {
    let error = generate("/src/value.lua", "src/main.lua").unwrap_err();
    assert_eq!(error.context, None);
    assert_eq!(
        error.kind,
        ErrorKind::Absolute {
            require_path: "/src/value.lua".to_owned()
        }
    );
    assert_eq!(
        error.kind.message(),
        "unable to convert absolute path `/src/value.lua`: without a provided Rojo sourcemap, darklua can only convert relative paths (starting with `.` or `..`)"
    );
}

#[test]
fn required_path_is_shown_as_it_is_written() {
    let error = generate("/src//value.lua/", "src/main.lua").unwrap_err();
    assert_eq!(
        error.kind,
        ErrorKind::Absolute {
            require_path: "/src//value.lua/".to_owned()
        }
    );
    let error = generate("src//./value.lua", "./..//src/main.lua").unwrap_err();
    assert_eq!(
        error.kind,
        ErrorKind::NoRelativePath {
            require_path: "src//./value.lua".to_owned(),
            source_path: "../src/main.lua".to_owned()
        }
    );
}

#[test]
fn drive_is_shown_as_it_is_written() {
    let mut source = written("");
    source.path.components = vec![
        PathComponent::Prefix(PathPrefix::Drive { letter: b'c' }),
        PathComponent::ParentDir,
        PathComponent::Normal("main.lua".to_owned()),
    ];
    source.text = "c:../main.lua".to_owned();
    source.prefix = "c:".to_owned();
    source.separator = "\\".to_owned();
    let error = RobloxRequireMode::default()
        .generate_require(&written("value.lua"), &RequireMode::default(), &source)
        .unwrap_err();
    assert_eq!(
        error.kind,
        ErrorKind::NoRelativePath {
            require_path: "value.lua".to_owned(),
            source_path: "c:..\\main.lua".to_owned()
        }
    );
}

#[test]
fn how_paths_are_written_does_not_change_the_instance() {
    assert_eq!(
        generated("src//./value.lua/", ".//src/main.lua"),
        generated("src/value.lua", "./src/main.lua")
    );
}

#[test]
fn require_without_a_relative_path_is_refused() {
    let error = generate("src/value.lua", "./../src/main.lua").unwrap_err();
    assert_eq!(
        error.kind,
        ErrorKind::NoRelativePath {
            require_path: "src/value.lua".to_owned(),
            source_path: "../src/main.lua".to_owned()
        }
    );
    assert_eq!(
        error.kind.message(),
        "unable to convert path `src/value.lua` from `../src/main.lua` without a sourcemap: unable to make the require path relative to the source file"
    );
    assert!(matches!(
        generate("src/value.lua", "/src/main.lua").unwrap_err().kind,
        ErrorKind::NoRelativePath { .. }
    ));
}

#[test]
fn relative_path_that_starts_with_a_name_is_refused() {
    let error = relative_instance_path(
        &written("src/value.lua"),
        &written("src/main.lua"),
        &written("value.lua"),
        &RequireMode::default(),
    )
    .unwrap_err();
    assert_eq!(
        error.kind.message(),
        "unable to convert path `src/value.lua`: the require path should be relative and start with `.` or `..` (got `value.lua`)"
    );
    assert_eq!(error.context, None);
}

#[test]
fn empty_relative_path_is_refused() {
    for relative in ["", "init.lua"] {
        let error = relative_instance_path(
            &written("src/init.lua"),
            &written("src/main.lua"),
            &written(relative),
            &RequireMode::default(),
        )
        .unwrap_err();
        assert_eq!(
            error.kind.message(),
            format!(
                "unable to convert path `src/init.lua` from `src/main.lua` without a sourcemap: the relative path is empty `{}`",
                relative
            )
        );
    }
}

#[test]
fn root_in_the_middle_of_a_relative_path_is_refused() {
    let error = relative_instance_path(
        &written("value"),
        &written("main.lua"),
        &plain(vec![
            PathComponent::CurDir,
            PathComponent::RootDir,
            undecodable(),
        ]),
        &RequireMode::default(),
    )
    .unwrap_err();
    assert!(matches!(error.kind, ErrorKind::UnexpectedComponent { .. }));
    assert_eq!(
        error.kind.message(),
        "unable to convert path `value`: unexpected component in relative path `.//\u{fffd}`"
    );
}

#[test]
fn name_that_is_not_unicode_is_refused() {
    let mut require_path = written("src/x");
    require_path.path.components.push(undecodable());
    let error = RobloxRequireMode::default()
        .generate_require(&require_path, &RequireMode::default(), &written("src/main.lua"))
        .unwrap_err();
    assert_eq!(
        error.kind,
        ErrorKind::NotUnicode {
            lossy: "\u{fffd}".to_owned()
        }
    );
    assert_eq!(
        error.kind.message(),
        "unable to convert operating system string `\u{fffd}` into a utf-8 string"
    );
}

#[test]
fn roblox_mode_cannot_find_requires() {
    let error = RobloxRequireMode::default().find_require().unwrap_err();
    assert_eq!(error.kind.message(), "unsupported initial require mode");
    assert_eq!(
        error.context.unwrap().message(),
        "Roblox require mode cannot be used as the current require mode"
    );
}

#[test]
fn sourcemap_is_used_once_it_is_there() {
    let mode = ready_mode(RobloxIndexStyle::WaitForChild);
    let arguments = mode
        .generate_require(
            &written("src/value.lua"),
            &RequireMode::default(),
            &written("./src/main.lua"),
        )
        .unwrap()
        .unwrap();
    assert_eq!(
        arguments,
        Arguments {
            instance: script_path(&["parent", "value"]),
            indexing_style: RobloxIndexStyle::WaitForChild
        }
    );
    assert_eq!(
        mode.missing_require(&path("src/value.lua"), &path("src/main.lua")),
        None
    );
}

#[test]
fn what_is_missing_from_the_sourcemap_is_not_required() {
    let mode = ready_mode(RobloxIndexStyle::Property);
    let current = RequireMode::default();
    let cases = [
        (
            "src/value.lua",
            "src/other.lua",
            MissingRequire::SourceNotInSourcemap,
        ),
        (
            "src/other.lua",
            "src/other.lua",
            MissingRequire::SourceNotInSourcemap,
        ),
        (
            "src/other.lua",
            "src/main.lua",
            MissingRequire::RequireNotInSourcemap,
        ),
    ];
    for (require_path, current_path, missing) in cases {
        assert_eq!(
            mode.generate_require(&written(require_path), &current, &written(current_path)),
            Ok(None)
        );
        assert_eq!(
            mode.missing_require(&path(require_path), &path(current_path)),
            Some(missing)
        );
    }
}

#[test]
fn sourcemap_without_a_path_to_the_module() {
    let mut mode = RobloxRequireMode::new(
        Some(written("../../../sourcemap.json")),
        RobloxIndexStyle::default(),
    );
    mode.initialize(
        &mut ParsedSourcemap::default(),
        &written(""),
        Some(Ok("content".to_owned())),
        decode,
    )
    .unwrap();
    assert_eq!(
        mode.generate_require(
            &written("src/value.lua"),
            &RequireMode::default(),
            &written("src/main.lua")
        ),
        Ok(None)
    );
    assert_eq!(
        mode.missing_require(&path("src/value.lua"), &path("src/main.lua")),
        Some(MissingRequire::NoRelativePath)
    );
}

#[test]
fn mode_without_sourcemap_needs_nothing() {
    let mut mode = RobloxRequireMode::default();
    assert_eq!(mode.sourcemap_location(&written("project")), None);
    assert_eq!(
        mode.initialize(
            &mut ParsedSourcemap::default(),
            &written("project"),
            None,
            no_decode
        ),
        Ok(())
    );
    assert_eq!(mode, RobloxRequireMode::default());
    assert_eq!(
        mode.missing_require(&path("src/value.lua"), &path("src/main.lua")),
        None
    );
}

#[test]
fn sourcemap_is_found_in_the_project() {
    let mode = RobloxRequireMode::new(Some(written("./sourcemap.json")), RobloxIndexStyle::default());
    let location = mode.sourcemap_location(&written("project")).unwrap();
    assert_eq!(location, written("project/sourcemap.json"));
    assert_eq!(location.text, "project/./sourcemap.json");
    assert!(!mode.uses_sourcemap());
    assert!(ready_mode(RobloxIndexStyle::default()).uses_sourcemap());
}

#[test]
fn sourcemap_that_cannot_be_read_is_reported() {
    let mut mode = RobloxRequireMode::new(Some(written("sourcemap.json")), RobloxIndexStyle::default());
    let before = mode.clone();
    let error = mode
        .initialize(
            &mut ParsedSourcemap::default(),
            &written("project"),
            Some(Err(DarkluaError::new(ErrorKind::Resource(
                "not found".to_owned(),
            )))),
            no_decode,
        )
        .unwrap_err();
    assert_eq!(error.kind.message(), "not found");
    assert_eq!(error.context, Some(ErrorContext::Initialization));
    assert_eq!(
        error.context.unwrap().message(),
        "while initializing Roblox require mode"
    );
    assert_eq!(mode, before);
}

#[test]
fn sourcemap_that_cannot_be_parsed_is_reported() {
    let mut mode = RobloxRequireMode::new(Some(written("sourcemap.json")), RobloxIndexStyle::default());
    let before = mode.clone();
    let error = mode
        .initialize(
            &mut ParsedSourcemap::default(),
            &written("project"),
            Some(Ok("content".to_owned())),
            |content: &str| {
                Err(DarkluaError::new(ErrorKind::Json(format!(
                    "bad {}",
                    content
                ))))
            },
        )
        .unwrap_err();
    assert_eq!(error.kind.message(), "bad content");
    assert_eq!(
        error.context.unwrap().message(),
        "unable to parse Rojo sourcemap at `project/sourcemap.json`"
    );
    assert_eq!(mode, before);

    let mut mode = RobloxRequireMode::new(Some(written("./sourcemap.json")), RobloxIndexStyle::default());
    let error = mode
        .initialize(
            &mut ParsedSourcemap::default(),
            &written("project//"),
            Some(Ok("content".to_owned())),
            |_content: &str| Err(DarkluaError::new(ErrorKind::Json("bad".to_owned()))),
        )
        .unwrap_err();
    assert_eq!(
        error.context.unwrap().message(),
        "unable to parse Rojo sourcemap at `project//./sourcemap.json`"
    );
}

#[test]
fn modes_share_what_was_parsed() {
    let mut parsed_sourcemap = ParsedSourcemap::default();
    let mut first = RobloxRequireMode::new(Some(written("sourcemap.json")), RobloxIndexStyle::default());
    let mut second = first.clone();
    first
        .initialize(
            &mut parsed_sourcemap,
            &written(""),
            Some(Ok("content".to_owned())),
            decode,
        )
        .unwrap();
    assert_ne!(first, second);
    second
        .initialize(
            &mut parsed_sourcemap,
            &written(""),
            Some(Ok("content".to_owned())),
            no_decode,
        )
        .unwrap();
    assert_eq!(first, second);
}
