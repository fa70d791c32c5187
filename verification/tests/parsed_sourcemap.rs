use roblox_require::error::{DarkluaError, ErrorKind};
use roblox_require::parsed_sourcemap::ParsedSourcemap;
use roblox_require::paths::{ModulePath, PathComponent};
use roblox_require::rojo_sourcemap::RojoSourcemapNode;
use std::path::{Component, Path};
use std::sync::{Arc, Mutex};

const SOURCEMAP: &str =
    r#"{ "name": "Project", "className": "ModuleScript", "filePaths": ["src/init.lua"] }"#;

fn path(text: &str) -> ModulePath {
    let mut components = Vec::new();
    for component in Path::new(text).components() {
        components.push(match component {
            Component::Prefix(_) => panic!("no prefix is expected"),
            Component::RootDir => PathComponent::RootDir,
            Component::CurDir => PathComponent::CurDir,
            Component::ParentDir => PathComponent::ParentDir,
            Component::Normal(name) => PathComponent::Normal(name.to_str().unwrap().to_owned()),
        });
    }
    ModulePath { components }
}

fn decode(content: &str) -> Result<RojoSourcemapNode, DarkluaError> {
    match serde_json::from_str::<serde_json::Value>(content) {
        Ok(value) => {
            let mut file_paths = Vec::new();
            for file_path in value["filePaths"].as_array().unwrap() {
                file_paths.push(path(file_path.as_str().unwrap()));
            }
            Ok(RojoSourcemapNode {
                name: value["name"].as_str().unwrap().to_owned(),
                class_name: value["className"].as_str().unwrap().to_owned(),
                file_paths,
                children: Vec::new(),
            })
        }
        Err(error) => Err(DarkluaError::new(ErrorKind::Json(error.to_string()))),
    }
}

fn no_decode(_content: &str) -> Result<RojoSourcemapNode, DarkluaError> {
    panic!("nothing should be decoded")
}

#[test]
fn parsed_sourcemap_is_reused_while_content_is_unchanged() {
    let parsed_sourcemap = Arc::new(Mutex::new(ParsedSourcemap::default()));
    let path = path("sourcemap.json");

    let first = parsed_sourcemap
        .lock()
        .unwrap()
        .get_or_parse(&path, SOURCEMAP.to_owned(), decode)
        .unwrap();
    let second = parsed_sourcemap
        .clone()
        .lock()
        .unwrap()
        .get_or_parse(&path, SOURCEMAP.to_owned(), no_decode)
        .unwrap();

    assert!(Arc::ptr_eq(&first, &second));
}

#[test]
fn parsed_sourcemap_is_parsed_again_when_content_changes() {
    let mut parsed_sourcemap = ParsedSourcemap::default();
    let sourcemap_path = path("sourcemap.json");

    let first = parsed_sourcemap
        .get_or_parse(&sourcemap_path, SOURCEMAP.to_owned(), decode)
        .unwrap();
    let second = parsed_sourcemap
        .get_or_parse(
            &sourcemap_path,
            SOURCEMAP.replace("init.lua", "main.lua"),
            decode,
        )
        .unwrap();

    assert!(!Arc::ptr_eq(&first, &second));
    assert!(second.contains(&path("src/main.lua")));
    assert!(!second.contains(&path("src/init.lua")));
}

#[test]
fn parsed_sourcemap_is_parsed_again_when_path_changes() {
    let mut parsed_sourcemap = ParsedSourcemap::default();
    let first = parsed_sourcemap
        .get_or_parse(&path("sourcemap.json"), SOURCEMAP.to_owned(), decode)
        .unwrap();
    let second = parsed_sourcemap
        .get_or_parse(&path("place/sourcemap.json"), SOURCEMAP.to_owned(), decode)
        .unwrap();

    assert!(first.contains(&path("src/init.lua")));
    assert!(second.contains(&path("place/src/init.lua")));
    assert!(!second.contains(&path("src/init.lua")));
}

#[test]
fn parsed_sourcemap_stays_after_a_failure() {
    let mut parsed_sourcemap = ParsedSourcemap::default();
    let sourcemap_path = path("sourcemap.json");
    let first = parsed_sourcemap
        .get_or_parse(&sourcemap_path, SOURCEMAP.to_owned(), decode)
        .unwrap();
    let failure = parsed_sourcemap.get_or_parse(&sourcemap_path, "{".to_owned(), decode);
    assert!(matches!(
        failure.unwrap_err().kind,
        ErrorKind::Json(reason) if reason.contains("EOF")
    ));
    let second = parsed_sourcemap
        .get_or_parse(&sourcemap_path, SOURCEMAP.to_owned(), no_decode)
        .unwrap();
    assert!(Arc::ptr_eq(&first, &second));
}

#[test]
fn the_kept_sourcemap_is_told_by_path_and_content() {
    let mut parsed_sourcemap = ParsedSourcemap::default();
    let sourcemap_path = path("sourcemap.json");
    let content = SOURCEMAP.to_owned();
    assert!(parsed_sourcemap.get(&sourcemap_path, &content).is_none());
    let stored = parsed_sourcemap
        .store(&sourcemap_path, content.clone(), decode(SOURCEMAP))
        .unwrap();
    assert!(Arc::ptr_eq(
        &parsed_sourcemap.get(&sourcemap_path, &content).unwrap(),
        &stored
    ));
    assert!(parsed_sourcemap.get(&path("other.json"), &content).is_none());
    assert!(parsed_sourcemap
        .get(&sourcemap_path, &"other".to_owned())
        .is_none());
}

#[test]
fn what_is_kept_does_not_tell_parsed_sourcemaps_apart() {
    let mut parsed_sourcemap = ParsedSourcemap::default();
    parsed_sourcemap
        .get_or_parse(&path("sourcemap.json"), SOURCEMAP.to_owned(), decode)
        .unwrap();
    assert!(parsed_sourcemap == ParsedSourcemap::default());
}
