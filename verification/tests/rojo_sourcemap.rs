use roblox_require::error::{DarkluaError, ErrorKind};
use roblox_require::instance_path::{InstancePath, InstancePathComponent, InstancePathRoot};
use roblox_require::paths::{ModulePath, PathComponent, PathPrefix};
use roblox_require::rojo_sourcemap::{RojoSourcemap, RojoSourcemapNode};
use serde_json::Value;
use std::path::{Component, Path};

fn path(text: &str) -> ModulePath {
    let mut components = Vec::new();
    for component in Path::new(text).components() {
        components.push(match component {
            Component::Prefix(_) => panic!("no prefix is expected"),
            Component::RootDir => PathComponent::RootDir,
            Component::CurDir => PathComponent::CurDir,
            Component::ParentDir => PathComponent::ParentDir,
            Component::Normal(name) => PathComponent::Normal(name.to_str().unwrap().to_owned()),
        });
    }
    ModulePath { components }
}

fn invalid(reason: &str) -> DarkluaError {
    DarkluaError::new(ErrorKind::Json(reason.to_owned()))
}

fn text_field(value: &Value, name: &str) -> Result<String, DarkluaError> {
    match value.get(name).and_then(Value::as_str) {
        Some(text) => Ok(text.to_owned()),
        None => Err(invalid(name)),
    }
}

fn list_field(value: &Value, name: &str) -> Result<Vec<Value>, DarkluaError> {
    match value.get(name) {
        Some(Value::Array(items)) => Ok(items.clone()),
        Some(_) => Err(invalid(name)),
        None => Ok(Vec::new()),
    }
}

fn node(value: &Value) -> Result<RojoSourcemapNode, DarkluaError> {
    let mut file_paths = Vec::new();
    for file_path in list_field(value, "filePaths")? {
        file_paths.push(path(file_path.as_str().ok_or_else(|| invalid("filePaths"))?));
    }
    let mut children = Vec::new();
    for child in list_field(value, "children")? {
        children.push(node(&child)?);
    }
    Ok(RojoSourcemapNode {
        name: text_field(value, "name")?,
        class_name: text_field(value, "className")?,
        file_paths,
        children,
    })
}

fn decode(content: &str) -> Result<RojoSourcemapNode, DarkluaError> {
    match serde_json::from_str::<Value>(content) {
        Ok(value) => node(&value),
        Err(error) => Err(invalid(&error.to_string())),
    }
}

fn new_sourcemap(content: &str) -> RojoSourcemap {
    RojoSourcemap::parse(content, &path(""), decode).expect("unable to parse sourcemap")
}

fn script_path(components: &[&'static str]) -> InstancePath {
    let mut path = InstancePath::from_script();
    for component in components {
        match *component {
            "parent" => path.parent(),
            child_name => path.child(child_name),
        }
    }
    path
}

fn root_path(names: &[&'static str]) -> InstancePath {
    let mut path = InstancePath::from_root();
    for name in names {
        path.child(name);
    }
    path
}

#[test]
fn from_init_to_sibling_module() {
    let sourcemap = new_sourcemap(
        r#"{
        "name": "Project",
        "className": "ModuleScript",
        "filePaths": ["src/init.lua", "default.project.json"],
        "children": [
            {
                "name": "value",
                "className": "ModuleScript",
                "filePaths": ["src/value.lua"]
            }
        ]
    }"#,
    );
    assert_eq!(
        sourcemap
            .get_instance_path(&path("src/init.lua"), &path("src/value.lua"))
            .unwrap(),
        script_path(&["value"])
    );
}

#[test]
fn from_sibling_to_sibling_module() {
    let sourcemap = new_sourcemap(
        r#"{
        "name": "Project",
        "className": "ModuleScript",
        "filePaths": ["src/init.lua", "default.project.json"],
        "children": [
            {
                "name": "main",
                "className": "ModuleScript",
                "filePaths": ["src/main.lua"]
            },
            {
                "name": "value",
                "className": "ModuleScript",
                "filePaths": ["src/value.lua"]
            }
        ]
    }"#,
    );
    assert_eq!(
        sourcemap
            .get_instance_path(&path("src/main.lua"), &path("src/value.lua"))
            .unwrap(),
        script_path(&["parent", "value"])
    );
}

#[test]
fn from_sibling_to_nested_sibling_module() {
    let sourcemap = new_sourcemap(
        r#"{
        "name": "Project",
        "className": "ModuleScript",
        "filePaths": ["src/init.lua", "default.project.json"],
        "children": [
            {
                "name": "main",
                "className": "ModuleScript",
                "filePaths": ["src/main.lua"]
            },
            {
                "name": "Lib",
                "className": "Folder",
                "children": [
                    {
                        "name": "format",
                        "className": "ModuleScript",
                        "filePaths": ["src/Lib/format.lua"]
                    }
                ]
            }
        ]
    }"#,
    );
    assert_eq!(
        sourcemap
            .get_instance_path(&path("src/main.lua"), &path("src/Lib/format.lua"))
            .unwrap(),
        script_path(&["parent", "Lib", "format"])
    );
}

#[test]
fn from_child_require_parent() {
    let sourcemap = new_sourcemap(
        r#"{
        "name": "Project",
        "className": "ModuleScript",
        "filePaths": ["src/init.lua", "default.project.json"],
        "children": [
            {
                "name": "main",
                "className": "ModuleScript",
                "filePaths": ["src/main.lua"]
            }
        ]
    }"#,
    );
    assert_eq!(
        sourcemap
            .get_instance_path(&path("src/main.lua"), &path("src/init.lua"))
            .unwrap(),
        script_path(&["parent"])
    );
}

#[test]
fn from_child_require_parent_nested() {
    let sourcemap = new_sourcemap(
        r#"{
        "name": "Project",
        "className": "ModuleScript",
        "filePaths": ["src/init.lua", "default.project.json"],
        "children": [
            {
                "name": "Sub",
                "className": "ModuleScript",
                "filePaths": ["src/Sub/init.lua"],
                "children": [
                    {
                        "name": "test",
                        "className": "ModuleScript",
                        "filePaths": ["src/Sub/test.lua"]
                    }
                ]
            }
        ]
    }"#,
    );
    assert_eq!(
        sourcemap
            .get_instance_path(&path("src/Sub/test.lua"), &path("src/Sub/init.lua"))
            .unwrap(),
        script_path(&["parent"])
    );
}

const TREE: &str = r#"{
    "name": "Game",
    "className": "DataModel",
    "filePaths": ["default.project.json"],
    "children": [
        {
            "name": "ReplicatedStorage",
            "className": "ReplicatedStorage",
            "children": [
                {
                    "name": "Shared",
                    "className": "ModuleScript",
                    "filePaths": ["shared.lua", "both.lua"]
                }
            ]
        },
        {
            "name": "ServerStorage",
            "className": "ServerStorage",
            "children": [
                {
                    "name": "Package",
                    "className": "Folder",
                    "children": [
                        {
                            "name": "Server",
                            "className": "ModuleScript",
                            "filePaths": ["./lib/../server.lua", "both.lua"]
                        },
                        {
                            "name": "Helper",
                            "className": "ModuleScript",
                            "filePaths": ["helper.lua"]
                        }
                    ]
                }
            ]
        }
    ]
}"#;

#[test]
fn a_far_module_of_a_data_model_is_found_from_the_root() {
    let sourcemap = new_sourcemap(TREE);
    // five steps from the script, and three nodes from the target up to the root
    assert_eq!(
        sourcemap
            .get_instance_path(&path("server.lua"), &path("shared.lua"))
            .unwrap(),
        root_path(&["ReplicatedStorage", "Shared"])
    );
    // five steps from the script, and four nodes from the target up to the root
    assert_eq!(
        sourcemap
            .get_instance_path(&path("shared.lua"), &path("server.lua"))
            .unwrap(),
        root_path(&["ServerStorage", "Package", "Server"])
    );
}

#[test]
fn a_near_module_of_a_data_model_is_found_from_the_script() {
    let sourcemap = new_sourcemap(TREE);
    assert_eq!(
        sourcemap
            .get_instance_path(&path("server.lua"), &path("helper.lua"))
            .unwrap(),
        script_path(&["parent", "Helper"])
    );
}

#[test]
fn a_far_module_without_a_data_model_is_found_from_the_script() {
    let sourcemap = new_sourcemap(&TREE.replace("DataModel", "Folder"));
    assert_eq!(
        sourcemap
            .get_instance_path(&path("server.lua"), &path("shared.lua"))
            .unwrap(),
        script_path(&["parent", "parent", "parent", "ReplicatedStorage", "Shared"])
    );
}

#[test]
fn a_relative_path_as_long_as_the_hierarchy_of_the_target_is_kept() {
    let sourcemap = new_sourcemap(
        r#"{
        "name": "Game",
        "className": "DataModel",
        "children": [
            { "name": "A", "className": "ModuleScript", "filePaths": ["a.lua"] },
            {
                "name": "B",
                "className": "Folder",
                "children": [
                    { "name": "C", "className": "ModuleScript", "filePaths": ["c.lua"] }
                ]
            }
        ]
    }"#,
    );
    assert_eq!(
        sourcemap
            .get_instance_path(&path("a.lua"), &path("c.lua"))
            .unwrap(),
        script_path(&["parent", "B", "C"])
    );
    assert_eq!(
        sourcemap
            .get_instance_path(&path("c.lua"), &path("a.lua"))
            .unwrap(),
        root_path(&["A"])
    );
}

#[test]
fn a_script_that_requires_itself_stays_where_it_is() {
    let sourcemap = new_sourcemap(TREE);
    assert_eq!(
        sourcemap
            .get_instance_path(&path("server.lua"), &path("server.lua"))
            .unwrap(),
        script_path(&[])
    );
}

#[test]
fn the_first_node_visited_keeps_a_file_that_is_listed_twice() {
    let sourcemap = new_sourcemap(TREE);
    // the last child is visited first
    assert_eq!(
        sourcemap
            .get_instance_path(&path("helper.lua"), &path("both.lua"))
            .unwrap(),
        script_path(&["parent", "Server"])
    );
}

#[test]
fn a_file_that_is_not_listed_has_no_path() {
    let sourcemap = new_sourcemap(TREE);
    assert!(sourcemap
        .get_instance_path(&path("server.lua"), &path("other.lua"))
        .is_none());
    assert!(sourcemap
        .get_instance_path(&path("other.lua"), &path("server.lua"))
        .is_none());
    assert!(!sourcemap.contains(&path("other.lua")));
    assert!(sourcemap.contains(&path("server.lua")));
    assert!(!sourcemap.contains(&path("lib/../server.lua")));
}

#[test]
fn nodes_are_numbered_as_they_are_visited() {
    let sourcemap = new_sourcemap(TREE);
    // Game, ServerStorage, Package, Helper, Server, ReplicatedStorage, Shared
    assert_eq!(sourcemap.hierarchy(0), vec![0]);
    assert_eq!(sourcemap.hierarchy(1), vec![1, 0]);
    assert_eq!(sourcemap.hierarchy(3), vec![3, 2, 1, 0]);
    assert_eq!(sourcemap.hierarchy(4), vec![4, 2, 1, 0]);
    assert_eq!(sourcemap.hierarchy(6), vec![6, 5, 0]);
}

#[test]
fn descendants_are_indexed_in_order() {
    let sourcemap = new_sourcemap(TREE);
    let mut start = InstancePath::from_script();
    start.parent();
    let found = sourcemap.index_descendants(start, &vec![1, 2, 4]);
    assert_eq!(
        found,
        script_path(&["parent", "ServerStorage", "Package", "Server"])
    );
    assert_eq!(found.root(), InstancePathRoot::Script);
    assert_eq!(found.components().len(), 4);
    assert_eq!(found.components()[0], InstancePathComponent::Parent);
    assert_eq!(
        found.components()[3],
        InstancePathComponent::Child("Server".to_owned())
    );
    assert_eq!(found.clone(), found);
}

#[test]
fn files_are_listed_relative_to_the_sourcemap() {
    let sourcemap = RojoSourcemap::parse(TREE, &path("./place"), decode).unwrap();
    assert!(sourcemap.contains(&path("place/server.lua")));
    assert!(!sourcemap.contains(&path("server.lua")));

    let absolute = TREE.replace("helper.lua", "/helper.lua");
    let sourcemap = RojoSourcemap::parse(&absolute, &path("place"), decode).unwrap();
    assert!(sourcemap.contains(&path("/helper.lua")));
    assert!(!sourcemap.contains(&path("place/helper.lua")));
}

#[test]
fn content_that_is_no_sourcemap_is_refused() {
    let result = RojoSourcemap::parse(r#"{ "className": "Folder" }"#, &path(""), decode);
    assert_eq!(result.unwrap_err(), invalid("name"));
    assert!(RojoSourcemap::parse("", &path(""), decode).is_err());
}

#[test]
fn sourcemaps_are_equal_whatever_the_order_of_the_files() {
    let listed = |files: &str| {
        new_sourcemap(&format!(
            r#"{{ "name": "Project", "className": "Folder", "filePaths": [{}] }}"#,
            files
        ))
    };
    assert_eq!(listed(r#""a.lua", "b.lua""#), listed(r#""b.lua", "a.lua""#));
    assert_ne!(listed(r#""a.lua", "b.lua""#), listed(r#""a.lua""#));
    assert_ne!(listed(r#""a.lua""#), listed(r#""a.lua", "b.lua""#));
}

#[test]
fn a_clone_of_a_sourcemap_is_equal_to_it() {
    let sourcemap = new_sourcemap(TREE);
    let copy = sourcemap.clone();
    assert_eq!(copy, sourcemap);
    assert_eq!(
        copy.get_instance_path(&path("server.lua"), &path("helper.lua")),
        sourcemap.get_instance_path(&path("server.lua"), &path("helper.lua"))
    );
}

#[test]
fn drives_are_told_apart_whatever_the_case() {
    let on_drive = |letter: u8, file: &str| {
        let mut found = ModulePath {
            components: vec![
                PathComponent::Prefix(PathPrefix::Drive { letter }),
                PathComponent::RootDir,
            ],
        };
        found.append(&path(file));
        found
    };
    let sourcemap = RojoSourcemap::from_node(
        RojoSourcemapNode {
            name: "Project".to_owned(),
            class_name: "ModuleScript".to_owned(),
            file_paths: vec![path("src/./init.lua")],
            children: Vec::new(),
        },
        &on_drive(b'c', "project"),
    );
    assert!(sourcemap.contains(&on_drive(b'C', "project/src/init.lua")));
    assert!(sourcemap.contains(&on_drive(b'c', "project/src/init.lua")));
    assert!(!sourcemap.contains(&on_drive(b'D', "project/src/init.lua")));
}
