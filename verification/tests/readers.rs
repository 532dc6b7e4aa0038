use eco::cargo_toml::read_cargo_toml;
use eco::dependencies::convert;
use eco::extract::{
    convert_cargo_toml, convert_extract_info, extract_info_list, package_from_cargo_toml, syntax_error, Extract,
};
use std::sync::Arc;
use eco::meta::MetaData;
use eco::reader::{read_dependency_info, read_extract_info};

const EXTRACT_INFO: &str = r#"{
    "piston": {
        "url": "https://raw.githubusercontent.com/PistonDevelopers/piston/master/Cargo.toml"
    },
    "pistoncore-input": {
        "url": "https://raw.githubusercontent.com/PistonDevelopers/piston/master/src/input/Cargo.toml",
        "ignore-version": "0.8.0"
    }
}
"#;

const DEPENDENCY_INFO: &str = r#"{
 "piston": {
  "version": "0.13.0",
  "dependencies": {
   "pistoncore-input": {
    "version": "0.8.0"
   },
   "pistoncore-window": {
    "version": "0.12.0",
    "ignore-version": "0.11.0"
   }
  },
  "dev-dependencies": {
  }
 },
 "pistoncore-input": {
  "version": "0.8.0",
  "dependencies": {},
  "dev-dependencies": {
   "rand": {
    "version": "0.3.0"
   }
  }
 }
}
"#;

const CARGO_TOML: &str = r#"[package]

name = "piston"
version = "0.13.0"
authors = [
    "bvssvni <bvssvni@gmail.com>",
    "Coeuvre <coeuvre@gmail.com>", # a comment
]
keywords = ["game", "engine"]
description = "The Piston game engine core libraries"
license = "MIT"
readme = "README.md"

[lib]
name = "piston"
path = "src/lib.rs"

[dependencies.pistoncore-input]
path = "src/input"
version = "0.8.0"

[dependencies]
pistoncore-window = { path = "src/window", version = "0.12.0" }
pistoncore-event_loop = "0.13.0"
local-only = { path = "../local" }

[dev-dependencies]
rand = "0.3"
"#;

fn names(meta: &[MetaData]) -> Vec<String> {
    let mut res = vec![];
    for m in meta {
        match m {
            MetaData::StartNode(n) => res.push(format!("+{}", n)),
            MetaData::EndNode(n) => res.push(format!("-{}", n)),
            MetaData::Bool(n, b) => res.push(format!("{}={}", n, b)),
            MetaData::String(n, v) => res.push(format!("{}:{}", n, v)),
        }
    }
    res
}

#[test]
fn lib_extract_is_json() {
    assert!(read_extract_info(EXTRACT_INFO).is_some());
}

#[test]
fn lib_extract() {
    let list = extract_info_list(EXTRACT_INFO).ok().unwrap();
    assert_eq!(list.len(), 2);
    assert_eq!(list[0].package.as_str(), "piston");
    assert_eq!(
        list[0].url.as_str(),
        "https://raw.githubusercontent.com/PistonDevelopers/piston/master/Cargo.toml"
    );
    assert!(list[0].ignore_version.is_none());
    assert_eq!(list[1].package.as_str(), "pistoncore-input");
    assert_eq!(list[1].ignore_version.as_ref().unwrap().as_str(), "0.8.0");
}

#[test]
fn main_extract_is_json() {
    assert!(read_extract_info("{\n  \"a\": { \"url\": \"u\" }\n}").is_some());
}

#[test]
fn main_extract() {
    let meta = read_extract_info("{\"a\":{\"url\":\"u\"},\"b\":{\"url\":\"v\",\"ignore-version\":\"1.0.0\"}}").unwrap();
    assert_eq!(
        names(&meta),
        vec![
            "+library", "package:a", "url:u", "-library",
            "+library", "package:b", "url:v", "ignore_version:1.0.0", "-library",
        ]
    );
    let mut ignored = vec![];
    let list = convert_extract_info(&meta, &mut ignored).ok().unwrap();
    assert!(ignored.is_empty());
    assert_eq!(list.len(), 2);
    assert_eq!(list[1].url.as_str(), "v");
}

#[test]
fn lib_dependencies_is_json() {
    assert!(read_dependency_info(DEPENDENCY_INFO).is_some());
}

#[test]
fn lib_dependencies() {
    let meta = read_dependency_info(DEPENDENCY_INFO).unwrap();
    let mut ignored = vec![];
    let packages = convert(&meta, &mut ignored).ok().unwrap();
    assert!(ignored.is_empty());
    assert_eq!(packages.len(), 2);
    assert_eq!(packages[0].name.as_str(), "piston");
    assert_eq!(packages[0].version.as_str(), "0.13.0");
    assert_eq!(packages[0].dependencies.len(), 2);
    assert_eq!(packages[0].dependencies[1].name.as_str(), "pistoncore-window");
    assert_eq!(packages[0].dependencies[1].ignore_version.as_ref().unwrap().as_str(), "0.11.0");
    assert_eq!(packages[0].dev_dependencies.len(), 0);
    assert_eq!(packages[1].dependencies.len(), 0);
    assert_eq!(packages[1].dev_dependencies[0].name.as_str(), "rand");
}

#[test]
fn main_dependencies_is_json() {
    assert!(read_dependency_info("{}").is_some());
}

#[test]
fn main_dependencies() {
    let meta = read_dependency_info(
        "{\"a\":{\"version\":\"1.0.0\",\"dependencies\":{\"b\":{\"version\":\"2.0.0\"}},\"dev-dependencies\":{}}}",
    )
    .unwrap();
    assert_eq!(
        names(&meta),
        vec![
            "+package", "name:a", "version:1.0.0",
            "+dependency", "name:b", "version:2.0.0", "-dependency",
            "-package",
        ]
    );
}

#[test]
fn cargo_toml() {
    let meta = read_cargo_toml(CARGO_TOML).ok().unwrap();
    let mut ignored = vec![];
    let package = convert_cargo_toml(&meta, &mut ignored).ok().unwrap();
    assert!(ignored.is_empty());
    assert_eq!(package.name.as_str(), "piston");
    assert_eq!(package.version.as_str(), "0.13.0");
    let deps: Vec<(String, String)> = package
        .dependencies
        .iter()
        .map(|d| (d.name.to_string(), d.version.to_string()))
        .collect();
    assert_eq!(
        deps,
        vec![
            ("pistoncore-input".to_string(), "0.8.0".to_string()),
            ("pistoncore-window".to_string(), "0.12.0".to_string()),
            ("pistoncore-event_loop".to_string(), "0.13.0".to_string()),
        ]
    );
    assert_eq!(package.dev_dependencies.len(), 1);
    assert_eq!(package.dev_dependencies[0].name.as_str(), "rand");
    assert_eq!(package.dev_dependencies[0].version.as_str(), "0.3");
}

#[test]
fn extract_info_that_is_not_a_document_is_refused() {
    assert!(read_extract_info("{\"a\": {\"url\": \"u\"}").is_none());
    assert!(read_extract_info("{\"a\": {\"link\": \"u\"}}").is_none());
    assert!(read_extract_info("{} trailing").is_none());
    assert!(read_extract_info("").is_none());
}

#[test]
fn dependency_info_that_is_not_a_document_is_refused() {
    assert!(read_dependency_info("{\"a\": {\"version\": \"1\"}}").is_none());
    assert!(read_dependency_info("[]").is_none());
    assert!(read_dependency_info("{\"a\": {\"version\": \"1\", \"dependencies\": {}, \"dev-dependencies\": {}},}").is_none());
}

#[test]
fn strings_with_escapes_are_read() {
    let meta = read_extract_info("{\"a\\\"b\": {\"url\": \"x\\\\y\\nz\\tw\"}}").unwrap();
    let mut ignored = vec![];
    let list = convert_extract_info(&meta, &mut ignored).ok().unwrap();
    assert_eq!(list[0].package.as_str(), "a\"b");
    assert_eq!(list[0].url.as_str(), "x\\y\nz\tw");
    assert!(read_extract_info("{\"a\": {\"url\": \"\\q\"}}").is_none());
}

#[test]
fn cargo_toml_without_name_converts_to_nothing() {
    let meta = read_cargo_toml("[package]\nversion = \"1.0.0\"\n").ok().unwrap();
    assert_eq!(names(&meta), vec!["+package", "version:1.0.0", "-package"]);
    let mut ignored = vec![];
    assert!(convert_cargo_toml(&meta, &mut ignored).is_err());
}

#[test]
fn cargo_toml_syntax_errors_are_refused() {
    assert_eq!(read_cargo_toml("[package\nname = \"a\"\n").err(), Some(0));
    assert_eq!(read_cargo_toml("[package]\nname = \"a\" version = \"1\"\n").err(), Some(10));
    assert_eq!(read_cargo_toml("[package]\nname = \"a\n").err(), Some(10));
    assert_eq!(read_cargo_toml("[package]\n  name\n").err(), Some(12));
    assert_eq!(read_cargo_toml("[package]\nkeywords = [\"a\", \"b\"\n").err(), Some(10));
}

#[test]
fn cargo_toml_error_report_points_at_the_line() {
    let text = "[package]\nname = \"a\"\n\tversion 1\n";
    assert_eq!(read_cargo_toml(text).err(), Some(22));
    let extract = Extract { package: Arc::new("a".to_string()), url: Arc::new("u".to_string()), ignore_version: None };
    assert_eq!(
        package_from_cargo_toml(&extract, text).err().unwrap(),
        "a: Syntax error in Cargo.toml for url `u`\nError Expected end\n3,2: \tversion 1\n3,2: \t^\n"
    );
    assert_eq!(
        package_from_cargo_toml(&extract, "a = 1\n[x\n").err().unwrap(),
        "a: Syntax error in Cargo.toml for url `u`\nError Expected end\n2,1: [x\n2,1: ^\n"
    );
}

#[test]
fn syntax_error_message_puts_the_report_after_the_url() {
    let extract = Extract { package: Arc::new("p".to_string()), url: Arc::new("http://x".to_string()), ignore_version: None };
    assert_eq!(syntax_error(&extract, "REPORT"), "p: Syntax error in Cargo.toml for url `http://x`\nREPORT");
}

#[test]
fn cargo_toml_other_forms_are_read() {
    let text = "# leading comment\n\
        [package]\r\n\
        name = 'literal-name'\n\
        version = \"1.2.3\" # trailing comment\n\
        description = \"\"\"\n\
        several\n\
        lines\"\"\"\n\
        edition = 2018\n\
        [[bin]]\n\
        name = \"not-the-package\"\n\
        [target.'cfg(unix)'.dependencies]\n\
        libc = \"0.2\"\n\
        [dev-dependencies.quickcheck]\n\
        version = \"0.4\"\n\
        features = [\"x\"]\n\
        [dependencies]\n\
        \"quoted\" = { version = \"0.1\", optional = true }\n\
        dotted.version = \"0.9\"\n";
    let meta = read_cargo_toml(text).ok().unwrap();
    assert_eq!(
        names(&meta),
        vec![
            "+package", "name:literal-name", "version:1.2.3",
            "+dependency", "name:quoted", "version:0.1", "-dependency",
            "+dev_dependency", "name:quickcheck", "version:0.4", "-dev_dependency",
            "-package",
        ]
    );
}

#[test]
fn empty_cargo_toml_has_an_empty_package_node() {
    let meta = read_cargo_toml("").ok().unwrap();
    assert_eq!(names(&meta), vec!["+package", "-package"]);
}
