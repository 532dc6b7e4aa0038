use eco::dependencies::{Dependency, Package};
use eco::extract::{dependency_info_from_configs, extract_info_list, package_from_cargo_toml, Extract};
use eco::todo::todo_from_extract_info;
use eco::update::{generate_update_info_from, is_acyclic, library_depths, library_versions};
use std::sync::Arc;

fn shared(s: &str) -> Arc<String> {
    Arc::new(s.to_string())
}

fn extract(package: &str, url: &str, ignore_version: Option<&str>) -> Extract {
    Extract { package: shared(package), url: shared(url), ignore_version: ignore_version.map(shared) }
}

fn package(name: &str, version: &str, deps: &[(&str, &str)]) -> Package {
    Package {
        name: shared(name),
        version: shared(version),
        dependencies: deps
            .iter()
            .map(|(n, v)| Dependency { name: shared(n), version: shared(v), ignore_version: None })
            .collect(),
        dev_dependencies: vec![],
    }
}

const INPUT_TOML: &str = "[package]\nname = \"pistoncore-input\"\nversion = \"0.8.0\"\n\n[dependencies]\nbitflags = \"0.3.0\"\n";
const PISTON_TOML: &str = "[package]\nname = \"piston\"\nversion = \"0.13.0\"\n\n[dependencies.pistoncore-input]\nversion = \"0.8.0\"\n\n[dev-dependencies]\nrand = \"0.3\"\n";

#[test]
fn package_from_cargo_toml_keeps_a_matching_version() {
    let p = package_from_cargo_toml(&extract("piston", "u", None), PISTON_TOML).unwrap().unwrap();
    assert_eq!(p.name.as_str(), "piston");
    assert_eq!(p.version.as_str(), "0.13.0");
    assert_eq!(p.dependencies[0].name.as_str(), "pistoncore-input");
    assert_eq!(p.dev_dependencies[0].name.as_str(), "rand");
    let p = package_from_cargo_toml(&extract("piston", "u", Some("0.13.0")), PISTON_TOML).unwrap();
    assert!(p.is_some());
}

#[test]
fn package_from_cargo_toml_skips_another_version() {
    let p = package_from_cargo_toml(&extract("piston", "u", Some("0.12.0")), PISTON_TOML).unwrap();
    assert!(p.is_none());
}

#[test]
fn package_from_cargo_toml_reports_a_syntax_error() {
    let e = package_from_cargo_toml(&extract("piston", "http://x/Cargo.toml", None), "[package\n")
        .err()
        .unwrap();
    assert_eq!(
        e,
        "piston: Syntax error in Cargo.toml for url `http://x/Cargo.toml`\n\
         Error Expected end\n\
         1,1: [package\n\
         1,1: ^\n"
    );
}

#[test]
fn package_from_cargo_toml_reports_a_missing_name() {
    let e = package_from_cargo_toml(&extract("piston", "http://x/Cargo.toml", None), "[package]\nversion = \"1.0.0\"\n")
        .err()
        .unwrap();
    assert_eq!(e, "Could not convert Cargo.toml data for url `http://x/Cargo.toml`");
}

#[test]
fn dependency_info_from_configs_writes_the_packages_in_order() {
    let extracts = vec![
        extract("piston", "a", None),
        extract("pistoncore-input", "b", Some("0.7.0")),
        extract("pistoncore-input", "c", None),
    ];
    let configs = vec![
        Ok(PISTON_TOML.to_string()),
        Ok(INPUT_TOML.to_string()),
        Ok(INPUT_TOML.to_string()),
    ];
    let text = dependency_info_from_configs(&extracts, &configs).unwrap();
    assert_eq!(
        text,
        "{
 \"piston\": {
  \"version\": \"0.13.0\",
  \"dependencies\": {
   \"pistoncore-input\": {
    \"version\": \"0.8.0\"
   }
  },
  \"dev-dependencies\": {
   \"rand\": {
    \"version\": \"0.3\"
   }
  }
 },
 \"pistoncore-input\": {
  \"version\": \"0.8.0\",
  \"dependencies\": {
   \"bitflags\": {
    \"version\": \"0.3.0\"
   }
  },
  \"dev-dependencies\": {
  }
 }
}
"
    );
    assert_eq!(
        generate_update_info_from(&text).unwrap(),
        "{
 \"piston\": {
  \"order\": 2,
  \"bump\": {
   \"old\": \"0.13.0\",
   \"new\": \"0.13.0\"
  },
  \"dependencies\": {
   \"pistoncore-input\": {
    \"bump\": {
     \"old\": \"0.8.0\",
     \"new\": \"0.8.0\"
    }
   }
  }
 },
 \"pistoncore-input\": {
  \"order\": 1,
  \"bump\": {
   \"old\": \"0.8.0\",
   \"new\": \"0.8.0\"
  },
  \"dependencies\": {
   \"bitflags\": {
    \"bump\": {
     \"old\": \"0.3.0\",
     \"new\": \"0.3.0\"
    }
   }
  }
 }
}
"
    );
}

#[test]
fn dependency_info_from_configs_gives_the_first_error() {
    let extracts = vec![extract("a", "ua", None), extract("b", "ub", None), extract("c", "uc", None)];
    let configs = vec![
        Ok(INPUT_TOML.to_string()),
        Err("fetch failed for ub".to_string()),
        Ok("[package\n".to_string()),
    ];
    assert_eq!(dependency_info_from_configs(&extracts, &configs).err().unwrap(), "fetch failed for ub");
    let configs = vec![
        Ok(INPUT_TOML.to_string()),
        Ok("[package\n".to_string()),
        Err("fetch failed for uc".to_string()),
    ];
    assert_eq!(
        dependency_info_from_configs(&extracts, &configs).err().unwrap(),
        "b: Syntax error in Cargo.toml for url `ub`\n\
         Error Expected end\n\
         1,1: [package\n\
         1,1: ^\n"
    );
}

#[test]
fn dependency_info_from_no_configs_is_empty() {
    assert_eq!(dependency_info_from_configs(&[], &[]).unwrap(), "{\n}\n");
}

#[test]
fn todo_lists_each_library() {
    let text = "{\"piston\": {\"url\": \"a\"}, \"pistoncore-input\": {\"url\": \"b\", \"ignore-version\": \"1\"}}";
    assert_eq!(todo_from_extract_info(text).unwrap(), "- [ ] piston\n- [ ] pistoncore-input\n");
    assert_eq!(todo_from_extract_info("{}").unwrap(), "");
    assert_eq!(extract_info_list("{}").unwrap().len(), 0);
}

const UPDATE_INFO: &str = "{
 \"a\": {
  \"order\": 2,
  \"bump\": {
   \"old\": \"0.1.0\",
   \"new\": \"0.1.0\"
  },
  \"dependencies\": {
   \"b\": {
    \"bump\": {
     \"old\": \"0.1.0\",
     \"new\": \"0.2.0\"
    }
   }
  }
 },
 \"b\": {
  \"order\": 1,
  \"bump\": {
   \"old\": \"0.2.0\",
   \"new\": \"0.2.0\"
  },
  \"dependencies\": {
  }
 }
}
";

#[test]
fn update_info_gives_orders_and_bumps() {
    let text = "{\"a\": {\"version\": \"0.1.0\", \"dependencies\": {\"b\": {\"version\": \"0.1.0\"}}, \"dev-dependencies\": {}},
                \"b\": {\"version\": \"0.2.0\", \"dependencies\": {}, \"dev-dependencies\": {}}}";
    assert_eq!(generate_update_info_from(text).unwrap(), UPDATE_INFO);
}

#[test]
fn update_info_ignores_dev_dependencies_and_versions_to_ignore() {
    let text = "{\"a\": {\"version\": \"0.1.0\", \"dependencies\": {\"b\": {\"version\": \"0.1.0\", \"ignore-version\": \"9\"}},
                \"dev-dependencies\": {\"x\": {\"version\": \"not a version\"}}},
                \"b\": {\"version\": \"0.2.0\", \"dependencies\": {}, \"dev-dependencies\": {\"a\": {\"version\": \"?\"}}}}";
    assert_eq!(generate_update_info_from(text).unwrap(), UPDATE_INFO);
}

#[test]
fn update_order_grows_along_a_chain() {
    let mut text = String::from("{");
    for i in 0..11 {
        let deps = if i < 10 { format!("\"p{}\": {{\"version\": \"1.0.0\"}}", i + 1) } else { String::new() };
        if i > 0 {
            text.push(',');
        }
        text.push_str(&format!(
            "\"p{}\": {{\"version\": \"1.0.0\", \"dependencies\": {{{}}}, \"dev-dependencies\": {{}}}}",
            i, deps
        ));
    }
    text.push('}');
    let info = generate_update_info_from(&text).unwrap();
    assert!(info.starts_with("{\n \"p0\": {\n  \"order\": 11,\n"));
    assert!(info.contains(" \"p10\": {\n  \"order\": 1,\n"));
}

#[test]
fn update_info_reports_an_unreadable_dependency_version_first() {
    let text = "{\"a\": {\"version\": \"bad\", \"dependencies\": {\"b\": {\"version\": \"0.x\"}}, \"dev-dependencies\": {}}}";
    assert_eq!(generate_update_info_from(text).err().unwrap(), "Could not parse version `0.x` for `b`");
    let text = "{\"a\": {\"version\": \"bad\", \"dependencies\": {\"b\": {\"version\": \"0.1.0\"}}, \"dev-dependencies\": {}}}";
    assert_eq!(generate_update_info_from(text).err().unwrap(), "Could not parse version `bad` for `a`");
}

#[test]
fn depths_follow_dependencies() {
    let packages = vec![
        package("a", "1.0.0", &[("b", "1.0.0")]),
        package("b", "1.0.0", &[("c", "1.0.0"), ("x", "1.0.0")]),
        package("c", "1.0.0", &[]),
        package("d", "1.0.0", &[("x", "1.0.0")]),
    ];
    assert!(is_acyclic(&packages));
    let depths = library_depths(&packages);
    assert_eq!(depths.len(), 4);
    assert_eq!(depths[&0], 3);
    assert_eq!(depths[&1], 2);
    assert_eq!(depths[&2], 1);
    assert_eq!(depths[&3], 1);
}

#[test]
fn depth_of_a_name_is_that_of_its_last_package() {
    let packages = vec![
        package("a", "1.0.0", &[("b", "1.0.0")]),
        package("b", "1.0.0", &[("c", "1.0.0")]),
        package("c", "1.0.0", &[]),
        package("b", "2.0.0", &[]),
    ];
    let depths = library_depths(&packages);
    assert_eq!(depths[&0], 2);
    assert_eq!(depths[&1], 2);
}

#[test]
fn cycles_are_found() {
    let packages = vec![package("a", "1.0.0", &[("b", "1.0.0")]), package("b", "1.0.0", &[("a", "1.0.0")])];
    assert!(!is_acyclic(&packages));
    let packages = vec![package("a", "1.0.0", &[("a", "1.0.0")])];
    assert!(!is_acyclic(&packages));
    assert!(is_acyclic(&[]));
}

#[test]
fn new_versions_take_the_latest_and_the_package_own() {
    let packages = vec![
        package("a", "1.0.0", &[("c", "0.9.0")]),
        package("b", "2.0.0", &[("c", "0.10.0"), ("a", "0.5.0"), ("c", "0.9.5")]),
    ];
    let versions = library_versions(&packages).ok().unwrap();
    assert_eq!(versions.len(), 3);
    assert_eq!(versions.get("c").unwrap().text(), "0.10.0");
    assert_eq!(versions.get("a").unwrap().text(), "1.0.0");
    assert_eq!(versions.get("b").unwrap().text(), "2.0.0");
}

#[test]
fn versions_are_read_with_semver() {
    let packages = vec![package("a", "1.2.3-alpha.1+build", &[("b", "1.2.3")])];
    let versions = library_versions(&packages).ok().unwrap();
    assert_eq!(versions.get("a").unwrap().text(), "1.2.3-alpha.1+build");
    assert_eq!(versions.get("b").unwrap().text(), "1.2.3");
    let packages = vec![package("a", "1.0.0", &[("b", "1.2")])];
    assert_eq!(library_versions(&packages).err().unwrap(), "Could not parse version `1.2` for `b`");
    let packages = vec![package("abc", "abc", &[])];
    assert_eq!(library_versions(&packages).err().unwrap(), "Could not parse version `abc` for `abc`");
}
