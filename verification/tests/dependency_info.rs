use eco::dependencies::{convert, Dependency, Package};
use eco::meta::{Convert, MetaData, Range};
use eco::reader::read_dependency_info;
use std::sync::Arc;

fn shared(s: &str) -> Arc<String> {
    Arc::new(s.to_string())
}

fn dep(name: &str, version: &str, ignore_version: Option<&str>) -> Dependency {
    Dependency {
        name: shared(name),
        version: shared(version),
        ignore_version: ignore_version.map(shared),
    }
}

fn sample() -> Vec<Package> {
    vec![
        Package {
            name: shared("piston"),
            version: shared("0.13.0"),
            dependencies: vec![
                dep("pistoncore-input", "0.8.0", None),
                dep("pistoncore-window", "0.12.0", Some("0.11.0")),
            ],
            dev_dependencies: vec![],
        },
        Package {
            name: shared("pistoncore-input"),
            version: shared("0.8.0"),
            dependencies: vec![],
            dev_dependencies: vec![dep("rand", "0.3.0", None)],
        },
    ]
}

const SAMPLE_TEXT: &str = "{
 \"piston\": {
  \"version\": \"0.13.0\",
  \"dependencies\": {
   \"pistoncore-input\": {
    \"version\": \"0.8.0\"
   },
   \"pistoncore-window\": {
    \"version\": \"0.12.0\",
    \"ignore-version\": \"0.11.0\"
   }
  },
  \"dev-dependencies\": {
  }
 },
 \"pistoncore-input\": {
  \"version\": \"0.8.0\",
  \"dependencies\": {
  },
  \"dev-dependencies\": {
   \"rand\": {
    \"version\": \"0.3.0\"
   }
  }
 }
}
";

fn s(x: &str) -> Arc<String> {
    shared(x)
}

#[test]
fn write_gives_the_documented_layout() {
    let mut out = String::new();
    eco::dependencies::write(&sample(), &mut out);
    assert_eq!(out, SAMPLE_TEXT);
}

#[test]
fn write_appends_to_what_is_there() {
    let mut out = String::from("prefix:");
    eco::dependencies::write(&[], &mut out);
    assert_eq!(out, "prefix:{\n}\n");
}

#[test]
fn write_escapes_strings() {
    let packages = vec![Package {
        name: shared("a\"b\\c\nd"),
        version: shared("1\t2"),
        dependencies: vec![],
        dev_dependencies: vec![],
    }];
    let mut out = String::new();
    eco::dependencies::write(&packages, &mut out);
    assert!(out.starts_with("{\n \"a\\\"b\\\\c\\nd\": {\n  \"version\": \"1\\t2\",\n"));
}

#[test]
fn written_dependency_info_reads_back() {
    let mut packages = sample();
    packages.push(Package {
        name: shared("odd \"name\"\twith\\escapes"),
        version: shared("1.0.0\r"),
        dependencies: vec![dep("x", "y", Some("z"))],
        dev_dependencies: vec![dep("a", "b", None), dep("c", "d", Some("e"))],
    });
    let mut out = String::new();
    eco::dependencies::write(&packages, &mut out);
    let meta = read_dependency_info(&out).unwrap();
    let mut ignored = vec![];
    let back = convert(&meta, &mut ignored).ok().unwrap();
    assert!(ignored.is_empty());
    assert_eq!(back.len(), packages.len());
    for (p, q) in packages.iter().zip(back.iter()) {
        assert_eq!(p.name, q.name);
        assert_eq!(p.version, q.version);
        for (ds, es) in [(&p.dependencies, &q.dependencies), (&p.dev_dependencies, &q.dev_dependencies)] {
            assert_eq!(ds.len(), es.len());
            for (d, e) in ds.iter().zip(es.iter()) {
                assert_eq!(d.name, e.name);
                assert_eq!(d.version, e.version);
                assert_eq!(d.ignore_version, e.ignore_version);
            }
        }
    }
}

#[test]
fn convert_ignores_unknown_items_and_records_them() {
    let data = vec![
        MetaData::StartNode(s("package")),
        MetaData::Bool(s("flag"), true),
        MetaData::String(s("name"), s("a")),
        MetaData::StartNode(s("extra")),
        MetaData::String(s("name"), s("inner")),
        MetaData::EndNode(s("extra")),
        MetaData::String(s("version"), s("1.0.0")),
        MetaData::StartNode(s("dependency")),
        MetaData::String(s("name"), s("b")),
        MetaData::EndNode(s("dependency")),
        MetaData::EndNode(s("package")),
    ];
    let mut ignored = vec![];
    let packages = convert(&data, &mut ignored).ok().unwrap();
    assert_eq!(packages.len(), 1);
    assert_eq!(packages[0].name.as_str(), "a");
    assert_eq!(packages[0].version.as_str(), "1.0.0");
    assert_eq!(packages[0].dependencies.len(), 0);
    assert_eq!(
        ignored,
        vec![Range::new(1, 1), Range::new(3, 3), Range::new(7, 3)]
    );
}

#[test]
fn convert_fails_on_a_package_without_version() {
    let data = vec![
        MetaData::StartNode(s("package")),
        MetaData::String(s("name"), s("a")),
        MetaData::EndNode(s("package")),
    ];
    let mut ignored = vec![];
    assert!(convert(&data, &mut ignored).is_err());
}

#[test]
fn convert_fails_on_leftover_data() {
    let data = vec![MetaData::String(s("name"), s("a"))];
    let mut ignored = vec![];
    assert!(convert(&data, &mut ignored).is_err());
    let mut ignored = vec![];
    let empty: Vec<MetaData> = vec![];
    assert_eq!(convert(&empty, &mut ignored).ok().unwrap().len(), 0);
}

#[test]
fn dependency_from_meta_data_reads_one_node() {
    let data = vec![
        MetaData::StartNode(s("dev_dependency")),
        MetaData::String(s("version"), s("2.0.0")),
        MetaData::String(s("name"), s("b")),
        MetaData::String(s("ignore-version"), s("1.0.0")),
        MetaData::EndNode(s("dev_dependency")),
        MetaData::EndNode(s("package")),
    ];
    let mut ignored = vec![];
    let (range, d) = Dependency::from_meta_data("dev_dependency", Convert::new(&data), &mut ignored)
        .ok()
        .unwrap();
    assert_eq!(range, Range::new(0, 5));
    assert_eq!(d.name.as_str(), "b");
    assert_eq!(d.version.as_str(), "2.0.0");
    assert_eq!(d.ignore_version.unwrap().as_str(), "1.0.0");
    let mut ignored = vec![];
    assert!(Dependency::from_meta_data("dependency", Convert::new(&data), &mut ignored).is_err());
}

#[test]
fn package_from_meta_data_gives_its_range() {
    let meta = read_dependency_info(SAMPLE_TEXT).unwrap();
    let mut ignored = vec![];
    let (range, p) = Package::from_meta_data(Convert::new(&meta), &mut ignored).ok().unwrap();
    assert_eq!(range, Range::new(0, 13));
    assert_eq!(p.name.as_str(), "piston");
    assert_eq!(p.dependencies.len(), 2);
}

#[test]
fn range_and_cursor() {
    let r = Range::new(3, 4);
    assert_eq!(r.next_offset(), 7);
    let data = vec![
        MetaData::StartNode(s("a")),
        MetaData::StartNode(s("b")),
        MetaData::EndNode(s("b")),
        MetaData::EndNode(s("a")),
        MetaData::Bool(s("c"), false),
    ];
    let mut c = Convert::new(&data);
    assert_eq!(c.remaining_data_len(), 5);
    let skipped = c.ignore();
    assert_eq!(skipped, Range::new(0, 4));
    let start = c;
    c.update(skipped);
    assert_eq!(c.remaining_data_len(), 1);
    assert_eq!(c.ignore(), Range::new(4, 1));
    assert!(c.start_node("a").is_err());
    assert_eq!(c.subtract(start), Range::new(0, 4));
    assert!(Convert::new(&data).start_node("a").is_ok());
    assert!(Convert::new(&data).end_node("a").is_err());
    assert!(Convert::new(&data).meta_string("a").is_err());
}
