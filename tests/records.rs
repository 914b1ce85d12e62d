use debdeps::{logical_lines, parse_index, Pkg, PkgError};

fn bare(name: &str) -> Pkg {
    Pkg {
        name: name.to_string(),
        version: None,
        source: None,
        homepage: None,
        deps: vec![],
        int_deps: vec![],
    }
}

#[test]
fn continuation_folds_into_previous_line() {
    let first = "Description: a tool";
    let second = "for amd64 hosts";
    let text = format!("{}\n {}", first, second);
    let lines = logical_lines(&text).unwrap();
    assert_eq!(lines, vec!["Description: a tool for amd64 hosts".to_string()]);
    assert_eq!(lines, vec![format!("{} {}", first, second)]);
    assert!(lines[0].contains("amd64"));
}

#[test]
fn empty_lines_add_nothing_and_fields_start_lines() {
    let lines = logical_lines("Package: a\n\nVersion: 1\n x\n y").unwrap();
    assert_eq!(lines, vec!["Package: a".to_string(), "Version: 1 x y".to_string()]);
}

#[test]
fn leading_continuation_has_no_line_to_join() {
    assert!(logical_lines(" orphan").is_none());
    assert!(matches!(Pkg::new(" orphan\nPackage: a"), Err(PkgError::Malformed(_))));
}

#[test]
fn dependency_tokens_are_stripped() {
    let mut p = bare("x");
    p.add_dependencies("libc6:amd64 (>= 2.7), zlib1g".to_string());
    assert_eq!(p.deps, vec!["libc6".to_string(), "zlib1g".to_string()]);
}

#[test]
fn dependency_duplicates_keep_first() {
    let mut p = bare("x");
    p.add_dependencies("b (>= 1), a, b:any, c (<< 2)".to_string());
    assert_eq!(p.deps, vec!["b".to_string(), "a".to_string(), "c".to_string()]);
}

#[test]
fn empty_paragraph_gives_no_record() {
    assert!(matches!(Pkg::new(""), Ok(None)));
}

#[test]
fn record_fields_are_read() {
    let text = "Package: app\nVersion: 1.0\nVersion: 2.0\nSource: app-src\nHomepage: http://x.org\nMulti-Arch: same\nDepends: base (>= 1.0), libfoo";
    let p = Pkg::new(text).unwrap().unwrap();
    assert_eq!(p.name, "app");
    assert_eq!(p.version, Some("2.0".to_string()));
    assert_eq!(p.source, Some("app-src".to_string()));
    assert_eq!(p.homepage, Some("http://x.org".to_string()));
    assert_eq!(p.deps, vec!["base".to_string(), "libfoo".to_string()]);
    assert!(p.int_deps.is_empty());
}

#[test]
fn later_depends_replaces_earlier() {
    let p = Pkg::new("Package: a\nDepends: x, y\nDepends: z").unwrap().unwrap();
    assert_eq!(p.deps, vec!["z".to_string()]);
}

#[test]
fn line_without_field_is_malformed() {
    let text = "Package: a\nthis is not a field";
    match Pkg::new(text) {
        Err(PkgError::Malformed(t)) => assert_eq!(t, text),
        other => panic!("unexpected {:?}", other),
    }
}

#[test]
fn index_splits_on_blank_lines() {
    let pkgs = parse_index("Package: a\n\nPackage: b\nSource: s\n\n").unwrap();
    assert_eq!(pkgs.len(), 2);
    assert_eq!(pkgs[0].name, "a");
    assert_eq!(pkgs[1].name, "b");
    assert_eq!(pkgs[1].source, Some("s".to_string()));
}

#[test]
fn index_reports_malformed_paragraph() {
    match parse_index("Package: a\n\nPackage: b\nbroken") {
        Err(PkgError::Malformed(t)) => assert_eq!(t, "Package: b\nbroken"),
        other => panic!("unexpected {:?}", other),
    }
}

#[test]
fn version_constraint_with_epoch_is_stripped() {
    let mut p = bare("x");
    p.add_dependencies("a (>= 1:2.0), b:any, c".to_string());
    assert_eq!(p.deps, vec!["a".to_string(), "b".to_string(), "c".to_string()]);
}

#[test]
fn empty_depends_value_gives_one_empty_name() {
    let p = Pkg::new("Package: a\nDepends: ").unwrap().unwrap();
    assert_eq!(p.deps, vec![String::new()]);
}

#[test]
fn field_name_needs_colon_and_space() {
    assert!(matches!(Pkg::new("Package:a"), Err(PkgError::Malformed(_))));
}

#[test]
fn paragraph_of_blank_lines_has_no_name() {
    let p = Pkg::new("\n").unwrap().unwrap();
    assert_eq!(p.name, "");
    assert!(p.deps.is_empty());
}

#[test]
fn continuation_joins_field_value() {
    let p = Pkg::new("Package: foo\n amd64").unwrap().unwrap();
    assert_eq!(p.name, "foo amd64");
}
