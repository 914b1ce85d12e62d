use debdeps::{
    build_table, extract_pkg_or_sources, index_sources, order_packages, parse_index,
    process_packages, Pkg, PkgError,
};

fn names(pkgs: &[Pkg]) -> Vec<String> {
    pkgs.iter().map(|p| p.name.clone()).collect()
}

#[test]
fn dependency_is_emitted_first() {
    let pkgs = parse_index("Package: A\nDepends: B\n\nPackage: B").unwrap();
    let ordered = process_packages(pkgs).unwrap();
    assert_eq!(names(&ordered), vec!["B".to_string(), "A".to_string()]);
    assert_eq!(ordered[1].int_deps, vec!["B".to_string()]);
}

#[test]
fn external_dependency_is_ignored() {
    let pkgs = parse_index("Package: A\nDepends: libc6\n\nPackage: B\nDepends: A").unwrap();
    let table = build_table(pkgs).unwrap();
    assert!(table[0].int_deps.is_empty());
    assert_eq!(table[0].deps, vec!["libc6".to_string()]);
    let ordered = order_packages(&table).unwrap();
    assert_eq!(names(&ordered), vec!["A".to_string(), "B".to_string()]);
}

#[test]
fn same_pass_does_not_satisfy_later_records() {
    let text = "Package: C\nDepends: B\n\nPackage: B\nDepends: A\n\nPackage: A\n\nPackage: D";
    let ordered = process_packages(parse_index(text).unwrap()).unwrap();
    assert_eq!(
        names(&ordered),
        vec!["A".to_string(), "D".to_string(), "B".to_string(), "C".to_string()]
    );
}

#[test]
fn source_extraction_is_repeatable() {
    let text = "Package: a\nSource: s\n\nPackage: b\nSource: s\n\nPackage: c";
    let pkgs = parse_index(text).unwrap();
    let once = extract_pkg_or_sources(pkgs.clone());
    let twice = extract_pkg_or_sources(pkgs);
    assert_eq!(once, twice);
    assert_eq!(once, vec!["s".to_string(), "c".to_string()]);
}

#[test]
fn first_record_of_a_name_wins() {
    let pkgs = parse_index("Package: a\nVersion: 1\n\nPackage: a\nVersion: 2").unwrap();
    assert_eq!(pkgs.len(), 2);
    let table = build_table(pkgs).unwrap();
    assert_eq!(table.len(), 1);
    assert_eq!(table[0].version, Some("1".to_string()));
}

#[test]
fn cycle_is_reported() {
    let pkgs = parse_index("Package: A\nDepends: B\n\nPackage: B\nDepends: A").unwrap();
    match process_packages(pkgs) {
        Err(PkgError::Cycle(ns)) => assert_eq!(ns, vec!["A".to_string(), "B".to_string()]),
        other => panic!("unexpected {:?}", other),
    }
}

#[test]
fn cycle_leaves_out_placed_records() {
    let text = "Package: X\n\nPackage: A\nDepends: B, X\n\nPackage: B\nDepends: A\n\nPackage: C\nDepends: A";
    match index_sources(text) {
        Err(PkgError::Cycle(ns)) => {
            assert_eq!(ns, vec!["A".to_string(), "B".to_string(), "C".to_string()])
        }
        other => panic!("unexpected {:?}", other),
    }
}

#[test]
fn record_without_name_is_refused() {
    let pkgs = parse_index("Package: a\n\nVersion: 1").unwrap();
    assert!(matches!(process_packages(pkgs), Err(PkgError::MissingName(1))));
}

#[test]
fn end_to_end_sources() {
    let text = "Package: base\nSource: base-src\nDepends: \n\nPackage: app\nSource: app-src\nDepends: base (>= 1.0), libfoo\n";
    let sources = index_sources(text).unwrap();
    assert_eq!(sources, vec!["base-src".to_string(), "app-src".to_string()]);
}

#[test]
fn end_to_end_dependency_declared_later() {
    let text = "Package: app\nDepends: lib\n\nPackage: lib\nSource: lib-src";
    let sources = index_sources(text).unwrap();
    assert_eq!(sources, vec!["lib-src".to_string(), "app".to_string()]);
}

#[test]
fn empty_index_has_no_sources() {
    assert_eq!(index_sources("").unwrap(), Vec::<String>::new());
}

#[test]
fn trailing_blank_paragraph_is_refused() {
    assert!(matches!(
        index_sources("Package: a\n\n\n"),
        Err(PkgError::MissingName(1))
    ));
}

#[test]
fn self_dependency_is_a_cycle() {
    match index_sources("Package: a\nDepends: a") {
        Err(PkgError::Cycle(ns)) => assert_eq!(ns, vec!["a".to_string()]),
        other => panic!("unexpected {:?}", other),
    }
}
