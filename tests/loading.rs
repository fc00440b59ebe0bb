use component_docs::{
    collect_catalog, component_name, get_version, load_components_from, select_outcome,
    source_file, trim_newline, Catalog, Components, DocumentSelector, EntryReport, Input,
    LoadingResult, Spec, TEMPLATE_FILE_NAME,
};

fn input(default: Option<&str>) -> Input {
    Input {
        default: default.map(|s| s.to_string()),
        description: None,
        options: None,
        type_t: None,
    }
}

fn component(name: &str, default: Option<&str>) -> Components {
    Components {
        spec: Spec {
            inputs: vec![(name.to_string(), input(default))],
        },
    }
}

fn first_input_name(r: &LoadingResult) -> Option<String> {
    match r {
        LoadingResult::Success(c) => Some(c.spec.inputs[0].0.clone()),
        LoadingResult::Failed(_) => None,
    }
}

fn diagnostics(r: &LoadingResult) -> Option<Vec<String>> {
    match r {
        LoadingResult::Success(_) => None,
        LoadingResult::Failed(d) => Some(d.clone()),
    }
}

fn report(name: &str, loaded: Result<LoadingResult, String>) -> EntryReport {
    EntryReport {
        file_name: name.to_string(),
        loaded,
    }
}

fn keys(c: &Catalog) -> Vec<String> {
    c.entries().iter().map(|(k, _)| k.clone()).collect()
}

#[test]
fn first_match_wins() {
    let r = select_outcome(vec![
        Err("missing field `spec`".to_string()),
        Ok(component("valid", None)),
        Ok(component("valid2", None)),
    ]);
    assert!(r.is_success());
    assert_eq!(first_input_name(&r), Some("valid".to_string()));
}

#[test]
fn all_rejected_keeps_diagnostics_in_order() {
    let r = select_outcome(vec![Err("diag1".to_string()), Err("diag2".to_string())]);
    assert!(!r.is_success());
    assert_eq!(
        diagnostics(&r),
        Some(vec!["diag1".to_string(), "diag2".to_string()])
    );
}

#[test]
fn no_documents_is_rejected_without_diagnostics() {
    let r = select_outcome(vec![]);
    assert_eq!(diagnostics(&r), Some(vec![]));
}

#[test]
fn selector_ignores_documents_after_a_match() {
    let mut s = DocumentSelector::new();
    assert!(!s.is_done());
    s.offer(Err("bad".to_string()));
    assert!(!s.is_done());
    s.offer(Ok(component("first", None)));
    assert!(s.is_done());
    s.offer(Err("never recorded".to_string()));
    s.offer(Ok(component("second", None)));
    let r = s.finish();
    assert_eq!(first_input_name(&r), Some("first".to_string()));
}

#[test]
fn component_name_strips_the_extension() {
    assert_eq!(component_name("build.yml"), Some("build".to_string()));
    assert_eq!(component_name("deploy"), Some("deploy".to_string()));
    assert_eq!(component_name("a.b.yml"), Some("a.b".to_string()));
    assert_eq!(component_name(".hidden"), Some(".hidden".to_string()));
    assert_eq!(component_name(".hidden.yml"), Some(".hidden".to_string()));
    assert_eq!(component_name("trailing."), Some("trailing".to_string()));
}

#[test]
fn component_name_refuses_empty_and_dot_names() {
    assert_eq!(component_name(""), None);
    assert_eq!(component_name("."), None);
    assert_eq!(component_name(".."), None);
}

#[test]
fn directory_entry_resolves_to_its_template_file() {
    assert_eq!(TEMPLATE_FILE_NAME, "template.yml");
    assert_eq!(
        source_file("templates/lint", true),
        "templates/lint/template.yml"
    );
    assert_eq!(
        source_file("templates/lint/", true),
        "templates/lint/template.yml"
    );
    assert_eq!(source_file("templates/lint.yml", false), "templates/lint.yml");
}

#[test]
fn directory_convention_loads_the_declared_input() {
    let path = source_file("templates/foo", true);
    assert_eq!(path, "templates/foo/template.yml");
    let r = select_outcome(vec![Ok(component("foo", Some("bar")))]);
    match r {
        LoadingResult::Success(c) => {
            assert_eq!(c.spec.inputs.len(), 1);
            let (name, i) = &c.spec.inputs[0];
            assert_eq!(name, "foo");
            assert_eq!(i.default, Some("bar".to_string()));
            assert_eq!(i.description, None);
            assert_eq!(i.options, None);
            assert_eq!(i.type_t, None);
        }
        LoadingResult::Failed(_) => panic!("expected a loaded component"),
    }
}

#[test]
fn trim_newline_replaces_line_breaks() {
    assert_eq!(trim_newline("first\nsecond\n"), "first second ");
    assert_eq!(trim_newline("plain"), "plain");
    assert_eq!(trim_newline(""), "");
    assert_eq!(trim_newline("\n\n"), "  ");
}

#[test]
fn version_of_a_debug_build_is_dev() {
    assert_eq!(get_version(true, Some("1.2.3")), "dev");
    assert_eq!(get_version(true, None), "dev");
}

#[test]
fn version_of_a_release_build_is_the_recorded_one() {
    assert_eq!(get_version(false, Some("1.2.3")), "1.2.3");
    assert_eq!(get_version(false, None), "unknown");
}

#[test]
fn empty_directory_entry_gets_no_separator() {
    assert_eq!(source_file("", true), "template.yml");
    assert_eq!(source_file("", false), "");
}

#[test]
fn spec_inputs_stay_unique_and_ordered() {
    let mut spec = Spec::new();
    spec.insert_input("stage".to_string(), input(Some("test")));
    spec.insert_input("image".to_string(), input(None));
    spec.insert_input("job".to_string(), input(None));
    spec.insert_input("stage".to_string(), input(Some("build")));
    let names: Vec<&str> = spec.inputs.iter().map(|(n, _)| n.as_str()).collect();
    assert_eq!(names, vec!["image", "job", "stage"]);
    assert_eq!(spec.inputs[2].1.default, Some("build".to_string()));
}

#[test]
fn unreadable_entry_is_absent_wherever_it_is_listed() {
    for bad in 0..3 {
        let names = ["a.yml", "b.yml", "c.yml"];
        let reports = names
            .iter()
            .enumerate()
            .map(|(i, n)| {
                if i == bad {
                    report(n, Err("permission denied".to_string()))
                } else {
                    report(n, Ok(LoadingResult::Success(component(n, None))))
                }
            })
            .collect();
        let c = collect_catalog(reports);
        let expected: Vec<String> = ["a", "b", "c"]
            .iter()
            .enumerate()
            .filter(|(i, _)| *i != bad)
            .map(|(_, k)| k.to_string())
            .collect();
        assert_eq!(keys(&c), expected);
        assert!(c.get(["a", "b", "c"][bad]).is_none());
    }
}

#[test]
fn catalog_is_walked_in_key_order() {
    let mut c = Catalog::new();
    c.insert("zeta".to_string(), LoadingResult::Failed(vec![]));
    c.insert("alpha".to_string(), LoadingResult::Success(component("x", None)));
    c.insert("mid".to_string(), LoadingResult::Failed(vec!["d".to_string()]));
    c.insert("Alpha".to_string(), LoadingResult::Failed(vec![]));
    assert_eq!(c.len(), 4);
    assert_eq!(keys(&c), vec!["Alpha", "alpha", "mid", "zeta"]);
    assert!(c.get("alpha").unwrap().is_success());
    assert!(c.get("missing").is_none());
}

#[test]
fn catalog_insert_replaces_same_key() {
    let mut c = Catalog::new();
    c.insert("a".to_string(), LoadingResult::Failed(vec![]));
    c.insert("a".to_string(), LoadingResult::Success(component("later", None)));
    assert_eq!(c.len(), 1);
    assert_eq!(
        first_input_name(c.get("a").unwrap()),
        Some("later".to_string())
    );
}

#[test]
fn unreadable_entry_is_absent() {
    let c = collect_catalog(vec![
        report("one.yml", Ok(LoadingResult::Success(component("x", None)))),
        report("two.yml", Err("permission denied".to_string())),
        report("three", Ok(LoadingResult::Failed(vec!["bad".to_string()]))),
    ]);
    assert_eq!(keys(&c), vec!["one", "three"]);
    assert!(c.get("two").is_none());
    assert_eq!(
        diagnostics(c.get("three").unwrap()),
        Some(vec!["bad".to_string()])
    );
}

#[test]
fn entry_without_identifier_is_skipped() {
    let c = collect_catalog(vec![
        report("..", Ok(LoadingResult::Failed(vec![]))),
        report("ok.yml", Ok(LoadingResult::Failed(vec![]))),
    ]);
    assert_eq!(keys(&c), vec!["ok"]);
}

#[test]
fn later_entry_with_same_identifier_wins() {
    let c = collect_catalog(vec![
        report("lint.yml", Ok(LoadingResult::Success(component("first", None)))),
        report("lint", Ok(LoadingResult::Success(component("second", None)))),
    ]);
    assert_eq!(c.len(), 1);
    assert_eq!(
        first_input_name(c.get("lint").unwrap()),
        Some("second".to_string())
    );
}

#[test]
fn failed_listing_is_an_error() {
    let r = load_components_from::<String>(Err("no such directory".to_string()));
    match r {
        Err(e) => assert_eq!(e, "no such directory"),
        Ok(_) => panic!("a failed listing must not give a catalog"),
    }
}

#[test]
fn empty_listing_gives_empty_catalog() {
    let r = load_components_from::<String>(Ok(vec![]));
    assert_eq!(r.ok().map(|c| c.len()), Some(0));
}

#[test]
fn scanning_twice_gives_the_same_catalog() {
    let listing = || {
        vec![
            report("b.yml", Ok(LoadingResult::Success(component("x", Some("1"))))),
            report("a.yml", Ok(LoadingResult::Failed(vec!["e".to_string()]))),
            report("c", Err("unreadable".to_string())),
        ]
    };
    let first = load_components_from::<String>(Ok(listing())).ok().unwrap();
    let second = load_components_from::<String>(Ok(listing())).ok().unwrap();
    assert_eq!(keys(&first), keys(&second));
    assert_eq!(keys(&first), vec!["a", "b"]);
    for ((_, x), (_, y)) in first.entries().iter().zip(second.entries().iter()) {
        assert_eq!(first_input_name(x), first_input_name(y));
        assert_eq!(diagnostics(x), diagnostics(y));
    }
}
