use parser_wasm::diagnostics::{Diagnostic, Location, ReportCode};
use parser_wasm::driver::{
    produce_report_with_main_components, Driver, Failure, MainComponent, Outcome, ParsedFile,
    SourceFile, Step,
};
use parser_wasm::files::{find_file, open_file, FileMap};
use parser_wasm::version::Version;

/// What a stand-in parser finds in a file: the test writes it down per path.
fn parsed(includes: &[&str], main: Option<(usize, usize)>) -> ParsedFile {
    ParsedFile {
        includes: includes.iter().map(|s| s.to_string()).collect(),
        main_component: main,
        custom_gates: false,
        custom_gates_declared: false,
        compiler_version: Some(Version::new(2, 1, 0)),
    }
}

fn file_map(paths: &[&str]) -> FileMap {
    let mut map = FileMap::new();
    for p in paths {
        map.insert(p.to_string(), format!("source of {}", p));
    }
    map
}

/// Runs the state machine to its end with `parse` in the parser's place.
fn run(
    entry: &str,
    version: &str,
    libraries: &[&str],
    files: &FileMap,
    parse: &dyn Fn(&str) -> ParsedFile,
) -> Result<Outcome, Failure> {
    let libraries = libraries.iter().map(|s| s.to_string()).collect();
    let mut driver = Driver::new(entry.to_string(), version, libraries);
    loop {
        match driver.next_file(files) {
            Step::Parse { driver: next, file } => {
                assert_eq!(next.files().len(), file.file_id + 1);
                driver = next.file_parsed(&file, &parse(&file.path), files)?;
            }
            Step::Drained { driver: last } => return last.finish(),
            Step::Failed { failure } => return Err(failure),
        }
    }
}

#[test]
fn two_files_with_one_main_component_succeed() {
    let files = file_map(&["/x.circom", "/y.circom"]);
    let outcome = run("/x.circom", "2.1.5", &[], &files, &|path| match path {
        "/x.circom" => parsed(&["y.circom"], None),
        "/y.circom" => parsed(&[], Some((10, 20))),
        other => panic!("unexpected file {}", other),
    })
    .unwrap();
    assert_eq!(
        outcome.main_component,
        MainComponent { file_id: 1, start: 10, end: 20, custom_gates: false }
    );
    assert_eq!(
        outcome.files,
        vec![
            SourceFile { path: "/x.circom".to_string(), src: "source of /x.circom".to_string() },
            SourceFile { path: "/y.circom".to_string(), src: "source of /y.circom".to_string() },
        ]
    );
    assert!(outcome.warnings.is_empty());
}

#[test]
fn two_main_components_fail_and_name_both_files() {
    let files = file_map(&["/x.circom", "/y.circom"]);
    let failure = run("/x.circom", "2.1.5", &[], &files, &|path| match path {
        "/x.circom" => parsed(&["y.circom"], Some((1, 2))),
        _ => parsed(&[], Some((3, 4))),
    })
    .unwrap_err();
    assert_eq!(
        failure.diagnostics,
        vec![Diagnostic::MultipleMainComponents {
            sites: vec![
                Location { file_id: 0, start: 1, end: 2 },
                Location { file_id: 1, start: 3, end: 4 },
            ],
        }]
    );
    assert_eq!(failure.diagnostics[0].code(), ReportCode::MultipleMain);
    assert_eq!(failure.files.len(), 2);
}

#[test]
fn no_main_component_fails() {
    let files = file_map(&["/x.circom", "/y.circom"]);
    let failure = run("/x.circom", "2.1.5", &[], &files, &|path| match path {
        "/x.circom" => parsed(&["y.circom"], None),
        _ => parsed(&[], None),
    })
    .unwrap_err();
    assert_eq!(failure.diagnostics, vec![Diagnostic::NoMainComponent]);
}

#[test]
fn missing_entry_file_reports_every_directory_tried() {
    let files = file_map(&["/other.circom"]);
    let failure =
        run("main.circom", "2.1.5", &["/lib1", "/lib2"], &files, &|_| parsed(&[], None)).unwrap_err();
    assert_eq!(
        failure.diagnostics,
        vec![
            Diagnostic::FileNotFound { path: "main.circom".to_string() },
            Diagnostic::FileNotFound { path: "/lib1/main.circom".to_string() },
            Diagnostic::FileNotFound { path: "/lib2/main.circom".to_string() },
        ]
    );
    assert!(failure.files.is_empty());
}

#[test]
fn entry_file_is_found_under_a_library() {
    let files = file_map(&["/lib2/main.circom"]);
    let outcome =
        run("main.circom", "2.1.5", &["/lib1", "/lib2"], &files, &|_| parsed(&[], Some((0, 1))))
            .unwrap();
    assert_eq!(outcome.files[0].path, "/lib2/main.circom");
}

#[test]
fn unresolved_name_ends_the_run() {
    let files = file_map(&["/x.circom"]);
    let failure =
        run("/x.circom", "2.1.5", &["/lib"], &files, &|_| parsed(&["gone.circom"], Some((0, 1))))
            .unwrap_err();
    assert_eq!(
        failure.diagnostics,
        vec![Diagnostic::IncludeNotFound { name: "gone.circom".to_string() }]
    );
    assert_eq!(failure.files.len(), 1);
}

#[test]
fn missing_version_pragma_is_a_warning_and_the_run_goes_on() {
    let files = file_map(&["/x.circom", "/y.circom"]);
    let outcome = run("/x.circom", "2.1.5", &[], &files, &|path| {
        let mut p = match path {
            "/x.circom" => parsed(&["y.circom"], Some((0, 1))),
            _ => parsed(&[], None),
        };
        p.compiler_version = None;
        p
    })
    .unwrap();
    assert_eq!(
        outcome.warnings,
        vec![
            Diagnostic::MissingVersionPragma {
                path: "/x.circom".to_string(),
                actual: Version::new(2, 1, 5),
            },
            Diagnostic::MissingVersionPragma {
                path: "/y.circom".to_string(),
                actual: Version::new(2, 1, 5),
            },
        ]
    );
}

#[test]
fn warnings_come_before_the_error_that_ends_the_run() {
    let files = file_map(&["/x.circom", "/y.circom"]);
    let failure = run("/x.circom", "2.1.5", &[], &files, &|path| match path {
        "/x.circom" => {
            let mut p = parsed(&["y.circom"], Some((0, 1)));
            p.compiler_version = None;
            p
        }
        _ => {
            let mut p = parsed(&[], None);
            p.compiler_version = Some(Version::new(2, 1, 6));
            p
        }
    })
    .unwrap_err();
    assert_eq!(
        failure.diagnostics,
        vec![
            Diagnostic::MissingVersionPragma {
                path: "/x.circom".to_string(),
                actual: Version::new(2, 1, 5),
            },
            Diagnostic::VersionMismatch {
                path: "/y.circom".to_string(),
                required: Version::new(2, 1, 6),
                actual: Version::new(2, 1, 5),
            },
        ]
    );
}

#[test]
fn custom_gates_pragma_needs_the_minimum_version() {
    let files = file_map(&["/x.circom"]);
    let failure = run("/x.circom", "2.0.5", &[], &files, &|_| {
        let mut p = parsed(&[], Some((0, 1)));
        p.custom_gates = true;
        p.compiler_version = None;
        p
    })
    .unwrap_err();
    assert_eq!(
        failure.diagnostics,
        vec![
            Diagnostic::MissingVersionPragma {
                path: "/x.circom".to_string(),
                actual: Version::new(2, 0, 5),
            },
            Diagnostic::CustomGatesVersionTooLow {
                path: "/x.circom".to_string(),
                minimum: Version::new(2, 0, 6),
                effective: Version::new(2, 0, 5),
            },
        ]
    );
    let passed = run("/x.circom", "2.0.6", &[], &files, &|_| {
        let mut p = parsed(&[], Some((0, 1)));
        p.custom_gates = true;
        p.compiler_version = Some(Version::new(2, 0, 6));
        p
    });
    assert!(passed.is_ok());
    assert!(passed.unwrap().main_component.custom_gates);
}

#[test]
fn file_without_pragma_above_custom_gates_fails_with_its_chain() {
    let files = file_map(&["/main.circom", "/mid.circom", "/gates.circom"]);
    let failure = run("/main.circom", "2.1.5", &[], &files, &|path| match path {
        "/main.circom" => {
            let mut p = parsed(&["mid.circom"], Some((0, 1)));
            p.custom_gates = true;
            p
        }
        "/mid.circom" => parsed(&["gates.circom"], None),
        _ => {
            let mut p = parsed(&[], None);
            p.custom_gates = true;
            p.custom_gates_declared = true;
            p
        }
    })
    .unwrap_err();
    assert_eq!(
        failure.diagnostics,
        vec![Diagnostic::MissingCustomGatesPragma {
            chain: vec!["/gates.circom".to_string(), "/mid.circom".to_string()],
        }]
    );
    assert_eq!(failure.diagnostics[0].code(), ReportCode::CustomGatesPragmaError);
}

#[test]
fn every_chain_without_pragma_is_reported() {
    let files = file_map(&["/main.circom", "/a.circom", "/b.circom", "/gates.circom"]);
    let failure = run("/main.circom", "2.1.5", &[], &files, &|path| match path {
        "/main.circom" => {
            let mut p = parsed(&["a.circom", "b.circom"], Some((0, 1)));
            p.custom_gates = true;
            p
        }
        "/a.circom" | "/b.circom" => parsed(&["gates.circom"], None),
        _ => {
            let mut p = parsed(&[], None);
            p.custom_gates = true;
            p.custom_gates_declared = true;
            p
        }
    })
    .unwrap_err();
    // b is found last and parsed first, so its edge into gates comes first
    assert_eq!(
        failure.diagnostics,
        vec![
            Diagnostic::MissingCustomGatesPragma {
                chain: vec!["/gates.circom".to_string(), "/b.circom".to_string()],
            },
            Diagnostic::MissingCustomGatesPragma {
                chain: vec!["/gates.circom".to_string(), "/a.circom".to_string()],
            },
        ]
    );
}

#[test]
fn files_that_pull_each_other_in_are_parsed_once() {
    let files = file_map(&["/a.circom", "/b.circom"]);
    let outcome = run("/a.circom", "2.1.5", &[], &files, &|path| match path {
        "/a.circom" => parsed(&["b.circom", "b.circom"], Some((0, 1))),
        _ => parsed(&["a.circom"], None),
    })
    .unwrap();
    assert_eq!(outcome.files.len(), 2);
}

#[test]
fn depth_first_order_of_parsing() {
    let files = file_map(&["/m.circom", "/a.circom", "/b.circom", "/c.circom"]);
    let outcome = run("/m.circom", "2.1.5", &[], &files, &|path| match path {
        "/m.circom" => parsed(&["a.circom", "b.circom"], Some((0, 1))),
        "/b.circom" => parsed(&["c.circom"], None),
        _ => parsed(&[], None),
    })
    .unwrap();
    let order: Vec<&str> = outcome.files.iter().map(|f| f.path.as_str()).collect();
    assert_eq!(order, vec!["/m.circom", "/b.circom", "/c.circom", "/a.circom"]);
}

#[test]
fn report_for_several_main_components_lists_them_in_order() {
    let mains = vec![
        MainComponent { file_id: 3, start: 5, end: 9, custom_gates: false },
        MainComponent { file_id: 1, start: 0, end: 4, custom_gates: true },
        MainComponent { file_id: 2, start: 7, end: 8, custom_gates: false },
    ];
    assert_eq!(
        produce_report_with_main_components(&mains),
        Diagnostic::MultipleMainComponents {
            sites: vec![
                Location { file_id: 3, start: 5, end: 9 },
                Location { file_id: 1, start: 0, end: 4 },
                Location { file_id: 2, start: 7, end: 8 },
            ],
        }
    );
}

#[test]
fn open_file_returns_path_and_text() {
    let files = file_map(&["/a.circom"]);
    assert_eq!(
        open_file("/a.circom", &files),
        Ok(("/a.circom".to_string(), "source of /a.circom".to_string()))
    );
    assert_eq!(
        open_file("/b.circom", &files),
        Err(Diagnostic::FileNotFound { path: "/b.circom".to_string() })
    );
}

#[test]
fn find_file_takes_the_first_directory_that_has_it() {
    let files = file_map(&["/lib1/a.circom", "/lib2/a.circom"]);
    let dirs = vec!["".to_string(), "/lib1".to_string(), "/lib2".to_string()];
    assert_eq!(
        find_file("a.circom", &dirs, &files),
        Ok((
            "/lib1/a.circom".to_string(),
            "source of /lib1/a.circom".to_string(),
            "/lib1/a.circom".to_string()
        ))
    );
    assert_eq!(find_file("a.circom", &[], &files), Err(vec![]));
}
