use parser_wasm::diagnostics::Diagnostic;
use parser_wasm::file_stack::FileStack;
use parser_wasm::files::FileMap;

fn files(paths: &[&str]) -> FileMap {
    let mut map = FileMap::new();
    for p in paths {
        map.insert(p.to_string(), format!("// {}", p));
    }
    map
}

#[test]
fn entry_file_comes_first_and_only_once() {
    let mut stack = FileStack::new("/src/main.circom".to_string());
    assert_eq!(stack.take_next(), Some("/src/main.circom".to_string()));
    assert_eq!(stack.take_next(), None);
}

#[test]
fn file_pushed_twice_is_taken_once() {
    let map = files(&["/src/main.circom", "/src/a.circom"]);
    let mut stack = FileStack::new("/src/main.circom".to_string());
    assert_eq!(stack.take_next(), Some("/src/main.circom".to_string()));
    assert_eq!(stack.add_include("a.circom", &[], &map), Ok("/src/a.circom".to_string()));
    assert_eq!(stack.add_include("./a.circom", &[], &map), Ok("/src/a.circom".to_string()));
    assert_eq!(stack.take_next(), Some("/src/a.circom".to_string()));
    assert_eq!(stack.take_next(), None);
}

#[test]
fn visited_file_is_resolved_but_not_pushed_again() {
    let map = files(&["/src/main.circom", "/src/a.circom"]);
    let mut stack = FileStack::new("/src/main.circom".to_string());
    assert_eq!(stack.take_next(), Some("/src/main.circom".to_string()));
    assert_eq!(stack.add_include("a.circom", &[], &map), Ok("/src/a.circom".to_string()));
    assert_eq!(stack.take_next(), Some("/src/a.circom".to_string()));
    assert_eq!(stack.add_include("main.circom", &[], &map), Ok("/src/main.circom".to_string()));
    assert_eq!(stack.take_next(), None);
}

#[test]
fn last_found_file_is_taken_first() {
    let map = files(&["/m.circom", "/a.circom", "/b.circom"]);
    let mut stack = FileStack::new("/m.circom".to_string());
    assert_eq!(stack.take_next(), Some("/m.circom".to_string()));
    stack.add_include("a.circom", &[], &map).unwrap();
    stack.add_include("b.circom", &[], &map).unwrap();
    assert_eq!(stack.take_next(), Some("/b.circom".to_string()));
    assert_eq!(stack.take_next(), Some("/a.circom".to_string()));
    assert_eq!(stack.take_next(), None);
}

#[test]
fn first_library_wins_over_second() {
    let map = files(&["/lib1/x.circom", "/lib2/x.circom", "/src/main.circom"]);
    let libs = vec!["/lib1".to_string(), "/lib2".to_string()];
    let mut stack = FileStack::new("/src/main.circom".to_string());
    stack.take_next();
    for _ in 0..20 {
        assert_eq!(stack.add_include("x.circom", &libs, &map), Ok("/lib1/x.circom".to_string()));
    }
    let swapped = vec!["/lib2".to_string(), "/lib1".to_string()];
    assert_eq!(stack.add_include("x.circom", &swapped, &map), Ok("/lib2/x.circom".to_string()));
}

#[test]
fn current_directory_wins_over_libraries() {
    let map = files(&["/lib1/x.circom", "/src/x.circom", "/src/main.circom"]);
    let libs = vec!["/lib1".to_string()];
    let mut stack = FileStack::new("/src/main.circom".to_string());
    stack.take_next();
    assert_eq!(stack.add_include("x.circom", &libs, &map), Ok("/src/x.circom".to_string()));
}

#[test]
fn names_resolve_against_the_file_taken_last() {
    let map = files(&["/src/main.circom", "/src/sub/a.circom", "/src/sub/b.circom", "/src/b.circom"]);
    let mut stack = FileStack::new("/src/main.circom".to_string());
    stack.take_next();
    assert_eq!(stack.add_include("sub/a.circom", &[], &map), Ok("/src/sub/a.circom".to_string()));
    assert_eq!(stack.take_next(), Some("/src/sub/a.circom".to_string()));
    assert_eq!(stack.add_include("b.circom", &[], &map), Ok("/src/sub/b.circom".to_string()));
    assert_eq!(stack.add_include("../b.circom", &[], &map), Ok("/src/b.circom".to_string()));
}

#[test]
fn before_the_first_take_names_resolve_against_the_entry_directory() {
    let map = files(&["/src/a.circom"]);
    let mut stack = FileStack::new("/src/main.circom".to_string());
    assert_eq!(stack.add_include("a.circom", &[], &map), Ok("/src/a.circom".to_string()));
}

#[test]
fn unknown_name_is_reported_and_changes_nothing() {
    let map = files(&["/src/main.circom"]);
    let libs = vec!["/lib".to_string()];
    let mut stack = FileStack::new("/src/main.circom".to_string());
    stack.take_next();
    assert_eq!(
        stack.add_include("nowhere.circom", &libs, &map),
        Err(Diagnostic::IncludeNotFound { name: "nowhere.circom".to_string() })
    );
    assert_eq!(stack.take_next(), None);
}

#[test]
fn absolute_name_ignores_the_directories() {
    let map = files(&["/abs/x.circom"]);
    let libs = vec!["/lib".to_string()];
    let mut stack = FileStack::new("/src/main.circom".to_string());
    stack.take_next();
    assert_eq!(stack.add_include("/abs/./x.circom", &libs, &map), Ok("/abs/x.circom".to_string()));
}
