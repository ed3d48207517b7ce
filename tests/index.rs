use ignore::index::unmatched_templates;
use ignore::{
    ignore_file, is_hidden, parse_templates, remove_filetype, ErrorKind, ScanEntry, ScanStep,
    TemplatePaths, TemplateScan,
};

fn file(dir: &str, name: &str) -> ScanEntry {
    ScanEntry { name: name.to_string(), path: format!("{}/{}", dir, name), is_dir: false }
}

fn dir(parent: &str, name: &str) -> ScanEntry {
    ScanEntry { name: name.to_string(), path: format!("{}/{}", parent, name), is_dir: true }
}

fn listing(path: &str) -> Vec<ScanEntry> {
    match path {
        "/r1" => vec![
            file("/r1", "C.gitignore"),
            file("/r1", "README.md"),
            file("/r1", "LICENSE"),
            dir("/r1", ".git"),
            dir("/r1", "Global"),
            file("/r1", "Rust.gitignore"),
        ],
        "/r1/.git" => vec![file("/r1/.git", "HEAD")],
        "/r1/Global" => vec![file("/r1/Global", "Vim.gitignore"), file("/r1/Global", ".hidden")],
        "/r2" => vec![file("/r2", "C.gitignore"), file("/r2", "Makefile")],
        _ => vec![],
    }
}

fn walk(roots: &[&str]) -> (TemplatePaths, Vec<String>) {
    let mut scan = TemplateScan::new();
    let mut asked = Vec::new();
    for root in roots {
        scan.add_listing(listing(root));
        loop {
            match scan.next_step() {
                ScanStep::ReadDir(path) => {
                    asked.push(path.clone());
                    scan.add_listing(listing(&path));
                }
                ScanStep::Finished => break,
            }
        }
    }
    (scan.into_index(), asked)
}

fn names(index: &TemplatePaths) -> Vec<String> {
    index.entries().iter().map(|e| e.name.clone()).collect()
}

#[test]
fn remove_filetype_strips_last_extension() {
    assert_eq!(remove_filetype("C.gitignore"), "C");
    assert_eq!(remove_filetype("archive.tar.gz"), "archive.tar");
    assert_eq!(remove_filetype("Makefile"), "Makefile");
    assert_eq!(remove_filetype(".bashrc"), ".bashrc");
    assert_eq!(remove_filetype("trailing."), "trailing");
}

#[test]
fn exclusion_rules() {
    assert!(ignore_file("README.md"));
    assert!(ignore_file("LICENSE"));
    assert!(ignore_file("LICENSE-MIT.txt"));
    assert!(ignore_file(".git"));
    assert!(is_hidden(".github"));
    assert!(!is_hidden("Go.gitignore"));
    assert!(!ignore_file("Go.gitignore"));
    assert!(!ignore_file("cmd"));
    assert!(!ignore_file("License.gitignore"));
}

#[test]
fn walk_indexes_files_under_their_template_names() {
    let (index, asked) = walk(&["/r1", "/r2"]);
    assert_eq!(asked, vec!["/r1/Global".to_string()]);
    assert_eq!(names(&index), vec!["C", "Vim", "Rust", "Makefile"]);
    assert_eq!(
        index.get(&"C".to_string()).unwrap(),
        &vec!["/r1/C.gitignore".to_string(), "/r2/C.gitignore".to_string()]
    );
    assert_eq!(index.get(&"Vim".to_string()).unwrap(), &vec!["/r1/Global/Vim.gitignore".to_string()]);
}

#[test]
fn walk_never_lists_excluded_entries() {
    let (index, _) = walk(&["/r1", "/r2"]);
    for entry in index.entries() {
        for path in &entry.paths {
            assert!(!path.ends_with(".md"));
            assert!(!path.contains("LICENSE"));
            assert!(!path.contains("/."));
        }
    }
    assert!(index.get(&"README".to_string()).is_none());
    assert!(index.get(&"HEAD".to_string()).is_none());
}

#[test]
fn walking_twice_gives_the_same_index() {
    let (first, _) = walk(&["/r1", "/r2"]);
    let (second, _) = walk(&["/r1", "/r2"]);
    assert_eq!(first.len(), second.len());
    for (a, b) in first.entries().iter().zip(second.entries().iter()) {
        assert_eq!(a.name, b.name);
        assert_eq!(a.paths, b.paths);
    }
}

#[test]
fn push_path_appends_or_creates() {
    let mut index = TemplatePaths::new();
    assert!(index.is_empty());
    index.push_path("Go".to_string(), "/a/Go.gitignore".to_string());
    index.push_path("C".to_string(), "/a/C.gitignore".to_string());
    index.push_path("Go".to_string(), "/b/Go.gitignore".to_string());
    assert_eq!(index.len(), 2);
    assert_eq!(index.find(&"C".to_string()), Some(1));
    assert_eq!(index.find(&"go".to_string()), None);
    assert_eq!(
        index.get(&"Go".to_string()).unwrap(),
        &vec!["/a/Go.gitignore".to_string(), "/b/Go.gitignore".to_string()]
    );
}

fn python_index() -> TemplatePaths {
    let mut index = TemplatePaths::new();
    index.push_path("Python".to_string(), "/r/Python.gitignore".to_string());
    index.push_path("Rust".to_string(), "/r/Rust.gitignore".to_string());
    index
}

#[test]
fn selecting_keeps_found_names_in_request_order() {
    let index = python_index();
    let requested = vec!["Rust".to_string(), "DoesNotExist".to_string(), "Python".to_string(), "Rust".to_string()];
    let selected = parse_templates(&index, &requested).unwrap();
    assert_eq!(names(&selected), vec!["Rust", "Python"]);
    assert_eq!(unmatched_templates(&index, &requested), vec!["DoesNotExist".to_string()]);
}

#[test]
fn selecting_only_missing_names_fails_with_the_request() {
    let index = python_index();
    let requested = vec!["DoesNotExist".to_string()];
    let err = parse_templates(&index, &requested).unwrap_err();
    assert_eq!(*err.kind(), ErrorKind::MissingTemplates);
    assert_eq!(err.templates(), &requested);
}

#[test]
fn selection_is_case_sensitive() {
    let index = python_index();
    let err = parse_templates(&index, &vec!["python".to_string()]).unwrap_err();
    assert_eq!(*err.kind(), ErrorKind::MissingTemplates);
}

#[test]
fn listings_are_walked_in_name_order() {
    let sorted = ignore::index::sort_listing(vec![file("/d", "b"), file("/d", "B"), dir("/d", "a.txt"), file("/d", ".x")]);
    let order: Vec<String> = sorted.iter().map(|e| e.name.clone()).collect();
    assert_eq!(order, vec![".x", "B", "a.txt", "b"]);
}

#[test]
fn listing_order_does_not_change_the_index() {
    let mut scan = TemplateScan::new();
    scan.add_listing(vec![file("/r", "Zig.gitignore"), file("/r", "Ada.gitignore"), dir("/r", "sub")]);
    assert_eq!(scan.next_step(), ScanStep::ReadDir("/r/sub".to_string()));
    scan.add_listing(vec![file("/r/sub", "Ada.gitignore")]);
    assert_eq!(scan.next_step(), ScanStep::Finished);
    let index = scan.into_index();
    assert_eq!(names(&index), vec!["Ada", "Zig"]);
    assert_eq!(
        index.get(&"Ada".to_string()).unwrap(),
        &vec!["/r/Ada.gitignore".to_string(), "/r/sub/Ada.gitignore".to_string()]
    );

    let mut shuffled = TemplateScan::new();
    shuffled.add_listing(vec![dir("/r", "sub"), file("/r", "Ada.gitignore"), file("/r", "Zig.gitignore")]);
    assert_eq!(shuffled.next_step(), ScanStep::ReadDir("/r/sub".to_string()));
    shuffled.add_listing(vec![file("/r/sub", "Ada.gitignore")]);
    assert_eq!(shuffled.next_step(), ScanStep::Finished);
    let again = shuffled.into_index();
    assert_eq!(names(&again), names(&index));
    assert_eq!(again.get(&"Ada".to_string()), index.get(&"Ada".to_string()));
}
