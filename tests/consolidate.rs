use ignore::consolidate::{candidate_lines, dedup_bodies, merge_lines};
use ignore::{
    concatenate_templates, dedup_templates, parse_templates, ErrorKind, LoadedTemplate, ScanEntry,
    ScanStep, TemplatePaths, TemplateScan,
};

fn load(name: &str, bodies: &[&str]) -> LoadedTemplate {
    LoadedTemplate { name: name.to_string(), bodies: bodies.iter().map(|b| b.to_string()).collect() }
}

#[test]
fn merge_keeps_new_rules_only() {
    let out = dedup_templates("Logs", &vec!["*.log\n".to_string(), "*.log\ntmp/\n# comment\n".to_string()]).unwrap();
    assert_eq!(out, "*.log\n\n# Logs supplementary content\n# ****\ntmp/\n# ****\n");
    assert!(out.contains("tmp/"));
    assert!(!out.contains("# comment"));
}

#[test]
fn merge_without_new_rules_keeps_primary() {
    let out = dedup_templates("X", &vec!["*.o\nbuild/\n".to_string(), "  build/  \nplain\n# note\n".to_string()]).unwrap();
    assert_eq!(out, "*.o\nbuild/\n");
}

#[test]
fn merge_does_not_repeat_added_rules() {
    let out = dedup_templates(
        "T",
        &vec!["a\n".to_string(), "*.x\r\n!keep\n".to_string(), "*.x\n  /out \n".to_string()],
    )
    .unwrap();
    assert_eq!(out, "a\n\n# T supplementary content\n# ****\n*.x\n!keep\n/out\n# ****\n");
}

#[test]
fn candidate_lines_are_trimmed() {
    let c = candidate_lines(&["  a \n\tb\n\nc".to_string(), "d\n".to_string()]);
    assert_eq!(c, vec!["a", "b", "", "c", "d"]);
}

#[test]
fn merge_lines_follows_flags() {
    let cands = vec!["*.a".to_string(), "b/".to_string(), "*.a".to_string(), "x".to_string(), "b".to_string()];
    let keep = vec![true, true, true, false, true];
    assert_eq!(merge_lines("*.c\n", &cands, &keep), vec!["*.a".to_string(), "b/".to_string()]);
    assert_eq!(merge_lines("*.a\n", &cands, &vec![true; 5]), vec!["b/".to_string(), "x".to_string()]);
}

#[test]
fn dedup_bodies_keeps_first_occurrences() {
    let bodies = vec!["b".to_string(), "a".to_string(), "b".to_string(), "c".to_string(), "a".to_string()];
    assert_eq!(dedup_bodies(&bodies), vec!["b".to_string(), "a".to_string(), "c".to_string()]);
}

#[test]
fn identical_bodies_appear_once() {
    let doc = concatenate_templates(&vec!["Go".to_string()], &vec![load("Go", &["*.exe\n", "*.exe\n"])]).unwrap();
    assert_eq!(doc, "#\n# .gitignore\n#\n\n# Templates used: Go\n\n# Go\n# ----\n*.exe\n# ----\n");
    assert!(!doc.contains("supplementary"));
}

#[test]
fn unreadable_templates_are_left_out() {
    let templates = vec![load("A", &[]), load("B", &["b/\n"])];
    let doc = concatenate_templates(&vec!["A".to_string(), "B".to_string()], &templates).unwrap();
    assert_eq!(doc, "#\n# .gitignore\n#\n\n# Templates used: B\n\n# B\n# ----\nb/\n# ----\n");
}

#[test]
fn no_usable_template_is_missing_templates() {
    let requested = vec!["A".to_string()];
    let err = concatenate_templates(&requested, &vec![load("A", &[])]).unwrap_err();
    assert_eq!(*err.kind(), ErrorKind::MissingTemplates);
    assert_eq!(err.templates(), &requested);
    let err = concatenate_templates(&requested, &vec![]).unwrap_err();
    assert_eq!(*err.kind(), ErrorKind::MissingTemplates);
}

fn python_index() -> TemplatePaths {
    let mut index = TemplatePaths::new();
    index.push_path("Python".to_string(), "/r/Python.gitignore".to_string());
    index
}

fn load_selected(selected: &TemplatePaths, read: &dyn Fn(&str) -> Option<String>) -> Vec<LoadedTemplate> {
    selected
        .entries()
        .iter()
        .map(|e| LoadedTemplate {
            name: e.name.clone(),
            bodies: e.paths.iter().filter_map(|p| read(p)).collect(),
        })
        .collect()
}

#[test]
fn partly_found_request_yields_only_found_blocks() {
    let requested = vec!["Python".to_string(), "DoesNotExist".to_string()];
    let selected = parse_templates(&python_index(), &requested).unwrap();
    let loaded = load_selected(&selected, &|_| Some("__pycache__/\n".to_string()));
    let doc = concatenate_templates(&requested, &loaded).unwrap();
    assert_eq!(doc, "#\n# .gitignore\n#\n\n# Templates used: Python\n\n# Python\n# ----\n__pycache__/\n# ----\n");
    assert!(!doc.contains("DoesNotExist"));
}

#[test]
fn only_missing_request_names_the_request() {
    let requested = vec!["DoesNotExist".to_string()];
    let err = parse_templates(&python_index(), &requested).unwrap_err();
    assert_eq!(*err.kind(), ErrorKind::MissingTemplates);
    assert_eq!(err.templates(), &vec!["DoesNotExist".to_string()]);
}

#[test]
fn two_repositories_end_to_end() {
    let mut scan = TemplateScan::new();
    for root in ["/one", "/two"] {
        scan.add_listing(vec![ScanEntry {
            name: "C.gitignore".to_string(),
            path: format!("{}/C.gitignore", root),
            is_dir: false,
        }]);
        assert_eq!(scan.next_step(), ScanStep::Finished);
    }
    let index = scan.into_index();
    let requested = vec!["C".to_string()];
    let selected = parse_templates(&index, &requested).unwrap();
    let loaded = load_selected(&selected, &|p| match p {
        "/one/C.gitignore" => Some("*.o\n".to_string()),
        "/two/C.gitignore" => Some("*.o\n*.obj\n".to_string()),
        _ => None,
    });
    let doc = concatenate_templates(&requested, &loaded).unwrap();
    assert_eq!(
        doc,
        "#\n# .gitignore\n#\n\n# Templates used: C\n\n# C\n# ----\n*.o\n\n# C supplementary content\n# ****\n*.obj\n# ****\n# ----\n"
    );
}
