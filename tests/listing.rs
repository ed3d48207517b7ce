use ignore::listing::{format_template_list, list_templates, sort_template_names};
use ignore::TemplatePaths;

fn strings(names: &[&str]) -> Vec<String> {
    names.iter().map(|n| n.to_string()).collect()
}

#[test]
fn sorts_without_regard_to_case() {
    assert_eq!(sort_template_names(&strings(&["a", "B"])), strings(&["a", "B"]));
    assert_eq!(
        sort_template_names(&strings(&["Rust", "c", "Go", "C", "actionscript"])),
        strings(&["actionscript", "C", "c", "Go", "Rust"])
    );
    assert!(sort_template_names(&Vec::new()).is_empty());
}

#[test]
fn lays_out_padded_columns() {
    assert_eq!(format_template_list(&strings(&["C", "c", "Go", "Rust"])), "C    c    Go   Rust ");
    assert_eq!(format_template_list(&Vec::new()), "");
}

#[test]
fn wraps_at_the_listing_width() {
    let names: Vec<String> = (0..25).map(|i| format!("n{:03}", i)).collect();
    let out = format_template_list(&names);
    let lines: Vec<&str> = out.split('\n').collect();
    assert_eq!(lines.len(), 2);
    assert_eq!(lines[0].len(), 100);
    assert_eq!(lines[1], "n020 n021 n022 n023 n024 ");
}

#[test]
fn lists_index_names() {
    let mut index = TemplatePaths::new();
    index.push_path("Rust".to_string(), "/r/Rust.gitignore".to_string());
    index.push_path("c".to_string(), "/r/c.gitignore".to_string());
    index.push_path("Go".to_string(), "/r/Go.gitignore".to_string());
    assert_eq!(list_templates(&index), "c    Go   Rust ");
}
