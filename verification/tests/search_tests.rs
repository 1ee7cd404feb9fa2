use rust_todo::search::{run_search, StatusFilter};
use rust_todo::todo_list::{ToDoItem, ToDoList};

fn sample_list() -> ToDoList {
    let mut list = ToDoList::new();
    let mut shader = ToDoItem::new(
        "Shader",
        vec![
            ("unity_path", "Assets/Shaders/Example.shader"),
            ("godot_path", "res://shaders/example.gdshader"),
            ("instruction", "translate"),
        ],
    );
    shader.mark_failed();
    let prefab = ToDoItem::new(
        "Prefab",
        vec![
            ("unity_path", "Assets/Prefabs/Player.prefab"),
            ("godot_path", "res://scenes/Player.tscn"),
        ],
    );
    list.insert("guid1", shader);
    list.insert("guid2", prefab);
    list
}

#[test]
fn test_custom_filter_substring() {
    // `Custom("ail")` matches "Failed" by substring, but not "Open".
    let filter = StatusFilter::Custom("ail".to_string());
    assert!(filter.matches("Failed"));
    assert!(!filter.matches("Open"));
}

#[test]
fn test_builtin_filters_ignore_ascii_case() {
    assert!(StatusFilter::Open.matches("open"));
    assert!(StatusFilter::Done.matches("DONE"));
    assert!(StatusFilter::Failed.matches("fAiLeD"));
    assert!(!StatusFilter::Open.matches("Opened"));
    assert!(StatusFilter::All.matches("anything"));
    // The custom filter is case-sensitive.
    assert!(!StatusFilter::Custom("AIL".to_string()).matches("Failed"));
}

#[test]
fn test_filter_labels() {
    assert_eq!(StatusFilter::All.label(), "All");
    assert_eq!(StatusFilter::Custom("ail".to_string()).label(), "Custom(ail)");
}

#[test]
fn test_search_empty_query_applies_status_filter_alone() {
    let list = sample_list();
    let (results, err) = run_search(&list, &StatusFilter::All, "", false);
    assert!(err.is_none());
    assert_eq!(results.len(), 2);

    let (results, err) = run_search(&list, &StatusFilter::Failed, "", false);
    assert!(err.is_none());
    assert_eq!(results.len(), 1);
    assert_eq!(results[0].0, "guid1");
}

#[test]
fn test_search_plain_query_is_case_insensitive() {
    let list = sample_list();
    // The record text says "Example"; a query in upper case still matches,
    // through case folding of both sides.
    let (results, err) = run_search(&list, &StatusFilter::All, "EXAMPLE.SHADER", false);
    assert!(err.is_none());
    assert_eq!(results.len(), 1);
    assert_eq!(results[0].0, "guid1");
}

#[test]
fn test_search_matches_guid_and_fields() {
    let list = sample_list();
    let (results, err) = run_search(&list, &StatusFilter::All, "guid2", false);
    assert!(err.is_none());
    assert_eq!(results.len(), 1);
    assert_eq!(results[0].1.get("unity_path"), Some("Assets/Prefabs/Player.prefab"));

    // The haystack also holds the field dump, so a field only the dump
    // carries is still matchable.
    let (results, err) = run_search(&list, &StatusFilter::All, "translate", false);
    assert!(err.is_none());
    assert_eq!(results.len(), 1);
}

#[test]
fn test_search_regex_query() {
    let list = sample_list();
    // A pattern that no literal substring of the query could stand for.
    let (results, err) = run_search(&list, &StatusFilter::All, r"Pl.y.r\.prefab", true);
    assert!(err.is_none());
    assert_eq!(results.len(), 1);
    assert_eq!(results[0].0, "guid2");

    // Regex queries are case-sensitive: the same letters in upper case
    // match nothing.
    let (results, err) = run_search(&list, &StatusFilter::All, "PLAYER", true);
    assert!(err.is_none());
    assert_eq!(results.len(), 0);
}

#[test]
fn test_search_invalid_regex_reports_error_and_clears_results() {
    let list = sample_list();
    // An unbalanced bracket does not compile: no results at all, and the
    // compiler's message is surfaced, even though the status filter alone
    // would have matched records.
    let (results, err) = run_search(&list, &StatusFilter::All, "[abc", true);
    assert!(err.is_some());
    assert_eq!(results.len(), 0);
}

#[test]
fn test_snapshot_is_independent_of_collection() {
    let mut list = sample_list();
    let (results, err) = run_search(&list, &StatusFilter::All, "", false);
    assert!(err.is_none());
    // Mutating the collection afterwards leaves the snapshot as it was.
    list.update_status("guid1", "Done", "checked");
    let snapshot_status: Vec<_> = results
        .iter()
        .filter(|(g, _)| g == "guid1")
        .map(|(_, item)| item.status().unwrap().to_string())
        .collect();
    assert_eq!(snapshot_status, vec!["Failed".to_string()]);
}

#[test]
fn test_update_status_missing_guid_is_noop() {
    let mut list = sample_list();
    let before: Vec<_> = list
        .items
        .iter()
        .map(|(g, item)| (g.clone(), item.fields.clone()))
        .collect();
    list.update_status("missing-guid", "Done", "x");
    let after: Vec<_> = list
        .items
        .iter()
        .map(|(g, item)| (g.clone(), item.fields.clone()))
        .collect();
    assert_eq!(before, after);
}

#[test]
fn test_update_status_and_mark_done() {
    let mut list = sample_list();
    list.update_status("guid2", "Failed", "broken import");
    let prefab = &list.items.iter().find(|(g, _)| g == "guid2").unwrap().1;
    assert_eq!(prefab.status(), Some("Failed"));
    assert_eq!(prefab.get("info"), Some("broken import"));

    list.mark_done("guid2");
    let prefab = &list.items.iter().find(|(g, _)| g == "guid2").unwrap().1;
    assert_eq!(prefab.status(), Some("Done"));
    assert_eq!(prefab.get("info"), Some("✅ Conversion verified in Godot"));
}

#[test]
fn test_insert_replaces_under_same_guid() {
    let mut list = sample_list();
    let replacement = ToDoItem::new("Script", vec![("unity_path", "s.cs"), ("godot_path", "s.gd")]);
    list.insert("guid1", replacement);
    assert_eq!(list.len(), 2);
    assert!(list.contains("guid1"));
    let item = &list.items.iter().find(|(g, _)| g == "guid1").unwrap().1;
    assert_eq!(item.kind(), Some("Script"));
    assert!(!list.contains("guid3"));
}
