use rust_todo::todo_list::ToDoItem;

#[test]
fn test_todoitem_missing_required_fields() {
    let kinds = ["Shader", "Material", "Prefab", "Animation", "Script", "Other"];

    for kind in kinds {
        let required = ToDoItem::required_keys(kind);
        assert!(!required.is_empty(), "Expected required keys for {}", kind);

        // omit last required key -> should be invalid
        let incomplete_fields: Vec<_> = required[..required.len() - 1]
            .iter()
            .map(|&k| (k, "dummy"))
            .collect();

        let item = ToDoItem::new(kind, incomplete_fields.clone());

        // simulate validation check
        let is_complete = required.iter().all(|&k| item.get(k).is_some());

        assert!(
            !is_complete,
            "Item for kind '{}' should be invalid when missing fields: {:?}",
            kind,
            incomplete_fields
        );
    }
}

#[test]
fn test_todoitem_complete_required_fields() {
    let kinds = ["Shader", "Material", "Prefab", "Animation", "Script", "Other"];

    for kind in kinds {
        let required = ToDoItem::required_keys(kind);
        let fields: Vec<_> = required.iter().map(|&k| (k, "ok")).collect();
        let item = ToDoItem::new(kind, fields.clone());

        for (k, _) in fields {
            assert!(
                item.get(k).is_some(),
                "Expected key '{}' in ToDoItem of kind '{}'",
                k,
                kind
            );
        }

        // also check defaults are present
        for k in ["status", "reason", "info"] {
            assert!(
                item.get(k).is_some(),
                "Expected default field '{}' in ToDoItem",
                k
            );
        }
    }
}

#[test]
fn test_required_keys_for_all_known_kinds() {
    let kinds = ["Shader", "Material", "Prefab", "Animation", "Script", "Other", "Unknown"];

    for kind in kinds {
        let keys = ToDoItem::required_keys(kind);
        match kind {
            "Shader" | "Material" => {
                assert_eq!(keys, vec!["unity_path", "godot_path", "instruction"])
            }
            "Prefab" | "Animation" | "Script" | "Other" => {
                assert_eq!(keys, vec!["unity_path", "godot_path"])
            }
            _ => assert!(keys.is_empty(), "Unknown kind '{}' should have no required keys", kind),
        }
    }
}

#[test]
fn test_construct_fills_defaults_without_overwriting() {
    let item = ToDoItem::new(
        "Shader",
        vec![
            ("unity_path", "a"),
            ("godot_path", "b"),
            ("instruction", "c"),
            ("status", "Done"),
        ],
    );
    assert_eq!(item.get("status"), Some("Done"));
    assert_eq!(item.get("reason"), Some("New conversion task"));
    assert_eq!(item.get("info"), Some(""));
    assert_eq!(item.kind(), Some("Shader"));
}

#[test]
fn test_status_transitions_overwrite_freely() {
    let mut item = ToDoItem::new("Other", vec![("unity_path", "u"), ("godot_path", "g")]);
    assert_eq!(item.status(), Some("Open"));
    item.mark_done();
    assert_eq!(item.status(), Some("Done"));
    item.mark_failed();
    assert_eq!(item.status(), Some("Failed"));
    item.reopen();
    assert_eq!(item.status(), Some("Open"));
    item.set_status("Whatever");
    assert_eq!(item.status(), Some("Whatever"));
    item.set_info("note");
    assert_eq!(item.get("info"), Some("note"));
}

#[test]
fn test_render_line() {
    let item = ToDoItem::new(
        "Shader",
        vec![("unity_path", "u"), ("godot_path", "res://x.gdshader"), ("instruction", "t")],
    );
    assert_eq!(item.render(), "[Shader] → res://x.gdshader (Open)");

    let bare = ToDoItem { fields: Vec::new() };
    assert_eq!(bare.render(), "[Unknown] → <no path> (unprocessed)");
}
