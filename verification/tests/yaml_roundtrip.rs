use rust_todo::doc::Doc;
use rust_todo::todo_list::{ToDoItem, ToDoList};
use rust_yaml::{Value, Yaml};

/// A document rendered as a YAML value, as a caller persisting a
/// collection would render it.
fn doc_to_value(d: &Doc) -> Value {
    match d {
        Doc::Text(s) => Value::String(s.clone()),
        Doc::Mapping(es) => Value::mapping_with(
            es.iter()
                .map(|(k, v)| (Value::String(k.clone()), doc_to_value(v)))
                .collect(),
        ),
    }
}

/// A YAML value read back as a document; scalars other than strings and
/// non-string keys do not occur in the stored schema and read as empty
/// text.
fn value_to_doc(v: &Value) -> Doc {
    match v {
        Value::String(s) => Doc::Text(s.clone()),
        Value::Mapping(m) => Doc::Mapping(
            m.iter()
                .map(|(k, v)| {
                    let key = match k {
                        Value::String(s) => s.clone(),
                        other => format!("{:?}", other),
                    };
                    (key, value_to_doc(v))
                })
                .collect(),
        ),
        _ => Doc::Text(String::new()),
    }
}

fn shader_item() -> ToDoItem {
    ToDoItem::new(
        "Shader",
        vec![
            ("unity_path", "Assets/Shaders/Example.shader"),
            ("godot_path", "res://shaders/example.gdshader"),
            ("instruction", "translate"),
        ],
    )
}

#[test]
fn test_todolist_save_and_load() {
    let mut list = ToDoList::new();

    let item1 = shader_item();
    let item2 = ToDoItem::new(
        "Prefab",
        vec![
            ("unity_path", "Assets/Prefabs/Player.prefab"),
            ("godot_path", "res://scenes/Player.tscn"),
        ],
    );

    list.insert("guid1", item1);
    list.insert("guid2", item2);

    let text = Yaml::new()
        .dump_str(&doc_to_value(&list.to_yaml()))
        .expect("Failed to save file");
    let value = Yaml::new().load_str(&text).expect("Failed to load file");
    let loaded = ToDoList::from_yaml(&value_to_doc(&value));

    // Check that keys and counts match
    assert_eq!(list.len(), loaded.len());
    assert!(loaded.contains("guid1"));
    assert!(loaded.contains("guid2"));

    // Check some representative field values
    let shader = &loaded.items.iter().find(|(g, _)| g == "guid1").unwrap().1;
    assert_eq!(shader.get("godot_path"), Some("res://shaders/example.gdshader"));

    let prefab = &loaded.items.iter().find(|(g, _)| g == "guid2").unwrap().1;
    assert_eq!(prefab.get("unity_path"), Some("Assets/Prefabs/Player.prefab"));
}

#[test]
fn test_single_shader_round_trip_exact_path() {
    let mut list = ToDoList::new();
    list.insert("guid1", shader_item());

    let text = Yaml::new()
        .dump_str(&doc_to_value(&list.to_yaml()))
        .expect("Failed to save file");
    let value = Yaml::new().load_str(&text).expect("Failed to load file");
    let loaded = ToDoList::from_yaml(&value_to_doc(&value));

    let shader = &loaded.items.iter().find(|(g, _)| g == "guid1").unwrap().1;
    assert_eq!(shader.get("godot_path"), Some("res://shaders/example.gdshader"));
}

#[test]
fn test_document_round_trip_preserves_every_field() {
    let mut list = ToDoList::new();
    let mut item = shader_item();
    // An extra field outside the recognised set survives verbatim.
    item.set_field("custom_note", "keep me");
    list.insert("guid1", item);

    let reloaded = ToDoList::from_yaml(&list.to_yaml());
    assert_eq!(reloaded.len(), 1);
    let fields: Vec<_> = list.items[0].1.fields.clone();
    let reloaded_fields: Vec<_> = reloaded.items[0].1.fields.clone();
    assert_eq!(fields, reloaded_fields);
    assert_eq!(reloaded.items[0].1.get("custom_note"), Some("keep me"));
}

#[test]
fn test_parse_drops_record_missing_required_key() {
    // A Shader record without `instruction` fails to parse and is dropped.
    let record = Doc::Mapping(vec![
        ("type".to_string(), Doc::Text("Shader".to_string())),
        ("unity_path".to_string(), Doc::Text("u".to_string())),
        ("godot_path".to_string(), Doc::Text("g".to_string())),
    ]);
    assert!(ToDoItem::from_yaml(&record).is_none());

    let inner = vec![("guid1".to_string(), record)];
    let root = Doc::Mapping(vec![(
        "todo_list".to_string(),
        Doc::Mapping(inner),
    )]);
    let loaded = ToDoList::from_yaml(&root);
    assert_eq!(loaded.len(), 0);
}

#[test]
fn test_parse_drops_record_missing_type() {
    let record = Doc::Mapping(vec![
        ("unity_path".to_string(), Doc::Text("u".to_string())),
        ("godot_path".to_string(), Doc::Text("g".to_string())),
    ]);
    assert!(ToDoItem::from_yaml(&record).is_none());
}

#[test]
fn test_parse_accepts_complete_record() {
    let record = Doc::Mapping(vec![
        ("type".to_string(), Doc::Text("Prefab".to_string())),
        ("unity_path".to_string(), Doc::Text("u".to_string())),
        ("godot_path".to_string(), Doc::Text("g".to_string())),
    ]);
    let item = ToDoItem::from_yaml(&record).expect("complete record should parse");
    assert_eq!(item.kind(), Some("Prefab"));
    assert_eq!(item.get("unity_path"), Some("u"));
    // Parsing stores the document as it stands: no defaults are added.
    assert_eq!(item.status(), None);

    // A record of an unrecognised kind requires nothing beyond `type`.
    let odd = Doc::Mapping(vec![("type".to_string(), Doc::Text("Texture".to_string()))]);
    assert!(ToDoItem::from_yaml(&odd).is_some());
}

#[test]
fn test_load_without_todo_list_key_yields_empty_collection() {
    let root = Doc::Mapping(vec![(
        "something_else".to_string(),
        Doc::Text("x".to_string()),
    )]);
    assert_eq!(ToDoList::from_yaml(&root).len(), 0);

    // A non-mapping document yields an empty collection too.
    assert_eq!(ToDoList::from_yaml(&Doc::Text("oops".to_string())).len(), 0);
}
