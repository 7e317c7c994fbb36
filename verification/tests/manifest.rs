use metacat::manifest::{manifest_entries, resolve_manifest_path, Json};

fn from(value: serde_json::Value) -> Json {
    match value {
        serde_json::Value::Null => Json::Null,
        serde_json::Value::Bool(b) => Json::Bool(b),
        serde_json::Value::Number(_) => Json::Number,
        serde_json::Value::String(s) => Json::String(s),
        serde_json::Value::Array(items) => Json::Array(items.into_iter().map(from).collect()),
        serde_json::Value::Object(fields) => Json::Object(fields.into_iter().map(|(k, v)| (k, from(v))).collect()),
    }
}

fn json(text: &str) -> Json {
    from(serde_json::from_str(text).unwrap())
}

fn pairs(root: &str, text: &str) -> Result<Vec<(String, String)>, String> {
    manifest_entries(root, &json(text)).map(|v| v.into_iter().map(|e| (e.root, e.pattern)).collect())
}

#[test]
fn files_are_relative_to_the_manifest_folder() {
    assert_eq!(
        pairs("/p", r#"{"files":["base.hex", 3, "src/*.hex"]}"#).unwrap(),
        vec![("/p".to_string(), "base.hex".to_string()), ("/p".to_string(), "src/*.hex".to_string())]
    );
}

#[test]
fn includes_are_relative_to_their_folder() {
    let text = r#"{
  "files": ["src/current.hex"],
  "include": [
    { "folder": "../shared", "files": ["stdlib/**/*.hex"] },
    { "folder": "/abs", "files": ["a.hex"] },
    { "files": ["ignored.hex"] },
    { "folder": 1, "files": ["ignored.hex"] }
  ]
}"#;
    assert_eq!(
        pairs("/root/project", text).unwrap(),
        vec![
            ("/root/project".to_string(), "src/current.hex".to_string()),
            ("/root/project/../shared".to_string(), "stdlib/**/*.hex".to_string()),
            ("/abs".to_string(), "a.hex".to_string()),
        ]
    );
}

#[test]
fn a_manifest_without_entries_is_an_error() {
    assert_eq!(pairs("/p", r#"{"files": []}"#).unwrap_err(), "metacat.json must contain files or include entries");
    assert!(pairs("/p", "[1, 2]").is_err());
    assert!(pairs("/p", r#"{"include": [{"folder": "x"}]}"#).is_err());
}

#[test]
fn manifest_paths_join_like_paths() {
    assert_eq!(resolve_manifest_path("/a", "b/c"), "/a/b/c");
    assert_eq!(resolve_manifest_path("/a/", "b"), "/a/b");
    assert_eq!(resolve_manifest_path("", "b"), "b");
    assert_eq!(resolve_manifest_path("/a", "/b"), "/b");
}
