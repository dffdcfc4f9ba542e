use xeno_mcp::json::{JsonField, JsonValue};
use xeno_mcp::manifest::{assemble_manifest, order_newest_first, GameManifest, ScanCompleteRequest, Timestamp};
use xeno_mcp::hash::compute_tree_hash;
use xeno_mcp::store::{
    append_items, place_dir, place_file, scope_file, script_records, ScanError, ScopeKind,
    WriteMode,
};

fn text(s: &str) -> JsonValue {
    JsonValue::Str(s.to_string())
}

fn obj(fields: Vec<(&str, JsonValue)>) -> JsonValue {
    JsonValue::Object(
        fields.into_iter().map(|(k, v)| JsonField { key: k.to_string(), value: v }).collect(),
    )
}

fn num(s: &str) -> JsonValue {
    JsonValue::Number(s.to_string())
}

#[test]
fn appending_two_arrays_keeps_submission_order() {
    let a = JsonValue::Array(vec![text("a1"), text("a2")]);
    let b = JsonValue::Array(vec![text("b1")]);
    let first = append_items(None, &a);
    let second = append_items(Some(first), &b);
    assert_eq!(second, JsonValue::Array(vec![text("a1"), text("a2"), text("b1")]));
}

#[test]
fn appending_a_single_value_pushes_it() {
    let stored = JsonValue::Array(vec![text("x")]);
    let out = append_items(Some(stored), &text("y"));
    assert_eq!(out, JsonValue::Array(vec![text("x"), text("y")]));
}

#[test]
fn unreadable_or_non_array_store_counts_as_empty() {
    let out = append_items(Some(obj(vec![("k", text("v"))])), &JsonValue::Array(vec![num("1")]));
    assert_eq!(out, JsonValue::Array(vec![num("1")]));
    let out = append_items(None, &JsonValue::Array(vec![]));
    assert_eq!(out, JsonValue::Array(vec![]));
}

#[test]
fn scopes_map_to_files() {
    assert_eq!(scope_file("tree", false), Ok("tree.json"));
    assert_eq!(scope_file("scripts", false), Ok("scripts.json"));
    assert_eq!(scope_file("scripts", true), Ok("scripts_full.json"));
    assert_eq!(scope_file("services", true), Ok("services.json"));
    assert_eq!(scope_file("bogus", false), Err(ScanError::UnknownScope("bogus".to_string())));
    assert_eq!(ScopeKind::parse("remotes"), Some(ScopeKind::Remotes));
    assert_eq!(ScopeKind::parse("Remotes"), None);
    assert_eq!(ScopeKind::Services.write_mode(), WriteMode::Replace);
    assert_eq!(ScopeKind::Properties.write_mode(), WriteMode::Append);
    assert_eq!(ScopeKind::Scripts.write_mode(), WriteMode::Scripts);
}

#[test]
fn scripts_chunk_must_be_an_array() {
    assert!(matches!(script_records(&obj(vec![])), Err(ScanError::ScriptsNotArray)));
}

#[test]
fn scripts_chunk_splits_outlines_and_sources() {
    let data = JsonValue::Array(vec![
        obj(vec![
            ("path", text("ServerScriptService.Main")),
            ("class_name", text("Script")),
            ("enabled", JsonValue::Bool(true)),
            ("source", text("local x = game:GetService(\"Players\")\nprint(x)")),
        ]),
        obj(vec![("path", text("StarterGui.Empty")), ("class_name", text("LocalScript"))]),
    ]);
    let rec = script_records(&data).unwrap();
    assert_eq!(rec.entries.len(), 2);
    assert_eq!(rec.sources.len(), 1);
    let first = &rec.entries[0];
    assert_eq!(first.get("enabled"), Some(&JsonValue::Bool(true)));
    assert_eq!(first.get("decompiled"), Some(&JsonValue::Bool(false)));
    assert_eq!(first.get("line_count"), Some(&num("2")));
    assert_eq!(first.get("size"), Some(&num("45")));
    let outline = first.get("outline").unwrap();
    assert_eq!(outline.get("services"), Some(&JsonValue::Array(vec![text("Players")])));
    let second = &rec.entries[1];
    assert!(second.get("outline").is_none());
    assert!(second.get("enabled").is_none());
    assert_eq!(second.get("size"), Some(&num("0")));
    assert_eq!(rec.sources[0].get("path"), Some(&text("ServerScriptService.Main")));
}

#[test]
fn storage_paths_nest_under_places() {
    assert_eq!(place_dir("./storage", 12345), "./storage/places/12345");
    assert_eq!(place_dir("/data/", 7), "/data/places/7");
    assert_eq!(place_dir("", 0), "places/0");
    assert_eq!(place_file("s", 42, "scan_record.json"), "s/places/42/scan_record.json");
}

fn request() -> ScanCompleteRequest {
    ScanCompleteRequest {
        place_id: 1,
        game_id: 2,
        place_version: 3,
        place_name: "Obby".to_string(),
        creator_id: 4,
        creator_type: "User".to_string(),
        job_id: "job".to_string(),
        scopes: vec!["tree".to_string()],
        scan_duration_bits: 1.5f64.to_bits(),
        instance_count: 10,
        script_count: 2,
        remote_count: 1,
        executor_supports_decompile: true,
    }
}

#[test]
fn manifest_hashes_stored_tree_or_empty() {
    let now = Timestamp { secs: 100, nanos: 5 };
    let m = assemble_manifest(&request(), None, now);
    assert_eq!(m.tree_hash, compute_tree_hash(&JsonValue::Array(vec![])));
    assert_eq!(m.scanned_at, now);
    assert_eq!(m.place_name, "Obby");
    assert_eq!(f64::from_bits(m.scan_duration_bits), 1.5);
    let tree = JsonValue::Array(vec![obj(vec![
        ("name", text("A")),
        ("class_name", text("Part")),
        ("path", text("Workspace.A")),
    ])]);
    let expected = compute_tree_hash(&tree);
    let m = assemble_manifest(&request(), Some(tree), now);
    assert_eq!(m.tree_hash, expected);
    assert_ne!(m.tree_hash, compute_tree_hash(&JsonValue::Array(vec![])));
}

fn manifest_at(place_id: u64, secs: i64) -> GameManifest {
    let mut m = assemble_manifest(&request(), None, Timestamp { secs, nanos: 0 });
    m.place_id = place_id;
    m
}

#[test]
fn manifests_list_newest_first() {
    let listed = order_newest_first(vec![manifest_at(1, 10), manifest_at(2, 20)]);
    let ids: Vec<u64> = listed.iter().map(|m| m.place_id).collect();
    assert_eq!(ids, vec![2, 1]);
    let listed = order_newest_first(vec![manifest_at(3, 5), manifest_at(4, 30), manifest_at(5, 5)]);
    let ids: Vec<u64> = listed.iter().map(|m| m.place_id).collect();
    assert_eq!(ids, vec![4, 3, 5]);
    assert!(order_newest_first(vec![]).is_empty());
}
