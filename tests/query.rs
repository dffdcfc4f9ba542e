use xeno_mcp::json::{JsonField, JsonValue};
use xeno_mcp::model::InstanceNode;
use xeno_mcp::query::{filter_entries, filter_scripts, filter_tree, merge_source_into_scripts, GameQuery};
use xeno_mcp::store::{query_scope, ScopeKind};

fn node(name: &str, class_name: &str, path: &str, children: Vec<InstanceNode>) -> InstanceNode {
    InstanceNode {
        name: name.to_string(),
        class_name: class_name.to_string(),
        path: path.to_string(),
        children,
    }
}

fn no_filters() -> GameQuery {
    GameQuery { path: None, search: None, class: None, include_source: None, max_depth: None }
}

fn text(s: &str) -> JsonValue {
    JsonValue::Str(s.to_string())
}

fn obj(fields: Vec<(&str, JsonValue)>) -> JsonValue {
    JsonValue::Object(
        fields.into_iter().map(|(k, v)| JsonField { key: k.to_string(), value: v }).collect(),
    )
}

fn member<'a>(v: &'a JsonValue, key: &str) -> Option<&'a JsonValue> {
    v.get(key)
}

fn sample_tree() -> JsonValue {
    let grandchild = node("Handle", "Part", "Workspace.Tool.Handle", vec![]);
    let child = node("Tool", "Tool", "Workspace.Tool", vec![grandchild]);
    let workspace = node("Workspace", "Workspace", "Workspace", vec![child]);
    let lighting = node("Lighting", "Lighting", "Lighting", vec![]);
    JsonValue::Array(vec![workspace.to_json(), lighting.to_json()])
}

fn items(v: &JsonValue) -> &Vec<JsonValue> {
    match v {
        JsonValue::Array(items) => items,
        _ => panic!("expected an array"),
    }
}

#[test]
fn tree_depth_zero_drops_children() {
    let q = GameQuery { max_depth: Some(0), ..no_filters() };
    let out = filter_tree(&sample_tree(), &q);
    let nodes = items(&out);
    assert_eq!(nodes.len(), 2);
    for n in nodes {
        assert!(member(n, "children").is_none());
    }
}

#[test]
fn tree_depth_one_keeps_children_without_grandchildren() {
    let q = GameQuery { max_depth: Some(1), ..no_filters() };
    let out = filter_tree(&sample_tree(), &q);
    let nodes = items(&out);
    let kids = items(member(&nodes[0], "children").unwrap());
    assert_eq!(kids.len(), 1);
    assert_eq!(member(&kids[0], "name"), Some(&text("Tool")));
    assert!(member(&kids[0], "children").is_none());
}

#[test]
fn tree_without_depth_limit_is_unchanged() {
    let out = filter_tree(&sample_tree(), &no_filters());
    assert_eq!(out, sample_tree());
}

#[test]
fn tree_filters_by_path_prefix_ignoring_case() {
    let q = GameQuery { path: Some("work".to_string()), ..no_filters() };
    let out = filter_tree(&sample_tree(), &q);
    let nodes = items(&out);
    assert_eq!(nodes.len(), 1);
    assert_eq!(member(&nodes[0], "name"), Some(&text("Workspace")));
}

#[test]
fn tree_filters_by_class_and_search() {
    let q = GameQuery { class: Some("LIGHTING".to_string()), ..no_filters() };
    assert_eq!(items(&filter_tree(&sample_tree(), &q)).len(), 1);
    let q = GameQuery { search: Some("GHT".to_string()), ..no_filters() };
    let out = filter_tree(&sample_tree(), &q);
    assert_eq!(items(&out).len(), 1);
    assert_eq!(member(&items(&out)[0], "path"), Some(&text("Lighting")));
    let q = GameQuery { search: Some("nothing".to_string()), ..no_filters() };
    assert!(items(&filter_tree(&sample_tree(), &q)).is_empty());
}

#[test]
fn tree_query_passes_non_arrays_through() {
    let v = obj(vec![("name", text("x"))]);
    assert_eq!(filter_tree(&v, &no_filters()), v);
}

fn scripts() -> JsonValue {
    let outline = obj(vec![("services", JsonValue::Array(vec![text("DataStoreService")]))]);
    JsonValue::Array(vec![
        obj(vec![
            ("path", text("ServerScriptService.Main")),
            ("class_name", text("Script")),
            ("outline", outline),
        ]),
        obj(vec![("path", text("StarterGui.Menu")), ("class_name", text("LocalScript"))]),
    ])
}

#[test]
fn scripts_search_reads_outline_text() {
    let q = GameQuery { search: Some("datastore".to_string()), ..no_filters() };
    let out = filter_scripts(&scripts(), &q);
    assert_eq!(items(&out).len(), 1);
    assert_eq!(member(&items(&out)[0], "class_name"), Some(&text("Script")));
}

#[test]
fn scripts_search_matches_outline_keys() {
    let q = GameQuery { search: Some("\"services\":[".to_string()), ..no_filters() };
    assert_eq!(items(&filter_scripts(&scripts(), &q)).len(), 1);
}

#[test]
fn scripts_filter_by_class_ignoring_ascii_case() {
    let q = GameQuery { class: Some("localscript".to_string()), ..no_filters() };
    let out = filter_scripts(&scripts(), &q);
    assert_eq!(items(&out).len(), 1);
    assert_eq!(member(&items(&out)[0], "path"), Some(&text("StarterGui.Menu")));
}

#[test]
fn entries_match_prefix_on_name_or_path() {
    let data = JsonValue::Array(vec![
        obj(vec![("name", text("Players")), ("class_name", text("Players"))]),
        obj(vec![("path", text("ReplicatedStorage.Remote")), ("class_name", text("RemoteEvent"))]),
    ]);
    let q = GameQuery { path: Some("play".to_string()), ..no_filters() };
    assert_eq!(items(&filter_entries(&data, &q)).len(), 1);
    let q = GameQuery { path: Some("replicated".to_string()), ..no_filters() };
    assert_eq!(items(&filter_entries(&data, &q)).len(), 1);
    let q = GameQuery { search: Some("remote".to_string()), ..no_filters() };
    assert_eq!(items(&filter_entries(&data, &q)).len(), 1);
}

#[test]
fn full_source_without_filters_is_returned_whole() {
    let q = GameQuery { include_source: Some(true), ..no_filters() };
    assert_eq!(query_scope(ScopeKind::Scripts, &scripts(), &q), scripts());
    let q = GameQuery { include_source: Some(true), class: Some("Script".to_string()), ..no_filters() };
    assert_eq!(items(&query_scope(ScopeKind::Scripts, &scripts(), &q)).len(), 1);
}

#[test]
fn sources_merge_into_matching_entries() {
    let mut entries = JsonValue::Array(vec![
        obj(vec![("path", text("A")), ("class_name", text("Script"))]),
        obj(vec![("path", text("B")), ("source", text("old"))]),
        obj(vec![("path", text("")), ("class_name", text("Script"))]),
        obj(vec![("path", text("C"))]),
    ]);
    let full = JsonValue::Array(vec![
        obj(vec![("path", text("A")), ("source", text("print(1)"))]),
        obj(vec![("path", text("B")), ("source", text("new"))]),
        obj(vec![("path", text("A")), ("source", text("second"))]),
        obj(vec![("path", text("")), ("source", text("nameless"))]),
    ]);
    merge_source_into_scripts(&mut entries, &full);
    let out = items(&entries);
    assert_eq!(out[0].get("source"), Some(&text("print(1)")));
    assert_eq!(out[1], obj(vec![("path", text("B")), ("source", text("new"))]));
    assert!(out[2].get("source").is_none());
    assert!(out[3].get("source").is_none());
}

#[test]
fn sources_merge_needs_two_arrays() {
    let mut entries = obj(vec![("path", text("A"))]);
    let full = JsonValue::Array(vec![obj(vec![("path", text("A")), ("source", text("x"))])]);
    merge_source_into_scripts(&mut entries, &full);
    assert_eq!(entries, obj(vec![("path", text("A"))]));
}
