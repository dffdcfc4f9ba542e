use sha2::Digest;
use xeno_mcp::hash::compute_tree_hash;
use xeno_mcp::json::JsonValue;
use xeno_mcp::model::InstanceNode;
use xeno_mcp::outline::generate_outline;

fn node(name: &str, class_name: &str, path: &str) -> InstanceNode {
    InstanceNode {
        name: name.to_string(),
        class_name: class_name.to_string(),
        path: path.to_string(),
        children: vec![],
    }
}

fn tree(nodes: Vec<InstanceNode>) -> JsonValue {
    JsonValue::Array(nodes.iter().map(|n| n.to_json()).collect())
}

fn sha_hex(bytes: &[u8]) -> String {
    format!("{:x}", sha2::Sha256::digest(bytes))
}

#[test]
fn test_tree_hash_deterministic() {
    let tree = tree(vec![
        node("Part", "Part", "Workspace.Part"),
        node("Model", "Model", "Workspace.Model"),
    ]);
    let hash1 = compute_tree_hash(&tree);
    let hash2 = compute_tree_hash(&tree);
    assert_eq!(hash1, hash2);
}

#[test]
fn test_tree_hash_order_independent() {
    let tree1 = tree(vec![
        node("A", "Part", "Workspace.A"),
        node("B", "Model", "Workspace.B"),
    ]);
    let tree2 = tree(vec![
        node("B", "Model", "Workspace.B"),
        node("A", "Part", "Workspace.A"),
    ]);
    assert_eq!(compute_tree_hash(&tree1), compute_tree_hash(&tree2));
}

#[test]
fn tree_hash_digests_sorted_records() {
    let t = tree(vec![
        node("A", "Part", "Workspace.A"),
        node("B", "Model", "Workspace.B"),
    ]);
    let expected = sha_hex(b"Model:B:Workspace.B\nPart:A:Workspace.A\n");
    assert_eq!(compute_tree_hash(&t), expected);
    assert_eq!(expected.len(), 64);
}

#[test]
fn tree_hash_of_empty_tree_is_digest_of_nothing() {
    assert_eq!(compute_tree_hash(&JsonValue::Array(vec![])), sha_hex(b""));
}

#[test]
fn tree_hash_follows_children_and_skips_pathless_nodes() {
    let mut parent = node("Workspace", "Workspace", "Workspace");
    parent.children = vec![node("Part", "Part", "Workspace.Part"), node("Loose", "Part", "")];
    let t = tree(vec![parent]);
    let expected = sha_hex(b"Part:Part:Workspace.Part\nWorkspace:Workspace:Workspace\n");
    assert_eq!(compute_tree_hash(&t), expected);
}

#[test]
fn tree_hash_changes_with_content() {
    let a = tree(vec![node("A", "Part", "Workspace.A")]);
    let b = tree(vec![node("A", "Model", "Workspace.A")]);
    assert_ne!(compute_tree_hash(&a), compute_tree_hash(&b));
}

#[test]
fn test_generate_outline() {
    let source = r#"
local ReplicatedStorage = game:GetService("ReplicatedStorage")
local Players = game:GetService("Players")
local DataManager = require(ReplicatedStorage.Modules.DataManager)

local ShopHandler = {}
local MAX_ITEMS = 50

function ShopHandler.Init(player)
    print("init")
end

function ShopHandler.PurchaseItem(itemId, quantity)
    ReplicatedStorage.Remotes.PurchaseItem:FireServer(itemId, quantity)
end

local remote = ReplicatedStorage:FindFirstChild("01_server")
local gui = Players.LocalPlayer.PlayerGui:WaitForChild("MainGui")

return ShopHandler
"#;
    let outline = generate_outline(source);
    assert_eq!(outline.functions.len(), 2);
    assert!(outline.functions[0].contains("ShopHandler.Init"));
    assert!(outline.functions[1].contains("ShopHandler.PurchaseItem"));
    assert_eq!(outline.services.len(), 2);
    assert!(outline.services.contains(&"ReplicatedStorage".to_string()));
    assert!(outline.services.contains(&"Players".to_string()));
    assert_eq!(outline.requires.len(), 1);
    assert!(outline.remote_accesses.len() >= 1);
    assert!(outline.top_level_vars.contains(&"ShopHandler".to_string()));
    assert!(outline.top_level_vars.contains(&"MAX_ITEMS".to_string()));
    // instance_refs
    assert!(outline.instance_refs.contains(&"01_server".to_string()));
    assert!(outline.instance_refs.contains(&"MainGui".to_string()));
    // string_constants should include notable strings but not services
    assert!(outline.string_constants.contains(&"init".to_string()));
    assert!(!outline.string_constants.contains(&"ReplicatedStorage".to_string()));
}

#[test]
fn outline_records_exact_entries() {
    let source = "local Svc = game:GetService('Players')\nlocal function helper.run( a, b )\nend\nlocal x = require( Module )\nlocal x = require( Module )\nremote:FireServer(1)\r\nremote:FireServer(1)\n";
    let outline = generate_outline(source);
    assert_eq!(outline.functions, vec!["helper.run(a, b)".to_string()]);
    assert_eq!(outline.services, vec!["Players".to_string()]);
    assert_eq!(outline.requires, vec!["Module".to_string()]);
    assert_eq!(outline.remote_accesses, vec!["remote:FireServer(1)".to_string()]);
    assert_eq!(outline.top_level_vars, vec!["Svc".to_string()]);
    assert_eq!(outline.line_count, 7);
    assert!(outline.string_constants.is_empty());
}

#[test]
fn outline_keeps_duplicate_function_definitions() {
    let outline = generate_outline("function a()\nend\nfunction a()\nend");
    assert_eq!(outline.functions, vec!["a()".to_string(), "a()".to_string()]);
    assert_eq!(outline.line_count, 4);
}

#[test]
fn outline_records_method_name_for_long_site_lines() {
    let long_arg = "x".repeat(130);
    let source = format!("remote:InvokeServer({})\nother.OnClientEvent(f)\n", long_arg);
    let outline = generate_outline(&source);
    assert_eq!(
        outline.remote_accesses,
        vec!["InvokeServer".to_string(), "other.OnClientEvent(f)".to_string()]
    );
}

#[test]
fn outline_skips_noise_literals_and_caps_them() {
    let mut source = String::from("local a = \"Frame\"\nlocal b = \"UDim2\"\n");
    for i in 0..60 {
        source.push_str(&format!("print(\"value{}\")\n", i));
    }
    let outline = generate_outline(&source);
    assert_eq!(outline.string_constants.len(), 50);
    assert_eq!(outline.string_constants[0], "value0");
    assert_eq!(outline.string_constants[49], "value49");
    assert!(!outline.string_constants.contains(&"Frame".to_string()));
}

#[test]
fn outline_caps_bindings_and_skips_single_letters() {
    let mut source = String::from("local v = 1\nlocal i = 2\n");
    for k in 0..25 {
        source.push_str(&format!("local name{} = {}\n", k, k));
    }
    let outline = generate_outline(&source);
    assert_eq!(outline.top_level_vars.len(), 20);
    assert_eq!(outline.top_level_vars[0], "name0");
    assert!(!outline.top_level_vars.contains(&"v".to_string()));
}

#[test]
fn outline_of_empty_source_is_empty() {
    let outline = generate_outline("");
    assert!(outline.functions.is_empty());
    assert!(outline.services.is_empty());
    assert_eq!(outline.line_count, 0);
}
