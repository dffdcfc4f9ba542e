use vstd::prelude::*;
use crate::json::{bool_member, items_model, lemma_array_model, text_member, Json, JsonValue};
use crate::model::{count_field, outline_json, text_field, ScriptEntry, ScriptFull};
use crate::outline::{count_lines, generate_outline, hits_in, line_total, outline_of};
use crate::query::{filter_entries, filter_scripts, filter_tree, GameQuery};
use crate::text::{byte_size, chars_of, decimal, decimal_text, same_text, string_of, utf8_size};

verus! {

/// The kinds of data that a scan sends and that a target stores.
#[derive(PartialEq, Eq, Structural, Clone, Copy, Debug)]
pub enum ScopeKind {
    Tree,
    Scripts,
    Remotes,
    Properties,
    Services,
}

/// How a chunk of a scope reaches its file.
#[derive(PartialEq, Eq, Structural, Clone, Copy, Debug)]
pub enum WriteMode {
    /// The file is replaced by the chunk.
    Replace,
    /// The chunk's elements are added after what the file holds.
    Append,
    /// Each script becomes an outline entry, and its source a second record.
    Scripts,
}

/// Why a request on scan data was refused.
#[derive(PartialEq, Eq, Debug)]
pub enum ScanError {
    /// The scope name is none of `tree`, `scripts`, `remotes`, `properties`, `services`.
    UnknownScope(String),
    /// A scripts chunk whose payload is not an array.
    ScriptsNotArray,
}

/// The scope that a label names.
pub open spec fn scope_of_label(label: Seq<char>) -> Option<ScopeKind> {
    if label == "tree"@ {
        Some(ScopeKind::Tree)
    } else if label == "scripts"@ {
        Some(ScopeKind::Scripts)
    } else if label == "remotes"@ {
        Some(ScopeKind::Remotes)
    } else if label == "properties"@ {
        Some(ScopeKind::Properties)
    } else if label == "services"@ {
        Some(ScopeKind::Services)
    } else {
        None
    }
}

/// The file that holds a scope; for scripts, the outline entries or,
/// with `full_source`, the source records.
pub open spec fn scope_file_name(scope: ScopeKind, full_source: bool) -> Seq<char> {
    match scope {
        ScopeKind::Tree => "tree.json"@,
        ScopeKind::Scripts => if full_source {
            "scripts_full.json"@
        } else {
            "scripts.json"@
        },
        ScopeKind::Remotes => "remotes.json"@,
        ScopeKind::Properties => "properties.json"@,
        ScopeKind::Services => "services.json"@,
    }
}

/// The file that holds a target's manifest record.
pub const MANIFEST_FILE: &'static str = "scan_record.json";

impl ScopeKind {
    /// The scope that a label names.
    pub fn parse(label: &str) -> (r: Option<ScopeKind>)
        ensures
            r == scope_of_label(label@),
    {
        if same_text(label, "tree") {
            Some(ScopeKind::Tree)
        } else if same_text(label, "scripts") {
            Some(ScopeKind::Scripts)
        } else if same_text(label, "remotes") {
            Some(ScopeKind::Remotes)
        } else if same_text(label, "properties") {
            Some(ScopeKind::Properties)
        } else if same_text(label, "services") {
            Some(ScopeKind::Services)
        } else {
            None
        }
    }

    /// The file that holds this scope.
    pub fn file_name(&self, full_source: bool) -> (r: &'static str)
        ensures
            r@ == scope_file_name(*self, full_source),
    {
        match self {
            ScopeKind::Tree => "tree.json",
            ScopeKind::Scripts => if full_source {
                "scripts_full.json"
            } else {
                "scripts.json"
            },
            ScopeKind::Remotes => "remotes.json",
            ScopeKind::Properties => "properties.json",
            ScopeKind::Services => "services.json",
        }
    }

    /// How a chunk of this scope is stored: services replace their file,
    /// scripts are split in two, the others are appended.
    pub fn write_mode(&self) -> (r: WriteMode)
        ensures
            r == match *self {
                ScopeKind::Services => WriteMode::Replace,
                ScopeKind::Scripts => WriteMode::Scripts,
                _ => WriteMode::Append,
            },
    {
        match self {
            ScopeKind::Services => WriteMode::Replace,
            ScopeKind::Scripts => WriteMode::Scripts,
            _ => WriteMode::Append,
        }
    }
}

/// The file to read for a query on scope `scope`.
pub fn scope_file(scope: &str, include_source: bool) -> (r: Result<&'static str, ScanError>)
    ensures
        match scope_of_label(scope@) {
            Some(k) => r matches Ok(f) && f@ == scope_file_name(k, include_source),
            None => r matches Err(ScanError::UnknownScope(s)) && s@ == scope@,
        },
{
    match ScopeKind::parse(scope) {
        Some(k) => Ok(k.file_name(include_source)),
        None => Err(ScanError::UnknownScope(scope.to_owned())),
    }
}

/// What a query on a scope returns from its stored data: the full source
/// records are filtered only when a filter is set; scripts, trees and other
/// entries go through their own filters.
pub open spec fn scope_view(scope: ScopeKind, data: Json, q: GameQuery) -> Json {
    match scope {
        ScopeKind::Scripts => if q.include_source == Some(true) && q.path is None && q.search
            is None && q.class is None {
            data
        } else {
            crate::query::scripts_query(data, q)
        },
        ScopeKind::Tree => crate::query::tree_query(data, q),
        _ => crate::query::entries_query(data, q),
    }
}

/// The answer to a query on one scope, given the data stored for it.
pub fn query_scope(scope: ScopeKind, data: &JsonValue, query: &GameQuery) -> (r: JsonValue)
    ensures
        r@ == scope_view(scope, data@, *query),
{
    match scope {
        ScopeKind::Scripts => {
            let full = match query.include_source {
                Some(b) => b,
                None => false,
            };
            if full && query.path.is_none() && query.search.is_none() && query.class.is_none() {
                data.deep_copy()
            } else {
                filter_scripts(data, query)
            }
        },
        ScopeKind::Tree => filter_tree(data, query),
        _ => filter_entries(data, query),
    }
}

/// The elements held by a stored file: those of an array, and none for
/// anything else or for a file that could not be read.
pub open spec fn stored_elements(existing: Option<Json>) -> Seq<Json> {
    match existing {
        Some(Json::Array(items)) => items,
        _ => Seq::empty(),
    }
}

/// The array stored after appending a chunk: the elements of an array
/// chunk, or the chunk itself, after the stored elements.
pub open spec fn appended(existing: Option<Json>, chunk: Json) -> Json {
    match chunk {
        Json::Array(more) => Json::Array(stored_elements(existing) + more),
        _ => Json::Array(stored_elements(existing).push(chunk)),
    }
}

pub open spec fn opt_model(v: Option<JsonValue>) -> Option<Json> {
    match v {
        Some(x) => Some(x@),
        None => None,
    }
}

/// The array to store after appending `chunk` to what the file held
/// (`None` when the file is absent or unreadable).
pub fn append_items(existing: Option<JsonValue>, chunk: &JsonValue) -> (r: JsonValue)
    ensures
        r@ == appended(opt_model(existing), chunk@),
{
    let mut out: Vec<JsonValue> = match existing {
        Some(JsonValue::Array(items)) => items,
        _ => Vec::new(),
    };
    proof {
        lemma_array_model(out);
    }
    let ghost start = items_model(out@);
    assert(start == stored_elements(opt_model(existing)));
    match chunk {
        JsonValue::Array(more) => {
            proof {
                lemma_array_model(*more);
            }
            let mut i: usize = 0;
            while i < more.len()
                invariant
                    i <= more@.len(),
                    items_model(out@) =~= start + items_model(more@).subrange(0, i as int),
                decreases more@.len() - i,
            {
                let ghost before = items_model(out@);
                let x = more[i].deep_copy();
                out.push(x);
                assert(items_model(out@) =~= before.push(more@[i as int]@));
                assert(items_model(more@).subrange(0, i + 1) =~= items_model(more@).subrange(0, i as int).push(more@[i as int]@));
                i = i + 1;
            }
            assert(items_model(more@).subrange(0, more@.len() as int) =~= items_model(more@));
        },
        _ => {
            out.push(chunk.deep_copy());
            assert(items_model(out@) =~= start.push(chunk@));
        },
    }
    proof {
        lemma_array_model(out);
    }
    JsonValue::Array(out)
}

/// Appending array `a` and then array `b` to a scope with no stored data
/// stores `a` followed by `b`, in submission order.
pub proof fn lemma_append_in_order(a: Seq<Json>, b: Seq<Json>)
    ensures
        appended(Some(appended(None, Json::Array(a))), Json::Array(b)) == Json::Array(a + b),
{
    assert(Seq::<Json>::empty() + a =~= a);
}

/// The outline entry stored for one submitted script record: path, class,
/// `enabled` when given, the outline when the source is not empty, whether
/// it was decompiled, and the source's line and byte counts.
pub open spec fn script_entry_json(s: Json) -> Json {
    let source = text_member(s, "source"@);
    let base = seq![
        text_field("path"@, text_member(s, "path"@)),
        text_field("class_name"@, text_member(s, "class_name"@)),
    ];
    let with_enabled = match bool_member(s, "enabled"@) {
        Some(b) => base.push(("enabled"@, Json::Bool(b))),
        None => base,
    };
    let with_outline = if source.len() > 0 {
        with_enabled.push(("outline"@, outline_json(outline_of(source, hits_in(source)))))
    } else {
        with_enabled
    };
    Json::Object(
        with_outline + seq![
            ("decompiled"@, Json::Bool(bool_member(s, "decompiled"@) == Some(true))),
            count_field("line_count"@, line_total(source)),
            count_field("size"@, byte_total(source)),
        ],
    )
}

/// The number of UTF-8 bytes of a text, saturating at `u64::MAX`.
pub open spec fn byte_total(s: Seq<char>) -> nat {
    if utf8_size(s) <= u64::MAX {
        utf8_size(s)
    } else {
        u64::MAX as nat
    }
}

/// The source records of the submitted scripts whose source is not empty.
pub open spec fn full_sources(items: Seq<Json>) -> Seq<Json>
    decreases items.len(),
{
    if items.len() == 0 {
        Seq::empty()
    } else {
        let prev = full_sources(items.drop_last());
        let s = items.last();
        if text_member(s, "source"@).len() > 0 {
            prev.push(
                Json::Object(
                    seq![
                        text_field("path"@, text_member(s, "path"@)),
                        text_field("source"@, text_member(s, "source"@)),
                    ],
                ),
            )
        } else {
            prev
        }
    }
}

/// What a scripts chunk adds to storage: one outline entry per script, and
/// one source record per script with source.
pub struct ScriptRecords {
    pub entries: Vec<JsonValue>,
    pub sources: Vec<JsonValue>,
}

fn script_entry(script: &JsonValue) -> (r: JsonValue)
    ensures
        r@ == script_entry_json(script@),
{
    let source_chars = script.text_member("source");
    let source = string_of(&source_chars);
    let outline = if source_chars.len() > 0 {
        Some(generate_outline(source.as_str()))
    } else {
        None
    };
    let decompiled = match script.bool_member("decompiled") {
        Some(b) => b,
        None => false,
    };
    let entry = ScriptEntry {
        path: string_of(&script.text_member("path")),
        class_name: string_of(&script.text_member("class_name")),
        enabled: script.bool_member("enabled"),
        outline,
        decompiled,
        line_count: count_lines(&source_chars),
        size: byte_size(&source_chars),
    };
    let r = entry.to_json();
    assert(r@->Object_0 =~= script_entry_json(script@)->Object_0);
    r
}

/// Splits a scripts chunk into the outline entries and source records to store.
pub fn script_records(data: &JsonValue) -> (r: Result<ScriptRecords, ScanError>)
    ensures
        match data@ {
            Json::Array(items) => r matches Ok(rec) && items_model(rec.entries@) == Seq::new(
                items.len(),
                |i: int| script_entry_json(items[i]),
            ) && items_model(rec.sources@) == full_sources(items),
            _ => r matches Err(ScanError::ScriptsNotArray),
        },
{
    let items = match data {
        JsonValue::Array(items) => items,
        _ => {
            return Err(ScanError::ScriptsNotArray);
        },
    };
    proof {
        lemma_array_model(*items);
    }
    let ghost s = items_model(items@);
    let mut entries: Vec<JsonValue> = Vec::new();
    let mut sources: Vec<JsonValue> = Vec::new();
    let mut i: usize = 0;
    assert(items_model(sources@) =~= full_sources(s.subrange(0, 0)));
    while i < items.len()
        invariant
            i <= items@.len(),
            s == items_model(items@),
            items_model(entries@) =~= Seq::new(i as nat, |k: int| script_entry_json(s[k])),
            items_model(sources@) == full_sources(s.subrange(0, i as int)),
        decreases items@.len() - i,
    {
        let script = &items[i];
        let ghost before = items_model(entries@);
        let e = script_entry(script);
        entries.push(e);
        assert(items_model(entries@) =~= before.push(e@));
        let ghost sub = s.subrange(0, i + 1);
        assert(sub.drop_last() =~= s.subrange(0, i as int));
        let ghost prev = items_model(sources@);
        let source = script.text_member("source");
        if source.len() > 0 {
            let full = ScriptFull {
                path: string_of(&script.text_member("path")),
                source: string_of(&source),
            };
            let f = full.to_json();
            sources.push(f);
            assert(f@->Object_0 =~= seq![
                text_field("path"@, text_member(s[i as int], "path"@)),
                text_field("source"@, text_member(s[i as int], "source"@)),
            ]);
            assert(items_model(sources@) =~= prev.push(f@));
        } else {
            assert(items_model(sources@) =~= prev);
        }
        i = i + 1;
    }
    assert(s.subrange(0, items@.len() as int) =~= s);
    Ok(ScriptRecords { entries, sources })
}

/// A relative path part joined under a directory, as `Path::join` does with
/// `/` separators.
pub open spec fn path_join(base: Seq<char>, part: Seq<char>) -> Seq<char> {
    if base.len() == 0 || base.last() == '/' {
        base + part
    } else {
        base + seq!['/'] + part
    }
}

/// The directory that holds everything stored for one target.
pub open spec fn target_dir(storage: Seq<char>, place_id: u64) -> Seq<char> {
    path_join(path_join(storage, "places"@), decimal(place_id as nat))
}

fn join_path(base: &Vec<char>, part: &Vec<char>) -> (r: Vec<char>)
    ensures
        r@ == path_join(base@, part@),
{
    if base.len() == 0 || base[base.len() - 1] == '/' {
        crate::text::join2(base, part)
    } else {
        let b = crate::text::join2(base, &chars_of("/"));
        proof {
            reveal_strlit("/");
        }
        crate::text::join2(&b, part)
    }
}

/// The directory that holds everything stored for one target.
pub fn place_dir(storage_dir: &str, place_id: u64) -> (r: String)
    ensures
        r@ == target_dir(storage_dir@, place_id),
{
    let d = join_path(&chars_of(storage_dir), &chars_of("places"));
    string_of(&join_path(&d, &decimal_text(place_id)))
}

/// The path of one file stored for a target.
pub fn place_file(storage_dir: &str, place_id: u64, file: &str) -> (r: String)
    ensures
        r@ == path_join(target_dir(storage_dir@, place_id), file@),
{
    let d = join_path(&chars_of(storage_dir), &chars_of("places"));
    let d = join_path(&d, &decimal_text(place_id));
    string_of(&join_path(&d, &chars_of(file)))
}

} // verus!
