use vstd::prelude::*;
use crate::json::{
    fields_model, first_key, items_model, json_text, lemma_array_model, lemma_object_model, member,
    text_member, Json, JsonField, JsonValue,
};
use crate::text::{
    chars_of, contains_text, eq_ignore_ascii_case, has_infix, has_prefix, lower_of,
    same_ignoring_ascii_case, starts_with, string_of, to_lower,
};

verus! {

/// Filters for reading one scope of a target; each one that is set must hold.
pub struct GameQuery {
    /// Case-insensitive prefix of the path.
    pub path: Option<String>,
    /// Case-insensitive text to look for.
    pub search: Option<String>,
    /// Class name, equal up to ASCII case.
    pub class: Option<String>,
    /// Read the scripts' full source rather than their outlines.
    pub include_source: Option<bool>,
    /// Depth below which tree nodes lose their children.
    pub max_depth: Option<u32>,
}

/// `t` passes a case-insensitive prefix filter.
pub open spec fn prefix_pass(p: Option<String>, t: Seq<char>) -> bool {
    p is None || has_prefix(lower_of(t), lower_of(p->0@))
}

/// `t` passes a class filter.
pub open spec fn class_pass(c: Option<String>, t: Seq<char>) -> bool {
    c is None || same_ignoring_ascii_case(t, c->0@)
}

/// The search text of `s` occurs in `t`, ignoring case.
pub open spec fn search_hit(s: Option<String>, t: Seq<char>) -> bool {
    has_infix(lower_of(t), lower_of(s->0@))
}

/// A tree node passes the filters: path prefix, class, and search in name or path.
pub open spec fn tree_node_kept(v: Json, q: GameQuery) -> bool {
    let path = text_member(v, "path"@);
    let name = text_member(v, "name"@);
    prefix_pass(q.path, path) && class_pass(q.class, text_member(v, "class_name"@)) && (
    q.search is None || search_hit(q.search, name) || search_hit(q.search, path))
}

/// A script entry passes the filters: path prefix, class, and search in the
/// path or in the JSON text of its outline.
pub open spec fn script_kept(v: Json, q: GameQuery) -> bool {
    let path = text_member(v, "path"@);
    prefix_pass(q.path, path) && class_pass(q.class, text_member(v, "class_name"@)) && (
    q.search is None || search_hit(q.search, path) || (member(v, "outline"@) is Some
        && search_hit(q.search, json_text(member(v, "outline"@)->0))))
}

/// Any other entry passes the filters: prefix of path or name, class, and
/// search in path or name.
pub open spec fn entry_kept(v: Json, q: GameQuery) -> bool {
    let path = text_member(v, "path"@);
    let name = text_member(v, "name"@);
    (prefix_pass(q.path, path) || prefix_pass(q.path, name)) && class_pass(
        q.class,
        text_member(v, "class_name"@),
    ) && (q.search is None || search_hit(q.search, path) || search_hit(q.search, name))
}

/// The members of an object without those under `key`.
pub open spec fn without_key(fields: Seq<(Seq<char>, Json)>, key: Seq<char>) -> Seq<
    (Seq<char>, Json),
>
    decreases fields.len(),
{
    if fields.len() == 0 {
        Seq::empty()
    } else {
        let prev = without_key(fields.drop_last(), key);
        if fields.last().0 == key {
            prev
        } else {
            prev.push(fields.last())
        }
    }
}

/// A node cut to the depth limit: at depth `current` it loses its `children`
/// member once `current` reaches `max`; below that, each element of an array
/// of children is cut at the next depth.
pub open spec fn pruned(v: Json, current: int, max: int) -> Json
    decreases v,
{
    match v {
        Json::Object(fields) => if current >= max {
            Json::Object(without_key(fields, "children"@))
        } else if exists|i: int| first_key(fields, "children"@, i) {
            let i = choose|i: int| first_key(fields, "children"@, i);
            match fields[i].1 {
                Json::Array(kids) => Json::Object(
                    fields.update(
                        i,
                        (
                            fields[i].0,
                            Json::Array(
                                Seq::new(
                                    kids.len(),
                                    |k: int|
                                        if 0 <= k < kids.len() {
                                            pruned(kids[k], current + 1, max)
                                        } else {
                                            Json::Null
                                        },
                                ),
                            ),
                        ),
                    ),
                ),
                _ => v,
            }
        } else {
            v
        },
        _ => v,
    }
}

/// A node as a tree query returns it.
pub open spec fn depth_limited(v: Json, max_depth: Option<u32>) -> Json {
    match max_depth {
        Some(m) => pruned(v, 0, m as int),
        None => v,
    }
}

/// The tree nodes that pass the filters, each cut to the depth limit.
pub open spec fn kept_tree_nodes(items: Seq<Json>, q: GameQuery) -> Seq<Json>
    decreases items.len(),
{
    if items.len() == 0 {
        Seq::empty()
    } else {
        let prev = kept_tree_nodes(items.drop_last(), q);
        if tree_node_kept(items.last(), q) {
            prev.push(depth_limited(items.last(), q.max_depth))
        } else {
            prev
        }
    }
}

/// The script entries that pass the filters.
pub open spec fn kept_scripts(items: Seq<Json>, q: GameQuery) -> Seq<Json>
    decreases items.len(),
{
    if items.len() == 0 {
        Seq::empty()
    } else {
        let prev = kept_scripts(items.drop_last(), q);
        if script_kept(items.last(), q) {
            prev.push(items.last())
        } else {
            prev
        }
    }
}

/// The entries that pass the filters.
pub open spec fn kept_entries(items: Seq<Json>, q: GameQuery) -> Seq<Json>
    decreases items.len(),
{
    if items.len() == 0 {
        Seq::empty()
    } else {
        let prev = kept_entries(items.drop_last(), q);
        if entry_kept(items.last(), q) {
            prev.push(items.last())
        } else {
            prev
        }
    }
}

/// The result of a tree query: the filtered top-level nodes; anything that
/// is not an array comes back as it is.
pub open spec fn tree_query(t: Json, q: GameQuery) -> Json {
    match t {
        Json::Array(items) => Json::Array(kept_tree_nodes(items, q)),
        _ => t,
    }
}

/// The result of a scripts query.
pub open spec fn scripts_query(t: Json, q: GameQuery) -> Json {
    match t {
        Json::Array(items) => Json::Array(kept_scripts(items, q)),
        _ => t,
    }
}

/// The result of a query on any other scope.
pub open spec fn entries_query(t: Json, q: GameQuery) -> Json {
    match t {
        Json::Array(items) => Json::Array(kept_entries(items, q)),
        _ => t,
    }
}

fn lower_text(s: &Vec<char>) -> (r: Vec<char>)
    ensures
        r@ == lower_of(s@),
{
    let t = string_of(s);
    let l = to_lower(t.as_str());
    chars_of(l.as_str())
}

fn lower_opt(s: &Option<String>) -> (r: Vec<char>)
    requires
        s is Some,
    ensures
        r@ == lower_of(s->0@),
{
    match s {
        Some(t) => {
            let l = to_lower(t.as_str());
            chars_of(l.as_str())
        },
        None => Vec::new(),
    }
}

fn prefix_pass_exec(p: &Option<String>, t: &Vec<char>) -> (r: bool)
    ensures
        r == prefix_pass(*p, t@),
{
    match p {
        Some(_) => starts_with(&lower_text(t), &lower_opt(p)),
        None => true,
    }
}

fn class_pass_exec(c: &Option<String>, t: &Vec<char>) -> (r: bool)
    ensures
        r == class_pass(*c, t@),
{
    match c {
        Some(cls) => eq_ignore_ascii_case(t, &chars_of(cls.as_str())),
        None => true,
    }
}

fn search_hit_exec(s: &Option<String>, t: &Vec<char>) -> (r: bool)
    requires
        s is Some,
    ensures
        r == search_hit(*s, t@),
{
    contains_text(&lower_text(t), &lower_opt(s))
}

fn tree_node_kept_exec(v: &JsonValue, q: &GameQuery) -> (r: bool)
    ensures
        r == tree_node_kept(v@, *q),
{
    let path = v.text_member("path");
    let name = v.text_member("name");
    let class = v.text_member("class_name");
    if !prefix_pass_exec(&q.path, &path) || !class_pass_exec(&q.class, &class) {
        return false;
    }
    match &q.search {
        Some(_) => search_hit_exec(&q.search, &name) || search_hit_exec(&q.search, &path),
        None => true,
    }
}

fn script_kept_exec(v: &JsonValue, q: &GameQuery) -> (r: bool)
    ensures
        r == script_kept(v@, *q),
{
    let path = v.text_member("path");
    let class = v.text_member("class_name");
    if !prefix_pass_exec(&q.path, &path) || !class_pass_exec(&q.class, &class) {
        return false;
    }
    match &q.search {
        Some(_) => {
            if search_hit_exec(&q.search, &path) {
                true
            } else {
                match v.get("outline") {
                    Some(outline) => {
                        let mut text: Vec<char> = Vec::new();
                        outline.write_text(&mut text);
                        assert(text@ =~= json_text(member(v@, "outline"@)->0));
                        search_hit_exec(&q.search, &text)
                    },
                    None => false,
                }
            }
        },
        None => true,
    }
}

fn entry_kept_exec(v: &JsonValue, q: &GameQuery) -> (r: bool)
    ensures
        r == entry_kept(v@, *q),
{
    let path = v.text_member("path");
    let name = v.text_member("name");
    let class = v.text_member("class_name");
    if !(prefix_pass_exec(&q.path, &path) || prefix_pass_exec(&q.path, &name)) {
        return false;
    }
    if !class_pass_exec(&q.class, &class) {
        return false;
    }
    match &q.search {
        Some(_) => search_hit_exec(&q.search, &path) || search_hit_exec(&q.search, &name),
        None => true,
    }
}

fn without_children(fields: &Vec<JsonField>) -> (r: Vec<JsonField>)
    ensures
        fields_model(r@) == without_key(fields_model(fields@), "children"@),
{
    let ghost fs = fields_model(fields@);
    let mut out: Vec<JsonField> = Vec::new();
    let mut i: usize = 0;
    assert(fields_model(out@) =~= without_key(fs.subrange(0, 0), "children"@));
    while i < fields.len()
        invariant
            i <= fields@.len(),
            fs == fields_model(fields@),
            fields_model(out@) == without_key(fs.subrange(0, i as int), "children"@),
        decreases fields@.len() - i,
    {
        let ghost sub = fs.subrange(0, i + 1);
        assert(sub.drop_last() =~= fs.subrange(0, i as int));
        let ghost before = fields_model(out@);
        if !crate::text::same_text(fields[i].key.as_str(), "children") {
            out.push(JsonField { key: fields[i].key.clone(), value: fields[i].value.deep_copy() });
            assert(fields_model(out@) =~= before.push(fs[i as int]));
        } else {
            assert(fields_model(out@) =~= before);
        }
        i = i + 1;
    }
    assert(fs.subrange(0, fields@.len() as int) =~= fs);
    out
}

/// A node cut to the depth limit.
pub fn prune(node: &JsonValue, current: u32, max: u32) -> (r: JsonValue)
    ensures
        r@ == pruned(node@, current as int, max as int),
    decreases node,
{
    match node {
        JsonValue::Object(fields) => {
            proof {
                lemma_object_model(*fields);
            }
            if current >= max {
                let kept = without_children(fields);
                proof {
                    lemma_object_model(kept);
                }
                assert(JsonValue::Object(kept)@ == pruned(node@, current as int, max as int));
                return JsonValue::Object(kept);
            }
            let k = match node.member_index("children") {
                Some(k) => k,
                None => {
                    assert(node@ == pruned(node@, current as int, max as int));
                    return node.deep_copy();
                },
            };
            let kids = match &fields[k].value {
                JsonValue::Array(kids) => kids,
                _ => {
                    proof {
                        let fs = node@->Object_0;
                        let c = choose|c: int| first_key(fs, "children"@, c);
                        crate::json::lemma_first_key_unique(fs, "children"@, k as int, c);
                    }
                    assert(node@ == pruned(node@, current as int, max as int));
                    return node.deep_copy();
                },
            };
            let ghost ks = fields@[k as int].value@->Array_0;
            let mut out: Vec<JsonValue> = Vec::new();
            let mut j: usize = 0;
            while j < kids.len()
                invariant
                    *node == JsonValue::Object(*fields),
                    k < fields@.len(),
                    fields@[k as int].value == JsonValue::Array(*kids),
                    ks == fields@[k as int].value@->Array_0,
                    current < max,
                    j <= kids@.len(),
                    out@.len() == j,
                    forall|t: int| 0 <= t < j ==> out@[t]@ == pruned(ks[t], current + 1, max as int),
                decreases kids@.len() - j,
            {
                proof {
                    assert(decreases_to!(*kids => kids[j as int]));
                    assert(decreases_to!(*fields => fields[k as int]));
                    assert(decreases_to!(*node => (*node)->Object_0));
                    assert(ks[j as int] == kids@[j as int]@);
                }
                out.push(prune(&kids[j], current + 1, max));
                j = j + 1;
            }
            let mut new_fields: Vec<JsonField> = Vec::new();
            let mut i: usize = 0;
            while i < fields.len()
                invariant
                    i <= fields@.len(),
                    new_fields@.len() == i,
                    forall|t: int| 0 <= t < i ==> #[trigger] new_fields@[t].key@ == fields@[t].key@ && new_fields@[t].value@ == fields@[t].value@,
                decreases fields@.len() - i,
            {
                new_fields.push(JsonField { key: fields[i].key.clone(), value: fields[i].value.deep_copy() });
                i = i + 1;
            }
            let new_kids = JsonValue::Array(out);
            let key = fields[k].key.clone();
            new_fields[k] = JsonField { key, value: new_kids };
            proof {
                lemma_array_model(out);
                lemma_object_model(new_fields);
                let fs = node@->Object_0;
                let c = choose|c: int| first_key(fs, "children"@, c);
                crate::json::lemma_first_key_unique(fs, "children"@, k as int, c);
                assert(items_model(out@) =~= Seq::new(
                    ks.len(),
                    |t: int| if 0 <= t < ks.len() { pruned(ks[t], current + 1, max as int) } else { Json::Null },
                ));
                assert(fields_model(new_fields@) =~= fs.update(
                    k as int,
                    (fs[k as int].0, Json::Array(items_model(out@))),
                ));
                assert(fs[k as int].1 == fields@[k as int].value@);
                assert(fs[k as int].1 == Json::Array(ks));
                assert(c == k);
                let p = pruned(node@, current as int, max as int);
                assert(p->Object_0[k as int].1->Array_0 =~= items_model(out@));
                assert(p->Object_0 =~= fields_model(new_fields@));
            }
            assert(JsonValue::Object(new_fields)@ == pruned(node@, current as int, max as int));
            JsonValue::Object(new_fields)
        },
        _ => node.deep_copy(),
    }
}

/// The nodes of a tree scope that pass the query's filters, each cut to its
/// depth limit; a stored value that is not an array comes back unchanged.
pub fn filter_tree(tree: &JsonValue, query: &GameQuery) -> (r: JsonValue)
    ensures
        r@ == tree_query(tree@, *query),
{
    match tree {
        JsonValue::Array(items) => {
            proof {
                lemma_array_model(*items);
            }
            let ghost s = items_model(items@);
            let mut out: Vec<JsonValue> = Vec::new();
            let mut i: usize = 0;
            assert(items_model(out@) =~= kept_tree_nodes(s.subrange(0, 0), *query));
            while i < items.len()
                invariant
                    i <= items@.len(),
                    s == items_model(items@),
                    items_model(out@) == kept_tree_nodes(s.subrange(0, i as int), *query),
                decreases items@.len() - i,
            {
                let ghost sub = s.subrange(0, i + 1);
                assert(sub.drop_last() =~= s.subrange(0, i as int));
                let ghost before = items_model(out@);
                if tree_node_kept_exec(&items[i], query) {
                    let node = match query.max_depth {
                        Some(m) => prune(&items[i], 0, m),
                        None => items[i].deep_copy(),
                    };
                    out.push(node);
                    assert(items_model(out@) =~= before.push(depth_limited(s[i as int], query.max_depth)));
                } else {
                    assert(items_model(out@) =~= before);
                }
                i = i + 1;
            }
            assert(s.subrange(0, items@.len() as int) =~= s);
            proof {
                lemma_array_model(out);
            }
            JsonValue::Array(out)
        },
        _ => tree.deep_copy(),
    }
}

/// The script entries that pass the query's filters; a stored value that is
/// not an array comes back unchanged.
pub fn filter_scripts(data: &JsonValue, query: &GameQuery) -> (r: JsonValue)
    ensures
        r@ == scripts_query(data@, *query),
{
    match data {
        JsonValue::Array(items) => {
            proof {
                lemma_array_model(*items);
            }
            let ghost s = items_model(items@);
            let mut out: Vec<JsonValue> = Vec::new();
            let mut i: usize = 0;
            assert(items_model(out@) =~= kept_scripts(s.subrange(0, 0), *query));
            while i < items.len()
                invariant
                    i <= items@.len(),
                    s == items_model(items@),
                    items_model(out@) == kept_scripts(s.subrange(0, i as int), *query),
                decreases items@.len() - i,
            {
                let ghost sub = s.subrange(0, i + 1);
                assert(sub.drop_last() =~= s.subrange(0, i as int));
                let ghost before = items_model(out@);
                if script_kept_exec(&items[i], query) {
                    out.push(items[i].deep_copy());
                    assert(items_model(out@) =~= before.push(s[i as int]));
                } else {
                    assert(items_model(out@) =~= before);
                }
                i = i + 1;
            }
            assert(s.subrange(0, items@.len() as int) =~= s);
            proof {
                lemma_array_model(out);
            }
            JsonValue::Array(out)
        },
        _ => data.deep_copy(),
    }
}

/// The entries of a remotes, properties or services scope that pass the
/// query's filters; a stored value that is not an array comes back unchanged.
pub fn filter_entries(data: &JsonValue, query: &GameQuery) -> (r: JsonValue)
    ensures
        r@ == entries_query(data@, *query),
{
    match data {
        JsonValue::Array(items) => {
            proof {
                lemma_array_model(*items);
            }
            let ghost s = items_model(items@);
            let mut out: Vec<JsonValue> = Vec::new();
            let mut i: usize = 0;
            assert(items_model(out@) =~= kept_entries(s.subrange(0, 0), *query));
            while i < items.len()
                invariant
                    i <= items@.len(),
                    s == items_model(items@),
                    items_model(out@) == kept_entries(s.subrange(0, i as int), *query),
                decreases items@.len() - i,
            {
                let ghost sub = s.subrange(0, i + 1);
                assert(sub.drop_last() =~= s.subrange(0, i as int));
                let ghost before = items_model(out@);
                if entry_kept_exec(&items[i], query) {
                    out.push(items[i].deep_copy());
                    assert(items_model(out@) =~= before.push(s[i as int]));
                } else {
                    assert(items_model(out@) =~= before);
                }
                i = i + 1;
            }
            assert(s.subrange(0, items@.len() as int) =~= s);
            proof {
                lemma_array_model(out);
            }
            JsonValue::Array(out)
        },
        _ => data.deep_copy(),
    }
}

proof fn lemma_without_key_absent(fields: Seq<(Seq<char>, Json)>, key: Seq<char>)
    ensures
        forall|j: int|
            0 <= j < without_key(fields, key).len() ==> #[trigger] without_key(fields, key)[j].0
                != key,
    decreases fields.len(),
{
    if fields.len() > 0 {
        lemma_without_key_absent(fields.drop_last(), key);
        let prev = without_key(fields.drop_last(), key);
        if fields.last().0 != key {
            assert forall|j: int| 0 <= j < prev.push(fields.last()).len() implies #[trigger] prev.push(
                fields.last(),
            )[j].0 != key by {
                if j < prev.len() {
                    assert(prev[j].0 != key);
                }
            }
        }
    }
}

/// At or past the depth limit, a node keeps no `children` member.
pub proof fn lemma_pruned_at_limit(v: Json, current: int, max: int)
    requires
        current >= max,
    ensures
        member(pruned(v, current, max), "children"@) is None,
{
    if let Json::Object(fields) = v {
        lemma_without_key_absent(fields, "children"@);
        let rest = without_key(fields, "children"@);
        assert(!exists|i: int| first_key(rest, "children"@, i));
    }
}

/// Below the depth limit, a node keeps its array of children, each element
/// cut at the next depth.
pub proof fn lemma_pruned_below_limit(v: Json, current: int, max: int, kids: Seq<Json>)
    requires
        current < max,
        member(v, "children"@) == Some(Json::Array(kids)),
    ensures
        match member(pruned(v, current, max), "children"@) {
            Some(Json::Array(cut)) => cut.len() == kids.len() && forall|k: int|
                0 <= k < kids.len() ==> cut[k] == pruned(kids[k], current + 1, max),
            _ => false,
        },
{
    let fields = v->Object_0;
    let i = choose|i: int| first_key(fields, "children"@, i);
    assert(fields[i].1 == Json::Array(kids));
    let p = pruned(v, current, max);
    let cut = p->Object_0[i].1->Array_0;
    let updated = fields.update(i, (fields[i].0, Json::Array(cut)));
    assert(p->Object_0 =~= updated);
    assert(p == Json::Object(updated));
    assert(first_key(updated, "children"@, i));
    let c = choose|c: int| first_key(updated, "children"@, c);
    crate::json::lemma_first_key_unique(updated, "children"@, i, c);
}

/// A depth limit of 0 leaves a node without children; a depth limit of 1
/// keeps its array of children, whose elements then carry no children.
pub proof fn lemma_depth_limit_levels(v: Json)
    ensures
        member(pruned(v, 0, 0), "children"@) is None,
        forall|kids: Seq<Json>|
            member(v, "children"@) == Some(Json::Array(kids)) ==> match member(
                #[trigger] pruned(v, 0, 1),
                "children"@,
            ) {
                Some(Json::Array(cut)) => cut.len() == kids.len() && forall|k: int|
                    0 <= k < cut.len() ==> member(#[trigger] cut[k], "children"@) is None,
                _ => false,
            },
{
    lemma_pruned_at_limit(v, 0, 0);
    assert forall|kids: Seq<Json>| member(v, "children"@) == Some(Json::Array(kids)) implies match member(
        #[trigger] pruned(v, 0, 1),
        "children"@,
    ) {
        Some(Json::Array(cut)) => cut.len() == kids.len() && forall|k: int|
            0 <= k < cut.len() ==> member(#[trigger] cut[k], "children"@) is None,
        _ => false,
    } by {
        lemma_pruned_below_limit(v, 0, 1, kids);
        assert forall|k: int| 0 <= k < kids.len() implies member(pruned(kids[k], 1, 1), "children"@) is None by {
            lemma_pruned_at_limit(kids[k], 1, 1);
        }
    }
}

/// Every node that a tree query returns is a top-level node of the input that
/// passes the filters, cut to the depth limit, and they come in input order.
pub proof fn lemma_tree_query_nodes(items: Seq<Json>, q: GameQuery)
    ensures
        forall|i: int|
            0 <= i < kept_tree_nodes(items, q).len() ==> exists|j: int|
                0 <= j < items.len() && tree_node_kept(items[j], q) && #[trigger] kept_tree_nodes(
                    items,
                    q,
                )[i] == depth_limited(items[j], q.max_depth),
    decreases items.len(),
{
    if items.len() > 0 {
        let prev = items.drop_last();
        lemma_tree_query_nodes(prev, q);
        let out = kept_tree_nodes(items, q);
        assert forall|i: int| 0 <= i < out.len() implies exists|j: int|
            0 <= j < items.len() && tree_node_kept(items[j], q) && #[trigger] out[i]
                == depth_limited(items[j], q.max_depth) by {
            if i < kept_tree_nodes(prev, q).len() {
                let j = choose|j: int|
                    0 <= j < prev.len() && tree_node_kept(prev[j], q) && #[trigger] kept_tree_nodes(
                        prev,
                        q,
                    )[i] == depth_limited(prev[j], q.max_depth);
                assert(items[j] == prev[j]);
            } else {
                assert(out[i] == depth_limited(items[items.len() - 1], q.max_depth));
            }
        }
    }
}

/// Record `i` is the first of `full` whose path is `path`.
pub open spec fn first_with_path(full: Seq<Json>, path: Seq<char>, i: int) -> bool {
    0 <= i < full.len() && text_member(full[i], "path"@) == path && forall|j: int|
        0 <= j < i ==> text_member(full[j], "path"@) != path
}

/// The `source` member of the first source record for `path`, if any.
pub open spec fn source_for(full: Seq<Json>, path: Seq<char>) -> Option<Json> {
    if exists|i: int| first_with_path(full, path, i) {
        member(full[choose|i: int| first_with_path(full, path, i)], "source"@)
    } else {
        None
    }
}

/// An object with member `key` set to `value`: replaced where it stands,
/// or added at the end; anything but an object is left as it is.
pub open spec fn with_member(v: Json, key: Seq<char>, value: Json) -> Json {
    match v {
        Json::Object(fields) => if exists|i: int| first_key(fields, key, i) {
            Json::Object(fields.update(choose|i: int| first_key(fields, key, i), (key, value)))
        } else {
            Json::Object(fields.push((key, value)))
        },
        _ => v,
    }
}

/// A script entry with the source of its path added, when it has a path and
/// a source record for that path holds a source.
pub open spec fn merged_script(s: Json, full: Seq<Json>) -> Json {
    let path = text_member(s, "path"@);
    if path.len() == 0 {
        s
    } else {
        match source_for(full, path) {
            Some(src) => with_member(s, "source"@, src),
            None => s,
        }
    }
}

/// Script entries with their sources merged in, when both are arrays.
pub open spec fn merged_sources(scripts: Json, full: Json) -> Json {
    match (scripts, full) {
        (Json::Array(ss), Json::Array(fs)) => Json::Array(
            Seq::new(ss.len(), |i: int| merged_script(ss[i], fs)),
        ),
        _ => scripts,
    }
}

fn source_lookup<'a>(full: &'a Vec<JsonValue>, path: &Vec<char>) -> (r: Option<&'a JsonValue>)
    ensures
        match r {
            Some(x) => source_for(items_model(full@), path@) == Some(x@),
            None => source_for(items_model(full@), path@) is None,
        },
{
    let ghost fs = items_model(full@);
    let mut i: usize = 0;
    while i < full.len()
        invariant
            i <= full@.len(),
            fs == items_model(full@),
            forall|j: int| 0 <= j < i ==> text_member(fs[j], "path"@) != path@,
        decreases full@.len() - i,
    {
        let p = full[i].text_member("path");
        if crate::text::same_chars(&p, path) {
            proof {
                assert(first_with_path(fs, path@, i as int));
                let c = choose|c: int| first_with_path(fs, path@, c);
                if c < i {
                    assert(text_member(fs[c], "path"@) != path@);
                } else if c > i {
                    assert(text_member(fs[i as int], "path"@) != path@);
                }
            }
            return full[i].get("source");
        }
        i = i + 1;
    }
    None
}

fn set_member(v: &JsonValue, key: &str, value: JsonValue) -> (r: JsonValue)
    ensures
        r@ == with_member(v@, key@, value@),
{
    match v {
        JsonValue::Object(fields) => {
            proof {
                lemma_object_model(*fields);
            }
            let pos = v.member_index(key);
            let mut out: Vec<JsonField> = Vec::new();
            let mut i: usize = 0;
            while i < fields.len()
                invariant
                    i <= fields@.len(),
                    out@.len() == i,
                    forall|t: int| 0 <= t < i ==> #[trigger] out@[t].key@ == fields@[t].key@
                        && out@[t].value@ == fields@[t].value@,
                decreases fields@.len() - i,
            {
                out.push(JsonField { key: fields[i].key.clone(), value: fields[i].value.deep_copy() });
                i = i + 1;
            }
            let ghost fs = v@->Object_0;
            let ghost value_model = value@;
            match pos {
                Some(k) => {
                    out.set(k, JsonField { key: key.to_owned(), value });
                    proof {
                        let c = choose|c: int| first_key(fs, key@, c);
                        crate::json::lemma_first_key_unique(fs, key@, k as int, c);
                        assert(fields_model(out@) =~= fs.update(k as int, (key@, value_model)));
                    }
                },
                None => {
                    out.push(JsonField { key: key.to_owned(), value });
                    assert(fields_model(out@) =~= fs.push((key@, value_model)));
                },
            }
            proof {
                lemma_object_model(out);
            }
            JsonValue::Object(out)
        },
        _ => v.deep_copy(),
    }
}

/// Adds to each script entry the full source stored for its path, when
/// both the entries and the source records are arrays.
pub fn merge_source_into_scripts(scripts: &mut JsonValue, full_data: &JsonValue)
    ensures
        final(scripts)@ == merged_sources(old(scripts)@, full_data@),
{
    let merged = match (&*scripts, full_data) {
        (JsonValue::Array(ss), JsonValue::Array(fs)) => {
            proof {
                lemma_array_model(*ss);
                lemma_array_model(*fs);
            }
            let ghost fm = items_model(fs@);
            let mut out: Vec<JsonValue> = Vec::new();
            let mut i: usize = 0;
            while i < ss.len()
                invariant
                    i <= ss@.len(),
                    fm == items_model(fs@),
                    out@.len() == i,
                    forall|t: int| 0 <= t < i ==> #[trigger] out@[t]@ == merged_script(ss@[t]@, fm),
                decreases ss@.len() - i,
            {
                let s = &ss[i];
                let path = s.text_member("path");
                let m = if path.len() == 0 {
                    s.deep_copy()
                } else {
                    match source_lookup(fs, &path) {
                        Some(src) => set_member(s, "source", src.deep_copy()),
                        None => s.deep_copy(),
                    }
                };
                out.push(m);
                i = i + 1;
            }
            proof {
                lemma_array_model(out);
                assert(items_model(out@) =~= Seq::new(
                    ss@.len(),
                    |t: int| merged_script(items_model(ss@)[t], fm),
                ));
                assert(JsonValue::Array(out)@->Array_0 =~= merged_sources(old(scripts)@, full_data@)->Array_0);
            }
            Some(JsonValue::Array(out))
        },
        _ => None,
    };
    match merged {
        Some(m) => {
            *scripts = m;
        },
        None => {},
    }
}

} // verus!
