use vstd::prelude::*;
use crate::json::{
    fields_model, items_model, lemma_array_model, lemma_object_model, Json, JsonField, JsonValue,
};
use crate::outline::{strings_view, OutlineView, ScriptOutline};
use crate::text::{decimal, decimal_text, string_of};

verus! {

/// One object of the scanned application's tree.
pub struct InstanceNode {
    pub name: String,
    pub class_name: String,
    /// Unique dotted identifier of the object.
    pub path: String,
    pub children: Vec<InstanceNode>,
}

/// The stored record of one script: its outline only when it had source.
pub struct ScriptEntry {
    pub path: String,
    pub class_name: String,
    pub enabled: Option<bool>,
    pub outline: Option<ScriptOutline>,
    pub decompiled: bool,
    pub line_count: u64,
    pub size: u64,
}

/// The full source of one script, stored apart from its outline.
pub struct ScriptFull {
    pub path: String,
    pub source: String,
}

/// A remote endpoint found by a scan.
pub struct RemoteEntry {
    pub path: String,
    pub class_name: String,
}

/// A top-level service found by a scan.
pub struct ServiceEntry {
    pub name: String,
    pub class_name: String,
    pub child_count: u64,
    pub children: Vec<ServiceChild>,
}

/// A direct child of a service.
pub struct ServiceChild {
    pub name: String,
    pub class_name: String,
}

/// The property values read from one object, as name and value text.
pub struct PropertyEntry {
    pub path: String,
    pub class_name: String,
    pub properties: Vec<(String, String)>,
}

pub open spec fn text_field(key: Seq<char>, value: Seq<char>) -> (Seq<char>, Json) {
    (key, Json::Str(value))
}

pub open spec fn count_field(key: Seq<char>, n: nat) -> (Seq<char>, Json) {
    (key, Json::Number(decimal(n)))
}

/// A list of texts as a JSON array of strings.
pub open spec fn texts_json(v: Seq<Seq<char>>) -> Json {
    Json::Array(Seq::new(v.len(), |i: int| Json::Str(v[i])))
}

/// The JSON form of an outline.
pub open spec fn outline_json(o: OutlineView) -> Json {
    Json::Object(
        seq![
            ("functions"@, texts_json(o.functions)),
            ("requires"@, texts_json(o.requires)),
            ("services"@, texts_json(o.services)),
            ("remote_accesses"@, texts_json(o.remote_accesses)),
            ("instance_refs"@, texts_json(o.instance_refs)),
            ("string_constants"@, texts_json(o.string_constants)),
            ("top_level_vars"@, texts_json(o.top_level_vars)),
            count_field("line_count"@, o.line_count),
        ],
    )
}

fn field(key: &str, value: JsonValue) -> (r: JsonField)
    ensures
        r.key@ == key@,
        r.value == value,
{
    JsonField { key: key.to_owned(), value }
}

fn text_value(s: &String) -> (r: JsonValue)
    ensures
        r@ == Json::Str(s@),
{
    JsonValue::Str(s.clone())
}

fn count_value(n: u64) -> (r: JsonValue)
    ensures
        r@ == Json::Number(decimal(n as nat)),
{
    JsonValue::Number(string_of(&decimal_text(n)))
}

fn texts_value(v: &Vec<String>) -> (r: JsonValue)
    ensures
        r@ == texts_json(strings_view(v@)),
{
    let mut out: Vec<JsonValue> = Vec::new();
    let mut i: usize = 0;
    while i < v.len()
        invariant
            i <= v@.len(),
            items_model(out@) =~= Seq::new(i as nat, |k: int| Json::Str(v@[k]@)),
        decreases v@.len() - i,
    {
        let ghost before = items_model(out@);
        let x = text_value(&v[i]);
        out.push(x);
        assert(items_model(out@) =~= before.push(x@));
        i = i + 1;
    }
    proof {
        lemma_array_model(out);
    }
    let r = JsonValue::Array(out);
    assert(r@->Array_0 =~= texts_json(strings_view(v@))->Array_0);
    r
}

impl ScriptOutline {
    /// The outline as a JSON object.
    pub fn to_json(&self) -> (r: JsonValue)
        ensures
            r@ == outline_json(self.view()),
    {
        let mut fs: Vec<JsonField> = Vec::new();
        fs.push(field("functions", texts_value(&self.functions)));
        fs.push(field("requires", texts_value(&self.requires)));
        fs.push(field("services", texts_value(&self.services)));
        fs.push(field("remote_accesses", texts_value(&self.remote_accesses)));
        fs.push(field("instance_refs", texts_value(&self.instance_refs)));
        fs.push(field("string_constants", texts_value(&self.string_constants)));
        fs.push(field("top_level_vars", texts_value(&self.top_level_vars)));
        fs.push(field("line_count", count_value(self.line_count)));
        proof {
            lemma_object_model(fs);
        }
        let r = JsonValue::Object(fs);
        assert(r@->Object_0 =~= outline_json(self.view())->Object_0);
        r
    }
}

impl ScriptEntry {
    pub open spec fn json_model(&self) -> Json {
        let base = seq![text_field("path"@, self.path@), text_field("class_name"@, self.class_name@)];
        let with_enabled = match self.enabled {
            Some(b) => base.push(("enabled"@, Json::Bool(b))),
            None => base,
        };
        let with_outline = match self.outline {
            Some(o) => with_enabled.push(("outline"@, outline_json(o.view()))),
            None => with_enabled,
        };
        Json::Object(
            with_outline + seq![
                ("decompiled"@, Json::Bool(self.decompiled)),
                count_field("line_count"@, self.line_count as nat),
                count_field("size"@, self.size as nat),
            ],
        )
    }

    /// The entry as a JSON object; absent `enabled` and `outline` are left out.
    pub fn to_json(&self) -> (r: JsonValue)
        ensures
            r@ == self.json_model(),
    {
        let mut fs: Vec<JsonField> = Vec::new();
        fs.push(field("path", text_value(&self.path)));
        fs.push(field("class_name", text_value(&self.class_name)));
        match self.enabled {
            Some(b) => fs.push(field("enabled", JsonValue::Bool(b))),
            None => {},
        }
        match &self.outline {
            Some(o) => fs.push(field("outline", o.to_json())),
            None => {},
        }
        fs.push(field("decompiled", JsonValue::Bool(self.decompiled)));
        fs.push(field("line_count", count_value(self.line_count)));
        fs.push(field("size", count_value(self.size)));
        proof {
            lemma_object_model(fs);
        }
        let r = JsonValue::Object(fs);
        assert(r@->Object_0 =~= self.json_model()->Object_0);
        r
    }
}

impl ScriptFull {
    pub open spec fn json_model(&self) -> Json {
        Json::Object(seq![text_field("path"@, self.path@), text_field("source"@, self.source@)])
    }

    /// The record as a JSON object.
    pub fn to_json(&self) -> (r: JsonValue)
        ensures
            r@ == self.json_model(),
    {
        let mut fs: Vec<JsonField> = Vec::new();
        fs.push(field("path", text_value(&self.path)));
        fs.push(field("source", text_value(&self.source)));
        proof {
            lemma_object_model(fs);
        }
        let r = JsonValue::Object(fs);
        assert(r@->Object_0 =~= self.json_model()->Object_0);
        r
    }
}

impl RemoteEntry {
    pub open spec fn json_model(&self) -> Json {
        Json::Object(seq![text_field("path"@, self.path@), text_field("class_name"@, self.class_name@)])
    }

    /// The entry as a JSON object.
    pub fn to_json(&self) -> (r: JsonValue)
        ensures
            r@ == self.json_model(),
    {
        let mut fs: Vec<JsonField> = Vec::new();
        fs.push(field("path", text_value(&self.path)));
        fs.push(field("class_name", text_value(&self.class_name)));
        proof {
            lemma_object_model(fs);
        }
        let r = JsonValue::Object(fs);
        assert(r@->Object_0 =~= self.json_model()->Object_0);
        r
    }
}

impl ServiceChild {
    pub open spec fn json_model(&self) -> Json {
        Json::Object(seq![text_field("name"@, self.name@), text_field("class_name"@, self.class_name@)])
    }

    /// The child as a JSON object.
    pub fn to_json(&self) -> (r: JsonValue)
        ensures
            r@ == self.json_model(),
    {
        let mut fs: Vec<JsonField> = Vec::new();
        fs.push(field("name", text_value(&self.name)));
        fs.push(field("class_name", text_value(&self.class_name)));
        proof {
            lemma_object_model(fs);
        }
        let r = JsonValue::Object(fs);
        assert(r@->Object_0 =~= self.json_model()->Object_0);
        r
    }
}

impl ServiceEntry {
    pub open spec fn json_model(&self) -> Json {
        let base = seq![
            text_field("name"@, self.name@),
            text_field("class_name"@, self.class_name@),
            count_field("child_count"@, self.child_count as nat),
        ];
        if self.children@.len() == 0 {
            Json::Object(base)
        } else {
            Json::Object(
                base.push(
                    (
                        "children"@,
                        Json::Array(
                            Seq::new(self.children@.len(), |i: int| self.children@[i].json_model()),
                        ),
                    ),
                ),
            )
        }
    }

    /// The service as a JSON object; an empty child list is left out.
    pub fn to_json(&self) -> (r: JsonValue)
        ensures
            r@ == self.json_model(),
    {
        let mut fs: Vec<JsonField> = Vec::new();
        fs.push(field("name", text_value(&self.name)));
        fs.push(field("class_name", text_value(&self.class_name)));
        fs.push(field("child_count", count_value(self.child_count)));
        if self.children.len() > 0 {
            let mut kids: Vec<JsonValue> = Vec::new();
            let mut i: usize = 0;
            while i < self.children.len()
                invariant
                    i <= self.children@.len(),
                    items_model(kids@) =~= Seq::new(i as nat, |k: int| self.children@[k].json_model()),
                decreases self.children@.len() - i,
            {
                let ghost before = items_model(kids@);
                let x = self.children[i].to_json();
                kids.push(x);
                assert(items_model(kids@) =~= before.push(x@));
                i = i + 1;
            }
            proof {
                lemma_array_model(kids);
            }
            let ghost kids_model = items_model(kids@);
            fs.push(field("children", JsonValue::Array(kids)));
            assert(kids_model =~= self.json_model()->Object_0[3].1->Array_0);
        }
        proof {
            lemma_object_model(fs);
        }
        let r = JsonValue::Object(fs);
        assert(r@->Object_0 =~= self.json_model()->Object_0);
        r
    }
}

impl PropertyEntry {
    pub open spec fn json_model(&self) -> Json {
        Json::Object(
            seq![
                text_field("path"@, self.path@),
                text_field("class_name"@, self.class_name@),
                (
                    "properties"@,
                    Json::Object(
                        Seq::new(
                            self.properties@.len(),
                            |i: int| text_field(self.properties@[i].0@, self.properties@[i].1@),
                        ),
                    ),
                ),
            ],
        )
    }

    /// The entry as a JSON object, its properties as an object of texts.
    pub fn to_json(&self) -> (r: JsonValue)
        ensures
            r@ == self.json_model(),
    {
        let mut props: Vec<JsonField> = Vec::new();
        let mut i: usize = 0;
        while i < self.properties.len()
            invariant
                i <= self.properties@.len(),
                fields_model(props@) =~= Seq::new(
                    i as nat,
                    |k: int| text_field(self.properties@[k].0@, self.properties@[k].1@),
                ),
            decreases self.properties@.len() - i,
        {
            let ghost before = fields_model(props@);
            let x = JsonField { key: self.properties[i].0.clone(), value: text_value(&self.properties[i].1) };
            props.push(x);
            assert(fields_model(props@) =~= before.push((x.key@, x.value@)));
            i = i + 1;
        }
        proof {
            lemma_object_model(props);
        }
        let mut fs: Vec<JsonField> = Vec::new();
        fs.push(field("path", text_value(&self.path)));
        fs.push(field("class_name", text_value(&self.class_name)));
        fs.push(field("properties", JsonValue::Object(props)));
        proof {
            lemma_object_model(fs);
        }
        let r = JsonValue::Object(fs);
        assert(r@->Object_0 =~= self.json_model()->Object_0);
        r
    }
}

impl InstanceNode {
    pub open spec fn json_model(&self) -> Json
        decreases self,
    {
        let base = seq![
            text_field("name"@, self.name@),
            text_field("class_name"@, self.class_name@),
            text_field("path"@, self.path@),
        ];
        if self.children@.len() == 0 {
            Json::Object(base)
        } else {
            Json::Object(
                base.push(
                    (
                        "children"@,
                        Json::Array(
                            Seq::new(
                                self.children@.len(),
                                |i: int|
                                    if 0 <= i < self.children@.len() {
                                        self.children@[i].json_model()
                                    } else {
                                        Json::Null
                                    },
                            ),
                        ),
                    ),
                ),
            )
        }
    }

    /// The node as a JSON object, its children nested; an empty child list is left out.
    pub fn to_json(&self) -> (r: JsonValue)
        ensures
            r@ == self.json_model(),
        decreases self,
    {
        let mut fs: Vec<JsonField> = Vec::new();
        fs.push(field("name", text_value(&self.name)));
        fs.push(field("class_name", text_value(&self.class_name)));
        fs.push(field("path", text_value(&self.path)));
        if self.children.len() > 0 {
            let mut kids: Vec<JsonValue> = Vec::new();
            let mut i: usize = 0;
            while i < self.children.len()
                invariant
                    i <= self.children@.len(),
                    items_model(kids@) =~= Seq::new(
                        i as nat,
                        |k: int|
                            if 0 <= k < self.children@.len() {
                                self.children@[k].json_model()
                            } else {
                                Json::Null
                            },
                    ),
                decreases self.children@.len() - i,
            {
                proof {
                    assert(decreases_to!(self.children => self.children[i as int]));
                    assert(decreases_to!(*self => self.children));
                }
                let ghost before = items_model(kids@);
                let x = self.children[i].to_json();
                kids.push(x);
                assert(items_model(kids@) =~= before.push(x@));
                i = i + 1;
            }
            proof {
                lemma_array_model(kids);
            }
            let ghost kids_model = items_model(kids@);
            fs.push(field("children", JsonValue::Array(kids)));
            assert(kids_model =~= self.json_model()->Object_0[3].1->Array_0);
        }
        proof {
            lemma_object_model(fs);
        }
        let r = JsonValue::Object(fs);
        assert(r@->Object_0 =~= self.json_model()->Object_0);
        r
    }
}

} // verus!
