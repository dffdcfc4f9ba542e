use vstd::prelude::*;
use crate::text::{chars_of, same_text};

verus! {

/// A JSON document as the library reads and writes it.
///
/// Numbers are kept as their decimal text so that any value passes through
/// unchanged; object members keep the order in which they were given.
#[derive(PartialEq, Eq, Debug)]
pub enum JsonValue {
    Null,
    Bool(bool),
    Number(String),
    Str(String),
    Array(Vec<JsonValue>),
    Object(Vec<JsonField>),
}

/// One member of a JSON object.
#[derive(PartialEq, Eq, Debug)]
pub struct JsonField {
    pub key: String,
    pub value: JsonValue,
}

/// The mathematical model of a JSON document.
pub enum Json {
    Null,
    Bool(bool),
    Number(Seq<char>),
    Str(Seq<char>),
    Array(Seq<Json>),
    Object(Seq<(Seq<char>, Json)>),
}

impl JsonValue {
    pub open spec fn view(&self) -> Json
        decreases self,
    {
        match self {
            JsonValue::Null => Json::Null,
            JsonValue::Bool(b) => Json::Bool(*b),
            JsonValue::Number(n) => Json::Number(n@),
            JsonValue::Str(s) => Json::Str(s@),
            JsonValue::Array(items) => Json::Array(
                Seq::new(
                    items@.len(),
                    |i: int|
                        if 0 <= i < items@.len() {
                            items@[i].view()
                        } else {
                            Json::Null
                        },
                ),
            ),
            JsonValue::Object(fields) => Json::Object(
                Seq::new(
                    fields@.len(),
                    |i: int|
                        if 0 <= i < fields@.len() {
                            (fields@[i].key@, fields@[i].value.view())
                        } else {
                            (Seq::empty(), Json::Null)
                        },
                ),
            ),
        }
    }
}

/// The models of a sequence of documents.
pub open spec fn items_model(items: Seq<JsonValue>) -> Seq<Json> {
    Seq::new(items.len(), |i: int| items[i]@)
}

/// The models of the members of an object.
pub open spec fn fields_model(fields: Seq<JsonField>) -> Seq<(Seq<char>, Json)> {
    Seq::new(fields.len(), |i: int| (fields[i].key@, fields[i].value@))
}

pub proof fn lemma_array_model(items: Vec<JsonValue>)
    ensures
        JsonValue::Array(items)@ == Json::Array(items_model(items@)),
{
    assert(JsonValue::Array(items)@->Array_0 =~= items_model(items@));
}

pub proof fn lemma_object_model(fields: Vec<JsonField>)
    ensures
        JsonValue::Object(fields)@ == Json::Object(fields_model(fields@)),
{
    assert(JsonValue::Object(fields)@->Object_0 =~= fields_model(fields@));
}

/// `i` is the first member of `fields` under `key`.
pub open spec fn first_key(fields: Seq<(Seq<char>, Json)>, key: Seq<char>, i: int) -> bool {
    0 <= i < fields.len() && fields[i].0 == key && forall|j: int|
        0 <= j < i ==> fields[j].0 != key
}

/// The value of member `key` of an object (the first one under that key),
/// or nothing for a value that is no object or has no such member.
pub open spec fn member(v: Json, key: Seq<char>) -> Option<Json> {
    match v {
        Json::Object(fields) => if exists|i: int| first_key(fields, key, i) {
            Some(fields[choose|i: int| first_key(fields, key, i)].1)
        } else {
            None
        },
        _ => None,
    }
}

/// The text of member `key`, or the empty text when it is absent or no string.
pub open spec fn text_member(v: Json, key: Seq<char>) -> Seq<char> {
    match member(v, key) {
        Some(Json::Str(s)) => s,
        _ => Seq::empty(),
    }
}

/// The truth value of member `key`, when it is present and a boolean.
pub open spec fn bool_member(v: Json, key: Seq<char>) -> Option<bool> {
    match member(v, key) {
        Some(Json::Bool(b)) => Some(b),
        _ => None,
    }
}

pub proof fn lemma_first_key_unique(fields: Seq<(Seq<char>, Json)>, key: Seq<char>, i: int, k: int)
    requires
        first_key(fields, key, i),
        first_key(fields, key, k),
    ensures
        i == k,
{
    if i < k {
        assert(fields[i].0 != key);
    } else if k < i {
        assert(fields[k].0 != key);
    }
}

impl JsonValue {
    /// The position of the first member under `key`, in an object.
    pub fn member_index(&self, key: &str) -> (r: Option<usize>)
        requires
            self is Object,
        ensures
            match r {
                Some(i) => first_key(self@->Object_0, key@, i as int) && i < self->Object_0@.len(),
                None => !exists|i: int| first_key(self@->Object_0, key@, i),
            },
    {
        let fields = match self {
            JsonValue::Object(fields) => fields,
            _ => { return None; },
        };
        let ghost fs = self@->Object_0;
        let mut i: usize = 0;
        while i < fields.len()
            invariant
                self@ == Json::Object(fs),
                *self == JsonValue::Object(*fields),
                fs.len() == fields@.len(),
                forall|j: int| 0 <= j < fs.len() ==> fs[j] == (fields@[j].key@, fields@[j].value@),
                i <= fields@.len(),
                forall|j: int| 0 <= j < i ==> fs[j].0 != key@,
            decreases fields@.len() - i,
        {
            if same_text(fields[i].key.as_str(), key) {
                assert(first_key(fs, key@, i as int));
                return Some(i);
            }
            i = i + 1;
        }
        None
    }

    /// The member `key` of an object.
    pub fn get(&self, key: &str) -> (r: Option<&JsonValue>)
        ensures
            match r {
                Some(x) => member(self@, key@) == Some(x@),
                None => member(self@, key@) is None,
            },
    {
        match self {
            JsonValue::Object(fields) => {
                match self.member_index(key) {
                    Some(i) => {
                        proof {
                            let fs = self@->Object_0;
                            let c = choose|c: int| first_key(fs, key@, c);
                            lemma_first_key_unique(fs, key@, i as int, c);
                        }
                        Some(&fields[i].value)
                    },
                    None => None,
                }
            },
            _ => None,
        }
    }

    /// The text of member `key`; empty when it is absent or no string.
    pub fn text_member(&self, key: &str) -> (r: Vec<char>)
        ensures
            r@ == text_member(self@, key@),
    {
        match self.get(key) {
            Some(JsonValue::Str(s)) => chars_of(s.as_str()),
            _ => Vec::new(),
        }
    }

    /// The truth value of member `key`, when it is present and a boolean.
    pub fn bool_member(&self, key: &str) -> (r: Option<bool>)
        ensures
            r == bool_member(self@, key@),
    {
        match self.get(key) {
            Some(JsonValue::Bool(b)) => Some(*b),
            _ => None,
        }
    }

    /// A copy of the document.
    pub fn deep_copy(&self) -> (r: JsonValue)
        ensures
            r@ == self@,
        decreases self,
    {
        match self {
            JsonValue::Null => JsonValue::Null,
            JsonValue::Bool(b) => JsonValue::Bool(*b),
            JsonValue::Number(n) => JsonValue::Number(n.clone()),
            JsonValue::Str(s) => JsonValue::Str(s.clone()),
            JsonValue::Array(items) => {
                let mut out: Vec<JsonValue> = Vec::new();
                let mut i: usize = 0;
                while i < items.len()
                    invariant
                        *self == JsonValue::Array(*items),
                        i <= items@.len(),
                        out@.len() == i,
                        forall|j: int| 0 <= j < i ==> out@[j]@ == items@[j]@,
                    decreases items@.len() - i,
                {
                    proof {
                        assert(decreases_to!(*items => items[i as int]));
                        assert(decreases_to!(*self => (*self)->Array_0));
                        assert(decreases_to!(*self => items[i as int]));
                    }
                    out.push(items[i].deep_copy());
                    i = i + 1;
                }
                let r = JsonValue::Array(out);
                assert(r@->Array_0 =~= self@->Array_0);
                r
            },
            JsonValue::Object(fields) => {
                let mut out: Vec<JsonField> = Vec::new();
                let mut i: usize = 0;
                while i < fields.len()
                    invariant
                        *self == JsonValue::Object(*fields),
                        i <= fields@.len(),
                        out@.len() == i,
                        forall|j: int| 0 <= j < i ==> out@[j].key@ == fields@[j].key@ && out@[j].value@ == fields@[j].value@,
                    decreases fields@.len() - i,
                {
                    proof {
                        assert(decreases_to!(*fields => fields[i as int]));
                        assert(decreases_to!(*self => (*self)->Object_0));
                        assert(decreases_to!(*self => fields[i as int].value));
                    }
                    out.push(JsonField { key: fields[i].key.clone(), value: fields[i].value.deep_copy() });
                    i = i + 1;
                }
                let r = JsonValue::Object(out);
                assert(r@->Object_0 =~= self@->Object_0);
                r
            },
        }
    }
}

/// A hexadecimal digit, lowercase.
pub open spec fn hex_digit(d: u32) -> char {
    if d < 10 {
        ((48 + d) as u8) as char
    } else {
        ((87 + d) as u8) as char
    }
}

/// How one character is written inside a JSON string.
pub open spec fn escape_char(c: char) -> Seq<char> {
    if c == '"' {
        seq!['\\', '"']
    } else if c == '\\' {
        seq!['\\', '\\']
    } else if c == '\n' {
        seq!['\\', 'n']
    } else if c == '\r' {
        seq!['\\', 'r']
    } else if c == '\t' {
        seq!['\\', 't']
    } else if (c as u32) == 8 {
        seq!['\\', 'b']
    } else if (c as u32) == 12 {
        seq!['\\', 'f']
    } else if (c as u32) < 32 {
        seq!['\\', 'u', '0', '0', hex_digit((c as u32) / 16), hex_digit((c as u32) % 16)]
    } else {
        seq![c]
    }
}

/// The characters of a text, each written as inside a JSON string.
pub open spec fn escaped(s: Seq<char>) -> Seq<char>
    decreases s.len(),
{
    if s.len() == 0 {
        Seq::empty()
    } else {
        escaped(s.drop_last()) + escape_char(s.last())
    }
}

/// A text as a JSON string literal.
pub open spec fn quoted(s: Seq<char>) -> Seq<char> {
    seq!['"'] + escaped(s) + seq!['"']
}

/// The compact JSON text of a document: no white space, members in order.
pub open spec fn json_text(v: Json) -> Seq<char>
    decreases v,
{
    match v {
        Json::Null => seq!['n', 'u', 'l', 'l'],
        Json::Bool(b) => if b {
            seq!['t', 'r', 'u', 'e']
        } else {
            seq!['f', 'a', 'l', 's', 'e']
        },
        Json::Number(n) => n,
        Json::Str(s) => quoted(s),
        Json::Array(items) => seq!['['] + items_text(items) + seq![']'],
        Json::Object(fields) => seq!['{'] + fields_text(fields) + seq!['}'],
    }
}

/// The elements of an array, written and separated by commas.
pub open spec fn items_text(items: Seq<Json>) -> Seq<char>
    decreases items,
{
    if items.len() == 0 {
        Seq::empty()
    } else if items.len() == 1 {
        json_text(items[0])
    } else {
        items_text(items.drop_last()) + seq![','] + json_text(items.last())
    }
}

/// The members of an object, each written `"key":value`, separated by commas.
pub open spec fn fields_text(fields: Seq<(Seq<char>, Json)>) -> Seq<char>
    decreases fields,
{
    if fields.len() == 0 {
        Seq::empty()
    } else if fields.len() == 1 {
        quoted(fields[0].0) + seq![':'] + json_text(fields[0].1)
    } else {
        fields_text(fields.drop_last()) + seq![','] + quoted(fields.last().0) + seq![':']
            + json_text(fields.last().1)
    }
}

fn hex_digit_exec(d: u32) -> (r: char)
    requires
        d < 16,
    ensures
        r == hex_digit(d),
{
    if d < 10 {
        (48u8 + d as u8) as char
    } else {
        (87u8 + d as u8) as char
    }
}

fn push_escaped(out: &mut Vec<char>, s: &str)
    ensures
        final(out)@ == old(out)@ + escaped(s@),
{
    let cs = crate::text::chars_of(s);
    let mut i: usize = 0;
    assert(cs@.subrange(0, 0) =~= Seq::<char>::empty());
    assert(out@ =~= old(out)@ + escaped(cs@.subrange(0, 0)));
    while i < cs.len()
        invariant
            i <= cs@.len(),
            out@ == old(out)@ + escaped(cs@.subrange(0, i as int)),
        decreases cs@.len() - i,
    {
        let c = cs[i];
        let ghost before = out@;
        let u = c as u32;
        if c == '"' {
            out.push('\\');
            out.push('"');
        } else if c == '\\' {
            out.push('\\');
            out.push('\\');
        } else if c == '\n' {
            out.push('\\');
            out.push('n');
        } else if c == '\r' {
            out.push('\\');
            out.push('r');
        } else if c == '\t' {
            out.push('\\');
            out.push('t');
        } else if u == 8 {
            out.push('\\');
            out.push('b');
        } else if u == 12 {
            out.push('\\');
            out.push('f');
        } else if u < 32 {
            out.push('\\');
            out.push('u');
            out.push('0');
            out.push('0');
            out.push(hex_digit_exec(u / 16));
            out.push(hex_digit_exec(u % 16));
        } else {
            out.push(c);
        }
        proof {
            assert(out@ =~= before + escape_char(c));
            assert(cs@.subrange(0, i + 1).drop_last() =~= cs@.subrange(0, i as int));
            assert(out@ =~= old(out)@ + escaped(cs@.subrange(0, i + 1)));
        }
        i = i + 1;
    }
    assert(cs@.subrange(0, cs@.len() as int) =~= cs@);
}

fn push_str(out: &mut Vec<char>, s: &str)
    ensures
        final(out)@ == old(out)@ + s@,
{
    let cs = crate::text::chars_of(s);
    let mut i: usize = 0;
    while i < cs.len()
        invariant
            i <= cs@.len(),
            out@ =~= old(out)@ + cs@.subrange(0, i as int),
        decreases cs@.len() - i,
    {
        out.push(cs[i]);
        i = i + 1;
    }
    assert(cs@.subrange(0, cs@.len() as int) =~= cs@);
}

fn push_quoted(out: &mut Vec<char>, s: &str)
    ensures
        final(out)@ == old(out)@ + quoted(s@),
{
    out.push('"');
    push_escaped(out, s);
    out.push('"');
    assert(out@ =~= old(out)@ + quoted(s@));
}

impl JsonValue {
    /// Appends the compact JSON text of the document.
    pub fn write_text(&self, out: &mut Vec<char>)
        ensures
            final(out)@ == old(out)@ + json_text(self@),
        decreases self,
    {
        match self {
            JsonValue::Null => {
                out.push('n');
                out.push('u');
                out.push('l');
                out.push('l');
                assert(out@ =~= old(out)@ + json_text(self@));
            },
            JsonValue::Bool(b) => {
                if *b {
                    out.push('t');
                    out.push('r');
                    out.push('u');
                    out.push('e');
                } else {
                    out.push('f');
                    out.push('a');
                    out.push('l');
                    out.push('s');
                    out.push('e');
                }
                assert(out@ =~= old(out)@ + json_text(self@));
            },
            JsonValue::Number(n) => {
                push_str(out, n.as_str());
            },
            JsonValue::Str(s) => {
                push_quoted(out, s.as_str());
            },
            JsonValue::Array(items) => {
                let ghost s = self@->Array_0;
                out.push('[');
                let ghost start = out@;
                let mut i: usize = 0;
                assert(out@ =~= start + items_text(s.subrange(0, 0)));
                while i < items.len()
                    invariant
                        *self == JsonValue::Array(*items),
                        s == self@->Array_0,
                        s.len() == items@.len(),
                        i <= items@.len(),
                        out@ == start + items_text(s.subrange(0, i as int)),
                    decreases items@.len() - i,
                {
                    proof {
                        assert(decreases_to!(*items => items[i as int]));
                        assert(decreases_to!(*self => (*self)->Array_0));
                    }
                    let ghost mid = out@;
                    if i > 0 {
                        out.push(',');
                    }
                    items[i].write_text(out);
                    proof {
                        assert(s[i as int] == items@[i as int]@);
                        let sub = s.subrange(0, i + 1);
                        assert(sub.drop_last() =~= s.subrange(0, i as int));
                        if i == 0 {
                            assert(out@ =~= start + items_text(sub));
                        } else {
                            assert(out@ =~= start + items_text(sub));
                        }
                    }
                    i = i + 1;
                }
                assert(s.subrange(0, s.len() as int) =~= s);
                out.push(']');
                assert(out@ =~= old(out)@ + json_text(self@));
            },
            JsonValue::Object(fields) => {
                let ghost s = self@->Object_0;
                out.push('{');
                let ghost start = out@;
                let mut i: usize = 0;
                assert(out@ =~= start + fields_text(s.subrange(0, 0)));
                while i < fields.len()
                    invariant
                        *self == JsonValue::Object(*fields),
                        s == self@->Object_0,
                        s.len() == fields@.len(),
                        i <= fields@.len(),
                        out@ == start + fields_text(s.subrange(0, i as int)),
                    decreases fields@.len() - i,
                {
                    proof {
                        assert(decreases_to!(*fields => fields[i as int]));
                        assert(decreases_to!(*self => (*self)->Object_0));
                    }
                    if i > 0 {
                        out.push(',');
                    }
                    push_quoted(out, fields[i].key.as_str());
                    out.push(':');
                    fields[i].value.write_text(out);
                    proof {
                        assert(s[i as int] == (fields@[i as int].key@, fields@[i as int].value@));
                        let sub = s.subrange(0, i + 1);
                        assert(sub.drop_last() =~= s.subrange(0, i as int));
                        assert(out@ =~= start + fields_text(sub));
                    }
                    i = i + 1;
                }
                assert(s.subrange(0, s.len() as int) =~= s);
                out.push('}');
                assert(out@ =~= old(out)@ + json_text(self@));
            },
        }
    }
}

} // verus!
