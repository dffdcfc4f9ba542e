use vstd::prelude::*;
use crate::hash::texts;
use crate::text::{
    byte_size, char_width, chars_of, join2, same_chars, string_of, trim_range, trimmed, utf8_size,
    utf8_width,
};

verus! {

/// Function definitions: an optional `local`, the dotted or colon-qualified
/// name, and the parameter list.
pub const FUNCTION_PATTERN: &'static str = r"(?m)(?:local\s+)?function\s+([\w.:]+)\s*\(([^)]*)\)";

/// Dependency references: the argument of a `require` call.
pub const REQUIRE_PATTERN: &'static str = r#"require\(([^)]+)\)"#;

/// Service acquisitions: the quoted name handed to `game:GetService`.
pub const SERVICE_PATTERN: &'static str = r#"game:GetService\(\s*["']([^"']+)["']\s*\)"#;

/// Remote-call sites: one of the remote invocation or handler members, called.
pub const REMOTE_PATTERN: &'static str = r#"[:.](FireServer|InvokeServer|OnClientEvent|OnServerEvent|FireClient|OnClientInvoke)\s*\("#;

/// Child lookups: the quoted name handed to one of the find or wait functions.
pub const CHILD_LOOKUP_PATTERN: &'static str = r#"(?:FindFirstChild|WaitForChild|FindFirstChildOfClass|FindFirstChildWhichIsA)\(\s*["']([^"']+)["']"#;

/// Quoted literals of 2 to 60 characters.
pub const LITERAL_PATTERN: &'static str = r#"["']([^"']{2,60})["']"#;

/// Top-level bindings: a line that starts with `local`, a name and `=`.
pub const BINDING_PATTERN: &'static str = r"(?m)^local\s+(\w+)\s*=";

/// Most literals kept in an outline.
pub const MAX_LITERALS: usize = 50;

/// Most top-level bindings kept in an outline.
pub const MAX_BINDINGS: usize = 20;

/// Longest source line, in bytes, recorded whole for a remote-call site.
pub const MAX_SITE_LINE: u64 = 120;

/// One match of a pattern: the byte offset where it starts, and the text of
/// each capture group after the whole match (nothing for a group that took no part).
pub struct Capture {
    pub start: usize,
    pub groups: Vec<Option<String>>,
}

pub open spec fn capture_view(c: Capture) -> (int, Seq<Option<Seq<char>>>) {
    (
        c.start as int,
        Seq::new(
            c.groups@.len(),
            |i: int|
                match c.groups@[i] {
                    Some(g) => Some(g@),
                    None => None,
                },
        ),
    )
}

pub open spec fn captures_view(cs: Seq<Capture>) -> Seq<(int, Seq<Option<Seq<char>>>)> {
    Seq::new(cs.len(), |i: int| capture_view(cs[i]))
}

/// The successive non-overlapping matches that the `regex` crate finds for a
/// pattern in a text; none when the pattern does not compile.
pub uninterp spec fn regex_captures(pattern: Seq<char>, haystack: Seq<char>) -> Seq<
    (int, Seq<Option<Seq<char>>>),
>;

/// Relies on `regex::Regex::new` and `Regex::captures_iter`: every
/// leftmost-first, non-overlapping match of the pattern, in order, with the
/// start offset of the whole match and the text of each group; nothing when
/// the pattern is rejected. The matches depend on the pattern and text alone.
#[verifier::external_body]
fn find_captures(pattern: &str, haystack: &str) -> (r: Vec<Capture>)
    ensures
        captures_view(r@) == regex_captures(pattern@, haystack@),
{
    match regex::Regex::new(pattern) {
        Ok(re) => re.captures_iter(haystack).map(|c| Capture {
            start: c.get(0).map_or(0, |m| m.start()),
            groups: c.iter().skip(1).map(|g| g.map(|m| m.as_str().to_string())).collect(),
        }).collect(),
        Err(_) => Vec::new(),
    }
}

/// The text of group `k` of a match; empty when the group took no part.
pub open spec fn group_text(c: (int, Seq<Option<Seq<char>>>), k: int) -> Seq<char> {
    if 0 <= k < c.1.len() && c.1[k] is Some {
        c.1[k]->0
    } else {
        Seq::empty()
    }
}

fn group_chars(c: &Capture, k: usize) -> (r: Vec<char>)
    ensures
        r@ == group_text(capture_view(*c), k as int),
{
    if k < c.groups.len() {
        match &c.groups[k] {
            Some(g) => chars_of(g.as_str()),
            None => Vec::new(),
        }
    } else {
        Vec::new()
    }
}

/// Keeps, in order, each item that is not marked `skipped` and has not been
/// kept before, until `limit` items are kept.
pub open spec fn gather(items: Seq<Seq<char>>, skipped: Seq<bool>, limit: Option<nat>) -> Seq<
    Seq<char>,
>
    decreases items.len(),
{
    if items.len() == 0 {
        Seq::empty()
    } else {
        let prev = gather(items.drop_last(), skipped, limit);
        let x = items.last();
        if !skipped[items.len() - 1] && !prev.contains(x) && (limit is None || prev.len()
            < limit->0) {
            prev.push(x)
        } else {
            prev
        }
    }
}

/// No item skipped.
pub open spec fn none_skipped(n: nat) -> Seq<bool> {
    Seq::new(n, |i: int| false)
}

/// The number of newline characters in a text.
pub open spec fn newline_count(s: Seq<char>) -> nat
    decreases s.len(),
{
    if s.len() == 0 {
        0
    } else {
        newline_count(s.drop_last()) + if s.last() == '\n' { 1nat } else { 0nat }
    }
}

/// The number of lines of a text, as `str::lines` counts them: a last line
/// without a newline counts, an empty rest after the last newline does not.
pub open spec fn line_total(s: Seq<char>) -> nat {
    newline_count(s) + if s.len() > 0 && s.last() != '\n' { 1nat } else { 0nat }
}

/// The bytes taken by the first `i` characters.
pub open spec fn prefix_bytes(s: Seq<char>, i: int) -> nat {
    utf8_size(s.subrange(0, i))
}

/// Character `i` holds byte `b` of the UTF-8 form.
pub open spec fn holds_byte(s: Seq<char>, b: int, i: int) -> bool {
    0 <= i < s.len() && prefix_bytes(s, i) <= b < prefix_bytes(s, i + 1)
}

/// Where the line holding position `i` starts.
pub open spec fn line_start(s: Seq<char>, i: int) -> int
    decreases i,
{
    if i <= 0 {
        0
    } else if s[i - 1] == '\n' {
        i
    } else {
        line_start(s, i - 1)
    }
}

/// The newline that ends the line holding position `i`, or the end of the text.
pub open spec fn line_end(s: Seq<char>, i: int) -> int
    decreases s.len() - i,
{
    if i >= s.len() {
        s.len() as int
    } else if s[i] == '\n' {
        i
    } else {
        line_end(s, i + 1)
    }
}

/// Where the content of the line holding position `i` ends: before its
/// newline, and before a carriage return that precedes that newline.
pub open spec fn content_end(s: Seq<char>, i: int) -> int {
    let e = line_end(s, i);
    if e < s.len() && e > line_start(s, i) && s[e - 1] == '\r' {
        e - 1
    } else {
        e
    }
}

/// The line, as `str::lines` gives it, that holds character `i`; empty when
/// `i` lies on a line ending.
pub open spec fn line_of(s: Seq<char>, i: int) -> Seq<char> {
    if i < content_end(s, i) {
        s.subrange(line_start(s, i), content_end(s, i))
    } else {
        Seq::empty()
    }
}

/// The line that holds byte `b` of the source; empty when no line holds it.
pub open spec fn line_at_byte(s: Seq<char>, b: int) -> Seq<char> {
    if exists|i: int| holds_byte(s, b, i) {
        line_of(s, choose|i: int| holds_byte(s, b, i))
    } else {
        Seq::empty()
    }
}

/// What a remote-call site records: its trimmed source line when that is at
/// most `MAX_SITE_LINE` bytes long, else the bare member name.
pub open spec fn site_record(source: Seq<char>, c: (int, Seq<Option<Seq<char>>>)) -> Seq<char> {
    let line = trimmed(line_at_byte(source, c.0));
    if utf8_size(line) <= MAX_SITE_LINE {
        line
    } else {
        group_text(c, 0)
    }
}

pub open spec fn function_record(c: (int, Seq<Option<Seq<char>>>)) -> Seq<char> {
    group_text(c, 0) + "("@ + trimmed(group_text(c, 1)) + ")"@
}

/// The literals that say nothing about a script: interface classes, value
/// types and common content strings.
pub open spec fn noise_words() -> Seq<Seq<char>> {
    seq![
        "Frame"@, "TextLabel"@, "TextButton"@, "ImageLabel"@, "ImageButton"@,
        "ScreenGui"@, "ScrollingFrame"@, "UIListLayout"@, "UICorner"@,
        "UIPadding"@, "UIStroke"@, "UIGridLayout"@, "UIAspectRatioConstraint"@,
        "Color3"@, "Vector3"@, "CFrame"@, "UDim2"@, "UDim"@,
        "rbxassetid://"@, "Content-Type"@, "application/json"@,
    ]
}

/// A binding name too short to record: one byte or less, which covers the
/// usual loop names `i`, `k` and `v`.
pub open spec fn filler_name(x: Seq<char>) -> bool {
    utf8_size(x) <= 1
}

pub open spec fn first_groups(caps: Seq<(int, Seq<Option<Seq<char>>>)>) -> Seq<Seq<char>> {
    Seq::new(caps.len(), |i: int| group_text(caps[i], 0))
}

/// The matches of every pattern in one source text.
pub struct PatternHits {
    pub functions: Vec<Capture>,
    pub requires: Vec<Capture>,
    pub services: Vec<Capture>,
    pub remotes: Vec<Capture>,
    pub child_lookups: Vec<Capture>,
    pub literals: Vec<Capture>,
    pub bindings: Vec<Capture>,
}

pub struct HitsView {
    pub functions: Seq<(int, Seq<Option<Seq<char>>>)>,
    pub requires: Seq<(int, Seq<Option<Seq<char>>>)>,
    pub services: Seq<(int, Seq<Option<Seq<char>>>)>,
    pub remotes: Seq<(int, Seq<Option<Seq<char>>>)>,
    pub child_lookups: Seq<(int, Seq<Option<Seq<char>>>)>,
    pub literals: Seq<(int, Seq<Option<Seq<char>>>)>,
    pub bindings: Seq<(int, Seq<Option<Seq<char>>>)>,
}

impl PatternHits {
    pub open spec fn view(&self) -> HitsView {
        HitsView {
            functions: captures_view(self.functions@),
            requires: captures_view(self.requires@),
            services: captures_view(self.services@),
            remotes: captures_view(self.remotes@),
            child_lookups: captures_view(self.child_lookups@),
            literals: captures_view(self.literals@),
            bindings: captures_view(self.bindings@),
        }
    }
}

/// The matches of every pattern that the `regex` crate finds in `source`.
pub open spec fn hits_in(source: Seq<char>) -> HitsView {
    HitsView {
        functions: regex_captures(FUNCTION_PATTERN@, source),
        requires: regex_captures(REQUIRE_PATTERN@, source),
        services: regex_captures(SERVICE_PATTERN@, source),
        remotes: regex_captures(REMOTE_PATTERN@, source),
        child_lookups: regex_captures(CHILD_LOOKUP_PATTERN@, source),
        literals: regex_captures(LITERAL_PATTERN@, source),
        bindings: regex_captures(BINDING_PATTERN@, source),
    }
}

/// A static summary of one script.
#[derive(PartialEq, Eq, Debug)]
pub struct ScriptOutline {
    pub functions: Vec<String>,
    pub requires: Vec<String>,
    pub services: Vec<String>,
    pub remote_accesses: Vec<String>,
    pub instance_refs: Vec<String>,
    pub string_constants: Vec<String>,
    pub top_level_vars: Vec<String>,
    pub line_count: u64,
}

pub struct OutlineView {
    pub functions: Seq<Seq<char>>,
    pub requires: Seq<Seq<char>>,
    pub services: Seq<Seq<char>>,
    pub remote_accesses: Seq<Seq<char>>,
    pub instance_refs: Seq<Seq<char>>,
    pub string_constants: Seq<Seq<char>>,
    pub top_level_vars: Seq<Seq<char>>,
    pub line_count: nat,
}

pub open spec fn strings_view(v: Seq<String>) -> Seq<Seq<char>> {
    Seq::new(v.len(), |i: int| v[i]@)
}

impl ScriptOutline {
    pub open spec fn view(&self) -> OutlineView {
        OutlineView {
            functions: strings_view(self.functions@),
            requires: strings_view(self.requires@),
            services: strings_view(self.services@),
            remote_accesses: strings_view(self.remote_accesses@),
            instance_refs: strings_view(self.instance_refs@),
            string_constants: strings_view(self.string_constants@),
            top_level_vars: strings_view(self.top_level_vars@),
            line_count: self.line_count as nat,
        }
    }
}

/// The outline of a source text, given the matches of each pattern in it.
pub open spec fn outline_of(source: Seq<char>, hits: HitsView) -> OutlineView {
    let service_names = first_groups(hits.services);
    let services = gather(service_names, none_skipped(service_names.len()), None);
    let deps = Seq::new(
        hits.requires.len(),
        |i: int| trimmed(group_text(hits.requires[i], 0)),
    );
    let sites = Seq::new(hits.remotes.len(), |i: int| site_record(source, hits.remotes[i]));
    let lookups = first_groups(hits.child_lookups);
    let literals = first_groups(hits.literals);
    let bindings = first_groups(hits.bindings);
    OutlineView {
        functions: Seq::new(hits.functions.len(), |i: int| function_record(hits.functions[i])),
        requires: gather(deps, none_skipped(deps.len()), None),
        services: services,
        remote_accesses: gather(sites, none_skipped(sites.len()), None),
        instance_refs: gather(lookups, none_skipped(lookups.len()), None),
        string_constants: gather(
            literals,
            Seq::new(
                literals.len(),
                |i: int| noise_words().contains(literals[i]) || services.contains(literals[i]),
            ),
            Some(MAX_LITERALS as nat),
        ),
        top_level_vars: gather(
            bindings,
            Seq::new(bindings.len(), |i: int| filler_name(bindings[i])),
            Some(MAX_BINDINGS as nat),
        ),
        line_count: line_total(source),
    }
}

fn copy_chars(v: &Vec<char>) -> (r: Vec<char>)
    ensures
        r@ == v@,
{
    let mut r: Vec<char> = Vec::new();
    let mut i: usize = 0;
    while i < v.len()
        invariant
            i <= v@.len(),
            r@ =~= v@.subrange(0, i as int),
        decreases v@.len() - i,
    {
        r.push(v[i]);
        i = i + 1;
    }
    r
}

fn contains_entry(list: &Vec<Vec<char>>, x: &Vec<char>) -> (r: bool)
    ensures
        r == texts(list@).contains(x@),
{
    let mut i: usize = 0;
    while i < list.len()
        invariant
            i <= list@.len(),
            forall|j: int| 0 <= j < i ==> list@[j]@ != x@,
        decreases list@.len() - i,
    {
        if same_chars(&list[i], x) {
            assert(texts(list@)[i as int] == x@);
            return true;
        }
        i = i + 1;
    }
    false
}

/// The items kept by `gather`.
fn gather_texts(items: &Vec<Vec<char>>, skipped: &Vec<bool>, limit: Option<usize>) -> (r: Vec<
    Vec<char>,
>)
    requires
        skipped@.len() == items@.len(),
    ensures
        texts(r@) == gather(
            texts(items@),
            skipped@,
            match limit {
                Some(n) => Some(n as nat),
                None => None,
            },
        ),
{
    let ghost lim = match limit {
        Some(n) => Some(n as nat),
        None => None::<nat>,
    };
    let mut out: Vec<Vec<char>> = Vec::new();
    let mut i: usize = 0;
    assert(texts(items@).subrange(0, 0) =~= Seq::<Seq<char>>::empty());
    assert(texts(out@) =~= Seq::<Seq<char>>::empty());
    while i < items.len()
        invariant
            i <= items@.len(),
            skipped@.len() == items@.len(),
            texts(out@) == gather(texts(items@).subrange(0, i as int), skipped@, lim),
            limit is None ==> lim is None,
            limit is Some ==> lim == Some(limit->0 as nat),
        decreases items@.len() - i,
    {
        let ghost sub = texts(items@).subrange(0, i + 1);
        assert(sub.drop_last() =~= texts(items@).subrange(0, i as int));
        let fresh = !contains_entry(&out, &items[i]);
        let room = match limit {
            Some(n) => out.len() < n,
            None => true,
        };
        let ghost prev = texts(out@);
        assert(prev == gather(sub.drop_last(), skipped@, lim));
        assert(sub.last() == items@[i as int]@);
        assert(room == (lim is None || prev.len() < lim->0));
        if !skipped[i] && fresh && room {
            let x = copy_chars(&items[i]);
            out.push(x);
            assert(texts(out@) =~= prev.push(items@[i as int]@));
        } else {
            assert(texts(out@) =~= prev);
        }
        i = i + 1;
    }
    assert(texts(items@).subrange(0, items@.len() as int) =~= texts(items@));
    out
}

fn to_strings(list: &Vec<Vec<char>>) -> (r: Vec<String>)
    ensures
        strings_view(r@) == texts(list@),
{
    let mut r: Vec<String> = Vec::new();
    let mut i: usize = 0;
    while i < list.len()
        invariant
            i <= list@.len(),
            strings_view(r@) =~= texts(list@).subrange(0, i as int),
        decreases list@.len() - i,
    {
        let t = string_of(&list[i]);
        let ghost before = r@;
        r.push(t);
        assert(strings_view(r@) =~= strings_view(before).push(list@[i as int]@));
        assert(texts(list@).subrange(0, i + 1) =~= texts(list@).subrange(0, i as int).push(list@[i as int]@));
        i = i + 1;
    }
    assert(texts(list@).subrange(0, list@.len() as int) =~= texts(list@));
    r
}

/// The number of lines of a text.
pub(crate) fn count_lines(s: &Vec<char>) -> (r: u64)
    ensures
        r == line_total(s@),
{
    let mut n: u64 = 0;
    let mut i: usize = 0;
    while i < s.len()
        invariant
            i <= s@.len(),
            n == newline_count(s@.subrange(0, i as int)),
            n <= i,
        decreases s@.len() - i,
    {
        assert(s@.subrange(0, i + 1).drop_last() =~= s@.subrange(0, i as int));
        if s[i] == '\n' {
            n = n + 1;
        }
        i = i + 1;
    }
    assert(s@.subrange(0, s@.len() as int) =~= s@);
    if s.len() > 0 && s[s.len() - 1] != '\n' {
        proof {
            lemma_newline_count_bound(s@.drop_last());
        }
        n + 1
    } else {
        n
    }
}

proof fn lemma_newline_count_bound(s: Seq<char>)
    ensures
        newline_count(s) <= s.len(),
    decreases s.len(),
{
    if s.len() > 0 {
        lemma_newline_count_bound(s.drop_last());
    }
}

proof fn lemma_prefix_bytes_step(s: Seq<char>, i: int)
    requires
        0 <= i < s.len(),
    ensures
        prefix_bytes(s, i + 1) == prefix_bytes(s, i) + utf8_width(s[i]),
{
    assert(s.subrange(0, i + 1).drop_last() =~= s.subrange(0, i));
}

proof fn lemma_prefix_bytes_monotone(s: Seq<char>, i: int, j: int)
    requires
        0 <= i <= j <= s.len(),
    ensures
        prefix_bytes(s, i) <= prefix_bytes(s, j),
    decreases j - i,
{
    if i < j {
        lemma_prefix_bytes_step(s, j - 1);
        lemma_prefix_bytes_monotone(s, i, j - 1);
    }
}

/// The character that holds byte `b`, if any.
fn char_holding(s: &Vec<char>, b: usize) -> (r: Option<usize>)
    ensures
        match r {
            Some(i) => holds_byte(s@, b as int, i as int),
            None => !exists|i: int| holds_byte(s@, b as int, i),
        },
{
    let mut acc: usize = 0;
    let mut i: usize = 0;
    assert(s@.subrange(0, 0) =~= Seq::<char>::empty());
    while i < s.len()
        invariant
            i <= s@.len(),
            acc == prefix_bytes(s@, i as int),
            acc <= b,
            forall|j: int| 0 <= j < i ==> !holds_byte(s@, b as int, j),
        decreases s@.len() - i,
    {
        proof {
            lemma_prefix_bytes_step(s@, i as int);
        }
        let w = char_width(s[i]);
        if w > b - acc {
            return Some(i);
        }
        proof {
            assert forall|j: int| 0 <= j < i + 1 implies !holds_byte(s@, b as int, j) by {
                if j < i {
                } else {
                    assert(prefix_bytes(s@, j + 1) <= b);
                }
            }
        }
        acc = acc + w;
        i = i + 1;
    }
    None
}

/// The trimmed line that holds byte `b` of the source.
fn site_line(s: &Vec<char>, b: usize) -> (r: Vec<char>)
    ensures
        r@ == trimmed(line_at_byte(s@, b as int)),
{
    match char_holding(s, b) {
        None => {
            assert(trimmed(Seq::<char>::empty()) =~= Seq::<char>::empty());
            Vec::new()
        },
        Some(ci) => {
            proof {
                let c = choose|c: int| holds_byte(s@, b as int, c);
                if c < ci {
                    lemma_prefix_bytes_monotone(s@, c + 1, ci as int);
                } else if ci < c {
                    lemma_prefix_bytes_monotone(s@, ci + 1, c);
                }
            }
            let mut a = ci;
            while a > 0 && s[a - 1] != '\n'
                invariant
                    a <= ci < s@.len(),
                    line_start(s@, ci as int) == line_start(s@, a as int),
                decreases a,
            {
                a = a - 1;
            }
            let mut e = ci;
            while e < s.len() && s[e] != '\n'
                invariant
                    ci <= e <= s@.len(),
                    line_end(s@, ci as int) == line_end(s@, e as int),
                decreases s@.len() - e,
            {
                e = e + 1;
            }
            let mut end = e;
            if e < s.len() && e > a && s[e - 1] == '\r' {
                end = e - 1;
            }
            if ci < end {
                trim_range(s, a, end)
            } else {
                assert(trimmed(Seq::<char>::empty()) =~= Seq::<char>::empty());
                Vec::new()
            }
        },
    }
}

fn noise_list() -> (r: Vec<Vec<char>>)
    ensures
        texts(r@) == noise_words(),
{
    let mut r: Vec<Vec<char>> = Vec::new();
    r.push(chars_of("Frame"));
    r.push(chars_of("TextLabel"));
    r.push(chars_of("TextButton"));
    r.push(chars_of("ImageLabel"));
    r.push(chars_of("ImageButton"));
    r.push(chars_of("ScreenGui"));
    r.push(chars_of("ScrollingFrame"));
    r.push(chars_of("UIListLayout"));
    r.push(chars_of("UICorner"));
    r.push(chars_of("UIPadding"));
    r.push(chars_of("UIStroke"));
    r.push(chars_of("UIGridLayout"));
    r.push(chars_of("UIAspectRatioConstraint"));
    r.push(chars_of("Color3"));
    r.push(chars_of("Vector3"));
    r.push(chars_of("CFrame"));
    r.push(chars_of("UDim2"));
    r.push(chars_of("UDim"));
    r.push(chars_of("rbxassetid://"));
    r.push(chars_of("Content-Type"));
    r.push(chars_of("application/json"));
    assert(texts(r@) =~= noise_words());
    r
}

fn none_flags(n: usize) -> (r: Vec<bool>)
    ensures
        r@ == none_skipped(n as nat),
{
    let mut r: Vec<bool> = Vec::new();
    let mut i: usize = 0;
    while i < n
        invariant
            i <= n,
            r@ =~= none_skipped(i as nat),
        decreases n - i,
    {
        r.push(false);
        i = i + 1;
    }
    r
}

fn first_group_texts(caps: &Vec<Capture>) -> (r: Vec<Vec<char>>)
    ensures
        texts(r@) == first_groups(captures_view(caps@)),
{
    let mut r: Vec<Vec<char>> = Vec::new();
    let mut i: usize = 0;
    while i < caps.len()
        invariant
            i <= caps@.len(),
            texts(r@) =~= first_groups(captures_view(caps@)).subrange(0, i as int),
        decreases caps@.len() - i,
    {
        let g = group_chars(&caps[i], 0);
        let ghost before = texts(r@);
        r.push(g);
        assert(captures_view(caps@)[i as int] == capture_view(caps@[i as int]));
        assert(texts(r@) =~= before.push(g@));
        i = i + 1;
    }
    assert(first_groups(captures_view(caps@)).subrange(0, caps@.len() as int) =~= first_groups(
        captures_view(caps@),
    ));
    r
}

fn trim_all(v: &Vec<char>) -> (r: Vec<char>)
    ensures
        r@ == trimmed(v@),
{
    assert(v@.subrange(0, v@.len() as int) =~= v@);
    trim_range(v, 0, v.len())
}

/// The outline of a source text, given the matches of each pattern in it.
pub fn assemble_outline(source: &str, hits: &PatternHits) -> (r: ScriptOutline)
    ensures
        r.view() == outline_of(source@, hits.view()),
{
    let src = chars_of(source);
    let ghost h = hits.view();

    let mut fns: Vec<Vec<char>> = Vec::new();
    let mut i: usize = 0;
    while i < hits.functions.len()
        invariant
            i <= hits.functions@.len(),
            h == hits.view(),
            texts(fns@) =~= Seq::new(i as nat, |k: int| function_record(h.functions[k])),
        decreases hits.functions@.len() - i,
    {
        let c = &hits.functions[i];
        let name = group_chars(c, 0);
        let params = trim_all(&group_chars(c, 1));
        let mut rec = join2(&name, &chars_of("("));
        rec = join2(&rec, &params);
        rec = join2(&rec, &chars_of(")"));
        let ghost before = texts(fns@);
        assert(h.functions[i as int] == capture_view(hits.functions@[i as int]));
        assert(rec@ == function_record(h.functions[i as int]));
        fns.push(rec);
        assert(texts(fns@) =~= before.push(function_record(h.functions[i as int])));
        i = i + 1;
    }

    let mut deps: Vec<Vec<char>> = Vec::new();
    let mut i: usize = 0;
    while i < hits.requires.len()
        invariant
            i <= hits.requires@.len(),
            h == hits.view(),
            texts(deps@) =~= Seq::new(i as nat, |k: int| trimmed(group_text(h.requires[k], 0))),
        decreases hits.requires@.len() - i,
    {
        let d = trim_all(&group_chars(&hits.requires[i], 0));
        let ghost before = texts(deps@);
        assert(h.requires[i as int] == capture_view(hits.requires@[i as int]));
        deps.push(d);
        assert(texts(deps@) =~= before.push(d@));
        i = i + 1;
    }

    let service_names = first_group_texts(&hits.services);
    let services = gather_texts(&service_names, &none_flags(service_names.len()), None);

    let mut sites: Vec<Vec<char>> = Vec::new();
    let mut i: usize = 0;
    while i < hits.remotes.len()
        invariant
            i <= hits.remotes@.len(),
            h == hits.view(),
            src@ == source@,
            texts(sites@) =~= Seq::new(i as nat, |k: int| site_record(source@, h.remotes[k])),
        decreases hits.remotes@.len() - i,
    {
        let c = &hits.remotes[i];
        let line = site_line(&src, c.start);
        let ghost before = texts(sites@);
        assert(h.remotes[i as int] == capture_view(hits.remotes@[i as int]));
        let site = if byte_size(&line) <= MAX_SITE_LINE {
            line
        } else {
            group_chars(c, 0)
        };
        assert(site@ == site_record(source@, h.remotes[i as int]));
        sites.push(site);
        assert(texts(sites@) =~= before.push(site@));
        i = i + 1;
    }

    let lookups = first_group_texts(&hits.child_lookups);

    let literals = first_group_texts(&hits.literals);
    let noise = noise_list();
    let mut literal_flags: Vec<bool> = Vec::new();
    let mut i: usize = 0;
    while i < literals.len()
        invariant
            i <= literals@.len(),
            texts(noise@) == noise_words(),
            literal_flags@ =~= Seq::new(
                i as nat,
                |k: int|
                    noise_words().contains(texts(literals@)[k]) || texts(services@).contains(
                        texts(literals@)[k],
                    ),
            ),
        decreases literals@.len() - i,
    {
        let skip = contains_entry(&noise, &literals[i]) || contains_entry(&services, &literals[i]);
        literal_flags.push(skip);
        i = i + 1;
    }

    let bindings = first_group_texts(&hits.bindings);
    let mut binding_flags: Vec<bool> = Vec::new();
    let mut i: usize = 0;
    while i < bindings.len()
        invariant
            i <= bindings@.len(),
            binding_flags@ =~= Seq::new(i as nat, |k: int| filler_name(texts(bindings@)[k])),
        decreases bindings@.len() - i,
    {
        binding_flags.push(byte_size(&bindings[i]) <= 1);
        i = i + 1;
    }

    let outline = ScriptOutline {
        functions: to_strings(&fns),
        requires: to_strings(&gather_texts(&deps, &none_flags(deps.len()), None)),
        services: to_strings(&services),
        remote_accesses: to_strings(&gather_texts(&sites, &none_flags(sites.len()), None)),
        instance_refs: to_strings(&gather_texts(&lookups, &none_flags(lookups.len()), None)),
        string_constants: to_strings(
            &gather_texts(&literals, &literal_flags, Some(MAX_LITERALS)),
        ),
        top_level_vars: to_strings(&gather_texts(&bindings, &binding_flags, Some(MAX_BINDINGS))),
        line_count: count_lines(&src),
    };
    proof {
        reveal_strlit("(");
        reveal_strlit(")");
    }
    assert(outline.view() =~= outline_of(source@, hits.view()));
    outline
}

/// The outline of a script's source text.
pub fn generate_outline(source: &str) -> (r: ScriptOutline)
    ensures
        r.view() == outline_of(source@, hits_in(source@)),
{
    let hits = PatternHits {
        functions: find_captures(FUNCTION_PATTERN, source),
        requires: find_captures(REQUIRE_PATTERN, source),
        services: find_captures(SERVICE_PATTERN, source),
        remotes: find_captures(REMOTE_PATTERN, source),
        child_lookups: find_captures(CHILD_LOOKUP_PATTERN, source),
        literals: find_captures(LITERAL_PATTERN, source),
        bindings: find_captures(BINDING_PATTERN, source),
    };
    assemble_outline(source, &hits)
}

/// The items that `gather` keeps are distinct, at most `limit` many, and each
/// one is an item that was not skipped.
pub proof fn lemma_gather_distinct(items: Seq<Seq<char>>, skipped: Seq<bool>, limit: Option<nat>)
    ensures
        forall|i: int, j: int|
            0 <= i < j < gather(items, skipped, limit).len() ==> gather(items, skipped, limit)[i]
                != gather(items, skipped, limit)[j],
        limit is Some ==> gather(items, skipped, limit).len() <= limit->0,
        forall|i: int|
            0 <= i < gather(items, skipped, limit).len() ==> exists|k: int|
                0 <= k < items.len() && !skipped[k] && items[k] == #[trigger] gather(
                    items,
                    skipped,
                    limit,
                )[i],
    decreases items.len(),
{
    if items.len() > 0 {
        let rest = items.drop_last();
        lemma_gather_distinct(rest, skipped, limit);
        let prev = gather(rest, skipped, limit);
        let out = gather(items, skipped, limit);
        assert forall|i: int| 0 <= i < out.len() implies exists|k: int|
            0 <= k < items.len() && !skipped[k] && items[k] == #[trigger] out[i] by {
            if i < prev.len() {
                let k = choose|k: int| 0 <= k < rest.len() && !skipped[k] && rest[k] == #[trigger] prev[i];
                assert(items[k] == rest[k]);
            } else {
                assert(items[items.len() - 1] == out[i]);
            }
        }
        if out.len() > prev.len() {
            assert forall|i: int, j: int| 0 <= i < j < out.len() implies out[i] != out[j] by {
                if j == prev.len() {
                    assert(!prev.contains(out[j]));
                    assert(out[i] == prev[i]);
                }
            }
        }
    }
}

/// Every list of an outline but the functions holds no entry twice; at
/// most `MAX_LITERALS` literals are kept, none of them a noise word or an
/// acquired service name, and at most `MAX_BINDINGS` bindings.
pub proof fn lemma_outline_lists(source: Seq<char>, hits: HitsView)
    ensures
        ({
            let o = outline_of(source, hits);
            &&& forall|i: int, j: int|
                0 <= i < j < o.requires.len() ==> o.requires[i] != o.requires[j]
            &&& forall|i: int, j: int|
                0 <= i < j < o.services.len() ==> o.services[i] != o.services[j]
            &&& forall|i: int, j: int|
                0 <= i < j < o.remote_accesses.len() ==> o.remote_accesses[i]
                    != o.remote_accesses[j]
            &&& forall|i: int, j: int|
                0 <= i < j < o.instance_refs.len() ==> o.instance_refs[i] != o.instance_refs[j]
            &&& forall|i: int, j: int|
                0 <= i < j < o.string_constants.len() ==> o.string_constants[i]
                    != o.string_constants[j]
            &&& forall|i: int, j: int|
                0 <= i < j < o.top_level_vars.len() ==> o.top_level_vars[i]
                    != o.top_level_vars[j]
            &&& o.string_constants.len() <= MAX_LITERALS
            &&& o.top_level_vars.len() <= MAX_BINDINGS
            &&& forall|i: int|
                0 <= i < o.string_constants.len() ==> !noise_words().contains(
                    #[trigger] o.string_constants[i],
                ) && !o.services.contains(o.string_constants[i])
        }),
{
    let o = outline_of(source, hits);
    let service_names = first_groups(hits.services);
    let deps = Seq::new(hits.requires.len(), |i: int| trimmed(group_text(hits.requires[i], 0)));
    let sites = Seq::new(hits.remotes.len(), |i: int| site_record(source, hits.remotes[i]));
    let lookups = first_groups(hits.child_lookups);
    let literals = first_groups(hits.literals);
    let bindings = first_groups(hits.bindings);
    let services = gather(service_names, none_skipped(service_names.len()), None);
    let literal_flags = Seq::new(
        literals.len(),
        |i: int| noise_words().contains(literals[i]) || services.contains(literals[i]),
    );
    lemma_gather_distinct(deps, none_skipped(deps.len()), None);
    lemma_gather_distinct(service_names, none_skipped(service_names.len()), None);
    lemma_gather_distinct(sites, none_skipped(sites.len()), None);
    lemma_gather_distinct(lookups, none_skipped(lookups.len()), None);
    lemma_gather_distinct(literals, literal_flags, Some(MAX_LITERALS as nat));
    lemma_gather_distinct(
        bindings,
        Seq::new(bindings.len(), |i: int| filler_name(bindings[i])),
        Some(MAX_BINDINGS as nat),
    );
    assert forall|i: int| 0 <= i < o.string_constants.len() implies !noise_words().contains(
        #[trigger] o.string_constants[i],
    ) && !o.services.contains(o.string_constants[i]) by {
        let k = choose|k: int|
            0 <= k < literals.len() && !literal_flags[k] && literals[k]
                == #[trigger] o.string_constants[i];
    }
}

} // verus!
