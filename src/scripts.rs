use vstd::prelude::*;
use crate::text::{chars_of, decimal, decimal_text, has_prefix, join2, matches_at, string_of};

verus! {

/// Every occurrence of `from` in `s`, taken left to right without overlap,
/// replaced by `to`, as `str::replace` does for a non-empty pattern.
pub open spec fn replaced(s: Seq<char>, from: Seq<char>, to: Seq<char>) -> Seq<char>
    decreases s.len(),
{
    if s.len() == 0 {
        Seq::empty()
    } else if from.len() > 0 && has_prefix(s, from) {
        to + replaced(s.subrange(from.len() as int, s.len() as int), from, to)
    } else {
        seq![s[0]] + replaced(s.drop_first(), from, to)
    }
}

/// The text with every `from` replaced by `to`.
pub fn replace_all(s: &Vec<char>, from: &Vec<char>, to: &Vec<char>) -> (r: Vec<char>)
    requires
        from@.len() > 0,
    ensures
        r@ == replaced(s@, from@, to@),
{
    let mut out: Vec<char> = Vec::new();
    let mut i: usize = 0;
    assert(s@.subrange(0, s@.len() as int) =~= s@);
    while i < s.len()
        invariant
            from@.len() > 0,
            i <= s@.len(),
            out@ + replaced(s@.subrange(i as int, s@.len() as int), from@, to@) == replaced(
                s@,
                from@,
                to@,
            ),
        decreases s@.len() - i,
    {
        let ghost rest = s@.subrange(i as int, s@.len() as int);
        let ghost before = out@;
        if from.len() <= s.len() - i && matches_at(s, from, i) {
            assert(has_prefix(rest, from@)) by {
                assert(rest.subrange(0, from@.len() as int) =~= s@.subrange(
                    i as int,
                    i + from@.len(),
                ));
            }
            assert(rest.subrange(from@.len() as int, rest.len() as int) =~= s@.subrange(
                i + from@.len(),
                s@.len() as int,
            ));
            let mut k: usize = 0;
            while k < to.len()
                invariant
                    k <= to@.len(),
                    out@ =~= before + to@.subrange(0, k as int),
                decreases to@.len() - k,
            {
                out.push(to[k]);
                k = k + 1;
            }
            assert(to@.subrange(0, to@.len() as int) =~= to@);
            assert(out@ + replaced(s@.subrange(i + from@.len(), s@.len() as int), from@, to@)
                =~= before + replaced(rest, from@, to@));
            i = i + from.len();
        } else {
            assert(!has_prefix(rest, from@)) by {
                if has_prefix(rest, from@) {
                    assert(from@.len() <= s@.len() - i);
                    assert(rest.subrange(0, from@.len() as int) =~= s@.subrange(
                        i as int,
                        i + from@.len(),
                    ));
                }
            }
            assert(rest.drop_first() =~= s@.subrange(i + 1, s@.len() as int));
            out.push(s[i as usize]);
            assert(out@ + replaced(s@.subrange(i + 1, s@.len() as int), from@, to@) =~= before
                + replaced(rest, from@, to@));
            i = i + 1;
        }
    }
    assert(s@.subrange(i as int, s@.len() as int) =~= Seq::<char>::empty());
    assert(out@ =~= out@ + Seq::<char>::empty());
    out
}

/// The text of an optional value; empty when absent.
pub open spec fn text_or_empty(v: Option<String>) -> Seq<char> {
    match v {
        Some(s) => s@,
        None => Seq::empty(),
    }
}

fn chars_or_empty(v: &Option<String>) -> (r: Vec<char>)
    ensures
        r@ == text_or_empty(*v),
{
    match v {
        Some(s) => chars_of(s.as_str()),
        None => Vec::new(),
    }
}

/// Each backslash turned into a forward slash.
pub open spec fn forward_slashes(s: Seq<char>) -> Seq<char> {
    Seq::new(s.len(), |i: int| if s[i] == '\\' { '/' } else { s[i] })
}

/// The spy script: the template with the server port and the shared secret
/// (empty when none is set) filled in.
pub open spec fn spy_script(template: Seq<char>, port: u16, secret: Option<String>) -> Seq<char> {
    replaced(
        replaced(template, "{{PORT}}"@, decimal(port as nat)),
        "{{SECRET}}"@,
        text_or_empty(secret),
    )
}

/// The loader script: the template with the server port, the shared secret
/// and the exchange directory as the executor sees it (with forward slashes)
/// filled in.
pub open spec fn loader_script(
    template: Seq<char>,
    port: u16,
    secret: Option<String>,
    exchange_dir: Seq<char>,
    executor_exchange_dir: Option<String>,
) -> Seq<char> {
    let dir = match executor_exchange_dir {
        Some(d) => d@,
        None => exchange_dir,
    };
    replaced(
        replaced(
            replaced(template, "{{PORT}}"@, decimal(port as nat)),
            "{{SECRET}}"@,
            text_or_empty(secret),
        ),
        "{{EXCHANGE_DIR}}"@,
        forward_slashes(dir),
    )
}

fn fill(text: &Vec<char>, key: &str, value: &Vec<char>) -> (r: Vec<char>)
    requires
        key@.len() > 0,
    ensures
        r@ == replaced(text@, key@, value@),
{
    replace_all(text, &chars_of(key), value)
}

/// Builds the spy script from its template.
pub fn build_spy_lua(template: &str, server_port: u16, secret: &Option<String>) -> (r: String)
    ensures
        r@ == spy_script(template@, server_port, *secret),
{
    proof {
        reveal_strlit("{{PORT}}");
        reveal_strlit("{{SECRET}}");
    }
    let t = chars_of(template);
    let t = fill(&t, "{{PORT}}", &decimal_text(server_port as u64));
    let t = fill(&t, "{{SECRET}}", &chars_or_empty(secret));
    string_of(&t)
}

/// Builds the loader script from its template.
pub fn build_loader_lua(
    template: &str,
    server_port: u16,
    secret: &Option<String>,
    exchange_dir: &str,
    executor_exchange_dir: &Option<String>,
) -> (r: String)
    ensures
        r@ == loader_script(template@, server_port, *secret, exchange_dir@, *executor_exchange_dir),
{
    proof {
        reveal_strlit("{{PORT}}");
        reveal_strlit("{{SECRET}}");
        reveal_strlit("{{EXCHANGE_DIR}}");
    }
    let dir = match executor_exchange_dir {
        Some(d) => chars_of(d.as_str()),
        None => chars_of(exchange_dir),
    };
    let mut normalized: Vec<char> = Vec::new();
    let mut i: usize = 0;
    while i < dir.len()
        invariant
            i <= dir@.len(),
            normalized@ =~= forward_slashes(dir@).subrange(0, i as int),
        decreases dir@.len() - i,
    {
        if dir[i] == '\\' {
            normalized.push('/');
        } else {
            normalized.push(dir[i]);
        }
        i = i + 1;
    }
    assert(normalized@ =~= forward_slashes(dir@));
    let t = chars_of(template);
    let t = fill(&t, "{{PORT}}", &decimal_text(server_port as u64));
    let t = fill(&t, "{{SECRET}}", &chars_or_empty(secret));
    let t = fill(&t, "{{EXCHANGE_DIR}}", &normalized);
    string_of(&t)
}

/// The scopes a scan collects when the caller names none.
pub const DEFAULT_SCOPES: &'static str = r#"["services","tree","scripts","remotes","properties"]"#;

/// The scanner script: the template with the server's base URL, the shared
/// secret and the list of scopes to collect filled in.
pub open spec fn scanner_script(
    template: Seq<char>,
    port: u16,
    secret: Option<String>,
    scopes: Option<String>,
) -> Seq<char> {
    let scope_list = match scopes {
        Some(s) => s@,
        None => DEFAULT_SCOPES@,
    };
    replaced(
        replaced(
            replaced(template, "{{BASE_URL}}"@, "http://localhost:"@ + decimal(port as nat)),
            "{{SECRET}}"@,
            text_or_empty(secret),
        ),
        "{{SCOPES}}"@,
        scope_list,
    )
}

/// Builds the scanner script from its template.
pub fn build_scanner_lua(
    template: &str,
    server_port: u16,
    secret: &Option<String>,
    scopes: &Option<String>,
) -> (r: String)
    ensures
        r@ == scanner_script(template@, server_port, *secret, *scopes),
{
    proof {
        reveal_strlit("{{BASE_URL}}");
        reveal_strlit("{{SECRET}}");
        reveal_strlit("{{SCOPES}}");
    }
    let base_url = join2(&chars_of("http://localhost:"), &decimal_text(server_port as u64));
    let scope_list = match scopes {
        Some(s) => chars_of(s.as_str()),
        None => chars_of(DEFAULT_SCOPES),
    };
    let t = chars_of(template);
    let t = fill(&t, "{{BASE_URL}}", &base_url);
    let t = fill(&t, "{{SECRET}}", &chars_or_empty(secret));
    let t = fill(&t, "{{SCOPES}}", &scope_list);
    string_of(&t)
}

} // verus!
