use vstd::prelude::*;
use crate::hash::{compute_tree_hash, tree_hash};
use crate::json::{Json, JsonValue};
use crate::outline::strings_view;
use crate::store::opt_model;

verus! {

broadcast use vstd::seq_lib::group_to_multiset_ensures;

/// An instant in UTC: whole seconds since the Unix epoch and the nanoseconds
/// past that second.
#[derive(PartialEq, Eq, Structural, Clone, Copy, Debug)]
pub struct Timestamp {
    pub secs: i64,
    pub nanos: u32,
}

/// `a` comes strictly before `b`.
pub open spec fn earlier(a: Timestamp, b: Timestamp) -> bool {
    a.secs < b.secs || (a.secs == b.secs && a.nanos < b.nanos)
}

impl Timestamp {
    /// Whether this instant comes strictly before `other`.
    pub fn is_before(&self, other: &Timestamp) -> (r: bool)
        ensures
            r == earlier(*self, *other),
    {
        self.secs < other.secs || (self.secs == other.secs && self.nanos < other.nanos)
    }
}

/// What the scanner reports when it has sent every chunk of a scan.
///
/// The scan's duration is carried as the bit pattern of its `f64` seconds.
pub struct ScanCompleteRequest {
    pub place_id: u64,
    pub game_id: u64,
    pub place_version: u64,
    pub place_name: String,
    pub creator_id: u64,
    pub creator_type: String,
    pub job_id: String,
    pub scopes: Vec<String>,
    pub scan_duration_bits: u64,
    pub instance_count: u64,
    pub script_count: u64,
    pub remote_count: u64,
    pub executor_supports_decompile: bool,
}

/// The finished record of one scan of a target.
///
/// The scan's duration is carried as the bit pattern of its `f64` seconds.
#[derive(Debug)]
pub struct GameManifest {
    pub place_id: u64,
    pub game_id: u64,
    pub place_version: u64,
    pub place_name: String,
    pub creator_id: u64,
    pub creator_type: String,
    pub job_id: String,
    pub tree_hash: String,
    pub scanned_at: Timestamp,
    pub scan_duration_bits: u64,
    pub scopes: Vec<String>,
    pub instance_count: u64,
    pub script_count: u64,
    pub remote_count: u64,
    pub executor_supports_decompile: bool,
}

/// The tree that a manifest is hashed from: the stored tree, or an empty
/// array when none could be read.
pub open spec fn tree_or_empty(stored: Option<Json>) -> Json {
    match stored {
        Some(t) => t,
        None => Json::Array(Seq::empty()),
    }
}

fn copy_strings(v: &Vec<String>) -> (r: Vec<String>)
    ensures
        strings_view(r@) == strings_view(v@),
{
    let mut r: Vec<String> = Vec::new();
    let mut i: usize = 0;
    while i < v.len()
        invariant
            i <= v@.len(),
            strings_view(r@) =~= strings_view(v@).subrange(0, i as int),
        decreases v@.len() - i,
    {
        let ghost before = strings_view(r@);
        r.push(v[i].clone());
        assert(strings_view(r@) =~= before.push(v@[i as int]@));
        i = i + 1;
    }
    assert(strings_view(v@).subrange(0, v@.len() as int) =~= strings_view(v@));
    r
}

/// The manifest of a finished scan: the caller's metadata, the hash of the
/// stored tree, and the completion time `now`.
pub fn assemble_manifest(
    req: &ScanCompleteRequest,
    stored_tree: Option<JsonValue>,
    now: Timestamp,
) -> (r: GameManifest)
    ensures
        r.tree_hash@ == tree_hash(tree_or_empty(opt_model(stored_tree))),
        r.scanned_at == now,
        r.place_id == req.place_id,
        r.game_id == req.game_id,
        r.place_version == req.place_version,
        r.place_name@ == req.place_name@,
        r.creator_id == req.creator_id,
        r.creator_type@ == req.creator_type@,
        r.job_id@ == req.job_id@,
        r.scan_duration_bits == req.scan_duration_bits,
        strings_view(r.scopes@) == strings_view(req.scopes@),
        r.instance_count == req.instance_count,
        r.script_count == req.script_count,
        r.remote_count == req.remote_count,
        r.executor_supports_decompile == req.executor_supports_decompile,
{
    let tree = match stored_tree {
        Some(t) => t,
        None => JsonValue::Array(Vec::new()),
    };
    assert(tree@ == tree_or_empty(opt_model(stored_tree))) by {
        if stored_tree is None {
            assert(tree@->Array_0 =~= Seq::<Json>::empty());
        }
    }
    let hash = compute_tree_hash(&tree);
    GameManifest {
        place_id: req.place_id,
        game_id: req.game_id,
        place_version: req.place_version,
        place_name: req.place_name.clone(),
        creator_id: req.creator_id,
        creator_type: req.creator_type.clone(),
        job_id: req.job_id.clone(),
        tree_hash: hash,
        scanned_at: now,
        scan_duration_bits: req.scan_duration_bits,
        scopes: copy_strings(&req.scopes),
        instance_count: req.instance_count,
        script_count: req.script_count,
        remote_count: req.remote_count,
        executor_supports_decompile: req.executor_supports_decompile,
    }
}

/// Manifests in order of completion, newest first.
pub open spec fn newest_first(s: Seq<GameManifest>) -> bool {
    forall|i: int, j: int| 0 <= i < j < s.len() ==> !earlier(s[i].scanned_at, s[j].scanned_at)
}

/// The manifests ordered by completion time, newest first; manifests that
/// completed at the same instant keep their order.
pub fn order_newest_first(manifests: Vec<GameManifest>) -> (r: Vec<GameManifest>)
    ensures
        newest_first(r@),
        r@.to_multiset() == manifests@.to_multiset(),
{
    broadcast use vstd::multiset::group_multiset_axioms;

    let ghost input = manifests@;
    let mut rest = manifests;
    let mut out: Vec<GameManifest> = Vec::new();
    assert(out@.to_multiset() =~= vstd::multiset::Multiset::empty());
    while rest.len() > 0
        invariant
            newest_first(out@),
            out@.to_multiset().add(rest@.to_multiset()) == input.to_multiset(),
        decreases rest@.len(),
    {
        let ghost rest_before = rest@;
        let x = rest.remove(0);
        assert(rest_before.remove(0) == rest@);
        let mut p: usize = 0;
        while p < out.len() && !out[p].scanned_at.is_before(&x.scanned_at)
            invariant
                p <= out@.len(),
                forall|j: int| 0 <= j < p ==> !earlier(#[trigger] out@[j].scanned_at, x.scanned_at),
            decreases out@.len() - p,
        {
            p = p + 1;
        }
        let ghost before = out@;
        out.insert(p, x);
        proof {
            assert(out@ == before.insert(p as int, x));
            assert forall|a: int, b: int| 0 <= a < b < out@.len() implies !earlier(
                out@[a].scanned_at,
                out@[b].scanned_at,
            ) by {
                if b < p {
                    assert(out@[a] == before[a] && out@[b] == before[b]);
                } else if a > p {
                    assert(out@[a] == before[a - 1] && out@[b] == before[b - 1]);
                } else if a == p {
                    assert(out@[b] == before[b - 1]);
                    assert(earlier(before[p as int].scanned_at, x.scanned_at));
                    assert(!earlier(before[p as int].scanned_at, before[b - 1].scanned_at));
                } else {
                    assert(out@[a] == before[a]);
                }
            }
        }
    }
    assert(rest@.to_multiset() =~= vstd::multiset::Multiset::empty());
    assert(out@.to_multiset() =~= input.to_multiset());
    out
}

/// Of two manifests where `b` completed after `a`, the listing puts `b` first.
pub proof fn lemma_newer_listed_first(a: GameManifest, b: GameManifest, listed: Seq<GameManifest>)
    requires
        earlier(a.scanned_at, b.scanned_at),
        newest_first(listed),
        listed.to_multiset() == seq![a, b].to_multiset(),
    ensures
        listed == seq![b, a],
{
    broadcast use vstd::multiset::group_multiset_axioms;

    let pair = seq![a, b];
    assert(pair =~= seq![a].push(b));
    assert(seq![a] =~= Seq::<GameManifest>::empty().push(a));
    assert(Seq::<GameManifest>::empty().to_multiset() =~= vstd::multiset::Multiset::empty());
    assert(pair.to_multiset().len() == pair.len());
    assert(listed.to_multiset().len() == listed.len());
    assert(listed.len() == 2);
    assert(a != b);
    assert(pair.to_multiset().count(a) == 1);
    assert(pair.to_multiset().count(b) == 1);
    assert(listed.contains(a));
    assert(listed.contains(b));
    if listed[0] == a {
        assert(listed[1] == b) by {
            if listed[1] != b {
                assert(listed[1] == a);
                assert(listed =~= seq![a].push(a));
                assert(listed.to_multiset().count(b) == 0);
            }
        }
        assert(!earlier(listed[0].scanned_at, listed[1].scanned_at));
    } else {
        assert(listed[0] == b);
        assert(listed[1] == a) by {
            if listed[1] != a {
                assert(listed =~= seq![b].push(b));
                assert(listed.to_multiset().count(a) == 0);
            }
        }
        assert(listed =~= seq![b, a]);
    }
}

} // verus!
