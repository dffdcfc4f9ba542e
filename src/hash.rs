use vstd::prelude::*;
use vstd::multiset::Multiset;
use vstd::relations::{sorted_by, total_ordering};
use vstd::seq_lib::{lemma_multiset_commutative, lemma_sorted_unique};
use crate::json::{first_key, text_member, Json, JsonValue};
use crate::text::string_of;

verus! {

broadcast use vstd::seq_lib::group_to_multiset_ensures;

/// The record that one node of a tree contributes: `class_name:name:path`,
/// present only when its path is not empty.
pub open spec fn node_record(v: Json) -> Seq<Seq<char>> {
    let path = text_member(v, "path"@);
    if path.len() > 0 {
        seq![text_member(v, "class_name"@) + ":"@ + text_member(v, "name"@) + ":"@ + path]
    } else {
        Seq::empty()
    }
}

/// Every record of a tree, in traversal order: an array contributes the
/// records of its elements in turn, an object its own record and then those
/// of its `children` member.
pub open spec fn hash_records(v: Json) -> Seq<Seq<char>>
    decreases v,
{
    match v {
        Json::Array(items) => items_records(items),
        Json::Object(fields) => node_record(v) + if exists|i: int|
            first_key(fields, "children"@, i) {
            let i = choose|i: int| first_key(fields, "children"@, i);
            hash_records(fields[i].1)
        } else {
            Seq::empty()
        },
        _ => Seq::empty(),
    }
}

/// The records of a sequence of trees, one after the other.
pub open spec fn items_records(items: Seq<Json>) -> Seq<Seq<char>>
    decreases items,
{
    if items.len() == 0 {
        Seq::empty()
    } else {
        items_records(items.drop_last()) + hash_records(items.last())
    }
}

/// Lexicographic order of texts by code point, the order of `String`'s `Ord`.
pub open spec fn text_le(a: Seq<char>, b: Seq<char>) -> bool
    decreases a.len(),
{
    if a.len() == 0 {
        true
    } else if b.len() == 0 {
        false
    } else if a[0] != b[0] {
        a[0] < b[0]
    } else {
        text_le(a.drop_first(), b.drop_first())
    }
}

pub open spec fn text_order() -> spec_fn(Seq<char>, Seq<char>) -> bool {
    |a: Seq<char>, b: Seq<char>| text_le(a, b)
}

/// The bytes fed to the digest: each record in UTF-8, followed by a newline.
pub open spec fn digest_input(records: Seq<Seq<char>>) -> Seq<u8>
    decreases records.len(),
{
    if records.len() == 0 {
        Seq::empty()
    } else {
        digest_input(records.drop_last()) + vstd::utf8::encode_utf8(records.last()) + seq![
            10u8,
        ]
    }
}

/// The SHA-256 digest of some bytes, written as 64 lowercase hexadecimal digits.
pub uninterp spec fn sha256_hex(data: Seq<u8>) -> Seq<char>;

/// The content hash of a tree: the digest of its records in sorted order.
pub open spec fn tree_hash(t: Json) -> Seq<char> {
    sha256_hex(digest_input(hash_records(t).sort_by(text_order())))
}

/// Relies on `sha2::Sha256::digest`, formatted with `{:x}`: the SHA-256 digest
/// of the bytes in lowercase hexadecimal, which depends on the bytes alone.
#[verifier::external_body]
fn digest_hex(data: &Vec<u8>) -> (r: String)
    ensures
        r@ == sha256_hex(data@),
{
    format!("{:x}", <sha2::Sha256 as sha2::Digest>::digest(data.as_slice()))
}

proof fn lemma_text_le_reflexive(a: Seq<char>)
    ensures
        text_le(a, a),
    decreases a.len(),
{
    if a.len() > 0 {
        lemma_text_le_reflexive(a.drop_first());
    }
}

proof fn lemma_text_le_antisymmetric(a: Seq<char>, b: Seq<char>)
    requires
        text_le(a, b),
        text_le(b, a),
    ensures
        a == b,
    decreases a.len(),
{
    if a.len() > 0 && b.len() > 0 {
        lemma_text_le_antisymmetric(a.drop_first(), b.drop_first());
        assert(a[0] == b[0]);
        assert(a =~= seq![a[0]] + a.drop_first());
        assert(b =~= seq![b[0]] + b.drop_first());
    }
}

proof fn lemma_text_le_transitive(a: Seq<char>, b: Seq<char>, c: Seq<char>)
    requires
        text_le(a, b),
        text_le(b, c),
    ensures
        text_le(a, c),
    decreases a.len(),
{
    if a.len() > 0 && b.len() > 0 && c.len() > 0 {
        if a[0] == b[0] && b[0] == c[0] {
            lemma_text_le_transitive(a.drop_first(), b.drop_first(), c.drop_first());
        }
    }
}

proof fn lemma_text_le_total(a: Seq<char>, b: Seq<char>)
    ensures
        text_le(a, b) || text_le(b, a),
    decreases a.len(),
{
    if a.len() > 0 && b.len() > 0 {
        lemma_text_le_total(a.drop_first(), b.drop_first());
    }
}

/// Record order is a total order.
pub proof fn lemma_text_order_total()
    ensures
        total_ordering(text_order()),
{
    assert forall|a: Seq<char>| #[trigger] text_order()(a, a) by {
        lemma_text_le_reflexive(a);
    }
    assert forall|a: Seq<char>, b: Seq<char>|
        #[trigger] text_order()(a, b) && #[trigger] text_order()(b, a) implies a == b by {
        lemma_text_le_antisymmetric(a, b);
    }
    assert forall|a: Seq<char>, b: Seq<char>, c: Seq<char>|
        #[trigger] text_order()(a, b) && #[trigger] text_order()(b, c) implies text_order()(
        a,
        c,
    ) by {
        lemma_text_le_transitive(a, b, c);
    }
    assert forall|a: Seq<char>, b: Seq<char>|
        #[trigger] text_order()(a, b) || #[trigger] text_order()(b, a) by {
        lemma_text_le_total(a, b);
    }
}

/// The texts held by a sequence of character vectors.
pub open spec fn texts(v: Seq<Vec<char>>) -> Seq<Seq<char>> {
    Seq::new(v.len(), |i: int| v[i]@)
}

fn text_le_exec(a: &Vec<char>, b: &Vec<char>) -> (r: bool)
    ensures
        r == text_le(a@, b@),
{
    let mut i: usize = 0;
    assert(a@.subrange(0, a@.len() as int) =~= a@);
    assert(b@.subrange(0, b@.len() as int) =~= b@);
    while i < a.len() && i < b.len() && a[i] == b[i]
        invariant
            i <= a@.len(),
            i <= b@.len(),
            text_le(a@, b@) == text_le(
                a@.subrange(i as int, a@.len() as int),
                b@.subrange(i as int, b@.len() as int),
            ),
        decreases a@.len() - i,
    {
        let ghost sa = a@.subrange(i as int, a@.len() as int);
        let ghost sb = b@.subrange(i as int, b@.len() as int);
        assert(sa.drop_first() =~= a@.subrange(i + 1, a@.len() as int));
        assert(sb.drop_first() =~= b@.subrange(i + 1, b@.len() as int));
        i = i + 1;
    }
    if i == a.len() {
        true
    } else if i == b.len() {
        false
    } else {
        a[i] < b[i]
    }
}

/// The records in sorted order.
fn sort_records(v: Vec<Vec<char>>) -> (r: Vec<Vec<char>>)
    ensures
        texts(r@) == texts(v@).sort_by(text_order()),
{
    broadcast use vstd::multiset::group_multiset_axioms;

    let ghost input = texts(v@);
    let mut out: Vec<Vec<char>> = Vec::new();
    let mut rest = v;
    proof {
        lemma_text_order_total();
        assert(texts(out@).to_multiset() =~= Multiset::empty());
    }
    while rest.len() > 0
        invariant
            total_ordering(text_order()),
            sorted_by(texts(out@), text_order()),
            texts(out@).to_multiset().add(texts(rest@).to_multiset()) == input.to_multiset(),
        decreases rest@.len(),
    {
        let ghost rest_before = rest@;
        let x = rest.pop().unwrap();
        proof {
            assert(texts(rest_before) =~= texts(rest@).push(x@));
        }
        let mut p: usize = 0;
        while p < out.len() && text_le_exec(&out[p], &x)
            invariant
                p <= out@.len(),
                forall|j: int| 0 <= j < p ==> text_le(texts(out@)[j], x@),
            decreases out@.len() - p,
        {
            p = p + 1;
        }
        let ghost before = texts(out@);
        out.insert(p, x);
        proof {
            assert(texts(out@) =~= before.insert(p as int, x@));
            assert forall|a: int, b: int| 0 <= a < b < texts(out@).len() implies text_order()(
                texts(out@)[a],
                texts(out@)[b],
            ) by {
                if b < p {
                    assert(text_order()(before[a], before[b]));
                } else if a > p {
                    assert(text_order()(before[a - 1], before[b - 1]));
                } else if a == p {
                    lemma_text_le_total(before[p as int], x@);
                    assert(text_le(x@, before[p as int]));
                    if b - 1 > p {
                        assert(text_order()(before[p as int], before[b - 1]));
                        lemma_text_le_transitive(x@, before[p as int], before[b - 1]);
                    }
                } else {
                    assert(text_le(before[a], x@));
                }
            }
        }
    }
    proof {
        assert(texts(rest@).to_multiset() =~= Multiset::empty());
        assert(texts(out@).to_multiset() =~= input.to_multiset());
        input.lemma_sort_by_ensures(text_order());
        lemma_sorted_unique(texts(out@), input.sort_by(text_order()), text_order());
    }
    out
}

fn push_text(out: &mut Vec<char>, t: &Vec<char>)
    ensures
        final(out)@ == old(out)@ + t@,
{
    let mut i: usize = 0;
    while i < t.len()
        invariant
            i <= t@.len(),
            out@ =~= old(out)@ + t@.subrange(0, i as int),
        decreases t@.len() - i,
    {
        out.push(t[i]);
        i = i + 1;
    }
    assert(t@.subrange(0, t@.len() as int) =~= t@);
}

/// Appends to `out` the records of `node`, in traversal order.
fn collect_records(node: &JsonValue, out: &mut Vec<Vec<char>>)
    ensures
        texts(final(out)@) == texts(old(out)@) + hash_records(node@),
    decreases node,
{
    match node {
        JsonValue::Array(items) => {
            let ghost s = node@->Array_0;
            let mut i: usize = 0;
            assert(s.subrange(0, 0) =~= Seq::<Json>::empty());
            assert(texts(out@) =~= texts(old(out)@) + Seq::<Seq<char>>::empty());
            while i < items.len()
                invariant
                    *node == JsonValue::Array(*items),
                    s == node@->Array_0,
                    s.len() == items@.len(),
                    i <= items@.len(),
                    texts(out@) == texts(old(out)@) + items_records(s.subrange(0, i as int)),
                decreases items@.len() - i,
            {
                proof {
                    assert(decreases_to!(*items => items[i as int]));
                    assert(decreases_to!(*node => (*node)->Array_0));
                }
                let ghost mid = out@;
                collect_records(&items[i], out);
                proof {
                    assert(s.subrange(0, i + 1).drop_last() =~= s.subrange(0, i as int));
                    assert(s[i as int] == items@[i as int]@);
                    assert(texts(out@) =~= texts(old(out)@) + items_records(s.subrange(0, i + 1)));
                }
                i = i + 1;
            }
            assert(s.subrange(0, s.len() as int) =~= s);
        },
        JsonValue::Object(fields) => {
            let path = node.text_member("path");
            if path.len() > 0 {
                let class = node.text_member("class_name");
                let name = node.text_member("name");
                let mut rec: Vec<char> = Vec::new();
                push_text(&mut rec, &class);
                rec.push(':');
                push_text(&mut rec, &name);
                rec.push(':');
                push_text(&mut rec, &path);
                proof {
                    reveal_strlit(":");
                    assert(rec@ =~= class@ + ":"@ + name@ + ":"@ + path@);
                }
                let ghost before = out@;
                out.push(rec);
                assert(texts(out@) =~= texts(before) + node_record(node@));
            } else {
                assert(texts(out@) =~= texts(out@) + node_record(node@));
            }
            let ghost mid = out@;
            match node.member_index("children") {
                Some(k) => {
                    proof {
                        assert(decreases_to!(*fields => fields[k as int]));
                        assert(decreases_to!(*node => (*node)->Object_0));
                        let fs = node@->Object_0;
                        let c = choose|c: int| first_key(fs, "children"@, c);
                        crate::json::lemma_first_key_unique(fs, "children"@, k as int, c);
                    }
                    collect_records(&fields[k].value, out);
                    assert(texts(out@) =~= texts(old(out)@) + hash_records(node@));
                },
                None => {
                    assert(texts(out@) =~= texts(old(out)@) + hash_records(node@));
                },
            }
        },
        _ => {
            assert(texts(out@) =~= texts(old(out)@) + hash_records(node@));
        },
    }
}

/// The bytes fed to the digest for these records.
fn digest_bytes(records: &Vec<Vec<char>>) -> (r: Vec<u8>)
    ensures
        r@ == digest_input(texts(records@)),
{
    let mut out: Vec<u8> = Vec::new();
    let mut i: usize = 0;
    while i < records.len()
        invariant
            i <= records@.len(),
            out@ == digest_input(texts(records@).subrange(0, i as int)),
        decreases records@.len() - i,
    {
        let s = string_of(&records[i]);
        let b = s.as_str().as_bytes();
        let ghost start = out@;
        let mut k: usize = 0;
        while k < b.len()
            invariant
                k <= b@.len(),
                out@ =~= start + b@.subrange(0, k as int),
            decreases b@.len() - k,
        {
            out.push(b[k]);
            k = k + 1;
        }
        out.push(10u8);
        proof {
            assert(b@.subrange(0, b@.len() as int) =~= b@);
            assert(texts(records@).subrange(0, i + 1).drop_last() =~= texts(records@).subrange(0, i as int));
            assert(out@ =~= digest_input(texts(records@).subrange(0, i + 1)));
        }
        i = i + 1;
    }
    assert(texts(records@).subrange(0, records@.len() as int) =~= texts(records@));
    out
}

/// The content hash of a tree: its records sorted, each followed by a
/// newline, digested with SHA-256 and written in lowercase hexadecimal.
pub fn compute_tree_hash(tree: &JsonValue) -> (r: String)
    ensures
        r@ == tree_hash(tree@),
{
    let mut records: Vec<Vec<char>> = Vec::new();
    collect_records(tree, &mut records);
    assert(texts(records@) =~= hash_records(tree@));
    let sorted = sort_records(records);
    let bytes = digest_bytes(&sorted);
    digest_hex(&bytes)
}

/// The records of two sequences of trees, one after the other.
pub proof fn lemma_items_records_concat(a: Seq<Json>, b: Seq<Json>)
    ensures
        items_records(a + b) == items_records(a) + items_records(b),
    decreases b.len(),
{
    if b.len() == 0 {
        assert(a + b =~= a);
        assert(items_records(a) + items_records(b) =~= items_records(a));
    } else {
        lemma_items_records_concat(a, b.drop_last());
        assert((a + b).drop_last() =~= a + b.drop_last());
        assert(items_records(a + b) =~= items_records(a) + items_records(b));
    }
}

/// Reordering a sequence of trees reorders their records and keeps each of them.
pub proof fn lemma_items_records_permutation(a: Seq<Json>, b: Seq<Json>)
    requires
        a.to_multiset() == b.to_multiset(),
    ensures
        items_records(a).to_multiset() == items_records(b).to_multiset(),
    decreases a.len(),
{
    broadcast use vstd::multiset::group_multiset_axioms;

    if a.len() == 0 {
        assert(b.to_multiset().len() == 0);
        assert(b =~= Seq::<Json>::empty());
    } else {
        let x = a.last();
        let a1 = a.drop_last();
        assert(a =~= a1.push(x));
        assert(b.to_multiset().count(x) > 0);
        let j = choose|j: int| 0 <= j < b.len() && b[j] == x;
        let b1 = b.remove(j);
        assert(b1.to_multiset() =~= a1.to_multiset());
        lemma_items_records_permutation(a1, b1);
        let b0 = b.subrange(0, j);
        let b2 = b.subrange(j + 1, b.len() as int);
        assert(b =~= b0 + seq![x] + b2);
        assert(b1 =~= b0 + b2);
        lemma_items_records_concat(b0 + seq![x], b2);
        lemma_items_records_concat(b0, seq![x]);
        lemma_items_records_concat(b0, b2);
        assert(seq![x].drop_last() =~= Seq::<Json>::empty());
        assert(seq![x].last() == x);
        assert(items_records(Seq::<Json>::empty()) =~= Seq::<Seq<char>>::empty());
        assert(items_records(seq![x]) == items_records(seq![x].drop_last()) + hash_records(x));
        assert(items_records(seq![x]) =~= hash_records(x));
        lemma_multiset_commutative(items_records(b0) + hash_records(x), items_records(b2));
        lemma_multiset_commutative(items_records(b0), hash_records(x));
        lemma_multiset_commutative(items_records(b0), items_records(b2));
        lemma_multiset_commutative(items_records(a1), hash_records(x));
        assert(items_records(a).to_multiset() =~= items_records(b).to_multiset());
    }
}

/// Trees with the same records, counted with repetition, have the same hash.
pub proof fn lemma_tree_hash_by_records(a: Json, b: Json)
    requires
        hash_records(a).to_multiset() == hash_records(b).to_multiset(),
    ensures
        tree_hash(a) == tree_hash(b),
{
    lemma_text_order_total();
    hash_records(a).lemma_sort_by_ensures(text_order());
    hash_records(b).lemma_sort_by_ensures(text_order());
    lemma_sorted_unique(
        hash_records(a).sort_by(text_order()),
        hash_records(b).sort_by(text_order()),
        text_order(),
    );
}

/// The hash of a tree does not depend on the order of its top-level nodes.
pub proof fn lemma_tree_hash_order_independent(nodes: Seq<Json>, reordered: Seq<Json>)
    requires
        nodes.to_multiset() == reordered.to_multiset(),
    ensures
        tree_hash(Json::Array(nodes)) == tree_hash(Json::Array(reordered)),
{
    lemma_items_records_permutation(nodes, reordered);
    lemma_tree_hash_by_records(Json::Array(nodes), Json::Array(reordered));
}

} // verus!
