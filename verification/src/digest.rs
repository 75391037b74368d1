use vstd::prelude::*;
use vstd::relations::sorted_by;
use vstd::multiset::Multiset;
use vstd::utf8::{encode_utf8, decode_utf8, is_ascii_chars, is_ascii_chars_encode_utf8, encode_utf8_decode_utf8};
use crate::text::{hex_lower, views, text_order, sorted_strings, hex_lower_string, decimal_string, decimal, decimal_value, lemma_decimal};

verus! {

broadcast use vstd::string::group_string_axioms;

/// The 32-byte BLAKE3 digest of a byte string (what `blake3::hash` returns).
pub uninterp spec fn blake3_hash(input: Seq<u8>) -> Seq<u8>;

/// `blake3::hash`: trusted to return the digest named `blake3_hash` of exactly
/// the bytes given, 32 bytes long (`blake3::OUT_LEN`).
#[verifier::external_body]
fn blake3_digest(input: &[u8]) -> (d: Vec<u8>)
    ensures
        d@ == blake3_hash(input@),
        d@.len() == 32,
{
    blake3::hash(input).as_bytes().to_vec()
}

/// Lowercase hex of the BLAKE3 digest of `input` (64 characters).
pub open spec fn blake3_hex(input: Seq<u8>) -> Seq<char> {
    hex_lower(blake3_hash(input))
}

fn blake3_hex_string(input: &[u8]) -> (s: String)
    ensures
        s@ == blake3_hex(input@),
        s@.len() == 64,
{
    let d = blake3_digest(input);
    hex_lower_string(d.as_slice())
}

fn append_bytes(v: &mut Vec<u8>, b: &[u8])
    ensures
        final(v)@ == old(v)@ + b@,
{
    let mut i: usize = 0;
    let ghost start = v@;
    while i < b.len()
        invariant
            i <= b@.len(),
            v@ == start + b@.take(i as int),
        decreases b.len() - i,
    {
        v.push(b[i]);
        proof { assert(b@.take(i + 1) =~= b@.take(i as int).push(b@[i as int])); }
        i = i + 1;
    }
    proof { assert(b@.take(b@.len() as int) =~= b@); }
}

/// Bytes hashed for a photo id: `project_id`, a newline, then `path`.
pub open spec fn photo_id_input(project_id: Seq<char>, path: Seq<char>) -> Seq<u8> {
    encode_utf8(project_id) + seq![10u8] + encode_utf8(path)
}

/// Project-scoped photo id: BLAKE3 of `project_id + '\n' + path`, as 64
/// lowercase hex characters. The same path under two project ids hashes two
/// different inputs.
pub fn photo_id(project_id: &str, path: &str) -> (id: String)
    ensures
        id@ == blake3_hex(photo_id_input(project_id@, path@)),
        id@.len() == 64,
{
    let mut input: Vec<u8> = Vec::new();
    append_bytes(&mut input, project_id.as_bytes());
    input.push(10u8);
    append_bytes(&mut input, path.as_bytes());
    proof {
        assert(input@ =~= photo_id_input(project_id@, path@));
    }
    blake3_hex_string(input.as_slice())
}

/// Bytes hashed for a transcode cache key: `path`, `|`, then the source mtime
/// in decimal.
pub open spec fn cache_key_input(path: Seq<char>, mtime_nanos: nat) -> Seq<u8> {
    encode_utf8(path) + seq![124u8] + encode_utf8(decimal(mtime_nanos))
}

/// Deterministic cache key for a transcode result: BLAKE3 of
/// `path + "|" + mtime_nanos`, as 64 lowercase hex characters. Changing either
/// component changes the hashed input.
pub fn transcode_cache_key(path: &str, mtime_nanos: u128) -> (key: String)
    ensures
        key@ == blake3_hex(cache_key_input(path@, mtime_nanos as nat)),
        key@.len() == 64,
{
    let digits = decimal_string(mtime_nanos);
    let mut input: Vec<u8> = Vec::new();
    append_bytes(&mut input, path.as_bytes());
    input.push(124u8);
    append_bytes(&mut input, digits.as_str().as_bytes());
    proof {
        assert(input@ =~= cache_key_input(path@, mtime_nanos as nat));
    }
    blake3_hex_string(input.as_slice())
}

/// The UTF-8 bytes of `decimal(n)`: ASCII digits, never the `|` separator.
proof fn lemma_decimal_bytes(n: nat)
    ensures
        encode_utf8(decimal(n)).len() == decimal(n).len(),
        forall|i: int| 0 <= i < decimal(n).len() ==> 48 <= #[trigger] encode_utf8(decimal(n))[i] <= 57,
{
    lemma_decimal(n);
    let d = decimal(n);
    assert(is_ascii_chars(d));
    is_ascii_chars_encode_utf8(d);
    assert forall|i: int| 0 <= i < d.len() implies 48 <= #[trigger] encode_utf8(d)[i] <= 57 by {
        assert('0' <= d[i] <= '9');
        assert(d[i] as u8 == encode_utf8(d)[i]);
    }
}

/// Two cache-key inputs coincide exactly when both the path and the mtime
/// agree: the key changes with the path and with the mtime (the last `|`
/// of the input always separates the two, since digits hold no `|`).
pub proof fn law_cache_key_input_injective(path1: Seq<char>, mtime1: nat, path2: Seq<char>, mtime2: nat)
    ensures
        cache_key_input(path1, mtime1) == cache_key_input(path2, mtime2) <==> (path1 == path2 && mtime1 == mtime2),
{
    if cache_key_input(path1, mtime1) == cache_key_input(path2, mtime2) {
        let x = cache_key_input(path1, mtime1);
        let a1 = encode_utf8(path1);
        let a2 = encode_utf8(path2);
        let d1 = encode_utf8(decimal(mtime1));
        let d2 = encode_utf8(decimal(mtime2));
        lemma_decimal_bytes(mtime1);
        lemma_decimal_bytes(mtime2);
        assert(x.len() == a1.len() + 1 + d1.len());
        assert(x.len() == a2.len() + 1 + d2.len());
        if d1.len() < d2.len() {
            let k = a1.len() as int;
            assert(x[k] == 124u8);
            assert(x[k] == d2[k - a2.len() - 1]);
            assert(false);
        }
        if d2.len() < d1.len() {
            let k = a2.len() as int;
            assert(cache_key_input(path2, mtime2)[k] == 124u8);
            assert(x[k] == d1[k - a1.len() - 1]);
            assert(false);
        }
        assert(a1 =~= x.subrange(0, a1.len() as int));
        assert(a2 =~= x.subrange(0, a2.len() as int));
        assert(d1 =~= x.subrange(x.len() - d1.len(), x.len() as int));
        assert(d2 =~= x.subrange(x.len() - d2.len(), x.len() as int));
        encode_utf8_decode_utf8(path1);
        encode_utf8_decode_utf8(path2);
        encode_utf8_decode_utf8(decimal(mtime1));
        encode_utf8_decode_utf8(decimal(mtime2));
        lemma_decimal(mtime1);
        lemma_decimal(mtime2);
    }
}

/// The same path under two projects is hashed from two different inputs,
/// and two paths under one project likewise: the photo-id input is
/// injective in each argument.
pub proof fn law_photo_id_input_injective(project1: Seq<char>, project2: Seq<char>, path1: Seq<char>, path2: Seq<char>)
    ensures
        photo_id_input(project1, path1) == photo_id_input(project2, path1) <==> project1 == project2,
        photo_id_input(project1, path1) == photo_id_input(project1, path2) <==> path1 == path2,
{
    let a1 = encode_utf8(project1);
    let a2 = encode_utf8(project2);
    let b1 = encode_utf8(path1);
    let b2 = encode_utf8(path2);
    encode_utf8_decode_utf8(project1);
    encode_utf8_decode_utf8(project2);
    encode_utf8_decode_utf8(path1);
    encode_utf8_decode_utf8(path2);
    if photo_id_input(project1, path1) == photo_id_input(project2, path1) {
        let x = photo_id_input(project1, path1);
        assert(a1 =~= x.subrange(0, a1.len() as int));
        assert(a2 =~= x.subrange(0, a2.len() as int));
    }
    if photo_id_input(project1, path1) == photo_id_input(project1, path2) {
        let x = photo_id_input(project1, path1);
        assert(b1 =~= x.subrange(a1.len() as int + 1, x.len() as int));
        assert(b2 =~= x.subrange(a1.len() as int + 1, x.len() as int));
    }
}

/// The ids of a multiset in ascending order (unique for a total order).
pub open spec fn ascending(ms: Multiset<Seq<char>>) -> Seq<Seq<char>> {
    choose|s: Seq<Seq<char>>| sorted_by(s, text_order()) && s.to_multiset() == ms
}

/// Bytes hashed for a group id: the method, then each member preceded by a
/// newline.
pub open spec fn group_id_input(method: Seq<char>, members: Seq<Seq<char>>) -> Seq<u8>
    decreases members.len(),
{
    if members.len() == 0 {
        encode_utf8(method)
    } else {
        group_id_input(method, members.drop_last()) + seq![10u8] + encode_utf8(members.last())
    }
}

/// Content-derived group id of a member multiset: BLAKE3 of the method and the
/// members in ascending order, as 64 lowercase hex characters.
pub open spec fn group_id(method: Seq<char>, members: Multiset<Seq<char>>) -> Seq<char> {
    blake3_hex(group_id_input(method, ascending(members)))
}

/// Content-derived group id: `blake3(method + "\n" + sorted member ids joined
/// by "\n")`. Same membership => same id, whatever the order of `members`.
pub fn derive_id(method: &str, members: &[String]) -> (id: String)
    ensures
        id@ == group_id(method@, views(members@).to_multiset()),
        id@.len() == 64,
{
    let sorted = sorted_strings(members);
    let mut input: Vec<u8> = Vec::new();
    append_bytes(&mut input, method.as_bytes());
    let mut i: usize = 0;
    proof { assert(views(sorted@).take(0) =~= Seq::<Seq<char>>::empty()); }
    while i < sorted.len()
        invariant
            i <= sorted@.len(),
            input@ == group_id_input(method@, views(sorted@).take(i as int)),
        decreases sorted.len() - i,
    {
        input.push(10u8);
        append_bytes(&mut input, sorted[i].as_str().as_bytes());
        proof {
            let t = views(sorted@).take(i + 1);
            assert(t.drop_last() =~= views(sorted@).take(i as int));
            assert(t.last() == sorted@[i as int]@);
        }
        i = i + 1;
    }
    proof {
        let s = views(sorted@);
        assert(s.take(s.len() as int) =~= s);
        crate::text::lemma_text_order_total();
        let ms = views(members@).to_multiset();
        assert(sorted_by(s, text_order()) && s.to_multiset() == ms);
        let c = ascending(ms);
        vstd::seq_lib::lemma_sorted_unique(c, s, text_order());
    }
    blake3_hex_string(input.as_slice())
}

/// A group's id depends on which ids it holds, not on their order: two member
/// lists holding the same ids, in any order, get the same id (and the hashed
/// input lists them in one ascending order).
pub proof fn law_group_id_order_independent(method: Seq<char>, members1: Seq<Seq<char>>, members2: Seq<Seq<char>>)
    requires
        members1.to_multiset() == members2.to_multiset(),
    ensures
        group_id(method, members1.to_multiset()) == group_id(method, members2.to_multiset()),
        ascending(members1.to_multiset()) == ascending(members2.to_multiset()),
        sorted_by(ascending(members1.to_multiset()), text_order()),
        ascending(members1.to_multiset()).to_multiset() == members1.to_multiset(),
{
    crate::text::lemma_text_order_total();
    let s = members1.sort_by(text_order());
    members1.lemma_sort_by_ensures(text_order());
    assert(sorted_by(s, text_order()) && s.to_multiset() == members1.to_multiset());
}

} // verus!
