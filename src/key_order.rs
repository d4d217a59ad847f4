//! The order of keys: byte-wise lexicographic order of their UTF-8 encoding.
use vstd::prelude::*;

use vstd::utf8::{encode_utf8, encode_utf8_decode_utf8};

use crate::types::NodeId;

verus! {

/// `a` and `b` agree before position `i`, where `a` ends or has the smaller byte.
pub open spec fn lt_at(a: Seq<u8>, b: Seq<u8>, i: int) -> bool {
    &&& 0 <= i <= a.len()
    &&& i <= b.len()
    &&& a.take(i) == b.take(i)
    &&& ((i == a.len() && i < b.len()) || (i < a.len() && i < b.len() && a[i] < b[i]))
}

/// Lexicographic order on byte strings.
pub open spec fn bytes_lt(a: Seq<u8>, b: Seq<u8>) -> bool {
    exists|i: int| #[trigger] lt_at(a, b, i)
}

/// Key `a` sorts before key `b`.
pub open spec fn key_lt(a: Seq<char>, b: Seq<char>) -> bool {
    bytes_lt(encode_utf8(a), encode_utf8(b))
}

/// The keys of `kvs` ascend strictly.
pub open spec fn keys_sorted<V>(kvs: Seq<(String, V)>) -> bool {
    forall|i: int, j: int| 0 <= i < j < kvs.len() ==> key_lt(#[trigger] kvs[i].0@, #[trigger] kvs[j].0@)
}

proof fn lemma_take_index(a: Seq<u8>, b: Seq<u8>, n: int, k: int)
    requires
        0 <= k < n <= a.len(),
        n <= b.len(),
        a.take(n) == b.take(n),
    ensures
        a[k] == b[k],
        a.take(k) == b.take(k),
{
    assert(a.take(n)[k] == a[k]);
    assert(b.take(n)[k] == b[k]);
    assert(a.take(k) =~= a.take(n).take(k));
    assert(b.take(k) =~= b.take(n).take(k));
}

proof fn lemma_bytes_lt_trans(x: Seq<u8>, y: Seq<u8>, z: Seq<u8>)
    requires
        bytes_lt(x, y),
        bytes_lt(y, z),
    ensures
        bytes_lt(x, z),
{
    let i = choose|i: int| #[trigger] lt_at(x, y, i);
    let j = choose|j: int| #[trigger] lt_at(y, z, j);
    if i < j {
        lemma_take_index(y, z, j, i);
        assert(x.take(i) == z.take(i));
        assert(lt_at(x, z, i));
    } else if i > j {
        lemma_take_index(x, y, i, j);
        assert(x.take(j) == z.take(j));
        assert(lt_at(x, z, j));
    } else {
        assert(lt_at(x, z, i));
    }
}

pub proof fn lemma_key_lt_trans(a: Seq<char>, b: Seq<char>, c: Seq<char>)
    requires
        key_lt(a, b),
        key_lt(b, c),
    ensures
        key_lt(a, c),
{
    lemma_bytes_lt_trans(encode_utf8(a), encode_utf8(b), encode_utf8(c));
}

/// Compares two keys: negative when `a` sorts first, positive when `b`
/// does, zero when they are equal.
pub fn compare_keys(a: &String, b: &String) -> (r: i8)
    ensures
        r < 0 ==> key_lt(a@, b@),
        r > 0 ==> key_lt(b@, a@),
        r == 0 ==> a@ == b@,
{
    let ab = a.as_str().as_bytes();
    let bb = b.as_str().as_bytes();
    let ghost ea = encode_utf8(a@);
    let ghost eb = encode_utf8(b@);
    let mut i: usize = 0;
    while i < ab.len() && i < bb.len()
        invariant
            ab@ == ea,
            bb@ == eb,
            ea == encode_utf8(a@),
            eb == encode_utf8(b@),
            i <= ab@.len(),
            i <= bb@.len(),
            ab@.take(i as int) == bb@.take(i as int),
        decreases ab@.len() - i,
    {
        if ab[i] < bb[i] {
            assert(lt_at(ea, eb, i as int));
            return -1;
        }
        if ab[i] > bb[i] {
            assert(lt_at(eb, ea, i as int));
            return 1;
        }
        assert(ab@.take(i + 1) =~= ab@.take(i as int).push(ab@[i as int]));
        assert(bb@.take(i + 1) =~= bb@.take(i as int).push(bb@[i as int]));
        i = i + 1;
    }
    if ab.len() < bb.len() {
        assert(ab@.take(i as int) =~= ab@);
        assert(lt_at(ea, eb, i as int));
        return -1;
    }
    if ab.len() > bb.len() {
        assert(bb@.take(i as int) =~= bb@);
        assert(lt_at(eb, ea, i as int));
        return 1;
    }
    proof {
        assert(ab@.take(i as int) =~= ab@);
        assert(bb@.take(i as int) =~= bb@);
        encode_utf8_decode_utf8(a@);
        encode_utf8_decode_utf8(b@);
    }
    0
}

/// Replacing an entry by one with the same key keeps keys sorted.
pub proof fn lemma_sorted_update<V>(s: Seq<(String, V)>, i: int, x: (String, V))
    requires
        keys_sorted(s),
        0 <= i < s.len(),
        x.0@ == s[i].0@,
    ensures
        keys_sorted(s.update(i, x)),
{
    let t = s.update(i, x);
    assert forall|a: int, b: int| 0 <= a < b < t.len() implies key_lt(#[trigger] t[a].0@, #[trigger] t[b].0@) by {
        assert(t[a].0@ == s[a].0@ && t[b].0@ == s[b].0@);
    }
}

/// Keeping only some entries of a sorted list leaves it sorted.
pub proof fn lemma_filter_sorted<V>(s: Seq<(String, V)>, pred: spec_fn((String, V)) -> bool)
    requires
        keys_sorted(s),
    ensures
        keys_sorted(s.filter(pred)),
        forall|k: int| 0 <= k < s.filter(pred).len() ==> exists|j: int| 0 <= j < s.len() && s[j] == #[trigger] s.filter(pred)[k],
    decreases s.len(),
{
    reveal(Seq::filter);
    if s.len() > 0 {
        let init = s.drop_last();
        assert(keys_sorted(init)) by {
            assert forall|a: int, b: int| 0 <= a < b < init.len() implies key_lt(#[trigger] init[a].0@, #[trigger] init[b].0@) by {
                assert(init[a] == s[a] && init[b] == s[b]);
            }
        }
        lemma_filter_sorted(init, pred);
        let f0 = init.filter(pred);
        let f = s.filter(pred);
        assert forall|k: int| 0 <= k < f0.len() implies exists|j: int| 0 <= j < s.len() - 1 && s[j] == #[trigger] f0[k] by {
            let j = choose|j: int| 0 <= j < init.len() && init[j] == #[trigger] f0[k];
            assert(s[j] == init[j]);
        }
        if pred(s.last()) {
            assert(f == f0.push(s.last()));
            assert forall|a: int, b: int| 0 <= a < b < f.len() implies key_lt(#[trigger] f[a].0@, #[trigger] f[b].0@) by {
                assert(f[a] == f0[a]);
                if b < f0.len() {
                    assert(f[b] == f0[b]);
                } else {
                    let j = choose|j: int| 0 <= j < s.len() - 1 && s[j] == #[trigger] f0[a];
                    assert(key_lt(s[j].0@, s[s.len() - 1].0@));
                }
            }
            assert forall|k: int| 0 <= k < f.len() implies exists|j: int| 0 <= j < s.len() && s[j] == #[trigger] f[k] by {
                if k < f0.len() {
                    assert(f[k] == f0[k]);
                    let j = choose|j: int| 0 <= j < s.len() - 1 && s[j] == #[trigger] f0[k];
                } else {
                    assert(f[k] == s[s.len() - 1]);
                }
            }
        } else {
            assert(f == f0);
        }
    }
}

/// Node identifier `a` sorts before `b`: by name, then by address.
pub open spec fn node_lt(a: (Seq<char>, Seq<char>), b: (Seq<char>, Seq<char>)) -> bool {
    key_lt(a.0, b.0) || (a.0 == b.0 && key_lt(a.1, b.1))
}

/// The node identifiers of `s` ascend strictly.
pub open spec fn ids_sorted<V>(s: Seq<(NodeId, V)>) -> bool {
    forall|i: int, j: int| 0 <= i < j < s.len() ==> node_lt(#[trigger] s[i].0@, #[trigger] s[j].0@)
}

pub proof fn lemma_node_lt_trans(a: (Seq<char>, Seq<char>), b: (Seq<char>, Seq<char>), c: (Seq<char>, Seq<char>))
    requires
        node_lt(a, b),
        node_lt(b, c),
    ensures
        node_lt(a, c),
{
    if key_lt(a.0, b.0) && key_lt(b.0, c.0) {
        lemma_key_lt_trans(a.0, b.0, c.0);
    } else if a.0 == b.0 && b.0 == c.0 {
        lemma_key_lt_trans(a.1, b.1, c.1);
    }
}

/// Compares two node identifiers: negative when `a` sorts first, positive
/// when `b` does, zero when they are equal.
pub fn compare_node_ids(a: &NodeId, b: &NodeId) -> (r: i8)
    ensures
        r < 0 ==> node_lt(a@, b@),
        r > 0 ==> node_lt(b@, a@),
        r == 0 ==> a@ == b@,
{
    let c = compare_keys(&a.id, &b.id);
    if c != 0 {
        return c;
    }
    compare_keys(&a.gossip_public_address, &b.gossip_public_address)
}

} // verus!
