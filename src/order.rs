//! Canonical ordering of public keys by their serialized bytes.

use vstd::prelude::*;
use vstd::relations::{sorted_by, total_ordering};
use vstd::seq_lib::lemma_sorted_unique;

use crate::keys::{bytes_less, PubKey};

verus! {

broadcast use vstd::seq_lib::group_to_multiset_ensures;

/// `a` sorts no later than `b`.
pub open spec fn key_leq(a: Seq<u8>, b: Seq<u8>) -> bool {
    !bytes_less(b, a)
}

pub open spec fn key_order() -> spec_fn(Seq<u8>, Seq<u8>) -> bool {
    |a: Seq<u8>, b: Seq<u8>| key_leq(a, b)
}

/// Serialized bytes of each key.
pub open spec fn key_bytes(ks: Seq<PubKey>) -> Seq<Seq<u8>> {
    ks.map_values(|k: PubKey| k@)
}

/// Keys in canonical order: ascending by serialized bytes.
pub open spec fn canonical(ks: Seq<Seq<u8>>) -> Seq<Seq<u8>> {
    ks.sort_by(key_order())
}

proof fn lemma_equal_by_head(a: Seq<u8>, b: Seq<u8>)
    requires
        a.len() > 0,
        b.len() > 0,
        a[0] == b[0],
        a.drop_first() == b.drop_first(),
    ensures
        a == b,
{
    assert(a.drop_first().len() == a.len() - 1);
    assert(b.drop_first().len() == b.len() - 1);
    assert forall|i: int| 0 <= i < a.len() implies a[i] == b[i] by {
        if i > 0 {
            assert(a[i] == a.drop_first()[i - 1]);
            assert(b[i] == b.drop_first()[i - 1]);
        }
    }
    assert(a =~= b);
}

proof fn lemma_less_irreflexive(a: Seq<u8>)
    ensures
        !bytes_less(a, a),
    decreases a.len(),
{
    if a.len() > 0 {
        lemma_less_irreflexive(a.drop_first());
    }
}

proof fn lemma_less_total(a: Seq<u8>, b: Seq<u8>)
    ensures
        a == b || bytes_less(a, b) || bytes_less(b, a),
        !(bytes_less(a, b) && bytes_less(b, a)),
    decreases a.len(),
{
    if a.len() > 0 && b.len() > 0 {
        lemma_less_total(a.drop_first(), b.drop_first());
        if a[0] == b[0] && a.drop_first() == b.drop_first() {
            lemma_equal_by_head(a, b);
        }
    } else if a.len() == 0 && b.len() == 0 {
        assert(a =~= b);
    }
}

proof fn lemma_less_transitive(a: Seq<u8>, b: Seq<u8>, c: Seq<u8>)
    requires
        bytes_less(a, b),
        bytes_less(b, c),
    ensures
        bytes_less(a, c),
    decreases a.len(),
{
    if a.len() > 0 && b.len() > 0 && c.len() > 0 && a[0] == b[0] && b[0] == c[0] {
        lemma_less_transitive(a.drop_first(), b.drop_first(), c.drop_first());
    }
}

/// Serialized-byte order is a total order.
pub proof fn lemma_key_order_total()
    ensures
        total_ordering(key_order()),
{
    let f = key_order();
    assert forall|a: Seq<u8>| #[trigger] f(a, a) by {
        lemma_less_irreflexive(a);
    }
    assert forall|a: Seq<u8>, b: Seq<u8>| #[trigger] f(a, b) && #[trigger] f(b, a) implies a == b by {
        lemma_less_total(a, b);
    }
    assert forall|a: Seq<u8>, b: Seq<u8>, c: Seq<u8>| #[trigger] f(a, b) && #[trigger] f(b, c) implies f(
        a,
        c,
    ) by {
        lemma_less_total(a, b);
        lemma_less_total(b, c);
        lemma_less_total(a, c);
        if bytes_less(c, a) {
            if a != b && b != c {
                lemma_less_transitive(a, b, c);
            }
        }
    }
    assert forall|a: Seq<u8>, b: Seq<u8>| #[trigger] f(a, b) || #[trigger] f(b, a) by {
        lemma_less_total(a, b);
    }
}

/// Key lists holding the same keys, in whatever order, have the same
/// canonical order.
pub proof fn lemma_canonical_order(a: Seq<Seq<u8>>, b: Seq<Seq<u8>>)
    requires
        a.to_multiset() == b.to_multiset(),
    ensures
        canonical(a) == canonical(b),
{
    lemma_key_order_total();
    a.lemma_sort_by_ensures(key_order());
    b.lemma_sort_by_ensures(key_order());
    lemma_sorted_unique(canonical(a), canonical(b), key_order());
}

/// Sorts keys into canonical order.
pub fn sort_keys(keys: Vec<PubKey>) -> (r: Vec<PubKey>)
    ensures
        key_bytes(r@) == canonical(key_bytes(keys@)),
        key_bytes(r@).to_multiset() == key_bytes(keys@).to_multiset(),
{
    let mut out: Vec<PubKey> = Vec::new();
    let mut i: usize = 0;
    proof {
        lemma_key_order_total();
    }
    while i < keys.len()
        invariant
            i <= keys@.len(),
            total_ordering(key_order()),
            sorted_by(key_bytes(out@), key_order()),
            key_bytes(out@).to_multiset() == key_bytes(keys@.subrange(0, i as int)).to_multiset(),
            forall|k: int| 0 <= k < out@.len() ==> exists|j: int| 0 <= j < keys@.len() && (#[trigger] out@[k])@ == keys@[j]@,
        decreases keys@.len() - i,
    {
        let key = &keys[i];
        let mut p: usize = 0;
        while p < out.len() && !key.sorts_before(&out[p])
            invariant
                p <= out@.len(),
                forall|k: int| 0 <= k < p ==> key_leq((#[trigger] out@[k])@, key@),
                i < keys@.len(),
                *key == keys@[i as int],
                total_ordering(key_order()),
                sorted_by(key_bytes(out@), key_order()),
                key_bytes(out@).to_multiset() == key_bytes(keys@.subrange(0, i as int)).to_multiset(),
                forall|k: int| 0 <= k < out@.len() ==> exists|j: int| 0 <= j < keys@.len() && (#[trigger] out@[k])@ == keys@[j]@,
            decreases out@.len() - p,
        {
            p = p + 1;
        }
        let ghost before = out@;
        out.insert(p, key.duplicate());
        proof {
            let kb = key_bytes(before);
            let na = key_bytes(out@);
            assert(na =~= kb.insert(p as int, key@));
            let f = key_order();
            assert forall|x: int, y: int| 0 <= x < y < na.len() implies #[trigger] f(na[x], na[y]) by {
                if y < p {
                    assert(f(kb[x], kb[y]));
                } else if y == p {
                    assert(key_leq(before[x]@, key@));
                } else if x == p {
                    assert(bytes_less(key@, before[p as int]@));
                    lemma_less_total(key@, before[p as int]@);
                    assert(f(key@, kb[p as int]));
                    assert(f(kb[p as int], kb[y - 1]));
                    assert(f(key@, kb[y - 1]));
                } else if x < p {
                    assert(f(kb[x], kb[y - 1]));
                } else {
                    assert(f(kb[x - 1], kb[y - 1]));
                }
            }
            assert(na.remove(p as int) =~= kb);
            assert(na.to_multiset().remove(key@) == kb.to_multiset());
            assert(na.to_multiset().count(key@) > 0) by {
                assert(na[p as int] == key@);
                assert(na.contains(key@));
            }
            assert(na.to_multiset() =~= kb.to_multiset().insert(key@));
            let pre = keys@.subrange(0, i as int);
            let now = keys@.subrange(0, i + 1);
            assert(key_bytes(now) =~= key_bytes(pre).push(key@));
            assert forall|k: int| 0 <= k < out@.len() implies exists|j: int|
                0 <= j < keys@.len() && (#[trigger] out@[k])@ == keys@[j]@ by {
                if k < p {
                    assert(out@[k] == before[k]);
                } else if k > p {
                    assert(out@[k] == before[k - 1]);
                } else {
                    assert(out@[k]@ == keys@[i as int]@);
                }
            }
        }
        i = i + 1;
    }
    proof {
        assert(keys@.subrange(0, keys@.len() as int) =~= keys@);
        key_bytes(keys@).lemma_sort_by_ensures(key_order());
        lemma_sorted_unique(key_bytes(out@), canonical(key_bytes(keys@)), key_order());
    }
    out
}

} // verus!
