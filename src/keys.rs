//! Canonical ordering of public keys: byte-wise lexicographic order, and a sort
//! whose result depends only on the multiset of keys given.
use vstd::prelude::*;
use vstd::relations::*;
use crate::crypto::seq_bytes;

verus! {

/// Strict lexicographic order on byte strings.
pub open spec fn lex_lt(a: Seq<u8>, b: Seq<u8>) -> bool
    decreases a.len(),
{
    if a.len() == 0 {
        b.len() > 0
    } else if b.len() == 0 {
        false
    } else if a[0] != b[0] {
        a[0] < b[0]
    } else {
        lex_lt(a.drop_first(), b.drop_first())
    }
}

/// Non-strict lexicographic order on byte strings.
pub open spec fn lex_le(a: Seq<u8>, b: Seq<u8>) -> bool {
    a == b || lex_lt(a, b)
}

/// The order in which participant keys are kept and combined.
pub open spec fn key_order() -> spec_fn(Seq<u8>, Seq<u8>) -> bool {
    |a: Seq<u8>, b: Seq<u8>| lex_le(a, b)
}

/// The canonical arrangement of a list of keys.
pub open spec fn sorted_keys(keys: Seq<Seq<u8>>) -> Seq<Seq<u8>> {
    keys.sort_by(key_order())
}

/// Every key is strictly below the keys after it.
pub open spec fn strictly_sorted(keys: Seq<Seq<u8>>) -> bool {
    forall|i: int, j: int| 0 <= i < j < keys.len() ==> lex_lt(#[trigger] keys[i], #[trigger] keys[j])
}

/// No byte string comes before itself.
pub proof fn lemma_lex_lt_irreflexive(a: Seq<u8>)
    ensures
        !lex_lt(a, a),
    decreases a.len(),
{
    if a.len() > 0 {
        lemma_lex_lt_irreflexive(a.drop_first());
    }
}

/// Lexicographic order is transitive.
pub proof fn lemma_lex_lt_transitive(a: Seq<u8>, b: Seq<u8>, c: Seq<u8>)
    requires
        lex_lt(a, b),
        lex_lt(b, c),
    ensures
        lex_lt(a, c),
    decreases a.len(),
{
    if a.len() > 0 && b.len() > 0 && c.len() > 0 && a[0] == b[0] && b[0] == c[0] {
        lemma_lex_lt_transitive(a.drop_first(), b.drop_first(), c.drop_first());
    }
}

/// Of two distinct byte strings one comes first.
pub proof fn lemma_lex_lt_connected(a: Seq<u8>, b: Seq<u8>)
    requires
        a != b,
    ensures
        lex_lt(a, b) || lex_lt(b, a),
    decreases a.len(),
{
    if a.len() == 0 || b.len() == 0 {
        if a.len() == 0 && b.len() == 0 {
            assert(a =~= b);
        }
    } else if a[0] == b[0] {
        if a.drop_first() == b.drop_first() {
            assert(a =~= seq![a[0]] + a.drop_first());
            assert(b =~= seq![b[0]] + b.drop_first());
        } else {
            lemma_lex_lt_connected(a.drop_first(), b.drop_first());
        }
    }
}

/// If `a` comes before `b`, `b` does not come before `a`.
pub proof fn lemma_lex_lt_asymmetric(a: Seq<u8>, b: Seq<u8>)
    requires
        lex_lt(a, b),
    ensures
        !lex_lt(b, a),
{
    if lex_lt(b, a) {
        lemma_lex_lt_transitive(a, b, a);
        lemma_lex_lt_irreflexive(a);
    }
}

/// Lexicographic order is a total order on byte strings.
pub proof fn lemma_key_order_total()
    ensures
        total_ordering(key_order()),
{
    let r = key_order();
    assert forall|x: Seq<u8>| #[trigger] r(x, x) by {}
    assert forall|x: Seq<u8>, y: Seq<u8>| #[trigger] r(x, y) && #[trigger] r(y, x) implies x
        == y by {
        if x != y {
            lemma_lex_lt_asymmetric(x, y);
        }
    }
    assert forall|x: Seq<u8>, y: Seq<u8>, z: Seq<u8>| #[trigger] r(x, y) && #[trigger] r(y, z)
        implies r(x, z) by {
        if x != y && y != z {
            lemma_lex_lt_transitive(x, y, z);
        }
    }
    assert forall|x: Seq<u8>, y: Seq<u8>| #[trigger] r(x, y) || #[trigger] r(y, x) by {
        if x != y {
            lemma_lex_lt_connected(x, y);
        }
    }
}

/// Any two arrangements of the same keys have the same canonical arrangement.
pub proof fn lemma_sorted_keys_permutation(a: Seq<Seq<u8>>, b: Seq<Seq<u8>>)
    requires
        a.to_multiset() == b.to_multiset(),
    ensures
        sorted_keys(a) == sorted_keys(b),
{
    lemma_key_order_total();
    a.lemma_sort_by_ensures(key_order());
    b.lemma_sort_by_ensures(key_order());
    vstd::seq_lib::lemma_sorted_unique(sorted_keys(a), sorted_keys(b), key_order());
}

proof fn lemma_lex_lt_common_prefix(a: Seq<u8>, b: Seq<u8>, i: int)
    requires
        0 <= i <= a.len(),
        i <= b.len(),
        a.subrange(0, i) == b.subrange(0, i),
    ensures
        lex_lt(a, b) == lex_lt(a.subrange(i, a.len() as int), b.subrange(i, b.len() as int)),
    decreases i,
{
    if i > 0 {
        assert(a[0] == a.subrange(0, i)[0]);
        assert(b[0] == b.subrange(0, i)[0]);
        assert(a.drop_first().subrange(0, i - 1) =~= a.subrange(0, i).drop_first());
        assert(b.drop_first().subrange(0, i - 1) =~= b.subrange(0, i).drop_first());
        lemma_lex_lt_common_prefix(a.drop_first(), b.drop_first(), i - 1);
        assert(a.drop_first().subrange(i - 1, a.len() - 1) =~= a.subrange(i, a.len() as int));
        assert(b.drop_first().subrange(i - 1, b.len() - 1) =~= b.subrange(i, b.len() as int));
    } else {
        assert(a.subrange(0, a.len() as int) =~= a);
        assert(b.subrange(0, b.len() as int) =~= b);
    }
}

/// Whether `a` comes strictly before `b` in lexicographic order.
pub fn key_less(a: &[u8], b: &[u8]) -> (r: bool)
    ensures
        r == lex_lt(a@, b@),
{
    let mut i: usize = 0;
    while i < a.len() && i < b.len()
        invariant
            i <= a@.len(),
            i <= b@.len(),
            a@.subrange(0, i as int) == b@.subrange(0, i as int),
        decreases a@.len() - i,
    {
        if a[i] != b[i] {
            proof {
                lemma_lex_lt_common_prefix(a@, b@, i as int);
            }
            return a[i] < b[i];
        }
        assert(a@.subrange(0, i + 1) =~= a@.subrange(0, i as int).push(a@[i as int]));
        assert(b@.subrange(0, i + 1) =~= b@.subrange(0, i as int).push(b@[i as int]));
        i = i + 1;
    }
    proof {
        lemma_lex_lt_common_prefix(a@, b@, i as int);
    }
    i < b.len()
}

/// Whether two byte strings are equal.
pub fn bytes_equal(a: &[u8], b: &[u8]) -> (r: bool)
    ensures
        r == (a@ == b@),
{
    if a.len() != b.len() {
        return false;
    }
    let mut i: usize = 0;
    while i < a.len()
        invariant
            a@.len() == b@.len(),
            i <= a@.len(),
            forall|k: int| 0 <= k < i ==> a@[k] == b@[k],
        decreases a@.len() - i,
    {
        if a[i] != b[i] {
            return false;
        }
        i = i + 1;
    }
    assert(a@ =~= b@);
    true
}

/// The keys in canonical (ascending lexicographic) order.
pub fn sort_keys(keys: &Vec<Vec<u8>>) -> (r: Vec<Vec<u8>>)
    ensures
        seq_bytes(r@) == sorted_keys(seq_bytes(keys@)),
{
    let mut out: Vec<Vec<u8>> = Vec::new();
    let mut i: usize = 0;
    proof {
        lemma_key_order_total();
        assert(seq_bytes(out@) =~= seq_bytes(keys@.subrange(0, 0)));
    }
    while i < keys.len()
        invariant
            i <= keys@.len(),
            total_ordering(key_order()),
            sorted_by(seq_bytes(out@), key_order()),
            seq_bytes(out@).to_multiset() == seq_bytes(keys@.subrange(0, i as int)).to_multiset(),
        decreases keys@.len() - i,
    {
        let x = keys[i].clone();
        let mut p: usize = 0;
        while p < out.len() && !key_less(x.as_slice(), out[p].as_slice())
            invariant
                p <= out@.len(),
                forall|k: int| 0 <= k < p ==> lex_le(#[trigger] out@[k]@, x@),
            decreases out@.len() - p,
        {
            if !bytes_equal(x.as_slice(), out[p].as_slice()) {
                proof {
                    lemma_lex_lt_connected(x@, out@[p as int]@);
                }
            }
            p = p + 1;
        }
        let ghost before = seq_bytes(out@);
        out.insert(p, x);
        proof {
            let after = seq_bytes(out@);
            assert(after =~= before.insert(p as int, keys@[i as int]@));
            assert forall|a: int, b: int| 0 <= a < b < after.len() implies #[trigger] key_order()(
                after[a],
                after[b],
            ) by {
                if a < p && b == p {
                } else if a == p && b > p {
                    // x is strictly below out[p] (old index), which is below the later ones
                    assert(lex_lt(x@, before[p as int]));
                    if b - 1 > p {
                        assert(key_order()(before[p as int], before[b - 1]));
                    }
                    if before[p as int] != before[b - 1] {
                        lemma_lex_lt_transitive(x@, before[p as int], before[b - 1]);
                    }
                }
            }
            vstd::seq_lib::to_multiset_insert(before, p as int, keys@[i as int]@);
            assert(seq_bytes(keys@.subrange(0, i + 1)) =~= seq_bytes(keys@.subrange(0, i as int)).push(
                keys@[i as int]@,
            ));
            vstd::seq_lib::to_multiset_build(seq_bytes(keys@.subrange(0, i as int)), keys@[i as int]@);
        }
        i = i + 1;
    }
    proof {
        assert(keys@.subrange(0, keys@.len() as int) =~= keys@);
        let s = seq_bytes(keys@);
        s.lemma_sort_by_ensures(key_order());
        vstd::seq_lib::lemma_sorted_unique(seq_bytes(out@), sorted_keys(s), key_order());
    }
    out
}

} // verus!
