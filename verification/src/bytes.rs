//! Byte-string keys and values, and the strict lexicographic order that the
//! memtable and the sorted runs are kept in.

use vstd::prelude::*;

verus! {

/// The view of an optional payload: `None` denotes a tombstone.
pub open spec fn opt_view(v: Option<Vec<u8>>) -> Option<Seq<u8>> {
    match v {
        Some(b) => Some(b@),
        None => None,
    }
}

/// Strict lexicographic order on byte sequences: a proper prefix sorts first,
/// otherwise the first differing byte decides.
pub open spec fn lex_lt(a: Seq<u8>, b: Seq<u8>) -> bool
    decreases a.len(),
{
    if b.len() == 0 {
        false
    } else if a.len() == 0 {
        true
    } else if a[0] < b[0] {
        true
    } else if a[0] > b[0] {
        false
    } else {
        lex_lt(a.drop_first(), b.drop_first())
    }
}

pub proof fn lemma_lex_lt_irrefl(a: Seq<u8>)
    ensures
        !lex_lt(a, a),
    decreases a.len(),
{
    if a.len() > 0 {
        lemma_lex_lt_irrefl(a.drop_first());
    }
}

pub proof fn lemma_lex_lt_trichotomy(a: Seq<u8>, b: Seq<u8>)
    ensures
        lex_lt(a, b) || lex_lt(b, a) || a == b,
    decreases a.len(),
{
    if a.len() == 0 && b.len() == 0 {
        assert(a =~= b);
    } else if a.len() > 0 && b.len() > 0 && a[0] == b[0] {
        lemma_lex_lt_trichotomy(a.drop_first(), b.drop_first());
        if a.drop_first() == b.drop_first() {
            assert(a.len() == b.len());
            assert(forall|i: int| 0 < i < a.len() ==> #[trigger] a[i] == b[i]) by {
                assert forall|i: int| 0 < i < a.len() implies #[trigger] a[i] == b[i] by {
                    assert(a.drop_first()[i - 1] == b.drop_first()[i - 1]);
                }
            }
            assert(a =~= b);
        }
    }
}

pub proof fn lemma_lex_lt_trans(a: Seq<u8>, b: Seq<u8>, c: Seq<u8>)
    requires
        lex_lt(a, b),
        lex_lt(b, c),
    ensures
        lex_lt(a, c),
    decreases a.len() + b.len() + c.len(),
{
    if a.len() > 0 && b.len() > 0 && c.len() > 0 && a[0] == b[0] && b[0] == c[0] {
        lemma_lex_lt_trans(a.drop_first(), b.drop_first(), c.drop_first());
    }
}

pub proof fn lemma_lex_lt_asym(a: Seq<u8>, b: Seq<u8>)
    requires
        lex_lt(a, b),
    ensures
        !lex_lt(b, a),
        a != b,
{
    lemma_lex_lt_irrefl(a);
    if lex_lt(b, a) {
        lemma_lex_lt_trans(a, b, a);
    }
}

/// A common prefix of equal bytes does not influence the order.
pub proof fn lemma_lex_lt_skip(a: Seq<u8>, b: Seq<u8>, i: int)
    requires
        0 <= i <= a.len(),
        i <= b.len(),
        forall|j: int| 0 <= j < i ==> a[j] == b[j],
    ensures
        lex_lt(a, b) == lex_lt(a.skip(i), b.skip(i)),
    decreases i,
{
    if i > 0 {
        assert(a.len() > 0 && b.len() > 0 && a[0] == b[0]);
        assert(forall|j: int| 0 <= j < i - 1 ==> #[trigger] a.drop_first()[j] == a[j + 1]);
        assert(forall|j: int| 0 <= j < i - 1 ==> #[trigger] b.drop_first()[j] == b[j + 1]);
        lemma_lex_lt_skip(a.drop_first(), b.drop_first(), i - 1);
        assert(a.drop_first().skip(i - 1) =~= a.skip(i));
        assert(b.drop_first().skip(i - 1) =~= b.skip(i));
    } else {
        assert(a.skip(0) =~= a);
        assert(b.skip(0) =~= b);
    }
}

/// Three-way outcome of comparing two keys.
pub enum KeyOrder {
    Less,
    Equal,
    Greater,
}

/// Compare two byte strings in the lexicographic key order.
pub fn key_cmp(a: &Vec<u8>, b: &Vec<u8>) -> (r: KeyOrder)
    ensures
        (r == KeyOrder::Less) == lex_lt(a@, b@),
        (r == KeyOrder::Greater) == lex_lt(b@, a@),
        (r == KeyOrder::Equal) == (a@ == b@),
{
    let mut i: usize = 0;
    while i < a.len() && i < b.len()
        invariant
            i <= a@.len(),
            i <= b@.len(),
            forall|j: int| 0 <= j < i ==> a@[j] == b@[j],
        decreases a@.len() - i,
    {
        if a[i] < b[i] {
            proof {
                lemma_lex_lt_skip(a@, b@, i as int);
                lemma_lex_lt_skip(b@, a@, i as int);
                lemma_lex_lt_asym(a@, b@);
            }
            return KeyOrder::Less;
        }
        if a[i] > b[i] {
            proof {
                lemma_lex_lt_skip(a@, b@, i as int);
                lemma_lex_lt_skip(b@, a@, i as int);
                lemma_lex_lt_asym(b@, a@);
            }
            return KeyOrder::Greater;
        }
        i = i + 1;
    }
    proof {
        lemma_lex_lt_skip(a@, b@, i as int);
        lemma_lex_lt_skip(b@, a@, i as int);
    }
    if a.len() < b.len() {
        proof {
            lemma_lex_lt_asym(a@, b@);
        }
        KeyOrder::Less
    } else if a.len() > b.len() {
        proof {
            lemma_lex_lt_asym(b@, a@);
        }
        KeyOrder::Greater
    } else {
        proof {
            assert(a@ =~= b@);
            lemma_lex_lt_irrefl(a@);
        }
        KeyOrder::Equal
    }
}

/// Copy a byte string.
pub fn dup_bytes(v: &Vec<u8>) -> (r: Vec<u8>)
    ensures
        r@ == v@,
{
    let mut r: Vec<u8> = Vec::new();
    let mut i: usize = 0;
    while i < v.len()
        invariant
            i <= v@.len(),
            r@ == v@.take(i as int),
        decreases v@.len() - i,
    {
        r.push(v[i]);
        proof {
            assert(r@ =~= v@.take(i + 1));
        }
        i = i + 1;
    }
    proof {
        assert(v@.take(v@.len() as int) =~= v@);
    }
    r
}

/// Copy an optional payload.
pub fn dup_opt(v: &Option<Vec<u8>>) -> (r: Option<Vec<u8>>)
    ensures
        opt_view(r) == opt_view(*v),
{
    match v {
        Some(b) => Some(dup_bytes(b)),
        None => None,
    }
}

} // verus!
