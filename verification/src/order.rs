//! Ordering and equality on string keys.
//!
//! Keys are compared by their UTF-8 byte sequences. Because UTF-8 encodes
//! larger scalar values with strictly larger byte sequences, this order
//! coincides with lexicographic order on the keys' character sequences.

use vstd::prelude::*;
use vstd::slice::slice_index_get;
use vstd::utf8::encode_utf8;
use vstd::utf8::encode_utf8_decode_utf8;

verus! {

/// Three-way lexicographic comparison of byte sequences:
/// `-1` when `a` comes first, `0` when they are equal, `1` when `b` comes first.
pub open spec fn lex_cmp(a: Seq<u8>, b: Seq<u8>) -> int
    decreases a.len(),
{
    if a.len() == 0 && b.len() == 0 {
        0
    } else if a.len() == 0 {
        -1
    } else if b.len() == 0 {
        1
    } else if a[0] < b[0] {
        -1
    } else if a[0] > b[0] {
        1
    } else {
        lex_cmp(a.drop_first(), b.drop_first())
    }
}

/// Three-way comparison of keys, by their UTF-8 encodings.
pub open spec fn key_cmp(a: Seq<char>, b: Seq<char>) -> int {
    lex_cmp(encode_utf8(a), encode_utf8(b))
}

/// Strict key order.
pub open spec fn key_lt(a: Seq<char>, b: Seq<char>) -> bool {
    key_cmp(a, b) == -1
}

/// Non-strict key order.
pub open spec fn key_le(a: Seq<char>, b: Seq<char>) -> bool {
    key_cmp(a, b) <= 0
}

pub proof fn lemma_lex_cmp_range(a: Seq<u8>, b: Seq<u8>)
    ensures
        lex_cmp(a, b) == -1 || lex_cmp(a, b) == 0 || lex_cmp(a, b) == 1,
    decreases a.len(),
{
    if a.len() != 0 && b.len() != 0 && a[0] == b[0] {
        lemma_lex_cmp_range(a.drop_first(), b.drop_first());
    }
}

/// The comparison returns zero exactly on equal sequences.
pub proof fn lemma_lex_cmp_eq(a: Seq<u8>, b: Seq<u8>)
    ensures
        lex_cmp(a, b) == 0 <==> a == b,
    decreases a.len(),
{
    if a.len() == 0 && b.len() == 0 {
        assert(a =~= b);
    } else if a.len() != 0 && b.len() != 0 && a[0] == b[0] {
        lemma_lex_cmp_eq(a.drop_first(), b.drop_first());
        if lex_cmp(a, b) == 0 {
            assert forall|i: int| 0 <= i < a.len() implies a[i] == b[i] by {
                if i > 0 {
                    assert(a[i] == a.drop_first()[i - 1]);
                    assert(b[i] == b.drop_first()[i - 1]);
                }
            }
            assert(a =~= b);
        } else {
            if a == b {
                assert(a.drop_first() =~= b.drop_first());
            }
        }
    } else {
        if a == b {
            assert(a.len() == b.len());
            if a.len() != 0 {
                assert(a[0] == b[0]);
            }
        }
    }
}

/// Swapping the arguments negates the comparison.
pub proof fn lemma_lex_cmp_antisym(a: Seq<u8>, b: Seq<u8>)
    ensures
        lex_cmp(a, b) == -lex_cmp(b, a),
    decreases a.len(),
{
    if a.len() != 0 && b.len() != 0 && a[0] == b[0] {
        lemma_lex_cmp_antisym(a.drop_first(), b.drop_first());
    }
}

/// The strict order is transitive.
pub proof fn lemma_lex_cmp_trans(a: Seq<u8>, b: Seq<u8>, c: Seq<u8>)
    requires
        lex_cmp(a, b) == -1,
        lex_cmp(b, c) == -1,
    ensures
        lex_cmp(a, c) == -1,
    decreases a.len(),
{
    if a.len() == 0 {
        assert(b.len() != 0);
        assert(c.len() != 0);
    } else {
        assert(b.len() != 0);
        assert(c.len() != 0);
        if a[0] == b[0] && b[0] == c[0] {
            lemma_lex_cmp_trans(a.drop_first(), b.drop_first(), c.drop_first());
        }
    }
}

/// Keys compare as zero exactly when their character sequences are equal.
pub proof fn lemma_key_cmp_eq(a: Seq<char>, b: Seq<char>)
    ensures
        key_cmp(a, b) == 0 <==> a == b,
{
    broadcast use encode_utf8_decode_utf8;

    lemma_lex_cmp_eq(encode_utf8(a), encode_utf8(b));
    assert(vstd::utf8::decode_utf8(encode_utf8(a)) == a);
    assert(vstd::utf8::decode_utf8(encode_utf8(b)) == b);
}

pub proof fn lemma_key_cmp_range(a: Seq<char>, b: Seq<char>)
    ensures
        key_cmp(a, b) == -1 || key_cmp(a, b) == 0 || key_cmp(a, b) == 1,
{
    lemma_lex_cmp_range(encode_utf8(a), encode_utf8(b));
}

pub proof fn lemma_key_cmp_antisym(a: Seq<char>, b: Seq<char>)
    ensures
        key_cmp(a, b) == -key_cmp(b, a),
{
    lemma_lex_cmp_antisym(encode_utf8(a), encode_utf8(b));
}

pub proof fn lemma_key_lt_trans(a: Seq<char>, b: Seq<char>, c: Seq<char>)
    requires
        key_lt(a, b),
        key_lt(b, c),
    ensures
        key_lt(a, c),
{
    lemma_lex_cmp_trans(encode_utf8(a), encode_utf8(b), encode_utf8(c));
}

/// Equal heads reduce the comparison of the tails by one position.
proof fn lemma_lex_cmp_skip_step(a: Seq<u8>, b: Seq<u8>, i: int)
    requires
        0 <= i < a.len(),
        i < b.len(),
        a[i] == b[i],
    ensures
        lex_cmp(a.skip(i), b.skip(i)) == lex_cmp(a.skip(i + 1), b.skip(i + 1)),
{
    assert(a.skip(i)[0] == a[i]);
    assert(b.skip(i)[0] == b[i]);
    assert(a.skip(i).drop_first() =~= a.skip(i + 1));
    assert(b.skip(i).drop_first() =~= b.skip(i + 1));
}

/// Three-way comparison of byte slices.
fn cmp_bytes(a: &[u8], b: &[u8]) -> (r: i32)
    ensures
        r == lex_cmp(a@, b@),
{
    let alen = a.len();
    let blen = b.len();
    let mut i: usize = 0;
    proof {
        assert(a@.skip(0) =~= a@);
        assert(b@.skip(0) =~= b@);
    }
    loop
        invariant
            i <= alen,
            i <= blen,
            alen == a@.len(),
            blen == b@.len(),
            lex_cmp(a@, b@) == lex_cmp(a@.skip(i as int), b@.skip(i as int)),
        decreases alen - i,
    {
        if i == alen && i == blen {
            return 0;
        }
        if i == alen {
            return -1;
        }
        if i == blen {
            return 1;
        }
        let ca = *slice_index_get(a, i);
        let cb = *slice_index_get(b, i);
        proof {
            assert(a@.skip(i as int)[0] == a@[i as int]);
            assert(b@.skip(i as int)[0] == b@[i as int]);
        }
        if ca < cb {
            return -1;
        }
        if ca > cb {
            return 1;
        }
        proof {
            lemma_lex_cmp_skip_step(a@, b@, i as int);
        }
        i = i + 1;
    }
}

/// Three-way comparison of strings in key order.
pub fn str_cmp(a: &str, b: &str) -> (r: i32)
    ensures
        r == key_cmp(a@, b@),
        r == 0 <==> a@ == b@,
        r == -1 <==> key_lt(a@, b@),
        r == 1 <==> key_lt(b@, a@),
{
    let r = cmp_bytes(a.as_bytes(), b.as_bytes());
    proof {
        lemma_key_cmp_eq(a@, b@);
        lemma_key_cmp_range(a@, b@);
        lemma_key_cmp_antisym(a@, b@);
    }
    r
}

} // verus!
