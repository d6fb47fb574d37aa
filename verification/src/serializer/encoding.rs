//! Shared spec-level encodings: flattened little-endian element runs
//! and their injectivity, used by the record serializers.

use vstd::bytes::{spec_u16_to_le_bytes, spec_u32_to_le_bytes};
use vstd::prelude::*;

verus! {

/// The bytes of a run of 16-bit values, little-endian each.
pub open spec fn flat_u16s(s: Seq<u16>) -> Seq<u8>
    decreases s.len(),
{
    if s.len() == 0 {
        Seq::empty()
    } else {
        flat_u16s(s.drop_last()) + spec_u16_to_le_bytes(s.last())
    }
}

/// The bytes of a run of 32-bit values, little-endian each.
pub open spec fn flat_u32s(s: Seq<u32>) -> Seq<u8>
    decreases s.len(),
{
    if s.len() == 0 {
        Seq::empty()
    } else {
        flat_u32s(s.drop_last()) + spec_u32_to_le_bytes(s.last())
    }
}

/// A byte range splits at any interior point.
pub proof fn lemma_subrange_split(s: Seq<u8>, a: int, m: int, b: int)
    requires
        0 <= a <= m <= b <= s.len(),
    ensures
        s.subrange(a, b) == s.subrange(a, m) + s.subrange(m, b),
{
    assert(s.subrange(a, b) =~= s.subrange(a, m) + s.subrange(m, b));
}

pub proof fn lemma_flat_u16s_len(s: Seq<u16>)
    ensures
        flat_u16s(s).len() == 2 * s.len(),
    decreases s.len(),
{
    vstd::bytes::lemma_auto_spec_u16_to_from_le_bytes();
    if s.len() > 0 {
        lemma_flat_u16s_len(s.drop_last());
    }
}

pub proof fn lemma_flat_u32s_len(s: Seq<u32>)
    ensures
        flat_u32s(s).len() == 4 * s.len(),
    decreases s.len(),
{
    vstd::bytes::lemma_auto_spec_u32_to_from_le_bytes();
    if s.len() > 0 {
        lemma_flat_u32s_len(s.drop_last());
    }
}

/// Runs of equal length with equal bytes hold equal values.
pub proof fn lemma_flat_u16s_injective(a: Seq<u16>, b: Seq<u16>)
    requires
        a.len() == b.len(),
        flat_u16s(a) == flat_u16s(b),
    ensures
        a == b,
    decreases a.len(),
{
    vstd::bytes::lemma_auto_spec_u16_to_from_le_bytes();
    if a.len() > 0 {
        lemma_flat_u16s_len(a.drop_last());
        lemma_flat_u16s_len(b.drop_last());
        assert(flat_u16s(a.drop_last()) =~= flat_u16s(a).subrange(
            0,
            flat_u16s(a).len() - 2,
        )) by {
            lemma_flat_u16s_len(a);
        }
        assert(flat_u16s(b.drop_last()) =~= flat_u16s(b).subrange(0, flat_u16s(b).len() - 2)) by {
            lemma_flat_u16s_len(b);
        }
        lemma_flat_u16s_injective(a.drop_last(), b.drop_last());
        assert(spec_u16_to_le_bytes(a.last()) =~= flat_u16s(a).subrange(
            flat_u16s(a).len() - 2,
            flat_u16s(a).len() as int,
        )) by {
            lemma_flat_u16s_len(a);
            lemma_flat_u16s_len(a.drop_last());
        }
        assert(spec_u16_to_le_bytes(b.last()) =~= flat_u16s(b).subrange(
            flat_u16s(b).len() - 2,
            flat_u16s(b).len() as int,
        )) by {
            lemma_flat_u16s_len(b);
            lemma_flat_u16s_len(b.drop_last());
        }
        assert(a.last() == b.last());
        assert(a =~= a.drop_last().push(a.last()));
        assert(b =~= b.drop_last().push(b.last()));
    } else {
        assert(a =~= b);
    }
}

/// Runs of equal length with equal bytes hold equal values.
pub proof fn lemma_flat_u32s_injective(a: Seq<u32>, b: Seq<u32>)
    requires
        a.len() == b.len(),
        flat_u32s(a) == flat_u32s(b),
    ensures
        a == b,
    decreases a.len(),
{
    vstd::bytes::lemma_auto_spec_u32_to_from_le_bytes();
    if a.len() > 0 {
        lemma_flat_u32s_len(a.drop_last());
        lemma_flat_u32s_len(b.drop_last());
        assert(flat_u32s(a.drop_last()) =~= flat_u32s(a).subrange(
            0,
            flat_u32s(a).len() - 4,
        )) by {
            lemma_flat_u32s_len(a);
        }
        assert(flat_u32s(b.drop_last()) =~= flat_u32s(b).subrange(0, flat_u32s(b).len() - 4)) by {
            lemma_flat_u32s_len(b);
        }
        lemma_flat_u32s_injective(a.drop_last(), b.drop_last());
        assert(spec_u32_to_le_bytes(a.last()) =~= flat_u32s(a).subrange(
            flat_u32s(a).len() - 4,
            flat_u32s(a).len() as int,
        )) by {
            lemma_flat_u32s_len(a);
            lemma_flat_u32s_len(a.drop_last());
        }
        assert(spec_u32_to_le_bytes(b.last()) =~= flat_u32s(b).subrange(
            flat_u32s(b).len() - 4,
            flat_u32s(b).len() as int,
        )) by {
            lemma_flat_u32s_len(b);
            lemma_flat_u32s_len(b.drop_last());
        }
        assert(a.last() == b.last());
        assert(a =~= a.drop_last().push(a.last()));
        assert(b =~= b.drop_last().push(b.last()));
    } else {
        assert(a =~= b);
    }
}

} // verus!
