use vstd::prelude::*;

verus! {

/// Square `s` is marked in the 64-bit mask `m`.
pub open spec fn in_mask(m: u64, s: int) -> bool {
    0 <= s < 64 && (m >> (s as u64)) & 1u64 == 1u64
}

proof fn lemma_bit_ops_raw(a: u64, b: u64, s: u64)
    by (bit_vector)
    requires
        s < 64,
    ensures
        ((a | b) >> s) & 1u64 == 1u64 <==> ((a >> s) & 1u64 == 1u64 || (b >> s) & 1u64 == 1u64),
        ((a & b) >> s) & 1u64 == 1u64 <==> ((a >> s) & 1u64 == 1u64 && (b >> s) & 1u64 == 1u64),
        ((a & !b) >> s) & 1u64 == 1u64 <==> ((a >> s) & 1u64 == 1u64 && (b >> s) & 1u64
            != 1u64),
        (0u64 >> s) & 1u64 != 1u64,
        (!0u64 >> s) & 1u64 == 1u64,
        ((1u64 << b) >> s) & 1u64 == 1u64 <==> (b < 64 && b == s),
        (a & (1u64 << s) != 0u64) <==> ((a >> s) & 1u64 == 1u64),
{
}

proof fn lemma_shift_down(x: u64, s: u64)
    by (bit_vector)
    requires
        s < 63,
        ((x >> 1u64) >> s) & 1u64 == 1u64,
    ensures
        (x >> (s + 1) as u64) & 1u64 == 1u64,
{
}

proof fn lemma_low_bit(x: u64)
    by (bit_vector)
    requires
        x != 0u64,
        (x >> 0u64) & 1u64 != 1u64,
    ensures
        x >> 1u64 != 0u64,
        x >> 1u64 < x,
        ((x >> 1u64) >> 63u64) & 1u64 != 1u64,
{
}

/// Bitwise or, and, and-not, bit by bit.
pub proof fn lemma_bits(a: u64, b: u64)
    ensures
        forall|s: int| #[trigger] in_mask(a | b, s) <==> (in_mask(a, s) || in_mask(b, s)),
        forall|s: int| #[trigger] in_mask(a & b, s) <==> (in_mask(a, s) && in_mask(b, s)),
        forall|s: int| #[trigger] in_mask(a & !b, s) <==> (in_mask(a, s) && !in_mask(b, s)),
{
    assert forall|s: int| #[trigger] in_mask(a | b, s) <==> (in_mask(a, s) || in_mask(b, s)) by {
        if 0 <= s < 64 {
            lemma_bit_ops_raw(a, b, s as u64);
        }
    }
    assert forall|s: int| #[trigger] in_mask(a & b, s) <==> (in_mask(a, s) && in_mask(b, s)) by {
        if 0 <= s < 64 {
            lemma_bit_ops_raw(a, b, s as u64);
        }
    }
    assert forall|s: int| #[trigger] in_mask(a & !b, s) <==> (in_mask(a, s) && !in_mask(b, s)) by {
        if 0 <= s < 64 {
            lemma_bit_ops_raw(a, b, s as u64);
        }
    }
}

/// The empty mask marks no square; the full mask marks every square.
pub proof fn lemma_empty_full()
    ensures
        forall|s: int| !#[trigger] in_mask(0u64, s),
        forall|s: int| #[trigger] in_mask(!0u64, s) <==> 0 <= s < 64,
{
    assert forall|s: int| !#[trigger] in_mask(0u64, s) by {
        if 0 <= s < 64 {
            lemma_bit_ops_raw(0u64, 0u64, s as u64);
        }
    }
    assert forall|s: int| #[trigger] in_mask(!0u64, s) <==> 0 <= s < 64 by {
        if 0 <= s < 64 {
            lemma_bit_ops_raw(0u64, 0u64, s as u64);
        }
    }
}

/// The mask of one square marks that square alone.
pub proof fn lemma_single(j: u64)
    requires
        j < 64,
    ensures
        forall|s: int| #[trigger] in_mask(1u64 << j, s) <==> s == j as int,
{
    assert forall|s: int| #[trigger] in_mask(1u64 << j, s) <==> s == j as int by {
        if 0 <= s < 64 {
            lemma_bit_ops_raw(0u64, j, s as u64);
        }
    }
}

/// Testing a mask against a single-square mask reads one bit.
pub proof fn lemma_test_bit(a: u64, s: u64)
    requires
        s < 64,
    ensures
        (a & (1u64 << s) != 0u64) <==> in_mask(a, s as int),
{
    lemma_bit_ops_raw(a, 0u64, s);
}

/// A mask that is not empty marks some square.
pub proof fn lemma_nonzero_has_bit(x: u64)
    requires
        x != 0u64,
    ensures
        exists|s: int| in_mask(x, s),
    decreases x,
{
    if (x >> 0u64) & 1u64 == 1u64 {
        assert(in_mask(x, 0));
    } else {
        lemma_low_bit(x);
        let y = x >> 1u64;
        lemma_nonzero_has_bit(y);
        let s = choose|s: int| in_mask(y, s);
        assert(s < 63);
        lemma_shift_down(x, s as u64);
        assert(in_mask(x, s + 1));
    }
}

/// A mask that marks no square is empty.
pub proof fn lemma_no_bits_zero(x: u64)
    requires
        forall|s: int| !#[trigger] in_mask(x, s),
    ensures
        x == 0u64,
{
    if x != 0u64 {
        lemma_nonzero_has_bit(x);
    }
}

} // verus!
