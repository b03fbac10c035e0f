//! Truth tables of n-variable Boolean functions packed into one word.
use vstd::prelude::*;

verus! {

/// A truth table: bit `r` is the function's value on the assignment whose
/// i-th variable is `(r >> i) & 1`.
pub type TruthTable = u64;

/// The largest number of variables whose truth tables fit in one word.
pub const MAX_VARS: usize = 6;

/// Bit `r` of a word.
pub open spec fn bit(t: u64, r: u64) -> bool {
    (t >> r) & 1 == 1
}

/// The number of rows of an n-variable truth table.
pub open spec fn row_count(n: nat) -> nat {
    vstd::arithmetic::power2::pow2(n)
}

/// Value of the (possibly negated) literal `x_var` on row `r`.
pub open spec fn literal_value(var: u64, negated: bool, r: u64) -> bool {
    bit(r, var) != negated
}

/// The truth table of a literal: its value on each row below `rows`,
/// zero above.
pub open spec fn is_literal_table(t: u64, var: u64, negated: bool, rows: nat) -> bool {
    forall|r: u64| r < 64 ==> #[trigger] bit(t, r) == ((r as nat) < rows && literal_value(var, negated, r))
}

/// The literal's truth table restricted to rows below `k`.
pub open spec fn partial_literal(var: u64, negated: bool, k: nat) -> u64
    decreases k,
{
    if k == 0 {
        0
    } else {
        let row = (k - 1) as u64;
        partial_literal(var, negated, (k - 1) as nat) | ((if literal_value(var, negated, row) { 1u64 } else { 0u64 }) << row)
    }
}

/// The truth table of literal `x_var` (negated or not) over `n` variables.
pub open spec fn literal_spec(var: nat, negated: bool, n: nat) -> u64 {
    partial_literal(var as u64, negated, row_count(n))
}

proof fn lemma_set_bit(t: u64, v: u64, row: u64, r: u64)
    requires
        v <= 1,
        row < 64,
        r < 64,
    ensures
        bit(t | (v << row), r) == if r == row { bit(t, r) || v == 1 } else { bit(t, r) },
{
    assert((((t | (v << row)) >> r) & 1 == 1) == if r == row { ((t >> r) & 1 == 1) || v == 1 } else { (t >> r) & 1 == 1 })
        by (bit_vector)
        requires v <= 1, row < 64, r < 64;
}

proof fn lemma_zero_bits(r: u64)
    requires
        r < 64,
    ensures
        !bit(0, r),
{
    assert((0u64 >> r) & 1 == 0) by (bit_vector);
}

proof fn lemma_partial_literal_bits(var: u64, negated: bool, k: nat)
    requires
        k <= 64,
    ensures
        forall|r: u64| r < 64 ==> #[trigger] bit(partial_literal(var, negated, k), r)
            == ((r as nat) < k && literal_value(var, negated, r)),
    decreases k,
{
    if k == 0 {
        assert forall|r: u64| r < 64 implies #[trigger] bit(partial_literal(var, negated, k), r)
            == ((r as nat) < k && literal_value(var, negated, r)) by {
            lemma_zero_bits(r);
        }
    } else {
        lemma_partial_literal_bits(var, negated, (k - 1) as nat);
        let row = (k - 1) as u64;
        let prev = partial_literal(var, negated, (k - 1) as nat);
        let v: u64 = if literal_value(var, negated, row) { 1u64 } else { 0u64 };
        assert forall|r: u64| r < 64 implies #[trigger] bit(partial_literal(var, negated, k), r)
            == ((r as nat) < k && literal_value(var, negated, r)) by {
            lemma_set_bit(prev, v, row, r);
        }
    }
}

/// Distinct literals over `n` variables have distinct truth tables.
pub proof fn lemma_literals_distinct(v1: nat, g1: bool, v2: nat, g2: bool, n: nat)
    requires
        v1 < n,
        v2 < n,
        n <= MAX_VARS,
        v1 != v2 || g1 != g2,
    ensures
        literal_spec(v1, g1, n) != literal_spec(v2, g2, n),
{
    vstd::arithmetic::power2::lemma2_to64();
    let rows = row_count(n);
    assert(rows <= 64);
    lemma_partial_literal_bits(v1 as u64, g1, rows);
    lemma_partial_literal_bits(v2 as u64, g2, rows);
    let a = v1 as u64;
    let b = v2 as u64;
    if g1 != g2 {
        assert(!bit(0, a) && !bit(0, b)) by {
            assert((0u64 >> a) & 1 == 0) by (bit_vector);
            assert((0u64 >> b) & 1 == 0) by (bit_vector);
        }
        assert(bit(literal_spec(v1, g1, n), 0) != bit(literal_spec(v2, g2, n), 0));
    } else {
        let r: u64 = 1u64 << a;
        assert(bit(r, a) && !bit(r, b)) by {
            assert(((1u64 << a) >> a) & 1 == 1) by (bit_vector)
                requires a < 64;
            assert(((1u64 << a) >> b) & 1 == 0) by (bit_vector)
                requires a < 64, b < 64, a != b;
        }
        assert((r as nat) < rows) by {
            vstd::bits::lemma_u64_shl_is_mul(1, a);
            vstd::arithmetic::power2::lemma_pow2(v1);
            vstd::arithmetic::power2::lemma_pow2_strictly_increases(v1, n);
            vstd::arithmetic::power::lemma_pow1(2);
        }
        assert(r < 64);
        assert(bit(literal_spec(v1, g1, n), r) != bit(literal_spec(v2, g2, n), r));
    }
}

/// Number of rows of an n-variable truth table, as a machine word.
pub fn rows_of(n: usize) -> (rows: usize)
    requires
        n <= MAX_VARS,
    ensures
        rows as nat == row_count(n as nat),
        1 <= rows <= 64,
{
    proof {
        vstd::arithmetic::power2::lemma2_to64();
    }
    let rows: usize = 1usize << n;
    assert(rows as nat == row_count(n as nat)) by {
        vstd::arithmetic::power2::lemma2_to64();
        vstd::bits::lemma_usize_shl_is_mul(1, n);
        vstd::arithmetic::power2::lemma_pow2(n as nat);
        vstd::arithmetic::power::lemma_pow1(2);
    };
    rows
}

/// Truth table of the literal `x_var`, or of its negation.
pub fn literal_truth_table(var: usize, negated: bool, n: usize) -> (tt: TruthTable)
    requires
        n <= MAX_VARS,
        var < n,
    ensures
        tt == literal_spec(var as nat, negated, n as nat),
        is_literal_table(tt, var as u64, negated, row_count(n as nat)),
{
    let rows = rows_of(n);
    let v: u64 = var as u64;
    let mut tt: TruthTable = 0;
    let mut row: u64 = 0;
    proof {
        assert forall|r: u64| r < 64 implies #[trigger] bit(tt, r) == (r < row && literal_value(v, negated, r)) by {
            lemma_zero_bits(r);
        }
    }
    while row < rows as u64
        invariant
            rows <= 64,
            rows as nat == row_count(n as nat),
            v == var as u64,
            v < 6,
            row <= rows,
            tt == partial_literal(v, negated, row as nat),
            forall|r: u64| r < 64 ==> #[trigger] bit(tt, r) == (r < row && literal_value(v, negated, r)),
        decreases rows - row,
    {
        let b: u64 = (row >> v) & 1;
        assert(b <= 1 && (b == 1) == ((row >> v) & 1 == 1)) by (bit_vector)
            requires b == (row >> v) & 1;
        let value: u64 = if negated { 1 - b } else { b };
        proof {
            assert forall|r: u64| r < 64 implies #[trigger] bit(tt | (value << row), r) == (r < row + 1 && literal_value(v, negated, r)) by {
                lemma_set_bit(tt, value, row, r);
                if r == row {
                    assert(!bit(tt, r));
                }
            }
        }
        tt = tt | (value << row);
        row = row + 1;
    }
    proof {
        assert forall|r: u64| r < 64 implies #[trigger] bit(tt, r) == ((r as nat) < row_count(n as nat) && literal_value(var as u64, negated, r)) by {}
    }
    tt
}

} // verus!
