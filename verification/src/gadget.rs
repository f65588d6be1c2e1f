//! The product of a decomposed mask with the rows of a keyswitch key.
//!
//! A key holds `L` rows for each coefficient of the source key, coefficient by coefficient and,
//! within a coefficient, level 1 first. The row of coefficient `i` and level `j` therefore sits
//! at index `i * L + (j - 1)`. A transform pairs the digit of level `j` of the `i`-th mask entry
//! with that row, by position alone.

use crate::decomposition::SignedDecomposer;
use crate::lwe::all_reduced;
use crate::modulus::CiphertextModulus;
use vstd::arithmetic::div_mod::*;
use vstd::prelude::*;

verus! {

/// The rows as sequences of residues.
pub open spec fn rows_view(rows: Seq<Vec<u64>>) -> Seq<Seq<u64>> {
    Seq::new(rows.len(), |r: int| rows[r]@)
}

/// There are `L` rows for each of the `input_dimension` coefficients, and each is
/// `row_len` reduced residues long.
pub open spec fn rows_well_formed(
    rows: Seq<Seq<u64>>,
    input_dimension: nat,
    level_count: nat,
    row_len: nat,
    modulus: CiphertextModulus,
) -> bool {
    &&& rows.len() == input_dimension * level_count
    &&& forall|r: int|
        0 <= r < rows.len() ==> (#[trigger] rows[r]).len() == row_len && all_reduced(
            rows[r],
            modulus,
        )
}

/// The entry `k` of the sum, over the levels `1 ..= m`, of the digit of `x` at
/// that level times the row at `first + level - 1`.
pub open spec fn block_product(
    rows: Seq<Seq<u64>>,
    decomposer: SignedDecomposer,
    x: int,
    first: int,
    k: int,
    m: nat,
) -> int
    decreases m,
{
    if m == 0 {
        0
    } else {
        block_product(rows, decomposer, x, first, k, (m - 1) as nat) + decomposer.digit(x, m)
            * rows[first + m - 1][k]
    }
}

/// The entry `k` of the sum, over the first `n` coefficients, of each one's
/// block product with its own `L` rows.
pub open spec fn gadget_product(
    rows: Seq<Seq<u64>>,
    decomposer: SignedDecomposer,
    coefficients: Seq<u64>,
    k: int,
    n: nat,
) -> int
    decreases n,
{
    if n == 0 {
        0
    } else {
        gadget_product(rows, decomposer, coefficients, k, (n - 1) as nat) + block_product(
            rows,
            decomposer,
            coefficients[n - 1] as int,
            (n - 1) * decomposer.level_count(),
            k,
            decomposer.level_count() as nat,
        )
    }
}

/// Reducing the left operand first does not change a difference's residue.
pub proof fn lemma_sub_mod_left(x: int, y: int, m: int)
    requires
        m > 0,
    ensures
        ((x % m) - y) % m == (x - y) % m,
{
    lemma_sub_mod_noop(x, y, m);
    lemma_sub_mod_noop_right(x % m, y, m);
}

/// The row `i * l + j` exists when `i < n` and `j < l`.
pub proof fn lemma_row_index(i: int, j: int, n: int, l: int)
    requires
        0 <= i < n,
        0 <= j < l,
    ensures
        0 <= i * l + j < n * l,
        (i + 1) * l == i * l + l,
{
    assert(0 <= i * l && (i + 1) * l <= n * l && (i + 1) * l == i * l + l) by (nonlinear_arith)
        requires
            0 <= i < n,
            0 <= l,
    ;
}

/// Subtracts `scalar * row` from `acc`, entry by entry.
pub(crate) fn sub_scaled_row(
    acc: &mut Vec<u64>,
    row: &Vec<u64>,
    scalar: i64,
    modulus: &CiphertextModulus,
)
    requires
        old(acc)@.len() == row@.len(),
    ensures
        final(acc)@.len() == old(acc)@.len(),
        forall|k: int|
            0 <= k < old(acc)@.len() ==> #[trigger] final(acc)@[k] == (old(acc)@[k] - scalar
                * row@[k]) % (modulus.value() as int),
        all_reduced(final(acc)@, *modulus),
{
    let n = acc.len();
    let mut k: usize = 0;
    while k < n
        invariant
            k <= n,
            n == acc@.len(),
            n == row@.len(),
            n == old(acc)@.len(),
            forall|j: int|
                0 <= j < k ==> #[trigger] acc@[j] == (old(acc)@[j] - scalar * row@[j]) % (
                modulus.value() as int),
            forall|j: int| 0 <= j < k ==> (#[trigger] acc@[j]) < modulus.value(),
            forall|j: int| k <= j < n ==> acc@[j] == old(acc)@[j],
        decreases n - k,
    {
        let v = modulus.sub_scalar_mul(acc[k], scalar, row[k]);
        acc.set(k, v);
        k = k + 1;
    }
}

/// Subtracts from `acc` the gadget product of the first `n` coefficients with `rows`.
pub(crate) fn sub_gadget_product(
    acc: &mut Vec<u64>,
    rows: &Vec<Vec<u64>>,
    coefficients: &Vec<u64>,
    n: usize,
    decomposer: &SignedDecomposer,
)
    requires
        n <= coefficients@.len(),
        rows@.len() == n * decomposer.level_count(),
        forall|r: int| 0 <= r < rows@.len() ==> (#[trigger] rows@[r])@.len() == old(acc)@.len(),
        all_reduced(old(acc)@, decomposer.modulus()),
    ensures
        final(acc)@.len() == old(acc)@.len(),
        forall|k: int|
            0 <= k < old(acc)@.len() ==> #[trigger] final(acc)@[k] == (old(acc)@[k]
                - gadget_product(rows_view(rows@), *decomposer, coefficients@, k, n as nat)) % (
            decomposer.modulus().value() as int),
        all_reduced(final(acc)@, decomposer.modulus()),
{
    let levels = decomposer.level_count();
    let modulus = decomposer.modulus();
    let ghost m = modulus.value() as int;
    let ghost view = rows_view(rows@);
    let ghost start = acc@;
    let len = acc.len();
    let row_count = rows.len();
    let mut i: usize = 0;
    let mut r: usize = 0;
    proof {
        modulus.lemma_wf();
        assert forall|k: int| 0 <= k < len implies #[trigger] acc@[k] == (start[k]
            - gadget_product(view, *decomposer, coefficients@, k, 0)) % m by {
            lemma_small_mod(start[k] as nat, m as nat);
        }
        assert(i * levels == 0) by (nonlinear_arith)
            requires
                i == 0,
        ;
    }
    while i < n
        invariant
            i <= n,
            n <= coefficients@.len(),
            levels == decomposer.level_count(),
            levels >= 1,
            row_count == rows@.len(),
            modulus == decomposer.modulus(),
            modulus.wf(),
            m == modulus.value(),
            m > 0,
            view == rows_view(rows@),
            rows@.len() == n * levels,
            r == i * levels,
            len == acc@.len(),
            len == start.len(),
            forall|r: int| 0 <= r < rows@.len() ==> (#[trigger] rows@[r])@.len() == len,
            forall|k: int|
                0 <= k < len ==> #[trigger] acc@[k] == (start[k] - gadget_product(
                    view,
                    *decomposer,
                    coefficients@,
                    k,
                    i as nat,
                )) % m,
            all_reduced(acc@, modulus),
        decreases n - i,
    {
        let x = coefficients[i];
        let digits = decomposer.decompose(x);
        let mut j: usize = 0;
        while j < levels
            invariant
                j <= levels,
                i < n,
                n <= coefficients@.len(),
                x == coefficients@[i as int],
                levels == decomposer.level_count(),
                levels >= 1,
                row_count == rows@.len(),
                modulus == decomposer.modulus(),
                modulus.wf(),
                m == modulus.value(),
                m > 0,
                view == rows_view(rows@),
                rows@.len() == n * levels,
                r == i * levels + j,
                len == acc@.len(),
                len == start.len(),
                digits@.len() == levels,
                forall|t: int|
                    0 <= t < levels ==> #[trigger] digits@[t] == decomposer.digit(
                        x as int,
                        (t + 1) as nat,
                    ),
                forall|r: int| 0 <= r < rows@.len() ==> (#[trigger] rows@[r])@.len() == len,
                forall|k: int|
                    0 <= k < len ==> #[trigger] acc@[k] == (start[k] - gadget_product(
                        view,
                        *decomposer,
                        coefficients@,
                        k,
                        i as nat,
                    ) - block_product(view, *decomposer, x as int, i * levels, k, j as nat)) % m,
                all_reduced(acc@, modulus),
            decreases levels - j,
        {
            proof {
                lemma_row_index(i as int, j as int, n as int, levels as int);
            }
            let ghost before = acc@;
            let row = &rows[r];
            sub_scaled_row(acc, row, digits[j], &modulus);
            proof {
                assert forall|k: int| 0 <= k < len implies #[trigger] acc@[k] == (start[k]
                    - gadget_product(view, *decomposer, coefficients@, k, i as nat)
                    - block_product(view, *decomposer, x as int, i * levels, k, (j + 1) as nat))
                    % m by {
                    let done = start[k] - gadget_product(
                        view,
                        *decomposer,
                        coefficients@,
                        k,
                        i as nat,
                    ) - block_product(view, *decomposer, x as int, i * levels, k, j as nat);
                    let term = digits@[j as int] * row@[k];
                    assert(before[k] == done % m);
                    assert(acc@[k] == (before[k] - term) % m);
                    lemma_sub_mod_left(done, term, m);
                    assert(view[i * levels + (j + 1) - 1] == row@);
                }
            }
            j = j + 1;
            r = r + 1;
        }
        proof {
            lemma_row_index(i as int, 0, n as int, levels as int);
        }
        i = i + 1;
    }
}

} // verus!
