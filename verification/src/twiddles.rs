//! The precomputed constants from which the twiddle factors are derived.
use crate::field::{lemma_zero_plus, BinaryField, Field};
use crate::index::{bit, exp2, lemma_decompose, lemma_exp2, lemma_exp2_monotone};
use crate::novel_basis::{basis_sum, lemma_basis_sum_concat, select, subspace_map, subspace_poly};
use vstd::arithmetic::power2::pow2;
use vstd::bits::lemma_usize_shr_is_div;
use vstd::prelude::*;

verus! {

/// The sum of the entries `values[b]`, ..., `values[n - 1]` that the bits of `x` select.
pub open spec fn subset_sum_spec<F: Field>(values: Seq<F>, b: nat, n: nat, x: int) -> F
    decreases n - b,
{
    if b >= n {
        F::zero_spec()
    } else {
        select(x % 2 == 1, values[b as int]).plus(subset_sum_spec(values, b + 1, n, x / 2))
    }
}

/// The sum of the values that the lowest `n_bits` bits of the index select.
pub fn subset_sum<F: Field>(values: &[F], n_bits: usize, index: usize) -> (r: F)
    requires
        n_bits <= usize::BITS,
        forall|b: nat| b < n_bits && #[trigger] bit(index as int, b) ==> b < values.len(),
    ensures
        r == subset_sum_spec(values@, 0, n_bits as nat, index as int),
{
    let mut sum = F::zero();
    let mut b: usize = n_bits;
    proof {
        lemma_exp2(0);
    }
    while b > 0
        invariant
            b <= n_bits <= usize::BITS,
            forall|b: nat| b < n_bits && #[trigger] bit(index as int, b) ==> b < values.len(),
            sum == subset_sum_spec(values@, b as nat, n_bits as nat, index as int / exp2(b as nat)),
        decreases b,
    {
        b -= 1;
        proof {
            lemma_decompose(b as nat, index as int);
            lemma_usize_shr_is_div(index, b);
            let x = index >> b;
            assert(x & 1 == x % 2) by (bit_vector);
            assert(bit(index as int, b as nat) == (x % 2 == 1));
            lemma_zero_plus(sum);
        }
        if (index >> b) & 1 != 0 {
            sum = values[b].add(sum);
        }
    }
    proof {
        assert(index as int / exp2(0) == index);
    }
    sum
}

/// The subspace map `x^2 + x`.
pub fn cantor_basis_subspace_map<F: BinaryField>(elem: F) -> (r: F)
    ensures
        r == subspace_map(elem),
        r == elem.times(elem).plus(elem),
{
    elem.square().add(elem)
}

/// The number of entries in row `i` of the table of subspace polynomials.
pub open spec fn row_len(log_domain_size: nat, i: nat) -> nat {
    if i + 1 <= log_domain_size {
        (log_domain_size - 1 - i) as nat
    } else {
        0
    }
}

/// Row `i` of the table of subspace polynomials: `s_i` at the basis vectors with the indices
/// `i + 1`, ..., `log_domain_size - 1`.
pub open spec fn is_subspace_row<F: BinaryField>(
    log_domain_size: nat,
    i: nat,
    row: Seq<F>,
) -> bool {
    &&& row.len() == row_len(log_domain_size, i)
    &&& forall|k: int|
        0 <= k < row.len() ==> #[trigger] row[k] == subspace_poly(
            i,
            F::basis_vector((i + 1 + k) as nat),
        )
}

/// The table of subspace polynomials for a domain of `exp2(log_domain_size)` points. There is a
/// first row even if the domain is a single point.
pub open spec fn is_subspace_table<F: BinaryField>(
    log_domain_size: nat,
    table: Seq<Vec<F>>,
) -> bool {
    &&& table.len() == if log_domain_size == 0 {
        1
    } else {
        log_domain_size
    }
    &&& forall|i: int|
        0 <= i < table.len() ==> is_subspace_row(log_domain_size, i as nat, #[trigger] table[i]@)
}

/// Computes the table of subspace polynomials.
pub fn subspace_table<F: BinaryField>(log_domain_size: usize) -> (table: Vec<Vec<F>>)
    requires
        log_domain_size <= F::n_bits_spec(),
    ensures
        is_subspace_table(log_domain_size as nat, table@),
{
    let mut s_evals: Vec<Vec<F>> = Vec::with_capacity(log_domain_size);
    let mut s0_evals: Vec<F> = Vec::new();
    let mut i: usize = 1;
    while i < log_domain_size
        invariant
            1 <= i,
            i <= log_domain_size || i == 1,
            log_domain_size <= F::n_bits_spec(),
            s0_evals@.len() == i - 1,
            forall|k: int|
                0 <= k < s0_evals@.len() ==> #[trigger] s0_evals@[k] == subspace_poly(
                    0,
                    F::basis_vector((k + 1) as nat),
                ),
        decreases log_domain_size - i,
    {
        s0_evals.push(F::basis(i).unwrap());
        i += 1;
    }
    s_evals.push(s0_evals);
    let mut l: usize = 1;
    while l < log_domain_size
        invariant
            1 <= l,
            l <= log_domain_size || l == 1,
            s_evals@.len() == l,
            forall|i: int|
                0 <= i < s_evals@.len() ==> is_subspace_row(
                    log_domain_size as nat,
                    i as nat,
                    #[trigger] s_evals@[i]@,
                ),
        decreases log_domain_size - l,
    {
        let mut s_i_evals: Vec<F> = Vec::new();
        let s_prev_evals = &s_evals[l - 1];
        let mut k: usize = 1;
        while k < s_prev_evals.len()
            invariant
                1 <= l < log_domain_size,
                is_subspace_row(log_domain_size as nat, (l - 1) as nat, s_prev_evals@),
                1 <= k <= s_prev_evals@.len(),
                s_i_evals@.len() == k - 1,
                forall|t: int|
                    0 <= t < s_i_evals@.len() ==> #[trigger] s_i_evals@[t] == subspace_poly(
                        l as nat,
                        F::basis_vector((l + 1 + t) as nat),
                    ),
            decreases s_prev_evals.len() - k,
        {
            s_i_evals.push(cantor_basis_subspace_map(s_prev_evals[k]));
            k += 1;
        }
        s_evals.push(s_i_evals);
        l += 1;
    }
    s_evals
}

/// A subset sum over entries of a row of the table is a basis sum.
pub proof fn lemma_subset_sum_is_basis_sum<F: BinaryField>(
    values: Seq<F>,
    i: nat,
    c: nat,
    b: nat,
    n: nat,
    x: int,
)
    requires
        b <= n <= values.len(),
        0 <= x < exp2((n - b) as nat),
        forall|k: int|
            0 <= k < n ==> #[trigger] values[k] == subspace_poly(
                i,
                F::basis_vector((c + k) as nat),
            ),
    ensures
        subset_sum_spec(values, b, n, x) == basis_sum::<F>(i, c + b, x),
    decreases n - b,
{
    lemma_exp2((n - b) as nat);
    lemma_exp2(0);
    F::plus_zero(F::zero_spec());
    if b < n {
        lemma_exp2((n - b - 1) as nat);
        lemma_subset_sum_is_basis_sum(values, i, c, b + 1, n, x / 2);
        assert(values[b as int] == subspace_poly(i, F::basis_vector(c + b)));
    }
}

/// A subset sum over one more entry: the new top bit selects it.
proof fn lemma_subset_sum_grow<F: Field>(values: Seq<F>, b: nat, n: nat, x: int)
    requires
        b <= n,
        0 <= x < exp2((n - b) as nat),
    ensures
        subset_sum_spec(values, b, n + 1, x) == subset_sum_spec(values, b, n, x),
        subset_sum_spec(values, b, n + 1, exp2((n - b) as nat) + x) == subset_sum_spec(
            values,
            b,
            n,
            x,
        ).plus(values[n as int]),
    decreases n - b,
{
    lemma_exp2((n - b) as nat);
    lemma_exp2(0);
    if b == n {
        F::plus_zero(F::zero_spec());
        F::plus_commutes(F::zero_spec(), values[n as int]);
        assert(subset_sum_spec(values, n + 1, n + 1, 0) == F::zero_spec());
    } else {
        let e = exp2((n - b - 1) as nat);
        lemma_exp2((n - b - 1) as nat);
        lemma_subset_sum_grow(values, b + 1, n, x / 2);
        assert((2 * e + x) / 2 == e + x / 2);
        assert((2 * e + x) % 2 == x % 2);
        F::plus_associates(
            select(x % 2 == 1, values[b as int]),
            subset_sum_spec(values, b + 1, n, x / 2),
            values[n as int],
        );
    }
}

/// Computes all subset sums over a row.
pub fn expand_row<F: Field>(row: &Vec<F>) -> (expanded: Vec<F>)
    requires
        row@.len() < usize::BITS,
    ensures
        expanded@.len() == exp2(row@.len()),
        forall|x: int|
            0 <= x < expanded@.len() ==> #[trigger] expanded@[x] == subset_sum_spec(
                row@,
                0,
                row@.len(),
                x,
            ),
{
    let mut expanded: Vec<F> = Vec::with_capacity(1 << row.len());
    expanded.push(F::zero());
    proof {
        lemma_exp2(0);
        assert(expanded@[0] == F::zero_spec());
    }
    let mut t: usize = 0;
    while t < row.len()
        invariant
            t <= row@.len() < usize::BITS,
            expanded@.len() == exp2(t as nat),
            forall|x: int|
                0 <= x < expanded@.len() ==> #[trigger] expanded@[x] == subset_sum_spec(
                    row@,
                    0,
                    t as nat,
                    x,
                ),
        decreases row@.len() - t,
    {
        let eval = row[t];
        let len = expanded.len();
        let ghost prev = expanded@;
        proof {
            lemma_exp2(t as nat);
            assert forall|x: int| 0 <= x < len implies #[trigger] prev[x] == subset_sum_spec(
                row@,
                0,
                (t + 1) as nat,
                x,
            ) by {
                lemma_subset_sum_grow(row@, 0, t as nat, x);
            }
        }
        let mut i: usize = 0;
        while i < len
            invariant
                i <= len,
                t < row@.len(),
                eval == row@[t as int],
                len == exp2(t as nat),
                prev.len() == len,
                expanded@.len() == len + i,
                forall|x: int|
                    0 <= x < len ==> #[trigger] prev[x] == subset_sum_spec(row@, 0, t as nat, x),
                forall|x: int| 0 <= x < len ==> expanded@[x] == #[trigger] prev[x],
                forall|x: int|
                    0 <= x < expanded@.len() ==> #[trigger] expanded@[x] == subset_sum_spec(
                        row@,
                        0,
                        (t + 1) as nat,
                        x,
                    ),
            decreases len - i,
        {
            let v = expanded[i].add(eval);
            proof {
                lemma_subset_sum_grow(row@, 0, t as nat, i as int);
                assert(expanded@[i as int] == prev[i as int]);
            }
            expanded.push(v);
            i += 1;
        }
        t += 1;
    }
    expanded
}

/// The table of all twiddle factors for a domain of `exp2(log_domain_size)` points.
pub open spec fn is_expanded_table<F: BinaryField>(
    log_domain_size: nat,
    table: Seq<Vec<F>>,
) -> bool {
    &&& table.len() == if log_domain_size == 0 {
        1
    } else {
        log_domain_size
    }
    &&& forall|i: int|
        0 <= i < table.len() ==> is_expanded_row(log_domain_size, i as nat, #[trigger] table[i]@)
}

/// Row `i` of the table of all twiddle factors.
pub open spec fn is_expanded_row<F: BinaryField>(
    log_domain_size: nat,
    i: nat,
    row: Seq<F>,
) -> bool {
    &&& row.len() == exp2(row_len(log_domain_size, i))
    &&& forall|x: int|
        0 <= x < row.len() ==> #[trigger] row[x] == basis_sum::<F>(i, i + 1, x)
}

/// Computes the table of all twiddle factors.
pub fn expand_table<F: BinaryField>(log_domain_size: usize, s_evals: &Vec<Vec<F>>) -> (expanded:
    Vec<Vec<F>>)
    requires
        log_domain_size <= usize::BITS,
        is_subspace_table(log_domain_size as nat, s_evals@),
    ensures
        is_expanded_table(log_domain_size as nat, expanded@),
{
    let mut expanded: Vec<Vec<F>> = Vec::new();
    let mut i: usize = 0;
    while i < s_evals.len()
        invariant
            log_domain_size <= usize::BITS,
            is_subspace_table(log_domain_size as nat, s_evals@),
            i <= s_evals@.len(),
            expanded@.len() == i,
            forall|k: int|
                0 <= k < i ==> is_expanded_row(
                    log_domain_size as nat,
                    k as nat,
                    #[trigger] expanded@[k]@,
                ),
        decreases s_evals@.len() - i,
    {
        proof {
            assert(is_subspace_row(log_domain_size as nat, i as nat, s_evals@[i as int]@));
        }
        let s_evals_i = &s_evals[i];
        let row = expand_row(s_evals_i);
        proof {
            assert forall|x: int| 0 <= x < row@.len() implies #[trigger] row@[x] == basis_sum::<F>(
                i as nat,
                (i + 1) as nat,
                x,
            ) by {
                lemma_subset_sum_is_basis_sum(
                    s_evals_i@,
                    i as nat,
                    (i + 1) as nat,
                    0,
                    s_evals_i@.len(),
                    x,
                );
            }
        }
        expanded.push(row);
        i += 1;
    }
    expanded
}

/// The number of entries in all rows of a table.
pub open spec fn table_len<F>(table: Seq<Vec<F>>) -> nat
    decreases table.len(),
{
    if table.len() == 0 {
        0
    } else {
        table_len(table.drop_last()) + table.last()@.len()
    }
}

/// The number of entries in the first `n` rows of a table of subspace polynomials.
proof fn lemma_subspace_rows_len<F: BinaryField>(k: nat, table: Seq<Vec<F>>, n: nat)
    requires
        is_subspace_table(k, table),
        n <= table.len(),
    ensures
        k > 0 ==> 2 * table_len(table.take(n as int)) == n * (2 * k - 1 - n),
        k == 0 ==> table_len(table.take(n as int)) == 0,
    decreases n,
{
    if n > 0 {
        let m = (n - 1) as nat;
        lemma_subspace_rows_len(k, table, m);
        assert(table.take(n as int).drop_last() =~= table.take(m as int));
        assert(is_subspace_row(k, m, table[m as int]@));
        assert(m * (2 * k - 1 - m) + 2 * (k - 1 - m) == n * (2 * k - 1 - n)) by (nonlinear_arith)
            requires
                n == m + 1,
        ;
    }
}

/// The table of subspace polynomials for a domain of `exp2(k)` points has `k * (k - 1) / 2`
/// entries.
pub proof fn law_subspace_table_len<F: BinaryField>(k: nat, table: Seq<Vec<F>>)
    requires
        is_subspace_table(k, table),
    ensures
        2 * table_len(table) == k * (k - 1),
{
    lemma_subspace_rows_len(k, table, table.len());
    assert(table.take(table.len() as int) =~= table);
    assert(k * (2 * k - 1 - k) == k * (k - 1)) by (nonlinear_arith);
}

/// The number of entries in the first `n` rows of a table of all twiddle factors.
proof fn lemma_expanded_rows_len<F: BinaryField>(k: nat, table: Seq<Vec<F>>, n: nat)
    requires
        is_expanded_table(k, table),
        n <= k,
    ensures
        table_len(table.take(n as int)) == exp2(k) - exp2((k - n) as nat),
    decreases n,
{
    if n > 0 {
        let m = (n - 1) as nat;
        lemma_expanded_rows_len(k, table, m);
        assert(table.take(n as int).drop_last() =~= table.take(m as int));
        assert(is_expanded_row(k, m, table[m as int]@));
        lemma_exp2((k - n) as nat);
    }
}

/// The table of all twiddle factors for a domain of `exp2(k)` points has `exp2(k) - 1` entries, one
/// for each block of each layer, and a single unused entry if there are no layers.
pub proof fn law_expanded_table_len<F: BinaryField>(k: nat, table: Seq<Vec<F>>)
    requires
        is_expanded_table(k, table),
    ensures
        table_len(table) == if k == 0 {
            1
        } else {
            exp2(k) - 1
        },
{
    lemma_exp2(0);
    if k == 0 {
        assert(is_expanded_row(k, 0, table[0]@));
        assert(table_len(table.drop_last()) == 0);
    } else {
        lemma_expanded_rows_len(k, table, k);
        assert(table.take(k as int) =~= table);
    }
}

/// No bit of zero selects anything.
proof fn lemma_subset_sum_zero<F: Field>(values: Seq<F>, s: nat, n: nat)
    ensures
        subset_sum_spec(values, s, n, 0) == F::zero_spec(),
    decreases n - s,
{
    if s < n {
        lemma_subset_sum_zero(values, s + 1, n);
        F::plus_zero(F::zero_spec());
    }
}

/// The highest bit of an index selects one more entry, if there is one.
proof fn lemma_subset_sum_top_bit<F: Field>(values: Seq<F>, s: nat, n: nat, b: nat, x: int)
    requires
        s <= n,
        0 <= x < exp2(b),
    ensures
        subset_sum_spec(values, s, n, exp2(b) + x) == if s + b < n {
            subset_sum_spec(values, s, n, x).plus(values[(s + b) as int])
        } else {
            subset_sum_spec(values, s, n, x)
        },
    decreases b,
{
    lemma_exp2(b);
    lemma_exp2(0);
    if s < n {
        let v = values[s as int];
        if b == 0 {
            lemma_subset_sum_zero(values, s + 1, n);
            F::plus_zero(F::zero_spec());
            F::plus_zero(v);
            lemma_zero_plus(v);
        } else {
            let e = exp2((b - 1) as nat);
            lemma_exp2((b - 1) as nat);
            lemma_subset_sum_top_bit(values, s + 1, n, (b - 1) as nat, x / 2);
            assert((2 * e + x) / 2 == e + x / 2);
            assert((2 * e + x) % 2 == x % 2);
            assert(s + 1 + (b - 1) as nat == s + b);
            F::plus_associates(
                select(x % 2 == 1, v),
                subset_sum_spec(values, s + 1, n, x / 2),
                values[(s + b) as int],
            );
        }
    }
}

/// The subset sum over the first `n` values is zero for the index zero, setting bit `b` in an index
/// adds value `b`, and the bits from `n` on count nothing.
pub proof fn law_subset_sum<F: Field>(values: Seq<F>, n: nat, b: nat, x: int)
    requires
        0 <= x < pow2(b),
    ensures
        subset_sum_spec(values, 0, n, 0) == F::zero_spec(),
        b < n ==> subset_sum_spec(values, 0, n, pow2(b) + x) == subset_sum_spec(
            values,
            0,
            n,
            x,
        ).plus(values[b as int]),
        b >= n ==> subset_sum_spec(values, 0, n, pow2(b) + x) == subset_sum_spec(values, 0, n, x),
{
    lemma_subset_sum_zero(values, 0, n);
    lemma_subset_sum_top_bit(values, 0, n, b, x);
}

/// The first row of the table of subspace polynomials holds the basis vectors from the second on.
/// Each other row has one entry less than the row before it, and its entries are `y * y + y` for
/// the entries `y` of that row but the first.
pub proof fn law_subspace_table<F: BinaryField>(k: nat, table: Seq<Vec<F>>)
    requires
        is_subspace_table(k, table),
    ensures
        k == 0 ==> table.len() == 1 && table[0]@.len() == 0,
        k > 0 ==> table.len() == k && table[0]@.len() == k - 1,
        forall|j: int|
            0 <= j < table[0]@.len() ==> #[trigger] table[0]@[j] == F::basis_vector((j + 1) as nat),
        forall|i: int|
            0 < i < table.len() ==> (#[trigger] table[i])@.len() == table[i - 1]@.len() - 1,
        forall|i: int, j: int|
            0 < i < table.len() && 0 <= j < table[i]@.len() ==> #[trigger] table[i]@[j]
                == table[i - 1]@[j + 1].times(table[i - 1]@[j + 1]).plus(table[i - 1]@[j + 1]),
{
    assert(is_subspace_row(k, 0, table[0]@));
    assert forall|i: int| 0 < i < table.len() implies (#[trigger] table[i])@.len() == table[i
        - 1]@.len() - 1 by {
        assert(is_subspace_row(k, i as nat, table[i]@));
        assert(is_subspace_row(k, (i - 1) as nat, table[i - 1]@));
    }
    assert forall|i: int, j: int|
        0 < i < table.len() && 0 <= j < table[i]@.len() implies #[trigger] table[i]@[j] == table[i
        - 1]@[j + 1].times(table[i - 1]@[j + 1]).plus(table[i - 1]@[j + 1]) by {
        assert(is_subspace_row(k, i as nat, table[i]@));
        assert(is_subspace_row(k, (i - 1) as nat, table[i - 1]@));
        assert(table[i - 1]@[j + 1] == subspace_poly(
            (i - 1) as nat,
            F::basis_vector((i + 1 + j) as nat),
        ));
    }
}

/// Every row of the table of all twiddle factors holds the sums of all subsets of the entries of
/// the row of the table of subspace polynomials: it begins with zero, and setting bit `b` in an
/// index adds entry `b`.
pub proof fn law_expanded_table<F: BinaryField>(
    k: nat,
    table: Seq<Vec<F>>,
    expanded: Seq<Vec<F>>,
    i: int,
    b: nat,
    x: int,
)
    requires
        is_subspace_table(k, table),
        is_expanded_table(k, expanded),
        0 <= i < table.len(),
    ensures
        expanded.len() == table.len(),
        expanded[i]@.len() == pow2(table[i]@.len()),
        expanded[i]@[0] == F::zero_spec(),
        b < table[i]@.len() && 0 <= x < pow2(b) ==> expanded[i]@[pow2(b) + x]
            == expanded[i]@[x].plus(table[i]@[b as int]),
{
    let row = table[i]@;
    let sums = expanded[i]@;
    assert(is_subspace_row(k, i as nat, row));
    assert(is_expanded_row(k, i as nat, sums));
    lemma_exp2(row.len());
    assert(sums[0] == basis_sum::<F>(i as nat, (i + 1) as nat, 0));
    if b < row.len() && 0 <= x < pow2(b) {
        lemma_exp2(b);
        lemma_exp2_monotone(b + 1, row.len());
        let s = row[b as int];
        assert(s == subspace_poly(i as nat, F::basis_vector((i + 1 + b) as nat)));
        lemma_basis_sum_concat::<F>(i as nat, (i + 1) as nat, b, 1, x);
        assert(basis_sum::<F>(i as nat, (i + 1 + b) as nat, 1) == s) by {
            assert(basis_sum::<F>(i as nat, (i + 1 + b + 1) as nat, 0) == F::zero_spec());
            F::plus_zero(s);
        }
        assert(sums[exp2(b) + x] == basis_sum::<F>(i as nat, (i + 1) as nat, exp2(b) + x));
        assert(sums[x] == basis_sum::<F>(i as nat, (i + 1) as nat, x));
    }
}

} // verus!
