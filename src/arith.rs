use vstd::prelude::*;

use crate::digit::Digit;

verus! {

pub open spec fn pow10(k: nat) -> nat
    decreases k,
{
    if k == 0 {
        1
    } else {
        10 * pow10((k - 1) as nat)
    }
}

/// Every entry is a decimal digit.
pub open spec fn is_digits(s: Seq<u8>) -> bool {
    forall|i: int| 0 <= i < s.len() ==> s[i] <= 9
}

/// The number written by `s`, most significant digit first.
pub open spec fn value(s: Seq<u8>) -> nat
    decreases s.len(),
{
    if s.len() == 0 {
        0
    } else {
        value(s.drop_last()) * 10 + s.last() as nat
    }
}

/// Decimal digits without a leading zero.
pub open spec fn canonical(s: Seq<u8>) -> bool {
    is_digits(s) && (s.len() == 0 || s[0] != 0)
}

/// The decimal digits of `n`, most significant first (none for zero).
pub open spec fn digits_of(n: nat) -> Seq<u8>
    decreases n,
{
    if n == 0 {
        Seq::empty()
    } else {
        digits_of(n / 10).push((n % 10) as u8)
    }
}

/// The lowest `k` decimal digits of `n`, most significant first, zeros kept.
pub open spec fn low_digits_of(n: nat, k: nat) -> Seq<u8>
    decreases k,
{
    if k == 0 {
        Seq::empty()
    } else {
        low_digits_of(n / 10, (k - 1) as nat).push((n % 10) as u8)
    }
}

/// What a cell counts for in a sum: its digit, or nothing while hidden.
pub open spec fn cell_value(c: Digit) -> nat {
    match c {
        Digit::Fix(d) => d as nat,
        Digit::Any => 0,
    }
}

/// The row of cells read as digits, hidden cells as zero.
pub open spec fn cells_as_digits(row: Seq<Digit>) -> Seq<u8> {
    row.map_values(|c: Digit| cell_value(c) as u8)
}

/// The number written by a row of cells, hidden cells read as zero.
pub open spec fn row_value(row: Seq<Digit>) -> nat {
    value(cells_as_digits(row))
}

/// All cells hold a known decimal digit.
pub open spec fn all_fixed(row: Seq<Digit>) -> bool {
    forall|i: int| 0 <= i < row.len() ==> (row[i] is Fix && row[i].wf())
}

/// The row whose cells are the known digits `s`.
pub open spec fn fixed_row(s: Seq<u8>) -> Seq<Digit> {
    s.map_values(|d: u8| Digit::Fix(d))
}

/// Digit of `row` at decimal place `p` (0 is the units), hidden or absent cells as zero.
pub open spec fn place(row: Seq<Digit>, p: int) -> nat {
    if 0 <= p < row.len() {
        cell_value(row[row.len() - 1 - p])
    } else {
        0
    }
}

/// Sum of the first `n` rows' digits in column `k`, row `j` shifted left by `j` places.
pub open spec fn column(rows: Seq<Seq<Digit>>, n: nat, k: int) -> nat
    decreases n,
{
    if n == 0 {
        0
    } else {
        column(rows, (n - 1) as nat, k) + place(rows[n - 1], k - (n - 1))
    }
}

/// Columns below `kk` of the first `n` rows, weighted by their place.
pub open spec fn columns_value(rows: Seq<Seq<Digit>>, n: nat, kk: nat) -> nat
    decreases kk,
{
    if kk == 0 {
        0
    } else {
        columns_value(rows, n, (kk - 1) as nat) + column(rows, n, kk - 1) * pow10((kk - 1) as nat)
    }
}

/// A single row shifted left by `s` places, its columns below `kk`.
pub open spec fn shifted_value(row: Seq<Digit>, s: int, kk: nat) -> nat
    decreases kk,
{
    if kk == 0 {
        0
    } else {
        shifted_value(row, s, (kk - 1) as nat) + place(row, kk - 1 - s) * pow10((kk - 1) as nat)
    }
}

/// The sum of the first `n` rows, row `j` weighted by `10^j`.
pub open spec fn shifted_sum(rows: Seq<Seq<Digit>>, n: nat) -> nat
    decreases n,
{
    if n == 0 {
        0
    } else {
        shifted_sum(rows, (n - 1) as nat) + row_value(rows[n - 1]) * pow10((n - 1) as nat)
    }
}

pub proof fn lemma_pow10_pos(k: nat)
    ensures
        pow10(k) >= 1,
    decreases k,
{
    if k > 0 {
        lemma_pow10_pos((k - 1) as nat);
    }
}

pub proof fn lemma_pow10_add(a: nat, b: nat)
    ensures
        pow10(a + b) == pow10(a) * pow10(b),
    decreases a,
{
    if a > 0 {
        lemma_pow10_add((a - 1) as nat, b);
        let x = pow10((a - 1) as nat);
        let y = pow10(b);
        assert(pow10(a + b) == 10 * pow10((a - 1 + b) as nat));
        assert(pow10(a) == 10 * x);
        assert(10 * (x * y) == (10 * x) * y) by (nonlinear_arith);
        assert(pow10(a + b) == pow10(a) * pow10(b));
    } else {
        assert(pow10(a) == 1);
        assert(pow10(a + b) == pow10(a) * pow10(b));
    }
}

/// Prepending a digit adds it at the highest place.
pub proof fn lemma_value_prepend(x: u8, s: Seq<u8>)
    ensures
        value(seq![x] + s) == x as nat * pow10(s.len()) + value(s),
    decreases s.len(),
{
    let t = seq![x] + s;
    if s.len() == 0 {
        assert(t.drop_last() =~= Seq::<u8>::empty());
        assert(t.last() == x);
        assert(value(t) == value(t.drop_last()) * 10 + t.last() as nat);
        assert(value(t.drop_last()) == 0);
        assert(pow10(s.len()) == 1);
        assert(value(t) == x as nat * pow10(s.len()) + value(s));
    } else {
        assert(t.drop_last() =~= seq![x] + s.drop_last());
        assert(t.last() == s.last());
        assert(value(t) == value(t.drop_last()) * 10 + t.last() as nat);
        lemma_value_prepend(x, s.drop_last());
        let p = pow10(s.drop_last().len());
        assert(pow10(s.len()) == 10 * p);
        assert((x as nat * p + value(s.drop_last())) * 10 + s.last() as nat
            == x as nat * (10 * p) + (value(s.drop_last()) * 10 + s.last() as nat))
            by (nonlinear_arith);
        assert(value(t) == x as nat * pow10(s.len()) + value(s));
    }
}

/// A number of `n` digits is below `10^n`.
pub proof fn lemma_value_bound(s: Seq<u8>)
    requires
        is_digits(s),
    ensures
        value(s) < pow10(s.len()),
    decreases s.len(),
{
    if s.len() > 0 {
        let u = s.drop_last();
        lemma_value_bound(u);
        assert(s.last() <= 9);
        assert(value(u) * 10 + (s.last() as nat) < 10 * pow10(u.len())) by (nonlinear_arith)
            requires
                value(u) < pow10(u.len()),
                s.last() <= 9,
        ;
    }
}

/// A number whose leading digit is not zero has exactly its length in digits.
pub proof fn lemma_value_lower(s: Seq<u8>)
    requires
        s.len() > 0,
        s[0] != 0,
    ensures
        value(s) >= pow10((s.len() - 1) as nat),
    decreases s.len(),
{
    if s.len() > 1 {
        let u = s.drop_last();
        lemma_value_lower(u);
        assert(value(u) * 10 + (s.last() as nat) >= 10 * pow10((u.len() - 1) as nat))
            by (nonlinear_arith)
            requires
                value(u) >= pow10((u.len() - 1) as nat),
        ;
    } else {
        assert(s.drop_last() =~= Seq::<u8>::empty());
    }
}

/// A number with a leading zero is below `10^(n-1)`.
pub proof fn lemma_value_leading_zero(s: Seq<u8>)
    requires
        is_digits(s),
        s.len() > 0,
        s[0] == 0,
    ensures
        value(s) < pow10((s.len() - 1) as nat),
{
    assert(s =~= seq![s[0]] + s.drop_first());
    lemma_value_prepend(s[0], s.drop_first());
    lemma_value_bound(s.drop_first());
}

/// Writing `b` after `a` shifts `a` up by the length of `b`.
pub proof fn lemma_value_concat(a: Seq<u8>, b: Seq<u8>)
    ensures
        value(a + b) == value(a) * pow10(b.len()) + value(b),
    decreases b.len(),
{
    if b.len() == 0 {
        assert(a + b =~= a);
        assert(value(b) == 0);
        assert(pow10(0) == 1);
        assert(value(a) * pow10(b.len()) == value(a));
    } else {
        let b2 = b.drop_last();
        assert(value(a + b) == value((a + b).drop_last()) * 10 + (a + b).last() as nat);
        assert(value(b) == value(b2) * 10 + b.last() as nat);
        assert((a + b).drop_last() =~= a + b2);
        assert((a + b).last() == b.last());
        lemma_value_concat(a, b2);
        let p = pow10(b2.len());
        assert(pow10(b.len()) == 10 * p);
        assert((value(a) * p + value(b2)) * 10 + b.last() as nat == value(a) * (10 * p) + (
        value(b2) * 10 + b.last() as nat)) by (nonlinear_arith);
    }
}

/// The last `k` digits of a number are its value modulo `10^k`.
pub proof fn lemma_value_mod(s: Seq<u8>, k: nat)
    requires
        is_digits(s),
        k <= s.len(),
    ensures
        value(s) % pow10(k) == value(s.subrange(s.len() - k, s.len() as int)),
{
    let a = s.subrange(0, s.len() - k);
    let b = s.subrange(s.len() - k, s.len() as int);
    assert(s =~= a + b);
    lemma_value_concat(a, b);
    lemma_value_bound(b);
    lemma_pow10_pos(k);
    vstd::arithmetic::div_mod::lemma_fundamental_div_mod_converse(
        value(s) as int,
        pow10(k) as int,
        value(a) as int,
        value(b) as int,
    );
}

/// The digits of `n` are worth `n`.
pub proof fn lemma_value_digits_of(n: nat)
    ensures
        value(digits_of(n)) == n,
        is_digits(digits_of(n)),
    decreases n,
{
    if n > 0 {
        lemma_value_digits_of(n / 10);
        let s = digits_of(n);
        assert(s.drop_last() =~= digits_of(n / 10));
    }
}

pub proof fn lemma_pow10_mono(a: nat, b: nat)
    requires
        a <= b,
    ensures
        pow10(a) <= pow10(b),
{
    lemma_pow10_add(a, (b - a) as nat);
    lemma_pow10_pos((b - a) as nat);
    lemma_pow10_pos(a);
    assert(pow10(a) * pow10((b - a) as nat) >= pow10(a)) by (nonlinear_arith)
        requires
            pow10((b - a) as nat) >= 1,
    ;
}

/// A number of at least `10^n` has more than `n` digits.
pub proof fn lemma_digits_of_len(x: nat, n: nat)
    requires
        x >= pow10(n),
    ensures
        digits_of(x).len() > n,
{
    lemma_value_digits_of(x);
    lemma_value_bound(digits_of(x));
    if digits_of(x).len() <= n {
        lemma_pow10_mono(digits_of(x).len(), n);
    }
}

/// Digits without a leading zero are the decimal digits of their value.
pub proof fn lemma_canonical_digits(s: Seq<u8>)
    requires
        canonical(s),
    ensures
        s == digits_of(value(s)),
    decreases s.len(),
{
    if s.len() > 0 {
        let u = s.drop_last();
        lemma_value_lower(s);
        lemma_pow10_pos((s.len() - 1) as nat);
        let v = value(s);
        assert(v / 10 == value(u) && v % 10 == s.last() as nat) by {
            vstd::arithmetic::div_mod::lemma_fundamental_div_mod_converse(
                v as int,
                10,
                value(u) as int,
                s.last() as int,
            );
        }
        lemma_canonical_digits(u);
        assert(s =~= u.push(s.last()));
    }
}

/// Any digits are the lowest digits of their value, as many as they are.
pub proof fn lemma_low_digits(s: Seq<u8>)
    requires
        is_digits(s),
    ensures
        s == low_digits_of(value(s), s.len()),
    decreases s.len(),
{
    if s.len() > 0 {
        let u = s.drop_last();
        let v = value(s);
        assert(v / 10 == value(u) && v % 10 == s.last() as nat) by {
            vstd::arithmetic::div_mod::lemma_fundamental_div_mod_converse(
                v as int,
                10,
                value(u) as int,
                s.last() as int,
            );
        }
        lemma_low_digits(u);
        assert(s =~= u.push(s.last()));
    }
}

/// No row contributes to any column.
pub proof fn lemma_no_rows(rows: Seq<Seq<Digit>>, kk: nat)
    ensures
        columns_value(rows, 0, kk) == 0,
    decreases kk,
{
    if kk > 0 {
        lemma_no_rows(rows, (kk - 1) as nat);
        assert(column(rows, 0, kk - 1) == 0);
        assert(0 * pow10((kk - 1) as nat) == 0);
    }
}

/// Adding a row to the column sums adds that row, shifted.
pub proof fn lemma_columns_split(rows: Seq<Seq<Digit>>, n: nat, kk: nat)
    requires
        n < rows.len(),
    ensures
        columns_value(rows, n + 1, kk) == columns_value(rows, n, kk) + shifted_value(
            rows[n as int],
            n as int,
            kk,
        ),
    decreases kk,
{
    if kk > 0 {
        let k = (kk - 1) as nat;
        lemma_columns_split(rows, n, k);
        let a = column(rows, n, k as int);
        let b = place(rows[n as int], k - n);
        assert(column(rows, n + 1, k as int) == a + b);
        assert((a + b) * pow10(k) == a * pow10(k) + b * pow10(k)) by (nonlinear_arith);
    }
}

/// An empty row adds nothing.
pub proof fn lemma_shifted_empty(row: Seq<Digit>, s: int, kk: nat)
    requires
        row.len() == 0,
    ensures
        shifted_value(row, s, kk) == 0,
    decreases kk,
{
    if kk > 0 {
        lemma_shifted_empty(row, s, (kk - 1) as nat);
    }
}

/// Splitting off the units cell of a row.
pub proof fn lemma_shifted_step(row: Seq<Digit>, s: int, kk: nat)
    requires
        row.len() > 0,
        s >= 0,
    ensures
        shifted_value(row, s, kk) == shifted_value(row.drop_last(), s + 1, kk) + (if kk > s {
            cell_value(row.last()) * pow10(s as nat)
        } else {
            0
        }),
    decreases kk,
{
    if kk > 0 {
        let k = kk - 1;
        lemma_shifted_step(row, s, (kk - 1) as nat);
        let u = row.drop_last();
        if k > s && k - s < row.len() {
            assert(row[row.len() - 1 - (k - s)] == u[u.len() - 1 - (k - s - 1)]);
        }
    }
}

/// A row shifted by `s` places is worth its value times `10^s`.
pub proof fn lemma_shifted_row(row: Seq<Digit>, s: int, kk: nat)
    requires
        s >= 0,
        kk >= s + row.len(),
    ensures
        shifted_value(row, s, kk) == row_value(row) * pow10(s as nat),
    decreases row.len(),
{
    if row.len() == 0 {
        lemma_shifted_empty(row, s, kk);
        assert(cells_as_digits(row) =~= Seq::<u8>::empty());
        assert(row_value(row) == 0);
        assert(0 * pow10(s as nat) == 0);
    } else {
        let u = row.drop_last();
        lemma_shifted_step(row, s, kk);
        lemma_shifted_row(u, s + 1, kk);
        assert(cells_as_digits(row).drop_last() =~= cells_as_digits(u));
        let c = cell_value(row.last());
        assert(c <= 255);
        assert(row_value(row) == row_value(u) * 10 + c);
        assert(pow10((s + 1) as nat) == 10 * pow10(s as nat));
        assert(row_value(u) * (10 * pow10(s as nat)) + c * pow10(s as nat) == (row_value(u) * 10
            + c) * pow10(s as nat)) by (nonlinear_arith);
        let p = pow10(s as nat);
        let ru = row_value(u);
        assert(shifted_value(u, s + 1, kk) == ru * pow10((s + 1) as nat));
        assert(ru * pow10((s + 1) as nat) == ru * (10 * p));
        assert(shifted_value(row, s, kk) == ru * (10 * p) + c * p);
    }
}

/// Summing by columns gives the sum of the shifted rows, once the columns
/// reach past every row.
pub proof fn lemma_columns_total(rows: Seq<Seq<Digit>>, n: nat, kk: nat)
    requires
        n <= rows.len(),
        forall|j: int| 0 <= j < n ==> j + (#[trigger] rows[j]).len() <= kk,
    ensures
        columns_value(rows, n, kk) == shifted_sum(rows, n),
    decreases n,
{
    if n == 0 {
        lemma_no_rows(rows, kk);
    } else {
        let m = (n - 1) as nat;
        lemma_columns_total(rows, m, kk);
        lemma_columns_split(rows, m, kk);
        assert(m + rows[m as int].len() <= kk);
        lemma_shifted_row(rows[m as int], m as int, kk);
    }
}

/// Each shifted row is at most the whole sum.
pub proof fn lemma_shifted_sum_ge(rows: Seq<Seq<Digit>>, n: nat, j: nat)
    requires
        j < n <= rows.len(),
    ensures
        shifted_sum(rows, n) >= row_value(rows[j as int]) * pow10(j),
    decreases n,
{
    if j < n - 1 {
        lemma_shifted_sum_ge(rows, (n - 1) as nat, j);
    }
}

/// A fully known row without a leading zero has exactly its length in digits.
pub proof fn lemma_row_value_lower(row: Seq<Digit>)
    requires
        row.len() > 0,
        all_fixed(row),
        row[0] != Digit::Fix(0),
    ensures
        row_value(row) >= pow10((row.len() - 1) as nat),
{
    lemma_value_lower(cells_as_digits(row));
}

} // verus!
