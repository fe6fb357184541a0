use vstd::prelude::*;

use crate::arith::{
    all_fixed, column, columns_value, lemma_columns_total, lemma_pow10_add,
    lemma_row_value_lower, lemma_shifted_sum_ge, place, row_value, shifted_sum, canonical, cells_as_digits, digits_of, is_digits, lemma_canonical_digits, lemma_low_digits,
    lemma_pow10_pos, lemma_value_bound, lemma_value_leading_zero, lemma_value_lower,
    lemma_value_prepend, low_digits_of, pow10, value,
};
use crate::digit::Digit;

verus! {

/// A long multiplication with hidden digits. Every row is written most
/// significant digit first; `partial_product[j]` belongs to the `j`-th
/// multiplier digit counted from the right.
#[derive(Debug, Clone)]
pub struct Mushikui {
    pub multiplicand: Vec<Digit>,
    pub multiplier: Vec<Digit>,
    pub partial_product: Vec<Vec<Digit>>,
    pub product: Vec<Digit>,
}

/// Why a puzzle cannot be built from its rows.
#[derive(Debug, Clone, Copy, PartialEq, Eq, Structural)]
pub enum ValidationError {
    /// The multiplicand has no digit.
    EmptyMultiplicand,
    /// The multiplier has no digit.
    EmptyMultiplier,
    /// The multiplier has more digits than the multiplicand.
    MultiplierTooLong,
    /// The number of partial products differs from the number of multiplier digits.
    PartialProductCount,
    /// A partial product is empty or longer than the multiplicand plus one digit.
    PartialProductLength,
    /// The product is neither as long as both factors together nor one digit shorter.
    ProductLength,
    /// A row opens with a zero.
    LeadingZero,
    /// A cell is neither a decimal digit nor `*`.
    InvalidCell,
    /// The text holds fewer than four rows.
    MissingRows,
}

/// The cells written by `row`, if each is a digit or `*`.
pub open spec fn parse_row(row: Seq<char>) -> Option<Seq<Digit>> {
    if forall|i: int| 0 <= i < row.len() ==> (#[trigger] Digit::spec_parse(row[i])) is Some {
        Some(row.map_values(|c: char| Digit::spec_parse(c)->0))
    } else {
        None
    }
}

/// The first fault of a puzzle written as rows of characters, checked in
/// this order: factor lengths, row count, row lengths, leading zeros, cells.
pub open spec fn validation_error(
    multiplicand: Seq<char>,
    multiplier: Seq<char>,
    partial_product: Seq<Seq<char>>,
    product: Seq<char>,
) -> Option<ValidationError> {
    let l1 = multiplicand.len();
    let l2 = multiplier.len();
    if l1 == 0 {
        Some(ValidationError::EmptyMultiplicand)
    } else if l2 == 0 {
        Some(ValidationError::EmptyMultiplier)
    } else if l2 > l1 {
        Some(ValidationError::MultiplierTooLong)
    } else if partial_product.len() != l2 {
        Some(ValidationError::PartialProductCount)
    } else if exists|j: int|
        0 <= j < l2 && !(1 <= (#[trigger] partial_product[j]).len() <= l1 + 1) {
        Some(ValidationError::PartialProductLength)
    } else if !(l1 + l2 - 1 <= product.len() <= l1 + l2) || l1 + l2 >= usize::MAX {
        Some(ValidationError::ProductLength)
    } else if multiplicand[0] == '0' || multiplier[0] == '0' || product[0] == '0' || exists|j: int|
        0 <= j < l2 && (#[trigger] partial_product[j])[0] == '0' {
        Some(ValidationError::LeadingZero)
    } else if parse_row(multiplicand) is None || parse_row(multiplier) is None || parse_row(
        product,
    ) is None || exists|j: int| 0 <= j < l2 && parse_row(#[trigger] partial_product[j]) is None {
        Some(ValidationError::InvalidCell)
    } else {
        None
    }
}

/// `r` is the puzzle written by these rows, or the first fault among them.
pub open spec fn built_from(
    r: Result<Mushikui, ValidationError>,
    multiplicand: Seq<char>,
    multiplier: Seq<char>,
    partial_product: Seq<Seq<char>>,
    product: Seq<char>,
) -> bool {
    match r {
        Ok(p) => {
            &&& validation_error(multiplicand, multiplier, partial_product, product) is None
            &&& p.wf()
            &&& Some(p.multiplicand@) == parse_row(multiplicand)
            &&& Some(p.multiplier@) == parse_row(multiplier)
            &&& Some(p.product@) == parse_row(product)
            &&& p.rows().len() == partial_product.len()
            &&& forall|j: int|
                0 <= j < partial_product.len() ==> Some(#[trigger] p.rows()[j]) == parse_row(
                    partial_product[j],
                )
        },
        Err(e) => validation_error(multiplicand, multiplier, partial_product, product) == Some(e),
    }
}

/// Every cell of the row is a known decimal digit or hidden.
pub open spec fn cells_wf(row: Seq<Digit>) -> bool {
    forall|i: int| 0 <= i < row.len() ==> row[i].wf()
}

/// The row does not open with a known zero.
pub open spec fn no_leading_zero(row: Seq<Digit>) -> bool {
    row.len() > 0 && row[0] != Digit::Fix(0)
}

/// The known digits at the right end of `m`, before the first hidden cell.
pub open spec fn resolved_len(m: Seq<Digit>) -> nat
    decreases m.len(),
{
    if m.len() == 0 {
        0
    } else if m.last() is Any {
        0
    } else {
        1 + resolved_len(m.drop_last())
    }
}

/// The last `k` cells of `m` read as digits.
pub open spec fn low_digits(m: Seq<Digit>, k: nat) -> Seq<u8> {
    cells_as_digits(m.subrange(m.len() - k, m.len() as int))
}

/// What multiplying the resolved right end of `m` by `d` yields: the whole
/// product once every cell is known, else only as many low digits as are known.
pub open spec fn partial_product_of(m: Seq<Digit>, d: nat) -> Seq<u8> {
    let k = resolved_len(m);
    let v = value(low_digits(m, k)) * d;
    if k == m.len() {
        digits_of(v)
    } else {
        low_digits_of(v % pow10(k), k)
    }
}

impl Mushikui {
    /// The shape of a puzzle: row lengths and well-formed cells.
    pub open spec fn shape_ok(&self) -> bool {
        let l1 = self.multiplicand@.len();
        let l2 = self.multiplier@.len();
        &&& l1 >= 1
        &&& l2 >= 1
        &&& l2 <= l1
        &&& l1 + l2 < usize::MAX
        &&& self.rows().len() == l2
        &&& l1 + l2 - 1 <= self.product@.len() <= l1 + l2
        &&& cells_wf(self.multiplicand@)
        &&& cells_wf(self.multiplier@)
        &&& cells_wf(self.product@)
        &&& forall|j: int|
            0 <= j < l2 ==> {
                &&& 1 <= #[trigger] self.rows()[j].len() <= l1 + 1
                &&& cells_wf(self.rows()[j])
            }
    }

    /// A well-formed puzzle: its shape, and no row opens with a known zero.
    pub open spec fn wf(&self) -> bool {
        &&& self.shape_ok()
        &&& no_leading_zero(self.multiplicand@)
        &&& no_leading_zero(self.multiplier@)
        &&& no_leading_zero(self.product@)
        &&& forall|j: int|
            0 <= j < self.rows().len() ==> no_leading_zero(#[trigger] self.rows()[j])
    }

    /// The rows of partial products as sequences of cells.
    pub open spec fn rows(&self) -> Seq<Seq<Digit>> {
        self.partial_product@.map_values(|r: Vec<Digit>| r@)
    }

    /// Builds a puzzle from its rows, each written most significant digit
    /// first with `*` for a hidden digit; `partial_product[j]` belongs to the
    /// `j`-th multiplier digit from the right.
    #[verifier::loop_isolation(false)]
    pub fn new(
        multiplicand: &[char],
        multiplier: &[char],
        partial_product: &[Vec<char>],
        product: &[char],
    ) -> (r: Result<Mushikui, ValidationError>)
        ensures
            built_from(
                r,
                multiplicand@,
                multiplier@,
                partial_product@.map_values(|v: Vec<char>| v@),
                product@,
            ),
    {
        let ghost pp = partial_product@.map_values(|v: Vec<char>| v@);
        let l1 = multiplicand.len();
        let l2 = multiplier.len();
        if l1 == 0 {
            return Err(ValidationError::EmptyMultiplicand);
        }
        if l2 == 0 {
            return Err(ValidationError::EmptyMultiplier);
        }
        if l2 > l1 {
            return Err(ValidationError::MultiplierTooLong);
        }
        if partial_product.len() != l2 {
            return Err(ValidationError::PartialProductCount);
        }
        let mut j: usize = 0;
        while j < l2
            invariant
                l2 == partial_product@.len(),
                pp == partial_product@.map_values(|v: Vec<char>| v@),
                l1 >= 1,
                j <= l2,
                forall|t: int| 0 <= t < j ==> 1 <= (#[trigger] pp[t]).len() <= l1 + 1,
            decreases l2 - j,
        {
            assert(pp[j as int] == partial_product@[j as int]@);
            let n = partial_product[j].len();
            if n == 0 || n - 1 > l1 {
                assert(!(1 <= pp[j as int].len() <= l1 + 1));
                return Err(ValidationError::PartialProductLength);
            }
            j = j + 1;
        }
        if l1 >= usize::MAX - l2 || product.len() < l1 + l2 - 1 || product.len() > l1 + l2 {
            return Err(ValidationError::ProductLength);
        }
        if multiplicand[0] == '0' || multiplier[0] == '0' || product[0] == '0' {
            return Err(ValidationError::LeadingZero);
        }
        let mut j: usize = 0;
        while j < l2
            invariant
                l2 == partial_product@.len(),
                pp == partial_product@.map_values(|v: Vec<char>| v@),
                j <= l2,
                forall|t: int| 0 <= t < l2 ==> 1 <= (#[trigger] pp[t]).len() <= l1 + 1,
                forall|t: int| 0 <= t < j ==> (#[trigger] pp[t])[0] != '0',
            decreases l2 - j,
        {
            assert(pp[j as int] == partial_product@[j as int]@);
            if partial_product[j][0] == '0' {
                assert(pp[j as int][0] == '0');
                return Err(ValidationError::LeadingZero);
            }
            j = j + 1;
        }
        let a = match parse_cells(multiplicand) {
            Some(a) => a,
            None => {
                return Err(ValidationError::InvalidCell);
            },
        };
        let b = match parse_cells(multiplier) {
            Some(b) => b,
            None => {
                return Err(ValidationError::InvalidCell);
            },
        };
        let c = match parse_cells(product) {
            Some(c) => c,
            None => {
                return Err(ValidationError::InvalidCell);
            },
        };
        let mut rows: Vec<Vec<Digit>> = Vec::new();
        let mut j: usize = 0;
        while j < l2
            invariant
                l2 == partial_product@.len(),
                pp == partial_product@.map_values(|v: Vec<char>| v@),
                j <= l2,
                forall|t: int| 0 <= t < l2 ==> 1 <= (#[trigger] pp[t]).len() <= l1 + 1,
                forall|t: int| 0 <= t < l2 ==> (#[trigger] pp[t])[0] != '0',
                rows@.len() == j,
                forall|t: int| 0 <= t < j ==> Some((#[trigger] rows@[t])@) == parse_row(pp[t]),
            decreases l2 - j,
        {
            assert(pp[j as int] == partial_product@[j as int]@);
            match parse_cells(partial_product[j].as_slice()) {
                Some(row) => rows.push(row),
                None => {
                    proof {
                        assert(parse_row(pp[j as int]) is None);
                    }
                    return Err(ValidationError::InvalidCell);
                },
            }
            j = j + 1;
        }
        let p = Mushikui { multiplicand: a, multiplier: b, partial_product: rows, product: c };
        proof {
            assert forall|t: int| 0 <= t < l2 implies #[trigger] p.rows()[t] == rows@[t]@ by {}
            lemma_parsed_row(multiplicand@);
            lemma_parsed_row(multiplier@);
            lemma_parsed_row(product@);
            assert forall|t: int| 0 <= t < l2 implies {
                &&& 1 <= #[trigger] p.rows()[t].len() <= l1 + 1
                &&& cells_wf(p.rows()[t])
                &&& no_leading_zero(p.rows()[t])
            } by {
                assert(p.rows()[t] == rows@[t]@);
                lemma_parsed_row(pp[t]);
            }
            assert(p.shape_ok());
            assert(p.wf());
            assert(!exists|t: int| 0 <= t < l2 && !(1 <= (#[trigger] pp[t]).len() <= l1 + 1));
            assert(!exists|t: int| 0 <= t < l2 && (#[trigger] pp[t])[0] == '0');
            assert(!exists|t: int| 0 <= t < l2 && parse_row(#[trigger] pp[t]) is None) by {
                assert forall|t: int| 0 <= t < l2 implies parse_row(#[trigger] pp[t]) is Some by {
                    assert(Some(rows@[t]@) == parse_row(pp[t]));
                }
            }
            assert(validation_error(multiplicand@, multiplier@, pp, product@) is None);
        }
        Ok(p)
    }

    /// Multiplies the known right end of the multiplicand by `d`, digit by
    /// digit with carry. The final carry is kept only once the whole
    /// multiplicand is known.
    pub fn calculate_partial_product(&self, d: u8) -> (r: Vec<u8>)
        requires
            1 <= d <= 9,
            cells_wf(self.multiplicand@),
            no_leading_zero(self.multiplicand@),
        ensures
            r@ == partial_product_of(self.multiplicand@, d as nat),
            is_digits(r@),
            resolved_len(self.multiplicand@) == self.multiplicand@.len() ==> canonical(r@) && value(
                r@,
            ) == value(cells_as_digits(self.multiplicand@)) * d as nat,
            resolved_len(self.multiplicand@) < self.multiplicand@.len() ==> r@.len()
                == resolved_len(self.multiplicand@),
    {
        let len = self.multiplicand.len();
        let ghost m = self.multiplicand@;
        let mut k: usize = 0;
        while k < len && !self.multiplicand[len - 1 - k].is_any()
            invariant
                k <= len,
                len == m.len(),
                m == self.multiplicand@,
                forall|t: int| 0 <= t < k ==> (#[trigger] m[len - 1 - t]) is Fix,
            decreases len - k,
        {
            k = k + 1;
        }
        proof {
            lemma_resolved_len(m, k as nat);
        }
        let ghost fv = cells_as_digits(m);
        let mut prod: Vec<u8> = Vec::new();
        let mut carry: u8 = 0;
        let mut i: usize = 0;
        assert(low_digits(m, 0) =~= Seq::<u8>::empty());
        assert(value(prod@) == 0);
        while i < k
            invariant
                k <= len,
                len == m.len(),
                m == self.multiplicand@,
                cells_wf(m),
                fv == cells_as_digits(m),
                forall|t: int| 0 <= t < k ==> (#[trigger] m[len - 1 - t]) is Fix,
                1 <= d <= 9,
                i <= k,
                prod@.len() == i,
                is_digits(prod@),
                carry <= 8,
                value(prod@) + carry * pow10(i as nat) == value(low_digits(m, i as nat)) * d,
            decreases k - i,
        {
            let c = match self.multiplicand[len - 1 - i] {
                Digit::Fix(v) => v,
                Digit::Any => 0,
            };
            assert(c <= 9);
            assert(c * d <= 81) by (nonlinear_arith)
                requires
                    c <= 9,
                    d <= 9,
            ;
            let e: u8 = c * d + carry;
            let ghost old_prod = prod@;
            prod.insert(0, e % 10);
            proof {
                let p = pow10(i as nat);
                assert(prod@ =~= seq![(e % 10) as u8] + old_prod);
                lemma_value_prepend((e % 10) as u8, old_prod);
                let lo = low_digits(m, i as nat);
                let lo2 = low_digits(m, (i + 1) as nat);
                assert(lo2 =~= seq![c] + lo);
                lemma_value_prepend(c, lo);
                assert(pow10((i + 1) as nat) == 10 * p);
                assert((e % 10) as nat * p + value(old_prod) + (e / 10) as nat * (10 * p)
                    == e as nat * p + value(old_prod)) by (nonlinear_arith)
                    requires
                        e as nat == (e % 10) as nat + 10 * (e / 10) as nat,
                ;
                assert((c as nat * p + value(lo)) * d == c as nat * d as nat * p + value(lo) * d)
                    by (nonlinear_arith);
                assert(e as nat * p == c as nat * d as nat * p + carry as nat * p)
                    by (nonlinear_arith)
                    requires
                        e as nat == c as nat * d as nat + carry as nat,
                ;
            }
            carry = e / 10;
            i = i + 1;
        }
        let ghost v: nat = value(low_digits(m, k as nat)) * (d as nat);
        if k == len {
            if carry > 0 {
                let ghost old_prod = prod@;
                prod.insert(0, carry);
                proof {
                    assert(prod@ =~= seq![carry] + old_prod);
                    lemma_value_prepend(carry, old_prod);
                    assert(value(prod@) == v);
                }
            } else {
                proof {
                    assert(carry as nat * pow10(k as nat) == 0);
                    assert(value(prod@) == v);
                    if k > 0 && prod@[0] == 0 {
                        lemma_value_leading_zero(prod@);
                        lemma_leading_fixed_lower(m, d as nat);
                    }
                }
            }
            proof {
                assert(value(prod@) == v);
                lemma_canonical_digits(prod@);
                assert(m.subrange(m.len() - k, m.len() as int) =~= m);
            }
        } else {
            proof {
                lemma_value_bound(prod@);
                lemma_pow10_pos(k as nat);
                vstd::arithmetic::div_mod::lemma_fundamental_div_mod_converse(
                    v as int,
                    pow10(k as nat) as int,
                    carry as int,
                    value(prod@) as int,
                );
                assert(value(prod@) == v % pow10(k as nat));
                lemma_low_digits(prod@);
            }
        }
        prod
    }

    /// Adds the partial products, row `j` shifted left by `j` places, column by
    /// column with carry; hidden cells count as zero.
    pub fn calculate_product(&self) -> (r: Vec<u8>)
        requires
            self.shape_ok(),
        ensures
            is_digits(r@),
            forall|j: int|
                0 <= j < self.rows().len() ==> r@.len() >= j + (#[trigger] self.rows()[j]).len(),
            value(r@) == shifted_sum(self.rows(), self.rows().len()),
            (forall|j: int|
                0 <= j < self.rows().len() ==> all_fixed(#[trigger] self.rows()[j])
                    && no_leading_zero(self.rows()[j])) ==> r@ == digits_of(
                shifted_sum(self.rows(), self.rows().len()),
            ),
    {
        let rows = &self.partial_product;
        let n = rows.len();
        let ghost rs = self.rows();
        assert(rs.len() == n);
        // the columns reach past every row
        let mut width: usize = 0;
        let mut j: usize = 0;
        let ghost mut widest: int = 0;
        while j < n
            invariant
                n == rows@.len(),
                rs == self.rows(),
                self.shape_ok(),
                rows == &self.partial_product,
                j <= n,
                forall|t: int| 0 <= t < j ==> t + (#[trigger] rs[t]).len() <= width,
                j == 0 ==> width == 0,
                j > 0 ==> 0 <= widest < j && widest + rs[widest].len() == width,
            decreases n - j,
        {
            assert(rs[j as int] == rows@[j as int]@);
            assert(1 <= rs[j as int].len());
            if j + rows[j].len() > width {
                width = j + rows[j].len();
                proof {
                    widest = j as int;
                }
            }
            j = j + 1;
        }
        let mut prod: Vec<u8> = Vec::new();
        let mut carry: u128 = 0;
        let mut k: usize = 0;
        assert(value(prod@) == 0);
        while k < width
            invariant
                n == rows@.len(),
                n >= 1,
                rs == self.rows(),
                self.shape_ok(),
                rows == &self.partial_product,
                k <= width,
                forall|t: int| 0 <= t < n ==> t + (#[trigger] rs[t]).len() <= width,
                prod@.len() == k,
                is_digits(prod@),
                carry <= n,
                value(prod@) + carry * pow10(k as nat) == columns_value(rs, n as nat, k as nat),
            decreases width - k,
        {
            let mut sum: u128 = 0;
            let mut j: usize = 0;
            while j < n
                invariant
                    n == rows@.len(),
                    rs == self.rows(),
                    self.shape_ok(),
                    rows == &self.partial_product,
                    j <= n,
                    sum <= 9 * j,
                    sum == column(rs, j as nat, k as int),
                decreases n - j,
            {
                assert(rs[j as int] == rows@[j as int]@);
                let row = &rows[j];
                if k >= j && k - j < row.len() {
                    let c = row[row.len() - (k - j) - 1];
                    assert(c.wf());
                    let d: u8 = match c {
                        Digit::Fix(d) => d,
                        Digit::Any => 0,
                    };
                    assert(d as nat == place(rs[j as int], k - j));
                    sum = sum + d as u128;
                }
                j = j + 1;
            }
            let ghost old_prod = prod@;
            let t = sum + carry;
            prod.insert(0, (t % 10) as u8);
            proof {
                let p = pow10(k as nat);
                assert(prod@ =~= seq![(t % 10) as u8] + old_prod);
                lemma_value_prepend((t % 10) as u8, old_prod);
                assert(pow10((k + 1) as nat) == 10 * p);
                assert((t % 10) as nat * p + value(old_prod) + (t / 10) as nat * (10 * p)
                    == t as nat * p + value(old_prod)) by (nonlinear_arith)
                    requires
                        t as nat == (t % 10) as nat + 10 * (t / 10) as nat,
                ;
                assert(t as nat * p == sum as nat * p + carry as nat * p) by (nonlinear_arith)
                    requires
                        t as nat == sum as nat + carry as nat,
                ;
            }
            carry = t / 10;
            k = k + 1;
        }
        proof {
            lemma_columns_total(rs, n as nat, width as nat);
        }
        let ghost total = shifted_sum(rs, n as nat);
        while carry > 0
            invariant
                prod@.len() >= width,
                forall|t: int| 0 <= t < n ==> t + (#[trigger] rs[t]).len() <= width,
                is_digits(prod@),
                value(prod@) + carry * pow10(prod@.len()) == total,
                prod@.len() > width && carry == 0 ==> prod@[0] != 0,
            decreases carry,
        {
            let ghost old_prod = prod@;
            prod.insert(0, (carry % 10) as u8);
            proof {
                let p = pow10(old_prod.len());
                assert(prod@ =~= seq![(carry % 10) as u8] + old_prod);
                lemma_value_prepend((carry % 10) as u8, old_prod);
                assert(pow10(prod@.len()) == 10 * p);
                assert((carry % 10) as nat * p + (carry / 10) as nat * (10 * p) == carry as nat * p)
                    by (nonlinear_arith)
                    requires
                        carry as nat == (carry % 10) as nat + 10 * (carry / 10) as nat,
                ;
            }
            carry = carry / 10;
        }
        proof {
            assert(value(prod@) == total);
            if forall|j: int|
                0 <= j < rs.len() ==> all_fixed(#[trigger] rs[j]) && no_leading_zero(rs[j]) {
                if prod@.len() == width && prod@[0] == 0 {
                    let w = widest;
                    lemma_value_leading_zero(prod@);
                    lemma_row_value_lower(rs[w]);
                    lemma_shifted_sum_ge(rs, n as nat, w as nat);
                    lemma_pow10_add((rs[w].len() - 1) as nat, w as nat);
                    let rv = row_value(rs[w]);
                    let a = pow10((rs[w].len() - 1) as nat);
                    let b = pow10(w as nat);
                    assert(rv * b >= a * b) by (nonlinear_arith)
                        requires
                            rv >= a,
                    ;
                    assert((rs[w].len() - 1) as nat + w as nat == (width - 1) as nat);
                }
                lemma_canonical_digits(prod@);
            }
        }
        prod
    }
}

/// Reads a row of cells, if each is a digit or `*`.
fn parse_cells(row: &[char]) -> (r: Option<Vec<Digit>>)
    ensures
        match r {
            Some(v) => parse_row(row@) == Some(v@),
            None => parse_row(row@) is None,
        },
{
    let mut v: Vec<Digit> = Vec::new();
    let mut i: usize = 0;
    while i < row.len()
        invariant
            i <= row@.len(),
            v@.len() == i,
            forall|t: int| 0 <= t < i ==> Digit::spec_parse(row@[t]) == Some(#[trigger] v@[t]),
        decreases row@.len() - i,
    {
        match Digit::parse(row[i]) {
            Some(d) => v.push(d),
            None => {
                assert(Digit::spec_parse(row@[i as int]) is None);
                return None;
            },
        }
        i = i + 1;
    }
    assert forall|t: int| 0 <= t < row@.len() implies (#[trigger] Digit::spec_parse(
        row@[t],
    )) is Some by {
        assert(Digit::spec_parse(row@[t]) == Some(v@[t]));
    }
    assert(v@ =~= row@.map_values(|c: char| Digit::spec_parse(c)->0));
    Some(v)
}

/// What a row of characters parses to has well-formed cells, and opens
/// with a known zero only where the row opens with `0`.
proof fn lemma_parsed_row(row: Seq<char>)
    requires
        parse_row(row) is Some,
    ensures
        cells_wf(parse_row(row)->0),
        parse_row(row)->0.len() == row.len(),
        row.len() > 0 && row[0] != '0' ==> no_leading_zero(parse_row(row)->0),
{
    let cells = parse_row(row)->0;
    assert forall|i: int| 0 <= i < cells.len() implies (#[trigger] cells[i]).wf() by {
        assert(Digit::spec_parse(row[i]) is Some);
    }
    if row.len() > 0 && row[0] != '0' {
        assert(Digit::spec_parse(row[0]) is Some);
    }
}

/// Counting known cells from the right end finds `resolved_len`.
pub proof fn lemma_resolved_len(m: Seq<Digit>, k: nat)
    requires
        k <= m.len(),
        forall|t: int| 0 <= t < k ==> (#[trigger] m[m.len() - 1 - t]) is Fix,
        k == m.len() || m[m.len() - 1 - k] is Any,
    ensures
        resolved_len(m) == k,
    decreases m.len(),
{
    if m.len() > 0 && k > 0 {
        let u = m.drop_last();
        assert forall|t: int| 0 <= t < k - 1 implies (#[trigger] u[u.len() - 1 - t]) is Fix by {
            assert(u[u.len() - 1 - t] == m[m.len() - 1 - (t + 1)]);
        }
        lemma_resolved_len(u, (k - 1) as nat);
    }
}

/// A fully known multiplicand without a leading zero, times a nonzero digit,
/// has at least as many digits as the multiplicand.
proof fn lemma_leading_fixed_lower(m: Seq<Digit>, d: nat)
    requires
        cells_wf(m),
        no_leading_zero(m),
        resolved_len(m) == m.len(),
        d >= 1,
    ensures
        value(low_digits(m, m.len())) * d >= pow10((m.len() - 1) as nat),
{
    let s = low_digits(m, m.len());
    assert(m.subrange(0, m.len() as int) =~= m);
    lemma_fixed_at_zero(m);
    assert(s[0] != 0);
    lemma_value_lower(s);
    assert(value(s) * d >= value(s)) by (nonlinear_arith)
        requires
            d >= 1,
    ;
}

proof fn lemma_fixed_at_zero(m: Seq<Digit>)
    requires
        m.len() > 0,
        resolved_len(m) == m.len(),
    ensures
        m[0] is Fix,
    decreases m.len(),
{
    if m.len() > 1 {
        lemma_fixed_at_zero(m.drop_last());
    }
}

} // verus!
