use vstd::prelude::*;

use crate::arith::{
    all_fixed, canonical, cell_value, cells_as_digits, digits_of, fixed_row, is_digits,
    lemma_digits_of_len, lemma_low_digits, lemma_pow10_pos, lemma_value_digits_of,
    lemma_value_lower, lemma_value_mod, lemma_value_prepend, pow10, row_value, shifted_sum, value,
};
use crate::digit::Digit;
use crate::puzzle::{
    cells_wf, lemma_resolved_len, resolved_len, low_digits, no_leading_zero, partial_product_of, Mushikui,
};

verus! {

/// `cur` is `orig` with some hidden cells filled in: every known cell of
/// `orig` is unchanged.
pub open spec fn refines_row(cur: Seq<Digit>, orig: Seq<Digit>) -> bool {
    &&& cur.len() == orig.len()
    &&& forall|i: int| 0 <= i < orig.len() && (#[trigger] orig[i]) is Fix ==> cur[i] == orig[i]
}

/// The last `n` cells of `m` are known.
pub open spec fn fixed_low(m: Seq<Digit>, n: int) -> bool {
    forall|t: int| 0 <= t < n ==> (#[trigger] m[m.len() - 1 - t]) is Fix
}

impl Mushikui {
    /// The value of the multiplicand, hidden cells read as zero.
    pub open spec fn multiplicand_value(self) -> nat {
        value(cells_as_digits(self.multiplicand@))
    }

    /// The `j`-th multiplier digit counted from the right, hidden as zero.
    pub open spec fn multiplier_digit(self, j: int) -> nat {
        cell_value(self.multiplier@[self.multiplier@.len() - 1 - j])
    }

    /// Same cells in every row.
    pub open spec fn same_cells(self, other: Mushikui) -> bool {
        &&& self.multiplicand@ == other.multiplicand@
        &&& self.multiplier@ == other.multiplier@
        &&& self.rows() == other.rows()
        &&& self.product@ == other.product@
    }

    /// Every known cell of `orig` is unchanged in `self`.
    pub open spec fn refines(self, orig: Mushikui) -> bool {
        &&& refines_row(self.multiplicand@, orig.multiplicand@)
        &&& refines_row(self.multiplier@, orig.multiplier@)
        &&& refines_row(self.product@, orig.product@)
        &&& self.rows().len() == orig.rows().len()
        &&& forall|j: int|
            0 <= j < orig.rows().len() ==> refines_row(
                #[trigger] self.rows()[j],
                orig.rows()[j],
            )
    }

    /// A fully known multiplication that holds: each partial product is the
    /// multiplicand times its (nonzero) multiplier digit, and the product is
    /// the sum of the partial products, row `j` shifted by `j` places.
    pub open spec fn is_consistent(self) -> bool {
        &&& self.wf()
        &&& all_fixed(self.multiplicand@)
        &&& all_fixed(self.multiplier@)
        &&& all_fixed(self.product@)
        &&& forall|j: int| 0 <= j < self.rows().len() ==> all_fixed(#[trigger] self.rows()[j])
        &&& forall|j: int| 0 <= j < self.multiplier@.len() ==> #[trigger] self.multiplier_digit(j) >= 1
        &&& forall|j: int|
            0 <= j < self.rows().len() ==> #[trigger] self.rows()[j] == fixed_row(
                digits_of(self.multiplicand_value() * self.multiplier_digit(j)),
            )
        &&& self.product@ == fixed_row(digits_of(shifted_sum(self.rows(), self.rows().len())))
    }

    /// `self` is a solution of `puzzle`: consistent, and agreeing with every
    /// known cell of `puzzle`.
    pub open spec fn solves(self, puzzle: Mushikui) -> bool {
        self.is_consistent() && self.refines(puzzle)
    }

    /// The `j` rightmost multiplier cells hold known nonzero digits.
    pub open spec fn multiplier_low_ok(self, j: int) -> bool {
        forall|t: int|
            0 <= t < j ==> (#[trigger] self.multiplier@[self.multiplier@.len() - 1 - t]) is Fix
                && self.multiplier_digit(t) >= 1
    }

    /// In the pass before the multiplicand is complete, row `j` has nothing
    /// to check: its cell above the `i`-th multiplicand digit is hidden.
    pub open spec fn skips(self, i: int, j: int, last: bool) -> bool {
        &&& !last
        &&& self.rows()[j].len() > i
        &&& self.rows()[j][self.rows()[j].len() - i - 1] is Any
    }

    /// The state the search works on.
    pub open spec fn search_ok(self) -> bool {
        self.shape_ok() && no_leading_zero(self.multiplicand@)
    }
}

/// `after` begins with `before`, and every result added after it solves `puzzle`.
pub open spec fn extends_with_solutions(
    before: Seq<Mushikui>,
    after: Seq<Mushikui>,
    puzzle: Mushikui,
) -> bool {
    &&& after.len() >= before.len()
    &&& forall|t: int| 0 <= t < before.len() ==> after[t] == before[t]
    &&& forall|t: int| before.len() <= t < after.len() ==> (#[trigger] after[t]).solves(puzzle)
}

/// No two results from `start` on have the same cells.
pub open spec fn distinct_from(results: Seq<Mushikui>, start: int) -> bool {
    forall|t1: int, t2: int|
        start <= t1 < t2 < results.len() ==> !(#[trigger] results[t1]).same_cells(
            #[trigger] results[t2],
        )
}

/// Some result from `start` on has the same cells as `sol`.
pub open spec fn has_solution(results: Seq<Mushikui>, start: int, sol: Mushikui) -> bool {
    exists|t: int| start <= t < results.len() && (#[trigger] results[t]).same_cells(sol)
}

/// The results from `start` on come in ascending order of the multiplicand
/// digit at `pos`.
pub open spec fn sorted_by_multiplicand_cell(results: Seq<Mushikui>, start: int, pos: int) -> bool {
    forall|t1: int, t2: int|
        start <= t1 < t2 < results.len() ==> cell_value(
            (#[trigger] results[t1]).multiplicand@[pos],
        ) <= cell_value((#[trigger] results[t2]).multiplicand@[pos])
}

/// The results from `start` on come in ascending order of the multiplier
/// digit at `pos`.
pub open spec fn sorted_by_multiplier_cell(results: Seq<Mushikui>, start: int, pos: int) -> bool {
    forall|t1: int, t2: int|
        start <= t1 < t2 < results.len() ==> cell_value(
            (#[trigger] results[t1]).multiplier@[pos],
        ) <= cell_value((#[trigger] results[t2]).multiplier@[pos])
}

proof fn lemma_has_solution_kept(
    before: Seq<Mushikui>,
    after: Seq<Mushikui>,
    start: int,
    sol: Mushikui,
)
    requires
        after.len() >= before.len(),
        forall|t: int| 0 <= t < before.len() ==> after[t] == before[t],
        0 <= start,
        has_solution(before, start, sol),
    ensures
        has_solution(after, start, sol),
{
    let t = choose|t: int| start <= t < before.len() && (#[trigger] before[t]).same_cells(sol);
    assert(after[t] == before[t]);
}

proof fn lemma_has_solution_widen(results: Seq<Mushikui>, s1: int, s2: int, sol: Mushikui)
    requires
        s1 <= s2,
        has_solution(results, s2, sol),
    ensures
        has_solution(results, s1, sol),
{
    let t = choose|t: int| s2 <= t < results.len() && (#[trigger] results[t]).same_cells(sol);
    assert(s1 <= t < results.len() && results[t].same_cells(sol));
}

/// With every multiplicand and multiplier cell known, a solution has those
/// very digits, and its partial products follow from them.
proof fn lemma_solution_rows(start: Mushikui, sol: Mushikui, j: int)
    requires
        start.search_ok(),
        fixed_low(start.multiplicand@, start.multiplicand@.len() as int),
        start.multiplier_low_ok(start.multiplier@.len() as int),
        sol.solves(start),
        0 <= j < start.multiplier@.len(),
    ensures
        sol.multiplicand@ == start.multiplicand@,
        sol.multiplier@ == start.multiplier@,
        sol.rows()[j] == fixed_row(
            digits_of(start.multiplicand_value() * start.multiplier_digit(j)),
        ),
{
    let m = start.multiplicand@;
    let b = start.multiplier@;
    assert forall|i: int| 0 <= i < m.len() implies sol.multiplicand@[i] == m[i] by {
        assert(m[m.len() - 1 - (m.len() - 1 - i)] is Fix);
    }
    assert(sol.multiplicand@ =~= m);
    assert forall|i: int| 0 <= i < b.len() implies sol.multiplier@[i] == b[i] by {
        assert(b[b.len() - 1 - (b.len() - 1 - i)] is Fix);
    }
    assert(sol.multiplier@ =~= b);
}

proof fn lemma_refines_trans(a: Mushikui, b: Mushikui, c: Mushikui)
    requires
        a.refines(b),
        b.refines(c),
    ensures
        a.refines(c),
{
    assert forall|j: int| 0 <= j < c.rows().len() implies refines_row(
        #[trigger] a.rows()[j],
        c.rows()[j],
    ) by {
        assert(refines_row(a.rows()[j], b.rows()[j]));
        assert(refines_row(b.rows()[j], c.rows()[j]));
    }
}

/// A copy of a row of cells.
fn copy_row(row: &Vec<Digit>) -> (r: Vec<Digit>)
    ensures
        r@ == row@,
{
    let mut r: Vec<Digit> = Vec::new();
    let mut i: usize = 0;
    while i < row.len()
        invariant
            i <= row@.len(),
            r@ == row@.subrange(0, i as int),
        decreases row@.len() - i,
    {
        r.push(row[i]);
        i = i + 1;
        assert(r@ =~= row@.subrange(0, i as int));
    }
    assert(r@ =~= row@);
    r
}

/// The row whose cells are the known digits `part`.
fn fixed_cells(part: &Vec<u8>) -> (r: Vec<Digit>)
    ensures
        r@ == fixed_row(part@),
{
    let mut r: Vec<Digit> = Vec::new();
    let mut i: usize = 0;
    while i < part.len()
        invariant
            i <= part@.len(),
            r@ == fixed_row(part@.subrange(0, i as int)),
        decreases part@.len() - i,
    {
        r.push(Digit::Fix(part[i]));
        i = i + 1;
        assert(r@ =~= fixed_row(part@.subrange(0, i as int)));
    }
    assert(part@.subrange(0, i as int) =~= part@);
    r
}

/// Whether the cells of `row` admit the digits of `part`, both aligned on
/// their right ends, as far as both reach.
fn accepts_low(part: &Vec<u8>, row: &Vec<Digit>) -> (r: bool)
    ensures
        r == forall|t: int|
            0 <= t < part@.len() && t < row@.len() ==> (#[trigger] row@[row@.len() - 1 - t]).accepts(
                part@[part@.len() - 1 - t],
            ),
{
    let n = if part.len() < row.len() {
        part.len()
    } else {
        row.len()
    };
    let mut t: usize = 0;
    while t < n
        invariant
            n <= part@.len(),
            n <= row@.len(),
            n == part@.len() || n == row@.len(),
            t <= n,
            forall|u: int|
                0 <= u < t ==> (#[trigger] row@[row@.len() - 1 - u]).accepts(
                    part@[part@.len() - 1 - u],
                ),
        decreases n - t,
    {
        if !row[row.len() - 1 - t].accept(part[part.len() - 1 - t]) {
            return false;
        }
        t = t + 1;
    }
    true
}

/// `row` with its rightmost cells replaced by the known digits `part`.
fn overwrite_low(row: &Vec<Digit>, part: &Vec<u8>) -> (r: Vec<Digit>)
    requires
        part@.len() <= row@.len(),
    ensures
        r@.len() == row@.len(),
        forall|i: int| 0 <= i < row@.len() - part@.len() ==> r@[i] == row@[i],
        forall|i: int|
            row@.len() - part@.len() <= i < row@.len() ==> r@[i] == Digit::Fix(
                part@[i - (row@.len() - part@.len())],
            ),
{
    let gap = row.len() - part.len();
    let mut r: Vec<Digit> = Vec::new();
    let mut i: usize = 0;
    while i < row.len()
        invariant
            gap == row@.len() - part@.len(),
            i <= row@.len(),
            r@.len() == i,
            forall|u: int| 0 <= u < i && u < gap ==> r@[u] == row@[u],
            forall|u: int| gap <= u < i ==> r@[u] == Digit::Fix(part@[u - gap]),
        decreases row@.len() - i,
    {
        if i < gap {
            r.push(row[i]);
        } else {
            r.push(Digit::Fix(part[i - gap]));
        }
        i = i + 1;
    }
    r
}

impl Mushikui {
    /// With every multiplicand and multiplier digit known: recomputes each
    /// partial product in full and the product, and records the resolved
    /// puzzle if all of them agree with the cells.
    fn record_if_consistent(&self, result: &mut Vec<Mushikui>)
        requires
            self.search_ok(),
            fixed_low(self.multiplicand@, self.multiplicand@.len() as int),
            self.multiplier_low_ok(self.multiplier@.len() as int),
        ensures
            extends_with_solutions(old(result)@, final(result)@, *self),
            forall|sol: Mushikui| #[trigger] sol.solves(*self) ==> has_solution(
                final(result)@,
                old(result)@.len() as int,
                sol,
            ),
            final(result)@.len() <= old(result)@.len() + 1,
    {
        let l1 = self.multiplicand.len();
        let l2 = self.multiplier.len();
        let ghost m = self.multiplicand@;
        let ghost mv = self.multiplicand_value();
        proof {
            lemma_resolved_len(m, l1 as nat);
            assert(m.subrange(m.len() - l1, m.len() as int) =~= m);
            assert(low_digits(m, l1 as nat) == cells_as_digits(m));
            lemma_multiplicand_positive(m);
        }
        let mut rows: Vec<Vec<Digit>> = Vec::new();
        let mut j: usize = 0;
        while j < l2
            invariant
                self.search_ok(),
                fixed_low(m, l1 as int),
                self.multiplier_low_ok(l2 as int),
                m == self.multiplicand@,
                l1 == m.len(),
                l2 == self.multiplier@.len(),
                mv == self.multiplicand_value(),
                mv >= 1,
                resolved_len(m) == l1,
                low_digits(m, l1 as nat) == cells_as_digits(m),
                j <= l2,
                rows@.len() == j,
                forall|u: int|
                    0 <= u < j ==> (#[trigger] rows@[u])@ == fixed_row(
                        digits_of(mv * self.multiplier_digit(u)),
                    ),
                forall|u: int| 0 <= u < j ==> refines_row((#[trigger] rows@[u])@, self.rows()[u]),
            decreases l2 - j,
        {
            let cell = self.multiplier[l2 - 1 - j];
            assert(cell == self.multiplier@[self.multiplier@.len() - 1 - j]);
            let d = cell.digit().unwrap();
            assert(d as nat == self.multiplier_digit(j as int));
            assert(cells_wf(self.multiplier@));
            assert(self.multiplier@[l2 - 1 - j].wf());
            let part = self.calculate_partial_product(d);
            assert(part@ == digits_of(mv * (d as nat)));
            assert(self.rows()[j as int] == self.partial_product@[j as int]@);
            let row = &self.partial_product[j];
            if part.len() != row.len() || !accepts_low(&part, row) {
                proof {
                    assert forall|sol: Mushikui| !(#[trigger] sol.solves(*self)) by {
                        if sol.solves(*self) {
                            lemma_solution_rows(*self, sol, j as int);
                            let n = row@.len();
                            assert(refines_row(sol.rows()[j as int], row@));
                            assert forall|t: int| 0 <= t < part@.len() && t < n implies (
                            #[trigger] row@[n - 1 - t]).accepts(part@[part@.len() - 1 - t]) by {
                                assert(sol.rows()[j as int][n - 1 - t] == Digit::Fix(
                                    part@[n - 1 - t],
                                ));
                            }
                        }
                    }
                }
                return;
            }
            let cells = fixed_cells(&part);
            proof {
                let n = row@.len();
                assert forall|i: int| 0 <= i < n && (#[trigger] row@[i]) is Fix implies cells@[i]
                    == row@[i] by {
                    assert(row@[n - 1 - (n - 1 - i)].accepts(part@[n - 1 - (n - 1 - i)]));
                }
            }
            rows.push(cells);
            j = j + 1;
        }
        let mut sol = Mushikui {
            multiplicand: copy_row(&self.multiplicand),
            multiplier: copy_row(&self.multiplier),
            partial_product: rows,
            product: copy_row(&self.product),
        };
        proof {
            assert forall|u: int| 0 <= u < l2 implies {
                &&& 1 <= #[trigger] sol.rows()[u].len() <= l1 + 1
                &&& cells_wf(sol.rows()[u])
                &&& all_fixed(sol.rows()[u])
                &&& no_leading_zero(sol.rows()[u])
            } by {
                assert(self.multiplier@[l2 - 1 - u] is Fix);
                assert(mv * self.multiplier_digit(u) >= 1) by (nonlinear_arith)
                    requires
                        mv >= 1,
                        self.multiplier_digit(u) >= 1,
                ;
                lemma_digits_of_canonical(mv * self.multiplier_digit(u));
                assert(self.rows()[u] == self.partial_product@[u]@);
                assert(sol.rows()[u] == sol.partial_product@[u]@);
                assert(refines_row(sol.rows()[u], self.rows()[u]));
            }
            assert(sol.shape_ok());
        }
        let product = sol.calculate_product();
        proof {
            lemma_digits_of_canonical(shifted_sum(sol.rows(), sol.rows().len()));
        }
        let ghost cand = sol;
        if product.len() != self.product.len() || !accepts_low(&product, &self.product) {
            proof {
                assert forall|other: Mushikui| !(#[trigger] other.solves(*self)) by {
                    if other.solves(*self) {
                        assert forall|u: int| 0 <= u < l2 implies #[trigger] other.rows()[u]
                            == cand.rows()[u] by {
                            lemma_solution_rows(*self, other, u);
                        }
                        assert(other.rows() =~= cand.rows());
                        let n = self.product@.len();
                        assert(refines_row(other.product@, self.product@));
                        assert forall|t: int| 0 <= t < product@.len() && t < n implies (
                        #[trigger] self.product@[n - 1 - t]).accepts(
                            product@[product@.len() - 1 - t],
                        ) by {
                            assert(other.product@[n - 1 - t] == Digit::Fix(product@[n - 1 - t]));
                        }
                    }
                }
            }
            return;
        }
        let cells = fixed_cells(&product);
        sol.product = cells;
        proof {
            let n = self.product@.len();
            let total = shifted_sum(sol.rows(), sol.rows().len());
            assert forall|i: int| 0 <= i < n && (#[trigger] self.product@[i]) is Fix implies sol.product@[i]
                == self.product@[i] by {
                assert(self.product@[n - 1 - (n - 1 - i)].accepts(product@[n - 1 - (n - 1 - i)]));
            }
            lemma_digits_of_canonical(total);
            assert(product@[0] != 0);
            assert(sol.multiplier@[0] == self.multiplier@[l2 - 1 - (l2 - 1)]);
            assert(sol.multiplicand_value() == mv);
            assert forall|u: int| 0 <= u < l2 implies #[trigger] self.multiplier_digit(u) >= 1
                && self.multiplier@[l2 - 1 - u] is Fix by {
            }
            assert forall|i: int| 0 <= i < l2 implies (#[trigger] sol.multiplier@[i]) is Fix by {
                assert(self.multiplier@[l2 - 1 - (l2 - 1 - i)] is Fix);
            }
            assert(sol.is_consistent());
            assert(sol.refines(*self));
        }
        let ghost start_len = result@.len();
        result.push(sol);
        proof {
            let last = result@.len() - 1;
            assert forall|other: Mushikui| #[trigger] other.solves(*self) implies has_solution(
                result@,
                start_len as int,
                other,
            ) by {
                assert forall|u: int| 0 <= u < l2 implies #[trigger] other.rows()[u]
                    == cand.rows()[u] by {
                    lemma_solution_rows(*self, other, u);
                }
                assert(other.rows() =~= cand.rows());
                lemma_solution_rows(*self, other, 0);
                assert(result@[last].same_cells(other));
            }
        }
    }
}

impl Mushikui {
    /// Tries every digit the cell admits for the `i`-th multiplicand digit
    /// from the right, pruning each by a pass over the multiplier; once the
    /// whole multiplicand is known, runs the pass that records solutions.
    /// The digits are tried in ascending order, so the results come in
    /// ascending order of that multiplicand digit.
    pub fn rec_multiplicand(&mut self, i: usize, result: &mut Vec<Mushikui>)
        requires
            old(self).search_ok(),
            i <= old(self).multiplicand@.len(),
            fixed_low(old(self).multiplicand@, i as int),
        ensures
            final(self).same_cells(*old(self)),
            extends_with_solutions(old(result)@, final(result)@, *old(self)),
            forall|sol: Mushikui| #[trigger] sol.solves(*old(self)) ==> has_solution(
                final(result)@,
                old(result)@.len() as int,
                sol,
            ),
            distinct_from(final(result)@, old(result)@.len() as int),
            i < old(self).multiplicand@.len() ==> sorted_by_multiplicand_cell(
                final(result)@,
                old(result)@.len() as int,
                old(self).multiplicand@.len() - 1 - i,
            ),
        decreases self.multiplicand@.len() + 1 - i, self.multiplier@.len() + 2,
    {
        let len = self.multiplicand.len();
        if i == len {
            self.rec_multiplier(i, 0, true, result);
            return;
        }
        let ghost start = *self;
        let ghost before = result@;
        let pos = len - i - 1;
        let mut d: u8 = 0;
        proof {
            assert forall|sol: Mushikui| #[trigger] sol.solves(start) implies sol.multiplicand@[
                pos as int
            ].wf() && sol.multiplicand@[pos as int] is Fix by {}
        }
        while d <= 9
            invariant
                start == *old(self),
                d <= 10,
                self.same_cells(start),
                start.search_ok(),
                len == start.multiplicand@.len(),
                i < len,
                pos == len - i - 1,
                fixed_low(start.multiplicand@, i as int),
                extends_with_solutions(before, result@, start),
                forall|sol: Mushikui|
                    #[trigger] sol.solves(start) && cell_value(sol.multiplicand@[pos as int]) < d
                        ==> has_solution(result@, before.len() as int, sol),
                distinct_from(result@, before.len() as int),
                sorted_by_multiplicand_cell(result@, before.len() as int, pos as int),
                forall|t: int|
                    before.len() <= t < result@.len() ==> (#[trigger] result@[t]).multiplicand@[pos as int] is Fix
                        && cell_value(result@[t].multiplicand@[pos as int]) < d,
            decreases 10 - d,
        {
            let old = self.multiplicand[pos];
            if !(d == 0 && i == len - 1) && old.accept(d) {
                let ghost mid_before = result@;
                self.multiplicand.set(pos, Digit::Fix(d));
                let ghost tried = *self;
                proof {
                    assert(self.rows() == start.rows());
                    assert forall|t: int| 0 <= t < i + 1 implies (#[trigger] self.multiplicand@[
                        self.multiplicand@.len() - 1 - t
                    ]) is Fix by {
                        if t < i {
                            assert(start.multiplicand@[len - 1 - t] is Fix);
                        }
                    }
                    assert(self.refines(start));
                }
                self.rec_multiplier(i, 0, false, result);
                proof {
                    assert forall|t: int| mid_before.len() <= t < result@.len() implies (
                    #[trigger] result@[t]).solves(start) by {
                        lemma_refines_trans(result@[t], tried, start);
                    }
                    assert forall|t: int| mid_before.len() <= t < result@.len() implies (
                    #[trigger] result@[t]).multiplicand@[pos as int] == Digit::Fix(d) by {
                        assert(refines_row(result@[t].multiplicand@, tried.multiplicand@));
                        assert(tried.multiplicand@[pos as int] is Fix);
                    }
                    assert forall|t1: int, t2: int|
                        before.len() <= t1 < t2 < result@.len() implies !(
                        #[trigger] result@[t1]).same_cells(#[trigger] result@[t2]) by {
                        if t1 < mid_before.len() && t2 >= mid_before.len() {
                            assert(result@[t1] == mid_before[t1]);
                            assert(result@[t2].multiplicand@[pos as int] == Digit::Fix(d));
                        } else if t2 < mid_before.len() {
                            assert(result@[t1] == mid_before[t1]);
                            assert(result@[t2] == mid_before[t2]);
                        }
                    }
                    assert forall|t1: int, t2: int|
                        before.len() <= t1 < t2 < result@.len() implies cell_value(
                        (#[trigger] result@[t1]).multiplicand@[pos as int]) <= cell_value(
                        (#[trigger] result@[t2]).multiplicand@[pos as int]) by {
                        if t2 >= mid_before.len() {
                            assert(result@[t2].multiplicand@[pos as int] == Digit::Fix(d));
                            if t1 < mid_before.len() {
                                assert(result@[t1] == mid_before[t1]);
                            } else {
                                assert(result@[t1].multiplicand@[pos as int] == Digit::Fix(d));
                            }
                        } else {
                            assert(result@[t1] == mid_before[t1]);
                            assert(result@[t2] == mid_before[t2]);
                        }
                    }
                    assert forall|t: int| before.len() <= t < result@.len() implies (
                    #[trigger] result@[t]).multiplicand@[pos as int] is Fix && cell_value(
                        result@[t].multiplicand@[pos as int],
                    ) < d + 1 by {
                        if t < mid_before.len() {
                            assert(result@[t] == mid_before[t]);
                        }
                    }
                    assert forall|sol: Mushikui|
                        #[trigger] sol.solves(start) && cell_value(sol.multiplicand@[pos as int])
                            < d + 1 implies has_solution(result@, before.len() as int, sol) by {
                        if cell_value(sol.multiplicand@[pos as int]) < d {
                            lemma_has_solution_kept(mid_before, result@, before.len() as int, sol);
                        } else {
                            assert(sol.multiplicand@[pos as int] is Fix);
                            assert(sol.refines(tried)) by {
                                assert forall|x: int|
                                    0 <= x < len && (#[trigger] tried.multiplicand@[x]) is Fix implies sol.multiplicand@[x]
                                    == tried.multiplicand@[x] by {
                                    if x != pos {
                                        assert(tried.multiplicand@[x] == start.multiplicand@[x]);
                                    }
                                }
                            }
                            assert(sol.solves(tried));
                            lemma_has_solution_widen(
                                result@,
                                before.len() as int,
                                mid_before.len() as int,
                                sol,
                            );
                        }
                    }
                }
                self.multiplicand.set(pos, old);
                assert(self.multiplicand@ =~= start.multiplicand@);
            } else {
                proof {
                    assert forall|sol: Mushikui|
                        #[trigger] sol.solves(start) && cell_value(sol.multiplicand@[pos as int])
                            < d + 1 implies has_solution(result@, before.len() as int, sol) by {
                        if cell_value(sol.multiplicand@[pos as int]) == d {
                            assert(sol.multiplicand@[pos as int] is Fix);
                            assert(start.multiplicand@[pos as int] == old);
                            assert(sol.multiplicand@[0] != Digit::Fix(0));
                        }
                    }
                }
            }
            d = d + 1;
        }
        proof {
            assert forall|sol: Mushikui| #[trigger] sol.solves(start) implies has_solution(
                result@,
                before.len() as int,
                sol,
            ) by {
                assert(sol.multiplicand@[pos as int].wf());
                assert(sol.multiplicand@[pos as int] is Fix);
            }
        }
    }

    /// Tries every nonzero digit the cell admits for the `j`-th multiplier
    /// digit from the right, keeping those whose product with the known right
    /// end of the multiplicand fits the partial-product row. In the pass
    /// before the multiplicand is complete (`last` false) a row whose cell
    /// above the `i`-th multiplicand digit is hidden gives nothing to check
    /// and is passed over, and a pass that gets through moves on to the next
    /// multiplicand digit. In the last pass the completed puzzle is checked
    /// and recorded. Where the row is not passed over, the results come in
    /// ascending order of the `j`-th multiplier digit.
    pub fn rec_multiplier(&mut self, i: usize, j: usize, last: bool, result: &mut Vec<Mushikui>)
        requires
            old(self).search_ok(),
            i <= old(self).multiplicand@.len(),
            j <= old(self).multiplier@.len(),
            last ==> i == old(self).multiplicand@.len(),
            !last ==> i < old(self).multiplicand@.len(),
            fixed_low(old(self).multiplicand@, if last { i as int } else { i + 1 }),
            last ==> old(self).multiplier_low_ok(j as int),
        ensures
            final(self).same_cells(*old(self)),
            extends_with_solutions(old(result)@, final(result)@, *old(self)),
            forall|sol: Mushikui| #[trigger] sol.solves(*old(self)) ==> has_solution(
                final(result)@,
                old(result)@.len() as int,
                sol,
            ),
            distinct_from(final(result)@, old(result)@.len() as int),
            j < old(self).multiplier@.len() && !old(self).skips(i as int, j as int, last)
                ==> sorted_by_multiplier_cell(
                final(result)@,
                old(result)@.len() as int,
                old(self).multiplier@.len() - 1 - j,
            ),
        decreases self.multiplicand@.len() + 1 - i, self.multiplier@.len() + 1 - j,
    {
        let len = self.multiplier.len();
        if j == len {
            if last {
                self.record_if_consistent(result);
            } else {
                self.rec_multiplicand(i + 1, result);
            }
            return;
        }
        assert(self.rows()[j as int] == self.partial_product@[j as int]@);
        if !last {
            let row = &self.partial_product[j];
            if row.len() > i && row[row.len() - i - 1].is_any() {
                self.rec_multiplier(i, j + 1, last, result);
                return;
            }
        }
        let ghost start = *self;
        let ghost before = result@;
        let pos = len - j - 1;
        let mut d: u8 = 1;
        while d <= 9
            invariant
                start == *old(self),
                1 <= d <= 10,
                self.same_cells(start),
                start.search_ok(),
                len == start.multiplier@.len(),
                j < len,
                pos == len - j - 1,
                i <= start.multiplicand@.len(),
                last ==> i == start.multiplicand@.len(),
                !last ==> i < start.multiplicand@.len(),
                fixed_low(start.multiplicand@, if last { i as int } else { i + 1 }),
                last ==> start.multiplier_low_ok(j as int),
                extends_with_solutions(before, result@, start),
                forall|sol: Mushikui|
                    #[trigger] sol.solves(start) && sol.multiplier_digit(j as int) < d
                        ==> has_solution(result@, before.len() as int, sol),
                distinct_from(result@, before.len() as int),
                sorted_by_multiplier_cell(result@, before.len() as int, pos as int),
                forall|t: int|
                    before.len() <= t < result@.len() ==> (#[trigger] result@[t]).multiplier@[pos as int] is Fix
                        && cell_value(result@[t].multiplier@[pos as int]) < d,
            decreases 10 - d,
        {
            let old_digit = self.multiplier[pos];
            if old_digit.accept(d) {
                let part = self.calculate_partial_product(d);
                assert(self.partial_product@.len() == self.rows().len());
                let old_part = copy_row(&self.partial_product[j]);
                assert(old_part@ == start.rows()[j as int]);
                if part.len() <= old_part.len() && accepts_low(&part, &old_part) {
                    let ghost mid_before = result@;
                    let new_part = overwrite_low(&old_part, &part);
                    self.multiplier.set(pos, Digit::Fix(d));
                    self.partial_product.set(j, new_part);
                    let ghost tried = *self;
                    proof {
                        let n = old_part@.len();
                        let p = part@.len();
                        assert forall|x: int| 0 <= x < n && (#[trigger] old_part@[x]) is Fix
                            implies new_part@[x] == old_part@[x] by {
                            if x >= n - p {
                                assert(old_part@[n - 1 - (n - 1 - x)].accepts(
                                    part@[p - 1 - (n - 1 - x)],
                                ));
                            }
                        }
                        assert forall|u: int| 0 <= u < len && u != j implies #[trigger] self.rows()[u]
                            == start.rows()[u] by {
                            assert(self.rows()[u] == self.partial_product@[u]@);
                        }
                        assert forall|u: int| 0 <= u < self.rows().len() implies refines_row(
                            #[trigger] self.rows()[u],
                            start.rows()[u],
                        ) by {
                            if u == j {
                                assert(self.rows()[u] == new_part@);
                            } else {
                                assert(self.rows()[u] == start.rows()[u]);
                            }
                        }
                        assert(self.refines(start));
                        assert forall|u: int| 0 <= u < len implies {
                            &&& 1 <= #[trigger] self.rows()[u].len() <= start.multiplicand@.len() + 1
                            &&& cells_wf(self.rows()[u])
                        } by {
                            if u == j {
                                assert(self.rows()[u] == new_part@);
                                assert forall|x: int| 0 <= x < n implies (#[trigger] new_part@[x]).wf() by {
                                    if x >= n - p {
                                        assert(part@[x - (n - p)] <= 9);
                                    } else {
                                        assert(old_part@[x] == start.rows()[u][x]);
                                    }
                                }
                            }
                        }
                        assert(self.search_ok());
                        if last {
                            assert forall|t: int| 0 <= t < j + 1 implies (#[trigger] self.multiplier@[
                                self.multiplier@.len() - 1 - t
                            ]) is Fix && self.multiplier_digit(t) >= 1 by {
                                if t < j {
                                    assert(start.multiplier@[len - 1 - t] is Fix);
                                }
                            }
                        }
                    }
                    self.rec_multiplier(i, j + 1, last, result);
                    proof {
                        assert forall|t: int| mid_before.len() <= t < result@.len() implies (
                        #[trigger] result@[t]).solves(start) by {
                            lemma_refines_trans(result@[t], tried, start);
                        }
                        assert forall|t: int| mid_before.len() <= t < result@.len() implies (
                        #[trigger] result@[t]).multiplier@[pos as int] == Digit::Fix(d) by {
                            assert(refines_row(result@[t].multiplier@, tried.multiplier@));
                            assert(tried.multiplier@[pos as int] is Fix);
                        }
                        assert forall|t1: int, t2: int|
                            before.len() <= t1 < t2 < result@.len() implies !(
                            #[trigger] result@[t1]).same_cells(#[trigger] result@[t2]) by {
                            if t1 < mid_before.len() && t2 >= mid_before.len() {
                                assert(result@[t1] == mid_before[t1]);
                                assert(result@[t2].multiplier@[pos as int] == Digit::Fix(d));
                            } else if t2 < mid_before.len() {
                                assert(result@[t1] == mid_before[t1]);
                                assert(result@[t2] == mid_before[t2]);
                            }
                        }
                        assert forall|t1: int, t2: int|
                            before.len() <= t1 < t2 < result@.len() implies cell_value(
                            (#[trigger] result@[t1]).multiplier@[pos as int]) <= cell_value(
                            (#[trigger] result@[t2]).multiplier@[pos as int]) by {
                            if t2 >= mid_before.len() {
                                assert(result@[t2].multiplier@[pos as int] == Digit::Fix(d));
                                if t1 < mid_before.len() {
                                    assert(result@[t1] == mid_before[t1]);
                                } else {
                                    assert(result@[t1].multiplier@[pos as int] == Digit::Fix(d));
                                }
                            } else {
                                assert(result@[t1] == mid_before[t1]);
                                assert(result@[t2] == mid_before[t2]);
                            }
                        }
                        assert forall|t: int| before.len() <= t < result@.len() implies (
                        #[trigger] result@[t]).multiplier@[pos as int] is Fix && cell_value(
                            result@[t].multiplier@[pos as int],
                        ) < d + 1 by {
                            if t < mid_before.len() {
                                assert(result@[t] == mid_before[t]);
                            }
                        }
                        assert forall|sol: Mushikui|
                            #[trigger] sol.solves(start) && sol.multiplier_digit(j as int) < d + 1
                                implies has_solution(result@, before.len() as int, sol) by {
                            if sol.multiplier_digit(j as int) < d {
                                lemma_has_solution_kept(mid_before, result@, before.len() as int, sol);
                            } else {
                                lemma_row_of_solution(start, sol, j as int);
                                let n = old_part@.len();
                                let p = part@.len();
                                let srow = sol.rows()[j as int];
                                assert(refines_row(srow, old_part@));
                                assert forall|x: int|
                                    0 <= x < n && (#[trigger] new_part@[x]) is Fix implies srow[x]
                                    == new_part@[x] by {
                                    if x >= n - p {
                                        assert(srow[n - 1 - (n - 1 - x)] == Digit::Fix(
                                            part@[p - 1 - (n - 1 - x)],
                                        ));
                                    }
                                }
                                assert(sol.multiplier@[pos as int] is Fix);
                                assert forall|u: int| 0 <= u < len implies refines_row(
                                    #[trigger] sol.rows()[u],
                                    tried.rows()[u],
                                ) by {
                                    if u == j {
                                        assert(tried.rows()[u] == new_part@);
                                    } else {
                                        assert(tried.rows()[u] == start.rows()[u]);
                                    }
                                }
                                assert forall|x: int|
                                    0 <= x < len && (#[trigger] tried.multiplier@[x]) is Fix implies sol.multiplier@[x]
                                    == tried.multiplier@[x] by {
                                    if x != pos {
                                        assert(tried.multiplier@[x] == start.multiplier@[x]);
                                    }
                                }
                                assert(sol.refines(tried));
                                assert(sol.solves(tried));
                                lemma_has_solution_widen(
                                    result@,
                                    before.len() as int,
                                    mid_before.len() as int,
                                    sol,
                                );
                            lemma_has_solution_widen(
                                result@,
                                before.len() as int,
                                mid_before.len() as int,
                                sol,
                            );
                            }
                        }
                    }
                    self.multiplier.set(pos, old_digit);
                    self.partial_product.set(j, old_part);
                    assert(self.multiplier@ =~= start.multiplier@);
                    assert forall|u: int| 0 <= u < len implies #[trigger] self.rows()[u]
                        == start.rows()[u] by {
                        assert(self.rows()[u] == self.partial_product@[u]@);
                        if u != j {
                            assert(tried.rows()[u] == start.rows()[u]);
                        }
                    }
                    assert(self.rows() =~= start.rows());
                } else {
                    proof {
                        assert forall|sol: Mushikui|
                            #[trigger] sol.solves(start) && sol.multiplier_digit(j as int) < d + 1
                                implies has_solution(result@, before.len() as int, sol) by {
                            if sol.multiplier_digit(j as int) == d {
                                lemma_row_of_solution(start, sol, j as int);
                                let n = old_part@.len();
                                let srow = sol.rows()[j as int];
                                assert(refines_row(srow, old_part@));
                                assert forall|t: int| 0 <= t < part@.len() && t < n implies (
                                #[trigger] old_part@[n - 1 - t]).accepts(
                                    part@[part@.len() - 1 - t],
                                ) by {
                                    assert(srow[n - 1 - t] == Digit::Fix(
                                        part@[part@.len() - 1 - t],
                                    ));
                                }
                            }
                        }
                    }
                }
            } else {
                proof {
                    assert forall|sol: Mushikui|
                        #[trigger] sol.solves(start) && sol.multiplier_digit(j as int) < d + 1
                            implies has_solution(result@, before.len() as int, sol) by {
                        if sol.multiplier_digit(j as int) == d {
                            assert(sol.multiplier@[pos as int] is Fix);
                            assert(start.multiplier@[pos as int] == old_digit);
                        }
                    }
                }
            }
            d = d + 1;
        }
        proof {
            assert forall|sol: Mushikui| #[trigger] sol.solves(start) implies has_solution(
                result@,
                before.len() as int,
                sol,
            ) by {
                assert(sol.multiplier@[pos as int] is Fix);
                assert(sol.multiplier@[pos as int].wf());
            }
        }
    }

    /// Every solution of the puzzle: each way to fill in the hidden cells so
    /// that the multiplication holds. Each result is a solution, each
    /// solution is among the results exactly once, and the results come in
    /// ascending order of the multiplicand's last digit.
    pub fn solve(&mut self) -> (r: Vec<Mushikui>)
        requires
            old(self).wf(),
        ensures
            final(self).same_cells(*old(self)),
            forall|t: int| 0 <= t < r@.len() ==> (#[trigger] r@[t]).solves(*old(self)),
            forall|sol: Mushikui| #[trigger] sol.solves(*old(self)) ==> has_solution(r@, 0, sol),
            distinct_from(r@, 0),
            sorted_by_multiplicand_cell(r@, 0, old(self).multiplicand@.len() - 1),
    {
        let mut result: Vec<Mushikui> = Vec::new();
        self.rec_multiplicand(0, &mut result);
        result
    }
}

impl Mushikui {
    /// Every cell of every row is known.
    pub open spec fn fully_known(self) -> bool {
        &&& all_fixed(self.multiplicand@)
        &&& all_fixed(self.multiplier@)
        &&& all_fixed(self.product@)
        &&& forall|j: int| 0 <= j < self.rows().len() ==> all_fixed(#[trigger] self.rows()[j])
    }
}

/// A puzzle without hidden cells has no solution but itself: a solution of
/// it has the very same cells, and exists only if the puzzle holds.
pub proof fn lemma_known_puzzle_solutions(puzzle: Mushikui, sol: Mushikui)
    requires
        puzzle.fully_known(),
        sol.solves(puzzle),
    ensures
        sol.same_cells(puzzle),
        puzzle.is_consistent(),
{
    assert(sol.multiplicand@ =~= puzzle.multiplicand@);
    assert(sol.multiplier@ =~= puzzle.multiplier@);
    assert(sol.product@ =~= puzzle.product@);
    assert forall|j: int| 0 <= j < puzzle.rows().len() implies #[trigger] sol.rows()[j]
        == puzzle.rows()[j] by {
        assert(refines_row(sol.rows()[j], puzzle.rows()[j]));
        assert(sol.rows()[j] =~= puzzle.rows()[j]);
    }
    assert(sol.rows() =~= puzzle.rows());
    assert(puzzle.shape_ok());
    assert(puzzle.wf());
    assert(puzzle.multiplicand_value() == sol.multiplicand_value());
    assert forall|j: int| 0 <= j < puzzle.multiplier@.len() implies #[trigger] puzzle.multiplier_digit(j)
        == sol.multiplier_digit(j) by {}
    assert forall|j: int| 0 <= j < puzzle.rows().len() implies #[trigger] puzzle.rows()[j]
        == fixed_row(digits_of(puzzle.multiplicand_value() * puzzle.multiplier_digit(j))) by {
        assert(sol.rows()[j] == fixed_row(
            digits_of(sol.multiplicand_value() * sol.multiplier_digit(j)),
        ));
    }
}

/// The cells that `resolved_len` counts are known.
proof fn lemma_resolved_fixed(m: Seq<Digit>)
    ensures
        resolved_len(m) <= m.len(),
        fixed_low(m, resolved_len(m) as int),
    decreases m.len(),
{
    if m.len() > 0 && m.last() is Fix {
        let u = m.drop_last();
        lemma_resolved_fixed(u);
        assert forall|t: int| 0 <= t < resolved_len(m) implies (#[trigger] m[m.len() - 1 - t]) is Fix by {
            if t > 0 {
                assert(m[m.len() - 1 - t] == u[u.len() - 1 - (t - 1)]);
            }
        }
    }
}

/// What the search computes for a multiplier digit of a solution, from the
/// known right end of the multiplicand, is the right end of that solution's
/// partial product.
proof fn lemma_row_of_solution(start: Mushikui, sol: Mushikui, j: int)
    requires
        start.search_ok(),
        sol.solves(start),
        0 <= j < start.multiplier@.len(),
    ensures
        partial_product_of(start.multiplicand@, sol.multiplier_digit(j)).len()
            <= sol.rows()[j].len(),
        forall|t: int|
            0 <= t < partial_product_of(start.multiplicand@, sol.multiplier_digit(j)).len()
                ==> #[trigger] sol.rows()[j][sol.rows()[j].len() - 1 - t] == Digit::Fix(
                partial_product_of(start.multiplicand@, sol.multiplier_digit(j))[partial_product_of(
                    start.multiplicand@,
                    sol.multiplier_digit(j),
                ).len() - 1 - t],
            ),
{
    let m = start.multiplicand@;
    let l1 = m.len();
    let k = resolved_len(m);
    lemma_resolved_fixed(m);
    let sm = sol.multiplicand@;
    let s = cells_as_digits(sm);
    let mv = sol.multiplicand_value();
    let e = sol.multiplier_digit(j);
    let l2 = sol.multiplier@.len();
    assert(sol.multiplier@[l2 - 1 - j] is Fix);
    assert(e >= 1);
    assert(sol.multiplier@[l2 - 1 - j].wf());
    assert(e <= 9);
    assert(is_digits(s)) by {
        assert forall|i: int| 0 <= i < s.len() implies s[i] <= 9 by {
            assert(sm[i] is Fix && sm[i].wf());
        }
    }
    assert(sm[0] is Fix);
    assert(s[0] != 0);
    lemma_value_lower(s);
    assert(mv * e >= mv) by (nonlinear_arith)
        requires
            e >= 1,
    ;
    let r = digits_of(mv * e);
    lemma_digits_of_len(mv * e, (l1 - 1) as nat);
    lemma_value_digits_of(mv * e);
    assert(sol.rows()[j] == fixed_row(r));
    let low = low_digits(m, k);
    assert(low =~= s.subrange(l1 - k, l1 as int)) by {
        assert forall|i: int| 0 <= i < k implies low[i] == s[l1 - k + i] by {
            let idx = l1 - k + i;
            assert(m[m.len() - 1 - (l1 - 1 - idx)] is Fix);
            assert(refines_row(sm, m));
        }
    }
    let part = partial_product_of(m, e);
    if k == l1 {
        assert(s.subrange(0, l1 as int) =~= s);
        assert(part == r);
    } else {
        let p = pow10(k);
        lemma_pow10_pos(k);
        lemma_value_mod(s, k);
        let v = value(low);
        assert(v == mv % p);
        vstd::arithmetic::div_mod::lemma_mul_mod_noop_left(mv as int, e as int, p as int);
        assert((v * e) % p == (mv * e) % p);
        let rs = r.subrange(r.len() - k, r.len() as int);
        lemma_value_mod(r, k);
        lemma_low_digits(rs);
        assert(part == rs);
        assert forall|t: int| 0 <= t < part.len() implies #[trigger] part[part.len() - 1 - t]
            == r[r.len() - 1 - t] by {}
    }
}

proof fn lemma_fixed_row_digits(s: Seq<u8>)
    ensures
        cells_as_digits(fixed_row(s)) == s,
{
    assert(cells_as_digits(fixed_row(s)) =~= s);
}

/// The partial products of the `n` rightmost multiplier digits sum to the
/// multiplicand times the number those digits write.
proof fn lemma_partial_sum(p: Mushikui, n: nat)
    requires
        p.is_consistent(),
        n <= p.multiplier@.len(),
    ensures
        shifted_sum(p.rows(), n) == p.multiplicand_value() * value(
            cells_as_digits(p.multiplier@).subrange(p.multiplier@.len() - n, p.multiplier@.len() as int),
        ),
    decreases n,
{
    let b = cells_as_digits(p.multiplier@);
    let l2 = p.multiplier@.len();
    let mv = p.multiplicand_value();
    if n == 0 {
        assert(b.subrange(l2 as int, l2 as int) =~= Seq::<u8>::empty());
        assert(mv * 0 == 0);
    } else {
        let k = (n - 1) as nat;
        lemma_partial_sum(p, k);
        let low = b.subrange(l2 - k, l2 as int);
        let e = b[l2 - n];
        assert(b.subrange(l2 - n, l2 as int) =~= seq![e] + low);
        lemma_value_prepend(e, low);
        assert(e as nat == p.multiplier_digit(k as int));
        let x = mv * p.multiplier_digit(k as int);
        assert(p.rows()[k as int] == fixed_row(digits_of(x)));
        lemma_fixed_row_digits(digits_of(x));
        lemma_value_digits_of(x);
        assert(row_value(p.rows()[k as int]) == x);
        assert(mv * value(low) + mv * e as nat * pow10(k) == mv * (e as nat * pow10(k) + value(low)))
            by (nonlinear_arith);
    }
}

/// In a consistent puzzle the product is the multiplicand times the multiplier.
pub proof fn lemma_product_is_multiplicand_times_multiplier(p: Mushikui)
    requires
        p.is_consistent(),
    ensures
        value(cells_as_digits(p.product@)) == p.multiplicand_value() * value(
            cells_as_digits(p.multiplier@),
        ),
{
    let l2 = p.multiplier@.len();
    lemma_partial_sum(p, l2);
    assert(cells_as_digits(p.multiplier@).subrange(0, l2 as int) =~= cells_as_digits(p.multiplier@));
    let total = shifted_sum(p.rows(), p.rows().len());
    lemma_fixed_row_digits(digits_of(total));
    lemma_value_digits_of(total);
}

/// What `solve` returns is exactly the solution set: a puzzle solves it if
/// and only if some result has its cells.
pub proof fn lemma_results_are_the_solutions(puzzle: Mushikui, results: Seq<Mushikui>)
    requires
        forall|t: int| 0 <= t < results.len() ==> (#[trigger] results[t]).solves(puzzle),
        forall|sol: Mushikui| #[trigger] sol.solves(puzzle) ==> has_solution(results, 0, sol),
    ensures
        forall|sol: Mushikui| #[trigger] sol.solves(puzzle) <==> has_solution(results, 0, sol),
{
    assert forall|sol: Mushikui| has_solution(results, 0, sol) implies #[trigger] sol.solves(
        puzzle,
    ) by {
        let t = choose|t: int| 0 <= t < results.len() && (#[trigger] results[t]).same_cells(sol);
        let r = results[t];
        assert(r.solves(puzzle));
        assert(sol.multiplicand_value() == r.multiplicand_value());
        assert forall|j: int| 0 <= j < sol.multiplier@.len() implies #[trigger] sol.multiplier_digit(j)
            == r.multiplier_digit(j) by {}
        assert forall|j: int| 0 <= j < sol.rows().len() implies refines_row(
            #[trigger] sol.rows()[j],
            puzzle.rows()[j],
        ) by {
            assert(refines_row(r.rows()[j], puzzle.rows()[j]));
        }
        assert forall|j: int| 0 <= j < sol.rows().len() implies #[trigger] sol.rows()[j]
            == fixed_row(digits_of(sol.multiplicand_value() * sol.multiplier_digit(j))) by {
            assert(r.rows()[j] == fixed_row(digits_of(r.multiplicand_value() * r.multiplier_digit(j))));
        }
    }
}

/// Solving a puzzle without hidden cells gives back that puzzle as the one
/// result if it holds, and nothing if it does not.
pub proof fn lemma_solve_known_puzzle(puzzle: Mushikui, results: Seq<Mushikui>)
    requires
        puzzle.wf(),
        puzzle.fully_known(),
        forall|t: int| 0 <= t < results.len() ==> (#[trigger] results[t]).solves(puzzle),
        forall|sol: Mushikui| #[trigger] sol.solves(puzzle) ==> has_solution(results, 0, sol),
        distinct_from(results, 0),
    ensures
        forall|t: int| 0 <= t < results.len() ==> (#[trigger] results[t]).same_cells(puzzle),
        puzzle.is_consistent() ==> results.len() == 1,
        !puzzle.is_consistent() ==> results.len() == 0,
{
    if results.len() >= 2 {
        lemma_known_puzzle_solutions(puzzle, results[0]);
        lemma_known_puzzle_solutions(puzzle, results[1]);
        assert(results[0].same_cells(results[1]));
    }
    assert forall|t: int| 0 <= t < results.len() implies (#[trigger] results[t]).same_cells(
        puzzle,
    ) by {
        lemma_known_puzzle_solutions(puzzle, results[t]);
    }
    if results.len() > 0 {
        lemma_known_puzzle_solutions(puzzle, results[0]);
    }
    if puzzle.is_consistent() {
        assert(puzzle.refines(puzzle));
        assert(puzzle.solves(puzzle));
    }
}

/// A known multiplicand that does not open with zero is at least one.
proof fn lemma_multiplicand_positive(m: Seq<Digit>)
    requires
        m.len() > 0,
        cells_wf(m),
        no_leading_zero(m),
        fixed_low(m, m.len() as int),
    ensures
        value(cells_as_digits(m)) >= 1,
        all_fixed(m),
{
    assert forall|i: int| 0 <= i < m.len() implies (#[trigger] m[i]) is Fix && m[i].wf() by {
        assert(m[m.len() - 1 - (m.len() - 1 - i)] is Fix);
    }
    assert(m[m.len() - 1 - (m.len() - 1)] is Fix);
    lemma_value_lower(cells_as_digits(m));
    crate::arith::lemma_pow10_pos((m.len() - 1) as nat);
}

/// The decimal digits of a positive number open with a nonzero digit.
proof fn lemma_digits_of_canonical(n: nat)
    ensures
        canonical(digits_of(n)),
        n >= 1 ==> digits_of(n).len() >= 1,
    decreases n,
{
    if n > 0 {
        lemma_digits_of_canonical(n / 10);
        if n / 10 == 0 {
            assert(digits_of(n / 10) =~= Seq::<u8>::empty());
        }
    }
}

} // verus!
