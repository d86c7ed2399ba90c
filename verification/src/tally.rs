//! Matrices of hop distances and what is counted over them.
//!
//! A matrix is a sequence of rows; an entry is `Some(d)` for a distance of `d`
//! hops and `None` where there is none to count.

use vstd::prelude::*;

verus! {

/// What a cutoff leaves of an entry: a distance of at least one hop and at
/// most `cutoff` hops stays, anything else becomes `None`.
pub open spec fn keep(entry: Option<u32>, cutoff: u32) -> Option<u32> {
    match entry {
        Some(d) => if 0 < d <= cutoff {
            Some(d)
        } else {
            None
        },
        None => None,
    }
}

/// The matrix with `keep` applied to every entry.
pub open spec fn filtered(m: Seq<Seq<Option<u32>>>, cutoff: u32) -> Seq<Seq<Option<u32>>> {
    Seq::new(m.len(), |i: int| Seq::new(m[i].len(), |j: int| keep(m[i][j], cutoff)))
}

/// The rows of a matrix held in vectors.
pub open spec fn matrix_view(m: Vec<Vec<Option<u32>>>) -> Seq<Seq<Option<u32>>> {
    Seq::new(m.len() as nat, |i: int| m[i]@)
}

/// `m` has `n` rows of `n` entries each.
pub open spec fn square(m: Seq<Seq<Option<u32>>>, n: nat) -> bool {
    m.len() == n && forall|i: int| 0 <= i < n ==> (#[trigger] m[i]).len() == n
}

/// A fraction of two natural numbers.
#[derive(Debug, Clone, Copy, PartialEq, Eq, Structural)]
pub struct Fraction {
    pub numerator: u128,
    pub denominator: u128,
}

impl View for Fraction {
    type V = (nat, nat);

    /// Numerator and denominator as natural numbers.
    open spec fn view(&self) -> (nat, nat) {
        (self.numerator as nat, self.denominator as nat)
    }
}

/// The sum of the weights of the entries of a row.
pub open spec fn row_total(row: Seq<Option<u32>>, weight: spec_fn(Option<u32>) -> nat) -> nat
    decreases row.len(),
{
    if row.len() == 0 {
        0
    } else {
        row_total(row.drop_last(), weight) + weight(row.last())
    }
}

/// The sum of the weights of the entries of a matrix.
pub open spec fn total(m: Seq<Seq<Option<u32>>>, weight: spec_fn(Option<u32>) -> nat) -> nat
    decreases m.len(),
{
    if m.len() == 0 {
        0
    } else {
        total(m.drop_last(), weight) + row_total(m.last(), weight)
    }
}

/// The weight that counts every entry.
pub open spec fn each() -> spec_fn(Option<u32>) -> nat {
    |entry: Option<u32>| 1nat
}

/// The weight that counts the entries that hold a distance.
pub open spec fn present() -> spec_fn(Option<u32>) -> nat {
    |entry: Option<u32>| if entry is Some { 1nat } else { 0nat }
}

/// The weight that gives each distance its number of hops.
pub open spec fn length() -> spec_fn(Option<u32>) -> nat {
    |entry: Option<u32>|
        match entry {
            Some(d) => d as nat,
            None => 0nat,
        }
}

/// The weight that counts the entries that hold the distance `d`.
pub open spec fn equal_to(d: u32) -> spec_fn(Option<u32>) -> nat {
    |entry: Option<u32>| if entry == Some(d) { 1nat } else { 0nat }
}

/// The number of entries of `m`.
pub open spec fn entries(m: Seq<Seq<Option<u32>>>) -> nat {
    total(m, each())
}

/// The number of entries of `m` that hold a distance.
pub open spec fn count_present(m: Seq<Seq<Option<u32>>>) -> nat {
    total(m, present())
}

/// The sum of the distances that `m` holds.
pub open spec fn sum_present(m: Seq<Seq<Option<u32>>>) -> nat {
    total(m, length())
}

/// The number of entries of `m` that hold the distance `d`.
pub open spec fn occurrences(m: Seq<Seq<Option<u32>>>, d: u32) -> nat {
    total(m, equal_to(d))
}

/// Numerator and denominator of the mean of the distances that `m` holds;
/// zero over one where it holds none.
pub open spec fn mean_of(m: Seq<Seq<Option<u32>>>) -> (nat, nat) {
    if count_present(m) == 0 {
        (0, 1)
    } else {
        (sum_present(m), count_present(m))
    }
}

/// Numerator and denominator of the percentage of the entries of `m` that
/// hold a distance; zero over one where `m` has no entry.
pub open spec fn coverage_of(m: Seq<Seq<Option<u32>>>) -> (nat, nat) {
    if entries(m) == 0 {
        (0, 1)
    } else {
        (100 * count_present(m), entries(m))
    }
}

/// `r` is the largest distance that `m` holds, or zero where it holds none.
pub open spec fn is_max_of(m: Seq<Seq<Option<u32>>>, r: u32) -> bool {
    &&& forall|i: int, j: int|
        0 <= i < m.len() && 0 <= j < m[i].len() && (#[trigger] m[i][j]) is Some ==> m[i][j]->0 <= r
    &&& r == 0 || exists|i: int, j: int|
        0 <= i < m.len() && 0 <= j < m[i].len() && #[trigger] m[i][j] == Some(r)
}

/// `r` is the distance that `m` holds most often, the smallest of them where
/// several occur equally often, or zero where `m` holds none.
pub open spec fn is_mode_of(m: Seq<Seq<Option<u32>>>, r: u32) -> bool {
    if count_present(m) == 0 {
        r == 0
    } else {
        &&& occurrences(m, r) > 0
        &&& forall|d: u32| #[trigger] occurrences(m, d) <= occurrences(m, r)
        &&& forall|d: u32| d < r ==> #[trigger] occurrences(m, d) < occurrences(m, r)
    }
}

/// The total of a row grows by the weight of each further entry.
pub proof fn lemma_row_total_step(row: Seq<Option<u32>>, weight: spec_fn(Option<u32>) -> nat, j: int)
    requires
        0 <= j < row.len(),
    ensures
        row_total(row.take(j + 1), weight) == row_total(row.take(j), weight) + weight(row[j]),
{
    assert(row.take(j + 1).drop_last() == row.take(j));
}

/// The total of a matrix grows by the total of each further row.
pub proof fn lemma_total_step(m: Seq<Seq<Option<u32>>>, weight: spec_fn(Option<u32>) -> nat, i: int)
    requires
        0 <= i < m.len(),
    ensures
        total(m.take(i + 1), weight) == total(m.take(i), weight) + row_total(m[i], weight),
{
    assert(m.take(i + 1).drop_last() == m.take(i));
}

/// Where no entry of one row weighs more than the entry in its place in
/// another, the first row's total is at most the second's.
pub proof fn lemma_row_total_monotonic(
    a: Seq<Option<u32>>,
    v: spec_fn(Option<u32>) -> nat,
    b: Seq<Option<u32>>,
    w: spec_fn(Option<u32>) -> nat,
)
    requires
        a.len() == b.len(),
        forall|j: int| 0 <= j < a.len() ==> v(#[trigger] a[j]) <= w(b[j]),
    ensures
        row_total(a, v) <= row_total(b, w),
    decreases a.len(),
{
    if a.len() > 0 {
        assert(v(a[a.len() - 1]) <= w(b[a.len() - 1]));
        lemma_row_total_monotonic(a.drop_last(), v, b.drop_last(), w);
    }
}

/// Where no entry of one matrix weighs more than the entry in its place in
/// another, the first matrix's total is at most the second's.
pub proof fn lemma_total_monotonic(
    a: Seq<Seq<Option<u32>>>,
    v: spec_fn(Option<u32>) -> nat,
    b: Seq<Seq<Option<u32>>>,
    w: spec_fn(Option<u32>) -> nat,
)
    requires
        a.len() == b.len(),
        forall|i: int| 0 <= i < a.len() ==> (#[trigger] a[i]).len() == b[i].len(),
        forall|i: int, j: int|
            0 <= i < a.len() && 0 <= j < a[i].len() ==> v(#[trigger] a[i][j]) <= w(b[i][j]),
    ensures
        total(a, v) <= total(b, w),
    decreases a.len(),
{
    if a.len() > 0 {
        let i = a.len() - 1;
        assert(a[i].len() == b[i].len());
        assert forall|j: int| 0 <= j < a[i].len() implies v(#[trigger] a[i][j]) <= w(b[i][j]) by {}
        lemma_row_total_monotonic(a.last(), v, b.last(), w);
        assert forall|k: int| 0 <= k < a.drop_last().len() implies (#[trigger] a.drop_last()[k]).len()
            == b.drop_last()[k].len() by {
            assert(a[k].len() == b[k].len());
        }
        assert forall|k: int, j: int|
            0 <= k < a.drop_last().len() && 0 <= j < a.drop_last()[k].len() implies v(
            #[trigger] a.drop_last()[k][j],
        ) <= w(b.drop_last()[k][j]) by {
            assert(v(a[k][j]) <= w(b[k][j]));
        }
        lemma_total_monotonic(a.drop_last(), v, b.drop_last(), w);
    }
}

/// A row whose total is positive has an entry of positive weight.
pub proof fn lemma_row_total_positive(row: Seq<Option<u32>>, weight: spec_fn(Option<u32>) -> nat) -> (j: int)
    requires
        row_total(row, weight) > 0,
    ensures
        0 <= j < row.len(),
        weight(row[j]) > 0,
    decreases row.len(),
{
    if weight(row.last()) > 0 {
        row.len() - 1
    } else {
        lemma_row_total_positive(row.drop_last(), weight)
    }
}

/// A matrix whose total is positive has an entry of positive weight.
pub proof fn lemma_total_positive(m: Seq<Seq<Option<u32>>>, weight: spec_fn(Option<u32>) -> nat) -> (at: (
    int,
    int,
))
    requires
        total(m, weight) > 0,
    ensures
        0 <= at.0 < m.len(),
        0 <= at.1 < m[at.0].len(),
        weight(m[at.0][at.1]) > 0,
    decreases m.len(),
{
    if row_total(m.last(), weight) > 0 {
        let j = lemma_row_total_positive(m.last(), weight);
        (m.len() - 1, j)
    } else {
        lemma_total_positive(m.drop_last(), weight)
    }
}

/// The total of a row is at least the weight of any one entry.
pub proof fn lemma_row_total_covers(row: Seq<Option<u32>>, weight: spec_fn(Option<u32>) -> nat, j: int)
    requires
        0 <= j < row.len(),
    ensures
        row_total(row, weight) >= weight(row[j]),
    decreases row.len(),
{
    if j < row.len() - 1 {
        lemma_row_total_covers(row.drop_last(), weight, j);
    }
}

/// The total of a matrix is at least the weight of any one entry.
pub proof fn lemma_total_covers(
    m: Seq<Seq<Option<u32>>>,
    weight: spec_fn(Option<u32>) -> nat,
    i: int,
    j: int,
)
    requires
        0 <= i < m.len(),
        0 <= j < m[i].len(),
    ensures
        total(m, weight) >= weight(m[i][j]),
    decreases m.len(),
{
    if i < m.len() - 1 {
        lemma_total_covers(m.drop_last(), weight, i, j);
    } else {
        lemma_row_total_covers(m.last(), weight, j);
    }
}

/// A row of `n` entries has `n` entries.
pub proof fn lemma_row_entries(row: Seq<Option<u32>>)
    ensures
        row_total(row, each()) == row.len(),
    decreases row.len(),
{
    if row.len() > 0 {
        lemma_row_entries(row.drop_last());
    }
}

/// A matrix of `rows` rows of `n` entries each has `rows * n` entries.
pub proof fn lemma_entries(m: Seq<Seq<Option<u32>>>, n: nat)
    requires
        forall|i: int| 0 <= i < m.len() ==> (#[trigger] m[i]).len() == n,
    ensures
        entries(m) == m.len() * n,
    decreases m.len(),
{
    if m.len() > 0 {
        lemma_row_entries(m.last());
        assert(m[m.len() - 1].len() == n);
        assert forall|i: int| 0 <= i < m.drop_last().len() implies (#[trigger] m.drop_last()[i]).len()
            == n by {
            assert(m[i].len() == n);
        }
        lemma_entries(m.drop_last(), n);
        assert(m.len() * n == (m.len() - 1) * n + n) by (nonlinear_arith);
    } else {
        assert(m.len() * n == 0) by (nonlinear_arith)
            requires
                m.len() == 0,
        ;
    }
}

/// A cutoff changes the number of entries of no row and of no matrix.
pub proof fn lemma_filtered_entries(m: Seq<Seq<Option<u32>>>, cutoff: u32)
    ensures
        entries(filtered(m, cutoff)) == entries(m),
{
    lemma_total_monotonic(filtered(m, cutoff), each(), m, each());
    lemma_total_monotonic(m, each(), filtered(m, cutoff), each());
}

/// What a cutoff keeps is neither zero nor above the cutoff.
pub proof fn lemma_filtered_within(m: Seq<Seq<Option<u32>>>, cutoff: u32, i: int, j: int)
    requires
        0 <= i < m.len(),
        0 <= j < m[i].len(),
    ensures
        match filtered(m, cutoff)[i][j] {
            Some(d) => 0 < d <= cutoff && m[i][j] == Some(d),
            None => true,
        },
{
}

/// Raising the cutoff never lowers the coverage: a pair that counts at a
/// cutoff counts at every higher one, and the number of entries stays.
pub proof fn lemma_coverage_monotonic(m: Seq<Seq<Option<u32>>>, low: u32, high: u32)
    requires
        low <= high,
    ensures
        count_present(filtered(m, low)) <= count_present(filtered(m, high)),
        coverage_of(filtered(m, low)).0 <= coverage_of(filtered(m, high)).0,
        coverage_of(filtered(m, low)).1 == coverage_of(filtered(m, high)).1,
{
    lemma_filtered_entries(m, low);
    lemma_filtered_entries(m, high);
    lemma_total_monotonic(filtered(m, low), present(), filtered(m, high), present());
}

} // verus!
