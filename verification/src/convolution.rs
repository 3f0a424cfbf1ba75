//! Convolution of runs of weights: the weights of the sum of two independent variables.

use vstd::prelude::*;

verus! {

/// The sum of the `n` first weights of `w`.
pub open spec fn weight_sum(w: Seq<nat>, n: nat) -> nat
    decreases n,
{
    if n == 0 {
        0
    } else {
        weight_sum(w, (n - 1) as nat) + if n - 1 < w.len() {
            w[n - 1]
        } else {
            0
        }
    }
}

/// What position `j` of `a` adds to slot `i` of the convolution of `a` and `b`: the product
/// of `a[j]` and `b[i - j]`, or nothing where either position does not exist.
pub open spec fn convolution_term(a: Seq<nat>, b: Seq<nat>, i: int, j: int) -> nat {
    if 0 <= j < a.len() && 0 <= i - j < b.len() {
        a[j] * b[i - j]
    } else {
        0
    }
}

/// The sum of the terms of slot `i` for the positions `lo <= j < hi` of `a`.
pub open spec fn convolution_range(a: Seq<nat>, b: Seq<nat>, i: int, lo: int, hi: int) -> nat
    decreases hi - lo,
{
    if hi <= lo {
        0
    } else {
        convolution_range(a, b, i, lo, hi - 1) + convolution_term(a, b, i, hi - 1)
    }
}

/// Slot `i` of the convolution of `a` and `b`: the sum of `a[j] * b[k]` over `j + k == i`.
pub open spec fn convolution_at(a: Seq<nat>, b: Seq<nat>, i: int) -> nat {
    convolution_range(a, b, i, 0, a.len() as int)
}

/// The convolution of `a` and `b`: the weights of the sum of two independent variables
/// whose weights are `a` and `b`.
pub open spec fn convolution(a: Seq<nat>, b: Seq<nat>) -> Seq<nat> {
    if a.len() == 0 || b.len() == 0 {
        Seq::empty()
    } else {
        Seq::new((a.len() + b.len() - 1) as nat, |i: int| convolution_at(a, b, i))
    }
}

/// Terms that are all zero add nothing on the right of a range.
pub proof fn lemma_range_zero_right(a: Seq<nat>, b: Seq<nat>, i: int, lo: int, mid: int, hi: int)
    requires
        lo <= mid <= hi,
        forall|j: int| mid <= j < hi ==> convolution_term(a, b, i, j) == 0,
    ensures
        convolution_range(a, b, i, lo, hi) == convolution_range(a, b, i, lo, mid),
    decreases hi - mid,
{
    if mid < hi {
        lemma_range_zero_right(a, b, i, lo, mid, hi - 1);
    }
}

/// Terms that are all zero add nothing on the left of a range.
proof fn lemma_range_zero_left(a: Seq<nat>, b: Seq<nat>, i: int, lo: int, mid: int, hi: int)
    requires
        lo <= mid <= hi,
        forall|j: int| lo <= j < mid ==> convolution_term(a, b, i, j) == 0,
    ensures
        convolution_range(a, b, i, lo, hi) == convolution_range(a, b, i, mid, hi),
    decreases hi - lo,
{
    if mid < hi {
        lemma_range_zero_left(a, b, i, lo, mid, hi - 1);
    } else {
        lemma_range_zero_right(a, b, i, lo, lo, hi);
    }
}

/// A range is its first term plus the rest.
proof fn lemma_range_split_first(a: Seq<nat>, b: Seq<nat>, i: int, lo: int, hi: int)
    requires
        lo < hi,
    ensures
        convolution_range(a, b, i, lo, hi) == convolution_term(a, b, i, lo) + convolution_range(
            a,
            b,
            i,
            lo + 1,
            hi,
        ),
    decreases hi - lo,
{
    if lo + 1 < hi {
        lemma_range_split_first(a, b, i, lo, hi - 1);
    } else {
        assert(convolution_range(a, b, i, lo, lo) == 0);
        assert(convolution_range(a, b, i, lo + 1, hi) == 0);
    }
}

/// A range of terms sums to at least any one of them.
proof fn lemma_range_at_least_term(a: Seq<nat>, b: Seq<nat>, i: int, lo: int, hi: int, j: int)
    requires
        lo <= j < hi,
    ensures
        convolution_range(a, b, i, lo, hi) >= convolution_term(a, b, i, j),
    decreases hi - lo,
{
    if j < hi - 1 {
        lemma_range_at_least_term(a, b, i, lo, hi - 1, j);
    }
}

/// Position `j` of `a` meets position `i - j` of `b`, and the other way round.
proof fn lemma_term_mirror(a: Seq<nat>, b: Seq<nat>, i: int, j: int)
    ensures
        convolution_term(a, b, i, j) == convolution_term(b, a, i, i - j),
{
    if 0 <= j < a.len() && 0 <= i - j < b.len() {
        assert(a[j] * b[i - j] == b[i - j] * a[j]) by (nonlinear_arith);
    }
}

/// Summing a range of `a` against `b` is summing the mirrored range of `b` against `a`.
proof fn lemma_range_mirror(a: Seq<nat>, b: Seq<nat>, i: int, lo: int, hi: int)
    requires
        lo <= hi,
    ensures
        convolution_range(a, b, i, lo, hi) == convolution_range(b, a, i, i - hi + 1, i - lo + 1),
    decreases hi - lo,
{
    if lo < hi {
        lemma_range_mirror(a, b, i, lo, hi - 1);
        lemma_term_mirror(a, b, i, hi - 1);
        lemma_range_split_first(b, a, i, i - hi + 1, i - lo + 1);
    }
}

/// Convolution is commutative, slot by slot.
pub proof fn lemma_convolution_at_commutes(a: Seq<nat>, b: Seq<nat>, i: int)
    ensures
        convolution_at(a, b, i) == convolution_at(b, a, i),
{
    let lo = if i - b.len() + 1 < 0 {
        i - b.len() + 1
    } else {
        0
    };
    let hi = if i + 1 > a.len() {
        i + 1
    } else {
        a.len() as int
    };
    lemma_range_zero_left(a, b, i, lo, 0, a.len() as int);
    lemma_range_zero_right(a, b, i, lo, a.len() as int, hi);
    lemma_range_mirror(a, b, i, lo, hi);
    lemma_range_zero_left(b, a, i, i - hi + 1, 0, i - lo + 1);
    lemma_range_zero_right(b, a, i, 0, b.len() as int, i - lo + 1);
}

/// Convolution is commutative: the two operands may change places.
pub proof fn lemma_convolution_commutes(a: Seq<nat>, b: Seq<nat>)
    ensures
        convolution(a, b) == convolution(b, a),
{
    if a.len() > 0 && b.len() > 0 {
        assert forall|i: int| 0 <= i < a.len() + b.len() - 1 implies convolution(a, b)[i]
            == convolution(b, a)[i] by {
            lemma_convolution_at_commutes(a, b, i);
        }
    }
    assert(convolution(a, b) =~= convolution(b, a));
}

/// Positions past the end add nothing to a sum of weights.
pub proof fn lemma_weight_sum_past_end(w: Seq<nat>, n: nat)
    requires
        w.len() <= n,
    ensures
        weight_sum(w, n) == weight_sum(w, w.len()),
    decreases n,
{
    if w.len() < n {
        lemma_weight_sum_past_end(w, (n - 1) as nat);
    }
}

/// Weights that are all one sum to their number.
pub proof fn lemma_weight_sum_ones(w: Seq<nat>, n: nat)
    requires
        n <= w.len(),
        forall|i: int| 0 <= i < n ==> w[i] == 1,
    ensures
        weight_sum(w, n) == n,
    decreases n,
{
    if n > 0 {
        lemma_weight_sum_ones(w, (n - 1) as nat);
    }
}

/// The sum over the slots `i < slots` of the terms of slot `i` for the positions below `n`.
spec fn slot_sum(a: Seq<nat>, b: Seq<nat>, n: int, slots: nat) -> nat
    decreases slots,
{
    if slots == 0 {
        0
    } else {
        slot_sum(a, b, n, (slots - 1) as nat) + convolution_range(a, b, slots - 1, 0, n)
    }
}

/// The sum over the slots `i < slots` of what position `j` of `a` adds to slot `i`.
spec fn column_sum(a: Seq<nat>, b: Seq<nat>, j: int, slots: nat) -> nat
    decreases slots,
{
    if slots == 0 {
        0
    } else {
        column_sum(a, b, j, (slots - 1) as nat) + convolution_term(a, b, slots - 1, j)
    }
}

/// No positions, no sum.
proof fn lemma_slot_sum_empty(a: Seq<nat>, b: Seq<nat>, slots: nat)
    ensures
        slot_sum(a, b, 0, slots) == 0,
    decreases slots,
{
    if slots > 0 {
        lemma_slot_sum_empty(a, b, (slots - 1) as nat);
    }
}

/// One more position of `a` adds its column.
proof fn lemma_slot_sum_step(a: Seq<nat>, b: Seq<nat>, n: int, slots: nat)
    requires
        0 <= n,
    ensures
        slot_sum(a, b, n + 1, slots) == slot_sum(a, b, n, slots) + column_sum(a, b, n, slots),
    decreases slots,
{
    if slots > 0 {
        lemma_slot_sum_step(a, b, n, (slots - 1) as nat);
    }
}

/// Position `j` of `a` meets, over the slots below `slots`, the `slots - j` first weights
/// of `b`.
proof fn lemma_column_sum(a: Seq<nat>, b: Seq<nat>, j: int, slots: nat)
    requires
        0 <= j < a.len(),
    ensures
        column_sum(a, b, j, slots) == a[j] * weight_sum(
            b,
            if slots >= j {
                (slots - j) as nat
            } else {
                0
            },
        ),
    decreases slots,
{
    if slots == 0 {
        assert(a[j] * 0 == 0) by (nonlinear_arith);
    } else {
        lemma_column_sum(a, b, j, (slots - 1) as nat);
        let i = slots - 1;
        if i < j {
            assert(a[j] * 0 == 0) by (nonlinear_arith);
        } else {
            let before = weight_sum(b, (i - j) as nat);
            let here: nat = if i - j < b.len() {
                b[i - j]
            } else {
                0
            };
            assert(weight_sum(b, (slots - j) as nat) == before + here);
            assert(a[j] * (before + here) == a[j] * before + a[j] * here) by (nonlinear_arith);
            assert(a[j] * 0 == 0) by (nonlinear_arith);
        }
    }
}

/// Over all slots, the `n` first positions of `a` meet every weight of `b`.
proof fn lemma_slot_sum_product(a: Seq<nat>, b: Seq<nat>, n: nat, slots: nat)
    requires
        n <= a.len(),
        a.len() + b.len() <= slots + 1,
    ensures
        slot_sum(a, b, n as int, slots) == weight_sum(a, n) * weight_sum(b, b.len()),
    decreases n,
{
    let whole = weight_sum(b, b.len());
    if n == 0 {
        lemma_slot_sum_empty(a, b, slots);
        assert(0 * whole == 0) by (nonlinear_arith);
    } else {
        let j = n - 1;
        lemma_slot_sum_product(a, b, j as nat, slots);
        lemma_slot_sum_step(a, b, j, slots);
        lemma_column_sum(a, b, j, slots);
        lemma_weight_sum_past_end(b, (slots - j) as nat);
        assert((weight_sum(a, j as nat) + a[j]) * whole == weight_sum(a, j as nat) * whole + a[j]
            * whole) by (nonlinear_arith);
    }
}

/// The weights of a convolution are its slots, summed slot by slot.
proof fn lemma_convolution_slot_sum(a: Seq<nat>, b: Seq<nat>, slots: nat)
    requires
        a.len() > 0,
        b.len() > 0,
        slots <= a.len() + b.len() - 1,
    ensures
        weight_sum(convolution(a, b), slots) == slot_sum(a, b, a.len() as int, slots),
    decreases slots,
{
    if slots > 0 {
        lemma_convolution_slot_sum(a, b, (slots - 1) as nat);
    }
}

/// The weights of a convolution sum to the product of the sums of the operands' weights.
pub proof fn lemma_convolution_total(a: Seq<nat>, b: Seq<nat>)
    requires
        a.len() > 0,
        b.len() > 0,
    ensures
        weight_sum(convolution(a, b), convolution(a, b).len()) == weight_sum(a, a.len())
            * weight_sum(b, b.len()),
{
    let slots = (a.len() + b.len() - 1) as nat;
    lemma_convolution_slot_sum(a, b, slots);
    lemma_slot_sum_product(a, b, a.len(), slots);
}

/// Convolving with the single weight one changes nothing.
pub proof fn lemma_convolution_unit(w: Seq<nat>)
    requires
        w.len() > 0,
    ensures
        convolution(seq![1nat], w) == w,
{
    let unit = seq![1nat];
    assert forall|i: int| 0 <= i < w.len() implies convolution_at(unit, w, i) == w[i] by {
        reveal_with_fuel(convolution_range, 2);
        assert(1 * w[i] == w[i]) by (nonlinear_arith);
    }
    assert(convolution(unit, w) =~= w);
}

/// Where no weight of `a` or of `b` is zero, no weight of their convolution is zero.
pub proof fn lemma_convolution_positive(a: Seq<nat>, b: Seq<nat>)
    requires
        forall|i: int| 0 <= i < a.len() ==> a[i] >= 1,
        forall|i: int| 0 <= i < b.len() ==> b[i] >= 1,
    ensures
        forall|i: int| 0 <= i < convolution(a, b).len() ==> convolution(a, b)[i] >= 1,
{
    assert forall|i: int| 0 <= i < convolution(a, b).len() implies convolution(a, b)[i] >= 1 by {
        let j = if i < a.len() {
            i
        } else {
            a.len() - 1
        };
        lemma_range_at_least_term(a, b, i, 0, a.len() as int, j);
        assert(a[j] * b[i - j] >= 1) by (nonlinear_arith)
            requires
                a[j] >= 1,
                b[i - j] >= 1,
        ;
    }
}

/// What the positions `j` of `a` and `k` of `b` add to slot `n` of the convolution of `a`,
/// `b` and `c`: the product of `a[j]`, `b[k]` and `c[n - j - k]`, or nothing where a
/// position does not exist.
spec fn triple_term(a: Seq<nat>, b: Seq<nat>, c: Seq<nat>, n: int, j: int, k: int) -> nat {
    if 0 <= j < a.len() && 0 <= k < b.len() && 0 <= n - j - k < c.len() {
        a[j] * b[k] * c[n - j - k]
    } else {
        0
    }
}

/// The sum of the triple terms of the position `j` of `a` for the positions `lo <= k < hi`
/// of `b`.
spec fn triple_row(a: Seq<nat>, b: Seq<nat>, c: Seq<nat>, n: int, j: int, lo: int, hi: int) -> nat
    decreases hi - lo,
{
    if hi <= lo {
        0
    } else {
        triple_row(a, b, c, n, j, lo, hi - 1) + triple_term(a, b, c, n, j, hi - 1)
    }
}

/// The sum of the triple terms whose positions in `a` and `b` add up to `m`, for the
/// positions below `count` of `a`.
spec fn triple_diagonal(a: Seq<nat>, b: Seq<nat>, c: Seq<nat>, n: int, m: int, count: nat) -> nat
    decreases count,
{
    if count == 0 {
        0
    } else {
        triple_diagonal(a, b, c, n, m, (count - 1) as nat) + triple_term(
            a,
            b,
            c,
            n,
            count - 1,
            m - (count - 1),
        )
    }
}

/// The triple terms summed diagonal by diagonal.
spec fn sum_by_diagonals(
    a: Seq<nat>,
    b: Seq<nat>,
    c: Seq<nat>,
    n: int,
    diagonals: nat,
    count: nat,
) -> nat
    decreases diagonals,
{
    if diagonals == 0 {
        0
    } else {
        sum_by_diagonals(a, b, c, n, (diagonals - 1) as nat, count) + triple_diagonal(
            a,
            b,
            c,
            n,
            diagonals - 1,
            count,
        )
    }
}

/// The same triple terms summed row by row: for each position `j` of `a`, the positions of
/// `b` that lie with `j` on one of the diagonals.
spec fn sum_by_rows(
    a: Seq<nat>,
    b: Seq<nat>,
    c: Seq<nat>,
    n: int,
    diagonals: nat,
    count: nat,
) -> nat
    decreases count,
{
    if count == 0 {
        0
    } else {
        sum_by_rows(a, b, c, n, diagonals, (count - 1) as nat) + triple_row(
            a,
            b,
            c,
            n,
            count - 1,
            -(count - 1),
            diagonals - (count - 1),
        )
    }
}

/// Without diagonals the rows are empty.
proof fn lemma_sum_by_rows_empty(a: Seq<nat>, b: Seq<nat>, c: Seq<nat>, n: int, count: nat)
    ensures
        sum_by_rows(a, b, c, n, 0, count) == 0,
    decreases count,
{
    if count > 0 {
        lemma_sum_by_rows_empty(a, b, c, n, (count - 1) as nat);
    }
}

/// One more diagonal makes every row longer by the term that lies on it.
proof fn lemma_sum_by_rows_step(
    a: Seq<nat>,
    b: Seq<nat>,
    c: Seq<nat>,
    n: int,
    diagonals: nat,
    count: nat,
)
    ensures
        sum_by_rows(a, b, c, n, diagonals + 1, count) == sum_by_rows(a, b, c, n, diagonals, count)
            + triple_diagonal(a, b, c, n, diagonals as int, count),
    decreases count,
{
    if count > 0 {
        lemma_sum_by_rows_step(a, b, c, n, diagonals, (count - 1) as nat);
    }
}

/// The two orders of summing the triple terms give the same.
proof fn lemma_sums_agree(
    a: Seq<nat>,
    b: Seq<nat>,
    c: Seq<nat>,
    n: int,
    diagonals: nat,
    count: nat,
)
    ensures
        sum_by_diagonals(a, b, c, n, diagonals, count) == sum_by_rows(a, b, c, n, diagonals, count),
    decreases diagonals,
{
    if diagonals == 0 {
        lemma_sum_by_rows_empty(a, b, c, n, count);
    } else {
        lemma_sums_agree(a, b, c, n, (diagonals - 1) as nat, count);
        lemma_sum_by_rows_step(a, b, c, n, (diagonals - 1) as nat, count);
    }
}

/// A diagonal is a range of the convolution of `a` and `b`, times the weight of `c` that
/// it meets.
proof fn lemma_diagonal_is_term(
    a: Seq<nat>,
    b: Seq<nat>,
    c: Seq<nat>,
    n: int,
    m: int,
    count: nat,
)
    ensures
        triple_diagonal(a, b, c, n, m, count) == if 0 <= n - m < c.len() {
            convolution_range(a, b, m, 0, count as int) * c[n - m]
        } else {
            0
        },
    decreases count,
{
    if count == 0 {
        if 0 <= n - m < c.len() {
            assert(0 * c[n - m] == 0) by (nonlinear_arith);
        }
    } else {
        lemma_diagonal_is_term(a, b, c, n, m, (count - 1) as nat);
        if 0 <= n - m < c.len() {
            let j = count - 1;
            let before = convolution_range(a, b, m, 0, j);
            let here = convolution_term(a, b, m, j);
            assert((before + here) * c[n - m] == before * c[n - m] + here * c[n - m])
                by (nonlinear_arith);
            if !(0 <= j < a.len() && 0 <= m - j < b.len()) {
                assert(0 * c[n - m] == 0) by (nonlinear_arith);
            }
        }
    }
}

/// Convolving `a` and `b` first sums the triple terms diagonal by diagonal.
proof fn lemma_left_is_sum_by_diagonals(
    a: Seq<nat>,
    b: Seq<nat>,
    c: Seq<nat>,
    n: int,
    count: nat,
)
    requires
        a.len() > 0,
        b.len() > 0,
        count <= a.len() + b.len() - 1,
    ensures
        convolution_range(convolution(a, b), c, n, 0, count as int) == sum_by_diagonals(
            a,
            b,
            c,
            n,
            count,
            a.len(),
        ),
    decreases count,
{
    if count > 0 {
        lemma_left_is_sum_by_diagonals(a, b, c, n, (count - 1) as nat);
        lemma_diagonal_is_term(a, b, c, n, count - 1, a.len());
    }
}

/// A row is the weight of `a` at its position, times a range of the convolution of `b`
/// and `c`.
proof fn lemma_row_is_term(a: Seq<nat>, b: Seq<nat>, c: Seq<nat>, n: int, j: int, count: nat)
    requires
        0 <= j < a.len(),
    ensures
        triple_row(a, b, c, n, j, 0, count as int) == a[j] * convolution_range(
            b,
            c,
            n - j,
            0,
            count as int,
        ),
    decreases count,
{
    if count == 0 {
        assert(a[j] * 0 == 0) by (nonlinear_arith);
    } else {
        lemma_row_is_term(a, b, c, n, j, (count - 1) as nat);
        let k = count - 1;
        let before = convolution_range(b, c, n - j, 0, k);
        let here = convolution_term(b, c, n - j, k);
        assert(a[j] * (before + here) == a[j] * before + a[j] * here) by (nonlinear_arith);
        if 0 <= k < b.len() && 0 <= n - j - k < c.len() {
            assert(a[j] * b[k] * c[n - j - k] == a[j] * (b[k] * c[n - j - k]))
                by (nonlinear_arith);
        } else {
            assert(a[j] * 0 == 0) by (nonlinear_arith);
        }
    }
}

/// Past the end of `b` a row gains nothing.
proof fn lemma_row_zero_right(
    a: Seq<nat>,
    b: Seq<nat>,
    c: Seq<nat>,
    n: int,
    j: int,
    lo: int,
    mid: int,
    hi: int,
)
    requires
        lo <= mid <= hi,
        b.len() <= mid,
    ensures
        triple_row(a, b, c, n, j, lo, hi) == triple_row(a, b, c, n, j, lo, mid),
    decreases hi - mid,
{
    if mid < hi {
        lemma_row_zero_right(a, b, c, n, j, lo, mid, hi - 1);
    }
}

/// Before the start of `b` a row gains nothing.
proof fn lemma_row_zero_left(
    a: Seq<nat>,
    b: Seq<nat>,
    c: Seq<nat>,
    n: int,
    j: int,
    lo: int,
    hi: int,
)
    requires
        lo <= 0 <= hi,
    ensures
        triple_row(a, b, c, n, j, lo, hi) == triple_row(a, b, c, n, j, 0, hi),
    decreases hi,
{
    if 0 < hi {
        lemma_row_zero_left(a, b, c, n, j, lo, hi - 1);
    } else {
        lemma_row_all_zero(a, b, c, n, j, lo, hi);
    }
}

/// A row that ends before the start of `b` is empty.
proof fn lemma_row_all_zero(
    a: Seq<nat>,
    b: Seq<nat>,
    c: Seq<nat>,
    n: int,
    j: int,
    lo: int,
    hi: int,
)
    requires
        lo <= hi <= 0,
    ensures
        triple_row(a, b, c, n, j, lo, hi) == 0,
    decreases hi - lo,
{
    if lo < hi {
        lemma_row_all_zero(a, b, c, n, j, lo, hi - 1);
    }
}

/// Outside the slots of a convolution every term is zero.
proof fn lemma_convolution_at_outside(a: Seq<nat>, b: Seq<nat>, i: int)
    requires
        i < 0 || i >= a.len() + b.len() - 1,
    ensures
        convolution_at(a, b, i) == 0,
{
    lemma_range_zero_right(a, b, i, 0, 0, a.len() as int);
}

/// Convolving `b` and `c` first sums the triple terms row by row.
proof fn lemma_right_is_sum_by_rows(a: Seq<nat>, b: Seq<nat>, c: Seq<nat>, n: int, count: nat)
    requires
        b.len() > 0,
        c.len() > 0,
        count <= a.len(),
    ensures
        convolution_range(a, convolution(b, c), n, 0, count as int) == sum_by_rows(
            a,
            b,
            c,
            n,
            (a.len() + b.len() - 1) as nat,
            count,
        ),
    decreases count,
{
    if count > 0 {
        let j = count - 1;
        let diagonals = a.len() + b.len() - 1;
        lemma_right_is_sum_by_rows(a, b, c, n, (count - 1) as nat);
        lemma_row_zero_left(a, b, c, n, j, -j, diagonals - j);
        lemma_row_zero_right(a, b, c, n, j, 0, b.len() as int, diagonals - j);
        lemma_row_is_term(a, b, c, n, j, b.len());
        if !(0 <= n - j < b.len() + c.len() - 1) {
            lemma_convolution_at_outside(b, c, n - j);
            assert(a[j] * 0 == 0) by (nonlinear_arith);
        }
    }
}

/// Convolution is associative: three runs of weights may be convolved in either grouping.
pub proof fn lemma_convolution_associates(a: Seq<nat>, b: Seq<nat>, c: Seq<nat>)
    ensures
        convolution(convolution(a, b), c) == convolution(a, convolution(b, c)),
{
    if a.len() > 0 && b.len() > 0 && c.len() > 0 {
        let left = convolution(convolution(a, b), c);
        let right = convolution(a, convolution(b, c));
        let diagonals = (a.len() + b.len() - 1) as nat;
        assert forall|n: int| 0 <= n < left.len() implies left[n] == right[n] by {
            lemma_left_is_sum_by_diagonals(a, b, c, n, diagonals);
            lemma_right_is_sum_by_rows(a, b, c, n, a.len());
            lemma_sums_agree(a, b, c, n, diagonals, a.len());
        }
        assert(left =~= right);
    } else {
        assert(convolution(convolution(a, b), c) =~= convolution(a, convolution(b, c)));
    }
}

} // verus!
