//! Splitting the screen into rows of areas, top to bottom.
use vstd::prelude::*;

verus! {

/// A rectangle of character cells: its top-left corner and its size.
#[derive(Debug, Clone, Copy, PartialEq, Eq)]
pub struct Area {
    pub col: i64,
    pub row: i64,
    pub cols: i64,
    pub rows: i64,
}

/// How far from zero the sizes that `stack` takes may go.
pub const AREA_LIMIT: i64 = 0x100_0000_0000;

/// The quotient of Rust's `/` on integers: rounded towards zero.
pub open spec fn trunc_div(a: int, b: int) -> int {
    if a >= 0 {
        a / b
    } else {
        -((-a) / b)
    }
}

/// The remainder of Rust's `%` on integers: it takes the dividend's sign.
pub open spec fn trunc_rem(a: int, b: int) -> int {
    if a >= 0 {
        a % b
    } else {
        -((-a) % b)
    }
}

proof fn lemma_trunc_div_bound(a: int, b: int)
    requires
        b >= 1,
    ensures
        a >= 0 ==> 0 <= trunc_div(a, b) <= a,
        a < 0 ==> a <= trunc_div(a, b) <= 0,
{
    if a >= 0 {
        assert(0 <= a / b <= a) by (nonlinear_arith)
            requires
                a >= 0,
                b >= 1,
        ;
    } else {
        let c = -a;
        assert(0 <= c / b <= c) by (nonlinear_arith)
            requires
                c >= 0,
                b >= 1,
        ;
    }
}

pub open spec fn fixed_total(hs: Seq<Option<i64>>) -> int
    decreases hs.len(),
{
    if hs.len() == 0 {
        0
    } else {
        fixed_total(hs.drop_last()) + match hs.last() {
            Some(h) => h as int,
            None => 0,
        }
    }
}

pub open spec fn unsized_count(hs: Seq<Option<i64>>) -> int
    decreases hs.len(),
{
    if hs.len() == 0 {
        0
    } else {
        unsized_count(hs.drop_last()) + if hs.last() is None {
            1int
        } else {
            0
        }
    }
}

/// How many rows the `i`th area gets: its own height, or an equal share of
/// what the fixed heights leave, the first few shares one row taller when it
/// does not divide evenly.
pub open spec fn rows_of(hs: Seq<Option<i64>>, window: Area, i: int) -> int {
    match hs[i] {
        Some(h) => h as int,
        None => {
            let left = window.rows - fixed_total(hs);
            let shared = unsized_count(hs);
            trunc_div(left, shared) + if unsized_count(hs.take(i)) < trunc_rem(left, shared) {
                1int
            } else {
                0
            }
        },
    }
}

/// Where the `i`th area starts: below all the areas before it.
pub open spec fn row_of(hs: Seq<Option<i64>>, window: Area, i: int) -> int
    decreases i,
{
    if i <= 0 {
        window.row as int
    } else {
        row_of(hs, window, i - 1) + rows_of(hs, window, i - 1)
    }
}

pub open spec fn stack_spec(hs: Seq<Option<i64>>, window: Area) -> Seq<Area> {
    Seq::new(
        hs.len(),
        |i: int|
            Area {
                col: window.col,
                row: row_of(hs, window, i) as i64,
                cols: window.cols,
                rows: rows_of(hs, window, i) as i64,
            },
    )
}

/// How many areas `stack` takes: as many as keep every sum of heights far
/// inside an `i64`.
pub const STACK_LIMIT: i64 = 0x10_0000;

/// The sizes `stack` takes: none far from zero, and not so many that their
/// sums leave an `i64`.
pub open spec fn stack_fits(hs: Seq<Option<i64>>, window: Area) -> bool {
    &&& hs.len() <= STACK_LIMIT
    &&& forall|i: int| 0 <= i < hs.len() ==> match #[trigger] hs[i] {
        Some(h) => -AREA_LIMIT <= h <= AREA_LIMIT,
        None => true,
    }
    &&& -AREA_LIMIT <= window.row <= AREA_LIMIT
    &&& -AREA_LIMIT <= window.rows <= AREA_LIMIT
}

proof fn lemma_totals_bounded(hs: Seq<Option<i64>>)
    requires
        forall|i: int| 0 <= i < hs.len() ==> match #[trigger] hs[i] {
            Some(h) => -AREA_LIMIT <= h <= AREA_LIMIT,
            None => true,
        },
    ensures
        -0x100_0000_0000 * hs.len() <= fixed_total(hs) <= 0x100_0000_0000 * hs.len(),
        0 <= unsized_count(hs) <= hs.len(),
    decreases hs.len(),
{
    if hs.len() > 0 {
        lemma_totals_bounded(hs.drop_last());
        assert(hs.last() == hs[hs.len() - 1]);
    }
}

proof fn lemma_count_step(hs: Seq<Option<i64>>, i: int)
    requires
        0 <= i < hs.len(),
    ensures
        fixed_total(hs.take(i + 1)) == fixed_total(hs.take(i)) + match hs[i] {
            Some(h) => h as int,
            None => 0,
        },
        unsized_count(hs.take(i + 1)) == unsized_count(hs.take(i)) + if hs[i] is None {
            1int
        } else {
            0
        },
{
    assert(hs.take(i + 1).drop_last() =~= hs.take(i));
    assert(hs.take(i + 1).last() == hs[i]);
}

/// The extra rows that the first `seen` shared areas get: one each while
/// fewer than the remainder `r` have had one.
pub open spec fn extra_total(seen: int, r: int) -> int {
    if r <= 0 {
        0
    } else if seen < r {
        seen
    } else {
        r
    }
}

/// Where the `i`th area starts, in closed form: below the fixed heights
/// before it, and a share, with its extra row, for each shared area before it.
proof fn lemma_row_closed(hs: Seq<Option<i64>>, window: Area, i: int)
    requires
        0 <= i <= hs.len(),
    ensures
        row_of(hs, window, i) == window.row + fixed_total(hs.take(i)) + unsized_count(hs.take(i))
            * trunc_div(window.rows - fixed_total(hs), unsized_count(hs)) + extra_total(
            unsized_count(hs.take(i)),
            trunc_rem(window.rows - fixed_total(hs), unsized_count(hs)),
        ),
    decreases i,
{
    let left = window.rows - fixed_total(hs);
    let u = unsized_count(hs);
    let q = trunc_div(left, u);
    if i == 0 {
        assert(hs.take(0) =~= Seq::<Option<i64>>::empty());
        assert(0 * q == 0);
    } else {
        lemma_row_closed(hs, window, i - 1);
        lemma_count_step(hs, i - 1);
        lemma_count_nonneg(hs.take(i - 1));
        let a = unsized_count(hs.take(i - 1));
        assert((a + 1) * q == a * q + q) by (nonlinear_arith);
    }
}

proof fn lemma_count_nonneg(hs: Seq<Option<i64>>)
    ensures
        unsized_count(hs) >= 0,
    decreases hs.len(),
{
    if hs.len() > 0 {
        lemma_count_nonneg(hs.drop_last());
    }
}

/// The shared areas before any point together get no more rows than are left.
proof fn lemma_shares_bound(left: int, shared: int, seen: int)
    requires
        shared >= 1,
        0 <= seen <= shared,
    ensures
        -left <= seen * trunc_div(left, shared) <= left || left <= seen * trunc_div(left, shared) <= -left,
{
    if left >= 0 {
        assert(0 <= seen * (left / shared) <= left) by (nonlinear_arith)
            requires
                left >= 0,
                shared >= 1,
                0 <= seen <= shared,
        {
            assert(shared * (left / shared) <= left);
            assert(seen * (left / shared) <= shared * (left / shared));
        }
    } else {
        let c = -left;
        assert(0 <= seen * (c / shared) <= c) by (nonlinear_arith)
            requires
                c >= 0,
                shared >= 1,
                0 <= seen <= shared,
        {
            assert(shared * (c / shared) <= c);
            assert(seen * (c / shared) <= shared * (c / shared));
        }
        assert(seen * trunc_div(left, shared) == -(seen * (c / shared))) by (nonlinear_arith)
            requires
                trunc_div(left, shared) == -(c / shared),
        ;
    }
}

/// Stacks areas down the window, one per entry: a fixed height, or `None`
/// for an equal share of the rows the fixed ones leave.
pub fn stack(heights: &[Option<i64>], window: Area) -> (r: Vec<Area>)
    requires
        stack_fits(heights@, window),
    ensures
        r@ == stack_spec(heights@, window),
{
    let ghost hs = heights@;
    let n = heights.len();
    let mut fixed: i64 = 0;
    let mut shared: i64 = 0;
    let mut i: usize = 0;
    proof {
        assert(hs.take(0) =~= Seq::<Option<i64>>::empty());
    }
    while i < n
        invariant
            n == hs.len(),
            hs == heights@,
            stack_fits(hs, window),
            i <= n,
            fixed == fixed_total(hs.take(i as int)),
            shared == unsized_count(hs.take(i as int)),
        decreases n - i,
    {
        proof {
            lemma_count_step(hs, i as int);
            lemma_totals_bounded(hs.take(i + 1));
        }
        match heights[i] {
            Some(h) => {
                fixed = fixed + h;
            },
            None => {
                shared = shared + 1;
            },
        }
        i = i + 1;
    }
    proof {
        assert(hs.take(n as int) =~= hs);
        lemma_totals_bounded(hs);
    }
    let left = window.rows - fixed;
    let mut seen: i64 = 0;
    let mut row = window.row;
    let mut areas: Vec<Area> = Vec::new();
    let mut j: usize = 0;
    while j < n
        invariant
            n == hs.len(),
            hs == heights@,
            stack_fits(hs, window),
            fixed == fixed_total(hs),
            shared == unsized_count(hs),
            left == window.rows - fixed,
            -0x100_0000_0000 * (n + 1) <= left <= 0x100_0000_0000 * (n + 1),
            0 <= shared <= n,
            n <= STACK_LIMIT,
            j <= n,
            seen == unsized_count(hs.take(j as int)),
            0 <= seen <= j,
            row == row_of(hs, window, j as int),
            areas@ =~= stack_spec(hs, window).take(j as int),
        decreases n - j,
    {
        proof {
            lemma_count_step(hs, j as int);
            lemma_totals_bounded(hs.take(j as int));
            lemma_row_closed(hs, window, j as int);
            lemma_count_prefix(hs, j as int);
            lemma_count_nonneg(hs.take(j as int));
            let q = trunc_div(left as int, shared as int);
            let sn = unsized_count(hs.take(j as int));
            assert(-0x100_0000_0000 * (n + 1) <= left <= 0x100_0000_0000 * (n + 1));
            if shared >= 1 {
                lemma_shares_bound(left as int, shared as int, sn);
                assert(-0x100_0000_0000 * (n + 1) <= sn * q <= 0x100_0000_0000 * (n + 1));
            } else {
                assert(sn * q == 0) by (nonlinear_arith)
                    requires
                        sn == 0,
                ;
            }
            let f = fixed_total(hs.take(j as int));
            let r = trunc_rem(left as int, shared as int);
            assert(hs.take(j as int).len() == j);
            assert(-0x100_0000_0000 * j <= f <= 0x100_0000_0000 * j);
            assert(0 <= sn <= shared);
            assert(0 <= extra_total(sn, r) <= sn);
            assert(-0x100_0000_0000 * (n + 1) <= sn * q <= 0x100_0000_0000 * (n + 1));
            assert(row == window.row + f + sn * q + extra_total(sn, r));
            assert(-0x100_0000_0000 * 0x20_0003 <= row <= 0x100_0000_0000 * 0x20_0003);
        }
        let rows: i64 = match heights[j] {
            Some(h) => h,
            None => {
                proof {
                    assert(hs[j as int] is None);
                    assert(shared > 0) by {
                        assert(unsized_count(hs.take(j + 1)) >= 1);
                        lemma_count_prefix(hs, j + 1);
                    }
                }
                let extra: i64 = if seen < left % shared {
                    1
                } else {
                    0
                };
                seen = seen + 1;
                let q = left / shared;
                proof {
                    lemma_trunc_div_bound(left as int, shared as int);
                }
                q + extra
            },
        };
        proof {
            assert(rows == rows_of(hs, window, j as int));
            assert(match hs[j as int] {
                Some(h) => -AREA_LIMIT <= h <= AREA_LIMIT,
                None => true,
            });
            assert(-0x100_0000_0000 * (n + 2) <= rows <= 0x100_0000_0000 * (n + 2));
        }
        let area = Area { col: window.col, row, cols: window.cols, rows };
        areas.push(area);
        proof {
            assert(row_of(hs, window, j + 1) == row + rows);
        }
        row = row + rows;
        j = j + 1;
    }
    proof {
        assert(stack_spec(hs, window).take(n as int) =~= stack_spec(hs, window));
    }
    areas
}

proof fn lemma_count_prefix(hs: Seq<Option<i64>>, k: int)
    requires
        0 <= k <= hs.len(),
    ensures
        unsized_count(hs.take(k)) <= unsized_count(hs),
    decreases hs.len() - k,
{
    if k < hs.len() {
        lemma_count_prefix(hs, k + 1);
        lemma_count_step(hs, k);
    } else {
        assert(hs.take(k) =~= hs);
    }
}

} // verus!
