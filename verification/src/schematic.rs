//! The engine schematic: a rectangular character grid holding numbers
//! and symbols.  A part number is a digit run adjacent (including
//! diagonally) to some symbol; a gear is a `*` adjacent to exactly two
//! part numbers, and its ratio is their product.

use vstd::prelude::*;
use crate::text::{
    spec_lines,
    to_chars,
    lines_of,
    is_digit,
    all_digits,
    digits_value,
    spec_digit_runs,
    digit_runs,
    slice_of,
    parse_u64,
};

verus! {

/// A symbol: any character that is neither a digit nor a dot.
pub open spec fn is_sym(c: char) -> bool {
    !is_digit(c) && c != '.'
}

/// A nonempty grid with rows all as long as the first.
pub open spec fn rect_ok(ls: Seq<Seq<char>>) -> bool {
    ls.len() > 0 && forall|i: int| 0 <= i < ls.len() ==> #[trigger] ls[i].len() == ls[0].len()
}

/// The part numbers of row `row`: each digit run as
/// `(value, row, start, end)` with `end` exclusive.
pub open spec fn row_parts(l: Seq<char>, row: int) -> Seq<(int, int, int, int)> {
    Seq::new(
        spec_digit_runs(l).len(),
        |k: int|
            (
                digits_value(l.subrange(spec_digit_runs(l)[k].0, spec_digit_runs(l)[k].1)),
                row,
                spec_digit_runs(l)[k].0,
                spec_digit_runs(l)[k].1,
            ),
    )
}

/// All part numbers of the grid from row `i` on, in row-major order.
pub open spec fn parts_from(ls: Seq<Seq<char>>, i: int) -> Seq<(int, int, int, int)>
    decreases ls.len() - i,
{
    if i < 0 || i >= ls.len() {
        Seq::empty()
    } else {
        row_parts(ls[i], i) + parts_from(ls, i + 1)
    }
}

/// Every part number's value fits in `u32`.
pub open spec fn parts_vals_ok(ls: Seq<Seq<char>>) -> bool {
    forall|j: int|
        0 <= j < parts_from(ls, 0).len() ==> (#[trigger] parts_from(ls, 0)[j]).0 <= u32::MAX
}

/// Whether some symbol lies in the box around a run: the rows above,
/// at, and below it, and the columns from just before its start to just
/// after its end.
pub open spec fn adj_sym(ls: Seq<Seq<char>>, row: int, a: int, b: int) -> bool {
    exists|r: int, c: int|
        row - 1 <= r <= row + 1 && 0 <= r < ls.len() && a - 1 <= c <= b && 0 <= c < ls[r].len()
            && is_sym(#[trigger] ls[r][c])
}

/// The sum of the part numbers adjacent to a symbol, over the parts
/// from index `j` on.
pub open spec fn parts_sum(ls: Seq<Seq<char>>, ps: Seq<(int, int, int, int)>, j: int) -> int
    decreases ps.len() - j,
{
    if j < 0 || j >= ps.len() {
        0
    } else {
        (if adj_sym(ls, ps[j].1, ps[j].2, ps[j].3 - 1 + 1) {
            ps[j].0
        } else {
            0
        }) + parts_sum(ls, ps, j + 1)
    }
}

/// Whether a part number touches the cell `(r, c)`.
pub open spec fn touches(p: (int, int, int, int), r: int, c: int) -> bool {
    p.1 - 1 <= r <= p.1 + 1 && p.2 - 1 <= c <= p.3
}

/// The gear ratio at a cell: the product of the adjacent part values
/// when exactly two part numbers touch the cell, else zero.
pub open spec fn gear_ratio(ps: Seq<(int, int, int, int)>, r: int, c: int) -> int {
    let adj = ps.filter(|p: (int, int, int, int)| touches(p, r, c));
    if adj.len() == 2 {
        adj[0].0 * adj[1].0
    } else {
        0
    }
}

/// The sum of the gear ratios of the `*` cells of row `r` from column
/// `c` on.
pub open spec fn gear_row_sum(
    ls: Seq<Seq<char>>,
    ps: Seq<(int, int, int, int)>,
    r: int,
    c: int,
) -> int
    decreases ls[r].len() - c,
{
    if r < 0 || r >= ls.len() || c < 0 || c >= ls[r].len() {
        0
    } else {
        (if ls[r][c] == '*' {
            gear_ratio(ps, r, c)
        } else {
            0
        }) + gear_row_sum(ls, ps, r, c + 1)
    }
}

/// The sum of the gear ratios of all `*` cells from row `r` on.
pub open spec fn gear_sum(ls: Seq<Seq<char>>, ps: Seq<(int, int, int, int)>, r: int) -> int
    decreases ls.len() - r,
{
    if r < 0 || r >= ls.len() {
        0
    } else {
        gear_row_sum(ls, ps, r, 0) + gear_sum(ls, ps, r + 1)
    }
}

/// One collected part number.
struct Part {
    value: u64,
    row: usize,
    a: usize,
    b: usize,
}

impl Part {
    spec fn pview(self) -> (int, int, int, int) {
        (self.value as int, self.row as int, self.a as int, self.b as int)
    }
}

/// Collect all part numbers; `None` when a value does not fit in `u32`.
fn collect_parts(grid: &Vec<Vec<char>>, ghost_ls: Ghost<Seq<Seq<char>>>) -> (r: Option<Vec<Part>>)
    requires
        grid@.len() == ghost_ls@.len(),
        forall|k: int| 0 <= k < grid@.len() ==> #[trigger] grid@[k]@ == ghost_ls@[k],
    ensures
        match r {
            Some(ps) => parts_vals_ok(ghost_ls@) && ps@.map_values(|p: Part| p.pview())
                == parts_from(ghost_ls@, 0) && (forall|k: int|
                0 <= k < ps@.len() ==> (#[trigger] ps@[k]).value <= u32::MAX && (ps@[k].row as int)
                    < ghost_ls@.len() && 0 <= (ps@[k].a as int) < (ps@[k].b as int)
                    <= ghost_ls@[ps@[k].row as int].len()),
            None => !parts_vals_ok(ghost_ls@),
        },
{
    let ghost ls = ghost_ls@;
    let mut out: Vec<Part> = Vec::new();
    let mut i: usize = 0;
    proof {
        assert(out@.map_values(|p: Part| p.pview()) + parts_from(ls, 0) =~= parts_from(ls, 0));
    }
    #[verifier::loop_isolation(false)]
    while i < grid.len()
        invariant
            0 <= i <= grid@.len(),
            parts_from(ls, 0) == out@.map_values(|p: Part| p.pview()) + parts_from(ls, i as int),
            forall|k: int|
                0 <= k < out@.len() ==> (#[trigger] out@[k]).value <= u32::MAX && (
                out@[k].row as int) < ls.len() && 0 <= (out@[k].a as int) < (out@[k].b as int)
                    <= ls[out@[k].row as int].len(),
        decreases grid@.len() - i,
    {
        let line = &grid[i];
        let runs = digit_runs(line);
        let ghost rp = row_parts(ls[i as int], i as int);
        proof {
            assert(parts_from(ls, i as int) == rp + parts_from(ls, i as int + 1));
            assert(rp.skip(0) =~= rp);
            assert(out@.map_values(|p: Part| p.pview()) + (rp + parts_from(ls, i as int + 1))
                =~= out@.map_values(|p: Part| p.pview()) + rp.skip(0) + parts_from(
                ls,
                i as int + 1,
            ));
        }
        let mut k: usize = 0;
        #[verifier::loop_isolation(false)]
        while k < runs.len()
            invariant
                0 <= k <= runs@.len(),
                line@ == ls[i as int],
                runs@.len() == rp.len(),
                rp == row_parts(ls[i as int], i as int),
                forall|q: int|
                    0 <= q < runs@.len() ==> (#[trigger] runs@[q]).0 as int == spec_digit_runs(
                        line@,
                    )[q].0 && runs@[q].1 as int == spec_digit_runs(line@)[q].1 && 0 <= runs@[q].0
                        < runs@[q].1 <= line@.len(),
                parts_from(ls, 0) == out@.map_values(|p: Part| p.pview()) + rp.skip(k as int)
                    + parts_from(ls, i as int + 1),
                forall|q: int|
                    0 <= q < out@.len() ==> (#[trigger] out@[q]).value <= u32::MAX && (
                    out@[q].row as int) < ls.len() && 0 <= (out@[q].a as int) < (out@[q].b as int)
                        <= ls[out@[q].row as int].len(),
            decreases runs@.len() - k,
        {
            let (a, b) = runs[k];
            let seg = slice_of(line, a, b);
            proof {
                assert(seg@ =~= line@.subrange(
                    spec_digit_runs(line@)[k as int].0,
                    spec_digit_runs(line@)[k as int].1,
                ));
            }
            let v = match parse_u64(&seg) {
                Some(v) => v,
                None => {
                    proof {
                        crate::almanac::lemma_run_digits(line@, k as int);
                        if seg@.len() > 0 && all_digits(seg@) {
                            crate::text::lemma_digits_value_nonneg(seg@);
                        }
                        lemma_parts_member(ls, i as int, k as int);
                    }
                    return None;
                },
            };
            if v > 0xFFFF_FFFF {
                proof {
                    lemma_parts_member(ls, i as int, k as int);
                }
                return None;
            }
            out.push(Part { value: v, row: i, a, b });
            proof {
                let pv = |p: Part| p.pview();
                assert(out@.map_values(pv) =~= out@.drop_last().map_values(pv).push(
                    (v as int, i as int, a as int, b as int),
                ));
                assert(rp[k as int] == (v as int, i as int, a as int, b as int));
                assert(rp.skip(k as int) =~= seq![rp[k as int]] + rp.skip(k as int + 1));
                assert(out@.drop_last().map_values(pv) + rp.skip(k as int) =~= out@.map_values(pv)
                    + rp.skip(k as int + 1));
                assert((out@.drop_last().map_values(pv) + rp.skip(k as int)) + parts_from(
                    ls,
                    i as int + 1,
                ) =~= out@.drop_last().map_values(pv) + (rp.skip(k as int) + parts_from(
                    ls,
                    i as int + 1,
                )));
                assert((out@.map_values(pv) + rp.skip(k as int + 1)) + parts_from(
                    ls,
                    i as int + 1,
                ) =~= out@.map_values(pv) + (rp.skip(k as int + 1) + parts_from(
                    ls,
                    i as int + 1,
                )));
            }
            k = k + 1;
        }
        proof {
            assert(rp.skip(k as int) =~= Seq::<(int, int, int, int)>::empty());
            assert(out@.map_values(|p: Part| p.pview()) + Seq::<(int, int, int, int)>::empty()
                + parts_from(ls, i as int + 1) =~= out@.map_values(|p: Part| p.pview())
                + parts_from(ls, i as int + 1));
        }
        i = i + 1;
    }
    proof {
        assert(parts_from(ls, i as int) =~= Seq::<(int, int, int, int)>::empty());
        assert(parts_from(ls, 0) =~= out@.map_values(|p: Part| p.pview()));
        lemma_parts_vals(ls, out@);
    }
    Some(out)
}

/// A part list whose members all fit makes the grid's values fit.
proof fn lemma_parts_vals(ls: Seq<Seq<char>>, out: Seq<Part>)
    requires
        parts_from(ls, 0) == out.map_values(|p: Part| p.pview()),
        forall|k: int| 0 <= k < out.len() ==> (#[trigger] out[k]).value <= u32::MAX,
    ensures
        parts_vals_ok(ls),
{
    assert forall|j: int| 0 <= j < parts_from(ls, 0).len() implies (#[trigger] parts_from(
        ls,
        0,
    )[j]).0 <= u32::MAX by {
        assert(parts_from(ls, 0)[j] == out[j].pview());
    }
}

/// The value at row `i`, run `k` is a member of the whole part list.
proof fn lemma_parts_member(ls: Seq<Seq<char>>, i: int, k: int)
    requires
        0 <= i < ls.len(),
        0 <= k < spec_digit_runs(ls[i]).len(),
    ensures
        ({
            let ps = parts_from(ls, 0);
            exists|j: int|
                0 <= j < ps.len() && (#[trigger] ps[j]).0 == digits_value(
                    ls[i].subrange(spec_digit_runs(ls[i])[k].0, spec_digit_runs(ls[i])[k].1),
                )
        }),
{
    lemma_parts_member_from(ls, 0, i, k);
}

proof fn lemma_parts_member_from(ls: Seq<Seq<char>>, s: int, i: int, k: int)
    requires
        0 <= s <= i < ls.len(),
        0 <= k < spec_digit_runs(ls[i]).len(),
    ensures
        ({
            let ps = parts_from(ls, s);
            exists|j: int|
                0 <= j < ps.len() && (#[trigger] ps[j]).0 == digits_value(
                    ls[i].subrange(spec_digit_runs(ls[i])[k].0, spec_digit_runs(ls[i])[k].1),
                )
        }),
    decreases i - s,
{
    if s == i {
        assert(parts_from(ls, s)[k] == row_parts(ls[i], i)[k]);
    } else {
        lemma_parts_member_from(ls, s + 1, i, k);
        let ps2 = parts_from(ls, s + 1);
        let j2 = choose|j: int|
            0 <= j < ps2.len() && (#[trigger] ps2[j]).0 == digits_value(
                ls[i].subrange(spec_digit_runs(ls[i])[k].0, spec_digit_runs(ls[i])[k].1),
            );
        assert(parts_from(ls, s)[row_parts(ls[s], s).len() + j2] == ps2[j2]);
    }
}

/// Scan the symbol box around a run.
fn box_has_symbol(grid: &Vec<Vec<char>>, ghost_ls: Ghost<Seq<Seq<char>>>, row: usize, a: usize, b: usize) -> (r: bool)
    requires
        grid@.len() == ghost_ls@.len(),
        (row as int) < grid@.len(),
        forall|k: int| 0 <= k < grid@.len() ==> #[trigger] grid@[k]@ == ghost_ls@[k],
    ensures
        r == adj_sym(ghost_ls@, row as int, a as int, b as int),
{
    let ghost ls = ghost_ls@;
    let nrows = grid.len();
    let r_lo = if row > 0 {
        row - 1
    } else {
        0
    };
    let mut rr = r_lo;
    #[verifier::loop_isolation(false)]
    while rr < grid.len() && rr <= row + 1
        invariant
            r_lo <= rr,
            forall|r2: int, c2: int|
                row - 1 <= r2 < rr && 0 <= r2 < ls.len() && a - 1 <= c2 <= b && 0 <= c2
                    < ls[r2].len() ==> !is_sym(#[trigger] ls[r2][c2]),
        decreases grid@.len() + row + 2 - rr,
    {
        let line = &grid[rr];
        let c_lo = if a > 0 {
            a - 1
        } else {
            0
        };
        let mut cc = c_lo;
        #[verifier::loop_isolation(false)]
        while cc < line.len() && cc <= b
            invariant
                c_lo <= cc,
                line@ == ls[rr as int],
                forall|c2: int|
                    a - 1 <= c2 < cc && 0 <= c2 < ls[rr as int].len() ==> !is_sym(
                        #[trigger] ls[rr as int][c2],
                    ),
            decreases line@.len() + b + 2 - cc,
        {
            let ch = line[cc];
            let digit = ch >= '0' && ch <= '9';
            proof {
                assert('0' as int == 48 && '9' as int == 57);
            }
            if !digit && ch != '.' {
                proof {
                    assert(is_sym(ls[rr as int][cc as int]));
                }
                return true;
            }
            cc = cc + 1;
        }
        rr = rr + 1;
    }
    proof {
        assert forall|r2: int, c2: int|
            row - 1 <= r2 <= row + 1 && 0 <= r2 < ls.len() && a - 1 <= c2 <= b && 0 <= c2
                < ls[r2].len() implies !is_sym(#[trigger] ls[r2][c2]) by {}
    }
    false
}

/// The sum of all part numbers adjacent to a symbol; nothing when the
/// grid is empty or ragged, a value does not fit in `u32`, or the sum
/// does not.
pub fn part_one(input: &str) -> (r: Option<u32>)
    ensures
        ({
            let ls = spec_lines(input@);
            match r {
                Some(v) => rect_ok(ls) && parts_vals_ok(ls) && v as int == parts_sum(
                    ls,
                    parts_from(ls, 0),
                    0,
                ),
                None => !rect_ok(ls) || !parts_vals_ok(ls) || parts_sum(ls, parts_from(ls, 0), 0)
                    > u32::MAX,
            }
        }),
{
    let cs = to_chars(input);
    let grid = lines_of(&cs);
    let ghost ls = spec_lines(input@);
    if grid.len() == 0 {
        return None;
    }
    let w = grid[0].len();
    let mut i: usize = 0;
    #[verifier::loop_isolation(false)]
    while i < grid.len()
        invariant
            0 <= i <= grid@.len(),
            w as int == ls[0].len(),
            forall|k: int| 0 <= k < i ==> #[trigger] ls[k].len() == ls[0].len(),
        decreases grid@.len() - i,
    {
        if grid[i].len() != w {
            return None;
        }
        i = i + 1;
    }
    let parts = match collect_parts(&grid, Ghost(ls)) {
        Some(p) => p,
        None => {
            return None;
        },
    };
    let ghost ps = parts_from(ls, 0);
    let mut acc: u64 = 0;
    let mut j: usize = 0;
    #[verifier::loop_isolation(false)]
    while j < parts.len()
        invariant
            0 <= j <= parts@.len(),
            ps == parts_from(ls, 0),
            ps == parts@.map_values(|p: Part| p.pview()),
            acc <= 0xFFFF_FFFF,
            parts_sum(ls, ps, 0) == acc + parts_sum(ls, ps, j as int),
            forall|k: int|
                0 <= k < parts@.len() ==> (#[trigger] parts@[k]).value <= u32::MAX && (
                parts@[k].row as int) < ls.len() && 0 <= (parts@[k].a as int) < (
                parts@[k].b as int) <= ls[parts@[k].row as int].len(),
        decreases parts@.len() - j,
    {
        let p = &parts[j];
        proof {
            assert(ps[j as int] == parts@[j as int].pview());
        }
        let hit = box_has_symbol(&grid, Ghost(ls), p.row, p.a, p.b);
        proof {
            lemma_parts_sum_bounds(ls, ps, j as int + 1);
        }
        if hit {
            if acc + p.value > 0xFFFF_FFFF {
                proof {
                    lemma_parts_sum_bounds(ls, ps, j as int + 1);
                }
                return None;
            }
            acc = acc + p.value;
        }
        j = j + 1;
    }
    Some(acc as u32)
}

proof fn lemma_parts_sum_bounds(ls: Seq<Seq<char>>, ps: Seq<(int, int, int, int)>, j: int)
    requires
        forall|k: int| 0 <= k < ps.len() ==> (#[trigger] ps[k]).0 >= 0,
    ensures
        parts_sum(ls, ps, j) >= 0,
    decreases ps.len() - j,
{
    if 0 <= j < ps.len() {
        lemma_parts_sum_bounds(ls, ps, j + 1);
    }
}

/// The sum of all gear ratios; nothing when the grid is empty or
/// ragged, a value does not fit, or the sum does not.
pub fn part_two(input: &str) -> (r: Option<u32>)
    ensures
        ({
            let ls = spec_lines(input@);
            match r {
                Some(v) => rect_ok(ls) && parts_vals_ok(ls) && v as int == gear_sum(
                    ls,
                    parts_from(ls, 0),
                    0,
                ),
                None => !rect_ok(ls) || !parts_vals_ok(ls) || gear_sum(ls, parts_from(ls, 0), 0)
                    > u32::MAX,
            }
        }),
{
    let cs = to_chars(input);
    let grid = lines_of(&cs);
    let ghost ls = spec_lines(input@);
    if grid.len() == 0 {
        return None;
    }
    let w = grid[0].len();
    let mut i0: usize = 0;
    #[verifier::loop_isolation(false)]
    while i0 < grid.len()
        invariant
            0 <= i0 <= grid@.len(),
            w as int == ls[0].len(),
            forall|k: int| 0 <= k < i0 ==> #[trigger] ls[k].len() == ls[0].len(),
        decreases grid@.len() - i0,
    {
        if grid[i0].len() != w {
            return None;
        }
        i0 = i0 + 1;
    }
    let parts = match collect_parts(&grid, Ghost(ls)) {
        Some(p) => p,
        None => {
            return None;
        },
    };
    let ghost ps = parts_from(ls, 0);
    let mut acc: u64 = 0;
    let mut r0: usize = 0;
    #[verifier::loop_isolation(false)]
    while r0 < grid.len()
        invariant
            0 <= r0 <= grid@.len(),
            ps == parts_from(ls, 0),
            ps == parts@.map_values(|p: Part| p.pview()),
            acc <= 0xFFFF_FFFF,
            gear_sum(ls, ps, 0) == acc + gear_sum(ls, ps, r0 as int),
            forall|k: int| 0 <= k < parts@.len() ==> (#[trigger] parts@[k]).value <= u32::MAX,
        decreases grid@.len() - r0,
    {
        let line = &grid[r0];
        let mut c0: usize = 0;
        proof {
            lemma_gear_sum_nonneg(ls, ps, r0 as int + 1);
        }
        #[verifier::loop_isolation(false)]
        while c0 < line.len()
            invariant
                0 <= c0 <= line@.len(),
                line@ == ls[r0 as int],
                acc <= 0xFFFF_FFFF,
                gear_sum(ls, ps, 0) == acc + gear_row_sum(ls, ps, r0 as int, c0 as int)
                    + gear_sum(ls, ps, r0 as int + 1),
            decreases line@.len() - c0,
        {
            let ch = line[c0];
            if ch == '*' {
                let ratio = gear_ratio_at(&parts, Ghost(ps), r0, c0);
                proof {
                    lemma_gear_row_nonneg(ls, ps, r0 as int, c0 as int + 1);
                    lemma_gear_sum_nonneg(ls, ps, r0 as int + 1);
                    lemma_gear_ratio_nonneg(ps, r0 as int, c0 as int);
                }
                if ratio > 0xFFFF_FFFF {
                    return None;
                }
                if acc + ratio > 0xFFFF_FFFF {
                    return None;
                }
                acc = acc + ratio;
            }
            c0 = c0 + 1;
        }
        r0 = r0 + 1;
    }
    Some(acc as u32)
}

/// The product of the two touching part values at a gear cell, zero
/// otherwise.
fn gear_ratio_at(parts: &Vec<Part>, ghost_ps: Ghost<Seq<(int, int, int, int)>>, r: usize, c: usize) -> (out: u64)
    requires
        ghost_ps@ == parts@.map_values(|p: Part| p.pview()),
        forall|k: int| 0 <= k < parts@.len() ==> (#[trigger] parts@[k]).value <= u32::MAX,
    ensures
        out as int == gear_ratio(ghost_ps@, r as int, c as int),
{
    let ghost ps = ghost_ps@;
    let ghost pred = |p: (int, int, int, int)| touches(p, r as int, c as int);
    let mut count: usize = 0;
    let mut first: u64 = 0;
    let mut second: u64 = 0;
    let mut j: usize = 0;
    proof {
        assert(ps.take(0) =~= Seq::<(int, int, int, int)>::empty());
        reveal_with_fuel(Seq::filter, 1);
    }
    #[verifier::loop_isolation(false)]
    while j < parts.len()
        invariant
            0 <= j <= parts@.len(),
            count as int == ps.take(j as int).filter(pred).len(),
            count >= 1 ==> first as int == ps.take(j as int).filter(pred)[0].0,
            count >= 2 ==> second as int == ps.take(j as int).filter(pred)[1].0,
            count <= j,
            first <= u32::MAX,
            second <= u32::MAX,
        decreases parts@.len() - j,
    {
        let p = &parts[j];
        proof {
            assert(ps[j as int] == parts@[j as int].pview());
            assert(ps.take(j as int + 1).drop_last() =~= ps.take(j as int));
            assert(ps.take(j as int + 1).last() == ps[j as int]);
            reveal_with_fuel(Seq::filter, 2);
        }
        let touch = (p.row == 0 || p.row - 1 <= r) && (r == 0 || r - 1 <= p.row) && (p.a == 0
            || p.a - 1 <= c) && (c <= p.b);
        proof {
            assert(touch == pred(ps[j as int]));
        }
        if touch {
            if count == 0 {
                first = p.value;
            } else if count == 1 {
                second = p.value;
            }
            count = count + 1;
        }
        j = j + 1;
    }
    proof {
        assert(ps.take(j as int) =~= ps);
    }
    if count == 2 {
        proof {
            vstd::arithmetic::mul::lemma_mul_upper_bound(
                first as int,
                0xFFFF_FFFFint,
                second as int,
                0xFFFF_FFFFint,
            );
            vstd::arithmetic::mul::lemma_mul_nonnegative(first as int, second as int);
        }
        first * second
    } else {
        0
    }
}

proof fn lemma_gear_ratio_nonneg(ps: Seq<(int, int, int, int)>, r: int, c: int)
    requires
        forall|k: int| 0 <= k < ps.len() ==> (#[trigger] ps[k]).0 >= 0 && ps[k].0 <= u32::MAX,
    ensures
        0 <= gear_ratio(ps, r, c) <= 0xFFFF_FFFF_0000_0001,
{
    let pred = |p: (int, int, int, int)| touches(p, r, c);
    let adj = ps.filter(pred);
    if adj.len() == 2 {
        assert(adj.contains(adj[0]) && adj.contains(adj[1]));
        ps.lemma_filter_contains_rev(pred, adj[0]);
        ps.lemma_filter_contains_rev(pred, adj[1]);
        let i0 = choose|i: int| 0 <= i < ps.len() && ps[i] == adj[0];
        let i1 = choose|i: int| 0 <= i < ps.len() && ps[i] == adj[1];
        assert(adj[0].0 <= u32::MAX && adj[0].0 >= 0);
        assert(adj[1].0 <= u32::MAX && adj[1].0 >= 0);
        vstd::arithmetic::mul::lemma_mul_upper_bound(adj[0].0, 0xFFFF_FFFFint, adj[1].0, 0xFFFF_FFFFint);
        vstd::arithmetic::mul::lemma_mul_nonnegative(adj[0].0, adj[1].0);
    }
}

proof fn lemma_gear_row_nonneg(ls: Seq<Seq<char>>, ps: Seq<(int, int, int, int)>, r: int, c: int)
    requires
        forall|k: int| 0 <= k < ps.len() ==> (#[trigger] ps[k]).0 >= 0 && ps[k].0 <= u32::MAX,
    ensures
        gear_row_sum(ls, ps, r, c) >= 0,
    decreases ls[r].len() - c,
{
    if 0 <= r < ls.len() && 0 <= c < ls[r].len() {
        lemma_gear_row_nonneg(ls, ps, r, c + 1);
        lemma_gear_ratio_nonneg(ps, r, c);
    }
}

proof fn lemma_gear_sum_nonneg(ls: Seq<Seq<char>>, ps: Seq<(int, int, int, int)>, r: int)
    requires
        forall|k: int| 0 <= k < ps.len() ==> (#[trigger] ps[k]).0 >= 0 && ps[k].0 <= u32::MAX,
    ensures
        gear_sum(ls, ps, r) >= 0,
    decreases ls.len() - r,
{
    if 0 <= r < ls.len() {
        lemma_gear_sum_nonneg(ls, ps, r + 1);
        lemma_gear_row_nonneg(ls, ps, r, 0);
    }
}

} // verus!
