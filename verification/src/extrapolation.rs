//! Sequence extrapolation: each report line is a list of integers, and the
//! next (or previous) value of a line is found by repeatedly taking
//! differences until the pyramid is exhausted, then folding the last (or
//! first) entries of the difference rows back together.

use vstd::prelude::*;
use crate::text::{spec_lines, spec_tokens, to_chars, lines_of, tokens_of, parse_i64, int_token_val};

verus! {

/// The consecutive differences of a sequence.
pub open spec fn diffs(s: Seq<int>) -> Seq<int> {
    if s.len() <= 1 {
        Seq::empty()
    } else {
        Seq::new((s.len() - 1) as nat, |i: int| s[i + 1] - s[i])
    }
}

/// The `k`-th difference row of a sequence.
pub open spec fn iter_diffs(s: Seq<int>, k: nat) -> Seq<int>
    decreases k,
{
    if k == 0 {
        s
    } else {
        diffs(iter_diffs(s, (k - 1) as nat))
    }
}

/// The extrapolated next value: the sum of the last entries of all
/// difference rows.
pub open spec fn predict_next_spec(s: Seq<int>) -> int
    decreases s.len(),
{
    if s.len() == 0 {
        0
    } else {
        s.last() + predict_next_spec(diffs(s))
    }
}

/// The extrapolated previous value: the alternating fold of the first
/// entries of all difference rows.
pub open spec fn predict_prev_spec(s: Seq<int>) -> int
    decreases s.len(),
{
    if s.len() == 0 {
        0
    } else {
        s[0] - predict_prev_spec(diffs(s))
    }
}

pub open spec fn in_i64(x: int) -> bool {
    i64::MIN <= x <= i64::MAX
}

/// Every entry of every difference row fits in `i64`.
pub open spec fn rows_ok(s: Seq<int>) -> bool
    decreases s.len(),
{
    if s.len() == 0 {
        true
    } else {
        (forall|j: int| 0 <= j < diffs(s).len() ==> in_i64(#[trigger] diffs(s)[j])) && rows_ok(
            diffs(s),
        )
    }
}

/// Every running sum taken while adding up the rows' last entries fits
/// in `i64`.
pub open spec fn next_acc_ok(s: Seq<int>, acc: int) -> bool
    decreases s.len(),
{
    if s.len() == 0 {
        true
    } else {
        in_i64(acc + s.last()) && next_acc_ok(diffs(s), acc + s.last())
    }
}

/// Every intermediate previous-value fold fits in `i64`.
pub open spec fn prev_ok(s: Seq<int>) -> bool
    decreases s.len(),
{
    if s.len() == 0 {
        true
    } else {
        prev_ok(diffs(s)) && in_i64(s[0] - predict_prev_spec(diffs(s)))
    }
}

pub open spec fn ints_of(v: Seq<i64>) -> Seq<int> {
    v.map_values(|x: i64| x as int)
}

/// Compute the checked difference row; `None` when some difference
/// overflows.
fn diff_row(v: &Vec<i64>) -> (r: Option<Vec<i64>>)
    ensures
        match r {
            Some(d) => ints_of(d@) == diffs(ints_of(v@)),
            None => exists|j: int| 0 <= j < diffs(ints_of(v@)).len() && !in_i64(
                #[trigger] diffs(ints_of(v@))[j],
            ),
        },
{
    let ghost s = ints_of(v@);
    let mut out: Vec<i64> = Vec::new();
    if v.len() <= 1 {
        proof {
            assert(ints_of(out@) =~= diffs(s));
        }
        return Some(out);
    }
    let mut i: usize = 0;
    #[verifier::loop_isolation(false)]
    while i < v.len() - 1
        invariant
            0 <= i <= v@.len() - 1,
            v@.len() >= 2,
            out@.len() == i,
            forall|j: int| 0 <= j < i ==> #[trigger] out@[j] as int == diffs(s)[j],
        decreases v@.len() - 1 - i,
    {
        let a = v[i];
        let b = v[i + 1];
        let d = match b.checked_sub(a) {
            Some(d) => d,
            None => {
                proof {
                    assert(diffs(s)[i as int] == s[i as int + 1] - s[i as int]);
                    assert(!in_i64(diffs(s)[i as int]));
                }
                return None;
            },
        };
        out.push(d);
        i = i + 1;
    }
    proof {
        assert forall|j: int| 0 <= j < diffs(s).len() implies ints_of(out@)[j] == #[trigger] diffs(
            s,
        )[j] by {
            assert(out@[j] as int == diffs(s)[j]);
        }
        assert(ints_of(out@) =~= diffs(s));
    }
    Some(out)
}

/// The next value of one report line; `None` when an intermediate value
/// does not fit in `i64`.
pub fn predict_next(v: &Vec<i64>) -> (r: Option<i64>)
    ensures
        match r {
            Some(x) => rows_ok(ints_of(v@)) && next_acc_ok(ints_of(v@), 0) && x
                == predict_next_spec(ints_of(v@)),
            None => !(rows_ok(ints_of(v@)) && next_acc_ok(ints_of(v@), 0)),
        },
{
    let ghost s0 = ints_of(v@);
    let mut w: Vec<i64> = Vec::new();
    let mut i: usize = 0;
    #[verifier::loop_isolation(false)]
    while i < v.len()
        invariant
            0 <= i <= v@.len(),
            w@.len() == i,
            forall|j: int| 0 <= j < i ==> #[trigger] w@[j] == v@[j],
        decreases v@.len() - i,
    {
        w.push(v[i]);
        i = i + 1;
    }
    proof {
        assert forall|j: int| 0 <= j < v@.len() implies ints_of(w@)[j] == #[trigger] s0[j] by {
            assert(w@[j] == v@[j]);
        }
        assert(ints_of(w@) =~= s0);
    }
    let mut acc: i64 = 0;
    #[verifier::loop_isolation(false)]
    loop
        invariant
            (rows_ok(s0) && next_acc_ok(s0, 0)) == (rows_ok(ints_of(w@)) && next_acc_ok(
                ints_of(w@),
                acc as int,
            )),
            predict_next_spec(s0) == acc + predict_next_spec(ints_of(w@)),
        decreases w@.len(),
    {
        if w.len() == 0 {
            return Some(acc);
        }
        let ghost cur = ints_of(w@);
        let last = w[w.len() - 1];
        proof {
            assert(cur.last() == last as int);
        }
        let acc2 = match acc.checked_add(last) {
            Some(a) => a,
            None => {
                proof {
                    assert(!next_acc_ok(cur, acc as int));
                }
                return None;
            },
        };
        let d = match diff_row(&w) {
            Some(d) => d,
            None => {
                proof {
                    assert(!rows_ok(cur));
                }
                return None;
            },
        };
        proof {
            assert forall|j: int| 0 <= j < diffs(cur).len() implies in_i64(
                #[trigger] diffs(cur)[j],
            ) by {
                assert(diffs(cur)[j] == ints_of(d@)[j]);
                assert(ints_of(d@)[j] == d@[j] as int);
            }
        }
        acc = acc2;
        w = d;
    }
}

/// The previous value of one report line; `None` when an intermediate
/// value does not fit in `i64`.
pub fn predict_previous(v: &Vec<i64>) -> (r: Option<i64>)
    ensures
        match r {
            Some(x) => rows_ok(ints_of(v@)) && prev_ok(ints_of(v@)) && x == predict_prev_spec(
                ints_of(v@),
            ),
            None => !(rows_ok(ints_of(v@)) && prev_ok(ints_of(v@))),
        },
{
    let ghost s0 = ints_of(v@);
    let mut w: Vec<i64> = Vec::new();
    let mut i: usize = 0;
    #[verifier::loop_isolation(false)]
    while i < v.len()
        invariant
            0 <= i <= v@.len(),
            w@.len() == i,
            forall|j: int| 0 <= j < i ==> #[trigger] w@[j] == v@[j],
        decreases v@.len() - i,
    {
        w.push(v[i]);
        i = i + 1;
    }
    proof {
        assert forall|j: int| 0 <= j < v@.len() implies ints_of(w@)[j] == #[trigger] s0[j] by {
            assert(w@[j] == v@[j]);
        }
        assert(ints_of(w@) =~= s0);
    }
    let mut firsts: Vec<i64> = Vec::new();
    let ghost mut depth: nat = 0;
    #[verifier::loop_isolation(false)]
    loop
        invariant
            depth == firsts@.len(),
            ints_of(w@) == iter_diffs(s0, depth),
            forall|m: int|
                0 <= m < firsts@.len() ==> #[trigger] firsts@[m] as int == iter_diffs(
                    s0,
                    m as nat,
                )[0] && iter_diffs(s0, m as nat).len() > 0,
            rows_ok(s0) == rows_ok(ints_of(w@)),
        decreases w@.len(),
    {
        if w.len() == 0 {
            break ;
        }
        firsts.push(w[0]);
        proof {
            assert(firsts@[firsts@.len() - 1] == w@[0]);
        }
        let ghost cur = ints_of(w@);
        let d = match diff_row(&w) {
            Some(d) => d,
            None => {
                proof {
                    assert(!rows_ok(ints_of(w@)));
                }
                return None;
            },
        };
        proof {
            assert forall|j: int| 0 <= j < diffs(cur).len() implies in_i64(
                #[trigger] diffs(cur)[j],
            ) by {
                assert(diffs(cur)[j] == ints_of(d@)[j]);
                assert(ints_of(d@)[j] == d@[j] as int);
            }
        }
        w = d;
        proof {
            depth = depth + 1;
        }
    }
    let ghost total = depth;
    proof {
        assert(iter_diffs(s0, total).len() == 0);
        assert(predict_prev_spec(iter_diffs(s0, total)) == 0);
        assert(prev_ok(iter_diffs(s0, total)));
    }
    let mut acc: i64 = 0;
    let mut k: usize = firsts.len();
    #[verifier::loop_isolation(false)]
    while k > 0
        invariant
            0 <= k <= firsts@.len(),
            firsts@.len() == total,
            acc as int == predict_prev_spec(iter_diffs(s0, k as nat)),
            prev_ok(iter_diffs(s0, k as nat)),
        decreases k,
    {
        let ghost below = iter_diffs(s0, k as nat);
        let ghost here = iter_diffs(s0, (k - 1) as nat);
        proof {
            assert(firsts@[k - 1] as int == iter_diffs(s0, (k - 1) as nat)[0]);
            assert(diffs(here) == below);
            assert(here.len() > 0);
        }
        let f = firsts[k - 1];
        let acc2 = match f.checked_sub(acc) {
            Some(a) => a,
            None => {
                proof {
                    assert(!in_i64(here[0] - predict_prev_spec(diffs(here))));
                    assert(!prev_ok(here));
                    lemma_prev_ok_iter(s0, (k - 1) as nat);
                }
                return None;
            },
        };
        acc = acc2;
        k = k - 1;
    }
    proof {
        assert(prev_ok(s0));
    }
    Some(acc)
}

/// The numbers named by a token list from index `i` on, each fitting in
/// `i64`; nothing if some token is not such a number.
pub open spec fn nums_of_tokens(ts: Seq<Seq<char>>, i: int) -> Option<Seq<int>>
    decreases ts.len() - i,
{
    if i < 0 || i >= ts.len() {
        Some(Seq::empty())
    } else {
        match (int_token_val(ts[i]), nums_of_tokens(ts, i + 1)) {
            (Some(v), Some(rest)) => if in_i64(v) {
                Some(seq![v] + rest)
            } else {
                None
            },
            _ => None,
        }
    }
}

/// The numbers of one report line.
pub open spec fn line_nums(l: Seq<char>) -> Option<Seq<int>> {
    nums_of_tokens(spec_tokens(l), 0)
}

/// Every line of the report parses into numbers.
pub open spec fn parse_ok(lines: Seq<Seq<char>>) -> bool {
    forall|k: int| 0 <= k < lines.len() ==> (#[trigger] line_nums(lines[k])) is Some
}

/// The sum of the extrapolated next values of the lines from `i` on.
pub open spec fn next_total(lines: Seq<Seq<char>>, i: int) -> int
    decreases lines.len() - i,
{
    if i < 0 || i >= lines.len() {
        0
    } else {
        predict_next_spec(line_nums(lines[i])->Some_0) + next_total(lines, i + 1)
    }
}

/// The sum of the extrapolated previous values of the lines from `i` on.
pub open spec fn prev_total(lines: Seq<Seq<char>>, i: int) -> int
    decreases lines.len() - i,
{
    if i < 0 || i >= lines.len() {
        0
    } else {
        predict_prev_spec(line_nums(lines[i])->Some_0) + prev_total(lines, i + 1)
    }
}

/// All per-line next-value computations and their running total fit.
pub open spec fn day_next_ok(lines: Seq<Seq<char>>, i: int, acc: int) -> bool
    decreases lines.len() - i,
{
    if i < 0 || i >= lines.len() {
        true
    } else {
        let nums = line_nums(lines[i])->Some_0;
        &&& rows_ok(nums)
        &&& next_acc_ok(nums, 0)
        &&& in_i64(acc + predict_next_spec(nums))
        &&& day_next_ok(lines, i + 1, acc + predict_next_spec(nums))
    }
}

/// All per-line previous-value computations and their running total fit.
pub open spec fn day_prev_ok(lines: Seq<Seq<char>>, i: int, acc: int) -> bool
    decreases lines.len() - i,
{
    if i < 0 || i >= lines.len() {
        true
    } else {
        let nums = line_nums(lines[i])->Some_0;
        &&& rows_ok(nums)
        &&& prev_ok(nums)
        &&& in_i64(acc + predict_prev_spec(nums))
        &&& day_prev_ok(lines, i + 1, acc + predict_prev_spec(nums))
    }
}

/// Parse one report line into its numbers.
fn parse_line(l: &Vec<char>) -> (r: Option<Vec<i64>>)
    ensures
        match r {
            Some(v) => line_nums(l@) == Some(ints_of(v@)),
            None => line_nums(l@) is None,
        },
{
    let toks = tokens_of(l);
    let ghost ts = spec_tokens(l@);
    let mut out: Vec<i64> = Vec::new();
    let mut j: usize = 0;
    #[verifier::loop_isolation(false)]
    while j < toks.len()
        invariant
            0 <= j <= toks@.len(),
            toks@.len() == ts.len(),
            forall|k: int| 0 <= k < ts.len() ==> #[trigger] toks@[k]@ == ts[k],
            match nums_of_tokens(ts, j as int) {
                Some(rest) => nums_of_tokens(ts, 0) == Some(ints_of(out@) + rest),
                None => nums_of_tokens(ts, 0) is None,
            },
        decreases toks@.len() - j,
    {
        let v = match parse_i64(&toks[j]) {
            Some(v) => v,
            None => {
                return None;
            },
        };
        out.push(v);
        proof {
            assert(ints_of(out@) =~= ints_of(out@.drop_last()) + seq![v as int]);
            if nums_of_tokens(ts, j as int + 1) is Some {
                assert((ints_of(out@.drop_last()) + seq![v as int]) + nums_of_tokens(
                    ts,
                    j as int + 1,
                )->Some_0 =~= ints_of(out@.drop_last()) + (seq![v as int] + nums_of_tokens(
                    ts,
                    j as int + 1,
                )->Some_0));
            }
        }
        j = j + 1;
    }
    proof {
        assert(ints_of(out@) + Seq::<int>::empty() =~= ints_of(out@));
    }
    Some(out)
}

/// The sum of the extrapolated next values of all report lines; nothing
/// when the report does not parse or an intermediate value does not fit.
pub fn part_one(input: &str) -> (r: Option<i64>)
    ensures
        ({
            let ls = spec_lines(input@);
            match r {
                Some(v) => parse_ok(ls) && day_next_ok(ls, 0, 0) && v as int == next_total(ls, 0),
                None => !parse_ok(ls) || !day_next_ok(ls, 0, 0),
            }
        }),
{
    let cs = to_chars(input);
    let lines = lines_of(&cs);
    let ghost ls = spec_lines(input@);
    let mut acc: i64 = 0;
    let mut i: usize = 0;
    #[verifier::loop_isolation(false)]
    while i < lines.len()
        invariant
            0 <= i <= lines@.len(),
            forall|k: int| 0 <= k < i ==> (#[trigger] line_nums(ls[k])) is Some,
            day_next_ok(ls, 0, 0) == day_next_ok(ls, i as int, acc as int),
            next_total(ls, 0) == acc + next_total(ls, i as int),
        decreases lines@.len() - i,
    {
        let nums = match parse_line(&lines[i]) {
            Some(v) => v,
            None => {
                return None;
            },
        };
        let nv = match predict_next(&nums) {
            Some(x) => x,
            None => {
                proof {
                    assert(!day_next_ok(ls, i as int, acc as int));
                }
                return None;
            },
        };
        let acc2 = match acc.checked_add(nv) {
            Some(a) => a,
            None => {
                proof {
                    assert(!day_next_ok(ls, i as int, acc as int));
                }
                return None;
            },
        };
        acc = acc2;
        i = i + 1;
    }
    Some(acc)
}

/// The sum of the extrapolated previous values of all report lines;
/// nothing when the report does not parse or an intermediate value does
/// not fit.
pub fn part_two(input: &str) -> (r: Option<i64>)
    ensures
        ({
            let ls = spec_lines(input@);
            match r {
                Some(v) => parse_ok(ls) && day_prev_ok(ls, 0, 0) && v as int == prev_total(ls, 0),
                None => !parse_ok(ls) || !day_prev_ok(ls, 0, 0),
            }
        }),
{
    let cs = to_chars(input);
    let lines = lines_of(&cs);
    let ghost ls = spec_lines(input@);
    let mut acc: i64 = 0;
    let mut i: usize = 0;
    #[verifier::loop_isolation(false)]
    while i < lines.len()
        invariant
            0 <= i <= lines@.len(),
            forall|k: int| 0 <= k < i ==> (#[trigger] line_nums(ls[k])) is Some,
            day_prev_ok(ls, 0, 0) == day_prev_ok(ls, i as int, acc as int),
            prev_total(ls, 0) == acc + prev_total(ls, i as int),
        decreases lines@.len() - i,
    {
        let nums = match parse_line(&lines[i]) {
            Some(v) => v,
            None => {
                return None;
            },
        };
        let nv = match predict_previous(&nums) {
            Some(x) => x,
            None => {
                proof {
                    assert(!day_prev_ok(ls, i as int, acc as int));
                }
                return None;
            },
        };
        let acc2 = match acc.checked_add(nv) {
            Some(a) => a,
            None => {
                proof {
                    assert(!day_prev_ok(ls, i as int, acc as int));
                }
                return None;
            },
        };
        acc = acc2;
        i = i + 1;
    }
    Some(acc)
}

/// A line whose folds all fit keeps that property on every difference
/// row; contrapositively, a fold failure on some row refutes the whole
/// line's `prev_ok`.
proof fn lemma_prev_ok_iter(s: Seq<int>, k: nat)
    ensures
        prev_ok(s) ==> prev_ok(iter_diffs(s, k)),
    decreases k,
{
    if k > 0 {
        lemma_prev_ok_iter(s, (k - 1) as nat);
        let here = iter_diffs(s, (k - 1) as nat);
        if here.len() == 0 {
            assert(iter_diffs(s, k) =~= Seq::<int>::empty());
        }
    }
}

} // verus!
