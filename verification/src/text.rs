//! Character-level text utilities shared by the solvers: turning a string
//! into its characters, splitting into lines and tokens, and reading
//! unsigned and signed decimal numbers, each proved against a
//! specification over `Seq<char>`.

use vstd::prelude::*;
use vstd::string::StrSliceExecFns;

verus! {

/// The characters of `s`, in order.
pub fn to_chars(s: &str) -> (r: Vec<char>)
    ensures
        r@ == s@,
{
    let n = s.unicode_len();
    let mut out: Vec<char> = Vec::new();
    let mut i: usize = 0;
    while i < n
        invariant
            i <= n,
            n == s@.len(),
            out@ == s@.subrange(0, i as int),
        decreases n - i,
    {
        out.push(s.get_char(i));
        i = i + 1;
        proof {
            assert(out@ =~= s@.subrange(0, i as int));
        }
    }
    proof {
        assert(out@ =~= s@);
    }
    out
}

/// Split a sequence at every element satisfying `p`; the separators are
/// dropped and the result always has one segment more than there are
/// separators.
pub open spec fn split_when<T>(s: Seq<T>, p: spec_fn(T) -> bool) -> Seq<Seq<T>>
    decreases s.len(),
{
    if s.len() == 0 {
        seq![Seq::<T>::empty()]
    } else if p(s[0]) {
        seq![Seq::<T>::empty()] + split_when(s.drop_first(), p)
    } else {
        let rest = split_when(s.drop_first(), p);
        seq![seq![s[0]] + rest[0]] + rest.drop_first()
    }
}

pub proof fn lemma_split_when_len<T>(s: Seq<T>, p: spec_fn(T) -> bool)
    ensures
        split_when(s, p).len() >= 1,
    decreases s.len(),
{
    if s.len() == 0 {
    } else {
        lemma_split_when_len(s.drop_first(), p);
    }
}

/// One scanning step: how the split of the suffix starting at `i` relates
/// to the split of the suffix starting at `i + 1`.
pub proof fn lemma_split_when_step<T>(s: Seq<T>, p: spec_fn(T) -> bool, i: int)
    requires
        0 <= i < s.len(),
    ensures
        p(s[i]) ==> split_when(s.skip(i), p) == seq![Seq::<T>::empty()] + split_when(
            s.skip(i + 1),
            p,
        ),
        !p(s[i]) ==> split_when(s.skip(i), p) == seq![
            seq![s[i]] + split_when(s.skip(i + 1), p)[0],
        ] + split_when(s.skip(i + 1), p).drop_first(),
{
    assert(s.skip(i).drop_first() =~= s.skip(i + 1));
    assert(s.skip(i)[0] == s[i]);
}

/// Split the characters at every occurrence of `sep`.
pub fn split_on_char(s: &Vec<char>, sep: char) -> (r: Vec<Vec<char>>)
    ensures
        r@.len() == split_when(s@, |c: char| c == sep).len(),
        forall|k: int|
            0 <= k < r@.len() ==> #[trigger] r@[k]@ == split_when(s@, |c: char| c == sep)[k],
{
    let ghost p = |c: char| c == sep;
    let ghost all = split_when(s@, p);
    let mut done: Vec<Vec<char>> = Vec::new();
    let mut cur: Vec<char> = Vec::new();
    let mut i: usize = 0;
    proof {
        assert(s@.skip(0) =~= s@);
        lemma_split_when_len(s@, p);
        assert(Seq::<char>::empty() + all[0] =~= all[0]);
        assert(all.drop_first() =~= all.subrange(1, all.len() as int));
    }
    #[verifier::loop_isolation(false)]
    while i < s.len()
        invariant
            i <= s@.len(),
            all == split_when(s@, p),
            done@.len() + 1 <= all.len(),
            forall|k: int| 0 <= k < done@.len() ==> #[trigger] done@[k]@ == all[k],
            cur@ + split_when(s@.skip(i as int), p)[0] == all[done@.len() as int],
            split_when(s@.skip(i as int), p).drop_first() == all.subrange(
                done@.len() as int + 1,
                all.len() as int,
            ),
        decreases s@.len() - i,
    {
        let c = s[i];
        let ghost r1 = split_when(s@.skip(i as int), p);
        let ghost r2 = split_when(s@.skip(i as int + 1), p);
        proof {
            lemma_split_when_step(s@, p, i as int);
            lemma_split_when_len(s@.skip(i as int + 1), p);
        }
        if c == sep {
            proof {
                let d = done@.len() as int;
                assert(p(s@[i as int]));
                assert(r1[0] =~= Seq::<char>::empty());
                assert(cur@ + r1[0] =~= cur@);
                assert(r1.drop_first() == r2);
                assert(r2[0] == all.subrange(d + 1, all.len() as int)[0]);
                assert(Seq::<char>::empty() + r2[0] =~= r2[0]);
                assert(r2.drop_first() =~= all.subrange(d + 2, all.len() as int));
            }
            done.push(cur);
            cur = Vec::new();
        } else {
            proof {
                let d = done@.len() as int;
                assert(!p(s@[i as int]));
                assert(r1[0] == seq![c] + r2[0]);
                assert(cur@.push(c) + r2[0] =~= cur@ + (seq![c] + r2[0]));
                assert(r1.drop_first() == r2.drop_first());
            }
            cur.push(c);
        }
        i = i + 1;
    }
    proof {
        assert(s@.skip(i as int) =~= Seq::<char>::empty());
        assert(split_when(s@.skip(i as int), p)[0] =~= Seq::<char>::empty());
        assert(cur@ + split_when(s@.skip(i as int), p)[0] =~= cur@);
        assert(split_when(s@.skip(i as int), p).drop_first() =~= Seq::<Seq<char>>::empty());
        assert(all.len() == done@.len() + 1);
    }
    done.push(cur);
    done
}

/// A line with a trailing carriage return has it removed.
pub open spec fn strip_cr(l: Seq<char>) -> Seq<char> {
    if l.len() > 0 && l.last() == '\r' {
        l.drop_last()
    } else {
        l
    }
}

/// The lines of a text: segments between newlines, without a final empty
/// segment, and each without a trailing carriage return.
pub open spec fn spec_lines(s: Seq<char>) -> Seq<Seq<char>> {
    let raw = split_when(s, |c: char| c == '\n');
    let kept = if raw.len() > 0 && raw.last().len() == 0 {
        raw.drop_last()
    } else {
        raw
    };
    kept.map_values(|l: Seq<char>| strip_cr(l))
}

/// Split a text into its lines.
pub fn lines_of(s: &Vec<char>) -> (r: Vec<Vec<char>>)
    ensures
        r@.len() == spec_lines(s@).len(),
        forall|k: int| 0 <= k < r@.len() ==> #[trigger] r@[k]@ == spec_lines(s@)[k],
{
    let mut segs = split_on_char(s, '\n');
    proof {
        lemma_split_when_len(s@, |c: char| c == '\n');
    }
    if segs.len() > 0 {
        let last_empty = segs[segs.len() - 1].len() == 0;
        if last_empty {
            segs.pop();
        }
    }
    let mut out: Vec<Vec<char>> = Vec::new();
    let mut i: usize = 0;
    while i < segs.len()
        invariant
            i <= segs@.len(),
            segs@.len() == (if split_when(s@, |c: char| c == '\n').len() > 0 && split_when(
                s@,
                |c: char| c == '\n',
            ).last().len() == 0 {
                split_when(s@, |c: char| c == '\n').drop_last()
            } else {
                split_when(s@, |c: char| c == '\n')
            }).len(),
            forall|k: int|
                0 <= k < segs@.len() ==> #[trigger] segs@[k]@ == (if split_when(
                    s@,
                    |c: char| c == '\n',
                ).len() > 0 && split_when(s@, |c: char| c == '\n').last().len() == 0 {
                    split_when(s@, |c: char| c == '\n').drop_last()
                } else {
                    split_when(s@, |c: char| c == '\n')
                })[k],
            out@.len() == i,
            forall|k: int| 0 <= k < i ==> #[trigger] out@[k]@ == spec_lines(s@)[k],
        decreases segs@.len() - i,
    {
        let line = &segs[i];
        let mut kept: Vec<char> = Vec::new();
        let keep_to = if line.len() > 0 && line[line.len() - 1] == '\r' {
            line.len() - 1
        } else {
            line.len()
        };
        let mut j: usize = 0;
        while j < keep_to
            invariant
                j <= keep_to,
                keep_to <= line@.len(),
                kept@ == line@.subrange(0, j as int),
            decreases keep_to - j,
        {
            kept.push(line[j]);
            j = j + 1;
            proof {
                assert(kept@ =~= line@.subrange(0, j as int));
            }
        }
        proof {
            assert(kept@ =~= strip_cr(line@));
        }
        out.push(kept);
        i = i + 1;
    }
    out
}

/// Decimal digit characters.
pub open spec fn is_digit(c: char) -> bool {
    48 <= c as int <= 57
}

pub open spec fn digit_val(c: char) -> int {
    c as int - 48
}

pub open spec fn all_digits(s: Seq<char>) -> bool {
    forall|i: int| 0 <= i < s.len() ==> is_digit(#[trigger] s[i])
}

/// The value of a digit string read in base ten.
pub open spec fn digits_value(s: Seq<char>) -> int
    decreases s.len(),
{
    if s.len() == 0 {
        0
    } else {
        10 * digits_value(s.drop_last()) + digit_val(s.last())
    }
}

pub proof fn lemma_digits_value_nonneg(s: Seq<char>)
    requires
        all_digits(s),
    ensures
        digits_value(s) >= 0,
    decreases s.len(),
{
    if s.len() > 0 {
        assert(all_digits(s.drop_last()));
        lemma_digits_value_nonneg(s.drop_last());
    }
}

proof fn lemma_digits_value_step(s: Seq<char>, i: int)
    requires
        0 <= i < s.len(),
    ensures
        digits_value(s.take(i + 1)) == 10 * digits_value(s.take(i)) + digit_val(s[i]),
{
    assert(s.take(i + 1).drop_last() =~= s.take(i));
    assert(s.take(i + 1).last() == s[i]);
}

proof fn lemma_digits_value_grows(s: Seq<char>, i: int)
    requires
        all_digits(s),
        0 <= i <= s.len(),
    ensures
        digits_value(s.take(i)) <= digits_value(s),
    decreases s.len() - i,
{
    if i < s.len() {
        lemma_digits_value_step(s, i);
        assert(all_digits(s.take(i)));
        lemma_digits_value_nonneg(s.take(i));
        lemma_digits_value_grows(s, i + 1);
    } else {
        assert(s.take(i) =~= s);
    }
}

/// Read an unsigned decimal number; `None` when the characters are not a
/// nonempty digit string or the value does not fit in `u64`.
pub fn parse_u64(s: &Vec<char>) -> (r: Option<u64>)
    ensures
        match r {
            Some(v) => s@.len() > 0 && all_digits(s@) && v == digits_value(s@),
            None => s@.len() == 0 || !all_digits(s@) || digits_value(s@) > u64::MAX,
        },
{
    if s.len() == 0 {
        return None;
    }
    let mut acc: u64 = 0;
    let mut i: usize = 0;
    proof {
        assert(s@.take(0) =~= Seq::<char>::empty());
    }
    while i < s.len()
        invariant
            i <= s@.len(),
            forall|k: int| 0 <= k < i ==> is_digit(#[trigger] s@[k]),
            acc == digits_value(s@.take(i as int)),
        decreases s@.len() - i,
    {
        let c = s[i];
        proof {
            assert('0' as int == 48 && '9' as int == 57);
        }
        if c < '0' || c > '9' {
            assert(!is_digit(s@[i as int]));
            return None;
        }
        let d = (c as u32 - 48) as u64;
        proof {
            assert(is_digit(s@[i as int]));
            assert(digit_val(s@[i as int]) == d as int);
            lemma_digits_value_step(s@, i as int);
            if all_digits(s@) {
                lemma_digits_value_nonneg(s@.take(i as int));
            }
        }
        let shifted = match acc.checked_mul(10) {
            Some(x) => x,
            None => {
                proof {
                    if all_digits(s@) {
                        lemma_digits_value_grows(s@, i as int + 1);
                    }
                }
                return None;
            },
        };
        acc = match shifted.checked_add(d) {
            Some(x) => x,
            None => {
                proof {
                    if all_digits(s@) {
                        lemma_digits_value_grows(s@, i as int + 1);
                    }
                }
                return None;
            },
        };
        i = i + 1;
    }
    proof {
        assert(s@.take(i as int) =~= s@);
        assert(all_digits(s@));
    }
    Some(acc)
}

/// The value of a token read as an optionally negated decimal number.
pub open spec fn int_token_val(t: Seq<char>) -> Option<int> {
    if t.len() > 0 && t[0] == '-' {
        let rest = t.drop_first();
        if rest.len() > 0 && all_digits(rest) {
            Some(-digits_value(rest))
        } else {
            None
        }
    } else if t.len() > 0 && all_digits(t) {
        Some(digits_value(t))
    } else {
        None
    }
}

/// Read a signed decimal number; `None` when the characters are not a
/// number or the value does not fit in `i64`.
pub fn parse_i64(t: &Vec<char>) -> (r: Option<i64>)
    ensures
        match r {
            Some(v) => int_token_val(t@) == Some(v as int),
            None => match int_token_val(t@) {
                Some(w) => w < i64::MIN || w > i64::MAX,
                None => true,
            },
        },
{
    if t.len() == 0 {
        return None;
    }
    if t[0] == '-' {
        let rest = slice_of(t, 1, t.len());
        proof {
            assert(rest@ =~= t@.drop_first());
        }
        let mag = match parse_u64(&rest) {
            Some(m) => m,
            None => {
                proof {
                    if rest@.len() > 0 && all_digits(rest@) {
                        lemma_digits_value_nonneg(rest@);
                    }
                }
                return None;
            },
        };
        if mag > 0x8000_0000_0000_0000u64 {
            return None;
        }
        if mag == 0x8000_0000_0000_0000u64 {
            Some(i64::MIN)
        } else {
            Some(-(mag as i64))
        }
    } else {
        let mag = match parse_u64(t) {
            Some(m) => m,
            None => {
                proof {
                    if t@.len() > 0 && all_digits(t@) {
                        lemma_digits_value_nonneg(t@);
                    }
                }
                return None;
            },
        };
        if mag > 0x7FFF_FFFF_FFFF_FFFFu64 {
            return None;
        }
        Some(mag as i64)
    }
}

/// The tokens of a line: the maximal nonempty stretches between spaces.
pub open spec fn spec_tokens(s: Seq<char>) -> Seq<Seq<char>> {
    split_when(s, |c: char| c == ' ').filter(|t: Seq<char>| t.len() > 0)
}

/// Split a line into its space-separated tokens.
pub fn tokens_of(s: &Vec<char>) -> (r: Vec<Vec<char>>)
    ensures
        r@.len() == spec_tokens(s@).len(),
        forall|k: int| 0 <= k < r@.len() ==> #[trigger] r@[k]@ == spec_tokens(s@)[k],
{
    let segs = split_on_char(s, ' ');
    let ghost all = split_when(s@, |c: char| c == ' ');
    let mut out: Vec<Vec<char>> = Vec::new();
    let mut i: usize = 0;
    proof {
        assert(all.take(0) =~= Seq::<Seq<char>>::empty());
        reveal_with_fuel(Seq::filter, 1);
    }
    #[verifier::loop_isolation(false)]
    while i < segs.len()
        invariant
            i <= segs@.len(),
            segs@.len() == all.len(),
            forall|k: int| 0 <= k < segs@.len() ==> #[trigger] segs@[k]@ == all[k],
            out@.map_values(|v: Vec<char>| v@) =~= all.take(i as int).filter(
                |t: Seq<char>| t.len() > 0,
            ),
        decreases segs@.len() - i,
    {
        proof {
            assert(all.take(i as int + 1).drop_last() =~= all.take(i as int));
            assert(all.take(i as int + 1).last() == all[i as int]);
            reveal_with_fuel(Seq::filter, 2);
        }
        if segs[i].len() > 0 {
            let mut copy: Vec<char> = Vec::new();
            let seg = &segs[i];
            let mut j: usize = 0;
            while j < seg.len()
                invariant
                    j <= seg@.len(),
                    copy@ == seg@.subrange(0, j as int),
                decreases seg@.len() - j,
            {
                copy.push(seg[j]);
                j = j + 1;
                proof {
                    assert(copy@ =~= seg@.subrange(0, j as int));
                }
            }
            proof {
                assert(copy@ =~= seg@);
            }
            out.push(copy);
            proof {
                assert(out@.map_values(|v: Vec<char>| v@) =~= out@.drop_last().map_values(
                    |v: Vec<char>| v@,
                ).push(out@.last()@));
            }
        }
        i = i + 1;
    }
    proof {
        assert(all.take(i as int) =~= all);
        assert(forall|k: int|
            0 <= k < out@.len() ==> #[trigger] out@[k]@ == out@.map_values(|v: Vec<char>| v@)[k]);
    }
    out
}

/// The numbers named by a token list from index `i` on, each a digit
/// string whose value fits in `u64`; nothing otherwise.
pub open spec fn u64_nums_of_tokens(ts: Seq<Seq<char>>, i: int) -> Option<Seq<int>>
    decreases ts.len() - i,
{
    if i < 0 || i >= ts.len() {
        Some(Seq::empty())
    } else if ts[i].len() > 0 && all_digits(ts[i]) && digits_value(ts[i]) <= u64::MAX {
        match u64_nums_of_tokens(ts, i + 1) {
            Some(rest) => Some(seq![digits_value(ts[i])] + rest),
            None => None,
        }
    } else {
        None
    }
}

pub open spec fn u64s_as_ints(v: Seq<u64>) -> Seq<int> {
    v.map_values(|x: u64| x as int)
}

/// Parse every token as an unsigned number.
pub fn parse_u64_tokens(toks: &Vec<Vec<char>>, ghost_ts: Ghost<Seq<Seq<char>>>) -> (r: Option<
    Vec<u64>,
>)
    requires
        toks@.len() == ghost_ts@.len(),
        forall|k: int| 0 <= k < toks@.len() ==> #[trigger] toks@[k]@ == ghost_ts@[k],
    ensures
        match r {
            Some(v) => u64_nums_of_tokens(ghost_ts@, 0) == Some(u64s_as_ints(v@)),
            None => u64_nums_of_tokens(ghost_ts@, 0) is None,
        },
{
    let ghost ts = ghost_ts@;
    let mut out: Vec<u64> = Vec::new();
    let mut j: usize = 0;
    #[verifier::loop_isolation(false)]
    while j < toks.len()
        invariant
            0 <= j <= toks@.len(),
            out@.len() == j,
            match u64_nums_of_tokens(ts, j as int) {
                Some(rest) => u64_nums_of_tokens(ts, 0) == Some(u64s_as_ints(out@) + rest),
                None => u64_nums_of_tokens(ts, 0) is None,
            },
        decreases toks@.len() - j,
    {
        let v = match parse_u64(&toks[j]) {
            Some(v) => v,
            None => {
                return None;
            },
        };
        out.push(v);
        proof {
            assert(u64s_as_ints(out@) =~= u64s_as_ints(out@.drop_last()) + seq![v as int]);
            if u64_nums_of_tokens(ts, j as int + 1) is Some {
                assert((u64s_as_ints(out@.drop_last()) + seq![v as int]) + u64_nums_of_tokens(
                    ts,
                    j as int + 1,
                )->Some_0 =~= u64s_as_ints(out@.drop_last()) + (seq![v as int]
                    + u64_nums_of_tokens(ts, j as int + 1)->Some_0));
            }
        }
        j = j + 1;
    }
    proof {
        assert(u64s_as_ints(out@) + Seq::<int>::empty() =~= u64s_as_ints(out@));
    }
    Some(out)
}

/// The first position at or after `i` that is not a digit.
pub open spec fn run_end(s: Seq<char>, i: int) -> int
    decreases s.len() - i,
{
    if i < 0 || i >= s.len() || !is_digit(s[i]) {
        i
    } else {
        run_end(s, i + 1)
    }
}

pub proof fn lemma_run_end(s: Seq<char>, i: int)
    requires
        0 <= i <= s.len(),
    ensures
        i <= run_end(s, i) <= s.len(),
        forall|k: int| i <= k < run_end(s, i) ==> is_digit(#[trigger] s[k]),
        run_end(s, i) < s.len() ==> !is_digit(s[run_end(s, i)]),
    decreases s.len() - i,
{
    if i < s.len() && is_digit(s[i]) {
        lemma_run_end(s, i + 1);
    }
}

/// Whether a maximal digit run starts at `i`.
pub open spec fn is_run_start(s: Seq<char>, i: int) -> bool {
    0 <= i < s.len() && is_digit(s[i]) && (i == 0 || !is_digit(s[i - 1]))
}

/// The maximal digit runs at or after `i`, as half-open ranges.
pub open spec fn digit_runs_from(s: Seq<char>, i: int) -> Seq<(int, int)>
    decreases s.len() - i,
{
    if i < 0 || i >= s.len() {
        Seq::empty()
    } else if is_run_start(s, i) {
        seq![(i, run_end(s, i))] + digit_runs_from(s, i + 1)
    } else {
        digit_runs_from(s, i + 1)
    }
}

pub open spec fn spec_digit_runs(s: Seq<char>) -> Seq<(int, int)> {
    digit_runs_from(s, 0)
}

/// The maximal digit runs of a line, in order.
pub fn digit_runs(s: &Vec<char>) -> (r: Vec<(usize, usize)>)
    ensures
        r@.len() == spec_digit_runs(s@).len(),
        forall|k: int|
            0 <= k < r@.len() ==> (#[trigger] r@[k]).0 as int == spec_digit_runs(s@)[k].0 && r@[
                k
            ].1 as int == spec_digit_runs(s@)[k].1,
        forall|k: int|
            0 <= k < r@.len() ==> 0 <= (#[trigger] r@[k]).0 < r@[k].1 <= s@.len(),
{
    let mut out: Vec<(usize, usize)> = Vec::new();
    let mut i: usize = 0;
    proof {
        lemma_run_end(s@, 0);
    }
    #[verifier::loop_isolation(false)]
    while i < s.len()
        invariant
            0 <= i <= s@.len(),
            spec_digit_runs(s@) == out@.map_values(|q: (usize, usize)| (q.0 as int, q.1 as int))
                + digit_runs_from(s@, i as int),
            forall|k: int|
                0 <= k < out@.len() ==> 0 <= (#[trigger] out@[k]).0 < out@[k].1 <= s@.len(),
        decreases s@.len() - i,
    {
        let c = s[i];
        let start_here = c >= '0' && c <= '9' && (i == 0 || !(s[i - 1] >= '0' && s[i - 1] <= '9'));
        proof {
            assert('0' as int == 48 && '9' as int == 57);
            assert(start_here == is_run_start(s@, i as int));
        }
        if start_here {
            let mut j: usize = i;
            proof {
                lemma_run_end(s@, i as int);
            }
            #[verifier::loop_isolation(false)]
            while j < s.len() && s[j] >= '0' && s[j] <= '9'
                invariant
                    i <= j <= s@.len(),
                    run_end(s@, i as int) == run_end(s@, j as int),
                decreases s@.len() - j,
            {
                j = j + 1;
            }
            proof {
                assert(run_end(s@, j as int) == j as int);
            }
            out.push((i, j));
            proof {
                lemma_run_end(s@, i as int);
                assert(out@.map_values(|q: (usize, usize)| (q.0 as int, q.1 as int)) =~= out@
                    .drop_last().map_values(|q: (usize, usize)| (q.0 as int, q.1 as int)).push(
                    (i as int, j as int),
                ));
                assert((out@.drop_last().map_values(|q: (usize, usize)| (q.0 as int, q.1 as int))
                    .push((i as int, j as int))) + digit_runs_from(s@, i as int + 1) =~= out@
                    .drop_last().map_values(|q: (usize, usize)| (q.0 as int, q.1 as int)) + (seq![
                    (i as int, j as int),
                ] + digit_runs_from(s@, i as int + 1)));
            }
        }
        i = i + 1;
    }
    proof {
        assert(out@.map_values(|q: (usize, usize)| (q.0 as int, q.1 as int))
            + Seq::<(int, int)>::empty() =~= out@.map_values(
            |q: (usize, usize)| (q.0 as int, q.1 as int),
        ));
    }
    out
}

/// The first occurrence of `c` at or after position `i`.
pub open spec fn find_char_from(s: Seq<char>, c: char, i: int) -> Option<int>
    decreases s.len() - i,
{
    if i < 0 || i >= s.len() {
        None
    } else if s[i] == c {
        Some(i)
    } else {
        find_char_from(s, c, i + 1)
    }
}

/// The position of the first occurrence of `c`, if any.
pub fn find_char(s: &Vec<char>, c: char) -> (r: Option<usize>)
    ensures
        match r {
            Some(i) => find_char_from(s@, c, 0) == Some(i as int),
            None => find_char_from(s@, c, 0) is None,
        },
{
    let mut i: usize = 0;
    #[verifier::loop_isolation(false)]
    while i < s.len()
        invariant
            0 <= i <= s@.len(),
            find_char_from(s@, c, 0) == find_char_from(s@, c, i as int),
        decreases s@.len() - i,
    {
        if s[i] == c {
            return Some(i);
        }
        i = i + 1;
    }
    None
}

/// A found character lies in range and matches.
pub proof fn lemma_find_char_in_range(s: Seq<char>, c: char, i: int)
    requires
        i >= 0,
    ensures
        match find_char_from(s, c, i) {
            Some(q) => i <= q < s.len() && s[q] == c,
            None => true,
        },
    decreases s.len() - i,
{
    if i < s.len() && s[i] != c {
        lemma_find_char_in_range(s, c, i + 1);
    }
}

/// Whether `s` starts with `p`.
pub open spec fn spec_starts_with(s: Seq<char>, p: Seq<char>) -> bool {
    s.len() >= p.len() && s.subrange(0, p.len() as int) == p
}

/// Whether the characters start with the literal `lit`.
pub fn starts_with_lit(s: &Vec<char>, lit: &str) -> (r: bool)
    ensures
        r == spec_starts_with(s@, lit@),
{
    let n = lit.unicode_len();
    if s.len() < n {
        return false;
    }
    let mut i: usize = 0;
    while i < n
        invariant
            0 <= i <= n,
            n == lit@.len(),
            s@.len() >= n,
            forall|k: int| 0 <= k < i ==> s@[k] == lit@[k],
        decreases n - i,
    {
        if s[i] != lit.get_char(i) {
            proof {
                assert(s@.subrange(0, n as int)[i as int] != lit@[i as int]);
            }
            return false;
        }
        i = i + 1;
    }
    proof {
        assert(s@.subrange(0, n as int) =~= lit@);
    }
    true
}

/// The concatenation of all tokens from index `i` on.
pub open spec fn concat_tokens(ts: Seq<Seq<char>>, i: int) -> Seq<char>
    decreases ts.len() - i,
{
    if i < 0 || i >= ts.len() {
        Seq::empty()
    } else {
        ts[i] + concat_tokens(ts, i + 1)
    }
}

/// Join a token list into one character string.
pub fn join_tokens(toks: &Vec<Vec<char>>, ghost_ts: Ghost<Seq<Seq<char>>>) -> (r: Vec<char>)
    requires
        toks@.len() == ghost_ts@.len(),
        forall|k: int| 0 <= k < toks@.len() ==> #[trigger] toks@[k]@ == ghost_ts@[k],
    ensures
        r@ == concat_tokens(ghost_ts@, 0),
{
    let ghost ts = ghost_ts@;
    let mut out: Vec<char> = Vec::new();
    let mut j: usize = 0;
    #[verifier::loop_isolation(false)]
    while j < toks.len()
        invariant
            0 <= j <= toks@.len(),
            concat_tokens(ts, 0) == out@ + concat_tokens(ts, j as int),
        decreases toks@.len() - j,
    {
        let t = &toks[j];
        let mut k: usize = 0;
        #[verifier::loop_isolation(false)]
        while k < t.len()
            invariant
                0 <= k <= t@.len(),
                concat_tokens(ts, 0) == out@ + t@.subrange(k as int, t@.len() as int)
                    + concat_tokens(ts, j as int + 1),
            decreases t@.len() - k,
        {
            out.push(t[k]);
            proof {
                assert(out@ + t@.subrange(k as int + 1, t@.len() as int) =~= out@.drop_last() + t@
                    .subrange(k as int, t@.len() as int));
                assert((out@.drop_last() + t@.subrange(k as int, t@.len() as int)) + concat_tokens(
                    ts,
                    j as int + 1,
                ) =~= out@.drop_last() + (t@.subrange(k as int, t@.len() as int) + concat_tokens(
                    ts,
                    j as int + 1,
                )));
                assert((out@ + t@.subrange(k as int + 1, t@.len() as int)) + concat_tokens(
                    ts,
                    j as int + 1,
                ) =~= out@ + (t@.subrange(k as int + 1, t@.len() as int) + concat_tokens(
                    ts,
                    j as int + 1,
                )));
            }
            k = k + 1;
        }
        proof {
            assert(t@.subrange(0, t@.len() as int) =~= t@);
            assert(t@.subrange(t@.len() as int, t@.len() as int) =~= Seq::<char>::empty());
            assert(out@ + Seq::<char>::empty() =~= out@);
        }
        j = j + 1;
    }
    proof {
        assert(out@ + Seq::<char>::empty() =~= out@);
    }
    out
}

/// Whether the characters equal the literal `lit`.
pub fn chars_eq_str(v: &Vec<char>, lit: &str) -> (r: bool)
    ensures
        r == (v@ == lit@),
{
    let n = lit.unicode_len();
    if v.len() != n {
        return false;
    }
    let mut i: usize = 0;
    while i < n
        invariant
            i <= n,
            n == lit@.len(),
            v@.len() == n,
            forall|k: int| 0 <= k < i ==> v@[k] == lit@[k],
        decreases n - i,
    {
        if v[i] != lit.get_char(i) {
            return false;
        }
        i = i + 1;
    }
    proof {
        assert(v@ =~= lit@);
    }
    true
}

/// A copy of `v[from..to]`.
pub fn slice_of(v: &Vec<char>, from: usize, to: usize) -> (r: Vec<char>)
    requires
        from <= to <= v@.len(),
    ensures
        r@ == v@.subrange(from as int, to as int),
{
    let mut out: Vec<char> = Vec::new();
    let mut i: usize = from;
    while i < to
        invariant
            from <= i <= to <= v@.len(),
            out@ == v@.subrange(from as int, i as int),
        decreases to - i,
    {
        out.push(v[i]);
        i = i + 1;
        proof {
            assert(out@ =~= v@.subrange(from as int, i as int));
        }
    }
    out
}

} // verus!
