//! The cube game: each line names a game and a list of draws of colored
//! cubes.  A game is possible when no draw exceeds the fixed limits; a
//! game's power is the product of the per-color maxima over its draws.

use vstd::prelude::*;
use crate::text::{
    spec_lines,
    spec_tokens,
    split_when,
    to_chars,
    lines_of,
    tokens_of,
    parse_u64,
    all_digits,
    digits_value,
    find_char_from,
    find_char,
    chars_eq_str,
    slice_of,
};

verus! {

/// Color indices: red, green, blue.
pub open spec fn color_of(t: Seq<char>) -> Option<int> {
    if t == seq!['r', 'e', 'd'] {
        Some(0int)
    } else if t == seq!['g', 'r', 'e', 'e', 'n'] {
        Some(1int)
    } else if t == seq!['b', 'l', 'u', 'e'] {
        Some(2int)
    } else {
        None
    }
}

/// One `count color` entry of a draw.
pub open spec fn pair_of(seg: Seq<char>) -> Option<(int, int)> {
    let ts = spec_tokens(seg);
    if ts.len() == 2 && ts[0].len() > 0 && all_digits(ts[0]) && digits_value(ts[0]) <= u64::MAX
        && color_of(ts[1]) is Some {
        Some((digits_value(ts[0]), color_of(ts[1])->Some_0))
    } else {
        None
    }
}

/// The per-color limits of a possible game.
pub open spec fn limit_of(c: int) -> int {
    if c == 0 {
        12
    } else if c == 1 {
        13
    } else {
        14
    }
}

/// Running maxima per color, updated by one entry.
pub open spec fn bump(st: (int, int, int), p: (int, int)) -> (int, int, int) {
    if p.1 == 0 {
        (if p.0 > st.0 {
            p.0
        } else {
            st.0
        }, st.1, st.2)
    } else if p.1 == 1 {
        (st.0, if p.0 > st.1 {
            p.0
        } else {
            st.1
        }, st.2)
    } else {
        (st.0, st.1, if p.0 > st.2 {
            p.0
        } else {
            st.2
        })
    }
}

/// Fold all entries of all draws into per-color maxima; nothing when an
/// entry does not parse.
pub open spec fn max_state(segs: Seq<Seq<char>>, i: int, st: (int, int, int)) -> Option<
    (int, int, int),
>
    decreases segs.len() - i,
{
    if i < 0 || i >= segs.len() {
        Some(st)
    } else {
        match pair_of(segs[i]) {
            Some(p) => max_state(segs, i + 1, bump(st, p)),
            None => None,
        }
    }
}

/// All `count color` entries of a game line, draws flattened: the
/// entries are separated by commas within a draw and by semicolons
/// between draws, and maxima do not depend on the grouping.
pub open spec fn entries_of(rest: Seq<char>) -> Seq<Seq<char>> {
    split_when(rest, |c: char| c == ';' || c == ',')
}

/// A game's power: the product of the three per-color maxima over all
/// its entries.
pub open spec fn game_power(l: Seq<char>) -> Option<int> {
    match find_char_from(l, ':', 0) {
        None => None,
        Some(ci) => match max_state(entries_of(l.skip(ci + 1)), 0, (0, 0, 0)) {
            Some((r, g, b)) => Some(r * g * b),
            None => None,
        },
    }
}

/// Whether the power's left-to-right partial products stay within
/// `u64`, as the accumulator computes them.
pub open spec fn power_step_ok(l: Seq<char>) -> bool {
    match find_char_from(l, ':', 0) {
        None => true,
        Some(ci) => match max_state(entries_of(l.skip(ci + 1)), 0, (0, 0, 0)) {
            Some((r, g, b)) => r * g <= u64::MAX && r * g * b <= u64::MAX,
            None => true,
        },
    }
}

/// The game's number: the last space-separated token before the colon.
pub open spec fn game_id(l: Seq<char>) -> Option<int> {
    match find_char_from(l, ':', 0) {
        None => None,
        Some(ci) => {
            let ts = spec_tokens(l.take(ci));
            if ts.len() > 0 && ts.last().len() > 0 && all_digits(ts.last()) && digits_value(
                ts.last(),
            ) <= u64::MAX {
                Some(digits_value(ts.last()))
            } else {
                None
            }
        },
    }
}

/// The early-exit walk of a game's entries: per-color maxima are
/// accumulated until an entry exceeds its color's limit or the maxima
/// sum to more than the limits do, in which case the game is impossible
/// and scanning stops; nothing when an entry scanned before that point
/// does not parse.
pub open spec fn possible_walk(segs: Seq<Seq<char>>, i: int, st: (int, int, int)) -> Option<bool>
    decreases segs.len() - i,
{
    if i < 0 || i >= segs.len() {
        Some(true)
    } else {
        match pair_of(segs[i]) {
            Some(p) => if p.0 > limit_of(p.1) {
                Some(false)
            } else {
                let st2 = bump(st, p);
                if st2.0 + st2.1 + st2.2 > 39 {
                    Some(false)
                } else {
                    possible_walk(segs, i + 1, st2)
                }
            },
            None => None,
        }
    }
}

/// Whether the game is possible, with its number; nothing when the line
/// is malformed before the walk's early exit.
pub open spec fn game_possible(l: Seq<char>) -> Option<Option<int>> {
    match find_char_from(l, ':', 0) {
        None => None,
        Some(ci) => match possible_walk(entries_of(l.skip(ci + 1)), 0, (0, 0, 0)) {
            Some(true) => match game_id(l) {
                Some(id) => Some(Some(id)),
                None => None,
            },
            Some(false) => Some(None),
            None => None,
        },
    }
}

/// Walk one line's entries with the limits, early-exiting as the
/// specification of a possible game does.
fn is_game_possible(l: &Vec<char>) -> (r: Option<Option<u64>>)
    ensures
        match r {
            Some(opt) => match game_possible(l@) {
                Some(so) => match (opt, so) {
                    (Some(v), Some(w)) => v as int == w,
                    (None, None) => true,
                    _ => false,
                },
                None => false,
            },
            None => game_possible(l@) is None,
        },
{
    let ci = match find_char(l, ':') {
        Some(c) => c,
        None => {
            return None;
        },
    };
    proof {
        crate::text::lemma_find_char_in_range(l@, ':', 0);
    }
    let n = l.len();
    let rest = slice_of(l, ci + 1, n);
    proof {
        assert(rest@ =~= l@.skip(ci as int + 1));
    }
    let ghost entries = entries_of(rest@);
    let segs2 = split_entries(&rest);
    let mut st: (u64, u64, u64) = (0, 0, 0);
    let mut i: usize = 0;
    #[verifier::loop_isolation(false)]
    while i < segs2.len()
        invariant
            0 <= i <= segs2@.len(),
            segs2@.len() == entries.len(),
            forall|k: int| 0 <= k < entries.len() ==> #[trigger] segs2@[k]@ == entries[k],
            possible_walk(entries, 0, (0, 0, 0)) == possible_walk(
                entries,
                i as int,
                (st.0 as int, st.1 as int, st.2 as int),
            ),
        decreases segs2@.len() - i,
    {
        let p = match parse_pair(&segs2[i]) {
            Some(p) => p,
            None => {
                return None;
            },
        };
        let limit: u64 = if p.1 == 0 {
            12
        } else if p.1 == 1 {
            13
        } else {
            14
        };
        if p.0 > limit {
            return Some(None);
        }
        let st2: (u64, u64, u64) = if p.1 == 0 {
            (if p.0 > st.0 {
                p.0
            } else {
                st.0
            }, st.1, st.2)
        } else if p.1 == 1 {
            (st.0, if p.0 > st.1 {
                p.0
            } else {
                st.1
            }, st.2)
        } else {
            (st.0, st.1, if p.0 > st.2 {
                p.0
            } else {
                st.2
            })
        };
        if st2.0 as u128 + st2.1 as u128 + st2.2 as u128 > 39 {
            return Some(None);
        }
        st = st2;
        i = i + 1;
    }
    let id = match game_number(l, ci) {
        Some(id) => id,
        None => {
            return None;
        },
    };
    Some(Some(id))
}

/// Split a game's outcome into its `count color` entries.
fn split_entries(rest: &Vec<char>) -> (r: Vec<Vec<char>>)
    ensures
        r@.len() == entries_of(rest@).len(),
        forall|k: int| 0 <= k < r@.len() ==> #[trigger] r@[k]@ == entries_of(rest@)[k],
{
    let mut out: Vec<Vec<char>> = Vec::new();
    let mut cur: Vec<char> = Vec::new();
    let ghost p = |c: char| c == ';' || c == ',';
    let ghost all = entries_of(rest@);
    let mut i: usize = 0;
    proof {
        assert(rest@.skip(0) =~= rest@);
        crate::text::lemma_split_when_len(rest@, p);
        assert(Seq::<char>::empty() + all[0] =~= all[0]);
        assert(all.drop_first() =~= all.subrange(1, all.len() as int));
    }
    #[verifier::loop_isolation(false)]
    while i < rest.len()
        invariant
            i <= rest@.len(),
            all == split_when(rest@, p),
            out@.len() + 1 <= all.len(),
            forall|k: int| 0 <= k < out@.len() ==> #[trigger] out@[k]@ == all[k],
            cur@ + split_when(rest@.skip(i as int), p)[0] == all[out@.len() as int],
            split_when(rest@.skip(i as int), p).drop_first() == all.subrange(
                out@.len() as int + 1,
                all.len() as int,
            ),
        decreases rest@.len() - i,
    {
        let c = rest[i];
        let ghost r1 = split_when(rest@.skip(i as int), p);
        let ghost r2 = split_when(rest@.skip(i as int + 1), p);
        proof {
            crate::text::lemma_split_when_step(rest@, p, i as int);
            crate::text::lemma_split_when_len(rest@.skip(i as int + 1), p);
        }
        if c == ';' || c == ',' {
            proof {
                let d = out@.len() as int;
                assert(p(rest@[i as int]));
                assert(r1[0] =~= Seq::<char>::empty());
                assert(cur@ + r1[0] =~= cur@);
                assert(r1.drop_first() == r2);
                assert(r2[0] == all.subrange(d + 1, all.len() as int)[0]);
                assert(Seq::<char>::empty() + r2[0] =~= r2[0]);
                assert(r2.drop_first() =~= all.subrange(d + 2, all.len() as int));
            }
            out.push(cur);
            cur = Vec::new();
        } else {
            proof {
                assert(!p(rest@[i as int]));
                assert(r1[0] == seq![c] + r2[0]);
                assert(cur@.push(c) + r2[0] =~= cur@ + (seq![c] + r2[0]));
                assert(r1.drop_first() == r2.drop_first());
            }
            cur.push(c);
        }
        i = i + 1;
    }
    proof {
        assert(rest@.skip(i as int) =~= Seq::<char>::empty());
        assert(split_when(rest@.skip(i as int), p)[0] =~= Seq::<char>::empty());
        assert(cur@ + split_when(rest@.skip(i as int), p)[0] =~= cur@);
        assert(split_when(rest@.skip(i as int), p).drop_first() =~= Seq::<Seq<char>>::empty());
        assert(all.len() == out@.len() + 1);
    }
    out.push(cur);
    out
}

/// Parse one `count color` entry.
fn parse_pair(seg: &Vec<char>) -> (r: Option<(u64, u8)>)
    ensures
        match r {
            Some((v, c)) => pair_of(seg@) == Some((v as int, c as int)) && c < 3,
            None => pair_of(seg@) is None,
        },
{
    let ts = tokens_of(seg);
    if ts.len() != 2 {
        return None;
    }
    let v = match parse_u64(&ts[0]) {
        Some(v) => v,
        None => {
            return None;
        },
    };
    let c: u8 = if chars_eq_str(&ts[1], "red") {
        proof {
            reveal_strlit("red");
            assert("red"@ =~= seq!['r', 'e', 'd']);
        }
        0
    } else if chars_eq_str(&ts[1], "green") {
        proof {
            reveal_strlit("green");
            assert("green"@ =~= seq!['g', 'r', 'e', 'e', 'n']);
        }
        1
    } else if chars_eq_str(&ts[1], "blue") {
        proof {
            reveal_strlit("blue");
            assert("blue"@ =~= seq!['b', 'l', 'u', 'e']);
        }
        2
    } else {
        proof {
            reveal_strlit("red");
            reveal_strlit("green");
            reveal_strlit("blue");
            assert("red"@ =~= seq!['r', 'e', 'd']);
            assert("green"@ =~= seq!['g', 'r', 'e', 'e', 'n']);
            assert("blue"@ =~= seq!['b', 'l', 'u', 'e']);
        }
        return None;
    };
    Some((v, c))
}

/// The game number before the colon at `ci`.
fn game_number(l: &Vec<char>, ci: usize) -> (r: Option<u64>)
    requires
        find_char_from(l@, ':', 0) == Some(ci as int),
    ensures
        match r {
            Some(v) => game_id(l@) == Some(v as int),
            None => game_id(l@) is None,
        },
{
    proof {
        crate::text::lemma_find_char_in_range(l@, ':', 0);
    }
    let name = slice_of(l, 0, ci);
    proof {
        assert(name@ =~= l@.take(ci as int));
    }
    let ts = tokens_of(&name);
    if ts.len() == 0 {
        return None;
    }
    let last = &ts[ts.len() - 1];
    proof {
        assert(last@ == spec_tokens(l@.take(ci as int)).last());
    }
    parse_u64(last)
}

/// Accumulate per-color maxima over all entries, with no early exit.
fn get_game_power(l: &Vec<char>) -> (r: Option<u64>)
    ensures
        match r {
            Some(v) => game_power(l@) == Some(v as int) && power_step_ok(l@),
            None => game_power(l@) is None || !power_step_ok(l@),
        },
{
    let ci = match find_char(l, ':') {
        Some(c) => c,
        None => {
            return None;
        },
    };
    proof {
        crate::text::lemma_find_char_in_range(l@, ':', 0);
    }
    let n = l.len();
    let rest = slice_of(l, ci + 1, n);
    proof {
        assert(rest@ =~= l@.skip(ci as int + 1));
    }
    let ghost entries = entries_of(rest@);
    let segs = split_entries(&rest);
    let mut st: (u64, u64, u64) = (0, 0, 0);
    let mut i: usize = 0;
    #[verifier::loop_isolation(false)]
    while i < segs.len()
        invariant
            0 <= i <= segs@.len(),
            segs@.len() == entries.len(),
            forall|k: int| 0 <= k < entries.len() ==> #[trigger] segs@[k]@ == entries[k],
            max_state(entries, 0, (0, 0, 0)) == max_state(
                entries,
                i as int,
                (st.0 as int, st.1 as int, st.2 as int),
            ),
        decreases segs@.len() - i,
    {
        let p = match parse_pair(&segs[i]) {
            Some(p) => p,
            None => {
                return None;
            },
        };
        st = if p.1 == 0 {
            (if p.0 > st.0 {
                p.0
            } else {
                st.0
            }, st.1, st.2)
        } else if p.1 == 1 {
            (st.0, if p.0 > st.1 {
                p.0
            } else {
                st.1
            }, st.2)
        } else {
            (st.0, st.1, if p.0 > st.2 {
                p.0
            } else {
                st.2
            })
        };
        i = i + 1;
    }
    let rg = match st.0.checked_mul(st.1) {
        Some(x) => x,
        None => {
            proof {
                lemma_mul_grows(st.0 as int, st.1 as int, st.2 as int);
            }
            return None;
        },
    };
    let rgb = match rg.checked_mul(st.2) {
        Some(x) => x,
        None => {
            proof {
                lemma_mul_grows(st.0 as int, st.1 as int, st.2 as int);
            }
            return None;
        },
    };
    proof {
        vstd::arithmetic::mul::lemma_mul_is_associative(st.0 as int, st.1 as int, st.2 as int);
    }
    Some(rgb)
}

/// For nonnegative factors, a product is at least each partial product.
proof fn lemma_mul_grows(a: int, b: int, c: int)
    requires
        a >= 0,
        b >= 0,
        c >= 0,
    ensures
        a * b * c == a * (b * c),
        a * b > u64::MAX && c > 0 ==> a * b * c > u64::MAX,
        a * b <= u64::MAX && (a * b) * c > u64::MAX ==> a * b * c > u64::MAX,
    decreases 0int,
{
    vstd::arithmetic::mul::lemma_mul_is_associative(a, b, c);
    if a * b > u64::MAX && c > 0 {
        vstd::arithmetic::mul::lemma_mul_inequality(1, c, a * b);
        vstd::arithmetic::mul::lemma_mul_is_commutative(a * b, c);
    }
}

/// The sum of the numbers of the possible games; nothing when a line is
/// malformed or the sum does not fit.
pub fn part_one(input: &str) -> (r: Option<u32>)
    ensures
        ({
            let ls = spec_lines(input@);
            match r {
                Some(v) => possible_sum(ls, 0) == Some(v as int),
                None => possible_sum(ls, 0) is None || possible_sum(ls, 0)->Some_0 > u32::MAX,
            }
        }),
{
    let cs = to_chars(input);
    let lines = lines_of(&cs);
    let ghost ls = spec_lines(input@);
    let mut acc: u64 = 0;
    let mut i: usize = 0;
    #[verifier::loop_isolation(false)]
    while i < lines.len()
        invariant
            0 <= i <= lines@.len(),
            acc <= 0xFFFF_FFFF,
            match possible_sum(ls, i as int) {
                Some(t) => possible_sum(ls, 0) == Some(acc + t),
                None => possible_sum(ls, 0) is None,
            },
        decreases lines@.len() - i,
    {
        let got = match is_game_possible(&lines[i]) {
            Some(opt) => opt,
            None => {
                return None;
            },
        };
        proof {
            lemma_possible_sum_nonneg(ls, i as int + 1);
        }
        if let Some(id) = got {
            proof {
                lemma_game_id_nonneg(ls[i as int]);
            }
            if id > 0xFFFF_FFFF {
                proof {
                    if possible_sum(ls, i as int + 1) is Some {
                        lemma_possible_sum_nonneg(ls, i as int + 1);
                    }
                }
                return None;
            }
            if acc + id > 0xFFFF_FFFF {
                proof {
                    if possible_sum(ls, i as int + 1) is Some {
                        lemma_possible_sum_nonneg(ls, i as int + 1);
                    }
                }
                return None;
            }
            acc = acc + id;
        }
        i = i + 1;
    }
    Some(acc as u32)
}

/// The sum of the possible games' numbers from line `i` on.
pub open spec fn possible_sum(lines: Seq<Seq<char>>, i: int) -> Option<int>
    decreases lines.len() - i,
{
    if i < 0 || i >= lines.len() {
        Some(0)
    } else {
        match (game_possible(lines[i]), possible_sum(lines, i + 1)) {
            (Some(Some(id)), Some(rest)) => Some(id + rest),
            (Some(None), Some(rest)) => Some(rest),
            _ => None,
        }
    }
}

proof fn lemma_game_id_nonneg(l: Seq<char>)
    ensures
        match game_id(l) {
            Some(v) => v >= 0,
            None => true,
        },
{
    match find_char_from(l, ':', 0) {
        None => {},
        Some(ci) => {
            let ts = spec_tokens(l.take(ci));
            if ts.len() > 0 && ts.last().len() > 0 && all_digits(ts.last()) && digits_value(
                ts.last(),
            ) <= u64::MAX {
                crate::text::lemma_digits_value_nonneg(ts.last());
            }
        },
    }
}

proof fn lemma_possible_sum_nonneg(lines: Seq<Seq<char>>, i: int)
    ensures
        match possible_sum(lines, i) {
            Some(t) => t >= 0,
            None => true,
        },
    decreases lines.len() - i,
{
    if 0 <= i < lines.len() {
        lemma_possible_sum_nonneg(lines, i + 1);
        lemma_game_id_nonneg(lines[i]);
    }
}

/// The sum of the games' powers from line `i` on; nothing when a line
/// is malformed or its power cannot be accumulated.
pub open spec fn power_sum(lines: Seq<Seq<char>>, i: int) -> Option<int>
    decreases lines.len() - i,
{
    if i < 0 || i >= lines.len() {
        Some(0)
    } else {
        match (game_power(lines[i]), power_sum(lines, i + 1)) {
            (Some(v), Some(rest)) => if power_step_ok(lines[i]) {
                Some(v + rest)
            } else {
                None
            },
            _ => None,
        }
    }
}

proof fn lemma_game_power_nonneg(l: Seq<char>)
    ensures
        match game_power(l) {
            Some(v) => v >= 0,
            None => true,
        },
{
    match find_char_from(l, ':', 0) {
        None => {},
        Some(ci) => {
            match max_state(entries_of(l.skip(ci + 1)), 0, (0, 0, 0)) {
                Some((r, g, b)) => {
                    lemma_max_state_nonneg(entries_of(l.skip(ci + 1)), 0, (0, 0, 0));
                    vstd::arithmetic::mul::lemma_mul_nonnegative(r, g);
                    vstd::arithmetic::mul::lemma_mul_nonnegative(r * g, b);
                },
                None => {},
            }
        },
    }
}

proof fn lemma_max_state_nonneg(segs: Seq<Seq<char>>, i: int, st: (int, int, int))
    requires
        st.0 >= 0,
        st.1 >= 0,
        st.2 >= 0,
    ensures
        match max_state(segs, i, st) {
            Some((r, g, b)) => r >= 0 && g >= 0 && b >= 0,
            None => true,
        },
    decreases segs.len() - i,
{
    if 0 <= i < segs.len() {
        match pair_of(segs[i]) {
            Some(p) => {
                assert(p.0 >= 0) by {
                    let ts = spec_tokens(segs[i]);
                    crate::text::lemma_digits_value_nonneg(ts[0]);
                }
                lemma_max_state_nonneg(segs, i + 1, bump(st, p));
            },
            None => {},
        }
    }
}

proof fn lemma_power_sum_nonneg(lines: Seq<Seq<char>>, i: int)
    ensures
        match power_sum(lines, i) {
            Some(t) => t >= 0,
            None => true,
        },
    decreases lines.len() - i,
{
    if 0 <= i < lines.len() {
        lemma_power_sum_nonneg(lines, i + 1);
        lemma_game_power_nonneg(lines[i]);
    }
}

/// The sum of the games' powers; nothing when a line is malformed or a
/// power or the sum does not fit.
pub fn part_two(input: &str) -> (r: Option<u32>)
    ensures
        ({
            let ls = spec_lines(input@);
            match r {
                Some(v) => power_sum(ls, 0) == Some(v as int),
                None => power_sum(ls, 0) is None || power_sum(ls, 0)->Some_0 > u32::MAX,
            }
        }),
{
    let cs = to_chars(input);
    let lines = lines_of(&cs);
    let ghost ls = spec_lines(input@);
    let mut acc: u64 = 0;
    let mut i: usize = 0;
    #[verifier::loop_isolation(false)]
    while i < lines.len()
        invariant
            0 <= i <= lines@.len(),
            acc <= 0xFFFF_FFFF,
            match power_sum(ls, i as int) {
                Some(t) => power_sum(ls, 0) == Some(acc + t),
                None => power_sum(ls, 0) is None,
            },
        decreases lines@.len() - i,
    {
        let pw = match get_game_power(&lines[i]) {
            Some(v) => v,
            None => {
                proof {
                    if power_sum(ls, i as int + 1) is Some {
                        lemma_power_sum_nonneg(ls, i as int + 1);
                    }
                }
                return None;
            },
        };
        proof {
            lemma_power_sum_nonneg(ls, i as int + 1);
        }
        if pw > 0xFFFF_FFFF || acc + pw > 0xFFFF_FFFF {
            return None;
        }
        acc = acc + pw;
        i = i + 1;
    }
    Some(acc as u32)
}

} // verus!
