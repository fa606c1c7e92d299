//! Boat races: holding the button for `t` time units in a race of
//! duration `d` covers `t * (d - t)` distance.  The answers count, for
//! each race, the hold times that beat the record, and multiply the
//! counts.

use vstd::prelude::*;
use crate::text::{
    spec_lines,
    spec_tokens,
    to_chars,
    lines_of,
    tokens_of,
    parse_u64,
    all_digits,
    digits_value,
    u64_nums_of_tokens,
    u64s_as_ints,
    parse_u64_tokens,
    find_char_from,
    find_char,
    spec_starts_with,
    starts_with_lit,
    concat_tokens,
    join_tokens,
};

verus! {

/// The number of hold times in `[t, d]` that beat the record.
pub open spec fn count_beats_from(d: int, record: int, t: int) -> int
    decreases d - t + 1,
{
    if t < 0 || t > d {
        0
    } else {
        (if t * (d - t) > record {
            1int
        } else {
            0int
        }) + count_beats_from(d, record, t + 1)
    }
}

/// The number of hold times that beat the record in one race.
pub open spec fn race_options(d: int, record: int) -> int {
    count_beats_from(d, record, 0)
}

proof fn lemma_count_beats_bounds(d: int, record: int, t: int)
    ensures
        0 <= count_beats_from(d, record, t) <= (if t < 0 || t > d {
            0int
        } else {
            d - t + 1
        }),
    decreases d - t + 1,
{
    if !(t < 0 || t > d) {
        lemma_count_beats_bounds(d, record, t + 1);
    }
}

/// Count the hold times that beat the record in a race of duration `d`.
pub fn get_num_options_to_beat_record(d: u64, record: u64) -> (r: u64)
    ensures
        r as int == race_options(d as int, record as int),
{
    if d == 0 {
        proof {
            assert(0 * (0 - 0) == 0);
        }
        return 0;
    }
    let mut count: u64 = 0;
    let mut t: u64 = 1;
    proof {
        assert(0 * (d - 0) == 0) by (nonlinear_arith);
        assert(count_beats_from(d as int, record as int, 0) == count_beats_from(
            d as int,
            record as int,
            1,
        ));
        lemma_count_beats_bounds(d as int, record as int, 1);
    }
    #[verifier::loop_isolation(false)]
    while t < d
        invariant
            1 <= t <= d,
            count as int + count_beats_from(d as int, record as int, t as int) == race_options(
                d as int,
                record as int,
            ),
            count < t,
        decreases d - t,
    {
        proof {
            assert((t as int) * ((d - t) as int) <= 0xFFFF_FFFF_FFFF_FFFFint
                * 0xFFFF_FFFF_FFFF_FFFFint) by (nonlinear_arith)
                requires
                    0 <= t as int <= 0xFFFF_FFFF_FFFF_FFFF,
                    0 <= (d - t) as int <= 0xFFFF_FFFF_FFFF_FFFF,
            ;
            assert((t as int) * ((d - t) as int) >= 0) by (nonlinear_arith)
                requires
                    t as int >= 0,
                    (d - t) as int >= 0,
            ;
            lemma_count_beats_bounds(d as int, record as int, t as int + 1);
        }
        let dist: u128 = (t as u128) * ((d - t) as u128);
        if dist > record as u128 {
            count = count + 1;
        }
        t = t + 1;
    }
    proof {
        assert(d * (d as int - d as int) == 0) by (nonlinear_arith);
        assert(count_beats_from(d as int, record as int, d as int) == 0 + count_beats_from(
            d as int,
            record as int,
            d as int + 1,
        ));
    }
    count
}

/// The two number lists of a race sheet: the line after `Time:` and the
/// line after `Distance:`, each read as space-separated numbers.
pub open spec fn race_lists(ls: Seq<Seq<char>>) -> Option<(Seq<int>, Seq<int>)> {
    if ls.len() >= 2 && spec_starts_with(ls[0], seq!['T', 'i', 'm', 'e', ':', ' ']) &&
    spec_starts_with(ls[1], seq!['D', 'i', 's', 't', 'a', 'n', 'c', 'e', ':', ' ']) {
        let ds = u64_nums_of_tokens(spec_tokens(ls[0].skip(6)), 0);
        let rs = u64_nums_of_tokens(spec_tokens(ls[1].skip(10)), 0);
        match (ds, rs) {
            (Some(a), Some(b)) => Some((a, b)),
            _ => None,
        }
    } else {
        None
    }
}

/// The product of the option counts of the paired races from `i` on.
pub open spec fn options_prod(ds: Seq<int>, rs: Seq<int>, i: int) -> int
    decreases ds.len() - i,
{
    if i < 0 || i >= ds.len() || i >= rs.len() {
        1
    } else {
        race_options(ds[i], rs[i]) * options_prod(ds, rs, i + 1)
    }
}

/// Every running product stays within `u64`.
pub open spec fn prod_ok(ds: Seq<int>, rs: Seq<int>, i: int, acc: int) -> bool
    decreases ds.len() - i,
{
    if i < 0 || i >= ds.len() || i >= rs.len() {
        true
    } else {
        acc * race_options(ds[i], rs[i]) <= u64::MAX && prod_ok(
            ds,
            rs,
            i + 1,
            acc * race_options(ds[i], rs[i]),
        )
    }
}

/// The product over all races of the number of ways to beat the record;
/// nothing when the sheet does not parse or the product does not fit.
pub fn part_one(input: &str) -> (r: Option<u64>)
    ensures
        ({
            let ls = spec_lines(input@);
            match r {
                Some(v) => match race_lists(ls) {
                    Some((ds, rs)) => prod_ok(ds, rs, 0, 1) && v as int == options_prod(ds, rs, 0),
                    None => false,
                },
                None => match race_lists(ls) {
                    Some((ds, rs)) => !prod_ok(ds, rs, 0, 1),
                    None => true,
                },
            }
        }),
{
    let cs = to_chars(input);
    let lines = lines_of(&cs);
    let ghost ls = spec_lines(input@);
    if lines.len() < 2 {
        return None;
    }
    if !starts_with_lit(&lines[0], "Time: ") {
        proof {
            reveal_strlit("Time: ");
            assert("Time: "@ =~= seq!['T', 'i', 'm', 'e', ':', ' ']);
        }
        return None;
    }
    if !starts_with_lit(&lines[1], "Distance: ") {
        proof {
            reveal_strlit("Distance: ");
            assert("Distance: "@ =~= seq!['D', 'i', 's', 't', 'a', 'n', 'c', 'e', ':', ' ']);
        }
        return None;
    }
    proof {
        reveal_strlit("Time: ");
        reveal_strlit("Distance: ");
        assert("Time: "@ =~= seq!['T', 'i', 'm', 'e', ':', ' ']);
        assert("Distance: "@ =~= seq!['D', 'i', 's', 't', 'a', 'n', 'c', 'e', ':', ' ']);
    }
    let rest0 = crate::text::slice_of(&lines[0], 6, lines[0].len());
    let rest1 = crate::text::slice_of(&lines[1], 10, lines[1].len());
    proof {
        assert(rest0@ =~= ls[0].skip(6));
        assert(rest1@ =~= ls[1].skip(10));
    }
    let toks0 = tokens_of(&rest0);
    let toks1 = tokens_of(&rest1);
    let ds = match parse_u64_tokens(&toks0, Ghost(spec_tokens(ls[0].skip(6)))) {
        Some(v) => v,
        None => {
            return None;
        },
    };
    let rs = match parse_u64_tokens(&toks1, Ghost(spec_tokens(ls[1].skip(10)))) {
        Some(v) => v,
        None => {
            return None;
        },
    };
    let ghost dsi = u64s_as_ints(ds@);
    let ghost rsi = u64s_as_ints(rs@);
    let n = if ds.len() < rs.len() {
        ds.len()
    } else {
        rs.len()
    };
    let mut acc: u64 = 1;
    let mut i: usize = 0;
    #[verifier::loop_isolation(false)]
    while i < n
        invariant
            0 <= i <= n,
            n == (if dsi.len() < rsi.len() {
                dsi.len()
            } else {
                rsi.len()
            }),
            acc as int * options_prod(dsi, rsi, i as int) == options_prod(dsi, rsi, 0),
            prod_ok(dsi, rsi, 0, 1) == prod_ok(dsi, rsi, i as int, acc as int),
        decreases n - i,
    {
        let c = get_num_options_to_beat_record(ds[i], rs[i]);
        let acc2 = match acc.checked_mul(c) {
            Some(a) => a,
            None => {
                proof {
                    assert(acc * c > u64::MAX);
                    assert(!prod_ok(dsi, rsi, i as int, acc as int));
                }
                return None;
            },
        };
        proof {
            assert(acc as int * (race_options(dsi[i as int], rsi[i as int]) * options_prod(
                dsi,
                rsi,
                i as int + 1,
            )) == (acc as int * race_options(dsi[i as int], rsi[i as int])) * options_prod(
                dsi,
                rsi,
                i as int + 1,
            )) by (nonlinear_arith);
        }
        acc = acc2;
        i = i + 1;
    }
    proof {
        assert(options_prod(dsi, rsi, i as int) == 1);
    }
    Some(acc)
}

/// The one big race read by joining each line's digits: the number of
/// ways to beat its record.
pub open spec fn big_race(ls: Seq<Seq<char>>) -> Option<(int, int)> {
    if ls.len() == 2 && find_char_from(ls[0], ':', 0) is Some && find_char_from(
        ls[1],
        ':',
        0,
    ) is Some {
        let j0 = concat_tokens(spec_tokens(ls[0].skip(find_char_from(ls[0], ':', 0)->Some_0 + 1)), 0);
        let j1 = concat_tokens(spec_tokens(ls[1].skip(find_char_from(ls[1], ':', 0)->Some_0 + 1)), 0);
        if j0.len() > 0 && all_digits(j0) && digits_value(j0) <= u64::MAX && j1.len() > 0
            && all_digits(j1) && digits_value(j1) <= u64::MAX {
            Some((digits_value(j0), digits_value(j1)))
        } else {
            None
        }
    } else {
        None
    }
}

/// The number of ways to beat the record in the single joined race;
/// nothing when the sheet does not have that shape.
pub fn part_two(input: &str) -> (r: Option<u64>)
    ensures
        ({
            let ls = spec_lines(input@);
            match r {
                Some(v) => match big_race(ls) {
                    Some((d, rec)) => v as int == race_options(d, rec),
                    None => false,
                },
                None => big_race(ls) is None,
            }
        }),
{
    let cs = to_chars(input);
    let lines = lines_of(&cs);
    let ghost ls = spec_lines(input@);
    if lines.len() != 2 {
        return None;
    }
    let p0 = match find_char(&lines[0], ':') {
        Some(p) => p,
        None => {
            return None;
        },
    };
    let p1 = match find_char(&lines[1], ':') {
        Some(p) => p,
        None => {
            return None;
        },
    };
    proof {
        crate::text::lemma_find_char_in_range(ls[0], ':', 0);
        crate::text::lemma_find_char_in_range(ls[1], ':', 0);
        assert(lines@[0]@ == ls[0]);
        assert(lines@[1]@ == ls[1]);
        assert((p0 as int) < lines@[0]@.len());
        assert((p1 as int) < lines@[1]@.len());
    }
    let n0 = lines[0].len();
    let n1 = lines[1].len();
    proof {
        assert(p0 < n0 && p1 < n1);
    }
    let rest0 = crate::text::slice_of(&lines[0], p0 + 1, n0);
    let rest1 = crate::text::slice_of(&lines[1], p1 + 1, n1);
    proof {
        assert(rest0@ =~= ls[0].skip(p0 as int + 1));
        assert(rest1@ =~= ls[1].skip(p1 as int + 1));
    }
    let toks0 = tokens_of(&rest0);
    let toks1 = tokens_of(&rest1);
    let j0 = join_tokens(&toks0, Ghost(spec_tokens(rest0@)));
    let j1 = join_tokens(&toks1, Ghost(spec_tokens(rest1@)));
    let d = match parse_u64(&j0) {
        Some(v) => v,
        None => {
            return None;
        },
    };
    let rec = match parse_u64(&j1) {
        Some(v) => v,
        None => {
            return None;
        },
    };
    Some(get_num_options_to_beat_record(d, rec))
}

} // verus!
