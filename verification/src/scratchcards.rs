//! Scratchcards: each card lists winning numbers and owned numbers.  A
//! card's hits are the distinct owned numbers that also appear among the
//! winning ones; scoring doubles per extra hit, and the second ruleset
//! instead wins copies of the following cards.

use vstd::prelude::*;
use crate::text::{
    spec_lines,
    spec_tokens,
    to_chars,
    lines_of,
    tokens_of,
    all_digits,
    digits_value,
    u64_nums_of_tokens,
    u64s_as_ints,
    parse_u64_tokens,
    find_char_from,
    find_char,
    chars_eq_str,
    slice_of,
};

verus! {

/// A parsed card: its winning and owned numbers.
pub open spec fn card_of(l: Seq<char>) -> Option<(Seq<int>, Seq<int>)> {
    match (find_char_from(l, ':', 0), find_char_from(l, '|', 0)) {
        (Some(ci), Some(pi)) => if ci < pi {
            let head = spec_tokens(l.take(ci));
            let ws = u64_nums_of_tokens(spec_tokens(l.subrange(ci + 1, pi)), 0);
            let os = u64_nums_of_tokens(spec_tokens(l.skip(pi + 1)), 0);
            if head.len() == 2 && head[0] == seq!['C', 'a', 'r', 'd'] && head[1].len() > 0
                && all_digits(head[1]) && digits_value(head[1]) <= u64::MAX {
                match (ws, os) {
                    (Some(w), Some(o)) => Some((w, o)),
                    _ => None,
                }
            } else {
                None
            }
        } else {
            None
        },
        _ => None,
    }
}

/// The number of hits: distinct owned numbers that appear among the
/// winning numbers, counted at their first occurrence.
pub open spec fn hits_from(w: Seq<int>, o: Seq<int>, i: int) -> int
    decreases o.len() - i,
{
    if i < 0 || i >= o.len() {
        0
    } else {
        (if w.contains(o[i]) && !o.take(i).contains(o[i]) {
            1int
        } else {
            0int
        }) + hits_from(w, o, i + 1)
    }
}

pub open spec fn num_hits_spec(w: Seq<int>, o: Seq<int>) -> int {
    hits_from(w, o, 0)
}

/// Two to the `e`-th power.
pub open spec fn pow2(e: int) -> int
    decreases e,
{
    if e <= 0 {
        1
    } else {
        2 * pow2(e - 1)
    }
}

/// A card's score: zero without hits, else doubling per extra hit.
pub open spec fn score_spec(h: int) -> int {
    if h <= 0 {
        0
    } else {
        pow2(h - 1)
    }
}

/// Does one value occur in the list?
fn contains_u64(v: &Vec<u64>, x: u64) -> (r: bool)
    ensures
        r == u64s_as_ints(v@).contains(x as int),
{
    let mut i: usize = 0;
    #[verifier::loop_isolation(false)]
    while i < v.len()
        invariant
            0 <= i <= v@.len(),
            forall|k: int| 0 <= k < i ==> u64s_as_ints(v@)[k] != x as int,
        decreases v@.len() - i,
    {
        if v[i] == x {
            proof {
                assert(u64s_as_ints(v@)[i as int] == x as int);
            }
            return true;
        }
        i = i + 1;
    }
    proof {
        assert forall|k: int| 0 <= k < v@.len() implies u64s_as_ints(v@)[k] != x as int by {}
    }
    false
}

/// Count the card's hits.
pub fn num_hits(w: &Vec<u64>, o: &Vec<u64>) -> (r: usize)
    ensures
        r as int == num_hits_spec(u64s_as_ints(w@), u64s_as_ints(o@)),
{
    let ghost ws = u64s_as_ints(w@);
    let ghost os = u64s_as_ints(o@);
    let mut count: usize = 0;
    let mut i: usize = 0;
    #[verifier::loop_isolation(false)]
    while i < o.len()
        invariant
            0 <= i <= o@.len(),
            count <= i,
            count as int + hits_from(ws, os, i as int) == num_hits_spec(ws, os),
        decreases o@.len() - i,
    {
        let x = o[i];
        let seen = {
            let mut found = false;
            let mut k: usize = 0;
            #[verifier::loop_isolation(false)]
            while k < i
                invariant
                    0 <= k <= i <= o@.len(),
                    found == os.take(i as int).take(k as int).contains(x as int),
                decreases i - k,
            {
                proof {
                    assert(os.take(i as int).take(k as int + 1) =~= os.take(i as int).take(
                        k as int,
                    ).push(os[k as int]));
                }
                if o[k] == x {
                    proof {
                        assert(os.take(i as int).take(k as int + 1).last() == x as int);
                    }
                    found = true;
                }
                k = k + 1;
            }
            proof {
                assert(os.take(i as int).take(i as int) =~= os.take(i as int));
            }
            found
        };
        proof {
            assert(os[i as int] == x as int);
        }
        if !seen && contains_u64(w, x) {
            count = count + 1;
        }
        i = i + 1;
    }
    count
}

/// A card's score; nothing when it does not fit in `u64`.
pub fn get_score(h: usize) -> (r: Option<u64>)
    ensures
        match r {
            Some(v) => v as int == score_spec(h as int),
            None => score_spec(h as int) > u64::MAX,
        },
{
    if h == 0 {
        return Some(0);
    }
    let mut acc: u64 = 1;
    let mut e: usize = 0;
    #[verifier::loop_isolation(false)]
    while e < h - 1
        invariant
            0 <= e <= h - 1,
            acc as int == pow2(e as int),
        decreases h - 1 - e,
    {
        let acc2 = match acc.checked_mul(2) {
            Some(a) => a,
            None => {
                proof {
                    lemma_pow2_grows(e as int + 1, h as int - 1);
                }
                return None;
            },
        };
        acc = acc2;
        e = e + 1;
    }
    Some(acc)
}

proof fn lemma_pow2_pos(e: int)
    ensures
        pow2(e) >= 1,
    decreases e,
{
    if e > 0 {
        lemma_pow2_pos(e - 1);
    }
}

proof fn lemma_pow2_grows(a: int, b: int)
    requires
        0 <= a <= b,
    ensures
        pow2(a) <= pow2(b),
    decreases b - a,
{
    if a < b {
        lemma_pow2_grows(a, b - 1);
        lemma_pow2_pos(b - 1);
    }
}

/// The sum of the card scores from line `i` on; nothing when a card is
/// malformed or a score does not fit.
pub open spec fn score_sum(lines: Seq<Seq<char>>, i: int) -> Option<int>
    decreases lines.len() - i,
{
    if i < 0 || i >= lines.len() {
        Some(0)
    } else {
        match (card_of(lines[i]), score_sum(lines, i + 1)) {
            (Some((w, o)), Some(rest)) => if score_spec(num_hits_spec(w, o)) <= u64::MAX {
                Some(score_spec(num_hits_spec(w, o)) + rest)
            } else {
                None
            },
            _ => None,
        }
    }
}

/// Parse one card line.
fn parse_card(l: &Vec<char>) -> (r: Option<(Vec<u64>, Vec<u64>)>)
    ensures
        match r {
            Some((w, o)) => card_of(l@) == Some((u64s_as_ints(w@), u64s_as_ints(o@))),
            None => card_of(l@) is None,
        },
{
    let ci = match find_char(l, ':') {
        Some(c) => c,
        None => {
            return None;
        },
    };
    let pi = match find_char(l, '|') {
        Some(c) => c,
        None => {
            return None;
        },
    };
    proof {
        crate::text::lemma_find_char_in_range(l@, ':', 0);
        crate::text::lemma_find_char_in_range(l@, '|', 0);
    }
    if ci >= pi {
        return None;
    }
    let n = l.len();
    let head = slice_of(l, 0, ci);
    proof {
        assert(head@ =~= l@.take(ci as int));
    }
    let hts = tokens_of(&head);
    if hts.len() != 2 {
        return None;
    }
    let card_ok = chars_eq_str(&hts[0], "Card");
    proof {
        reveal_strlit("Card");
        assert("Card"@ =~= seq!['C', 'a', 'r', 'd']);
    }
    if !card_ok {
        return None;
    }
    if crate::text::parse_u64(&hts[1]).is_none() {
        return None;
    }
    let wpart = slice_of(l, ci + 1, pi);
    let opart = slice_of(l, pi + 1, n);
    proof {
        assert(wpart@ =~= l@.subrange(ci as int + 1, pi as int));
        assert(opart@ =~= l@.skip(pi as int + 1));
    }
    let wtoks = tokens_of(&wpart);
    let otoks = tokens_of(&opart);
    let w = match parse_u64_tokens(&wtoks, Ghost(spec_tokens(l@.subrange(ci as int + 1, pi as int)))) {
        Some(v) => v,
        None => {
            return None;
        },
    };
    let o = match parse_u64_tokens(&otoks, Ghost(spec_tokens(l@.skip(pi as int + 1)))) {
        Some(v) => v,
        None => {
            return None;
        },
    };
    Some((w, o))
}

/// The sum of all card scores; nothing when a card is malformed or a
/// value does not fit.
pub fn part_one(input: &str) -> (r: Option<u32>)
    ensures
        ({
            let ls = spec_lines(input@);
            match r {
                Some(v) => score_sum(ls, 0) == Some(v as int),
                None => score_sum(ls, 0) is None || score_sum(ls, 0)->Some_0 > u32::MAX,
            }
        }),
{
    let cs = to_chars(input);
    let lines = lines_of(&cs);
    let ghost ls = spec_lines(input@);
    let mut acc: u64 = 0;
    let mut i: usize = 0;
    #[verifier::loop_isolation(false)]
    while i < lines.len()
        invariant
            0 <= i <= lines@.len(),
            acc <= 0xFFFF_FFFF,
            match score_sum(ls, i as int) {
                Some(t) => score_sum(ls, 0) == Some(acc + t),
                None => score_sum(ls, 0) is None,
            },
        decreases lines@.len() - i,
    {
        let (w, o) = match parse_card(&lines[i]) {
            Some(p) => p,
            None => {
                return None;
            },
        };
        let h = num_hits(&w, &o);
        let sc = match get_score(h) {
            Some(s) => s,
            None => {
                return None;
            },
        };
        proof {
            lemma_score_sum_nonneg(ls, i as int + 1);
            lemma_score_nonneg(h as int);
        }
        if sc > 0xFFFF_FFFF || acc + sc > 0xFFFF_FFFF {
            return None;
        }
        acc = acc + sc;
        i = i + 1;
    }
    Some(acc as u32)
}

proof fn lemma_score_nonneg(h: int)
    ensures
        score_spec(h) >= 0,
        h >= 1 ==> pow2(h - 1) >= 1,
    decreases h,
{
    if h >= 1 {
        lemma_score_nonneg(h - 1);
        if h >= 2 {
            assert(pow2(h - 1) == 2 * pow2(h - 2));
        }
    }
}

proof fn lemma_score_sum_nonneg(lines: Seq<Seq<char>>, i: int)
    ensures
        match score_sum(lines, i) {
            Some(t) => t >= 0,
            None => true,
        },
    decreases lines.len() - i,
{
    if 0 <= i < lines.len() {
        lemma_score_sum_nonneg(lines, i + 1);
        match card_of(lines[i]) {
            Some((w, o)) => {
                lemma_score_nonneg(num_hits_spec(w, o));
            },
            None => {},
        }
    }
}

/// One propagation step of the copy ruleset: the copies of card `i` are
/// added to the following `h` ticket counts.
pub open spec fn spread(counts: Seq<int>, i: int, h: int) -> Seq<int> {
    Seq::new(
        counts.len(),
        |j: int|
            if i + 1 <= j <= i + h {
                counts[j] + counts[i]
            } else {
                counts[j]
            },
    )
}

/// The final ticket counts after processing the cards from `i` on.
pub open spec fn propagate(hits: Seq<int>, i: int, counts: Seq<int>) -> Seq<int>
    decreases hits.len() - i,
{
    if i < 0 || i >= hits.len() {
        counts
    } else {
        propagate(hits, i + 1, spread(counts, i, hits[i]))
    }
}

/// The slice written by every step stays inside the pile, and every
/// count met along the way fits in `u64`.
pub open spec fn propagate_ok(hits: Seq<int>, i: int, counts: Seq<int>) -> bool
    decreases hits.len() - i,
{
    if i < 0 || i >= hits.len() {
        true
    } else {
        &&& i + hits[i] + 1 <= hits.len()
        &&& (forall|j: int|
            i + 1 <= j <= i + hits[i] ==> #[trigger] counts[j] + counts[i] <= u64::MAX)
        &&& propagate_ok(hits, i + 1, spread(counts, i, hits[i]))
    }
}

pub open spec fn seq_sum(s: Seq<int>, i: int) -> int
    decreases s.len() - i,
{
    if i < 0 || i >= s.len() {
        0
    } else {
        s[i] + seq_sum(s, i + 1)
    }
}

/// The hit counts of all cards.
pub open spec fn all_hits(lines: Seq<Seq<char>>) -> Option<Seq<int>>
    decreases lines.len(),
{
    if lines.len() == 0 {
        Some(Seq::empty())
    } else {
        match (card_of(lines[0]), all_hits(lines.drop_first())) {
            (Some((w, o)), Some(rest)) => Some(seq![num_hits_spec(w, o)] + rest),
            _ => None,
        }
    }
}

/// The total number of tickets under the copy ruleset; nothing when a
/// card is malformed, a step writes outside the pile, or a count or the
/// total does not fit.
pub fn part_two(input: &str) -> (r: Option<u32>)
    ensures
        ({
            let ls = spec_lines(input@);
            match r {
                Some(v) => match all_hits(ls) {
                    Some(hs) => {
                        let ones = Seq::new(hs.len(), |j: int| 1int);
                        &&& propagate_ok(hs, 0, ones)
                        &&& seq_sum(propagate(hs, 0, ones), 0) <= u32::MAX
                        &&& v as int == seq_sum(propagate(hs, 0, ones), 0)
                    },
                    None => false,
                },
                None => match all_hits(ls) {
                    Some(hs) => {
                        let ones = Seq::new(hs.len(), |j: int| 1int);
                        !propagate_ok(hs, 0, ones) || seq_sum(propagate(hs, 0, ones), 0)
                            > u32::MAX
                    },
                    None => true,
                },
            }
        }),
{
    let cs = to_chars(input);
    let lines = lines_of(&cs);
    let ghost ls = spec_lines(input@);
    let mut hits: Vec<usize> = Vec::new();
    let mut i: usize = 0;
    proof {
        assert(ls.skip(0) =~= ls);
        if all_hits(ls) is Some {
            assert(hits@.map_values(|h: usize| h as int) + all_hits(ls)->Some_0 =~= all_hits(
                ls,
            )->Some_0);
        }
    }
    #[verifier::loop_isolation(false)]
    while i < lines.len()
        invariant
            0 <= i <= lines@.len(),
            hits@.len() == i,
            match all_hits(ls.skip(i as int)) {
                Some(rest) => all_hits(ls) == Some(
                    hits@.map_values(|h: usize| h as int) + rest,
                ),
                None => all_hits(ls) is None,
            },
        decreases lines@.len() - i,
    {
        let (w, o) = match parse_card(&lines[i]) {
            Some(p) => p,
            None => {
                proof {
                    assert(ls.skip(i as int)[0] == ls[i as int]);
                }
                return None;
            },
        };
        let h = num_hits(&w, &o);
        hits.push(h);
        proof {
            assert(ls.skip(i as int)[0] == ls[i as int]);
            assert(ls.skip(i as int).drop_first() =~= ls.skip(i as int + 1));
            if all_hits(ls.skip(i as int + 1)) is Some {
                assert(hits@.map_values(|x: usize| x as int) =~= hits@.drop_last().map_values(
                    |x: usize| x as int,
                ).push(h as int));
                assert((hits@.drop_last().map_values(|x: usize| x as int).push(h as int)) + all_hits(
                    ls.skip(i as int + 1),
                )->Some_0 =~= hits@.drop_last().map_values(|x: usize| x as int) + (seq![h as int]
                    + all_hits(ls.skip(i as int + 1))->Some_0));
            }
        }
        i = i + 1;
    }
    proof {
        assert(ls.skip(i as int) =~= Seq::<Seq<char>>::empty());
        assert(hits@.map_values(|h: usize| h as int) + Seq::<int>::empty() =~= hits@.map_values(
            |h: usize| h as int,
        ));
    }
    let ghost hs = hits@.map_values(|h: usize| h as int);
    let n = hits.len();
    let mut counts: Vec<u64> = Vec::new();
    let mut j: usize = 0;
    #[verifier::loop_isolation(false)]
    while j < n
        invariant
            0 <= j <= n,
            counts@.len() == j,
            forall|k: int| 0 <= k < j ==> #[trigger] counts@[k] == 1u64,
        decreases n - j,
    {
        counts.push(1);
        j = j + 1;
    }
    let ghost ones = Seq::new(hs.len(), |k: int| 1int);
    proof {
        assert forall|k: int| 0 <= k < hs.len() implies u64s_as_ints(counts@)[k] == #[trigger] ones[k] by {
            assert(counts@[k] == 1u64);
        }
        assert(u64s_as_ints(counts@) =~= ones);
    }
    let mut i2: usize = 0;
    #[verifier::loop_isolation(false)]
    while i2 < n
        invariant
            0 <= i2 <= n,
            n == hs.len(),
            counts@.len() == n,
            propagate(hs, 0, ones) == propagate(hs, i2 as int, u64s_as_ints(counts@)),
            propagate_ok(hs, 0, ones) == propagate_ok(hs, i2 as int, u64s_as_ints(counts@)),
        decreases n - i2,
    {
        let h = hits[i2];
        let ghost cur = u64s_as_ints(counts@);
        if h > n - 1 - i2 {
            proof {
                assert(!propagate_ok(hs, i2 as int, cur));
            }
            return None;
        }
        let copies = counts[i2];
        let mut d: usize = 1;
        #[verifier::loop_isolation(false)]
        while d <= h
            invariant
                1 <= d <= h + 1,
                h <= n - 1 - i2,
                counts@.len() == n,
                counts@[i2 as int] == copies,
                forall|k: int|
                    0 <= k < n && !(i2 < k < i2 + d) ==> #[trigger] counts@[k] == cur[k],
                forall|k: int|
                    i2 < k < i2 + d ==> #[trigger] counts@[k] as int == cur[k] + cur[i2 as int],
            decreases h + 1 - d,
        {
            let t = counts[i2 + d];
            let t2 = match t.checked_add(copies) {
                Some(x) => x,
                None => {
                    proof {
                        assert(cur[i2 as int + d] + cur[i2 as int] > u64::MAX);
                        assert(!propagate_ok(hs, i2 as int, cur));
                    }
                    return None;
                },
            };
            counts.set(i2 + d, t2);
            d = d + 1;
        }
        proof {
            assert forall|k: int|
                0 <= k < n implies u64s_as_ints(counts@)[k] == #[trigger] spread(
                cur,
                i2 as int,
                h as int,
            )[k] by {
                if i2 < k <= i2 + h {
                    assert(counts@[k] as int == cur[k] + cur[i2 as int]);
                } else {
                    assert(counts@[k] == cur[k]);
                }
            }
            assert(u64s_as_ints(counts@) =~= spread(cur, i2 as int, h as int));
            assert(hs[i2 as int] == hits@[i2 as int] as int);
            assert forall|jj: int|
                i2 + 1 <= jj <= i2 + h implies #[trigger] cur[jj] + cur[i2 as int]
                <= u64::MAX by {
                assert(counts@[jj] as int == cur[jj] + cur[i2 as int]);
            }
            assert(propagate_ok(hs, i2 as int, cur) == propagate_ok(
                hs,
                i2 as int + 1,
                u64s_as_ints(counts@),
            ));
        }
        i2 = i2 + 1;
    }
    let mut total: u64 = 0;
    let ghost fin = u64s_as_ints(counts@);
    proof {
        assert(propagate(hs, i2 as int, fin) == fin);
        assert(propagate_ok(hs, 0, ones));
    }
    let mut k2: usize = 0;
    #[verifier::loop_isolation(false)]
    while k2 < n
        invariant
            0 <= k2 <= n,
            n == counts@.len(),
            total as int + seq_sum(fin, k2 as int) == seq_sum(fin, 0),
        decreases n - k2,
    {
        let t2 = match total.checked_add(counts[k2]) {
            Some(x) => x,
            None => {
                proof {
                    lemma_seq_sum_nonneg_u64(counts@, k2 as int + 1);
                }
                return None;
            },
        };
        total = t2;
        k2 = k2 + 1;
    }
    if total > 0xFFFF_FFFF {
        return None;
    }
    Some(total as u32)
}

proof fn lemma_seq_sum_nonneg_u64(v: Seq<u64>, i: int)
    ensures
        seq_sum(u64s_as_ints(v), i) >= 0,
    decreases v.len() - i,
{
    if 0 <= i < v.len() {
        lemma_seq_sum_nonneg_u64(v, i + 1);
    }
}

} // verus!
