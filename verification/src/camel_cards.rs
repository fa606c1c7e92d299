//! Camel cards: each line holds a five-card hand and a bid.  Hands are
//! ranked by their type (jokers count as the most plentiful card) and
//! then by their cards in order; the winnings sum each bid times the
//! hand's one-based position in the sorted order.

use vstd::prelude::*;
use vstd::relations::{sorted_by, total_ordering};
use vstd::seq_lib::lemma_sorted_unique;
use itertools::Itertools;
use crate::text::{
    spec_lines,
    to_chars,
    lines_of,
    parse_u64,
    all_digits,
    digits_value,
    is_digit,
    digit_val,
    find_char_from,
    find_char,
    slice_of,
};

verus! {

/// The strength classes of a hand, weakest first.
#[derive(Clone, Copy, Debug, PartialEq, Eq, Structural)]
pub enum HandType {
    HighCard,
    OnePair,
    TwoPairs,
    ThreeOfAKind,
    FullHouse,
    FourOfAKind,
    FiveOfAKind,
}

pub open spec fn type_rank(t: HandType) -> int {
    match t {
        HandType::HighCard => 1,
        HandType::OnePair => 2,
        HandType::TwoPairs => 3,
        HandType::ThreeOfAKind => 4,
        HandType::FullHouse => 5,
        HandType::FourOfAKind => 6,
        HandType::FiveOfAKind => 7,
    }
}

/// A card's strength: the joker is weakest (0), then the digit cards,
/// ten, queen, king, ace (14).
pub open spec fn card_rank(c: char) -> Option<int> {
    if c == 'T' {
        Some(11int)
    } else if c == 'J' {
        Some(0int)
    } else if c == 'Q' {
        Some(12int)
    } else if c == 'K' {
        Some(13int)
    } else if c == 'A' {
        Some(14int)
    } else if is_digit(c) {
        Some(digit_val(c) + 1)
    } else {
        None
    }
}

/// How often rank `v` occurs among the first `i` cards.
pub open spec fn cnt_pref(cards: Seq<int>, v: int, i: int) -> int
    decreases i,
{
    if i <= 0 {
        0
    } else {
        cnt_pref(cards, v, i - 1) + (if cards[i - 1] == v {
            1int
        } else {
            0int
        })
    }
}

pub open spec fn count_of(cards: Seq<int>, v: int) -> int {
    cnt_pref(cards, v, cards.len() as int)
}

/// The largest occurrence count among the non-joker ranks up to `v`.
pub open spec fn max_count_upto(cards: Seq<int>, v: int) -> int
    decreases v,
{
    if v < 1 {
        0
    } else if count_of(cards, v) > max_count_upto(cards, v - 1) {
        count_of(cards, v)
    } else {
        max_count_upto(cards, v - 1)
    }
}

/// How many non-joker ranks up to `v` occur exactly `k` times.
pub open spec fn ranks_with_count_upto(cards: Seq<int>, v: int, k: int) -> int
    decreases v,
{
    if v < 1 {
        0
    } else {
        ranks_with_count_upto(cards, v - 1, k) + (if count_of(cards, v) == k {
            1int
        } else {
            0int
        })
    }
}

/// The hand's strength class as a number: jokers join the most
/// plentiful rank, and the class follows from the largest merged count
/// and whether a second pair or a pair beside a triple remains.
pub open spec fn hand_rank(cards: Seq<int>) -> int {
    let j = count_of(cards, 0);
    let m = max_count_upto(cards, 14);
    let pairs = ranks_with_count_upto(cards, 14, 2);
    let triples = ranks_with_count_upto(cards, 14, 3);
    if j >= 5 {
        7
    } else if m + j >= 5 {
        7
    } else if m + j == 4 {
        6
    } else if m + j == 3 && ((j == 0 && triples == 1 && pairs == 1) || (j == 1 && pairs == 2)) {
        5
    } else if m + j == 3 {
        4
    } else if m + j == 2 && j == 0 && pairs == 2 {
        3
    } else if m + j == 2 {
        2
    } else {
        1
    }
}

/// Classify a hand of card ranks.
pub fn analyze_hand_type(cards: &Vec<u8>) -> (r: HandType)
    requires
        cards@.len() <= 5,
        forall|k: int| 0 <= k < cards@.len() ==> 0 <= #[trigger] cards@[k] <= 14,
    ensures
        type_rank(r) == hand_rank(cards@.map_values(|c: u8| c as int)),
{
    let ghost cs = cards@.map_values(|c: u8| c as int);
    let mut counts: Vec<u8> = Vec::new();
    let mut v: usize = 0;
    #[verifier::loop_isolation(false)]
    while v < 15
        invariant
            0 <= v <= 15,
            counts@.len() == v,
            forall|q: int| 0 <= q < v ==> #[trigger] counts@[q] == 0u8,
        decreases 15 - v,
    {
        counts.push(0);
        v = v + 1;
    }
    let mut i: usize = 0;
    #[verifier::loop_isolation(false)]
    while i < cards.len()
        invariant
            0 <= i <= cards@.len(),
            counts@.len() == 15,
            forall|q: int| 0 <= q < 15 ==> #[trigger] counts@[q] as int == cnt_pref(cs, q, i as int),
            forall|q: int| 0 <= q < 15 ==> #[trigger] counts@[q] as int <= i,
        decreases cards@.len() - i,
    {
        let c = cards[i];
        proof {
            assert(cs[i as int] == c as int);
        }
        let old_c = counts[c as usize];
        counts.set(c as usize, old_c + 1);
        proof {
            assert forall|q: int| 0 <= q < 15 implies #[trigger] counts@[q] as int == cnt_pref(
                cs,
                q,
                i as int + 1,
            ) by {}
        }
        i = i + 1;
    }
    proof {
        assert(forall|q: int| 0 <= q < 15 ==> #[trigger] counts@[q] as int == count_of(cs, q));
    }
    let j = counts[0];
    let mut m: u8 = 0;
    let mut pairs: u8 = 0;
    let mut triples: u8 = 0;
    let mut v2: usize = 1;
    #[verifier::loop_isolation(false)]
    while v2 < 15
        invariant
            1 <= v2 <= 15,
            counts@.len() == 15,
            forall|q: int| 0 <= q < 15 ==> #[trigger] counts@[q] as int == count_of(cs, q),
            m as int == max_count_upto(cs, v2 as int - 1),
            pairs as int == ranks_with_count_upto(cs, v2 as int - 1, 2),
            triples as int == ranks_with_count_upto(cs, v2 as int - 1, 3),
            pairs < v2,
            triples < v2,
        decreases 15 - v2,
    {
        let c = counts[v2];
        if c > m {
            m = c;
        }
        if c == 2 {
            pairs = pairs + 1;
        }
        if c == 3 {
            triples = triples + 1;
        }
        v2 = v2 + 1;
    }
    let jj = j as u32;
    let mm = m as u32;
    if jj >= 5 || mm + jj >= 5 {
        HandType::FiveOfAKind
    } else if mm + jj == 4 {
        HandType::FourOfAKind
    } else if mm + jj == 3 && ((jj == 0 && triples == 1 && pairs == 1) || (jj == 1 && pairs == 2)) {
        HandType::FullHouse
    } else if mm + jj == 3 {
        HandType::ThreeOfAKind
    } else if mm + jj == 2 && jj == 0 && pairs == 2 {
        HandType::TwoPairs
    } else if mm + jj == 2 {
        HandType::OnePair
    } else {
        HandType::HighCard
    }
}

/// The ranks of a hand token, padded with the weakest number card to
/// five entries; nothing for a token that is too long or has a
/// character that names no card.
pub open spec fn hand_of(tok: Seq<char>) -> Option<Seq<int>>
    decreases tok.len(),
{
    if tok.len() > 5 {
        None
    } else if tok.len() == 0 {
        Some(Seq::empty())
    } else {
        match (hand_of(tok.drop_last()), card_rank(tok.last())) {
            (Some(pre), Some(c)) => Some(pre.push(c)),
            _ => None,
        }
    }
}

pub open spec fn pad_hand(h: Seq<int>) -> Seq<int> {
    h + Seq::new((5 - h.len()) as nat, |k: int| 1int)
}

/// A hand's sort key: the strength class, then the five card ranks in
/// order, then the bid, packed into one number so that the numeric
/// order is exactly the lexicographic hand order.
pub open spec fn key_of(tr: int, cards: Seq<int>, bid: int) -> int {
    tr * 0x10_0000_0000_0000 + cards[0] * 0x1_0000_0000_0000 + cards[1] * 0x1000_0000_0000
        + cards[2] * 0x100_0000_0000 + cards[3] * 0x10_0000_0000 + cards[4] * 0x1_0000_0000 + bid
}

/// The key of one input line: hand token, one space, bid.
pub open spec fn line_key(l: Seq<char>) -> Option<int> {
    match find_char_from(l, ' ', 0) {
        None => None,
        Some(si) => {
            let bidp = l.skip(si + 1);
            match hand_of(l.take(si)) {
                None => None,
                Some(h) => if bidp.len() > 0 && all_digits(bidp) && digits_value(bidp)
                    <= u32::MAX {
                    Some(key_of(hand_rank(pad_hand(h)), pad_hand(h), digits_value(bidp)))
                } else {
                    None
                },
            }
        },
    }
}

/// The keys of all lines from `i` on.
pub open spec fn keys_of(lines: Seq<Seq<char>>, i: int) -> Option<Seq<int>>
    decreases lines.len() - i,
{
    if i < 0 || i >= lines.len() {
        Some(Seq::empty())
    } else {
        match (line_key(lines[i]), keys_of(lines, i + 1)) {
            (Some(k), Some(rest)) => Some(seq![k] + rest),
            _ => None,
        }
    }
}

pub open spec fn u64_le() -> spec_fn(u64, u64) -> bool {
    |x: u64, y: u64| x <= y
}

/// The total winnings over the sorted keys from `i` on: each key's bid
/// times its one-based position.
pub open spec fn winnings_from(sorted: Seq<u64>, i: int) -> int
    decreases sorted.len() - i,
{
    if i < 0 || i >= sorted.len() {
        0
    } else {
        (i + 1) * (sorted[i] as int % 0x1_0000_0000) + winnings_from(sorted, i + 1)
    }
}

/// Every winnings term and running total fits in `u64`.
pub open spec fn winnings_ok(sorted: Seq<u64>, i: int, acc: int) -> bool
    decreases sorted.len() - i,
{
    if i < 0 || i >= sorted.len() {
        true
    } else {
        (i + 1) * (sorted[i] as int % 0x1_0000_0000) <= u64::MAX && acc + (i + 1) * (
        sorted[i] as int % 0x1_0000_0000) <= u64::MAX && winnings_ok(
            sorted,
            i + 1,
            acc + (i + 1) * (sorted[i] as int % 0x1_0000_0000),
        )
    }
}

/// Relies on itertools' `sorted` (`Vec::from_iter` followed by slice
/// `sort`): the result holds the same elements in ascending order.
#[verifier::external_body]
fn sorted_u64(v: Vec<u64>) -> (r: Vec<u64>)
    ensures
        r@.to_multiset() == v@.to_multiset(),
        sorted_by(r@, u64_le()),
{
    v.into_iter().sorted().collect()
}

/// Parse one line into its key.
fn parse_line_key(l: &Vec<char>) -> (r: Option<u64>)
    ensures
        match r {
            Some(k) => line_key(l@) == Some(k as int),
            None => line_key(l@) is None,
        },
{
    let si = match find_char(l, ' ') {
        Some(s) => s,
        None => {
            return None;
        },
    };
    proof {
        crate::text::lemma_find_char_in_range(l@, ' ', 0);
    }
    let n = l.len();
    let hand_tok = slice_of(l, 0, si);
    let bid_tok = slice_of(l, si + 1, n);
    proof {
        assert(hand_tok@ =~= l@.take(si as int));
        assert(bid_tok@ =~= l@.skip(si as int + 1));
    }
    if hand_tok.len() > 5 {
        return None;
    }
    let mut ranks: Vec<u8> = Vec::new();
    let mut i: usize = 0;
    #[verifier::loop_isolation(false)]
    while i < hand_tok.len()
        invariant
            0 <= i <= hand_tok@.len() <= 5,
            ranks@.len() == i,
            hand_of(hand_tok@.take(i as int)) == Some(ranks@.map_values(|c: u8| c as int)),
            forall|k: int| 0 <= k < i ==> 0 <= #[trigger] ranks@[k] <= 14,
        decreases hand_tok@.len() - i,
    {
        let c = hand_tok[i];
        let rank: u8 = if c == 'T' {
            11
        } else if c == 'J' {
            0
        } else if c == 'Q' {
            12
        } else if c == 'K' {
            13
        } else if c == 'A' {
            14
        } else if c >= '0' && c <= '9' {
            proof {
                assert('0' as int == 48 && '9' as int == 57);
            }
            (c as u32 - 48 + 1) as u8
        } else {
            proof {
                assert(card_rank(hand_tok@[i as int]) is None);
                assert(hand_tok@.take(i as int + 1).drop_last() =~= hand_tok@.take(i as int));
                assert(hand_tok@.take(i as int + 1).last() == hand_tok@[i as int]);
                lemma_hand_of_extends_none(hand_tok@, i as int + 1);
            }
            return None;
        };
        proof {
            assert(card_rank(hand_tok@[i as int]) == Some(rank as int));
            assert(hand_tok@.take(i as int + 1).drop_last() =~= hand_tok@.take(i as int));
            assert(hand_tok@.take(i as int + 1).last() == hand_tok@[i as int]);
        }
        ranks.push(rank);
        proof {
            assert(ranks@.map_values(|c: u8| c as int) =~= ranks@.drop_last().map_values(
                |c: u8| c as int,
            ).push(rank as int));
        }
        i = i + 1;
    }
    proof {
        assert(hand_tok@.take(i as int) =~= hand_tok@);
    }
    while ranks.len() < 5
        invariant
            hand_of(hand_tok@) == Some(ranks@.map_values(|c: u8| c as int).take(hand_tok@.len() as int)),
            hand_tok@.len() <= ranks@.len() <= 5,
            forall|k: int| 0 <= k < ranks@.len() ==> 0 <= #[trigger] ranks@[k] <= 14,
            forall|k: int|
                hand_tok@.len() <= k < ranks@.len() ==> #[trigger] ranks@[k] == 1u8,
        decreases 5 - ranks@.len(),
    {
        ranks.push(1);
    }
    let ghost h = hand_of(hand_tok@)->Some_0;
    proof {
        let ri = ranks@.map_values(|c: u8| c as int);
        assert forall|k: int| 0 <= k < 5 implies #[trigger] ri[k] == pad_hand(h)[k] by {
            if k < hand_tok@.len() {
                assert(ri.take(hand_tok@.len() as int)[k] == h[k]);
            }
        }
        assert(ranks@.map_values(|c: u8| c as int) =~= pad_hand(h));
    }
    let bid = match parse_u64(&bid_tok) {
        Some(b) => b,
        None => {
            proof {
                if bid_tok@.len() > 0 && all_digits(bid_tok@) {
                    crate::text::lemma_digits_value_nonneg(bid_tok@);
                }
            }
            return None;
        },
    };
    if bid > 0xFFFF_FFFF {
        return None;
    }
    let ty = analyze_hand_type(&ranks);
    let tr: u64 = match ty {
        HandType::HighCard => 1,
        HandType::OnePair => 2,
        HandType::TwoPairs => 3,
        HandType::ThreeOfAKind => 4,
        HandType::FullHouse => 5,
        HandType::FourOfAKind => 6,
        HandType::FiveOfAKind => 7,
    };
    let c0 = ranks[0] as u64;
    let c1 = ranks[1] as u64;
    let c2 = ranks[2] as u64;
    let c3 = ranks[3] as u64;
    let c4 = ranks[4] as u64;
    let key: u64 = tr * 0x10_0000_0000_0000 + c0 * 0x1_0000_0000_0000 + c1 * 0x1000_0000_0000 + c2
        * 0x100_0000_0000 + c3 * 0x10_0000_0000 + c4 * 0x1_0000_0000 + bid;
    Some(key)
}

proof fn lemma_hand_of_extends_none(tok: Seq<char>, i: int)
    requires
        0 < i <= tok.len() && tok.len() <= 5,
        hand_of(tok.take(i)) is None,
    ensures
        hand_of(tok) is None,
    decreases tok.len() - i,
{
    if i < tok.len() {
        assert(tok.take(i + 1).drop_last() =~= tok.take(i));
        lemma_hand_of_extends_none(tok, i + 1);
    } else {
        assert(tok.take(i) =~= tok);
    }
}

/// The total winnings: each bid times its hand's position once all
/// hands are sorted; nothing when a line is malformed or a value does
/// not fit.
pub fn part_one(input: &str) -> (r: Option<u32>)
    ensures
        ({
            let ls = spec_lines(input@);
            match r {
                Some(v) => match keys_of(ls, 0) {
                    Some(ks) => {
                        let sorted = ks.map_values(|k: int| k as u64).sort_by(u64_le());
                        &&& forall|k: int| 0 <= k < ks.len() ==> 0 <= #[trigger] ks[k] <= u64::MAX
                        &&& winnings_ok(sorted, 0, 0)
                        &&& winnings_from(sorted, 0) <= u32::MAX
                        &&& v as int == winnings_from(sorted, 0)
                    },
                    None => false,
                },
                None => match keys_of(ls, 0) {
                    Some(ks) => !winnings_ok(ks.map_values(|k: int| k as u64).sort_by(u64_le()), 0, 0)
                        || winnings_from(ks.map_values(|k: int| k as u64).sort_by(u64_le()), 0)
                        > u32::MAX,
                    None => true,
                },
            }
        }),
{
    solve(input)
}

/// The second ruleset scores identically here: the joker reading of `J`
/// is already built into the card ranks.
pub fn part_two(input: &str) -> (r: Option<u32>)
    ensures
        ({
            let ls = spec_lines(input@);
            match r {
                Some(v) => match keys_of(ls, 0) {
                    Some(ks) => {
                        let sorted = ks.map_values(|k: int| k as u64).sort_by(u64_le());
                        &&& winnings_ok(sorted, 0, 0)
                        &&& winnings_from(sorted, 0) <= u32::MAX
                        &&& v as int == winnings_from(sorted, 0)
                    },
                    None => false,
                },
                None => match keys_of(ls, 0) {
                    Some(ks) => !winnings_ok(ks.map_values(|k: int| k as u64).sort_by(u64_le()), 0, 0)
                        || winnings_from(ks.map_values(|k: int| k as u64).sort_by(u64_le()), 0)
                        > u32::MAX,
                    None => true,
                },
            }
        }),
{
    solve(input)
}

fn solve(input: &str) -> (r: Option<u32>)
    ensures
        ({
            let ls = spec_lines(input@);
            match r {
                Some(v) => match keys_of(ls, 0) {
                    Some(ks) => {
                        let sorted = ks.map_values(|k: int| k as u64).sort_by(u64_le());
                        &&& forall|k: int| 0 <= k < ks.len() ==> 0 <= #[trigger] ks[k] <= u64::MAX
                        &&& winnings_ok(sorted, 0, 0)
                        &&& winnings_from(sorted, 0) <= u32::MAX
                        &&& v as int == winnings_from(sorted, 0)
                    },
                    None => false,
                },
                None => match keys_of(ls, 0) {
                    Some(ks) => !winnings_ok(ks.map_values(|k: int| k as u64).sort_by(u64_le()), 0, 0)
                        || winnings_from(ks.map_values(|k: int| k as u64).sort_by(u64_le()), 0)
                        > u32::MAX,
                    None => true,
                },
            }
        }),
{
    let cs = to_chars(input);
    let lines = lines_of(&cs);
    let ghost ls = spec_lines(input@);
    let mut keys: Vec<u64> = Vec::new();
    let mut i: usize = 0;
    #[verifier::loop_isolation(false)]
    while i < lines.len()
        invariant
            0 <= i <= lines@.len(),
            keys@.len() == i,
            match keys_of(ls, i as int) {
                Some(rest) => keys_of(ls, 0) == Some(
                    keys@.map_values(|k: u64| k as int) + rest,
                ),
                None => keys_of(ls, 0) is None,
            },
        decreases lines@.len() - i,
    {
        let k = match parse_line_key(&lines[i]) {
            Some(k) => k,
            None => {
                return None;
            },
        };
        keys.push(k);
        proof {
            assert(keys@.map_values(|x: u64| x as int) =~= keys@.drop_last().map_values(
                |x: u64| x as int,
            ).push(k as int));
            if keys_of(ls, i as int + 1) is Some {
                assert((keys@.drop_last().map_values(|x: u64| x as int).push(k as int)) + keys_of(
                    ls,
                    i as int + 1,
                )->Some_0 =~= keys@.drop_last().map_values(|x: u64| x as int) + (seq![k as int]
                    + keys_of(ls, i as int + 1)->Some_0));
            }
        }
        i = i + 1;
    }
    proof {
        assert(keys@.map_values(|k: u64| k as int) + Seq::<int>::empty() =~= keys@.map_values(
            |k: u64| k as int,
        ));
    }
    let ghost ks = keys_of(ls, 0)->Some_0;
    let sorted = sorted_u64(keys);
    proof {
        assert(total_ordering(u64_le()));
        let model = ks.map_values(|k: int| k as u64);
        assert forall|q: int| 0 <= q < ks.len() implies #[trigger] model[q] == keys@[q] by {
            assert(ks[q] == keys@[q] as int);
        }
        assert(model =~= keys@);
        keys@.lemma_sort_by_ensures(u64_le());
        lemma_sorted_unique(sorted@, keys@.sort_by(u64_le()), u64_le());
        assert(sorted@ == ks.map_values(|k: int| k as u64).sort_by(u64_le()));
        assert forall|q: int| 0 <= q < ks.len() implies 0 <= #[trigger] ks[q] <= u64::MAX by {
            assert(ks[q] == keys@[q] as int);
        }
    }
    let mut acc: u64 = 0;
    let mut p: usize = 0;
    #[verifier::loop_isolation(false)]
    while p < sorted.len()
        invariant
            0 <= p <= sorted@.len(),
            winnings_from(sorted@, 0) == acc + winnings_from(sorted@, p as int),
            winnings_ok(sorted@, 0, 0) == winnings_ok(sorted@, p as int, acc as int),
        decreases sorted@.len() - p,
    {
        let key = sorted[p];
        let bid = key % 0x1_0000_0000;
        let pos = (p + 1) as u64;
        let term = match pos.checked_mul(bid) {
            Some(t) => t,
            None => {
                proof {
                    assert(!winnings_ok(sorted@, p as int, acc as int));
                }
                return None;
            },
        };
        let acc2 = match acc.checked_add(term) {
            Some(a) => a,
            None => {
                proof {
                    assert(!winnings_ok(sorted@, p as int, acc as int));
                }
                return None;
            },
        };
        acc = acc2;
        p = p + 1;
    }
    if acc > 0xFFFF_FFFF {
        proof {
            lemma_winnings_nonneg(sorted@, 0);
        }
        return None;
    }
    Some(acc as u32)
}

proof fn lemma_winnings_nonneg(sorted: Seq<u64>, i: int)
    ensures
        winnings_from(sorted, i) >= 0,
    decreases sorted.len() - i,
{
    if 0 <= i < sorted.len() {
        lemma_winnings_nonneg(sorted, i + 1);
        vstd::arithmetic::mul::lemma_mul_nonnegative(i + 1, sorted[i] as int % 0x1_0000_0000);
    }
}

} // verus!
