//! Calibration values: each line's first and last digit form a two-digit
//! number, and the answers sum those numbers.  The second part also counts
//! spelled-out digit words.

use vstd::prelude::*;
use crate::text::{spec_lines, to_chars, lines_of, is_digit, digit_val};

verus! {

/// The first digit of a line at or after position `i`.
pub open spec fn first_digit_from(l: Seq<char>, i: int) -> Option<int>
    decreases l.len() - i,
{
    if i < 0 || i >= l.len() {
        None
    } else if is_digit(l[i]) {
        Some(digit_val(l[i]))
    } else {
        first_digit_from(l, i + 1)
    }
}

/// The last digit of a line at or before position `i`.
pub open spec fn last_digit_from(l: Seq<char>, i: int) -> Option<int>
    decreases i + 1,
{
    if i < 0 || i >= l.len() {
        None
    } else if is_digit(l[i]) {
        Some(digit_val(l[i]))
    } else {
        last_digit_from(l, i - 1)
    }
}

/// A line's calibration value: ten times its first digit plus its last.
pub open spec fn line_value(l: Seq<char>) -> Option<int> {
    match (first_digit_from(l, 0), last_digit_from(l, l.len() - 1)) {
        (Some(f), Some(g)) => Some(10 * f + g),
        _ => None,
    }
}

/// The sum of the calibration values of the lines from index `i` on;
/// nothing if some line has no digit.
pub open spec fn calibration_sum(lines: Seq<Seq<char>>, i: int) -> Option<int>
    decreases lines.len() - i,
{
    if i < 0 || i >= lines.len() {
        Some(0)
    } else {
        match (line_value(lines[i]), calibration_sum(lines, i + 1)) {
            (Some(v), Some(rest)) => Some(v + rest),
            _ => None,
        }
    }
}

proof fn lemma_first_digit_bounds(l: Seq<char>, i: int)
    ensures
        match first_digit_from(l, i) {
            Some(v) => 0 <= v <= 9,
            None => true,
        },
    decreases l.len() - i,
{
    if 0 <= i < l.len() && !is_digit(l[i]) {
        lemma_first_digit_bounds(l, i + 1);
    }
}

proof fn lemma_last_digit_bounds(l: Seq<char>, i: int)
    ensures
        match last_digit_from(l, i) {
            Some(v) => 0 <= v <= 9,
            None => true,
        },
    decreases i + 1,
{
    if 0 <= i < l.len() && !is_digit(l[i]) {
        lemma_last_digit_bounds(l, i - 1);
    }
}

proof fn lemma_calibration_sum_nonneg(lines: Seq<Seq<char>>, i: int)
    ensures
        match calibration_sum(lines, i) {
            Some(t) => t >= 0,
            None => true,
        },
    decreases lines.len() - i,
{
    if 0 <= i < lines.len() {
        lemma_calibration_sum_nonneg(lines, i + 1);
        lemma_first_digit_bounds(lines[i], 0);
        lemma_last_digit_bounds(lines[i], lines[i].len() - 1);
    }
}

/// Scan one line for its first and last digit.
fn line_digits(l: &Vec<char>) -> (r: Option<(u32, u32)>)
    ensures
        match r {
            Some((f, g)) => first_digit_from(l@, 0) == Some(f as int) && last_digit_from(
                l@,
                l@.len() - 1,
            ) == Some(g as int),
            None => first_digit_from(l@, 0) is None || last_digit_from(l@, l@.len() - 1) is None,
        },
{
    let n = l.len();
    let mut j: usize = 0;
    let mut first: Option<u32> = None;
    #[verifier::loop_isolation(false)]
    while j < n
        invariant
            0 <= j <= n,
            n == l@.len(),
            first is None,
            first_digit_from(l@, 0) == first_digit_from(l@, j as int),
        decreases n - j,
    {
        let c = l[j];
        if c >= '0' && c <= '9' {
            proof {
                assert('0' as int == 48 && '9' as int == 57);
            }
            first = Some(c as u32 - 48);
            break ;
        }
        j = j + 1;
    }
    let f = match first {
        Some(f) => f,
        None => {
            return None;
        },
    };
    let mut k: usize = n;
    let mut last: Option<u32> = None;
    #[verifier::loop_isolation(false)]
    while k > 0
        invariant
            0 <= k <= n,
            n == l@.len(),
            last is None,
            last_digit_from(l@, l@.len() - 1) == last_digit_from(l@, k - 1),
        decreases k,
    {
        let c = l[k - 1];
        if c >= '0' && c <= '9' {
            proof {
                assert('0' as int == 48 && '9' as int == 57);
            }
            last = Some(c as u32 - 48);
            break ;
        }
        k = k - 1;
    }
    match last {
        Some(g) => Some((f, g)),
        None => None,
    }
}

/// Sum of the two-digit numbers formed by each line's first and last
/// digit; nothing when a line has no digit or the sum does not fit.
pub fn part_one(input: &str) -> (r: Option<u32>)
    ensures
        ({
            let total = calibration_sum(spec_lines(input@), 0);
            match r {
                Some(v) => total == Some(v as int),
                None => total is None || total->Some_0 > u32::MAX,
            }
        }),
{
    let cs = to_chars(input);
    let lines = lines_of(&cs);
    let ghost ls = spec_lines(input@);
    let mut acc: u64 = 0;
    let mut i: usize = 0;
    #[verifier::loop_isolation(false)]
    while i < lines.len()
        invariant
            0 <= i <= lines@.len(),
            acc <= 0xFFFF_FFFF,
            match calibration_sum(ls, i as int) {
                Some(t) => calibration_sum(ls, 0) == Some(acc + t),
                None => calibration_sum(ls, 0) is None,
            },
        decreases lines@.len() - i,
    {
        let (f, g) = match line_digits(&lines[i]) {
            Some(fg) => fg,
            None => {
                return None;
            },
        };
        proof {
            lemma_first_digit_bounds(ls[i as int], 0);
            lemma_last_digit_bounds(ls[i as int], ls[i as int].len() - 1);
            lemma_calibration_sum_nonneg(ls, i as int + 1);
        }
        let v = (10 * f + g) as u64;
        if acc + v > 0xFFFF_FFFF {
            proof {
                if calibration_sum(ls, i as int + 1) is Some {
                    lemma_calibration_sum_nonneg(ls, i as int + 1);
                }
            }
            return None;
        }
        acc = acc + v;
        i = i + 1;
    }
    Some(acc as u32)
}

/// Whether the literal `w` occurs in `l` at position `i`.
pub open spec fn matches_at(l: Seq<char>, i: int, w: Seq<char>) -> bool {
    0 <= i && i + w.len() <= l.len() && l.subrange(i, i + w.len()) == w
}

/// The digit named at position `i`, as one of the digit characters `1`
/// through `9` or one of the words `one` through `nine`; a `0` never
/// matches under this ruleset.
pub open spec fn word_digit_at(l: Seq<char>, i: int) -> Option<int> {
    if 0 <= i < l.len() && '1' <= l[i] && l[i] <= '9' {
        Some(digit_val(l[i]))
    } else if matches_at(l, i, seq!['o', 'n', 'e']) {
        Some(1int)
    } else if matches_at(l, i, seq!['t', 'w', 'o']) {
        Some(2int)
    } else if matches_at(l, i, seq!['t', 'h', 'r', 'e', 'e']) {
        Some(3int)
    } else if matches_at(l, i, seq!['f', 'o', 'u', 'r']) {
        Some(4int)
    } else if matches_at(l, i, seq!['f', 'i', 'v', 'e']) {
        Some(5int)
    } else if matches_at(l, i, seq!['s', 'i', 'x']) {
        Some(6int)
    } else if matches_at(l, i, seq!['s', 'e', 'v', 'e', 'n']) {
        Some(7int)
    } else if matches_at(l, i, seq!['e', 'i', 'g', 'h', 't']) {
        Some(8int)
    } else if matches_at(l, i, seq!['n', 'i', 'n', 'e']) {
        Some(9int)
    } else {
        None
    }
}

/// The first spelled or literal digit at or after position `i`.
pub open spec fn first_word_digit(l: Seq<char>, i: int) -> Option<int>
    decreases l.len() - i,
{
    if i < 0 || i >= l.len() {
        None
    } else {
        match word_digit_at(l, i) {
            Some(v) => Some(v),
            None => first_word_digit(l, i + 1),
        }
    }
}

/// The last spelled or literal digit starting at or before position `i`.
pub open spec fn last_word_digit(l: Seq<char>, i: int) -> Option<int>
    decreases i + 1,
{
    if i < 0 || i >= l.len() {
        None
    } else {
        match word_digit_at(l, i) {
            Some(v) => Some(v),
            None => last_word_digit(l, i - 1),
        }
    }
}

/// A line's extended calibration value.
pub open spec fn line_value_words(l: Seq<char>) -> Option<int> {
    match (first_word_digit(l, 0), last_word_digit(l, l.len() - 1)) {
        (Some(f), Some(g)) => Some(10 * f + g),
        _ => None,
    }
}

/// The sum of the extended calibration values from line `i` on.
pub open spec fn calibration_words_sum(lines: Seq<Seq<char>>, i: int) -> Option<int>
    decreases lines.len() - i,
{
    if i < 0 || i >= lines.len() {
        Some(0)
    } else {
        match (line_value_words(lines[i]), calibration_words_sum(lines, i + 1)) {
            (Some(v), Some(rest)) => Some(v + rest),
            _ => None,
        }
    }
}

/// Does the literal occur at position `i`?
fn match_at(l: &Vec<char>, i: usize, lit: &str) -> (r: bool)
    requires
        (i as int) <= l@.len(),
    ensures
        r == matches_at(l@, i as int, lit@),
{
    let n = lit.unicode_len();
    if l.len() - i < n {
        return false;
    }
    let mut k: usize = 0;
    #[verifier::loop_isolation(false)]
    while k < n
        invariant
            0 <= k <= n,
            n == lit@.len(),
            i + n <= l@.len(),
            forall|q: int| 0 <= q < k ==> l@[i + q] == lit@[q],
        decreases n - k,
    {
        if l[i + k] != lit.get_char(k) {
            proof {
                assert(l@.subrange(i as int, i as int + n) != lit@) by {
                    assert(l@.subrange(i as int, i as int + n)[k as int] != lit@[k as int]);
                }
            }
            return false;
        }
        k = k + 1;
    }
    proof {
        assert(l@.subrange(i as int, i as int + n) =~= lit@);
    }
    true
}

/// The digit named at one position, if any.
fn word_digit(l: &Vec<char>, i: usize) -> (r: Option<u32>)
    requires
        (i as int) < l@.len(),
    ensures
        match r {
            Some(v) => word_digit_at(l@, i as int) == Some(v as int),
            None => word_digit_at(l@, i as int) is None,
        },
{
    proof {
        reveal_strlit("one");
        reveal_strlit("two");
        reveal_strlit("three");
        reveal_strlit("four");
        reveal_strlit("five");
        reveal_strlit("six");
        reveal_strlit("seven");
        reveal_strlit("eight");
        reveal_strlit("nine");
        assert("one"@ =~= seq!['o', 'n', 'e']);
        assert("two"@ =~= seq!['t', 'w', 'o']);
        assert("three"@ =~= seq!['t', 'h', 'r', 'e', 'e']);
        assert("four"@ =~= seq!['f', 'o', 'u', 'r']);
        assert("five"@ =~= seq!['f', 'i', 'v', 'e']);
        assert("six"@ =~= seq!['s', 'i', 'x']);
        assert("seven"@ =~= seq!['s', 'e', 'v', 'e', 'n']);
        assert("eight"@ =~= seq!['e', 'i', 'g', 'h', 't']);
        assert("nine"@ =~= seq!['n', 'i', 'n', 'e']);
    }
    let c = l[i];
    if c >= '1' && c <= '9' {
        proof {
            assert('1' as int == 49 && '9' as int == 57);
        }
        return Some(c as u32 - 48);
    }
    if match_at(l, i, "one") {
        Some(1)
    } else if match_at(l, i, "two") {
        Some(2)
    } else if match_at(l, i, "three") {
        Some(3)
    } else if match_at(l, i, "four") {
        Some(4)
    } else if match_at(l, i, "five") {
        Some(5)
    } else if match_at(l, i, "six") {
        Some(6)
    } else if match_at(l, i, "seven") {
        Some(7)
    } else if match_at(l, i, "eight") {
        Some(8)
    } else if match_at(l, i, "nine") {
        Some(9)
    } else {
        None
    }
}

proof fn lemma_word_digit_bounds(l: Seq<char>, i: int)
    ensures
        match first_word_digit(l, i) {
            Some(v) => 0 <= v <= 9,
            None => true,
        },
    decreases l.len() - i,
{
    if 0 <= i < l.len() {
        lemma_word_digit_bounds(l, i + 1);
    }
}

proof fn lemma_last_word_digit_bounds(l: Seq<char>, i: int)
    ensures
        match last_word_digit(l, i) {
            Some(v) => 0 <= v <= 9,
            None => true,
        },
    decreases i + 1,
{
    if 0 <= i < l.len() {
        lemma_last_word_digit_bounds(l, i - 1);
    }
}

proof fn lemma_calibration_words_sum_nonneg(lines: Seq<Seq<char>>, i: int)
    ensures
        match calibration_words_sum(lines, i) {
            Some(t) => t >= 0,
            None => true,
        },
    decreases lines.len() - i,
{
    if 0 <= i < lines.len() {
        lemma_calibration_words_sum_nonneg(lines, i + 1);
        lemma_word_digit_bounds(lines[i], 0);
        lemma_last_word_digit_bounds(lines[i], lines[i].len() - 1);
    }
}

/// Sum of the two-digit numbers formed by each line's first and last
/// digit, counting the spelled-out words `one` through `nine`; nothing
/// when a line has no digit or the sum does not fit.
pub fn part_two(input: &str) -> (r: Option<u32>)
    ensures
        ({
            let total = calibration_words_sum(spec_lines(input@), 0);
            match r {
                Some(v) => total == Some(v as int),
                None => total is None || total->Some_0 > u32::MAX,
            }
        }),
{
    let cs = to_chars(input);
    let lines = lines_of(&cs);
    let ghost ls = spec_lines(input@);
    let mut acc: u64 = 0;
    let mut i: usize = 0;
    #[verifier::loop_isolation(false)]
    while i < lines.len()
        invariant
            0 <= i <= lines@.len(),
            acc <= 0xFFFF_FFFF,
            match calibration_words_sum(ls, i as int) {
                Some(t) => calibration_words_sum(ls, 0) == Some(acc + t),
                None => calibration_words_sum(ls, 0) is None,
            },
        decreases lines@.len() - i,
    {
        let line = &lines[i];
        let n = line.len();
        let mut first: Option<u32> = None;
        let mut j: usize = 0;
        #[verifier::loop_isolation(false)]
        while j < n
            invariant
                0 <= j <= n,
                n == line@.len(),
                first is None,
                first_word_digit(line@, 0) == first_word_digit(line@, j as int),
            decreases n - j,
        {
            match word_digit(line, j) {
                Some(v) => {
                    first = Some(v);
                    break ;
                },
                None => {},
            }
            j = j + 1;
        }
        let f = match first {
            Some(f) => f,
            None => {
                return None;
            },
        };
        let mut last: Option<u32> = None;
        let mut k: usize = n;
        #[verifier::loop_isolation(false)]
        while k > 0
            invariant
                0 <= k <= n,
                n == line@.len(),
                last is None,
                last_word_digit(line@, line@.len() - 1) == last_word_digit(line@, k - 1),
            decreases k,
        {
            match word_digit(line, k - 1) {
                Some(v) => {
                    last = Some(v);
                    break ;
                },
                None => {},
            }
            k = k - 1;
        }
        let g = match last {
            Some(g) => g,
            None => {
                return None;
            },
        };
        proof {
            lemma_word_digit_bounds(line@, 0);
            lemma_last_word_digit_bounds(line@, line@.len() - 1);
            lemma_calibration_words_sum_nonneg(ls, i as int + 1);
        }
        let v = (10 * f + g) as u64;
        if acc + v > 0xFFFF_FFFF {
            proof {
                if calibration_words_sum(ls, i as int + 1) is Some {
                    lemma_calibration_words_sum_nonneg(ls, i as int + 1);
                }
            }
            return None;
        }
        acc = acc + v;
        i = i + 1;
    }
    Some(acc as u32)
}

} // verus!
