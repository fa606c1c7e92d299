//! The almanac: a list of seeds and a chain of category mappings, each
//! a set of range translations keyed by their source start.  A seed's
//! location is found by following the chain from `seed` to `location`;
//! the answers take the lowest location over the listed seeds, or over
//! the seed ranges the list describes in pairs.

use vstd::prelude::*;
use crate::text::{
    spec_lines,
    spec_tokens,
    to_chars,
    lines_of,
    tokens_of,
    all_digits,
    digits_value,
    u64_nums_of_tokens,
    u64s_as_ints,
    parse_u64_tokens,
    spec_digit_runs,
    digit_runs,
    digit_runs_from,
    run_end,
    lemma_run_end,
    slice_of,
    chars_eq_str,
    split_on_char,
    split_when,
};

verus! {

/// The eight categories of the chain, in chain order.
pub open spec fn category_of(t: Seq<char>) -> Option<int> {
    if t == seq!['s', 'e', 'e', 'd'] {
        Some(0int)
    } else if t == seq!['s', 'o', 'i', 'l'] {
        Some(1int)
    } else if t == seq!['f', 'e', 'r', 't', 'i', 'l', 'i', 'z', 'e', 'r'] {
        Some(2int)
    } else if t == seq!['w', 'a', 't', 'e', 'r'] {
        Some(3int)
    } else if t == seq!['l', 'i', 'g', 'h', 't'] {
        Some(4int)
    } else if t == seq!['t', 'e', 'm', 'p', 'e', 'r', 'a', 't', 'u', 'r', 'e'] {
        Some(5int)
    } else if t == seq!['h', 'u', 'm', 'i', 'd', 'i', 't', 'y'] {
        Some(6int)
    } else if t == seq!['l', 'o', 'c', 'a', 't', 'i', 'o', 'n'] {
        Some(7int)
    } else {
        None
    }
}

/// One mapping entry `dest src len`.
pub open spec fn entry_of(l: Seq<char>) -> Option<(int, int, int)> {
    match u64_nums_of_tokens(spec_tokens(l), 0) {
        Some(ns) => if ns.len() == 3 {
            Some((ns[1], ns[0], ns[2]))  // (source start, destination start, length)
        } else {
            None
        },
        None => None,
    }
}

/// A mapping header `x-to-y map:`: the source and target categories.
pub open spec fn header_of(l: Seq<char>) -> Option<(int, int)> {
    let ts = spec_tokens(l);
    if ts.len() == 2 && ts[1] == seq!['m', 'a', 'p', ':'] {
        let parts = split_when(ts[0], |c: char| c == '-');
        if parts.len() == 3 && parts[1] == seq!['t', 'o'] {
            match (category_of(parts[0]), category_of(parts[2])) {
                (Some(a), Some(b)) => Some((a, b)),
                _ => None,
            }
        } else {
            None
        }
    } else {
        None
    }
}

/// The entry with the largest source start at most `v` among the first
/// `i` entries; a later entry wins a tie, as a later insertion replaces
/// an earlier one under the same key.
pub open spec fn best_entry(es: Seq<(int, int, int)>, v: int, i: int) -> Option<(int, int, int)>
    decreases i,
{
    if i <= 0 {
        None
    } else {
        let b = best_entry(es, v, i - 1);
        if es[i - 1].0 <= v && (b is None || es[i - 1].0 >= b->Some_0.0) {
            Some(es[i - 1])
        } else {
            b
        }
    }
}

pub proof fn lemma_best_entry_le(es: Seq<(int, int, int)>, v: int, i: int)
    ensures
        match best_entry(es, v, i) {
            Some(b) => b.0 <= v,
            None => true,
        },
    decreases i,
{
    if i > 0 {
        lemma_best_entry_le(es, v, i - 1);
    }
}

/// Translate one value through one mapping; nothing when the mapping
/// has no entries at all.
pub open spec fn map_value(es: Seq<(int, int, int)>, v: int) -> Option<int> {
    if es.len() == 0 {
        None
    } else {
        match best_entry(es, v, es.len() as int) {
            None => Some(v),
            Some((src, dest, len)) => if v < src + len {
                Some(dest + (v - src))
            } else {
                Some(v)
            },
        }
    }
}

/// The last mapping whose source category is `cat`, among the first `j`
/// mappings.
pub open spec fn find_mapping(ms: Seq<(int, int, Seq<(int, int, int)>)>, cat: int, j: int) -> Option<int>
    decreases j + 1,
{
    if j < 0 || j >= ms.len() {
        None
    } else if ms[j].0 == cat {
        Some(j)
    } else {
        find_mapping(ms, cat, j - 1)
    }
}

/// Follow the chain from `seed` at category `seed` until `location`,
/// with a hop budget; nothing when a needed mapping is missing or
/// empty, or the budget runs out before `location`.
pub open spec fn seed_location(
    ms: Seq<(int, int, Seq<(int, int, int)>)>,
    cat: int,
    v: int,
    fuel: nat,
) -> Option<int>
    decreases fuel,
{
    if cat == 7 {
        Some(v)
    } else if fuel == 0 {
        None
    } else {
        match find_mapping(ms, cat, ms.len() - 1) {
            None => None,
            Some(j) => match map_value(ms[j].2, v) {
                None => None,
                Some(v2) => if v2 > u64::MAX {
                    None
                } else {
                    seed_location(ms, ms[j].1, v2, (fuel - 1) as nat)
                },
            },
        }
    }
}

/// A parsed almanac held as plain vectors: each mapping is a source
/// category, a target category, and entries `(source, destination,
/// length)`.
pub struct Almanac {
    pub seeds: Vec<u64>,
    pub sources: Vec<u8>,
    pub targets: Vec<u8>,
    pub entries: Vec<Vec<(u64, u64, u64)>>,
}

impl Almanac {
    pub open spec fn mview(self) -> Seq<(int, int, Seq<(int, int, int)>)> {
        Seq::new(
            self.sources@.len() as nat,
            |i: int|
                (
                    self.sources@[i] as int,
                    self.targets@[i] as int,
                    self.entries@[i]@.map_values(
                        |e: (u64, u64, u64)| (e.0 as int, e.1 as int, e.2 as int),
                    ),
                ),
        )
    }

    pub open spec fn wf(self) -> bool {
        self.sources@.len() == self.targets@.len() && self.sources@.len() == self.entries@.len()
    }

    /// Translate a value through the mapping at index `j`.
    fn apply_mapping(&self, j: usize, v: u64) -> (r: Option<u64>)
        requires
            self.wf(),
            (j as int) < self.entries@.len(),
        ensures
            match r {
                Some(v2) => map_value(self.mview()[j as int].2, v as int) == Some(v2 as int),
                None => match map_value(self.mview()[j as int].2, v as int) {
                    Some(w) => w > u64::MAX,
                    None => true,
                },
            },
    {
        let es = &self.entries[j];
        let ghost esv = self.mview()[j as int].2;
        if es.len() == 0 {
            return None;
        }
        let mut best: Option<(u64, u64, u64)> = None;
        let mut i: usize = 0;
        #[verifier::loop_isolation(false)]
        while i < es.len()
            invariant
                0 <= i <= es@.len(),
                esv.len() == es@.len(),
                forall|k: int|
                    0 <= k < es@.len() ==> #[trigger] esv[k] == (
                        es@[k].0 as int,
                        es@[k].1 as int,
                        es@[k].2 as int,
                    ),
                match best {
                    Some(b) => best_entry(esv, v as int, i as int) == Some(
                        (b.0 as int, b.1 as int, b.2 as int),
                    ),
                    None => best_entry(esv, v as int, i as int) is None,
                },
            decreases es@.len() - i,
        {
            let e = es[i];
            let better = e.0 <= v && (match best {
                None => true,
                Some(b) => e.0 >= b.0,
            });
            if better {
                best = Some(e);
            }
            i = i + 1;
        }
        proof {
            lemma_best_entry_le(esv, v as int, esv.len() as int);
        }
        match best {
            None => Some(v),
            Some((src, dest, len)) => {
                if v < src || len == 0 {
                    return Some(v);
                }
                // v >= src here; the offset fits because v - src < len.
                if v - src < len {
                    match dest.checked_add(v - src) {
                        Some(out) => Some(out),
                        None => None,
                    }
                } else {
                    Some(v)
                }
            },
        }
    }

    /// Follow the chain for one seed.
    pub fn get_seed_location(&self, seed: u64) -> (r: Option<u64>)
        requires
            self.wf(),
        ensures
            match r {
                Some(v) => seed_location(self.mview(), 0, seed as int, 8) == Some(v as int),
                None => seed_location(self.mview(), 0, seed as int, 8) is None,
            },
    {
        let mut cat: u8 = 0;
        let mut v: u64 = seed;
        let mut fuel: u8 = 8;
        #[verifier::loop_isolation(false)]
        loop
            invariant
                self.wf(),
                fuel <= 8,
                seed_location(self.mview(), 0, seed as int, 8) == seed_location(
                    self.mview(),
                    cat as int,
                    v as int,
                    fuel as nat,
                ),
            decreases fuel,
        {
            if cat == 7 {
                return Some(v);
            }
            if fuel == 0 {
                return None;
            }
            let j = match self.find_source(cat) {
                Some(j) => j,
                None => {
                    return None;
                },
            };
            let v2 = match self.apply_mapping(j, v) {
                Some(v2) => v2,
                None => {
                    return None;
                },
            };
            let t = self.targets[j];
            proof {
                assert(self.mview()[j as int].1 == t as int);
            }
            cat = t;
            v = v2;
            fuel = fuel - 1;
        }
    }

    /// The last mapping out of category `cat`.
    fn find_source(&self, cat: u8) -> (r: Option<usize>)
        requires
            self.wf(),
        ensures
            match r {
                Some(j) => find_mapping(self.mview(), cat as int, self.mview().len() - 1) == Some(
                    j as int,
                ) && (j as int) < self.sources@.len(),
                None => find_mapping(self.mview(), cat as int, self.mview().len() - 1) is None,
            },
    {
        let mut j: usize = self.sources.len();
        #[verifier::loop_isolation(false)]
        while j > 0
            invariant
                0 <= j <= self.sources@.len(),
                find_mapping(self.mview(), cat as int, self.mview().len() - 1) == find_mapping(
                    self.mview(),
                    cat as int,
                    j - 1,
                ),
            decreases j,
        {
            if self.sources[j - 1] == cat {
                proof {
                    assert(self.mview()[j - 1].0 == cat as int);
                }
                return Some(j - 1);
            }
            proof {
                assert(self.mview()[j - 1].0 == self.sources@[j - 1] as int);
            }
            j = j - 1;
        }
        None
    }
}

/// The first line at or after `j` that is empty, or the end.
pub open spec fn block_end(ls: Seq<Seq<char>>, j: int) -> int
    decreases ls.len() - j,
{
    if j < 0 || j >= ls.len() || ls[j].len() == 0 {
        j
    } else {
        block_end(ls, j + 1)
    }
}

pub proof fn lemma_block_end(ls: Seq<Seq<char>>, j: int)
    requires
        0 <= j <= ls.len(),
    ensures
        j <= block_end(ls, j) <= ls.len(),
        forall|k: int| j <= k < block_end(ls, j) ==> (#[trigger] ls[k]).len() != 0,
        block_end(ls, j) < ls.len() ==> ls[block_end(ls, j)].len() == 0,
    decreases ls.len() - j,
{
    if j < ls.len() && ls[j].len() != 0 {
        lemma_block_end(ls, j + 1);
    }
}

/// The entries of the block `[j, end)`.
pub open spec fn entries_of_block(ls: Seq<Seq<char>>, j: int, end: int) -> Option<
    Seq<(int, int, int)>,
>
    decreases end - j,
{
    if j < 0 || j >= end {
        Some(Seq::empty())
    } else {
        match (entry_of(ls[j]), entries_of_block(ls, j + 1, end)) {
            (Some(e), Some(rest)) => Some(seq![e] + rest),
            _ => None,
        }
    }
}

/// The mappings described by the lines from `i` on: blank lines are
/// skipped, and each block is a header followed by entry lines.
pub open spec fn mappings_from(ls: Seq<Seq<char>>, i: int) -> Option<
    Seq<(int, int, Seq<(int, int, int)>)>,
>
    decreases ls.len() - i
        when 0 <= i
        via mappings_from_decreases
{
    if i >= ls.len() {
        Some(Seq::empty())
    } else if ls[i].len() == 0 {
        mappings_from(ls, i + 1)
    } else {
        match header_of(ls[i]) {
            None => None,
            Some((a, b)) => {
                let e = block_end(ls, i + 1);
                match (entries_of_block(ls, i + 1, e), mappings_from(ls, e)) {
                    (Some(es), Some(rest)) => Some(seq![(a, b, es)] + rest),
                    _ => None,
                }
            },
        }
    }
}

#[via_fn]
proof fn mappings_from_decreases(ls: Seq<Seq<char>>, i: int) {
    if 0 <= i < ls.len() {
        lemma_block_end(ls, i + 1);
    }
}

/// The whole almanac: the seeds read from the digit runs of the first
/// line, a blank line, then the mapping blocks.
pub open spec fn almanac_of(ls: Seq<Seq<char>>) -> Option<
    (Seq<int>, Seq<(int, int, Seq<(int, int, int)>)>),
> {
    if ls.len() == 0 {
        None
    } else if !(forall|k: int|
        0 <= k < spec_digit_runs(ls[0]).len() ==> digits_value(
            ls[0].subrange(
                (#[trigger] spec_digit_runs(ls[0])[k]).0,
                spec_digit_runs(ls[0])[k].1,
            ),
        ) <= u64::MAX) {
        None
    } else {
        let seeds = Seq::new(
            spec_digit_runs(ls[0]).len(),
            |k: int|
                digits_value(ls[0].subrange(spec_digit_runs(ls[0])[k].0, spec_digit_runs(ls[0])[k].1)),
        );
        if ls.len() == 1 {
            Some((seeds, Seq::empty()))
        } else if ls[1].len() != 0 {
            None
        } else {
            match mappings_from(ls, 2) {
                Some(ms) => Some((seeds, ms)),
                None => None,
            }
        }
    }
}

/// The lowest location over the listed seeds from index `i` on; the
/// outer failure means a chain failed, the inner nothing means no seed.
pub open spec fn lowest_from(seeds: Seq<int>, ms: Seq<(int, int, Seq<(int, int, int)>)>, i: int) -> Option<
    Option<int>,
>
    decreases seeds.len() - i,
{
    if i < 0 || i >= seeds.len() {
        Some(None)
    } else {
        match (seed_location(ms, 0, seeds[i], 8), lowest_from(seeds, ms, i + 1)) {
            (Some(loc), Some(None)) => Some(Some(loc)),
            (Some(loc), Some(Some(m))) => Some(
                Some(
                    if loc < m {
                        loc
                    } else {
                        m
                    },
                ),
            ),
            _ => None,
        }
    }
}

/// Parse an almanac.
#[verifier::rlimit(100)]
fn parse_almanac(input: &str) -> (r: Option<Almanac>)
    ensures
        ({
            let ls = spec_lines(input@);
            match r {
                Some(al) => al.wf() && match almanac_of(ls) {
                    Some((seeds, ms)) => u64s_as_ints(al.seeds@) == seeds && al.mview() == ms,
                    None => false,
                },
                None => almanac_of(ls) is None,
            }
        }),
{
    let cs = to_chars(input);
    let lines = lines_of(&cs);
    let ghost ls = spec_lines(input@);
    if lines.len() == 0 {
        return None;
    }
    let runs = digit_runs(&lines[0]);
    let mut seeds: Vec<u64> = Vec::new();
    let mut k: usize = 0;
    let ghost l0 = ls[0];
    #[verifier::loop_isolation(false)]
    while k < runs.len()
        invariant
            0 <= k <= runs@.len(),
            runs@.len() == spec_digit_runs(l0).len(),
            seeds@.len() == k,
            lines@[0]@ == l0,
            forall|q: int|
                0 <= q < runs@.len() ==> (#[trigger] runs@[q]).0 as int == spec_digit_runs(l0)[q].0
                    && runs@[q].1 as int == spec_digit_runs(l0)[q].1 && 0 <= runs@[q].0 < runs@[q].1
                    <= l0.len(),
            forall|q: int|
                0 <= q < k ==> #[trigger] seeds@[q] as int == digits_value(
                    l0.subrange(spec_digit_runs(l0)[q].0, spec_digit_runs(l0)[q].1),
                ),
            forall|q: int|
                0 <= q < k ==> digits_value(
                    l0.subrange(
                        (#[trigger] spec_digit_runs(l0)[q]).0,
                        spec_digit_runs(l0)[q].1,
                    ),
                ) <= u64::MAX,
        decreases runs@.len() - k,
    {
        let (a, b) = runs[k];
        let part = slice_of(&lines[0], a, b);
        proof {
            assert(part@ =~= l0.subrange(spec_digit_runs(l0)[k as int].0, spec_digit_runs(l0)[k as int].1));
        }
        let v = match crate::text::parse_u64(&part) {
            Some(v) => v,
            None => {
                proof {
                    crate::text::lemma_run_end(l0, spec_digit_runs(l0)[k as int].0);
                    lemma_run_digits(l0, k as int);
                    if part@.len() > 0 && all_digits(part@) {
                        crate::text::lemma_digits_value_nonneg(part@);
                    }
                }
                return None;
            },
        };
        seeds.push(v);
        k = k + 1;
    }
    let mut sources: Vec<u8> = Vec::new();
    let mut targets: Vec<u8> = Vec::new();
    let mut entries: Vec<Vec<(u64, u64, u64)>> = Vec::new();
    if lines.len() >= 2 {
        if lines[1].len() != 0 {
            return None;
        }
        let mut i: usize = 2;
        #[verifier::loop_isolation(false)]
        while i < lines.len()
            invariant
                2 <= i <= lines@.len(),
                sources@.len() == targets@.len() && sources@.len() == entries@.len(),
                match mappings_from(ls, i as int) {
                    Some(rest) => mappings_from(ls, 2) == Some(
                        Seq::new(
                            sources@.len() as nat,
                            |q: int|
                                (
                                    sources@[q] as int,
                                    targets@[q] as int,
                                    entries@[q]@.map_values(
                                        |e: (u64, u64, u64)| (e.0 as int, e.1 as int, e.2 as int),
                                    ),
                                ),
                        ) + rest,
                    ),
                    None => mappings_from(ls, 2) is None,
                },
            decreases lines@.len() - i,
        {
            if lines[i].len() == 0 {
                i = i + 1;
                continue ;
            }
            let hd = match parse_header(&lines[i]) {
                Some(h) => h,
                None => {
                    return None;
                },
            };
            let mut es: Vec<(u64, u64, u64)> = Vec::new();
            let mut j: usize = i + 1;
            proof {
                lemma_block_end(ls, i as int + 1);
            }
            let ghost bend = block_end(ls, i as int + 1);
            #[verifier::loop_isolation(false)]
            while j < lines.len() && lines[j].len() != 0
                invariant
                    i as int + 1 <= j <= ls.len(),
                    j <= bend,
                    bend == block_end(ls, j as int),
                    es@.len() == j - i - 1,
                    match entries_of_block(ls, j as int, bend) {
                        Some(rest) => entries_of_block(ls, i as int + 1, bend) == Some(
                            es@.map_values(
                                |e: (u64, u64, u64)| (e.0 as int, e.1 as int, e.2 as int),
                            ) + rest,
                        ),
                        None => entries_of_block(ls, i as int + 1, bend) is None,
                    },
                decreases ls.len() - j,
            {
                let e = match parse_entry(&lines[j]) {
                    Some(e) => e,
                    None => {
                        return None;
                    },
                };
                es.push(e);
                proof {
                    if entries_of_block(ls, j as int + 1, bend) is Some {
                        assert(es@.map_values(
                            |x: (u64, u64, u64)| (x.0 as int, x.1 as int, x.2 as int),
                        ) =~= es@.drop_last().map_values(
                            |x: (u64, u64, u64)| (x.0 as int, x.1 as int, x.2 as int),
                        ).push((e.0 as int, e.1 as int, e.2 as int)));
                        assert((es@.drop_last().map_values(
                            |x: (u64, u64, u64)| (x.0 as int, x.1 as int, x.2 as int),
                        ).push((e.0 as int, e.1 as int, e.2 as int))) + entries_of_block(
                            ls,
                            j as int + 1,
                            bend,
                        )->Some_0 =~= es@.drop_last().map_values(
                            |x: (u64, u64, u64)| (x.0 as int, x.1 as int, x.2 as int),
                        ) + (seq![(e.0 as int, e.1 as int, e.2 as int)] + entries_of_block(
                            ls,
                            j as int + 1,
                            bend,
                        )->Some_0));
                    }
                }
                j = j + 1;
            }
            proof {
                assert(block_end(ls, j as int) == j as int);
                assert(entries_of_block(ls, j as int, bend) == Some(
                    Seq::<(int, int, int)>::empty(),
                ));
                assert(es@.map_values(|x: (u64, u64, u64)| (x.0 as int, x.1 as int, x.2 as int))
                    + Seq::<(int, int, int)>::empty() =~= es@.map_values(
                    |x: (u64, u64, u64)| (x.0 as int, x.1 as int, x.2 as int),
                ));
            }
            sources.push(hd.0);
            targets.push(hd.1);
            entries.push(es);
            proof {
                if mappings_from(ls, j as int) is Some {
                    let mv = Seq::new(
                        sources@.len() as nat,
                        |q: int|
                            (
                                sources@[q] as int,
                                targets@[q] as int,
                                entries@[q]@.map_values(
                                    |e: (u64, u64, u64)| (e.0 as int, e.1 as int, e.2 as int),
                                ),
                            ),
                    );
                    let mvold = Seq::new(
                        (sources@.len() - 1) as nat,
                        |q: int|
                            (
                                sources@[q] as int,
                                targets@[q] as int,
                                entries@[q]@.map_values(
                                    |e: (u64, u64, u64)| (e.0 as int, e.1 as int, e.2 as int),
                                ),
                            ),
                    );
                    assert(mv =~= mvold.push(mv[mv.len() - 1]));
                    assert(mvold.push(mv[mv.len() - 1]) + mappings_from(ls, j as int)->Some_0
                        =~= mvold + (seq![mv[mv.len() - 1]] + mappings_from(
                        ls,
                        j as int,
                    )->Some_0));
                }
            }
            i = j;
        }
        proof {
            assert(mappings_from(ls, i as int) == Some(
                Seq::<(int, int, Seq<(int, int, int)>)>::empty(),
            ));
        }
    }
    let al = Almanac { seeds, sources, targets, entries };
    proof {
        assert(u64s_as_ints(al.seeds@) =~= Seq::new(
            spec_digit_runs(ls[0]).len(),
            |q: int|
                digits_value(ls[0].subrange(spec_digit_runs(ls[0])[q].0, spec_digit_runs(ls[0])[q].1)),
        ));
        if lines@.len() >= 2 {
            assert(al.mview() =~= mappings_from(ls, 2)->Some_0);
        } else {
            assert(al.mview() =~= Seq::<(int, int, Seq<(int, int, int)>)>::empty());
        }
    }
    Some(al)
}

/// The characters of a digit run are digits.
pub proof fn lemma_run_digits(l: Seq<char>, k: int)
    requires
        0 <= k < spec_digit_runs(l).len(),
    ensures
        ({
            let (a, b) = spec_digit_runs(l)[k];
            0 <= a < b <= l.len() && all_digits(l.subrange(a, b)) && l.subrange(a, b).len() > 0
        }),
{
    lemma_runs_from_digits(l, 0, k);
}

proof fn lemma_runs_from_digits(l: Seq<char>, i: int, k: int)
    requires
        0 <= i,
        0 <= k < digit_runs_from(l, i).len(),
    ensures
        ({
            let (a, b) = digit_runs_from(l, i)[k];
            0 <= a < b <= l.len() && all_digits(l.subrange(a, b)) && l.subrange(a, b).len() > 0
        }),
    decreases l.len() - i,
{
    if i < l.len() {
        if crate::text::is_run_start(l, i) {
            if k == 0 {
                lemma_run_end(l, i);
                let b = run_end(l, i);
                assert(all_digits(l.subrange(i, b))) by {
                    assert(forall|q: int|
                        0 <= q < b - i ==> crate::text::is_digit(
                            #[trigger] l.subrange(i, b)[q],
                        ));
                }
            } else {
                lemma_runs_from_digits(l, i + 1, k - 1);
            }
        } else {
            lemma_runs_from_digits(l, i + 1, k);
        }
    }
}

/// Parse a mapping header line.
fn parse_header(l: &Vec<char>) -> (r: Option<(u8, u8)>)
    ensures
        match r {
            Some((a, b)) => header_of(l@) == Some((a as int, b as int)),
            None => header_of(l@) is None,
        },
{
    let ts = tokens_of(l);
    if ts.len() != 2 {
        return None;
    }
    if !chars_eq_str(&ts[1], "map:") {
        proof {
            reveal_strlit("map:");
            assert("map:"@ =~= seq!['m', 'a', 'p', ':']);
        }
        return None;
    }
    proof {
        reveal_strlit("map:");
        assert("map:"@ =~= seq!['m', 'a', 'p', ':']);
    }
    let parts = split_on_char(&ts[0], '-');
    let ghost pspec = split_when(spec_tokens(l@)[0], |c: char| c == '-');
    if parts.len() != 3 {
        return None;
    }
    if !chars_eq_str(&parts[1], "to") {
        proof {
            reveal_strlit("to");
            assert("to"@ =~= seq!['t', 'o']);
        }
        return None;
    }
    proof {
        reveal_strlit("to");
        assert("to"@ =~= seq!['t', 'o']);
    }
    let a = match parse_category(&parts[0]) {
        Some(a) => a,
        None => {
            return None;
        },
    };
    let b = match parse_category(&parts[2]) {
        Some(b) => b,
        None => {
            return None;
        },
    };
    Some((a, b))
}

/// Parse a category name.
fn parse_category(t: &Vec<char>) -> (r: Option<u8>)
    ensures
        match r {
            Some(c) => category_of(t@) == Some(c as int),
            None => category_of(t@) is None,
        },
{
    proof {
        reveal_strlit("seed");
        reveal_strlit("soil");
        reveal_strlit("fertilizer");
        reveal_strlit("water");
        reveal_strlit("light");
        reveal_strlit("temperature");
        reveal_strlit("humidity");
        reveal_strlit("location");
        assert("seed"@ =~= seq!['s', 'e', 'e', 'd']);
        assert("soil"@ =~= seq!['s', 'o', 'i', 'l']);
        assert("fertilizer"@ =~= seq!['f', 'e', 'r', 't', 'i', 'l', 'i', 'z', 'e', 'r']);
        assert("water"@ =~= seq!['w', 'a', 't', 'e', 'r']);
        assert("light"@ =~= seq!['l', 'i', 'g', 'h', 't']);
        assert("temperature"@ =~= seq!['t', 'e', 'm', 'p', 'e', 'r', 'a', 't', 'u', 'r', 'e']);
        assert("humidity"@ =~= seq!['h', 'u', 'm', 'i', 'd', 'i', 't', 'y']);
        assert("location"@ =~= seq!['l', 'o', 'c', 'a', 't', 'i', 'o', 'n']);
    }
    if chars_eq_str(t, "seed") {
        Some(0)
    } else if chars_eq_str(t, "soil") {
        Some(1)
    } else if chars_eq_str(t, "fertilizer") {
        Some(2)
    } else if chars_eq_str(t, "water") {
        Some(3)
    } else if chars_eq_str(t, "light") {
        Some(4)
    } else if chars_eq_str(t, "temperature") {
        Some(5)
    } else if chars_eq_str(t, "humidity") {
        Some(6)
    } else if chars_eq_str(t, "location") {
        Some(7)
    } else {
        None
    }
}

/// Parse one `dest src len` entry line.
fn parse_entry(l: &Vec<char>) -> (r: Option<(u64, u64, u64)>)
    ensures
        match r {
            Some(e) => entry_of(l@) == Some((e.0 as int, e.1 as int, e.2 as int)),
            None => entry_of(l@) is None,
        },
{
    let ts = tokens_of(l);
    let ns = match parse_u64_tokens(&ts, Ghost(spec_tokens(l@))) {
        Some(ns) => ns,
        None => {
            return None;
        },
    };
    if ns.len() != 3 {
        return None;
    }
    proof {
        assert(u64s_as_ints(ns@)[0] == ns@[0] as int);
        assert(u64s_as_ints(ns@)[1] == ns@[1] as int);
        assert(u64s_as_ints(ns@)[2] == ns@[2] as int);
    }
    Some((ns[1], ns[0], ns[2]))
}

/// The lowest location over the listed seeds; nothing when the almanac
/// does not parse, a chain fails, or there are no seeds.
pub fn part_one(input: &str) -> (r: Option<u64>)
    ensures
        ({
            let ls = spec_lines(input@);
            match almanac_of(ls) {
                None => r is None,
                Some((seeds, ms)) => match lowest_from(seeds, ms, 0) {
                    Some(Some(m)) => r == Some(m as u64) && 0 <= m <= u64::MAX,
                    _ => r is None,
                },
            }
        }),
{
    let al = match parse_almanac(input) {
        Some(al) => al,
        None => {
            return None;
        },
    };
    let ghost seeds = u64s_as_ints(al.seeds@);
    let ghost ms = al.mview();
    let mut best: Option<u64> = None;
    let mut i: usize = 0;
    #[verifier::loop_isolation(false)]
    while i < al.seeds.len()
        invariant
            al.wf(),
            0 <= i <= al.seeds@.len(),
            seeds == u64s_as_ints(al.seeds@),
            ms == al.mview(),
            match lowest_from(seeds, ms, 0) {
                Some(fin) => match (best, lowest_from(seeds, ms, i as int)) {
                    (None, Some(rest)) => fin == rest,
                    (Some(b), Some(None)) => fin == Some(b as int),
                    (Some(b), Some(Some(m))) => fin == Some(
                        if (b as int) < m {
                            b as int
                        } else {
                            m
                        },
                    ),
                    _ => false,
                },
                None => lowest_from(seeds, ms, i as int) is None,
            },
        decreases al.seeds@.len() - i,
    {
        proof {
            assert(seeds[i as int] == al.seeds@[i as int] as int);
        }
        let loc = match al.get_seed_location(al.seeds[i]) {
            Some(l) => l,
            None => {
                return None;
            },
        };
        best = match best {
            None => Some(loc),
            Some(b) => if loc < b {
                Some(loc)
            } else {
                Some(b)
            },
        };
        i = i + 1;
    }
    best
}

/// The lowest location over the seed ranges, read from the seed list in
/// `(start, length)` pairs, from pair index `i` on.
pub open spec fn ranges_lowest(
    seeds: Seq<int>,
    ms: Seq<(int, int, Seq<(int, int, int)>)>,
    i: int,
) -> Option<Option<int>>
    decreases seeds.len() - i,
{
    if i < 0 || i >= seeds.len() {
        Some(None)
    } else if i + 1 >= seeds.len() {
        None
    } else if seeds[i] + seeds[i + 1] > u64::MAX {
        None
    } else {
        match (range_lowest(ms, seeds[i], seeds[i + 1]), ranges_lowest(seeds, ms, i + 2)) {
            (Some(a), Some(b)) => Some(opt_min(a, b)),
            _ => None,
        }
    }
}

pub open spec fn opt_min(a: Option<int>, b: Option<int>) -> Option<int> {
    match (a, b) {
        (None, x) => x,
        (x, None) => x,
        (Some(x), Some(y)) => Some(
            if x < y {
                x
            } else {
                y
            },
        ),
    }
}

/// The lowest location over one seed range.
pub open spec fn range_lowest(
    ms: Seq<(int, int, Seq<(int, int, int)>)>,
    s: int,
    cnt: int,
) -> Option<Option<int>>
    decreases cnt,
{
    if cnt <= 0 {
        Some(None)
    } else {
        match (seed_location(ms, 0, s, 8), range_lowest(ms, s + 1, cnt - 1)) {
            (Some(loc), Some(rest)) => Some(opt_min(Some(loc), rest)),
            _ => None,
        }
    }
}

/// The lowest location over the seed ranges; nothing when the almanac
/// does not parse, the seed list has odd length, a range overflows, a
/// chain fails, or the ranges are all empty.
pub fn part_two(input: &str) -> (r: Option<u64>)
    ensures
        ({
            let ls = spec_lines(input@);
            match almanac_of(ls) {
                None => r is None,
                Some((seeds, ms)) => match ranges_lowest(seeds, ms, 0) {
                    Some(Some(m)) => r == Some(m as u64) && 0 <= m <= u64::MAX,
                    _ => r is None,
                },
            }
        }),
{
    let al = match parse_almanac(input) {
        Some(al) => al,
        None => {
            return None;
        },
    };
    let ghost seeds = u64s_as_ints(al.seeds@);
    let ghost ms = al.mview();
    let mut best: Option<u64> = None;
    let mut i: usize = 0;
    let n = al.seeds.len();
    #[verifier::loop_isolation(false)]
    while 1 < n && i < n - 1
        invariant
            al.wf(),
            n == al.seeds@.len(),
            0 <= i <= al.seeds@.len() + 1,
            i % 2 == 0,
            n < 2 || i <= n,
            seeds == u64s_as_ints(al.seeds@),
            ms == al.mview(),
            match ranges_lowest(seeds, ms, 0) {
                Some(fin) => match ranges_lowest(seeds, ms, i as int) {
                    Some(rest) => fin == opt_min(bopt(best), rest),
                    None => false,
                },
                None => ranges_lowest(seeds, ms, i as int) is None,
            },
        decreases al.seeds@.len() - i,
    {
        let s = al.seeds[i];
        let cnt = al.seeds[i + 1];
        proof {
            assert(seeds[i as int] == s as int && seeds[i as int + 1] == cnt as int);
        }
        if s.checked_add(cnt).is_none() {
            return None;
        }
        let mut cur: u64 = s;
        let mut left: u64 = cnt;
        proof {
            lemma_opt_min_assoc(
                bopt(best),
                range_lowest(ms, s as int, cnt as int)->Some_0,
                ranges_lowest(seeds, ms, i as int + 2)->Some_0,
            );
        }
        #[verifier::loop_isolation(false)]
        while left > 0
            invariant
                al.wf(),
                ms == al.mview(),
                cur as int == s as int + (cnt as int - left as int),
                left <= cnt,
                s as int + cnt as int <= u64::MAX,
                match ranges_lowest(seeds, ms, 0) {
                    Some(fin) => match (range_lowest(ms, cur as int, left as int), ranges_lowest(
                        seeds,
                        ms,
                        i as int + 2,
                    )) {
                        (Some(rr), Some(orest)) => fin == opt_min(
                            opt_min(bopt(best), rr),
                            orest,
                        ),
                        _ => false,
                    },
                    None => range_lowest(ms, cur as int, left as int) is None || ranges_lowest(
                        seeds,
                        ms,
                        i as int + 2,
                    ) is None,
                },
            decreases left,
        {
            let loc = match al.get_seed_location(cur) {
                Some(l) => l,
                None => {
                    return None;
                },
            };
            proof {
                if range_lowest(ms, cur as int + 1, left as int - 1) is Some {
                    lemma_opt_min_assoc(
                        bopt(best),
                        Some(loc as int),
                        range_lowest(ms, cur as int + 1, left as int - 1)->Some_0,
                    );
                }
            }
            best = match best {
                None => Some(loc),
                Some(b) => if loc < b {
                    Some(loc)
                } else {
                    Some(b)
                },
            };
            cur = cur + 1;
            left = left - 1;
        }
        i = i + 2;
    }
    if al.seeds.len() % 2 != 0 {
        return None;
    }
    best
}

pub open spec fn bopt(best: Option<u64>) -> Option<int> {
    match best {
        None => None,
        Some(b) => Some(b as int),
    }
}

proof fn lemma_opt_min_assoc(a: Option<int>, b: Option<int>, c: Option<int>)
    ensures
        opt_min(opt_min(a, b), c) == opt_min(a, opt_min(b, c)),
{
}

} // verus!
