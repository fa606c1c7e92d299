//! The desert network: a left/right instruction path and a list of
//! nodes, each naming a left and a right successor.  One answer walks
//! from `AAA` to `ZZZ`; the other finds, for every node ending in `A`,
//! the first time its walk stands on a node ending in `Z`, and combines
//! those times with the least common multiple.

use vstd::prelude::*;
use crate::text::{spec_lines, spec_tokens, to_chars, lines_of, tokens_of, slice_of};
use crate::numbers::{spec_gcd, spec_lcm, lcm};

verus! {

/// A name: a nonempty string of digits and capital letters.
pub open spec fn is_name(t: Seq<char>) -> bool {
    t.len() > 0 && forall|i: int|
        0 <= i < t.len() ==> ('0' <= #[trigger] t[i] <= '9' || 'A' <= t[i] <= 'Z')
}

/// One node line: `NAME = (LEFT, RIGHT)`, read as four space-separated
/// tokens with the punctuation attached to the middle ones.
pub open spec fn node_of(l: Seq<char>) -> Option<(Seq<char>, Seq<char>, Seq<char>)> {
    let ts = spec_tokens(l);
    if ts.len() == 4 && ts[1] == seq!['='] && ts[2].len() >= 3 && ts[2][0] == '(' && ts[2].last()
        == ',' && ts[3].len() >= 2 && ts[3].last() == ')' {
        let nm = ts[0];
        let lf = ts[2].subrange(1, ts[2].len() - 1);
        let rg = ts[3].subrange(0, ts[3].len() - 1);
        if is_name(nm) && is_name(lf) && is_name(rg) {
            Some((nm, lf, rg))
        } else {
            None
        }
    } else {
        None
    }
}

/// The parsed node table of the lines from index `i` on.
pub open spec fn nodes_of(lines: Seq<Seq<char>>, i: int) -> Option<
    Seq<(Seq<char>, Seq<char>, Seq<char>)>,
>
    decreases lines.len() - i,
{
    if i < 0 || i >= lines.len() {
        Some(Seq::empty())
    } else {
        match (node_of(lines[i]), nodes_of(lines, i + 1)) {
            (Some(n), Some(rest)) => Some(seq![n] + rest),
            _ => None,
        }
    }
}

/// The whole document: the instruction path on the first line, a blank
/// line, then the node table.
pub open spec fn network_of(ls: Seq<Seq<char>>) -> Option<
    (Seq<char>, Seq<(Seq<char>, Seq<char>, Seq<char>)>),
> {
    if ls.len() >= 2 && ls[0].len() > 0 && ls[1].len() == 0 {
        match nodes_of(ls, 2) {
            Some(ns) => Some((ls[0], ns)),
            None => None,
        }
    } else {
        None
    }
}

/// The index of the surviving entry for a name: the last line that
/// defines it, as a later definition replaces an earlier one.
pub open spec fn find_name(ns: Seq<(Seq<char>, Seq<char>, Seq<char>)>, nm: Seq<char>, j: int) -> Option<int>
    decreases j + 1,
{
    if j < 0 || j >= ns.len() {
        None
    } else if ns[j].0 == nm {
        Some(j)
    } else {
        find_name(ns, nm, j - 1)
    }
}

pub open spec fn lookup(ns: Seq<(Seq<char>, Seq<char>, Seq<char>)>, nm: Seq<char>) -> Option<int> {
    find_name(ns, nm, ns.len() - 1)
}

/// The walk's step budget: enough to visit every node at every path
/// position once, capped to keep counters in `u64`.
pub open spec fn walk_fuel(plen: int, n: int) -> nat {
    let c = plen * n + 1;
    if c > 0xFFFF_FFFF_FFFF_FFFE {
        0xFFFF_FFFF_FFFF_FFFE as nat
    } else {
        c as nat
    }
}

/// Whether the walk from node `cur` at path position `pos` reaches a
/// node satisfying `ends_z`-style goal; here the goal is the exact name
/// `ZZZ`.  Returns the remaining number of steps.
pub open spec fn walk_to_zzz(
    path: Seq<char>,
    ns: Seq<(Seq<char>, Seq<char>, Seq<char>)>,
    cur: int,
    pos: int,
    fuel: nat,
) -> Option<int>
    decreases fuel,
{
    if ns[cur].0 == seq!['Z', 'Z', 'Z'] {
        Some(0)
    } else if fuel == 0 {
        None
    } else {
        let d = path[pos];
        if d != 'L' && d != 'R' {
            None
        } else {
            let target = if d == 'L' {
                ns[cur].1
            } else {
                ns[cur].2
            };
            match lookup(ns, target) {
                None => None,
                Some(j) => match walk_to_zzz(path, ns, j, ((pos + 1) % path.len() as int), (fuel
                    - 1) as nat) {
                    None => None,
                    Some(k) => Some(k + 1),
                },
            }
        }
    }
}

/// The remaining number of steps until the walk stands on a node whose
/// name ends in `Z`.
pub open spec fn walk_to_end_z(
    path: Seq<char>,
    ns: Seq<(Seq<char>, Seq<char>, Seq<char>)>,
    cur: int,
    pos: int,
    fuel: nat,
) -> Option<int>
    decreases fuel,
{
    if ns[cur].0.len() > 0 && ns[cur].0.last() == 'Z' {
        Some(0)
    } else if fuel == 0 {
        None
    } else {
        let d = path[pos];
        if d != 'L' && d != 'R' {
            None
        } else {
            let target = if d == 'L' {
                ns[cur].1
            } else {
                ns[cur].2
            };
            match lookup(ns, target) {
                None => None,
                Some(j) => match walk_to_end_z(path, ns, j, ((pos + 1) % path.len() as int), (fuel
                    - 1) as nat) {
                    None => None,
                    Some(k) => Some(k + 1),
                },
            }
        }
    }
}

/// Compare two character lists.
fn chars_eq(a: &Vec<char>, b: &Vec<char>) -> (r: bool)
    ensures
        r == (a@ == b@),
{
    if a.len() != b.len() {
        return false;
    }
    let mut i: usize = 0;
    #[verifier::loop_isolation(false)]
    while i < a.len()
        invariant
            0 <= i <= a@.len(),
            a@.len() == b@.len(),
            forall|k: int| 0 <= k < i ==> a@[k] == b@[k],
        decreases a@.len() - i,
    {
        if a[i] != b[i] {
            return false;
        }
        i = i + 1;
    }
    proof {
        assert(a@ =~= b@);
    }
    true
}

/// A parsed network held as plain vectors.
pub struct Network {
    pub path: Vec<char>,
    pub names: Vec<Vec<char>>,
    pub lefts: Vec<Vec<char>>,
    pub rights: Vec<Vec<char>>,
}

impl Network {
    /// The node table this value stands for.
    pub open spec fn nview(self) -> Seq<(Seq<char>, Seq<char>, Seq<char>)> {
        Seq::new(self.names@.len() as nat, |i: int| (self.names@[i]@, self.lefts@[i]@, self.rights@[i]@))
    }

    pub open spec fn wf(self) -> bool {
        self.names@.len() == self.lefts@.len() && self.names@.len() == self.rights@.len()
    }

    /// The surviving index of a name.
    fn find(&self, nm: &Vec<char>) -> (r: Option<usize>)
        requires
            self.wf(),
        ensures
            match r {
                Some(j) => lookup(self.nview(), nm@) == Some(j as int),
                None => lookup(self.nview(), nm@) is None,
            },
    {
        let mut j: usize = self.names.len();
        #[verifier::loop_isolation(false)]
        while j > 0
            invariant
                0 <= j <= self.names@.len(),
                lookup(self.nview(), nm@) == find_name(self.nview(), nm@, j - 1),
            decreases j,
        {
            if chars_eq(&self.names[j - 1], nm) {
                proof {
                    assert(self.nview()[j - 1].0 == nm@);
                }
                return Some(j - 1);
            }
            proof {
                assert(self.nview()[j - 1].0 == self.names@[j - 1]@);
            }
            j = j - 1;
        }
        None
    }

    /// Walk from node `start` until the goal holds of the current name:
    /// the exact name `ZZZ` when `to_zzz` is set, else any name ending
    /// in `Z`.  Returns the step count, or nothing when the walk gets
    /// stuck or exceeds the budget.
    fn walk(&self, start: usize, to_zzz: bool) -> (r: Option<u64>)
        requires
            self.wf(),
            self.path@.len() > 0,
            (start as int) < self.names@.len(),
        ensures
            ({
                let f = walk_fuel(self.path@.len() as int, self.names@.len() as int);
                match r {
                    Some(steps) => if to_zzz {
                        walk_to_zzz(self.path@, self.nview(), start as int, 0, f) == Some(
                            steps as int,
                        )
                    } else {
                        walk_to_end_z(self.path@, self.nview(), start as int, 0, f) == Some(
                            steps as int,
                        )
                    },
                    None => if to_zzz {
                        walk_to_zzz(self.path@, self.nview(), start as int, 0, f) is None
                    } else {
                        walk_to_end_z(self.path@, self.nview(), start as int, 0, f) is None
                    },
                }
            }),
    {
        let ghost f0 = walk_fuel(self.path@.len() as int, self.names@.len() as int);
        let cap: u64 = 0xFFFF_FFFF_FFFF_FFFE;
        let fuel0: u64 = match (self.path.len() as u64).checked_mul(self.names.len() as u64) {
            Some(p) => if p >= cap {
                cap
            } else {
                p + 1
            },
            None => cap,
        };
        proof {
            if (self.path@.len() as int) * (self.names@.len() as int) <= u64::MAX {
                assert((self.path@.len() as u64 as int) * (self.names@.len() as u64 as int)
                    == (self.path@.len() as int) * (self.names@.len() as int));
            }
            assert(fuel0 as nat == f0);
        }
        let mut cur = start;
        let mut pos: usize = 0;
        let mut steps: u64 = 0;
        let mut fuel: u64 = fuel0;
        #[verifier::loop_isolation(false)]
        loop
            invariant
                self.wf(),
                self.path@.len() > 0,
                (cur as int) < self.names@.len(),
                0 <= (pos as int) < self.path@.len(),
                fuel <= fuel0,
                steps as int == f0 - fuel as int,
                ({
                    let here = if to_zzz {
                        walk_to_zzz(self.path@, self.nview(), cur as int, pos as int, fuel as nat)
                    } else {
                        walk_to_end_z(
                            self.path@,
                            self.nview(),
                            cur as int,
                            pos as int,
                            fuel as nat,
                        )
                    };
                    let full = if to_zzz {
                        walk_to_zzz(self.path@, self.nview(), start as int, 0, f0)
                    } else {
                        walk_to_end_z(self.path@, self.nview(), start as int, 0, f0)
                    };
                    match here {
                        Some(k) => full == Some(k + steps),
                        None => full is None,
                    }
                }),
            decreases fuel,
        {
            let name = &self.names[cur];
            let done = if to_zzz {
                let mut zzz: Vec<char> = Vec::new();
                zzz.push('Z');
                zzz.push('Z');
                zzz.push('Z');
                proof {
                    assert(zzz@ =~= seq!['Z', 'Z', 'Z']);
                }
                chars_eq(name, &zzz)
            } else {
                name.len() > 0 && name[name.len() - 1] == 'Z'
            };
            proof {
                assert(self.nview()[cur as int].0 == self.names@[cur as int]@);
            }
            if done {
                return Some(steps);
            }
            if fuel == 0 {
                return None;
            }
            let d = self.path[pos];
            if d != 'L' && d != 'R' {
                return None;
            }
            let target = if d == 'L' {
                &self.lefts[cur]
            } else {
                &self.rights[cur]
            };
            proof {
                assert(self.nview()[cur as int].1 == self.lefts@[cur as int]@);
                assert(self.nview()[cur as int].2 == self.rights@[cur as int]@);
            }
            let j = match self.find(target) {
                Some(j) => j,
                None => {
                    return None;
                },
            };
            proof {
                lemma_lookup_in_range(self.nview(), target@, self.nview().len() - 1);
                let nsv = self.nview();
                let plen = self.path@.len() as int;
                let np = ((pos as int + 1) % plen);
                assert(lookup(nsv, target@) == Some(j as int));
                if to_zzz {
                    assert(walk_to_zzz(self.path@, nsv, cur as int, pos as int, fuel as nat) == (
                    match walk_to_zzz(self.path@, nsv, j as int, np, (fuel - 1) as nat) {
                        None => None::<int>,
                        Some(k) => Some(k + 1),
                    }));
                } else {
                    assert(walk_to_end_z(self.path@, nsv, cur as int, pos as int, fuel as nat) == (
                    match walk_to_end_z(self.path@, nsv, j as int, np, (fuel - 1) as nat) {
                        None => None::<int>,
                        Some(k) => Some(k + 1),
                    }));
                }
            }
            let ghost opos = pos as int;
            cur = j;
            pos = if pos + 1 == self.path.len() {
                0
            } else {
                pos + 1
            };
            proof {
                let plen = self.path@.len() as int;
                if opos + 1 == plen {
                    vstd::arithmetic::div_mod::lemma_mod_self_0(plen);
                } else {
                    vstd::arithmetic::div_mod::lemma_small_mod((opos + 1) as nat, plen as nat);
                }
                assert(pos as int == (opos + 1) % (self.path@.len() as int));
            }
            steps = steps + 1;
            fuel = fuel - 1;
        }
    }
}

/// Parse the document into a network.
fn parse_network(input: &str) -> (r: Option<Network>)
    ensures
        ({
            let ls = spec_lines(input@);
            match r {
                Some(nw) => nw.wf() && match network_of(ls) {
                    Some((p, ns)) => nw.path@ == p && nw.nview() == ns && p.len() > 0,
                    None => false,
                },
                None => network_of(ls) is None,
            }
        }),
{
    let cs = to_chars(input);
    let lines = lines_of(&cs);
    let ghost ls = spec_lines(input@);
    if lines.len() < 2 {
        return None;
    }
    if lines[0].len() == 0 || lines[1].len() != 0 {
        return None;
    }
    let path = slice_of(&lines[0], 0, lines[0].len());
    proof {
        assert(path@ =~= ls[0]);
    }
    let mut names: Vec<Vec<char>> = Vec::new();
    let mut lefts: Vec<Vec<char>> = Vec::new();
    let mut rights: Vec<Vec<char>> = Vec::new();
    let mut i: usize = 2;
    #[verifier::loop_isolation(false)]
    while i < lines.len()
        invariant
            2 <= i <= lines@.len(),
            names@.len() == lefts@.len() && names@.len() == rights@.len(),
            names@.len() == i - 2,
            match nodes_of(ls, i as int) {
                Some(rest) => nodes_of(ls, 2) == Some(
                    Seq::new(
                        names@.len() as nat,
                        |k: int| (names@[k]@, lefts@[k]@, rights@[k]@),
                    ) + rest,
                ),
                None => nodes_of(ls, 2) is None,
            },
        decreases lines@.len() - i,
    {
        let line = &lines[i];
        let ts = tokens_of(line);
        if ts.len() != 4 {
            return None;
        }
        let eq_tok = &ts[1];
        if !(eq_tok.len() == 1 && eq_tok[0] == '=') {
            proof {
                assert(spec_tokens(ls[i as int])[1] != seq!['=']);
            }
            return None;
        }
        proof {
            assert(eq_tok@ =~= seq!['=']);
        }
        let t2 = &ts[2];
        let t3 = &ts[3];
        if !(t2.len() >= 3 && t2[0] == '(' && t2[t2.len() - 1] == ',') {
            return None;
        }
        if !(t3.len() >= 2 && t3[t3.len() - 1] == ')') {
            return None;
        }
        let nm = slice_of(&ts[0], 0, ts[0].len());
        let lf = slice_of(t2, 1, t2.len() - 1);
        let rg = slice_of(t3, 0, t3.len() - 1);
        proof {
            assert(nm@ =~= spec_tokens(ls[i as int])[0]);
            assert(lf@ =~= spec_tokens(ls[i as int])[2].subrange(
                1,
                spec_tokens(ls[i as int])[2].len() - 1,
            ));
            assert(rg@ =~= spec_tokens(ls[i as int])[3].subrange(
                0,
                spec_tokens(ls[i as int])[3].len() - 1,
            ));
        }
        if !(check_name(&nm) && check_name(&lf) && check_name(&rg)) {
            return None;
        }
        names.push(nm);
        lefts.push(lf);
        rights.push(rg);
        proof {
            if nodes_of(ls, i as int + 1) is Some {
                assert(Seq::new(
                    names@.len() as nat,
                    |k: int| (names@[k]@, lefts@[k]@, rights@[k]@),
                ) + nodes_of(ls, i as int + 1)->Some_0 =~= Seq::new(
                    (names@.len() - 1) as nat,
                    |k: int| (names@[k]@, lefts@[k]@, rights@[k]@),
                ) + (seq![node_of(ls[i as int])->Some_0] + nodes_of(ls, i as int + 1)->Some_0));
            }
        }
        i = i + 1;
    }
    proof {
        assert(nodes_of(ls, i as int) == Some(Seq::<(Seq<char>, Seq<char>, Seq<char>)>::empty()));
        assert(Seq::new(names@.len() as nat, |k: int| (names@[k]@, lefts@[k]@, rights@[k]@))
            + Seq::<(Seq<char>, Seq<char>, Seq<char>)>::empty() =~= Seq::new(
            names@.len() as nat,
            |k: int| (names@[k]@, lefts@[k]@, rights@[k]@),
        ));
    }
    let nw = Network { path, names, lefts, rights };
    proof {
        assert(nw.nview() =~= nodes_of(ls, 2)->Some_0);
    }
    Some(nw)
}

/// Check a parsed token for the name alphabet.
fn check_name(t: &Vec<char>) -> (r: bool)
    ensures
        r == is_name(t@),
{
    if t.len() == 0 {
        return false;
    }
    let mut i: usize = 0;
    #[verifier::loop_isolation(false)]
    while i < t.len()
        invariant
            0 <= i <= t@.len(),
            forall|k: int| 0 <= k < i ==> ('0' <= #[trigger] t@[k] <= '9' || 'A' <= t@[k] <= 'Z'),
        decreases t@.len() - i,
    {
        let c = t[i];
        if !(c >= '0' && c <= '9' || c >= 'A' && c <= 'Z') {
            return false;
        }
        i = i + 1;
    }
    true
}

/// The number of steps from `AAA` to `ZZZ`; nothing when the document
/// does not parse, `AAA` is missing, the walk gets stuck or never
/// arrives, or the count does not fit in `u32`.
pub fn part_one(input: &str) -> (r: Option<u32>)
    ensures
        ({
            let ls = spec_lines(input@);
            match network_of(ls) {
                None => r is None,
                Some((p, ns)) => match lookup(ns, seq!['A', 'A', 'A']) {
                    None => r is None,
                    Some(s) => match walk_to_zzz(
                        p,
                        ns,
                        s,
                        0,
                        walk_fuel(p.len() as int, ns.len() as int),
                    ) {
                        Some(k) => if k <= u32::MAX {
                            r == Some(k as u32)
                        } else {
                            r is None
                        },
                        None => r is None,
                    },
                },
            }
        }),
{
    let nw = match parse_network(input) {
        Some(nw) => nw,
        None => {
            return None;
        },
    };
    let mut aaa: Vec<char> = Vec::new();
    aaa.push('A');
    aaa.push('A');
    aaa.push('A');
    proof {
        assert(aaa@ =~= seq!['A', 'A', 'A']);
    }
    let s = match nw.find(&aaa) {
        Some(s) => s,
        None => {
            return None;
        },
    };
    proof {
        lemma_lookup_in_range(nw.nview(), aaa@, nw.nview().len() - 1);
    }
    match nw.walk(s, true) {
        Some(steps) => if steps <= 0xFFFF_FFFF {
            Some(steps as u32)
        } else {
            None
        },
        None => None,
    }
}

proof fn lemma_lookup_in_range(ns: Seq<(Seq<char>, Seq<char>, Seq<char>)>, nm: Seq<char>, j: int)
    ensures
        match find_name(ns, nm, j) {
            Some(q) => 0 <= q < ns.len() && q <= j,
            None => true,
        },
    decreases j + 1,
{
    if 0 <= j < ns.len() && ns[j].0 != nm {
        lemma_lookup_in_range(ns, nm, j - 1);
    }
}

/// The least common multiple of the first-arrival times of all ghost
/// walks from the surviving nodes ending in `A`, folding from index `i`
/// with the running value `acc`; nothing when some walk fails, a time
/// is zero, or a fold value does not fit in `u64`.
pub open spec fn ghost_fold(
    p: Seq<char>,
    ns: Seq<(Seq<char>, Seq<char>, Seq<char>)>,
    i: int,
    acc: Option<int>,
) -> Option<int>
    decreases ns.len() - i,
{
    if i < 0 || i >= ns.len() {
        acc
    } else if ns[i].0.len() > 0 && ns[i].0.last() == 'A' && lookup(ns, ns[i].0) == Some(i) {
        match walk_to_end_z(p, ns, i, 0, walk_fuel(p.len() as int, ns.len() as int)) {
            None => None,
            Some(k) => if k <= 0 {
                None
            } else {
                match acc {
                    None => ghost_fold(p, ns, i + 1, Some(k)),
                    Some(a) => if a <= 0 || spec_lcm(a as nat, k as nat) > u64::MAX {
                        None
                    } else {
                        ghost_fold(p, ns, i + 1, Some(spec_lcm(a as nat, k as nat) as int))
                    },
                }
            },
        }
    } else {
        ghost_fold(p, ns, i + 1, acc)
    }
}

/// The combined period of all ghost walks: the least common multiple of
/// each `A`-node's first arrival on a `Z`-name; nothing when the
/// document does not parse, no walk starts, a walk fails, or a value
/// does not fit.
pub fn part_two(input: &str) -> (r: Option<u64>)
    ensures
        ({
            let ls = spec_lines(input@);
            match network_of(ls) {
                None => r is None,
                Some((p, ns)) => match ghost_fold(p, ns, 0, None) {
                    None => r is None,
                    Some(v) => r == Some(v as u64),
                },
            }
        }),
{
    let nw = match parse_network(input) {
        Some(nw) => nw,
        None => {
            return None;
        },
    };
    let ghost p = nw.path@;
    let ghost ns = nw.nview();
    let mut acc: Option<u64> = None;
    let mut i: usize = 0;
    #[verifier::loop_isolation(false)]
    while i < nw.names.len()
        invariant
            nw.wf(),
            nw.path@.len() > 0,
            0 <= i <= nw.names@.len(),
            p == nw.path@,
            ns == nw.nview(),
            ghost_fold(p, ns, 0, None) == ghost_fold(
                p,
                ns,
                i as int,
                match acc {
                    None => None,
                    Some(a) => Some(a as int),
                },
            ),
            match acc {
                Some(a) => a > 0,
                None => true,
            },
        decreases nw.names@.len() - i,
    {
        let name = &nw.names[i];
        proof {
            assert(ns[i as int].0 == nw.names@[i as int]@);
        }
        let is_start = name.len() > 0 && name[name.len() - 1] == 'A';
        if is_start {
            let surv = match nw.find(name) {
                Some(q) => q,
                None => {
                    proof {
                        lemma_find_self(ns, i as int);
                    }
                    assert(false);
                    unreached()
                },
            };
            if surv == i {
                let k = match nw.walk(i, false) {
                    Some(k) => k,
                    None => {
                        return None;
                    },
                };
                if k == 0 {
                    return None;
                }
                acc = match acc {
                    None => Some(k),
                    Some(a) => {
                        match lcm(a, k) {
                            Some(v) => {
                                proof {
                                    crate::numbers::lemma_gcd_divides(a as nat, k as nat);
                                }
                                if v == 0 {
                                    proof {
                                        lemma_lcm_pos(a as nat, k as nat);
                                    }
                                    assert(false);
                                    unreached()
                                } else {
                                    Some(v)
                                }
                            },
                            None => {
                                return None;
                            },
                        }
                    },
                };
            }
        }
        i = i + 1;
    }
    proof {
        assert(ghost_fold(p, ns, i as int, match acc {
            None => None::<int>,
            Some(a) => Some(a as int),
        }) == (match acc {
            None => None::<int>,
            Some(a) => Some(a as int),
        }));
    }
    match acc {
        Some(v) => Some(v),
        None => None,
    }
}

/// A surviving lookup always exists for a present name.
proof fn lemma_find_self(ns: Seq<(Seq<char>, Seq<char>, Seq<char>)>, i: int)
    requires
        0 <= i < ns.len(),
    ensures
        lookup(ns, ns[i].0) is Some,
{
    lemma_find_from(ns, ns[i].0, i, ns.len() - 1);
}

proof fn lemma_find_from(ns: Seq<(Seq<char>, Seq<char>, Seq<char>)>, nm: Seq<char>, i: int, j: int)
    requires
        0 <= i <= j < ns.len(),
        ns[i].0 == nm,
    ensures
        find_name(ns, nm, j) is Some,
    decreases j,
{
    if ns[j].0 != nm {
        lemma_find_from(ns, nm, i, j - 1);
    }
}

/// A least common multiple of positive numbers is positive.
proof fn lemma_lcm_pos(a: nat, b: nat)
    requires
        a > 0,
        b > 0,
    ensures
        spec_lcm(a, b) > 0,
{
    crate::numbers::lemma_gcd_divides(a, b);
    let g = spec_gcd(a, b);
    vstd::arithmetic::div_mod::lemma_fundamental_div_mod(b as int, g as int);
    assert(b / g > 0) by {
        if b / g == 0 {
            assert(b == g * (b / g) + b % g);
            assert(b % g == 0);
        }
    }
    vstd::arithmetic::mul::lemma_mul_strictly_positive(a as int, (b / g) as int);
}

} // verus!
