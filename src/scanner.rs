//! The scanner: finds the matches of every pattern of a rule set in the
//! data, then decides which rules match.
//!
//! A rule matches when its condition holds and no global rule of its
//! namespace fails. Rules are reported in rule order.

use vstd::prelude::*;
use crate::condition::{eval_condition, holds, ContextView, EvalContext, Value};
use crate::pikevm::PikeVM;
use crate::re_code::{accepts, byte_at, shortest_accept};
use crate::re_code::OP_MATCH;
use crate::re_compile::{literal_code, literal_prefix, literal_program_accepts, lower, same_byte};
use vstd::string::StringExecFns;
use crate::rules::{same_type, CompiledPattern, CompiledRule, Rules, VariableError};

verus! {

/// A match of a pattern: where it starts and how many bytes it covers.
#[derive(Debug, Clone, Copy, PartialEq, Eq, Structural)]
pub struct Match {
    pub offset: usize,
    pub length: usize,
}

/// What a scan found.
#[derive(Debug, Clone, PartialEq, Eq)]
pub struct ScanResults {
    /// The matching rules, by index, in rule order.
    pub matching: Vec<usize>,
    /// The other rules, by index, in rule order.
    pub non_matching: Vec<usize>,
    /// The matches of each pattern, by ascending offset, up to the cap.
    pub matches: Vec<Vec<Match>>,
    /// Whether each pattern matched at least once, also when the cap kept
    /// none of its matches.
    pub matched: Vec<bool>,
}

impl ScanResults {
    /// The indices of the matching rules.
    pub fn matching_rules(&self) -> (r: &Vec<usize>)
        ensures
            r@ == self.matching@,
    {
        &self.matching
    }

    /// The indices of the rules that did not match.
    pub fn non_matching_rules(&self) -> (r: &Vec<usize>)
        ensures
            r@ == self.non_matching@,
    {
        &self.non_matching
    }

    /// How many rules matched.
    pub fn num_matching_rules(&self) -> (r: usize)
        ensures
            r == self.matching@.len(),
    {
        self.matching.len()
    }
}

/// Rule `i` of `rules` has a condition that holds.
pub open spec fn rule_holds(rules: Seq<CompiledRule>, ctx: ContextView, i: int) -> bool {
    holds(rules[i].condition@, ctx)
}

/// Among the first `n` rules, a global rule of namespace `ns` fails.
pub open spec fn suppressed_upto(rules: Seq<CompiledRule>, ctx: ContextView, n: nat, ns: usize) -> bool
    decreases n,
{
    if n == 0 {
        false
    } else {
        let g = (n - 1) as int;
        suppressed_upto(rules, ctx, (n - 1) as nat, ns) || (rules[g].namespace == ns && rules[g].global
            && !rule_holds(rules, ctx, g))
    }
}

/// Rule `i` matches: its condition holds and no global rule of its namespace
/// fails.
pub open spec fn rule_matches(rules: Seq<CompiledRule>, ctx: ContextView, i: int) -> bool {
    rule_holds(rules, ctx, i) && !suppressed_upto(rules, ctx, rules.len(), rules[i].namespace)
}

/// The indices below `n` of the rules that match (`want`) or do not.
pub open spec fn rules_where(rules: Seq<CompiledRule>, ctx: ContextView, n: nat, want: bool) -> Seq<usize>
    decreases n,
{
    if n == 0 {
        Seq::empty()
    } else {
        let i = (n - 1) as int;
        rules_where(rules, ctx, (n - 1) as nat, want) + if rule_matches(rules, ctx, i) == want {
            seq![i as usize]
        } else {
            Seq::empty()
        }
    }
}

/// Decides which rules match. Rules are evaluated in order; once a global
/// rule of a namespace fails, the rest of that namespace is not evaluated,
/// and none of its rules matches.
pub fn evaluate(rules: &Vec<CompiledRule>, num_namespaces: usize, ctx: &EvalContext) -> (r: (Vec<usize>, Vec<usize>))
    requires
        forall|i: int| 0 <= i < rules@.len() ==> (#[trigger] rules@[i]).namespace < num_namespaces,
    ensures
        r.0@ == rules_where(rules@, ctx@, rules@.len(), true),
        r.1@ == rules_where(rules@, ctx@, rules@.len(), false),
{
    let n = rules.len();
    let mut suppressed: Vec<bool> = crate::marks::unvisited(num_namespaces);
    let mut truth: Vec<bool> = Vec::new();
    let mut i: usize = 0;
    while i < n
        invariant
            n == rules@.len(),
            i <= n,
            truth@.len() == i,
            suppressed@.len() == num_namespaces,
            forall|k: int| 0 <= k < rules@.len() ==> (#[trigger] rules@[k]).namespace < num_namespaces,
            forall|ns: int| 0 <= ns < num_namespaces ==> #[trigger] suppressed@[ns]
                == suppressed_upto(rules@, ctx@, i as nat, ns as usize),
            forall|j: int| 0 <= j < i && !suppressed@[rules@[j].namespace as int] ==> #[trigger] truth@[j]
                == rule_holds(rules@, ctx@, j),
        decreases n - i,
    {
        let ns = rules[i].namespace;
        if suppressed[ns] {
            truth.push(false);
        } else {
            let t = eval_condition(&rules[i].condition, ctx);
            truth.push(t);
            if rules[i].global && !t {
                suppressed.set(ns, true);
            }
        }
        proof {
            assert forall|m: int| 0 <= m < num_namespaces implies #[trigger] suppressed@[m]
                == suppressed_upto(rules@, ctx@, (i + 1) as nat, m as usize) by {
                assert(((i + 1) as nat - 1) as nat == i as nat);
            }
        }
        i = i + 1;
    }
    let mut matching: Vec<usize> = Vec::new();
    let mut non_matching: Vec<usize> = Vec::new();
    let mut j: usize = 0;
    while j < n
        invariant
            n == rules@.len(),
            j <= n,
            truth@.len() == n,
            suppressed@.len() == num_namespaces,
            forall|k: int| 0 <= k < rules@.len() ==> (#[trigger] rules@[k]).namespace < num_namespaces,
            forall|ns: int| 0 <= ns < num_namespaces ==> #[trigger] suppressed@[ns]
                == suppressed_upto(rules@, ctx@, n as nat, ns as usize),
            forall|k: int| 0 <= k < n && !suppressed@[rules@[k].namespace as int] ==> #[trigger] truth@[k]
                == rule_holds(rules@, ctx@, k),
            matching@ == rules_where(rules@, ctx@, j as nat, true),
            non_matching@ == rules_where(rules@, ctx@, j as nat, false),
        decreases n - j,
    {
        let m = truth[j] && !suppressed[rules[j].namespace];
        proof {
            let ns = rules@[j as int].namespace;
            assert(suppressed@[ns as int] == suppressed_upto(rules@, ctx@, n as nat, ns));
            assert(m == rule_matches(rules@, ctx@, j as int));
            assert(((j + 1) as nat - 1) as nat == j as nat);
        }
        if m {
            matching.push(j);
        } else {
            non_matching.push(j);
        }
        j = j + 1;
    }
    (matching, non_matching)
}

/// `atom` occurs in `data` at `i`, in either case for ASCII letters when
/// `nocase` holds.
pub open spec fn atom_at(data: Seq<u8>, i: int, atom: Seq<u8>, nocase: bool) -> bool {
    &&& 0 <= i
    &&& i + atom.len() <= data.len()
    &&& forall|k: int| 0 <= k < atom.len() ==> same_byte(#[trigger] data[i + k], atom[k], nocase)
}

fn to_lower(b: u8) -> (r: u8)
    ensures
        r == lower(b),
{
    if 0x41 <= b && b <= 0x5a {
        b + 0x20
    } else {
        b
    }
}

fn atom_matches(data: &[u8], i: usize, atom: &Vec<u8>, nocase: bool) -> (r: bool)
    requires
        i + atom@.len() <= data@.len(),
    ensures
        r == atom_at(data@, i as int, atom@, nocase),
{
    let dl = data.len();
    let mut k: usize = 0;
    while k < atom.len()
        invariant
            dl == data@.len(),
            k <= atom@.len(),
            i + atom@.len() <= data@.len(),
            forall|j: int| 0 <= j < k ==> same_byte(#[trigger] data@[i + j], atom@[j], nocase),
        decreases atom@.len() - k,
    {
        let same = if nocase { to_lower(data[i + k]) == to_lower(atom[k]) } else { data[i + k] == atom[k] };
        if !same {
            proof {
                assert(!same_byte(data@[i + k], atom@[k as int], nocase));
            }
            return false;
        }
        k = k + 1;
    }
    true
}

/// The byte before position `i` of `data`, if any.
pub open spec fn before_at(data: Seq<u8>, i: int) -> Option<u8> {
    if 0 < i <= data.len() {
        Some(data[i - 1])
    } else {
        None
    }
}

/// A match of pattern code `code` in `data` lies inside the data, and its
/// bytes are the shortest prefix, from its offset, that the program accepts.
pub open spec fn match_ok(code: Seq<u8>, data: Seq<u8>, m: Match) -> bool {
    &&& m.offset + m.length <= data.len()
    &&& shortest_accept(code, 0, data.subrange(m.offset as int, data.len() as int), before_at(data, m.offset as int), m.length as nat)
}

/// Every match of `ms` is sound, their offsets ascend, and there are at
/// most `max` of them.
pub open spec fn matches_ok(code: Seq<u8>, data: Seq<u8>, ms: Seq<Match>, max: nat) -> bool {
    &&& ms.len() <= max
    &&& forall|k: int| 0 <= k < ms.len() ==> match_ok(code, data, #[trigger] ms[k])
    &&& forall|a: int, b: int| 0 <= a < b < ms.len() ==> #[trigger] ms[a].offset < #[trigger] ms[b].offset
}

/// Finds the matches of one pattern: at each occurrence of its atom, the
/// program runs from `backtrack` bytes before it. At most `max` matches are
/// kept.
fn search_pattern(vm: &mut PikeVM, p: &CompiledPattern, data: &[u8], max: usize) -> (r: Vec<Match>)
    ensures
        matches_ok(p.code@, data@, r@, max as nat),
        r@ == take_upto(hits(*p, data@, search_limit(*p, data@)), max as nat),
{
    let mut out: Vec<Match> = Vec::new();
    let alen = p.atom.len();
    let dlen = data.len();
    let ghost lim = search_limit(*p, data@);
    if alen > dlen {
        return out;
    }
    let mut i: usize = 0;
    while i <= dlen - alen
        invariant
            alen == p.atom@.len(),
            dlen == data@.len(),
            alen <= dlen,
            lim == dlen - alen + 1,
            i <= dlen - alen,
            matches_ok(p.code@, data@, out@, max as nat),
            forall|k: int| 0 <= k < out@.len() ==> (#[trigger] out@[k]).offset + p.backtrack < i,
            out@ == hits(*p, data@, i as nat),
        decreases dlen - alen + 1 - i,
    {
        if out.len() >= max {
            proof {
                lemma_hits_prefix(*p, data@, i as nat, lim);
                assert(out@ =~= take_upto(hits(*p, data@, lim), max as nat));
            }
            return out;
        }
        let ghost prev = out@;
        proof {
            assert(((i + 1) as nat - 1) as nat == i as nat);
        }
        if i >= p.backtrack && atom_matches(data, i, &p.atom, p.nocase) {
            let start = i - p.backtrack;
            let bck: &[u8] = if start > 0 { &data[start - 1..start] } else { &data[0..0] };
            proof {
                if start > 0 {
                    assert(byte_at(bck@, 0) == before_at(data@, start as int));
                }
            }
            match vm.try_match(p.code.as_slice(), 0, &data[start..dlen], bck) {
                Some(n) => {
                    let ghost before = out@;
                    out.push(Match { offset: start, length: n });
                    proof {
                        let fwd = data@.subrange(start as int, data@.len() as int);
                        let bf = before_at(data@, start as int);
                        assert(shortest_accept(p.code@, 0, fwd, bf, n as nat));
                        let k = choose|k: nat| shortest_accept(p.code@, 0, fwd, bf, k);
                        if k < n {
                            assert(!accepts(p.code@, 0, fwd, bf, k));
                        } else if n < k {
                            assert(!accepts(p.code@, 0, fwd, bf, n as nat));
                        }
                        assert(k == n);
                        assert(candidate(*p, data@, i as int) == Some(Match { offset: start, length: n }));
                        assert(out@ =~= hits(*p, data@, (i + 1) as nat));
                        assert forall|k: int| 0 <= k < out@.len() implies match_ok(p.code@, data@, #[trigger] out@[k]) by {
                            if k < before.len() {
                                assert(out@[k] == before[k]);
                            }
                        }
                        assert forall|a: int, b: int| 0 <= a < b < out@.len() implies #[trigger] out@[a].offset < #[trigger] out@[b].offset by {
                            if b < before.len() {
                                assert(out@[a] == before[a] && out@[b] == before[b]);
                            } else {
                                assert(out@[a] == before[a]);
                            }
                        }
                    }
                },
                None => {
                    proof {
                        assert(candidate(*p, data@, i as int).is_none());
                        assert(out@ =~= hits(*p, data@, (i + 1) as nat));
                    }
                },
            }
        } else {
            proof {
                assert(candidate(*p, data@, i as int).is_none());
                assert(out@ =~= hits(*p, data@, (i + 1) as nat));
            }
        }
        if i == dlen - alen {
            proof {
                assert(out@ =~= take_upto(hits(*p, data@, lim), max as nat));
            }
            return out;
        }
        i = i + 1;
    }
    out
}

/// The length of the shortest prefix of `fwd` that the program starting at
/// offset zero accepts, if it accepts one.
pub open spec fn accepted_len(code: Seq<u8>, fwd: Seq<u8>, before: Option<u8>) -> Option<nat> {
    if exists|k: nat| shortest_accept(code, 0, fwd, before, k) {
        Some(choose|k: nat| shortest_accept(code, 0, fwd, before, k))
    } else {
        None
    }
}

/// The match that an occurrence of the atom at `i` yields, if any.
pub open spec fn candidate(p: CompiledPattern, data: Seq<u8>, i: int) -> Option<Match> {
    if i >= p.backtrack && atom_at(data, i, p.atom@, p.nocase) {
        let s = i - p.backtrack;
        match accepted_len(p.code@, data.subrange(s, data.len() as int), before_at(data, s)) {
            Some(k) => Some(Match { offset: s as usize, length: k as usize }),
            None => None,
        }
    } else {
        None
    }
}

/// The matches yielded by the atom positions below `n`, in order.
pub open spec fn hits(p: CompiledPattern, data: Seq<u8>, n: nat) -> Seq<Match>
    decreases n,
{
    if n == 0 {
        Seq::empty()
    } else {
        hits(p, data, (n - 1) as nat) + match candidate(p, data, n - 1) {
            Some(m) => seq![m],
            None => Seq::empty(),
        }
    }
}

/// The number of positions where the atom may start.
pub open spec fn search_limit(p: CompiledPattern, data: Seq<u8>) -> nat {
    if p.atom@.len() > data.len() {
        0
    } else {
        (data.len() - p.atom@.len() + 1) as nat
    }
}

/// The first `max` items of `s`.
pub open spec fn take_upto(s: Seq<Match>, max: nat) -> Seq<Match> {
    if s.len() <= max {
        s
    } else {
        s.subrange(0, max as int)
    }
}

proof fn lemma_hits_prefix(p: CompiledPattern, data: Seq<u8>, i: nat, n: nat)
    requires
        i <= n,
    ensures
        hits(p, data, i).len() <= hits(p, data, n).len(),
        hits(p, data, n).subrange(0, hits(p, data, i).len() as int) == hits(p, data, i),
    decreases n - i,
{
    if i < n {
        lemma_hits_prefix(p, data, i, (n - 1) as nat);
        let a = hits(p, data, i);
        let b = hits(p, data, (n - 1) as nat);
        let c = hits(p, data, n);
        assert(c.subrange(0, b.len() as int) =~= b);
        assert(c.subrange(0, a.len() as int) =~= b.subrange(0, a.len() as int));
    } else {
        assert(hits(p, data, n).subrange(0, hits(p, data, n).len() as int) =~= hits(p, data, n));
    }
}

/// Scans data with a compiled rule set. Globals start at their compiled
/// defaults and can be overridden for later scans.
pub struct Scanner<'r> {
    rules: &'r Rules,
    globals: Vec<Value>,
    vm: PikeVM,
    max_matches_per_pattern: usize,
}

/// What the conditions of a scan read: whether and how often each pattern
/// matched, the size of the data, and the globals.
pub open spec fn scan_context(globals: Seq<Value>, data: Seq<u8>, r: ScanResults) -> ContextView {
    ContextView {
        matched: r.matched@,
        counts: r.matches@.map_values(|ms: Vec<Match>| ms@.len() as u64),
        filesize: if data.len() <= i64::MAX { data.len() as i64 } else { i64::MAX },
        globals,
    }
}

/// The outcome of scanning `data`: the matches of each pattern are sound,
/// and the rules are split by the conditions evaluated with `globals` over
/// what was found.
pub open spec fn scan_ok(rules: Rules, globals: Seq<Value>, data: Seq<u8>, max: nat, r: ScanResults) -> bool {
    let ctx = scan_context(globals, data, r);
    &&& r.matches@.len() == rules.patterns@.len()
    &&& forall|p: int| 0 <= p < r.matches@.len() ==> matches_ok(rules.patterns@[p].code@, data, #[trigger] r.matches@[p]@, max)
    &&& forall|p: int| 0 <= p < r.matches@.len() ==> #[trigger] r.matches@[p]@
        == take_upto(hits(rules.patterns@[p], data, search_limit(rules.patterns@[p], data)), max)
    &&& r.matched@.len() == rules.patterns@.len()
    &&& forall|p: int| 0 <= p < r.matched@.len() ==> #[trigger] r.matched@[p]
        == (hits(rules.patterns@[p], data, search_limit(rules.patterns@[p], data)).len() > 0)
    &&& r.matching@ == rules_where(rules.rules@, ctx, rules.rules@.len(), true)
    &&& r.non_matching@ == rules_where(rules.rules@, ctx, rules.rules@.len(), false)
}

impl<'r> Scanner<'r> {
    /// The rule set this scanner uses.
    pub closed spec fn rules(&self) -> Rules {
        *self.rules
    }

    /// The values of the globals that the next scan uses.
    pub closed spec fn globals(&self) -> Seq<Value> {
        self.globals@
    }

    /// How many matches of each pattern a scan keeps.
    pub closed spec fn max_matches(&self) -> nat {
        self.max_matches_per_pattern as nat
    }

    /// Creates a scanner; globals take their compiled defaults, and up to a
    /// thousand matches of each pattern are kept.
    pub fn new(rules: &'r Rules) -> (r: Scanner<'r>)
        requires
            rules.wf(),
        ensures
            r.rules() == *rules,
            r.globals() == rules.globals@,
            r.max_matches() == 1000,
    {
        let mut globals: Vec<Value> = Vec::new();
        let mut i: usize = 0;
        while i < rules.globals.len()
            invariant
                i <= rules.globals@.len(),
                globals@ == rules.globals@.subrange(0, i as int),
            decreases rules.globals@.len() - i,
        {
            globals.push(rules.globals[i]);
            proof {
                assert(globals@ =~= rules.globals@.subrange(0, i + 1));
            }
            i = i + 1;
        }
        proof {
            assert(rules.globals@.subrange(0, rules.globals@.len() as int) =~= rules.globals@);
        }
        Scanner { rules, globals, vm: PikeVM::new(), max_matches_per_pattern: 1000 }
    }

    /// Sets how many matches of each pattern a scan keeps; matches past the
    /// cap are dropped, but the pattern still counts as matching.
    pub fn set_max_matches_per_pattern(&mut self, n: usize)
        ensures
            final(self).max_matches() == n,
            final(self).rules() == old(self).rules(),
            final(self).globals() == old(self).globals(),
    {
        self.max_matches_per_pattern = n;
    }

    /// Overrides a global for the following scans. The value must have the
    /// global's type. The rule set is not changed.
    pub fn set_global(&mut self, ident: &str, value: Value) -> (r: Result<(), VariableError>)
        requires
            old(self).rules().wf(),
            old(self).globals().len() == old(self).rules().globals@.len(),
        ensures
            final(self).rules() == old(self).rules(),
            final(self).max_matches() == old(self).max_matches(),
            final(self).globals().len() == old(self).globals().len(),
            match r {
                Ok(()) => exists|i: int| 0 <= i < old(self).globals().len()
                    && (#[trigger] old(self).rules().global_names@[i])@ == ident@
                    && same_type(old(self).globals()[i], value)
                    && final(self).globals() == old(self).globals().update(i, value),
                Err(VariableError::Unknown) => final(self).globals() == old(self).globals()
                    && forall|i: int| 0 <= i < old(self).rules().global_names@.len()
                        ==> (#[trigger] old(self).rules().global_names@[i])@ != ident@,
                Err(VariableError::InvalidType) => final(self).globals() == old(self).globals()
                    && exists|i: int| 0 <= i < old(self).globals().len()
                        && (#[trigger] old(self).rules().global_names@[i])@ == ident@
                        && !same_type(old(self).globals()[i], value),
                Err(_) => false,
            },
    {
        let n = self.rules.global_names.len();
        let name = String::from_str(ident);
        let mut i: usize = 0;
        while i < n
            invariant
                n == self.rules.global_names@.len(),
                n == self.globals@.len(),
                name@ == ident@,
                i <= n,
                self.globals@ == old(self).globals@,
                self.rules == old(self).rules,
                self.max_matches_per_pattern == old(self).max_matches_per_pattern,
                forall|k: int| 0 <= k < i ==> (#[trigger] self.rules.global_names@[k])@ != ident@,
            decreases n - i,
        {
            if self.rules.global_names[i] == name {
                let current = self.globals[i];
                let ok = match (current, value) {
                    (Value::Bool(_), Value::Bool(_)) => true,
                    (Value::Int(_), Value::Int(_)) => true,
                    _ => false,
                };
                if !ok {
                    proof {
                        assert(old(self).rules().global_names@[i as int]@ == ident@);
                        assert(!same_type(old(self).globals()[i as int], value));
                    }
                    return Err(VariableError::InvalidType);
                }
                let ghost g0 = self.globals@;
                self.globals.set(i, value);
                proof {
                    assert(old(self).rules().global_names@[i as int]@ == ident@);
                    assert(same_type(old(self).globals()[i as int], value));
                    assert(self.globals() == g0.update(i as int, value));
                }
                return Ok(());
            }
            i = i + 1;
        }
        Err(VariableError::Unknown)
    }

    /// Scans `data`: finds the matches of every pattern, then evaluates the
    /// rules over them and the current globals.
    pub fn scan(&mut self, data: &[u8]) -> (r: ScanResults)
        requires
            old(self).rules().wf(),
        ensures
            final(self).rules() == old(self).rules(),
            final(self).globals() == old(self).globals(),
            final(self).max_matches() == old(self).max_matches(),
            scan_ok(old(self).rules(), old(self).globals(), data@, old(self).max_matches(), r),
    {
        let rules = self.rules;
        let max = self.max_matches_per_pattern;
        let np = rules.patterns.len();
        let mut matches: Vec<Vec<Match>> = Vec::new();
        let mut matched: Vec<bool> = Vec::new();
        let mut counts: Vec<u64> = Vec::new();
        let mut p: usize = 0;
        while p < np
            invariant
                np == rules.patterns@.len(),
                p <= np,
                rules == self.rules,
                self.rules == old(self).rules,
                self.globals == old(self).globals,
                self.max_matches_per_pattern == old(self).max_matches_per_pattern,
                max == self.max_matches_per_pattern,
                matches@.len() == p,
                matched@.len() == p,
                forall|q: int| 0 <= q < p ==> #[trigger] matched@[q]
                    == (hits(rules.patterns@[q], data@, search_limit(rules.patterns@[q], data@)).len() > 0),
                counts@ == matches@.map_values(|ms: Vec<Match>| ms@.len() as u64),
                forall|q: int| 0 <= q < p ==> matches_ok(rules.patterns@[q].code@, data@, #[trigger] matches@[q]@, max as nat),
                forall|q: int| 0 <= q < p ==> #[trigger] matches@[q]@
                    == take_upto(hits(rules.patterns@[q], data@, search_limit(rules.patterns@[q], data@)), max as nat),
            decreases np - p,
        {
            // With a cap of zero one match is still looked for, so that the
            // pattern counts as matching.
            let eff: usize = if max == 0 { 1 } else { max };
            let found = search_pattern(&mut self.vm, &rules.patterns[p], data, eff);
            let ghost h = hits(rules.patterns@[p as int], data@, search_limit(rules.patterns@[p as int], data@));
            let any = found.len() > 0;
            let ms = if max == 0 { Vec::new() } else { found };
            proof {
                assert(any == (h.len() > 0));
                if max == 0 {
                    assert(ms@ =~= take_upto(h, 0));
                }
            }
            let ghost before = matches@;
            let ghost mbefore = matched@;
            matched.push(any);
            counts.push(ms.len() as u64);
            matches.push(ms);
            proof {
                assert forall|q: int| 0 <= q < p + 1 implies #[trigger] matched@[q]
                    == (hits(rules.patterns@[q], data@, search_limit(rules.patterns@[q], data@)).len() > 0) by {
                    if q < p {
                        assert(matched@[q] == mbefore[q]);
                    }
                }
                assert(counts@ =~= matches@.map_values(|ms: Vec<Match>| ms@.len() as u64));
                assert forall|q: int| 0 <= q < p + 1 implies matches_ok(rules.patterns@[q].code@, data@, #[trigger] matches@[q]@, max as nat) by {
                    if q < p {
                        assert(matches@[q] == before[q]);
                    }
                }
                assert forall|q: int| 0 <= q < p + 1 implies #[trigger] matches@[q]@
                    == take_upto(hits(rules.patterns@[q], data@, search_limit(rules.patterns@[q], data@)), max as nat) by {
                    if q < p {
                        assert(matches@[q] == before[q]);
                    }
                }
            }
            p = p + 1;
        }
        let filesize: i64 = if (data.len() as u64) <= 0x7fff_ffff_ffff_ffffu64 { data.len() as i64 } else { 0x7fff_ffff_ffff_ffff };
        let mut globals: Vec<Value> = Vec::new();
        let mut g: usize = 0;
        while g < self.globals.len()
            invariant
                g <= self.globals@.len(),
                globals@ == self.globals@.subrange(0, g as int),
            decreases self.globals@.len() - g,
        {
            globals.push(self.globals[g]);
            proof {
                assert(globals@ =~= self.globals@.subrange(0, g + 1));
            }
            g = g + 1;
        }
        proof {
            assert(self.globals@.subrange(0, self.globals@.len() as int) =~= self.globals@);
        }
        let ctx = EvalContext { matched, counts, filesize, globals };
        let (matching, non_matching) = evaluate(&rules.rules, rules.namespaces.len(), &ctx);
        ScanResults { matching, non_matching, matches, matched: ctx.matched }
    }
}

proof fn lemma_rules_where(rules: Seq<CompiledRule>, ctx: ContextView, n: nat, want: bool)
    requires
        n <= usize::MAX,
    ensures
        forall|k: int| 0 <= k < rules_where(rules, ctx, n, want).len() ==> (#[trigger] rules_where(rules, ctx, n, want)[k]) < n,
        forall|i: int| 0 <= i < n ==> (rules_where(rules, ctx, n, want).contains(i as usize)
            <==> #[trigger] rule_matches(rules, ctx, i) == want),
    decreases n,
{
    if n > 0 {
        let m = (n - 1) as nat;
        lemma_rules_where(rules, ctx, m, want);
        let prev = rules_where(rules, ctx, m, want);
        let cur = rules_where(rules, ctx, n, want);
        let last = m as int;
        assert forall|k: int| 0 <= k < cur.len() implies (#[trigger] cur[k]) < n by {
            if k < prev.len() {
                assert(cur[k] == prev[k]);
            }
        }
        assert forall|i: int| 0 <= i < n implies (cur.contains(i as usize)
            <==> #[trigger] rule_matches(rules, ctx, i) == want) by {
            if cur.contains(i as usize) {
                let k = choose|k: int| 0 <= k < cur.len() && cur[k] == i as usize;
                if k < prev.len() {
                    assert(cur[k] == prev[k]);
                    assert(prev.contains(i as usize));
                } else {
                    assert(i == last);
                }
            }
            if rule_matches(rules, ctx, i) == want {
                if i < last {
                    let k = choose|k: int| 0 <= k < prev.len() && prev[k] == i as usize;
                    assert(cur[k] == prev[k]);
                } else {
                    assert(cur[prev.len() as int] == i as usize);
                }
            }
        }
    }
}

/// Every rule of the set is reported either as matching or as not
/// matching, never both, and nothing else is reported.
pub proof fn matching_and_non_matching_partition_rules(
    rules: Rules,
    globals: Seq<Value>,
    data: Seq<u8>,
    max: nat,
    r: ScanResults,
)
    requires
        scan_ok(rules, globals, data, max, r),
        rules.rules@.len() <= usize::MAX,
    ensures
        forall|i: int| 0 <= i < rules.rules@.len() ==> (#[trigger] r.matching@.contains(i as usize)) != r.non_matching@.contains(i as usize),
        forall|k: int| 0 <= k < r.matching@.len() ==> (#[trigger] r.matching@[k]) < rules.rules@.len(),
        forall|k: int| 0 <= k < r.non_matching@.len() ==> (#[trigger] r.non_matching@[k]) < rules.rules@.len(),
{
    let ctx = scan_context(globals, data, r);
    let n = rules.rules@.len();
    lemma_rules_where(rules.rules@, ctx, n, true);
    lemma_rules_where(rules.rules@, ctx, n, false);
    assert forall|i: int| 0 <= i < n implies (#[trigger] r.matching@.contains(i as usize)) != r.non_matching@.contains(i as usize) by {
        assert(r.matching@.contains(i as usize) <==> rule_matches(rules.rules@, ctx, i) == true);
        assert(r.non_matching@.contains(i as usize) <==> rule_matches(rules.rules@, ctx, i) == false);
    }
}

proof fn lemma_suppressed_by(rules: Seq<CompiledRule>, ctx: ContextView, n: nat, g: int)
    requires
        0 <= g < n,
        rules[g].global,
        !rule_holds(rules, ctx, g),
    ensures
        suppressed_upto(rules, ctx, n, rules[g].namespace),
    decreases n,
{
    if g < n - 1 {
        lemma_suppressed_by(rules, ctx, (n - 1) as nat, g);
    }
}

/// When a global rule's condition fails, no rule of its namespace matches.
pub proof fn failing_global_rule_suppresses_namespace(
    rules: Rules,
    globals: Seq<Value>,
    data: Seq<u8>,
    max: nat,
    r: ScanResults,
    g: int,
)
    requires
        scan_ok(rules, globals, data, max, r),
        rules.rules@.len() <= usize::MAX,
        0 <= g < rules.rules@.len(),
        rules.rules@[g].global,
        !rule_holds(rules.rules@, scan_context(globals, data, r), g),
    ensures
        forall|k: int| 0 <= k < r.matching@.len() ==> rules.rules@[#[trigger] r.matching@[k] as int].namespace
            != rules.rules@[g].namespace,
{
    let ctx = scan_context(globals, data, r);
    let n = rules.rules@.len();
    lemma_rules_where(rules.rules@, ctx, n, true);
    lemma_suppressed_by(rules.rules@, ctx, n, g);
    assert forall|k: int| 0 <= k < r.matching@.len() implies rules.rules@[#[trigger] r.matching@[k] as int].namespace
        != rules.rules@[g].namespace by {
        let i = r.matching@[k] as int;
        assert(r.matching@.contains(i as usize));
        assert(rule_matches(rules.rules@, ctx, i));
    }
}

/// Every reported match lies inside the data, and the pattern's program,
/// run from the match's offset, accepts exactly its bytes.
pub proof fn reported_matches_are_accepted(
    rules: Rules,
    globals: Seq<Value>,
    data: Seq<u8>,
    max: nat,
    r: ScanResults,
    p: int,
    k: int,
)
    requires
        scan_ok(rules, globals, data, max, r),
        0 <= p < r.matches@.len(),
        0 <= k < r.matches@[p]@.len(),
    ensures
        r.matches@[p]@[k].offset + r.matches@[p]@[k].length <= data.len(),
        accepts(
            rules.patterns@[p].code@,
            0,
            data.subrange(r.matches@[p]@[k].offset as int, data.len() as int),
            before_at(data, r.matches@[p]@[k].offset as int),
            r.matches@[p]@[k].length as nat,
        ),
{
    assert(matches_ok(rules.patterns@[p].code@, data, r.matches@[p]@, max));
    assert(match_ok(rules.patterns@[p].code@, data, r.matches@[p]@[k]));
}

/// Two scans of the same data, with the same globals, that find the same
/// pattern matches report the same matching and non-matching rules.
pub proof fn scans_with_equal_matches_agree(
    rules: Rules,
    globals: Seq<Value>,
    data: Seq<u8>,
    max: nat,
    r1: ScanResults,
    r2: ScanResults,
)
    requires
        scan_ok(rules, globals, data, max, r1),
        scan_ok(rules, globals, data, max, r2),
        r1.matches@.map_values(|ms: Vec<Match>| ms@) == r2.matches@.map_values(|ms: Vec<Match>| ms@),
    ensures
        r1.matching@ == r2.matching@,
        r1.non_matching@ == r2.non_matching@,
{
    let a = r1.matches@.map_values(|ms: Vec<Match>| ms@);
    let b = r2.matches@.map_values(|ms: Vec<Match>| ms@);
    assert(r1.matches@.len() == r2.matches@.len()) by {
        assert(a.len() == b.len());
    }
    assert forall|i: int| 0 <= i < r1.matches@.len() implies r1.matches@[i]@ == r2.matches@[i]@ by {
        assert(a[i] == b[i]);
    }
    assert(scan_context(globals, data, r1).matched =~= scan_context(globals, data, r2).matched) by {
        assert forall|p: int| 0 <= p < r1.matched@.len() implies r1.matched@[p] == r2.matched@[p] by {}
    }
    assert(scan_context(globals, data, r1).counts =~= scan_context(globals, data, r2).counts);
    assert(scan_context(globals, data, r1) == scan_context(globals, data, r2));
}

/// Scanning is repeatable: two scans of the same data with the same globals
/// report the same matches and the same rules.
pub proof fn repeated_scans_agree(
    rules: Rules,
    globals: Seq<Value>,
    data: Seq<u8>,
    max: nat,
    r1: ScanResults,
    r2: ScanResults,
)
    requires
        scan_ok(rules, globals, data, max, r1),
        scan_ok(rules, globals, data, max, r2),
    ensures
        r1.matches@.map_values(|ms: Vec<Match>| ms@) == r2.matches@.map_values(|ms: Vec<Match>| ms@),
        r1.matching@ == r2.matching@,
        r1.non_matching@ == r2.non_matching@,
{
    assert forall|p: int| 0 <= p < r1.matches@.len() implies r1.matches@[p]@ == r2.matches@[p]@ by {
        assert(r1.matches@[p]@ == r2.matches@[p]@);
    }
    assert(r1.matches@.map_values(|ms: Vec<Match>| ms@) =~= r2.matches@.map_values(|ms: Vec<Match>| ms@));
    scans_with_equal_matches_agree(rules, globals, data, max, r1, r2);
}

/// Running the pattern's program again from a reported match's offset gives
/// back that match's length: every result that `PikeVM::try_match` may
/// return there is `Some(length)`.
pub proof fn rerun_gives_reported_length(
    rules: Rules,
    globals: Seq<Value>,
    data: Seq<u8>,
    max: nat,
    r: ScanResults,
    p: int,
    k: int,
    res: Option<usize>,
)
    requires
        scan_ok(rules, globals, data, max, r),
        0 <= p < r.matches@.len(),
        0 <= k < r.matches@[p]@.len(),
        match res {
            Some(n) => shortest_accept(
                rules.patterns@[p].code@,
                0,
                data.subrange(r.matches@[p]@[k].offset as int, data.len() as int),
                before_at(data, r.matches@[p]@[k].offset as int),
                n as nat,
            ),
            None => forall|n: nat| !accepts(
                rules.patterns@[p].code@,
                0,
                data.subrange(r.matches@[p]@[k].offset as int, data.len() as int),
                before_at(data, r.matches@[p]@[k].offset as int),
                n,
            ),
        },
    ensures
        res == Some(r.matches@[p]@[k].length),
{
    let m = r.matches@[p]@[k];
    let code = rules.patterns@[p].code@;
    let fwd = data.subrange(m.offset as int, data.len() as int);
    let before = before_at(data, m.offset as int);
    assert(matches_ok(code, data, r.matches@[p]@, max));
    assert(match_ok(code, data, m));
    assert(shortest_accept(code, 0, fwd, before, m.length as nat));
    if let Some(n) = res {
        if (n as nat) < (m.length as nat) {
            assert(!accepts(code, 0, fwd, before, n as nat));
        } else if (m.length as nat) < (n as nat) {
            assert(!accepts(code, 0, fwd, before, m.length as nat));
        }
    } else {
        assert(!accepts(code, 0, fwd, before, m.length as nat));
    }
}

proof fn lemma_literal_accepted_len(lit: Seq<u8>, fwd: Seq<u8>, before: Option<u8>)
    ensures
        accepted_len(literal_code(lit, true).push(OP_MATCH), fwd, before) == (if literal_prefix(lit, fwd, lit.len(), true) {
            Some(lit.len())
        } else {
            None
        }),
{
    let code = literal_code(lit, true).push(OP_MATCH);
    assert forall|k: nat| #[trigger] shortest_accept(code, 0, fwd, before, k) <==> (k == lit.len() && literal_prefix(lit,
        fwd, k, true)) by {
        literal_program_accepts(lit, true, fwd, before, k);
        if k == lit.len() && literal_prefix(lit, fwd, k, true) {
            assert forall|j: nat| j < k implies !#[trigger] accepts(code, 0, fwd, before, j) by {
                literal_program_accepts(lit, true, fwd, before, j);
            }
        }
    }
    if literal_prefix(lit, fwd, lit.len(), true) {
        assert(shortest_accept(code, 0, fwd, before, lit.len()));
    }
}

/// For a pattern written as a text without case, the reported matches do
/// not change when letters of the input change case: two inputs that differ
/// only in the case of ASCII letters give the same matches.
pub proof fn nocase_matches_closed_under_case(p: CompiledPattern, lit: Seq<u8>, d1: Seq<u8>, d2: Seq<u8>, max: nat)
    requires
        p.code@ == literal_code(lit, true).push(OP_MATCH),
        p.nocase,
        d1.len() == d2.len(),
        forall|i: int| 0 <= i < d1.len() ==> lower(#[trigger] d1[i]) == lower(d2[i]),
    ensures
        take_upto(hits(p, d1, search_limit(p, d1)), max) == take_upto(hits(p, d2, search_limit(p, d2)), max),
{
    lemma_hits_case(p, lit, d1, d2, search_limit(p, d1));
}

proof fn lemma_hits_case(p: CompiledPattern, lit: Seq<u8>, d1: Seq<u8>, d2: Seq<u8>, n: nat)
    requires
        p.code@ == literal_code(lit, true).push(OP_MATCH),
        p.nocase,
        d1.len() == d2.len(),
        forall|i: int| 0 <= i < d1.len() ==> lower(#[trigger] d1[i]) == lower(d2[i]),
        n <= search_limit(p, d1),
    ensures
        hits(p, d1, n) == hits(p, d2, n),
    decreases n,
{
    if n > 0 {
        lemma_hits_case(p, lit, d1, d2, (n - 1) as nat);
        let i = n - 1;
        if i >= p.backtrack {
            assert(atom_at(d1, i, p.atom@, true) == atom_at(d2, i, p.atom@, true)) by {
                if atom_at(d1, i, p.atom@, true) {
                    assert forall|k: int| 0 <= k < p.atom@.len() implies same_byte(#[trigger] d2[i + k], p.atom@[k], true) by {
                        assert(same_byte(d1[i + k], p.atom@[k], true));
                    }
                }
                if atom_at(d2, i, p.atom@, true) {
                    assert forall|k: int| 0 <= k < p.atom@.len() implies same_byte(#[trigger] d1[i + k], p.atom@[k], true) by {
                        assert(same_byte(d2[i + k], p.atom@[k], true));
                    }
                }
            }
            let st = i - p.backtrack;
            let f1 = d1.subrange(st, d1.len() as int);
            let f2 = d2.subrange(st, d2.len() as int);
            lemma_literal_accepted_len(lit, f1, before_at(d1, st));
            lemma_literal_accepted_len(lit, f2, before_at(d2, st));
            assert(literal_prefix(lit, f1, lit.len(), true) == literal_prefix(lit, f2, lit.len(), true)) by {
                if literal_prefix(lit, f1, lit.len(), true) {
                    assert forall|j: int| 0 <= j < lit.len() implies same_byte(#[trigger] f2[j], lit[j], true) by {
                        assert(same_byte(f1[j], lit[j], true));
                        assert(0 <= st + j < d1.len());
                        assert(f1[j] == d1[st + j] && f2[j] == d2[st + j]);
                        assert(lower(d1[st + j]) == lower(d2[st + j]));
                    }
                }
                if literal_prefix(lit, f2, lit.len(), true) {
                    assert forall|j: int| 0 <= j < lit.len() implies same_byte(#[trigger] f1[j], lit[j], true) by {
                        assert(same_byte(f2[j], lit[j], true));
                        assert(0 <= st + j < d1.len());
                        assert(f1[j] == d1[st + j] && f2[j] == d2[st + j]);
                        assert(lower(d1[st + j]) == lower(d2[st + j]));
                    }
                }
            }
            assert(candidate(p, d1, i) == candidate(p, d2, i));
        }
    }
}

/// Two scans of inputs that differ only in the case of ASCII letters report
/// the same matches for a pattern written as a text without case.
pub proof fn nocase_scans_agree(
    rules: Rules,
    g1: Seq<Value>,
    g2: Seq<Value>,
    d1: Seq<u8>,
    d2: Seq<u8>,
    max: nat,
    r1: ScanResults,
    r2: ScanResults,
    p: int,
    lit: Seq<u8>,
)
    requires
        scan_ok(rules, g1, d1, max, r1),
        scan_ok(rules, g2, d2, max, r2),
        0 <= p < rules.patterns@.len(),
        rules.patterns@[p].code@ == literal_code(lit, true).push(OP_MATCH),
        rules.patterns@[p].nocase,
        d1.len() == d2.len(),
        forall|i: int| 0 <= i < d1.len() ==> lower(#[trigger] d1[i]) == lower(d2[i]),
    ensures
        r1.matches@[p]@ == r2.matches@[p]@,
{
    nocase_matches_closed_under_case(rules.patterns@[p], lit, d1, d2, max);
}

} // verus!
