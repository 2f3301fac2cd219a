//! A Pike VM: runs the pattern byte code over the input with one list of
//! threads per input position, each thread an instruction pointer.

use vstd::prelude::*;
use crate::marks::{count_unvisited, lemma_mark_visited, unvisited};
use crate::re_code::{
    accepts, advances, assertion_holds, byte_at, shortest_accept, consumes, decode_instr, eps_reach, eps_step, instr_at,
    is_eps_path, is_leaf, ranges_contain, reach, word_at, Instr,
};

verus! {

/// Executes pattern byte code. The thread lists are kept between runs to
/// reuse their storage.
pub struct PikeVM {
    /// The threads at the current input position. No two share an
    /// instruction.
    threads: Vec<usize>,
    /// The threads for the next input position.
    next_threads: Vec<usize>,
}

/// Whether `b` is a word byte.
fn is_word(b: Option<u8>) -> (r: bool)
    ensures
        r == word_at(b),
{
    match b {
        Some(x) => (0x61 <= x && x <= 0x7a) || (0x41 <= x && x <= 0x5a) || (0x30 <= x && x <= 0x39) || x == 0x5f,
        None => false,
    }
}

/// Whether an assertion instruction holds between `prev` and `cur`.
fn check_assertion(i: Instr, cur: Option<u8>, prev: Option<u8>) -> (r: bool)
    ensures
        r == assertion_holds(i, cur, prev),
{
    match i {
        Instr::WordBoundary => is_word(prev) != is_word(cur),
        Instr::NonWordBoundary => is_word(prev) == is_word(cur),
        Instr::LineStart => match prev {
            None => true,
            Some(p) => p == 0x0a,
        },
        Instr::LineEnd => match cur {
            None => true,
            Some(c) => c == 0x0a,
        },
        Instr::Eoi => cur.is_none(),
        _ => false,
    }
}

/// Whether the instruction `i`, decoded at `ip`, consumes `b`.
fn check_consumes(code: &[u8], ip: usize, i: Instr, n: usize, b: u8) -> (r: bool)
    requires
        instr_at(code@, ip as int) == Some((i, n as int)),
    ensures
        r == consumes(code@, ip as int, b),
{
    match i {
        Instr::AnyByte => true,
        Instr::Byte(e) => b == e,
        Instr::MaskedByte(e, m) => b & m == e,
        Instr::ClassRanges { at, n } => ranges_contain(code, at, n, b),
        Instr::ClassBitmap { at } => {
            let clen = code.len();
            assert(at + 32 <= clen);
            let byte = code[at + (b / 8) as usize];
            (byte >> (b % 8)) & 1 == 1
        },
        _ => false,
    }
}

/// The instruction `ip + d`, when it lies inside the code.
fn jump_target(len: usize, ip: usize, d: i32) -> (r: Option<usize>)
    ensures
        match r {
            Some(t) => t == ip + d && t < len,
            None => !(0 <= ip + d < len),
        },
{
    let t: i128 = ip as i128 + d as i128;
    if 0 <= t && t < len as i128 {
        Some(t as usize)
    } else {
        None
    }
}

proof fn lemma_path_extend(code: Seq<u8>, p: Seq<int>, to: int, cur: Option<u8>, prev: Option<u8>)
    requires
        is_eps_path(code, p, cur, prev),
        eps_step(code, p.last(), to, cur, prev),
    ensures
        is_eps_path(code, p.push(to), cur, prev),
        p.push(to)[0] == p[0],
        p.push(to).last() == to,
{
    let q = p.push(to);
    assert forall|k: int| 0 <= k < q.len() - 1 implies eps_step(code, #[trigger] q[k], q[k + 1], cur, prev) by {
        if k < p.len() - 1 {
            assert(q[k] == p[k] && q[k + 1] == p[k + 1]);
        } else {
            assert(q[k] == p.last());
        }
    }
}

/// The new entries of `list` from `from` on rest at leaves reachable from
/// `start` without reading input.
pub open spec fn closure_sound(code: Seq<u8>, start: int, list: Seq<usize>, from: int, cur: Option<u8>, prev: Option<u8>) -> bool {
    forall|k: int| from <= k < list.len() ==> is_leaf(code, #[trigger] list[k] as int)
        && eps_reach(code, start, list[k] as int, cur, prev)
}

/// Every successor, without reading input, of an instruction that `cache`
/// marks lies outside the code, is marked, or waits on `stack`.
pub open spec fn closed_under(code: Seq<u8>, cache: Seq<bool>, stack: Seq<usize>, cur: Option<u8>, prev: Option<u8>) -> bool {
    forall|v: int, w: int|
        0 <= v < cache.len() && cache[v] && #[trigger] eps_step(code, v, w, cur, prev) ==> !(0 <= w < cache.len())
            || cache[w] || stack.contains(w as usize)
}

/// Every successor of `ip` inside the code is in `pushed`.
pub open spec fn succs_covered(code: Seq<u8>, ip: int, pushed: Seq<usize>, cur: Option<u8>, prev: Option<u8>) -> bool {
    forall|w: int| #[trigger] eps_step(code, ip, w, cur, prev) && 0 <= w < code.len() ==> pushed.contains(w as usize)
}

/// Every leaf that `cache` marks is in `list`.
pub open spec fn leaves_listed(code: Seq<u8>, cache: Seq<bool>, list: Seq<usize>) -> bool {
    forall|v: int| 0 <= v < cache.len() && cache[v] && #[trigger] is_leaf(code, v) ==> list.contains(v as usize)
}

/// Marks only grow.
pub open spec fn marks_grow(a: Seq<bool>, b: Seq<bool>) -> bool {
    a.len() == b.len() && forall|v: int| 0 <= v < a.len() && a[v] ==> #[trigger] b[v]
}

proof fn lemma_skip(code: Seq<u8>, cache: Seq<bool>, rest: Seq<usize>, ip: int, cur: Option<u8>, prev: Option<u8>)
    requires
        closed_under(code, cache, rest.push(ip as usize), cur, prev),
        !(0 <= ip < cache.len()) || cache[ip],
        0 <= ip <= usize::MAX,
        cache.len() <= usize::MAX,
    ensures
        closed_under(code, cache, rest, cur, prev),
{
    assert forall|v: int, w: int| 0 <= v < cache.len() && cache[v] && #[trigger] eps_step(code, v, w, cur, prev)
        implies !(0 <= w < cache.len()) || cache[w] || rest.contains(w as usize) by {
        if 0 <= w < cache.len() && !cache[w] {
            let sp = rest.push(ip as usize);
            assert(sp.contains(w as usize));
            let k = choose|k: int| 0 <= k < sp.len() && sp[k] == w as usize;
            if k < rest.len() {
                assert(rest[k] == w as usize);
            } else {
                assert(w as usize == ip as usize);
                assert(w == ip);
            }
        }
    }
}

proof fn lemma_visit(
    code: Seq<u8>,
    cache: Seq<bool>,
    rest: Seq<usize>,
    ip: int,
    pushed: Seq<usize>,
    cur: Option<u8>,
    prev: Option<u8>,
)
    requires
        closed_under(code, cache, rest.push(ip as usize), cur, prev),
        0 <= ip < cache.len(),
        cache.len() <= usize::MAX,
        cache.len() == code.len(),
        succs_covered(code, ip, pushed, cur, prev),
    ensures
        closed_under(code, cache.update(ip, true), rest + pushed, cur, prev),
{
    let c2 = cache.update(ip, true);
    let st = rest + pushed;
    assert forall|v: int, w: int| 0 <= v < c2.len() && c2[v] && #[trigger] eps_step(code, v, w, cur, prev)
        implies !(0 <= w < c2.len()) || c2[w] || st.contains(w as usize) by {
        if 0 <= w < c2.len() && !c2[w] {
            if v == ip {
                let k = choose|k: int| 0 <= k < pushed.len() && pushed[k] == w as usize;
                assert(st[rest.len() + k] == w as usize);
            } else {
                assert(cache[v]);
                let sp = rest.push(ip as usize);
                assert(sp.contains(w as usize));
                let k = choose|k: int| 0 <= k < sp.len() && sp[k] == w as usize;
                if k < rest.len() {
                    assert(st[k] == w as usize);
                } else {
                    assert(w == ip);
                }
            }
        }
    }
}

proof fn lemma_path_visited(code: Seq<u8>, cache: Seq<bool>, p: Seq<int>, k: int, cur: Option<u8>, prev: Option<u8>)
    requires
        cache.len() == code.len(),
        closed_under(code, cache, Seq::empty(), cur, prev),
        is_eps_path(code, p, cur, prev),
        !(0 <= p[0] < cache.len()) || cache[p[0]],
        0 <= k < p.len(),
    ensures
        !(0 <= p[k] < cache.len()) || cache[p[k]],
    decreases k,
{
    if k > 0 {
        lemma_path_visited(code, cache, p, k - 1, cur, prev);
        assert(eps_step(code, p[k - 1], p[k], cur, prev));
        if 0 <= p[k - 1] < cache.len() {
            assert(!(0 <= p[k] < cache.len()) || cache[p[k]] || Seq::<usize>::empty().contains(p[k] as usize));
        } else {
            assert(instr_at(code, p[k - 1]).is_none());
        }
    }
}

/// Once the marks are closed, every leaf reachable from a marked (or
/// outside) start is listed.
proof fn lemma_reachable_listed(
    code: Seq<u8>,
    cache: Seq<bool>,
    list: Seq<usize>,
    from: int,
    t: int,
    cur: Option<u8>,
    prev: Option<u8>,
)
    requires
        cache.len() == code.len(),
        closed_under(code, cache, Seq::empty(), cur, prev),
        leaves_listed(code, cache, list),
        !(0 <= from < cache.len()) || cache[from],
        eps_reach(code, from, t, cur, prev),
        is_leaf(code, t),
    ensures
        list.contains(t as usize),
{
    let p = choose|p: Seq<int>| is_eps_path(code, p, cur, prev) && p[0] == from && p.last() == t;
    lemma_path_visited(code, cache, p, p.len() - 1, cur, prev);
    assert(instr_at(code, t).is_some());
}

/// Adds to `list`, in order of priority, the leaves reachable from `start`
/// without reading input, skipping the instructions that `cache` marks as
/// already visited at this position, and marks those it visits.
fn epsilon_closure(
    code: &[u8],
    start: usize,
    cur: Option<u8>,
    prev: Option<u8>,
    cache: &mut Vec<bool>,
    list: &mut Vec<usize>,
)
    requires
        old(cache)@.len() == code@.len(),
        closed_under(code@, old(cache)@, Seq::empty(), cur, prev),
        leaves_listed(code@, old(cache)@, old(list)@),
    ensures
        final(cache)@.len() == code@.len(),
        final(list)@.len() >= old(list)@.len(),
        final(list)@.subrange(0, old(list)@.len() as int) == old(list)@,
        closure_sound(code@, start as int, final(list)@, old(list)@.len() as int, cur, prev),
        closed_under(code@, final(cache)@, Seq::empty(), cur, prev),
        leaves_listed(code@, final(cache)@, final(list)@),
        marks_grow(old(cache)@, final(cache)@),
        start < code@.len() ==> final(cache)@[start as int],
{
    let len = code.len();
    let ghost n0 = list@.len();
    let mut stack: Vec<usize> = Vec::new();
    let ghost mut paths: Seq<Seq<int>> = Seq::empty();
    stack.push(start);
    proof {
        paths = seq![seq![start as int]];
        assert(is_eps_path(code@, paths[0], cur, prev));
        assert(stack@[0] == start);
        assert forall|v: int, w: int| 0 <= v < cache@.len() && cache@[v] && #[trigger] eps_step(code@, v, w, cur, prev)
            implies !(0 <= w < cache@.len()) || cache@[w] || stack@.contains(w as usize) by {
            assert(!(0 <= w < cache@.len()) || cache@[w] || Seq::<usize>::empty().contains(w as usize));
        }
    }
    while stack.len() > 0
        invariant
            len == code@.len(),
            cache@.len() == code@.len(),
            paths.len() == stack@.len(),
            forall|k: int| 0 <= k < stack@.len() ==> is_eps_path(code@, #[trigger] paths[k], cur, prev)
                && paths[k][0] == start && paths[k].last() == stack@[k] as int,
            list@.len() >= n0,
            list@.subrange(0, n0 as int) == old(list)@,
            n0 == old(list)@.len(),
            closure_sound(code@, start as int, list@, n0 as int, cur, prev),
            closed_under(code@, cache@, stack@, cur, prev),
            leaves_listed(code@, cache@, list@),
            marks_grow(old(cache)@, cache@),
            start < len ==> cache@[start as int] || stack@.contains(start),
            start < len && !cache@[start as int] ==> stack@ == seq![start],
        decreases count_unvisited(cache@), stack@.len(),
    {
        let ghost old_stack = stack@;
        let ip = stack.pop().unwrap();
        let ghost rest = stack@;
        let ghost p = paths.last();
        proof {
            paths = paths.drop_last();
            assert(is_eps_path(code@, p, cur, prev) && p[0] == start && p.last() == ip);
            assert(old_stack == rest.push(ip));
        }
        if ip >= len || cache[ip] {
            proof {
                lemma_skip(code@, cache@, rest, ip as int, cur, prev);
                if start < len && !cache@[start as int] {
                    assert(old_stack == seq![start]);
                }
            }
            continue;
        }
        proof {
            lemma_mark_visited(cache@, ip as int);
            if start < len && !cache@[start as int] {
                assert(old_stack == seq![start]);
            }
        }
        let ghost before_cache = cache@;
        let ghost before_list = list@;
        cache.set(ip, true);
        proof {
            assert forall|v: int| 0 <= v < old(cache)@.len() && old(cache)@[v] implies #[trigger] cache@[v] by {
                assert(before_cache[v]);
            }
        }
        match decode_instr(code, ip) {
            None => {
                proof {
                    assert(succs_covered(code@, ip as int, Seq::empty(), cur, prev));
                }
            },
            Some((Instr::Jump(d), _)) => {
                let jt = jump_target(len, ip, d);
                match jt {
                    Some(t) => {
                        stack.push(t);
                        proof {
                            lemma_path_extend(code@, p, t as int, cur, prev);
                            paths = paths.push(p.push(t as int));
                        }
                    },
                    None => {},
                }
                proof {
                    let pushed = stack@.subrange(rest.len() as int, stack@.len() as int);
                    assert forall|w: int| #[trigger] eps_step(code@, ip as int, w, cur, prev) && 0 <= w < code@.len()
                        implies pushed.contains(w as usize) by {
                        assert(pushed[0] == w as usize);
                    }
                }
            },
            Some((Instr::Split(a, b), _)) => {
                let jb = jump_target(len, ip, b);
                match jb {
                    Some(t) => {
                        stack.push(t);
                        proof {
                            lemma_path_extend(code@, p, t as int, cur, prev);
                            paths = paths.push(p.push(t as int));
                        }
                    },
                    None => {},
                }
                let ghost mid = stack@;
                let ja = jump_target(len, ip, a);
                match ja {
                    Some(t) => {
                        stack.push(t);
                        proof {
                            lemma_path_extend(code@, p, t as int, cur, prev);
                            paths = paths.push(p.push(t as int));
                        }
                    },
                    None => {},
                }
                proof {
                    let pushed = stack@.subrange(rest.len() as int, stack@.len() as int);
                    assert forall|w: int| #[trigger] eps_step(code@, ip as int, w, cur, prev) && 0 <= w < code@.len()
                        implies pushed.contains(w as usize) by {
                        if w == ip + b {
                            assert(pushed[0] == w as usize);
                        } else {
                            assert(pushed[pushed.len() - 1] == w as usize);
                        }
                    }
                }
            },
            Some((i, n)) => {
                if matches!(i, Instr::WordBoundary | Instr::NonWordBoundary | Instr::LineStart | Instr::LineEnd | Instr::Eoi) {
                    if check_assertion(i, cur, prev) {
                        let t = ip + n;
                        stack.push(t);
                        proof {
                            lemma_path_extend(code@, p, t as int, cur, prev);
                            paths = paths.push(p.push(t as int));
                        }
                    }
                    proof {
                        let pushed = stack@.subrange(rest.len() as int, stack@.len() as int);
                        assert forall|w: int| #[trigger] eps_step(code@, ip as int, w, cur, prev) && 0 <= w < code@.len()
                            implies pushed.contains(w as usize) by {
                            assert(pushed[0] == w as usize);
                        }
                    }
                } else {
                    let ghost before = list@;
                    list.push(ip);
                    proof {
                        assert(list@.subrange(0, n0 as int) =~= before.subrange(0, n0 as int));
                        assert(eps_reach(code@, start as int, ip as int, cur, prev));
                        assert(succs_covered(code@, ip as int, Seq::empty(), cur, prev));
                        assert(stack@.subrange(rest.len() as int, stack@.len() as int) =~= Seq::<usize>::empty());
                    }
                }
            },
        }
        proof {
            let pushed = stack@.subrange(rest.len() as int, stack@.len() as int);
            assert(stack@ =~= rest + pushed);
            lemma_visit(code@, before_cache, rest, ip as int, pushed, cur, prev);
            assert(cache@ == before_cache.update(ip as int, true));
            assert forall|v: int| 0 <= v < cache@.len() && cache@[v] && #[trigger] is_leaf(code@, v) implies list@.contains(v as usize) by {
                if v == ip {
                    assert(list@.last() == ip);
                } else {
                    assert(before_cache[v]);
                    let k = choose|k: int| 0 <= k < before_list.len() && before_list[k] == v as usize;
                    assert(list@[k] == before_list[k]);
                }
            }
        }
    }
}

proof fn lemma_reach_step(code: Seq<u8>, start: int, fwd: Seq<u8>, before: Option<u8>, k: nat, ip0: int, t: int)
    requires
        reach(code, start, fwd, before, k, ip0),
        advances(code, fwd, k, ip0, t),
        is_leaf(code, t),
    ensures
        reach(code, start, fwd, before, k + 1, t),
{
    let k1: nat = k + 1;
    assert((k1 - 1) as nat == k);
    assert(advances(code, fwd, (k1 - 1) as nat, ip0, t));
}

/// `list` holds every thread that can rest somewhere after reading `k`
/// bytes.
pub open spec fn complete(code: Seq<u8>, start: int, fwd: Seq<u8>, before: Option<u8>, k: nat, list: Seq<usize>) -> bool {
    forall|ip: int| #[trigger] reach(code, start, fwd, before, k, ip) ==> list.contains(ip as usize)
}

/// The thread at `ip` was handled at position `k`: it does not accept, and
/// when it reads byte `k`, the instruction after it has been explored.
pub open spec fn processed(code: Seq<u8>, fwd: Seq<u8>, k: nat, cache: Seq<bool>, ip: int) -> bool {
    &&& !(instr_at(code, ip) matches Some((Instr::Match, _)))
    &&& (k < fwd.len() && consumes(code, ip, fwd[k as int])) ==> {
        let next = ip + instr_at(code, ip).unwrap().1;
        !(0 <= next < cache.len()) || cache[next]
    }
}

proof fn lemma_fresh_marks(code: Seq<u8>, cache: Seq<bool>, list: Seq<usize>, cur: Option<u8>, prev: Option<u8>)
    requires
        forall|i: int| 0 <= i < cache.len() ==> !#[trigger] cache[i],
    ensures
        closed_under(code, cache, Seq::empty(), cur, prev),
        leaves_listed(code, cache, list),
{
}

proof fn lemma_step_no_accept(
    code: Seq<u8>,
    start: int,
    fwd: Seq<u8>,
    before: Option<u8>,
    k: nat,
    threads: Seq<usize>,
    cache: Seq<bool>,
)
    requires
        code.len() <= usize::MAX,
        complete(code, start, fwd, before, k, threads),
        forall|j: int| 0 <= j < threads.len() ==> #[trigger] processed(code, fwd, k, cache, threads[j] as int),
    ensures
        !accepts(code, start, fwd, before, k),
{
    if accepts(code, start, fwd, before, k) {
        let ip = choose|ip: int| reach(code, start, fwd, before, k, ip) && instr_at(code, ip) matches Some((Instr::Match, _));
        assert(threads.contains(ip as usize));
        let j = choose|j: int| 0 <= j < threads.len() && threads[j] == ip as usize;
        assert(processed(code, fwd, k, cache, threads[j] as int));
        assert(is_leaf(code, ip));
        assert(0 <= ip < code.len());
        assert(threads[j] as int == ip);
    }
}

proof fn lemma_step_next_complete(
    code: Seq<u8>,
    start: int,
    fwd: Seq<u8>,
    before: Option<u8>,
    k: nat,
    threads: Seq<usize>,
    cache: Seq<bool>,
    next: Seq<usize>,
)
    requires
        code.len() <= usize::MAX,
        cache.len() == code.len(),
        complete(code, start, fwd, before, k, threads),
        forall|j: int| 0 <= j < threads.len() ==> #[trigger] processed(code, fwd, k, cache, threads[j] as int),
        closed_under(code, cache, Seq::empty(), byte_at(fwd, (k + 1) as int), byte_at(fwd, k as int)),
        leaves_listed(code, cache, next),
    ensures
        complete(code, start, fwd, before, k + 1, next),
{
    assert forall|t: int| #[trigger] reach(code, start, fwd, before, k + 1, t) implies next.contains(t as usize) by {
        let k1: nat = k + 1;
        assert((k1 - 1) as nat == k);
        let ip0 = choose|ip0: int| reach(code, start, fwd, before, k, ip0) && #[trigger] advances(code, fwd, k, ip0, t);
        assert(threads.contains(ip0 as usize));
        let j = choose|j: int| 0 <= j < threads.len() && threads[j] == ip0 as usize;
        assert(is_leaf(code, ip0));
        assert(0 <= ip0 < code.len());
        assert(threads[j] as int == ip0);
        assert(processed(code, fwd, k, cache, ip0));
        assert(k < fwd.len() && consumes(code, ip0, fwd[k as int]));
        assert(byte_at(fwd, k as int) == Some(fwd[k as int]));
        lemma_reachable_listed(code, cache, next, ip0 + instr_at(code, ip0).unwrap().1, t, byte_at(fwd, (k + 1) as int), byte_at(fwd, k as int));
    }
}

proof fn lemma_no_reach_past_end(code: Seq<u8>, start: int, fwd: Seq<u8>, before: Option<u8>, k: nat)
    requires
        k > fwd.len(),
    ensures
        !accepts(code, start, fwd, before, k),
{
    if accepts(code, start, fwd, before, k) {
        let ip = choose|ip: int| reach(code, start, fwd, before, k, ip) && instr_at(code, ip) matches Some((Instr::Match, _));
        let ip0 = choose|ip0: int| reach(code, start, fwd, before, (k - 1) as nat, ip0) && #[trigger] advances(code, fwd, (k - 1) as nat, ip0, ip);
    }
}

proof fn lemma_no_reach_after(code: Seq<u8>, start: int, fwd: Seq<u8>, before: Option<u8>, k0: nat, k: nat)
    requires
        forall|ip: int| !#[trigger] reach(code, start, fwd, before, k0, ip),
        k >= k0,
    ensures
        forall|ip: int| !#[trigger] reach(code, start, fwd, before, k, ip),
        !accepts(code, start, fwd, before, k),
    decreases k - k0,
{
    if k > k0 {
        lemma_no_reach_after(code, start, fwd, before, k0, (k - 1) as nat);
        assert forall|ip: int| !#[trigger] reach(code, start, fwd, before, k, ip) by {
            if reach(code, start, fwd, before, k, ip) {
                let ip0 = choose|ip0: int| reach(code, start, fwd, before, (k - 1) as nat, ip0) && #[trigger] advances(code, fwd, (k - 1) as nat, ip0, ip);
            }
        }
    }
}

/// Every thread of `list` can rest where it is after reading `k` bytes.
pub open spec fn all_reach(code: Seq<u8>, start: int, fwd: Seq<u8>, before: Option<u8>, k: nat, list: Seq<usize>) -> bool {
    forall|j: int| 0 <= j < list.len() ==> reach(code, start, fwd, before, k, #[trigger] list[j] as int)
}

impl PikeVM {
    /// The VM holds no thread.
    pub closed spec fn is_idle(&self) -> bool {
        self.threads@.len() == 0 && self.next_threads@.len() == 0
    }

    /// Creates a VM with empty thread lists.
    pub fn new() -> (r: Self)
        ensures
            r.is_idle(),
    {
        PikeVM { threads: Vec::new(), next_threads: Vec::new() }
    }

    /// Moves every thread over byte `pos` of `fwd`, into the next list.
    /// Returns whether a thread accepts first, which stops the move.
    fn advance(&mut self, code: &[u8], start: usize, fwd: &[u8], Ghost(before): Ghost<Option<u8>>, pos: usize) -> (found: bool)
        requires
            pos <= fwd@.len(),
            old(self).next_threads@.len() == 0,
            all_reach(code@, start as int, fwd@, before, pos as nat, old(self).threads@),
        ensures
            final(self).threads@ == old(self).threads@,
            all_reach(code@, start as int, fwd@, before, (pos + 1) as nat, final(self).next_threads@),
            final(self).next_threads@.len() > 0 ==> pos < fwd@.len(),
            found ==> accepts(code@, start as int, fwd@, before, pos as nat),
            !found && complete(code@, start as int, fwd@, before, pos as nat, old(self).threads@) ==> !accepts(
                code@, start as int, fwd@, before, pos as nat) && complete(code@, start as int, fwd@, before, (pos + 1) as nat,
                final(self).next_threads@),
    {
        let len = code.len();
        let flen = fwd.len();
        let byte: Option<u8> = if pos < flen { Some(fwd[pos]) } else { None };
        let next_byte: Option<u8> = if pos < flen && flen - pos > 1 { Some(fwd[pos + 1]) } else { None };
        let mut cache = unvisited(len);
        proof {
            lemma_fresh_marks(code@, cache@, self.next_threads@, next_byte, byte);
        }
        let ghost threads0 = self.threads@;
        let mut found = false;
        let mut i: usize = 0;
        while i < self.threads.len()
            invariant
                self.threads@ == threads0,
                len == code@.len(),
                flen == fwd@.len(),
                pos <= flen,
                cache@.len() == len,
                i <= self.threads@.len(),
                byte == byte_at(fwd@, pos as int),
                next_byte == byte_at(fwd@, pos + 1),
                all_reach(code@, start as int, fwd@, before, pos as nat, self.threads@),
                self.next_threads@.len() > 0 ==> pos < flen,
                all_reach(code@, start as int, fwd@, before, (pos + 1) as nat, self.next_threads@),
                found ==> accepts(code@, start as int, fwd@, before, pos as nat),
                closed_under(code@, cache@, Seq::empty(), next_byte, byte),
                leaves_listed(code@, cache@, self.next_threads@),
                !found ==> forall|j: int| 0 <= j < i ==> #[trigger] processed(code@, fwd@, pos as nat, cache@, self.threads@[j] as int),
            ensures
                self.threads@ == threads0,
                all_reach(code@, start as int, fwd@, before, (pos + 1) as nat, self.next_threads@),
                self.next_threads@.len() > 0 ==> pos < flen,
                found ==> accepts(code@, start as int, fwd@, before, pos as nat),
                !found ==> i == self.threads@.len(),
                cache@.len() == len,
                closed_under(code@, cache@, Seq::empty(), next_byte, byte),
                leaves_listed(code@, cache@, self.next_threads@),
                !found ==> forall|j: int| 0 <= j < self.threads@.len() ==> #[trigger] processed(code@, fwd@, pos as nat, cache@, self.threads@[j] as int),
            decreases self.threads@.len() - i,
        {
            let ip = self.threads[i];
            match decode_instr(code, ip) {
                Some((Instr::Match, _)) => {
                    proof {
                        assert(reach(code@, start as int, fwd@, before, pos as nat, ip as int));
                    }
                    found = true;
                    break;
                },
                Some((instr, size)) => {
                    proof {
                        assert(!(instr is Match));
                    }
                    let is_match = match byte {
                        Some(b) => check_consumes(code, ip, instr, size, b),
                        None => false,
                    };
                    if is_match {
                        let ghost n_before = self.next_threads@.len();
                        let ghost old_next = self.next_threads@;
                        let ghost old_cache = cache@;
                        epsilon_closure(code, ip + size, next_byte, byte, &mut cache, &mut self.next_threads);
                        proof {
                            assert(reach(code@, start as int, fwd@, before, pos as nat, ip as int));
                            assert forall|k: int| 0 <= k < self.next_threads@.len() implies reach(
                                code@, start as int, fwd@, before, (pos + 1) as nat, #[trigger] self.next_threads@[k] as int) by {
                                if k < n_before {
                                    assert(self.next_threads@[k] == self.next_threads@.subrange(0, n_before as int)[k]);
                                    assert(old_next[k] == self.next_threads@[k]);
                                } else {
                                    assert(closure_sound(code@, (ip + size) as int, self.next_threads@, n_before as int, next_byte, byte));
                                    let t = self.next_threads@[k] as int;
                                    let b = fwd@[pos as int];
                                    assert(byte == Some(b));
                                    assert(consumes(code@, ip as int, b));
                                    assert(instr_at(code@, ip as int).unwrap().1 == size);
                                    assert(is_leaf(code@, t));
                                    assert(eps_reach(code@, ip + instr_at(code@, ip as int).unwrap().1, t, byte_at(fwd@, pos + 1), Some(b)));
                                    lemma_reach_step(code@, start as int, fwd@, before, pos as nat, ip as int, t);
                                }
                            }
                            assert forall|j: int| 0 <= j < i + 1 && !found implies #[trigger] processed(code@, fwd@, pos as nat, cache@, self.threads@[j] as int) by {
                                if j < i {
                                    assert(processed(code@, fwd@, pos as nat, old_cache, self.threads@[j] as int));
                                    let q = self.threads@[j] as int;
                                    if pos < flen && consumes(code@, q, fwd@[pos as int]) {
                                        let nx = q + instr_at(code@, q).unwrap().1;
                                        if 0 <= nx < old_cache.len() {
                                            assert(old_cache[nx]);
                                            assert(cache@[nx]);
                                        }
                                    }
                                } else {
                                    assert(self.threads@[j] == ip);
                                    assert((ip + size) < len ==> cache@[(ip + size) as int]);
                                }
                            }
                        }
                    } else {
                        proof {
                            assert(processed(code@, fwd@, pos as nat, cache@, ip as int));
                        }
                    }
                },
                None => {
                    proof {
                        assert(processed(code@, fwd@, pos as nat, cache@, ip as int));
                    }
                },
            }
            i = i + 1;
        }
        proof {
            if !found && complete(code@, start as int, fwd@, before, pos as nat, self.threads@) {
                lemma_step_no_accept(code@, start as int, fwd@, before, pos as nat, self.threads@, cache@);
                lemma_step_next_complete(code@, start as int, fwd@, before, pos as nat, self.threads@, cache@, self.next_threads@);
            }
        }
        found
    }

    /// Runs the code from instruction `start` over `fwd`, the input from the
    /// candidate position on, and returns how many of its bytes matched:
    /// the length of the shortest match, which may be zero.
    /// `bck` holds the bytes before that position in reverse order; only the
    /// nearest one is read, by the assertions. `None` means that the code
    /// accepts no prefix of `fwd`.
    pub fn try_match(&mut self, code: &[u8], start: usize, fwd: &[u8], bck: &[u8]) -> (r: Option<usize>)
        ensures
            match r {
                Some(n) => n <= fwd@.len() && shortest_accept(code@, start as int, fwd@, byte_at(bck@, 0), n as nat),
                None => forall|k: nat| !accepts(code@, start as int, fwd@, byte_at(bck@, 0), k),
            },
    {
        let ghost before = byte_at(bck@, 0);
        let len = code.len();
        let flen = fwd.len();
        self.threads.clear();
        self.next_threads.clear();
        let first: Option<u8> = if flen > 0 { Some(fwd[0]) } else { None };
        let back: Option<u8> = if bck.len() > 0 { Some(bck[0]) } else { None };
        let mut cache = unvisited(len);
        proof {
            lemma_fresh_marks(code@, cache@, self.threads@, first, back);
        }
        epsilon_closure(code, start, first, back, &mut cache, &mut self.threads);
        proof {
            assert forall|k: int| 0 <= k < self.threads@.len() implies reach(code@, start as int, fwd@, before, 0, #[trigger] self.threads@[k] as int) by {
                assert(closure_sound(code@, start as int, self.threads@, 0, first, back));
            }
            assert forall|ip: int| #[trigger] reach(code@, start as int, fwd@, before, 0, ip) implies self.threads@.contains(ip as usize) by {
                lemma_reachable_listed(code@, cache@, self.threads@, start as int, ip, first, back);
            }
        }
        let mut pos: usize = 0;
        loop
            invariant
                len == code@.len(),
                flen == fwd@.len(),
                pos <= flen,
                self.next_threads@.len() == 0,
                before == byte_at(bck@, 0),
                all_reach(code@, start as int, fwd@, before, pos as nat, self.threads@),
                complete(code@, start as int, fwd@, before, pos as nat, self.threads@),
                forall|k: nat| k < pos ==> !#[trigger] accepts(code@, start as int, fwd@, before, k),
            ensures
                forall|k: nat| !#[trigger] accepts(code@, start as int, fwd@, before, k),
            decreases flen - pos,
        {
            if self.threads.len() == 0 {
                proof {
                    assert forall|ip: int| !#[trigger] reach(code@, start as int, fwd@, before, pos as nat, ip) by {
                        if reach(code@, start as int, fwd@, before, pos as nat, ip) {
                            assert(self.threads@.contains(ip as usize));
                        }
                    }
                    assert forall|k: nat| !#[trigger] accepts(code@, start as int, fwd@, before, k) by {
                        if k >= pos {
                            lemma_no_reach_after(code@, start as int, fwd@, before, pos as nat, k);
                        }
                    }
                }
                break;
            }
            let found = self.advance(code, start, fwd, Ghost(before), pos);
            if found {
                // The first position where a thread accepts is the shortest
                // match.
                proof {
                    assert forall|j: nat| j < pos implies !#[trigger] accepts(code@, start as int, fwd@, before, j) by {}
                    assert(shortest_accept(code@, start as int, fwd@, before, pos as nat));
                }
                return Some(pos);
            }
            if pos == flen {
                // No byte is left to read: no thread goes on.
                self.next_threads.clear();
                proof {
                    assert forall|k: nat| !#[trigger] accepts(code@, start as int, fwd@, before, k) by {
                        if k > pos {
                            lemma_no_reach_past_end(code@, start as int, fwd@, before, k);
                        }
                    }
                }
                break;
            }
            pos = pos + 1;
            std::mem::swap(&mut self.threads, &mut self.next_threads);
            self.next_threads.clear();
        }
        None
    }
}

} // verus!
