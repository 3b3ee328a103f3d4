//! Loop resolution: every matching `[` / `]` pair becomes a pair of jumps.
use vstd::prelude::*;
use crate::cmd::Cmd;
use crate::error::EvalError;

verus! {

/// The positions of the `[` that are still open after the first `i`
/// instructions, oldest first. A `]` closes the newest of them.
pub open spec fn pending(t: Seq<Cmd>, i: int) -> Seq<int>
    decreases i,
{
    if i <= 0 {
        seq![]
    } else {
        let p = pending(t, i - 1);
        match t[i - 1] {
            Cmd::LoopStart => p.push(i - 1),
            Cmd::LoopEnd => if p.len() > 0 {
                p.drop_last()
            } else {
                p
            },
            _ => p,
        }
    }
}

/// Whether every `]` closes an earlier `[` and every `[` is closed.
pub open spec fn balanced(t: Seq<Cmd>) -> bool {
    &&& forall|j: int| 0 <= j < t.len() && t[j] == Cmd::LoopEnd ==> pending(t, j).len() > 0
    &&& pending(t, t.len() as int).len() == 0
}

/// The position of the `[` that the `]` at `j` closes.
pub open spec fn opener(t: Seq<Cmd>, j: int) -> int {
    pending(t, j).last()
}

/// Whether the `]` at `c` closes the `[` at `i`.
pub open spec fn closes(t: Seq<Cmd>, c: int, i: int) -> bool {
    &&& 0 <= c < t.len()
    &&& t[c] == Cmd::LoopEnd
    &&& pending(t, c).len() > 0
    &&& opener(t, c) == i
}

/// The position of the `]` that closes the `[` at `i`.
pub open spec fn closer(t: Seq<Cmd>, i: int) -> int {
    choose|c: int| closes(t, c, i)
}

/// What the instruction at `k` becomes after resolution.
pub open spec fn resolved_at(t: Seq<Cmd>, k: int) -> Cmd {
    match t[k] {
        Cmd::LoopStart => Cmd::JumpIfZero((closer(t, k) + 1) as usize),
        Cmd::LoopEnd => Cmd::JumpIfNonZero(opener(t, k) as usize),
        _ => t[k],
    }
}

/// The resolved form of a balanced instruction sequence.
pub open spec fn resolved(t: Seq<Cmd>) -> Seq<Cmd> {
    Seq::new(t.len(), |k: int| resolved_at(t, k))
}

/// The open positions are increasing, lie before `k`, and hold `[`.
pub proof fn lemma_pending_shape(t: Seq<Cmd>, k: int)
    requires
        0 <= k <= t.len(),
    ensures
        forall|a: int|
            0 <= a < pending(t, k).len() ==> 0 <= #[trigger] pending(t, k)[a] < k && t[pending(
                t,
                k,
            )[a]] == Cmd::LoopStart,
        forall|a: int, b: int|
            0 <= a < b < pending(t, k).len() ==> pending(t, k)[a] < pending(t, k)[b],
    decreases k,
{
    if k > 0 {
        lemma_pending_shape(t, k - 1);
    }
}

/// A `[` that is no longer open never becomes open again.
pub proof fn lemma_closed_stays_closed(t: Seq<Cmd>, i: int, k1: int, k2: int)
    requires
        0 <= i < k1 <= k2 <= t.len(),
        !pending(t, k1).contains(i),
    ensures
        !pending(t, k2).contains(i),
    decreases k2 - k1,
{
    if k2 > k1 {
        lemma_closed_stays_closed(t, i, k1, k2 - 1);
        let p = pending(t, k2 - 1);
        if pending(t, k2).contains(i) {
            let x = choose|x: int| 0 <= x < pending(t, k2).len() && pending(t, k2)[x] == i;
            match t[k2 - 1] {
                Cmd::LoopStart => {
                    assert(x < p.len());
                    assert(p[x] == i);
                },
                Cmd::LoopEnd => {
                    if p.len() > 0 {
                        assert(p[x] == i);
                    }
                },
                _ => {},
            }
        }
    }
}

/// After the `]` at `c` closes the `[` at `i`, that `[` is open no more.
proof fn lemma_closed_after(t: Seq<Cmd>, c: int, i: int, k: int)
    requires
        closes(t, c, i),
        c < k <= t.len(),
    ensures
        !pending(t, k).contains(i),
{
    lemma_pending_shape(t, c);
    let p = pending(t, c);
    assert(pending(t, c + 1) == p.drop_last());
    if pending(t, c + 1).contains(i) {
        let x = choose|x: int| 0 <= x < p.len() - 1 && p.drop_last()[x] == i;
        assert(p[x] < p[p.len() - 1]);
    }
    lemma_pending_shape(t, c);
    lemma_closed_stays_closed(t, i, c + 1, k);
}

/// A `[` is closed by at most one `]`.
pub proof fn lemma_closer_unique(t: Seq<Cmd>, i: int, c1: int, c2: int)
    requires
        closes(t, c1, i),
        closes(t, c2, i),
    ensures
        c1 == c2,
{
    if c1 < c2 {
        lemma_closed_after(t, c1, i, c2);
        assert(pending(t, c2)[pending(t, c2).len() - 1] == i);
    } else if c2 < c1 {
        lemma_closed_after(t, c2, i, c1);
        assert(pending(t, c1)[pending(t, c1).len() - 1] == i);
    }
}

/// A `[` that is open after `k` instructions and closed at the end is
/// closed by some `]` at or after `k`.
proof fn lemma_closer_exists(t: Seq<Cmd>, i: int, k: int)
    requires
        0 <= i < k <= t.len(),
        pending(t, k).contains(i),
        !pending(t, t.len() as int).contains(i),
    ensures
        exists|c: int| k <= c && closes(t, c, i),
    decreases t.len() - k,
{
    let p = pending(t, k);
    if pending(t, k + 1).contains(i) {
        lemma_closer_exists(t, i, k + 1);
    } else {
        let x = choose|x: int| 0 <= x < p.len() && p[x] == i;
        match t[k] {
            Cmd::LoopStart => {
                assert(p.push(k)[x] == i);
            },
            Cmd::LoopEnd => {
                if x < p.len() - 1 {
                    assert(p.drop_last()[x] == i);
                }
                assert(closes(t, k, i));
            },
            _ => {},
        }
    }
}

/// In a balanced sequence the brackets pair up one to one: every `[` is
/// closed by exactly one `]`, every `]` closes exactly one earlier `[`, and
/// the resolved jumps of each pair point at each other: the `[` jumps just
/// past its `]`, the `]` jumps back to its `[`.
pub proof fn lemma_brackets_pair_up(t: Seq<Cmd>)
    requires
        balanced(t),
    ensures
        resolved(t).len() == t.len(),
        forall|i: int|
            0 <= i < t.len() && t[i] == Cmd::LoopStart ==> {
                let c = #[trigger] closer(t, i);
                &&& i < c && closes(t, c, i)
                &&& forall|c2: int| closes(t, c2, i) ==> c2 == c
                &&& resolved(t)[i] == Cmd::JumpIfZero((c + 1) as usize)
                &&& resolved(t)[c] == Cmd::JumpIfNonZero(i as usize)
            },
        forall|j: int|
            0 <= j < t.len() && t[j] == Cmd::LoopEnd ==> {
                let o = #[trigger] opener(t, j);
                &&& 0 <= o < j && t[o] == Cmd::LoopStart
                &&& closes(t, j, o)
                &&& resolved(t)[j] == Cmd::JumpIfNonZero(o as usize)
                &&& resolved(t)[o] == Cmd::JumpIfZero((j + 1) as usize)
            },
        forall|k: int|
            0 <= k < t.len() && t[k] != Cmd::LoopStart && t[k] != Cmd::LoopEnd ==> resolved(t)[k]
                == t[k],
{
    assert forall|i: int| 0 <= i < t.len() && t[i] == Cmd::LoopStart implies {
        let c = #[trigger] closer(t, i);
        &&& i < c && closes(t, c, i)
        &&& forall|c2: int| closes(t, c2, i) ==> c2 == c
        &&& resolved(t)[i] == Cmd::JumpIfZero((c + 1) as usize)
        &&& resolved(t)[c] == Cmd::JumpIfNonZero(i as usize)
    } by {
        let p = pending(t, i);
        assert(p.push(i)[p.len() as int] == i);
        assert(pending(t, i + 1).contains(i));
        lemma_closer_exists(t, i, i + 1);
        let c = closer(t, i);
        assert forall|c2: int| closes(t, c2, i) implies c2 == c by {
            lemma_closer_unique(t, i, c2, c);
        };
    };
    assert forall|j: int| 0 <= j < t.len() && t[j] == Cmd::LoopEnd implies {
        let o = #[trigger] opener(t, j);
        &&& 0 <= o < j && t[o] == Cmd::LoopStart
        &&& closes(t, j, o)
        &&& resolved(t)[j] == Cmd::JumpIfNonZero(o as usize)
        &&& resolved(t)[o] == Cmd::JumpIfZero((j + 1) as usize)
    } by {
        lemma_pending_shape(t, j);
        let o = opener(t, j);
        assert(pending(t, j)[pending(t, j).len() - 1] == o);
        assert(closes(t, j, o));
        lemma_closer_unique(t, o, j, closer(t, o));
    };
}

/// What position `j` of `r` holds after the resolver has scanned the first
/// `k` instructions of `t`.
spec fn scanned(t: Seq<Cmd>, r: Seq<Cmd>, k: int, j: int) -> bool {
    if j >= k {
        r[j] == t[j]
    } else {
        match t[j] {
            Cmd::LoopEnd => r[j] == Cmd::JumpIfNonZero(opener(t, j) as usize),
            Cmd::LoopStart => if pending(t, k).contains(j) {
                r[j] == Cmd::LoopStart
            } else {
                exists|c: int| c < k && closes(t, c, j) && r[j] == Cmd::JumpIfZero((c + 1) as usize)
            },
            _ => r[j] == t[j],
        }
    }
}

/// Replaces each matching `[` / `]` pair by jumps, in place, in one forward
/// pass with a stack of open positions. The `[` becomes a jump past its `]`
/// when the cell is zero; the `]` becomes a jump back to its `[` when the
/// cell is nonzero. Fails when a bracket is unmatched.
pub fn resolve(tokens: Vec<Cmd>) -> (r: Result<Vec<Cmd>, EvalError>)
    ensures
        match r {
            Ok(v) => balanced(tokens@) && v@ == resolved(tokens@),
            Err(e) => !balanced(tokens@) && e == EvalError::UnmatchedBracket,
        },
{
    let ghost t0 = tokens@;
    let mut t = tokens;
    let mut stack: Vec<usize> = Vec::new();
    let mut k: usize = 0;
    while k < t.len()
        invariant
            t0 == tokens@,
            t@.len() == t0.len(),
            0 <= k <= t0.len(),
            stack@.len() == pending(t0, k as int).len(),
            forall|a: int| 0 <= a < stack@.len() ==> stack@[a] as int == pending(t0, k as int)[a],
            forall|j: int| 0 <= j < t0.len() ==> #[trigger] scanned(t0, t@, k as int, j),
            forall|j: int|
                0 <= j < k && t0[j] == Cmd::LoopEnd ==> #[trigger] pending(t0, j).len() > 0,
        decreases t0.len() - k,
    {
        proof {
            lemma_pending_shape(t0, k as int);
        }
        let ghost before = t@;
        let ghost p = pending(t0, k as int);
        assert(scanned(t0, t@, k as int, k as int));
        match t[k] {
            Cmd::LoopStart => {
                stack.push(k);
                assert forall|j: int| 0 <= j < t0.len() implies #[trigger] scanned(
                    t0,
                    t@,
                    k + 1,
                    j,
                ) by {
                    assert(scanned(t0, before, k as int, j));
                    if j < k && t0[j] == Cmd::LoopStart {
                        if p.contains(j) {
                            let x = choose|x: int| 0 <= x < p.len() && p[x] == j;
                            assert(p.push(k as int)[x] == j);
                        }
                        if p.push(k as int).contains(j) {
                            let x = choose|x: int| 0 <= x < p.len() + 1 && p.push(k as int)[x] == j;
                            assert(p[x] == j);
                        }
                    }
                    if j == k {
                        assert(p.push(k as int)[p.len() as int] == j);
                    }
                };
            },
            Cmd::LoopEnd => {
                if stack.len() > 0 {
                    let start = stack.pop().unwrap();
                    assert(start as int == p.last());
                    assert(scanned(t0, before, k as int, start as int));
                    assert(p.contains(start as int));
                    t.set(start, Cmd::JumpIfZero(k + 1));
                    t.set(k, Cmd::JumpIfNonZero(start));
                    assert(closes(t0, k as int, start as int));
                    proof {
                        lemma_closed_after(t0, k as int, start as int, k + 1);
                    }
                    assert forall|j: int| 0 <= j < t0.len() implies #[trigger] scanned(
                        t0,
                        t@,
                        k + 1,
                        j,
                    ) by {
                        assert(scanned(t0, before, k as int, j));
                        if j < k && t0[j] == Cmd::LoopStart && j != start {
                            if p.contains(j) {
                                let x = choose|x: int| 0 <= x < p.len() && p[x] == j;
                                assert(x != p.len() - 1);
                                assert(p.drop_last()[x] == j);
                            }
                            if p.drop_last().contains(j) {
                                let x = choose|x: int|
                                    0 <= x < p.len() - 1 && p.drop_last()[x] == j;
                                assert(p[x] == j);
                            }
                        }
                        if j == start {
                            assert(k < k + 1 && closes(t0, k as int, j) && t@[j]
                                == Cmd::JumpIfZero((k + 1) as usize));
                        }
                    };
                    assert(stack@ =~= stack@);
                } else {
                    assert(t0[k as int] == Cmd::LoopEnd && pending(t0, k as int).len() == 0);
                    return Err(EvalError::UnmatchedBracket);
                }
            },
            _ => {
                assert forall|j: int| 0 <= j < t0.len() implies #[trigger] scanned(
                    t0,
                    t@,
                    k + 1,
                    j,
                ) by {
                    assert(scanned(t0, before, k as int, j));
                };
            },
        }
        k += 1;
    }
    if stack.len() > 0 {
        return Err(EvalError::UnmatchedBracket);
    }
    assert forall|j: int| 0 <= j < t0.len() implies t@[j] == resolved(t0)[j] by {
        assert(scanned(t0, t@, k as int, j));
        if t0[j] == Cmd::LoopStart {
            let c = choose|c: int|
                c < k && closes(t0, c, j) && t@[j] == Cmd::JumpIfZero((c + 1) as usize);
            lemma_closer_unique(t0, j, c, closer(t0, j));
        }
    };
    assert(t@ =~= resolved(t0));
    Ok(t)
}

} // verus!
