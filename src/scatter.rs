//! The scatter view (an ordered list of byte ranges) and the step that
//! removes from it what one vectored write accepted.
use vstd::prelude::*;
use vstd::arithmetic::div_mod::{
    lemma_div_by_self, lemma_div_is_ordered, lemma_fundamental_div_mod, lemma_hoist_over_denominator,
    lemma_mod_pos_bound,
};
use vstd::slice::slice_subrange;

verus! {

/// The contents of a list of borrowed ranges.
pub open spec fn pieces(rs: Seq<&[u8]>) -> Seq<Seq<u8>> {
    rs.map_values(|r: &[u8]| r@)
}

/// The pieces in order, with the empty ones left out.
pub open spec fn drop_empty(s: Seq<Seq<u8>>) -> Seq<Seq<u8>>
    decreases s.len(),
{
    if s.len() == 0 {
        s
    } else if s.last().len() > 0 {
        drop_empty(s.drop_last()).push(s.last())
    } else {
        drop_empty(s.drop_last())
    }
}

/// What is left of the ranges `rs` once a sink has accepted their first `n`
/// bytes: every leading range that fits in `n` is removed, and the range in
/// which `n` ends starts after the accepted bytes.
pub open spec fn consumed(rs: Seq<Seq<u8>>, n: nat) -> Seq<Seq<u8>>
    decreases rs.len(),
{
    if rs.len() == 0 {
        rs
    } else if rs[0].len() <= n {
        consumed(rs.drop_first(), (n - rs[0].len()) as nat)
    } else {
        seq![rs[0].subrange(n as int, rs[0].len() as int)] + rs.drop_first()
    }
}

/// Leaving out empty pieces never changes the content, and what is left holds
/// no empty piece.
pub proof fn lemma_drop_empty_keeps_content(s: Seq<Seq<u8>>)
    ensures
        drop_empty(s).flatten() == s.flatten(),
        drop_empty(s).len() <= s.len(),
        forall|i: int| 0 <= i < drop_empty(s).len() ==> #[trigger] drop_empty(s)[i].len() > 0,
    decreases s.len(),
{
    if s.len() > 0 {
        let init = s.drop_last();
        lemma_drop_empty_keeps_content(init);
        assert(init.push(s.last()) =~= s);
        init.lemma_flatten_push(s.last());
        if s.last().len() > 0 {
            drop_empty(init).lemma_flatten_push(s.last());
        } else {
            assert(s.flatten() =~= init.flatten());
        }
    }
}

/// A sink that accepted `n` bytes got the first `n` bytes of the ranges, and
/// the ranges left hold exactly the rest, in order.
pub proof fn lemma_drain_in_order(rs: Seq<Seq<u8>>, n: nat)
    requires
        n <= rs.flatten().len(),
    ensures
        consumed(rs, n).flatten() == rs.flatten().skip(n as int),
        rs.flatten() == rs.flatten().take(n as int) + consumed(rs, n).flatten(),
    decreases rs.len(),
{
    if rs.len() > 0 {
        let head = rs[0];
        let rest = rs.drop_first();
        assert(rs.flatten() == head + rest.flatten());
        if head.len() <= n {
            lemma_drain_in_order(rest, (n - head.len()) as nat);
            assert(rs.flatten().skip(n as int) =~= rest.flatten().skip(n - head.len()));
        } else {
            let left = seq![head.subrange(n as int, head.len() as int)] + rest;
            assert(left.first() == head.subrange(n as int, head.len() as int));
            assert(left.drop_first() =~= rest);
            assert(left.flatten() =~= rs.flatten().skip(n as int));
        }
    }
    assert(rs.flatten() =~= rs.flatten().take(n as int) + rs.flatten().skip(n as int));
}

/// Consuming never adds a range nor an empty one, and consuming a positive
/// count of a non-empty list shortens what is left to send.
pub proof fn lemma_consumed_shrinks(rs: Seq<Seq<u8>>, n: nat)
    requires
        n <= rs.flatten().len(),
        forall|i: int| 0 <= i < rs.len() ==> #[trigger] rs[i].len() > 0,
    ensures
        consumed(rs, n).len() <= rs.len(),
        forall|i: int| 0 <= i < consumed(rs, n).len() ==> #[trigger] consumed(rs, n)[i].len() > 0,
        consumed(rs, n).flatten().len() == rs.flatten().len() - n,
    decreases rs.len(),
{
    lemma_drain_in_order(rs, n);
    if rs.len() > 0 {
        let rest = rs.drop_first();
        assert(rs.flatten() == rs[0] + rest.flatten());
        if rs[0].len() <= n {
            assert forall|i: int| 0 <= i < rest.len() implies #[trigger] rest[i].len() > 0 by {
                assert(rest[i] == rs[i + 1]);
            }
            lemma_consumed_shrinks(rest, (n - rs[0].len()) as nat);
        } else {
            let left = consumed(rs, n);
            assert forall|i: int| 0 <= i < left.len() implies #[trigger] left[i].len() > 0 by {
                if i > 0 {
                    assert(left[i] == rs[i]);
                }
            }
        }
    }
}

/// Whether each count of `counts`, taken in order as what one sink call
/// accepted, is at most what was still left to send.
pub open spec fn fits(rs: Seq<Seq<u8>>, counts: Seq<nat>) -> bool
    decreases counts.len(),
{
    counts.len() == 0 || (counts[0] <= rs.flatten().len() && fits(
        consumed(rs, counts[0]),
        counts.drop_first(),
    ))
}

/// The ranges left after the sink calls that accepted `counts`, in order.
pub open spec fn drained(rs: Seq<Seq<u8>>, counts: Seq<nat>) -> Seq<Seq<u8>>
    decreases counts.len(),
{
    if counts.len() == 0 {
        rs
    } else {
        drained(consumed(rs, counts[0]), counts.drop_first())
    }
}

/// The bytes that the sink calls accepting `counts` received, one call after
/// the other: each call takes the front of what is left.
pub open spec fn sent(rs: Seq<Seq<u8>>, counts: Seq<nat>) -> Seq<u8>
    decreases counts.len(),
{
    if counts.len() == 0 {
        Seq::empty()
    } else {
        rs.flatten().take(counts[0] as int) + sent(consumed(rs, counts[0]), counts.drop_first())
    }
}

/// Over any run of sink calls, what the sink received followed by what is
/// left is the ranges' content, in order: once nothing is left, the sink has
/// received exactly that content.
pub proof fn lemma_drain_sends_all(rs: Seq<Seq<u8>>, counts: Seq<nat>)
    requires
        fits(rs, counts),
    ensures
        sent(rs, counts) + drained(rs, counts).flatten() == rs.flatten(),
        drained(rs, counts).flatten().len() == 0 ==> sent(rs, counts) == rs.flatten(),
    decreases counts.len(),
{
    if counts.len() > 0 {
        let n = counts[0];
        let left = consumed(rs, n);
        lemma_drain_in_order(rs, n);
        lemma_drain_sends_all(left, counts.drop_first());
        assert(sent(rs, counts) + drained(rs, counts).flatten() =~= rs.flatten().take(n as int) + (
        sent(left, counts.drop_first()) + drained(left, counts.drop_first()).flatten()));
    } else {
        assert(sent(rs, counts) + drained(rs, counts).flatten() =~= rs.flatten());
    }
    if drained(rs, counts).flatten().len() == 0 {
        assert(sent(rs, counts) + drained(rs, counts).flatten() =~= sent(rs, counts));
    }
}

/// `a / k`, rounded up.
pub open spec fn ceil_div(a: int, k: int) -> int {
    (a + k - 1) / k
}

/// The calls that a sink taking `k` bytes at a time needs for each range on
/// its own, summed over the ranges.
pub open spec fn capped_calls(rs: Seq<Seq<u8>>, k: nat) -> int
    decreases rs.len(),
{
    if rs.len() == 0 {
        0
    } else {
        ceil_div(rs[0].len() as int, k as int) + capped_calls(rs.drop_first(), k)
    }
}

/// Whether `counts` is a run of calls of a sink that, while ranges are left,
/// accepts in each call at least `k` bytes or the whole first range, whichever
/// is less: a sink that takes at most `k` bytes per call and may stop at the end
/// of a range.
pub open spec fn capped_run(rs: Seq<Seq<u8>>, counts: Seq<nat>, k: nat) -> bool
    decreases counts.len(),
{
    counts.len() == 0 || (rs.len() > 0 && counts[0] <= rs.flatten().len() && (counts[0] >= k
        || counts[0] >= rs[0].len()) && capped_run(
        consumed(rs, counts[0]),
        counts.drop_first(),
        k,
    ))
}

proof fn lemma_ceil_div_ordered(a: int, b: int, k: int)
    requires
        a <= b,
        0 < k,
    ensures
        ceil_div(a, k) <= ceil_div(b, k),
{
    lemma_div_is_ordered(a + k - 1, b + k - 1, k);
}

proof fn lemma_capped_calls_never_grow(rs: Seq<Seq<u8>>, m: nat, k: nat)
    requires
        k > 0,
    ensures
        capped_calls(consumed(rs, m), k) <= capped_calls(rs, k),
    decreases rs.len(),
{
    if rs.len() > 0 {
        let l0 = rs[0].len() as int;
        lemma_ceil_div_ordered(0, l0, k as int);
        lemma_div_is_ordered(0, k - 1, k as int);
        if l0 <= m {
            lemma_capped_calls_never_grow(rs.drop_first(), (m - l0) as nat, k);
        } else {
            let left = consumed(rs, m);
            assert(left.drop_first() =~= rs.drop_first());
            lemma_ceil_div_ordered(l0 - m, l0, k as int);
        }
    }
}

proof fn lemma_capped_call_progress(rs: Seq<Seq<u8>>, n: nat, k: nat)
    requires
        k > 0,
        rs.len() > 0,
        rs[0].len() > 0,
        n >= k || n >= rs[0].len(),
    ensures
        capped_calls(consumed(rs, n), k) < capped_calls(rs, k),
{
    let l0 = rs[0].len() as int;
    if l0 <= n {
        lemma_capped_calls_never_grow(rs.drop_first(), (n - l0) as nat, k);
        lemma_div_is_ordered(k as int, l0 + k - 1, k as int);
        lemma_div_by_self(k as int);
    } else {
        let left = consumed(rs, n);
        assert(left.drop_first() =~= rs.drop_first());
        lemma_ceil_div_ordered(l0 - n, l0 - k, k as int);
        lemma_hoist_over_denominator(l0 - 1, 1, k);
    }
}

/// A sink that accepts in each call `k` bytes or the whole first range,
/// whichever is less, is called at most once per `k` bytes of each range,
/// rounded up.
pub proof fn lemma_capped_sink_calls(rs: Seq<Seq<u8>>, counts: Seq<nat>, k: nat)
    requires
        k > 0,
        capped_run(rs, counts, k),
        forall|i: int| 0 <= i < rs.len() ==> #[trigger] rs[i].len() > 0,
    ensures
        counts.len() <= capped_calls(rs, k),
    decreases counts.len(),
{
    if counts.len() > 0 {
        let n = counts[0];
        lemma_consumed_shrinks(rs, n);
        lemma_capped_call_progress(rs, n, k);
        lemma_capped_sink_calls(consumed(rs, n), counts.drop_first(), k);
    } else {
        lemma_capped_calls_nonnegative(rs, k);
    }
}

proof fn lemma_capped_calls_nonnegative(rs: Seq<Seq<u8>>, k: nat)
    requires
        k > 0,
    ensures
        capped_calls(rs, k) >= 0,
    decreases rs.len(),
{
    if rs.len() > 0 {
        lemma_capped_calls_nonnegative(rs.drop_first(), k);
        lemma_div_is_ordered(0, rs[0].len() + k - 1, k as int);
    }
}

/// The per-range count of calls is at most the total length divided by `k`,
/// rounded up, plus one call for each range after the first.
pub proof fn lemma_capped_calls_bound(rs: Seq<Seq<u8>>, k: nat)
    requires
        k > 0,
    ensures
        rs.len() == 0 ==> capped_calls(rs, k) == 0,
        rs.len() > 0 ==> capped_calls(rs, k) <= ceil_div(rs.flatten().len() as int, k as int)
            + rs.len() - 1,
    decreases rs.len(),
{
    if rs.len() > 0 {
        let rest = rs.drop_first();
        lemma_capped_calls_bound(rest, k);
        assert(rs.flatten() == rs[0] + rest.flatten());
        if rest.len() == 0 {
            assert(rest.flatten() =~= Seq::<u8>::empty());
            assert(rs.flatten() =~= rs[0]);
        } else {
            let a = rs[0].len() + k - 1;
            let b = rest.flatten().len() + k - 1;
            let c = rs.flatten().len() + k - 1;
            let ki = k as int;
            lemma_fundamental_div_mod(a, ki);
            lemma_fundamental_div_mod(b, ki);
            lemma_fundamental_div_mod(c, ki);
            lemma_mod_pos_bound(a, ki);
            lemma_mod_pos_bound(b, ki);
            lemma_mod_pos_bound(c, ki);
            let (qa, qb, qc) = (a / ki, b / ki, c / ki);
            assert(qa + qb <= qc + 1) by (nonlinear_arith)
                requires
                    ki * qa <= a,
                    ki * qb <= b,
                    c < ki * qc + ki,
                    c == a + b - (ki - 1),
                    ki > 0,
            ;
        }
    }
}

/// Whether `counts` is the run of calls of a sink that accepts, in each call,
/// `k` bytes or all that is left, whichever is less, until nothing is left.
pub open spec fn greedy_run(rs: Seq<Seq<u8>>, counts: Seq<nat>, k: nat) -> bool
    decreases counts.len(),
{
    if counts.len() == 0 {
        rs.flatten().len() == 0
    } else {
        &&& rs.flatten().len() > 0
        &&& counts[0] == if k <= rs.flatten().len() {
            k
        } else {
            rs.flatten().len()
        }
        &&& greedy_run(consumed(rs, counts[0]), counts.drop_first(), k)
    }
}

/// A sink that accepts `k` bytes or all that is left, whichever is less, is
/// called exactly once per `k` bytes, rounded up.
pub proof fn lemma_greedy_sink_calls(rs: Seq<Seq<u8>>, counts: Seq<nat>, k: nat)
    requires
        k > 0,
        greedy_run(rs, counts, k),
    ensures
        counts.len() == ceil_div(rs.flatten().len() as int, k as int),
    decreases counts.len(),
{
    let t = rs.flatten().len() as int;
    let ki = k as int;
    if counts.len() == 0 {
        lemma_fundamental_div_mod(ki - 1, ki);
        lemma_mod_pos_bound(ki - 1, ki);
        let q = (ki - 1) / ki;
        assert(q == 0) by (nonlinear_arith)
            requires
                ki - 1 == ki * q + (ki - 1) % ki,
                0 <= (ki - 1) % ki < ki,
                ki > 0,
        ;
    } else {
        let n = counts[0];
        lemma_drain_in_order(rs, n);
        lemma_greedy_sink_calls(consumed(rs, n), counts.drop_first(), k);
        if ki <= t {
            lemma_hoist_over_denominator(t - 1, 1, k);
        } else {
            lemma_fundamental_div_mod(t + ki - 1, ki);
            lemma_mod_pos_bound(t + ki - 1, ki);
            let q = (t + ki - 1) / ki;
            assert(q == 1) by (nonlinear_arith)
                requires
                    t + ki - 1 == ki * q + (t + ki - 1) % ki,
                    0 <= (t + ki - 1) % ki < ki,
                    0 < t < ki,
            ;
            lemma_fundamental_div_mod(ki - 1, ki);
            lemma_mod_pos_bound(ki - 1, ki);
            let z = (ki - 1) / ki;
            assert(z == 0) by (nonlinear_arith)
                requires
                    ki - 1 == ki * z + (ki - 1) % ki,
                    0 <= (ki - 1) % ki < ki,
                    ki > 0,
            ;
        }
    }
}

/// The sum of the lengths of the pieces.
pub open spec fn total_len(ps: Seq<Seq<u8>>) -> nat
    decreases ps.len(),
{
    if ps.len() == 0 {
        0
    } else {
        ps[0].len() + total_len(ps.drop_first())
    }
}

/// Pieces joined in order, empty ones included, are as long as their lengths
/// summed: a chain that was given `ps`, one piece per call, holds
/// `total_len(ps)` bytes.
pub proof fn lemma_joined_length(ps: Seq<Seq<u8>>)
    ensures
        ps.flatten().len() == total_len(ps),
    decreases ps.len(),
{
    if ps.len() > 0 {
        lemma_joined_length(ps.drop_first());
    }
}

/// Why a vectored write could not be driven to its end.
#[derive(Debug, PartialEq, Eq, Structural)]
pub enum WriteError {
    /// The sink accepted no byte while ranges were left to send.
    NoProgress,
}

/// Removes from `ranges` the first `n` bytes, which one call of the sink
/// accepted. A call that accepted nothing while ranges are left is a stalled
/// sink: it fails with [`WriteError::NoProgress`] and `ranges` stays as it was.
pub fn advance<'a>(ranges: &mut Vec<&'a [u8]>, n: usize) -> (r: Result<(), WriteError>)
    requires
        n <= pieces(old(ranges)@).flatten().len(),
    ensures
        r is Err <==> (n == 0 && old(ranges)@.len() > 0),
        r is Err ==> final(ranges)@ == old(ranges)@,
        r is Ok ==> pieces(final(ranges)@) == consumed(pieces(old(ranges)@), n as nat),
{
    if n == 0 && ranges.len() > 0 {
        return Err(WriteError::NoProgress);
    }
    let ghost ps = pieces(ranges@);
    let len = ranges.len();
    let mut rest: usize = n;
    let mut i: usize = 0;
    assert(ps.skip(0) =~= ps);
    while i < len && ranges[i].len() <= rest
        invariant
            len == ranges@.len(),
            ps == pieces(ranges@),
            i <= len,
            rest <= n,
            consumed(ps, n as nat) == consumed(ps.skip(i as int), rest as nat),
        decreases len - i,
    {
        assert(ps.skip(i as int).drop_first() =~= ps.skip(i + 1));
        assert(ps.skip(i as int)[0] == ps[i as int]);
        rest = rest - ranges[i].len();
        i = i + 1;
    }
    let mut out: Vec<&'a [u8]> = Vec::new();
    if i < len {
        let first: &'a [u8] = ranges[i];
        out.push(slice_subrange(first, rest, first.len()));
        assert(ps.skip(i as int).drop_first() =~= ps.skip(i + 1));
        assert(ps.skip(i as int)[0] == ps[i as int]);
        let ghost head = ps[i as int].subrange(rest as int, ps[i as int].len() as int);
        let mut j: usize = i + 1;
        while j < len
            invariant
                len == ranges@.len(),
                ps == pieces(ranges@),
                i < j <= len,
                pieces(out@) == seq![head] + ps.subrange(i + 1, j as int),
            decreases len - j,
        {
            let ghost before = out@;
            out.push(ranges[j]);
            assert(out@ == before.push(ranges@[j as int]));
            assert(pieces(out@) =~= pieces(before).push(ps[j as int]));
            j = j + 1;
            assert(pieces(out@) =~= seq![head] + ps.subrange(i + 1, j as int));
        }
        assert(ps.subrange(i + 1, len as int) =~= ps.skip(i + 1));
    } else {
        assert(ps.skip(i as int) =~= Seq::<Seq<u8>>::empty());
        assert(pieces(out@) =~= Seq::<Seq<u8>>::empty());
    }
    *ranges = out;
    Ok(())
}

} // verus!
