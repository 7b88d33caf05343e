//! The mathematical model of a run-length encoded sequence.
use vstd::prelude::*;

verus! {

/// `n` copies of `v`.
pub open spec fn repeat<B>(v: B, n: nat) -> Seq<B> {
    Seq::new(n, |_j: int| v)
}

/// Number of elements that a sequence of runs encodes.
pub open spec fn total<B>(runs: Seq<(B, u8)>) -> nat
    decreases runs.len(),
{
    if runs.len() == 0 {
        0
    } else {
        total(runs.drop_last()) + runs.last().1 as nat
    }
}

/// The elements that a sequence of runs encodes, in order.
pub open spec fn decode<B>(runs: Seq<(B, u8)>) -> Seq<B>
    decreases runs.len(),
{
    if runs.len() == 0 {
        Seq::empty()
    } else {
        decode(runs.drop_last()) + repeat(runs.last().0, runs.last().1 as nat)
    }
}

/// Every run holds at least one element.
pub open spec fn no_empty_run<B>(runs: Seq<(B, u8)>) -> bool {
    forall|k: int| 0 <= k < runs.len() ==> #[trigger] runs[k].1 > 0
}

/// Decoded position at which run `k` starts.
pub open spec fn run_start<B>(runs: Seq<(B, u8)>, k: int) -> nat {
    total(runs.take(k))
}

/// The runs that encode `n` copies of `v`: as many full runs of 255 as fit,
/// then the remainder, if any.
pub open spec fn fill_runs<B>(v: B, n: nat) -> Seq<(B, u8)> {
    Seq::new(n / 255, |_j: int| (v, 255u8)) + if n % 255 == 0 {
        Seq::empty()
    } else {
        seq![(v, (n % 255) as u8)]
    }
}

/// Runs encoding `n` copies of `v` that start with the remainder, if any,
/// and go on with full runs of 255.
pub open spec fn fill_runs_remainder_first<B>(v: B, n: nat) -> Seq<(B, u8)> {
    (if n % 255 == 0 {
        Seq::empty()
    } else {
        seq![(v, (n % 255) as u8)]
    }) + Seq::new(n / 255, |_j: int| (v, 255u8))
}

pub proof fn lemma_decode_len<B>(runs: Seq<(B, u8)>)
    ensures
        decode(runs).len() == total(runs),
    decreases runs.len(),
{
    if runs.len() > 0 {
        lemma_decode_len(runs.drop_last());
    }
}

pub proof fn lemma_decode_concat<B>(a: Seq<(B, u8)>, b: Seq<(B, u8)>)
    ensures
        decode(a + b) == decode(a) + decode(b),
        total(a + b) == total(a) + total(b),
    decreases b.len(),
{
    if b.len() == 0 {
        assert(a + b =~= a);
        assert(decode(a) + decode(b) =~= decode(a));
    } else {
        lemma_decode_concat(a, b.drop_last());
        assert((a + b).drop_last() =~= a + b.drop_last());
        assert((a + b).last() == b.last());
        assert(decode(a + b) =~= decode(a) + decode(b));
    }
}

pub proof fn lemma_decode_single<B>(v: B, n: u8)
    ensures
        decode(seq![(v, n)]) == repeat(v, n as nat),
        total(seq![(v, n)]) == n as nat,
{
    let s = seq![(v, n)];
    assert(s.drop_last() =~= Seq::<(B, u8)>::empty());
    assert(decode(s.drop_last()) == Seq::<B>::empty());
    assert(total(s.drop_last()) == 0);
    assert(decode(s) =~= repeat(v, n as nat));
}

/// Decoding a sequence made of one run spliced between two others.
pub proof fn lemma_decode_three<B>(a: Seq<(B, u8)>, r: (B, u8), c: Seq<(B, u8)>)
    ensures
        decode(a + seq![r] + c) == decode(a) + repeat(r.0, r.1 as nat) + decode(c),
        total(a + seq![r] + c) == total(a) + r.1 as nat + total(c),
{
    lemma_decode_concat(a, seq![r]);
    lemma_decode_concat(a + seq![r], c);
    lemma_decode_single(r.0, r.1);
}

/// Any sequence of runs splits around one of its runs.
pub proof fn lemma_split_at<B>(runs: Seq<(B, u8)>, k: int)
    requires
        0 <= k < runs.len(),
    ensures
        runs == runs.take(k) + seq![runs[k]] + runs.skip(k + 1),
        decode(runs) == decode(runs.take(k)) + repeat(runs[k].0, runs[k].1 as nat) + decode(
            runs.skip(k + 1),
        ),
        total(runs) == total(runs.take(k)) + runs[k].1 as nat + total(runs.skip(k + 1)),
{
    assert(runs =~= runs.take(k) + seq![runs[k]] + runs.skip(k + 1));
    lemma_decode_three(runs.take(k), runs[k], runs.skip(k + 1));
}

pub proof fn lemma_fill_runs<B>(v: B, n: nat)
    ensures
        decode(fill_runs(v, n)) == repeat(v, n),
        total(fill_runs(v, n)) == n,
        no_empty_run(fill_runs(v, n)),
        decode(fill_runs_remainder_first(v, n)) == repeat(v, n),
        total(fill_runs_remainder_first(v, n)) == n,
        no_empty_run(fill_runs_remainder_first(v, n)),
{
    let full = Seq::new(n / 255, |_j: int| (v, 255u8));
    lemma_full_runs(v, n / 255);
    let rest: Seq<(B, u8)> = if n % 255 == 0 {
        Seq::empty()
    } else {
        seq![(v, (n % 255) as u8)]
    };
    if n % 255 != 0 {
        lemma_decode_single(v, (n % 255) as u8);
    } else {
        assert(decode(rest) =~= Seq::<B>::empty());
    }
    assert(decode(rest) =~= repeat(v, n % 255));
    lemma_decode_concat(full, rest);
    lemma_decode_concat(rest, full);
    assert(n == (n / 255) * 255 + n % 255) by (nonlinear_arith);
    assert(repeat(v, (n / 255) * 255) + repeat(v, n % 255) =~= repeat(v, n));
    assert(repeat(v, n % 255) + repeat(v, (n / 255) * 255) =~= repeat(v, n));
    assert(fill_runs(v, n) == full + rest);
    assert(fill_runs_remainder_first(v, n) == rest + full);
}

proof fn lemma_full_runs<B>(v: B, m: nat)
    ensures
        decode(Seq::new(m, |_j: int| (v, 255u8))) == repeat(v, m * 255),
        total(Seq::new(m, |_j: int| (v, 255u8))) == m * 255,
    decreases m,
{
    let s = Seq::new(m, |_j: int| (v, 255u8));
    if m > 0 {
        lemma_full_runs(v, (m - 1) as nat);
        assert(s.drop_last() =~= Seq::new((m - 1) as nat, |_j: int| (v, 255u8)));
        assert(m * 255 == (m - 1) * 255 + 255) by (nonlinear_arith);
        assert(decode(s) =~= repeat(v, m * 255));
    } else {
        assert(decode(s) =~= repeat(v, 0));
    }
}

/// `run_start` of the run that follows `k` is `run_start(k)` plus the
/// length of run `k`.
pub proof fn lemma_run_start_next<B>(runs: Seq<(B, u8)>, k: int)
    requires
        0 <= k < runs.len(),
    ensures
        run_start(runs, k + 1) == run_start(runs, k) + runs[k].1 as nat,
{
    assert(runs.take(k + 1).drop_last() =~= runs.take(k));
}

/// Decoded position `run_start(k) + off` holds the value of run `k`.
pub proof fn lemma_decode_at<B>(runs: Seq<(B, u8)>, k: int, off: int)
    requires
        0 <= k < runs.len(),
        0 <= off < runs[k].1,
    ensures
        run_start(runs, k) + off < total(runs),
        decode(runs)[run_start(runs, k) + off] == runs[k].0,
{
    lemma_split_at(runs, k);
    lemma_decode_len(runs.take(k));
    lemma_decode_len(runs);
}

/// Without empty runs there are no more runs than elements.
pub proof fn lemma_count_le_total<B>(runs: Seq<(B, u8)>)
    requires
        no_empty_run(runs),
    ensures
        runs.len() <= total(runs),
    decreases runs.len(),
{
    if runs.len() > 0 {
        lemma_no_empty_sub(runs, 0, runs.len() - 1);
        assert(runs.drop_last() =~= runs.take(runs.len() - 1));
        lemma_count_le_total(runs.drop_last());
    }
}

pub proof fn lemma_run_start_le_total<B>(runs: Seq<(B, u8)>, k: int)
    requires
        0 <= k <= runs.len(),
    ensures
        run_start(runs, k) <= total(runs),
{
    lemma_decode_concat(runs.take(k), runs.skip(k));
    assert(runs.take(k) + runs.skip(k) =~= runs);
}

/// Run starts grow with the run index.
pub proof fn lemma_run_start_mono<B>(runs: Seq<(B, u8)>, j: int, k: int)
    requires
        0 <= j <= k <= runs.len(),
    ensures
        run_start(runs, j) <= run_start(runs, k),
{
    lemma_run_start_le_total(runs.take(k), j);
    assert(runs.take(k).take(j) =~= runs.take(j));
}

/// In a sequence without empty runs, at most one run holds a decoded
/// position.
pub proof fn lemma_run_unique<B>(runs: Seq<(B, u8)>, k: int, p: int)
    requires
        0 <= k < runs.len(),
        run_start(runs, k) <= p < run_start(runs, k) + runs[k].1,
    ensures
        forall|j: int|
            0 <= j < runs.len() && #[trigger] run_start(runs, j) <= p < run_start(runs, j)
                + runs[j].1 ==> j == k,
{
    assert forall|j: int|
        0 <= j < runs.len() && #[trigger] run_start(runs, j) <= p < run_start(runs, j) + runs[j].1
            implies j == k by {
        if j < k {
            lemma_run_start_next(runs, j);
            lemma_run_start_mono(runs, j + 1, k);
        } else if j > k {
            lemma_run_start_next(runs, k);
            lemma_run_start_mono(runs, k + 1, j);
        }
    }
}

/// Decoding a sequence made of two runs spliced between two others.
pub proof fn lemma_decode_four<B>(a: Seq<(B, u8)>, r1: (B, u8), r2: (B, u8), c: Seq<(B, u8)>)
    ensures
        decode(a + seq![r1, r2] + c) == decode(a) + repeat(r1.0, r1.1 as nat) + repeat(
            r2.0,
            r2.1 as nat,
        ) + decode(c),
        total(a + seq![r1, r2] + c) == total(a) + r1.1 as nat + r2.1 as nat + total(c),
{
    assert(a + seq![r1, r2] + c =~= (a + seq![r1]) + seq![r2] + c);
    lemma_decode_three(a + seq![r1], r2, c);
    lemma_decode_concat(a, seq![r1]);
    lemma_decode_single(r1.0, r1.1);
}

/// The runs after writing `v` at offset `off` of run `k`: the run is split
/// into the part before, a single `v` and the part after. The single `v` is
/// first merged into the previous run if that holds `v` and has room
/// (and, where this empties run `k`, the previous run is merged with the
/// next one too if that holds `v` and the sum fits in one run); else into
/// the next run under the same condition; else it stands on its own.
pub open spec fn set_one<B>(runs: Seq<(B, u8)>, k: int, off: int, v: B) -> Seq<(B, u8)> {
    let c = runs[k].0;
    let len = runs[k].1 as int;
    let after = len - off - 1;
    if c == v {
        runs
    } else if off == 0 && k > 0 && runs[k - 1].0 == v && runs[k - 1].1 < 255 {
        let pl = runs[k - 1].1 as int;
        if len > 1 {
            runs.take(k - 1) + seq![(v, (pl + 1) as u8), (c, (len - 1) as u8)] + runs.skip(k + 1)
        } else if k + 1 < runs.len() && runs[k + 1].0 == v && pl + 1 + runs[k + 1].1 <= 255 {
            runs.take(k - 1) + seq![(v, (pl + 1 + runs[k + 1].1) as u8)] + runs.skip(k + 2)
        } else {
            runs.take(k - 1) + seq![(v, (pl + 1) as u8)] + runs.skip(k + 1)
        }
    } else if after == 0 && k + 1 < runs.len() && runs[k + 1].0 == v && runs[k + 1].1 < 255 {
        let nl = runs[k + 1].1 as int;
        if len > 1 {
            runs.take(k) + seq![(c, (len - 1) as u8), (v, (nl + 1) as u8)] + runs.skip(k + 2)
        } else {
            runs.take(k) + seq![(v, (nl + 1) as u8)] + runs.skip(k + 2)
        }
    } else {
        runs.take(k) + (if off > 0 {
            seq![(c, off as u8)]
        } else {
            Seq::empty()
        }) + seq![(v, 1u8)] + (if after > 0 {
            seq![(c, after as u8)]
        } else {
            Seq::empty()
        }) + runs.skip(k + 1)
    }
}

pub proof fn lemma_no_empty_concat<B>(a: Seq<(B, u8)>, b: Seq<(B, u8)>)
    requires
        no_empty_run(a),
        no_empty_run(b),
    ensures
        no_empty_run(a + b),
{
    assert forall|k: int| 0 <= k < (a + b).len() implies #[trigger] (a + b)[k].1 > 0 by {
        if k >= a.len() {
            assert((a + b)[k] == b[k - a.len()]);
        }
    }
}

pub proof fn lemma_no_empty_sub<B>(a: Seq<(B, u8)>, i: int, j: int)
    requires
        no_empty_run(a),
        0 <= i <= j <= a.len(),
    ensures
        no_empty_run(a.subrange(i, j)),
        no_empty_run(a.take(j)),
        no_empty_run(a.skip(i)),
{
    assert forall|k: int| 0 <= k < a.subrange(i, j).len() implies #[trigger] a.subrange(i, j)[k].1 > 0 by {
        assert(a.subrange(i, j)[k] == a[i + k]);
    }
    assert forall|k: int| 0 <= k < a.take(j).len() implies #[trigger] a.take(j)[k].1 > 0 by {
        assert(a.take(j)[k] == a[k]);
    }
    assert forall|k: int| 0 <= k < a.skip(i).len() implies #[trigger] a.skip(i)[k].1 > 0 by {
        assert(a.skip(i)[k] == a[i + k]);
    }
}

/// The first run of a non-empty sequence, split off.
pub proof fn lemma_split_first<B>(runs: Seq<(B, u8)>)
    requires
        runs.len() > 0,
    ensures
        runs == seq![runs[0]] + runs.skip(1),
        decode(runs) == repeat(runs[0].0, runs[0].1 as nat) + decode(runs.skip(1)),
        total(runs) == runs[0].1 as nat + total(runs.skip(1)),
{
    assert(runs =~= seq![runs[0]] + runs.skip(1));
    lemma_decode_concat(seq![runs[0]], runs.skip(1));
    lemma_decode_single(runs[0].0, runs[0].1);
}

/// The last run of a non-empty sequence, split off.
proof fn lemma_split_last<B>(runs: Seq<(B, u8)>)
    requires
        runs.len() > 0,
    ensures
        runs == runs.take(runs.len() - 1) + seq![runs.last()],
        decode(runs) == decode(runs.take(runs.len() - 1)) + repeat(runs.last().0, runs.last().1 as nat),
        total(runs) == total(runs.take(runs.len() - 1)) + runs.last().1 as nat,
{
    assert(runs.drop_last() =~= runs.take(runs.len() - 1));
    assert(runs =~= runs.take(runs.len() - 1) + seq![runs.last()]);
}

proof fn lemma_set_one_prev<B>(runs: Seq<(B, u8)>, k: int, v: B)
    requires
        no_empty_run(runs),
        0 < k < runs.len(),
        runs[k].0 != v,
        runs[k - 1].0 == v,
        runs[k - 1].1 < 255,
    ensures
        no_empty_run(set_one(runs, k, 0, v)),
        total(set_one(runs, k, 0, v)) == total(runs),
        decode(set_one(runs, k, 0, v)) == decode(runs).update(run_start(runs, k) as int, v),
{
    let c = runs[k].0;
    let len = runs[k].1 as int;
    let res = set_one(runs, k, 0, v);
    let pos = run_start(runs, k) as int;
    let old_d = decode(runs);
    let pl = runs[k - 1].1 as int;
    let pp = runs.take(k - 1);
    let pre = runs.take(k);
    let post = runs.skip(k + 1);
    lemma_split_at(runs, k);
    lemma_split_last(pre);
    assert(pre.take(k - 1) =~= pp);
    lemma_decode_len(pp);
    lemma_no_empty_sub(runs, k - 1, k + 1);
    lemma_no_empty_sub(runs, k + 1, runs.len() as int);
    lemma_no_empty_sub(runs, 0, k - 1);
    if len > 1 {
        lemma_decode_four(pp, (v, (pl + 1) as u8), (c, (len - 1) as u8), post);
        assert(decode(res) =~= old_d.update(pos, v));
        lemma_no_empty_concat(pp, seq![(v, (pl + 1) as u8), (c, (len - 1) as u8)]);
        lemma_no_empty_concat(pp + seq![(v, (pl + 1) as u8), (c, (len - 1) as u8)], post);
    } else if k + 1 < runs.len() && runs[k + 1].0 == v && pl + 1 + runs[k + 1].1 <= 255 {
        let nl = runs[k + 1].1 as int;
        let pp2 = runs.skip(k + 2);
        lemma_split_first(post);
        assert(post.skip(1) =~= pp2);
        lemma_decode_three(pp, (v, (pl + 1 + nl) as u8), pp2);
        assert(decode(res) =~= old_d.update(pos, v));
        lemma_no_empty_sub(runs, k + 2, runs.len() as int);
        lemma_no_empty_concat(pp, seq![(v, (pl + 1 + nl) as u8)]);
        lemma_no_empty_concat(pp + seq![(v, (pl + 1 + nl) as u8)], pp2);
    } else {
        lemma_decode_three(pp, (v, (pl + 1) as u8), post);
        assert(decode(res) =~= old_d.update(pos, v));
        lemma_no_empty_concat(pp, seq![(v, (pl + 1) as u8)]);
        lemma_no_empty_concat(pp + seq![(v, (pl + 1) as u8)], post);
    }
}

proof fn lemma_set_one_next<B>(runs: Seq<(B, u8)>, k: int, v: B)
    requires
        no_empty_run(runs),
        0 <= k,
        k + 1 < runs.len(),
        runs[k].0 != v,
        runs[k + 1].0 == v,
        runs[k + 1].1 < 255,
        !(k > 0 && runs[k].1 == 1 && runs[k - 1].0 == v && runs[k - 1].1 < 255),
    ensures
        no_empty_run(set_one(runs, k, runs[k].1 - 1, v)),
        total(set_one(runs, k, runs[k].1 - 1, v)) == total(runs),
        decode(set_one(runs, k, runs[k].1 - 1, v)) == decode(runs).update(
            run_start(runs, k) + runs[k].1 - 1,
            v,
        ),
{
    let c = runs[k].0;
    let len = runs[k].1 as int;
    let off = len - 1;
    let res = set_one(runs, k, off, v);
    let pos = run_start(runs, k) + off;
    let old_d = decode(runs);
    let nl = runs[k + 1].1 as int;
    let pre = runs.take(k);
    let post = runs.skip(k + 1);
    let pp2 = runs.skip(k + 2);
    lemma_split_at(runs, k);
    lemma_decode_len(pre);
    lemma_split_first(post);
    assert(post.skip(1) =~= pp2);
    lemma_no_empty_sub(runs, 0, k);
    lemma_no_empty_sub(runs, k + 2, runs.len() as int);
    if len > 1 {
        lemma_decode_four(pre, (c, (len - 1) as u8), (v, (nl + 1) as u8), pp2);
        assert(decode(res) =~= old_d.update(pos, v));
        lemma_no_empty_concat(pre, seq![(c, (len - 1) as u8), (v, (nl + 1) as u8)]);
        lemma_no_empty_concat(pre + seq![(c, (len - 1) as u8), (v, (nl + 1) as u8)], pp2);
    } else {
        lemma_decode_three(pre, (v, (nl + 1) as u8), pp2);
        assert(decode(res) =~= old_d.update(pos, v));
        lemma_no_empty_concat(pre, seq![(v, (nl + 1) as u8)]);
        lemma_no_empty_concat(pre + seq![(v, (nl + 1) as u8)], pp2);
    }
}

proof fn lemma_set_one_split<B>(runs: Seq<(B, u8)>, k: int, off: int, v: B)
    requires
        no_empty_run(runs),
        0 <= k < runs.len(),
        0 <= off < runs[k].1,
        set_one(runs, k, off, v) == runs.take(k) + (if off > 0 {
            seq![(runs[k].0, off as u8)]
        } else {
            Seq::empty()
        }) + seq![(v, 1u8)] + (if runs[k].1 - off - 1 > 0 {
            seq![(runs[k].0, (runs[k].1 - off - 1) as u8)]
        } else {
            Seq::empty()
        }) + runs.skip(k + 1),
    ensures
        no_empty_run(set_one(runs, k, off, v)),
        total(set_one(runs, k, off, v)) == total(runs),
        decode(set_one(runs, k, off, v)) == decode(runs).update(run_start(runs, k) + off, v),
{
    let c = runs[k].0;
    let len = runs[k].1 as int;
    let after = len - off - 1;
    let res = set_one(runs, k, off, v);
    let pos = run_start(runs, k) + off;
    let old_d = decode(runs);
    let pre = runs.take(k);
    let post = runs.skip(k + 1);
    lemma_split_at(runs, k);
    lemma_decode_len(pre);
    let left: Seq<(B, u8)> = if off > 0 {
        seq![(c, off as u8)]
    } else {
        Seq::empty()
    };
    let right: Seq<(B, u8)> = if after > 0 {
        seq![(c, after as u8)]
    } else {
        Seq::empty()
    };
    if off > 0 {
        lemma_decode_single(c, off as u8);
    } else {
        assert(decode(left) =~= Seq::<B>::empty());
    }
    if after > 0 {
        lemma_decode_single(c, after as u8);
    } else {
        assert(decode(right) =~= Seq::<B>::empty());
    }
    assert(decode(left) =~= repeat(c, off as nat));
    assert(decode(right) =~= repeat(c, after as nat));
    lemma_decode_concat(pre, left);
    lemma_decode_three(pre + left, (v, 1u8), right + post);
    lemma_decode_concat(right, post);
    assert(res =~= (pre + left) + seq![(v, 1u8)] + (right + post));
    assert(decode(res) =~= old_d.update(pos, v));
    lemma_no_empty_sub(runs, 0, k);
    lemma_no_empty_sub(runs, k + 1, runs.len() as int);
    lemma_no_empty_concat(pre, left);
    lemma_no_empty_concat(right, post);
    lemma_no_empty_concat(pre + left, seq![(v, 1u8)]);
    lemma_no_empty_concat(pre + left + seq![(v, 1u8)], right + post);
}

/// The run that holds decoded position `p`.
pub open spec fn run_of<B>(runs: Seq<(B, u8)>, p: int) -> int {
    choose|k: int| 0 <= k < runs.len() && #[trigger] run_start(runs, k) <= p < run_start(runs, k) + runs[k].1
}

/// The runs after writing `v` at decoded position `p` (see [`set_one`]).
pub open spec fn set_at<B>(runs: Seq<(B, u8)>, p: int, v: B) -> Seq<(B, u8)> {
    set_one(runs, run_of(runs, p), p - run_start(runs, run_of(runs, p)), v)
}

/// `run_of` finds the one run that holds the position.
pub proof fn lemma_run_of<B>(runs: Seq<(B, u8)>, k: int, p: int)
    requires
        0 <= k < runs.len(),
        run_start(runs, k) <= p < run_start(runs, k) + runs[k].1,
    ensures
        run_of(runs, p) == k,
{
    lemma_run_unique(runs, k, p);
    let j = run_of(runs, p);
    assert(0 <= j < runs.len() && run_start(runs, j) <= p < run_start(runs, j) + runs[j].1);
}

/// Every position below the total lies in some run.
pub proof fn lemma_position_in_run<B>(runs: Seq<(B, u8)>, p: int)
    requires
        0 <= p < total(runs),
    ensures
        0 <= run_of(runs, p) < runs.len(),
        run_start(runs, run_of(runs, p)) <= p < run_start(runs, run_of(runs, p)) + runs[run_of(runs, p)].1,
    decreases runs.len(),
{
    let n = runs.len() as int;
    assert(runs.drop_last() =~= runs.take(n - 1));
    if p >= total(runs.drop_last()) {
        assert(runs.take(n - 1) == runs.drop_last());
        assert(run_start(runs, n - 1) <= p < run_start(runs, n - 1) + runs[n - 1].1);
    } else {
        lemma_position_in_run(runs.drop_last(), p);
        let k = run_of(runs.drop_last(), p);
        assert(runs.drop_last().take(k) =~= runs.take(k));
        assert(run_start(runs, k) <= p < run_start(runs, k) + runs[k].1);
    }
}

/// A write of `v` at the first position of run `k`, whose previous run
/// already holds `v` at the full length of 255, leaves that run as it is:
/// the two runs of `v` then stand side by side, unmerged.
pub proof fn lemma_full_run_not_merged<B>(runs: Seq<(B, u8)>, k: int, v: B)
    requires
        no_empty_run(runs),
        0 < k < runs.len(),
        runs[k - 1] == (v, 255u8),
        runs[k].0 != v,
    ensures
        set_at(runs, run_start(runs, k) as int, v).take(k) == runs.take(k),
        set_at(runs, run_start(runs, k) as int, v)[k].0 == v,
{
    lemma_run_of(runs, k, run_start(runs, k) as int);
    let res = set_at(runs, run_start(runs, k) as int, v);
    if runs[k].1 == 1 && k + 1 < runs.len() && runs[k + 1].0 == v && runs[k + 1].1 < 255 {
        assert(res == runs.take(k) + seq![(v, (runs[k + 1].1 + 1) as u8)] + runs.skip(k + 2));
    }
    assert(res.take(k) =~= runs.take(k));
}

/// `set_one` changes exactly the one decoded element and keeps every run
/// non-empty.
pub proof fn lemma_set_one<B>(runs: Seq<(B, u8)>, k: int, off: int, v: B)
    requires
        no_empty_run(runs),
        0 <= k < runs.len(),
        0 <= off < runs[k].1,
    ensures
        no_empty_run(set_one(runs, k, off, v)),
        total(set_one(runs, k, off, v)) == total(runs),
        decode(set_one(runs, k, off, v)) == decode(runs).update(run_start(runs, k) + off, v),
{
    let c = runs[k].0;
    let len = runs[k].1 as int;
    let after = len - off - 1;
    let pos = run_start(runs, k) + off;
    if c == v {
        lemma_decode_at(runs, k, off);
        lemma_decode_len(runs);
        assert(decode(runs).update(pos, v) =~= decode(runs));
    } else if off == 0 && k > 0 && runs[k - 1].0 == v && runs[k - 1].1 < 255 {
        lemma_set_one_prev(runs, k, v);
    } else if after == 0 && k + 1 < runs.len() && runs[k + 1].0 == v && runs[k + 1].1 < 255 {
        lemma_set_one_next(runs, k, v);
    } else {
        lemma_set_one_split(runs, k, off, v);
    }
}

/// The runs that encode the first `p` decoded elements: the runs before
/// position `p`, the one that holds it cut short.
pub open spec fn cut_before<B>(runs: Seq<(B, u8)>, p: int) -> Seq<(B, u8)>
    decreases runs.len(),
{
    if runs.len() == 0 || p <= 0 {
        Seq::empty()
    } else if p < runs[0].1 {
        seq![(runs[0].0, p as u8)]
    } else {
        seq![runs[0]] + cut_before(runs.skip(1), p - runs[0].1)
    }
}

/// The runs that encode the decoded elements from position `p` on: the
/// run that holds `p` cut to start there, then the runs after it.
pub open spec fn cut_after<B>(runs: Seq<(B, u8)>, p: int) -> Seq<(B, u8)>
    decreases runs.len(),
{
    if runs.len() == 0 {
        Seq::empty()
    } else if p <= 0 {
        runs
    } else if p < runs[0].1 {
        seq![(runs[0].0, (runs[0].1 - p) as u8)] + runs.skip(1)
    } else {
        cut_after(runs.skip(1), p - runs[0].1)
    }
}

/// The first position from `p` on, and before `e`, that does not hold `v`;
/// `e` where there is none.
pub open spec fn skip_same<B>(d: Seq<B>, p: int, e: int, v: B) -> int
    decreases e - p,
{
    if p >= e || d[p] != v {
        p
    } else {
        skip_same(d, p + 1, e, v)
    }
}

/// `d` with every position in `[t, e)` set to `v`.
pub open spec fn fill_span<B>(d: Seq<B>, t: int, e: int, v: B) -> Seq<B> {
    Seq::new(d.len(), |j: int| if t <= j < e { v } else { d[j] })
}

/// The position just after the last one before `e`, and from `p` on, that
/// does not hold `v`; `p` where there is none.
pub open spec fn skip_same_back<B>(d: Seq<B>, p: int, e: int, v: B) -> int
    decreases e - p,
{
    if e <= p || d[e - 1] != v {
        e
    } else {
        skip_same_back(d, p, e - 1, v)
    }
}

/// Whether the first run of `f` merges into the last run of `a`: that
/// holds `v` and the sum fits in one run.
pub open spec fn merges_left<B>(a: Seq<(B, u8)>, f: Seq<(B, u8)>, v: B) -> bool {
    a.len() > 0 && a.last().0 == v && a.last().1 + f[0].1 <= 255
}

/// `a` once its last run has absorbed the first run of `f`, if it does.
pub open spec fn left_part<B>(a: Seq<(B, u8)>, f: Seq<(B, u8)>, v: B) -> Seq<(B, u8)> {
    if merges_left(a, f, v) { a.drop_last() } else { a }
}

/// `f` once its first run has absorbed the last run of `a`, if it does.
pub open spec fn middle_part<B>(a: Seq<(B, u8)>, f: Seq<(B, u8)>, v: B) -> Seq<(B, u8)> {
    if merges_left(a, f, v) { seq![(v, (a.last().1 + f[0].1) as u8)] + f.skip(1) } else { f }
}

/// `a2 + f2 + c`, the last run of `f2` merged into the first run of `c`
/// where that holds `v` and the sum fits in one run.
pub open spec fn join_right<B>(a2: Seq<(B, u8)>, f2: Seq<(B, u8)>, c: Seq<(B, u8)>, v: B) -> Seq<(B, u8)> {
    if c.len() > 0 && c[0].0 == v && f2.last().1 + c[0].1 <= 255 {
        a2 + f2.drop_last() + seq![(v, (f2.last().1 + c[0].1) as u8)] + c.skip(1)
    } else {
        a2 + f2 + c
    }
}

/// Runs `a`, `f` and `c` joined, where every run of `f` holds `v`: the
/// first run of `f` is merged into the last run of `a` where that holds
/// `v` and the sum fits in one run; then the last run of what stands for
/// `f` is merged into the first run of `c` under the same condition.
pub open spec fn join_runs<B>(a: Seq<(B, u8)>, f: Seq<(B, u8)>, c: Seq<(B, u8)>, v: B) -> Seq<(B, u8)> {
    join_right(left_part(a, f, v), middle_part(a, f, v), c, v)
}

/// The runs after writing `count` copies of `v` from position `t` on:
/// unchanged where the span already holds `v` throughout. Else the part
/// of the span from its first position `t2` that does not hold `v` up to
/// just after its last position `e2` that does not hold `v` is replaced:
/// the runs before `t2`, then new runs of `v` (the remainder first, then
/// full runs), then the runs from `e2` on, joined so that the new runs
/// merge with an equal neighbour where the sum fits (see [`join_runs`]).
pub open spec fn set_span<B>(runs: Seq<(B, u8)>, t: int, count: int, v: B) -> Seq<(B, u8)> {
    let e = t + count;
    let d = decode(runs);
    let t2 = skip_same(d, t, e, v);
    if t2 >= e {
        runs
    } else {
        let e2 = skip_same_back(d, t2, e, v);
        join_runs(cut_before(runs, t2), fill_runs_remainder_first(v, (e2 - t2) as nat), cut_after(runs, e2), v)
    }
}

/// Runs `k` and `k + 1` both hold `v` and would fit in one run together.
pub open spec fn mergeable_at<B>(runs: Seq<(B, u8)>, k: int, v: B) -> bool {
    runs[k].0 == v && runs[k + 1].0 == v && runs[k].1 + runs[k + 1].1 <= 255
}

/// No two adjacent runs of `v` would fit in one run together.
pub open spec fn no_mergeable<B>(runs: Seq<(B, u8)>, v: B) -> bool {
    forall|k: int| 0 <= k < runs.len() - 1 ==> !#[trigger] mergeable_at(runs, k, v)
}

/// Every run but the first is full.
pub open spec fn tail_full<B>(f: Seq<(B, u8)>) -> bool {
    forall|i: int| 1 <= i < f.len() ==> #[trigger] f[i].1 == 255
}

/// Every run holds `v`.
pub open spec fn all_hold<B>(f: Seq<(B, u8)>, v: B) -> bool {
    forall|i: int| 0 <= i < f.len() ==> #[trigger] f[i].0 == v
}

pub proof fn lemma_skip_same_back<B>(d: Seq<B>, p: int, e: int, v: B)
    requires
        p <= e,
    ensures
        p <= skip_same_back(d, p, e, v) <= e,
        forall|j: int| skip_same_back(d, p, e, v) <= j < e ==> d[j] == v,
        skip_same_back(d, p, e, v) > p ==> d[skip_same_back(d, p, e, v) - 1] != v,
    decreases e - p,
{
    if p < e && d[e - 1] == v {
        lemma_skip_same_back(d, p, e - 1, v);
    }
}

/// Trailing positions that hold `v` can be skipped in one step.
pub proof fn lemma_skip_same_back_from<B>(d: Seq<B>, p: int, q: int, e: int, v: B)
    requires
        p <= q <= e,
        forall|j: int| q <= j < e ==> d[j] == v,
    ensures
        skip_same_back(d, p, e, v) == skip_same_back(d, p, q, v),
    decreases e - q,
{
    if q < e {
        lemma_skip_same_back_from(d, p, q, e - 1, v);
    }
}

pub proof fn lemma_no_mergeable_concat<B>(x: Seq<(B, u8)>, y: Seq<(B, u8)>, v: B)
    requires
        no_mergeable(x, v),
        no_mergeable(y, v),
        x.len() > 0 && y.len() > 0 ==> !(x.last().0 == v && y[0].0 == v && x.last().1 + y[0].1 <= 255),
    ensures
        no_mergeable(x + y, v),
{
    let z = x + y;
    assert forall|k: int| 0 <= k < z.len() - 1 implies !#[trigger] mergeable_at(z, k, v) by {
        if k < x.len() - 1 {
            assert(z[k] == x[k] && z[k + 1] == x[k + 1]);
            assert(!mergeable_at(x, k, v));
        } else if k >= x.len() {
            assert(z[k] == y[k - x.len()] && z[k + 1] == y[k - x.len() + 1]);
            assert(!mergeable_at(y, k - x.len(), v));
        }
    }
}

pub proof fn lemma_no_mergeable_sub<B>(a: Seq<(B, u8)>, i: int, j: int, v: B)
    requires
        no_mergeable(a, v),
        0 <= i <= j <= a.len(),
    ensures
        no_mergeable(a.subrange(i, j), v),
        no_mergeable(a.take(j), v),
        no_mergeable(a.skip(i), v),
{
    assert forall|k: int| 0 <= k < a.subrange(i, j).len() - 1 implies !#[trigger] mergeable_at(a.subrange(i, j), k, v) by {
        assert(!mergeable_at(a, i + k, v));
    }
    assert forall|k: int| 0 <= k < a.take(j).len() - 1 implies !#[trigger] mergeable_at(a.take(j), k, v) by {
        assert(!mergeable_at(a, k, v));
    }
    assert forall|k: int| 0 <= k < a.skip(i).len() - 1 implies !#[trigger] mergeable_at(a.skip(i), k, v) by {
        assert(!mergeable_at(a, i + k, v));
    }
}

pub proof fn lemma_single_no_mergeable<B>(r: (B, u8), v: B)
    ensures
        no_mergeable(seq![r], v),
{
}

/// Runs of `v` whose tail is full hold no mergeable pair.
pub proof fn lemma_tail_full_no_mergeable<B>(f: Seq<(B, u8)>, v: B)
    requires
        tail_full(f),
        no_empty_run(f),
    ensures
        no_mergeable(f, v),
{
    assert forall|k: int| 0 <= k < f.len() - 1 implies !#[trigger] mergeable_at(f, k, v) by {
        assert(f[k + 1].1 == 255);
        assert(f[k].1 > 0);
    }
}

pub proof fn lemma_fill_runs_shape<B>(v: B, n: nat)
    ensures
        tail_full(fill_runs_remainder_first(v, n)),
        all_hold(fill_runs_remainder_first(v, n), v),
        n > 0 ==> fill_runs_remainder_first(v, n).len() > 0,
{
    let f = fill_runs_remainder_first(v, n);
    if n > 0 && n % 255 == 0 {
        assert(n / 255 > 0);
    }
    if n % 255 == 0 {
        assert(f =~= Seq::new(n / 255, |_j: int| (v, 255u8)));
    } else {
        assert(forall|i: int| 1 <= i < f.len() ==> f[i] == (v, 255u8));
    }
}

proof fn lemma_join_left<B>(a: Seq<(B, u8)>, f: Seq<(B, u8)>, v: B)
    requires
        f.len() > 0,
        all_hold(f, v),
        no_empty_run(a),
        no_empty_run(f),
    ensures
        all_hold(middle_part(a, f, v), v),
        middle_part(a, f, v).len() > 0,
        no_empty_run(middle_part(a, f, v)),
        no_empty_run(left_part(a, f, v)),
        decode(left_part(a, f, v)) + decode(middle_part(a, f, v)) == decode(a) + decode(f),
        total(left_part(a, f, v)) + total(middle_part(a, f, v)) == total(a) + total(f),
{
    if merges_left(a, f, v) {
        let a2 = a.drop_last();
        let m = (a.last().1 + f[0].1) as u8;
        let f2 = middle_part(a, f, v);
        lemma_split_first(f);
        lemma_no_empty_sub(f, 1, f.len() as int);
        lemma_split_last(a);
        assert(a.take(a.len() - 1) == a2);
        lemma_no_empty_sub(a, 0, a.len() - 1);
        lemma_split_first(f2);
        assert(f2.skip(1) =~= f.skip(1));
        assert(repeat(v, a.last().1 as nat) + repeat(v, f[0].1 as nat) =~= repeat(v, m as nat));
        lemma_no_empty_concat(seq![(v, m)], f.skip(1));
        assert(forall|i: int| 1 <= i < f2.len() ==> f2[i] == f[i]);
        lemma_decode_len(a2);
        assert(decode(a2) + decode(f2) =~= decode(a) + decode(f));
    }
}

proof fn lemma_join_right<B>(a2: Seq<(B, u8)>, f2: Seq<(B, u8)>, c: Seq<(B, u8)>, v: B)
    requires
        f2.len() > 0,
        all_hold(f2, v),
        no_empty_run(a2),
        no_empty_run(f2),
        no_empty_run(c),
    ensures
        decode(join_right(a2, f2, c, v)) == decode(a2) + decode(f2) + decode(c),
        total(join_right(a2, f2, c, v)) == total(a2) + total(f2) + total(c),
        no_empty_run(join_right(a2, f2, c, v)),
{
    lemma_decode_concat(a2, f2);
    if c.len() > 0 && c[0].0 == v && f2.last().1 + c[0].1 <= 255 {
        let m = (f2.last().1 + c[0].1) as u8;
        let fd = f2.drop_last();
        lemma_split_last(f2);
        assert(f2.take(f2.len() - 1) == fd);
        lemma_split_first(c);
        lemma_no_empty_sub(f2, 0, f2.len() - 1);
        lemma_no_empty_sub(c, 1, c.len() as int);
        lemma_decode_three(a2 + fd, (v, m), c.skip(1));
        lemma_decode_concat(a2, fd);
        assert(repeat(v, f2.last().1 as nat) + repeat(v, c[0].1 as nat) =~= repeat(v, m as nat));
        assert(decode(join_right(a2, f2, c, v)) =~= decode(a2) + decode(f2) + decode(c));
        lemma_no_empty_concat(a2, fd);
        lemma_no_empty_concat(a2 + fd, seq![(v, m)]);
        lemma_no_empty_concat(a2 + fd + seq![(v, m)], c.skip(1));
    } else {
        lemma_decode_concat(a2 + f2, c);
        lemma_no_empty_concat(a2, f2);
        lemma_no_empty_concat(a2 + f2, c);
    }
}

/// Joining keeps the decoded elements, the total and the non-empty runs.
pub proof fn lemma_join_runs<B>(a: Seq<(B, u8)>, f: Seq<(B, u8)>, c: Seq<(B, u8)>, v: B)
    requires
        f.len() > 0,
        all_hold(f, v),
        no_empty_run(a),
        no_empty_run(f),
        no_empty_run(c),
    ensures
        decode(join_runs(a, f, c, v)) == decode(a) + decode(f) + decode(c),
        total(join_runs(a, f, c, v)) == total(a) + total(f) + total(c),
        no_empty_run(join_runs(a, f, c, v)),
{
    lemma_join_left(a, f, v);
    lemma_join_right(left_part(a, f, v), middle_part(a, f, v), c, v);
    assert(decode(left_part(a, f, v)) + decode(middle_part(a, f, v)) + decode(c) =~= decode(a) + decode(f) + decode(c));
}

pub proof fn lemma_skip_same<B>(d: Seq<B>, p: int, e: int, v: B)
    requires
        p <= e,
    ensures
        p <= skip_same(d, p, e, v) <= e,
        forall|j: int| p <= j < skip_same(d, p, e, v) ==> d[j] == v,
        skip_same(d, p, e, v) < e ==> d[skip_same(d, p, e, v)] != v,
    decreases e - p,
{
    if p < e && d[p] == v {
        lemma_skip_same(d, p + 1, e, v);
    }
}

/// Positions that hold `v` can be skipped in one step.
pub proof fn lemma_skip_same_from<B>(d: Seq<B>, p: int, q: int, e: int, v: B)
    requires
        p <= q <= e,
        forall|j: int| p <= j < q ==> d[j] == v,
    ensures
        skip_same(d, p, e, v) == skip_same(d, q, e, v),
    decreases q - p,
{
    if p < q {
        lemma_skip_same_from(d, p + 1, q, e, v);
    }
}

/// A run start, seen from the second run on.
proof fn lemma_run_start_skip1<B>(runs: Seq<(B, u8)>, k: int)
    requires
        1 <= k <= runs.len(),
    ensures
        run_start(runs, k) == runs[0].1 + run_start(runs.skip(1), k - 1),
{
    lemma_split_first(runs.take(k));
    assert(runs.take(k).skip(1) =~= runs.skip(1).take(k - 1));
}

pub proof fn lemma_cut_before_at<B>(runs: Seq<(B, u8)>, k: int, o: int)
    requires
        no_empty_run(runs),
        0 <= k < runs.len(),
        0 <= o < runs[k].1,
    ensures
        cut_before(runs, run_start(runs, k) + o) == runs.take(k) + (if o > 0 {
            seq![(runs[k].0, o as u8)]
        } else {
            Seq::empty()
        }),
    decreases k,
{
    let tail: Seq<(B, u8)> = if o > 0 {
        seq![(runs[k].0, o as u8)]
    } else {
        Seq::empty()
    };
    if k == 0 {
        assert(runs.take(0) =~= Seq::<(B, u8)>::empty());
        assert(total(runs.take(0)) == 0);
        assert(runs.take(0) + tail =~= tail);
    } else {
        lemma_run_start_skip1(runs, k);
        lemma_no_empty_sub(runs, 1, runs.len() as int);
        assert(runs.skip(1)[k - 1] == runs[k]);
        lemma_cut_before_at(runs.skip(1), k - 1, o);
        assert(runs.skip(1).take(k - 1) =~= runs.take(k).skip(1));
        assert(runs.take(k) =~= seq![runs[0]] + runs.skip(1).take(k - 1));
        assert(run_start(runs, k) + o >= runs[0].1);
        assert(seq![runs[0]] + (runs.skip(1).take(k - 1) + tail) =~= runs.take(k) + tail);
    }
}

pub proof fn lemma_cut_after_at<B>(runs: Seq<(B, u8)>, k: int, o: int)
    requires
        no_empty_run(runs),
        0 <= k < runs.len(),
        0 <= o < runs[k].1,
    ensures
        cut_after(runs, run_start(runs, k) + o) == (if o > 0 {
            seq![(runs[k].0, (runs[k].1 - o) as u8)] + runs.skip(k + 1)
        } else {
            runs.skip(k)
        }),
    decreases k,
{
    if k == 0 {
        assert(runs.take(0) =~= Seq::<(B, u8)>::empty());
        assert(total(runs.take(0)) == 0);
        assert(runs.skip(0) =~= runs);
    } else {
        lemma_run_start_skip1(runs, k);
        lemma_no_empty_sub(runs, 1, runs.len() as int);
        assert(runs.skip(1)[k - 1] == runs[k]);
        lemma_cut_after_at(runs.skip(1), k - 1, o);
        assert(runs.skip(1).skip(k) =~= runs.skip(k + 1));
        assert(runs.skip(1).skip(k - 1) =~= runs.skip(k));
    }
}

pub proof fn lemma_cut_after_end<B>(runs: Seq<(B, u8)>)
    requires
        no_empty_run(runs),
    ensures
        cut_after(runs, total(runs) as int) == Seq::<(B, u8)>::empty(),
    decreases runs.len(),
{
    if runs.len() > 0 {
        lemma_split_first(runs);
        lemma_no_empty_sub(runs, 1, runs.len() as int);
        lemma_cut_after_end(runs.skip(1));
    }
}

/// Cutting twice is cutting once at the sum.
pub proof fn lemma_cut_after_twice<B>(runs: Seq<(B, u8)>, q: int, m: int)
    requires
        no_empty_run(runs),
        0 <= q,
        0 <= m,
    ensures
        cut_after(cut_after(runs, q), m) == cut_after(runs, q + m),
    decreases runs.len(),
{
    if runs.len() > 0 {
        let l = runs[0].1 as int;
        lemma_no_empty_sub(runs, 1, runs.len() as int);
        if q >= l {
            lemma_cut_after_twice(runs.skip(1), q - l, m);
        } else if q > 0 {
            let x = cut_after(runs, q);
            assert(x.skip(1) =~= runs.skip(1));
            if m >= l - q {
                assert(cut_after(x, m) == cut_after(x.skip(1), m - (l - q)));
            }
        }
    }
}

pub proof fn lemma_cut_decode<B>(runs: Seq<(B, u8)>, p: int)
    requires
        no_empty_run(runs),
        0 <= p <= total(runs),
    ensures
        decode(cut_before(runs, p)) == decode(runs).take(p),
        decode(cut_after(runs, p)) == decode(runs).skip(p),
        total(cut_before(runs, p)) == p,
        total(cut_after(runs, p)) == total(runs) - p,
        no_empty_run(cut_before(runs, p)),
        no_empty_run(cut_after(runs, p)),
    decreases runs.len(),
{
    lemma_decode_len(runs);
    lemma_decode_len(cut_before(runs, p));
    lemma_decode_len(cut_after(runs, p));
    if runs.len() == 0 {
        assert(decode(runs).take(p) =~= Seq::<B>::empty());
        assert(decode(runs).skip(p) =~= Seq::<B>::empty());
    } else {
        let l = runs[0].1 as int;
        let r1 = runs.skip(1);
        lemma_split_first(runs);
        lemma_no_empty_sub(runs, 1, runs.len() as int);
        lemma_decode_len(r1);
        if p <= 0 {
            assert(decode(cut_before(runs, p)) =~= Seq::<B>::empty());
            assert(decode(runs).take(p) =~= Seq::<B>::empty());
            assert(decode(runs).skip(p) =~= decode(runs));
        } else if p < l {
            lemma_decode_single(runs[0].0, p as u8);
            lemma_decode_three(Seq::<(B, u8)>::empty(), (runs[0].0, (l - p) as u8), r1);
            assert(Seq::<(B, u8)>::empty() + seq![(runs[0].0, (l - p) as u8)] + r1 =~= cut_after(runs, p));
            assert(decode(Seq::<(B, u8)>::empty()) =~= Seq::<B>::empty());
            assert(decode(cut_before(runs, p)) =~= decode(runs).take(p));
            assert(decode(cut_after(runs, p)) =~= decode(runs).skip(p));
            lemma_no_empty_concat(seq![(runs[0].0, (l - p) as u8)], r1);
        } else {
            lemma_cut_decode(r1, p - l);
            lemma_decode_concat(seq![runs[0]], cut_before(r1, p - l));
            lemma_decode_single(runs[0].0, runs[0].1);
            assert(decode(cut_before(runs, p)) =~= decode(runs).take(p));
            assert(decode(cut_after(runs, p)) =~= decode(runs).skip(p));
            lemma_no_empty_concat(seq![runs[0]], cut_before(r1, p - l));
        }
    }
}

/// `set_span` writes `v` over the span and keeps the runs well formed.
pub proof fn lemma_set_span<B>(runs: Seq<(B, u8)>, t: int, count: int, v: B)
    requires
        no_empty_run(runs),
        0 <= t,
        0 <= count,
        t + count <= total(runs),
    ensures
        no_empty_run(set_span(runs, t, count, v)),
        total(set_span(runs, t, count, v)) == total(runs),
        decode(set_span(runs, t, count, v)) == fill_span(decode(runs), t, t + count, v),
{
    let d = decode(runs);
    let e = t + count;
    let t2 = skip_same(d, t, e, v);
    lemma_skip_same(d, t, e, v);
    lemma_decode_len(runs);
    if t2 >= e {
        assert(fill_span(d, t, e, v) =~= d);
    } else {
        let e2 = skip_same_back(d, t2, e, v);
        lemma_skip_same_back(d, t2, e, v);
        let a = cut_before(runs, t2);
        let f = fill_runs_remainder_first(v, (e2 - t2) as nat);
        let c = cut_after(runs, e2);
        lemma_cut_decode(runs, t2);
        lemma_cut_decode(runs, e2);
        lemma_fill_runs(v, (e2 - t2) as nat);
        lemma_fill_runs_shape(v, (e2 - t2) as nat);
        lemma_join_runs(a, f, c, v);
        assert(decode(join_runs(a, f, c, v)) =~= fill_span(d, t, e, v));
    }
}

proof fn lemma_join_left_no_mergeable<B>(a: Seq<(B, u8)>, f: Seq<(B, u8)>, v: B)
    requires
        no_mergeable(a, v),
        tail_full(f),
        all_hold(f, v),
        f.len() > 0,
        no_empty_run(a),
        no_empty_run(f),
    ensures
        no_mergeable(left_part(a, f, v), v),
        tail_full(middle_part(a, f, v)),
        no_mergeable(middle_part(a, f, v), v),
        left_part(a, f, v).len() > 0 ==> !(left_part(a, f, v).last().0 == v
            && left_part(a, f, v).last().1 + middle_part(a, f, v)[0].1 <= 255),
{
    let a2 = left_part(a, f, v);
    let f2 = middle_part(a, f, v);
    lemma_join_left(a, f, v);
    if merges_left(a, f, v) {
        lemma_no_mergeable_sub(a, 0, a.len() - 1, v);
        assert(a.take(a.len() - 1) =~= a2);
        assert(forall|i: int| 1 <= i < f2.len() ==> f2[i] == f[i]);
        if a2.len() > 0 {
            assert(!mergeable_at(a, a.len() - 2, v));
            assert(a2.last() == a[a.len() - 2]);
        }
    }
    lemma_tail_full_no_mergeable(f2, v);
}

/// Joining new runs of `v`, of which all but the first are full, to runs
/// that hold no mergeable pair of `v` leaves no mergeable pair of `v`.
pub proof fn lemma_join_no_mergeable<B>(a: Seq<(B, u8)>, f: Seq<(B, u8)>, c: Seq<(B, u8)>, v: B)
    requires
        no_mergeable(a, v),
        no_mergeable(c, v),
        tail_full(f),
        all_hold(f, v),
        f.len() > 0,
        no_empty_run(a),
        no_empty_run(f),
        no_empty_run(c),
    ensures
        no_mergeable(join_runs(a, f, c, v), v),
{
    let a2 = left_part(a, f, v);
    let f2 = middle_part(a, f, v);
    lemma_join_left_no_mergeable(a, f, v);
    lemma_join_left(a, f, v);
    if c.len() > 0 && c[0].0 == v && f2.last().1 + c[0].1 <= 255 {
        let m = (f2.last().1 + c[0].1) as u8;
        assert(f2.len() == 1) by {
            if f2.len() > 1 {
                assert(f2[f2.len() - 1].1 == 255);
            }
        }
        assert(f2.drop_last() =~= Seq::<(B, u8)>::empty());
        lemma_no_mergeable_sub(c, 1, c.len() as int, v);
        lemma_single_no_mergeable((v, m), v);
        if c.len() > 1 {
            assert(!mergeable_at(c, 0, v));
        }
        lemma_no_mergeable_concat(seq![(v, m)], c.skip(1), v);
        lemma_no_mergeable_concat(a2, seq![(v, m)] + c.skip(1), v);
        assert(a2 + f2.drop_last() + seq![(v, m)] + c.skip(1) =~= a2 + (seq![(v, m)] + c.skip(1)));
    } else {
        lemma_no_mergeable_concat(a2, f2, v);
        lemma_no_mergeable_concat(a2 + f2, c, v);
    }
}

/// A span write keeps the runs free of mergeable pairs of the value
/// written where they were free of them before.
pub proof fn lemma_set_span_no_mergeable<B>(runs: Seq<(B, u8)>, t: int, count: int, v: B)
    requires
        no_empty_run(runs),
        no_mergeable(runs, v),
        0 <= t,
        0 <= count,
        t + count <= total(runs),
    ensures
        no_mergeable(set_span(runs, t, count, v), v),
{
    let d = decode(runs);
    let e = t + count;
    let t2 = skip_same(d, t, e, v);
    lemma_skip_same(d, t, e, v);
    lemma_decode_len(runs);
    if t2 < e {
        let e2 = skip_same_back(d, t2, e, v);
        lemma_skip_same_back(d, t2, e, v);
        let a = cut_before(runs, t2);
        let f = fill_runs_remainder_first(v, (e2 - t2) as nat);
        let c = cut_after(runs, e2);
        lemma_cut_decode(runs, t2);
        lemma_cut_decode(runs, e2);
        lemma_fill_runs(v, (e2 - t2) as nat);
        lemma_fill_runs_shape(v, (e2 - t2) as nat);
        // the runs before the span
        lemma_position_in_run(runs, t2);
        let k = run_of(runs, t2);
        let o = t2 - run_start(runs, k);
        lemma_decode_at(runs, k, o);
        lemma_cut_before_at(runs, k, o);
        lemma_no_mergeable_sub(runs, 0, k, v);
        if o > 0 {
            lemma_single_no_mergeable((runs[k].0, o as u8), v);
            lemma_no_mergeable_concat(runs.take(k), seq![(runs[k].0, o as u8)], v);
        } else {
            assert(runs.take(k) + Seq::<(B, u8)>::empty() =~= runs.take(k));
        }
        // the runs after the span
        if e2 < total(runs) {
            lemma_position_in_run(runs, e2);
            let k2 = run_of(runs, e2);
            let o2 = e2 - run_start(runs, k2);
            lemma_cut_after_at(runs, k2, o2);
            lemma_no_mergeable_sub(runs, k2, runs.len() as int, v);
            lemma_no_mergeable_sub(runs, k2 + 1, runs.len() as int, v);
            if o2 > 0 {
                lemma_decode_at(runs, k2, o2 - 1);
                lemma_decode_at(runs, k2, o2);
                lemma_single_no_mergeable((runs[k2].0, (runs[k2].1 - o2) as u8), v);
                lemma_no_mergeable_concat(seq![(runs[k2].0, (runs[k2].1 - o2) as u8)], runs.skip(k2 + 1), v);
            }
        } else {
            lemma_cut_after_end(runs);
        }
        lemma_join_no_mergeable(a, f, c, v);
    }
}

/// Runs `x` and `y` do not both hold `v` with a sum that fits in one run.
pub open spec fn pair_ok<B>(x: (B, u8), y: (B, u8), v: B) -> bool {
    !(x.0 == v && y.0 == v && x.1 + y.1 <= 255)
}

proof fn lemma_no_mergeable_join3<B>(x: Seq<(B, u8)>, m: Seq<(B, u8)>, z: Seq<(B, u8)>, v: B)
    requires
        no_mergeable(x, v),
        no_mergeable(m, v),
        no_mergeable(z, v),
        m.len() > 0,
        x.len() > 0 ==> pair_ok(x.last(), m[0], v),
        z.len() > 0 ==> pair_ok(m.last(), z[0], v),
    ensures
        no_mergeable(x + m + z, v),
{
    lemma_no_mergeable_concat(x, m, v);
    assert((x + m).last() == m.last());
    lemma_no_mergeable_concat(x + m, z, v);
}

/// Neighbouring runs of a sequence without mergeable pairs.
proof fn lemma_pair_at<B>(runs: Seq<(B, u8)>, k: int, v: B)
    requires
        no_mergeable(runs, v),
        0 <= k,
        k + 1 < runs.len(),
    ensures
        pair_ok(runs[k], runs[k + 1], v),
{
    assert(!mergeable_at(runs, k, v));
}

/// Writing `v` at one position keeps the runs free of mergeable pairs of
/// `v` where they were free of them before.
pub proof fn lemma_set_one_no_mergeable<B>(runs: Seq<(B, u8)>, k: int, off: int, v: B)
    requires
        no_empty_run(runs),
        no_mergeable(runs, v),
        0 <= k < runs.len(),
        0 <= off < runs[k].1,
    ensures
        no_mergeable(set_one(runs, k, off, v), v),
{
    let c = runs[k].0;
    let len = runs[k].1 as int;
    let after = len - off - 1;
    let n = runs.len() as int;
    if c == v {
        return;
    }
    if off == 0 && k > 0 && runs[k - 1].0 == v && runs[k - 1].1 < 255 {
        let pl = runs[k - 1].1 as int;
        let pp = runs.take(k - 1);
        lemma_no_mergeable_sub(runs, 0, k - 1, v);
        if k >= 2 {
            lemma_pair_at(runs, k - 2, v);
        }
        if len > 1 {
            let m = seq![(v, (pl + 1) as u8), (c, (len - 1) as u8)];
            lemma_no_mergeable_sub(runs, k + 1, n, v);
            assert(!mergeable_at(m, 0, v));
            lemma_no_mergeable_join3(pp, m, runs.skip(k + 1), v);
        } else if k + 1 < n && runs[k + 1].0 == v && pl + 1 + runs[k + 1].1 <= 255 {
            let m = seq![(v, (pl + 1 + runs[k + 1].1) as u8)];
            lemma_no_mergeable_sub(runs, k + 2, n, v);
            if k + 2 < n {
                lemma_pair_at(runs, k + 1, v);
            }
            lemma_single_no_mergeable(m[0], v);
            lemma_no_mergeable_join3(pp, m, runs.skip(k + 2), v);
        } else {
            let m = seq![(v, (pl + 1) as u8)];
            lemma_no_mergeable_sub(runs, k + 1, n, v);
            lemma_single_no_mergeable(m[0], v);
            lemma_no_mergeable_join3(pp, m, runs.skip(k + 1), v);
        }
    } else if after == 0 && k + 1 < n && runs[k + 1].0 == v && runs[k + 1].1 < 255 {
        let nl = runs[k + 1].1 as int;
        lemma_no_mergeable_sub(runs, 0, k, v);
        lemma_no_mergeable_sub(runs, k + 2, n, v);
        if k + 2 < n {
            lemma_pair_at(runs, k + 1, v);
        }
        if len > 1 {
            let m = seq![(c, (len - 1) as u8), (v, (nl + 1) as u8)];
            assert(!mergeable_at(m, 0, v));
            lemma_no_mergeable_join3(runs.take(k), m, runs.skip(k + 2), v);
        } else {
            let m = seq![(v, (nl + 1) as u8)];
            lemma_single_no_mergeable(m[0], v);
            lemma_no_mergeable_join3(runs.take(k), m, runs.skip(k + 2), v);
        }
    } else {
        let left: Seq<(B, u8)> = if off > 0 { seq![(c, off as u8)] } else { Seq::empty() };
        let right: Seq<(B, u8)> = if after > 0 { seq![(c, after as u8)] } else { Seq::empty() };
        let m = left + seq![(v, 1u8)] + right;
        assert(no_mergeable(m, v)) by {
            assert forall|i: int| 0 <= i < m.len() - 1 implies !#[trigger] mergeable_at(m, i, v) by {
                assert(m[i].0 != v || m[i + 1].0 != v);
            }
        }
        lemma_no_mergeable_sub(runs, 0, k, v);
        lemma_no_mergeable_sub(runs, k + 1, n, v);
        assert(m[0] == if off > 0 { (c, off as u8) } else { (v, 1u8) });
        assert(m.last() == if after > 0 { (c, after as u8) } else { (v, 1u8) });
        lemma_no_mergeable_join3(runs.take(k), m, runs.skip(k + 1), v);
        assert(set_one(runs, k, off, v) =~= runs.take(k) + m + runs.skip(k + 1));
    }
}

/// One write to a run-length encoded buffer.
pub enum BufferWrite<B> {
    /// Write `value` at one position.
    Single { index: usize, value: B },
    /// Write `value` at `count` positions from `start` on.
    Span { start: usize, count: usize, value: B },
}

/// The runs after `writes`, in order; a write that does not fit in the
/// buffer changes nothing.
pub open spec fn apply_to_runs<B>(runs: Seq<(B, u8)>, writes: Seq<BufferWrite<B>>) -> Seq<(B, u8)>
    decreases writes.len(),
{
    if writes.len() == 0 {
        runs
    } else {
        let before = apply_to_runs(runs, writes.drop_last());
        match writes.last() {
            BufferWrite::Single { index, value } => if index < total(before) {
                set_at(before, index as int, value)
            } else {
                before
            },
            BufferWrite::Span { start, count, value } => if start < total(before) && start + count
                <= total(before) {
                set_span(before, start as int, count as int, value)
            } else {
                before
            },
        }
    }
}

/// A flat array after `writes`, in order; a write that does not fit in the
/// array changes nothing.
pub open spec fn apply_to_flat<B>(d: Seq<B>, writes: Seq<BufferWrite<B>>) -> Seq<B>
    decreases writes.len(),
{
    if writes.len() == 0 {
        d
    } else {
        let before = apply_to_flat(d, writes.drop_last());
        match writes.last() {
            BufferWrite::Single { index, value } => if index < before.len() {
                before.update(index as int, value)
            } else {
                before
            },
            BufferWrite::Span { start, count, value } => if start < before.len() && start + count
                <= before.len() {
                fill_span(before, start as int, start + count, value)
            } else {
                before
            },
        }
    }
}

/// Any sequence of single and span writes, applied to the runs, decodes to
/// the same elements as the same writes applied to the decoded array; the
/// runs stay non-empty and keep their total.
pub proof fn lemma_round_trip<B>(runs: Seq<(B, u8)>, writes: Seq<BufferWrite<B>>)
    requires
        no_empty_run(runs),
    ensures
        decode(apply_to_runs(runs, writes)) == apply_to_flat(decode(runs), writes),
        no_empty_run(apply_to_runs(runs, writes)),
        total(apply_to_runs(runs, writes)) == total(runs),
    decreases writes.len(),
{
    if writes.len() > 0 {
        lemma_round_trip(runs, writes.drop_last());
        let before = apply_to_runs(runs, writes.drop_last());
        lemma_decode_len(before);
        match writes.last() {
            BufferWrite::Single { index, value } => {
                if index < total(before) {
                    lemma_position_in_run(before, index as int);
                    let k = run_of(before, index as int);
                    lemma_set_one(before, k, index - run_start(before, k), value);
                }
            },
            BufferWrite::Span { start, count, value } => {
                if start < total(before) && start + count <= total(before) {
                    lemma_set_span(before, start as int, count as int, value);
                }
            },
        }
    }
}

} // verus!