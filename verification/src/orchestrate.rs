//! Per-buffer bookkeeping of the orchestrator: merging the workers'
//! candidate lists, splitting a buffer into overlapping worker chunks,
//! and framing raw messages for the hex output line.

use vstd::prelude::*;

verus! {

/// Entry `i` wins its sample index: every entry sharing the index has
/// a smaller score, or an equal score and a later position.
pub open spec fn is_winner(items: Seq<(u64, u64)>, i: int) -> bool {
    &&& 0 <= i < items.len()
    &&& forall|j: int|
        0 <= j < items.len() && (#[trigger] items[j]).0 == items[i].0 ==> items[j].1 < items[i].1
            || (items[j].1 == items[i].1 && i <= j)
}

/// First position in `w` at or after `k` whose entry has sample index
/// `d`, or -1.
pub open spec fn find_ndx(items: Seq<(u64, u64)>, w: Seq<usize>, d: u64, k: int) -> int
    decreases w.len() - k,
{
    if k < 0 || k >= w.len() {
        -1
    } else if items[w[k] as int].0 == d {
        k
    } else {
        find_ndx(items, w, d, k + 1)
    }
}

proof fn lemma_find_ndx_props(items: Seq<(u64, u64)>, w: Seq<usize>, d: u64, k: int)
    requires
        0 <= k <= w.len(),
    ensures
        find_ndx(items, w, d, k) >= -1,
        find_ndx(items, w, d, k) >= 0 ==> k <= find_ndx(items, w, d, k) < w.len() && items[w[
            find_ndx(items, w, d, k)
        ] as int].0 == d,
        find_ndx(items, w, d, k) == -1 ==> forall|p: int|
            k <= p < w.len() ==> items[#[trigger] w[p] as int].0 != d,
    decreases w.len() - k,
{
    if k < w.len() {
        lemma_find_ndx_props(items, w, d, k + 1);
    }
}

proof fn lemma_find_ndx_found(items: Seq<(u64, u64)>, w: Seq<usize>, d: u64, p: int)
    requires
        0 <= p < w.len(),
        items[w[p] as int].0 == d,
    ensures
        find_ndx(items, w, d, 0) >= 0,
{
    lemma_find_ndx_props(items, w, d, 0);
    if find_ndx(items, w, d, 0) == -1 {
        assert(items[w[p] as int].0 != d);
    }
}

/// A correct merge result: winning positions only, strictly ascending
/// by sample index, covering every sample index that occurs.
pub open spec fn merged_spec(items: Seq<(u64, u64)>, w: Seq<usize>) -> bool {
    &&& forall|p: int| 0 <= p < w.len() ==> is_winner(items, #[trigger] w[p] as int)
    &&& forall|p1: int, p2: int|
        0 <= p1 < p2 < w.len() ==> items[w[p1] as int].0 < items[w[p2] as int].0
    &&& forall|i: int|
        0 <= i < items.len() ==> find_ndx(items, w, (#[trigger] items[i]).0, 0) >= 0
}

/// Two winners of the same sample index are the same entry.
proof fn lemma_winner_unique(items: Seq<(u64, u64)>, a: int, b: int)
    requires
        is_winner(items, a),
        is_winner(items, b),
        items[a].0 == items[b].0,
    ensures
        a == b,
{
    assert(items[a].1 <= items[b].1 || (items[a].1 == items[b].1 && b <= a));
    assert(items[b].1 <= items[a].1 || (items[b].1 == items[a].1 && a <= b));
}

/// The best (max score, earliest) position for the sample index of a
/// given entry, among the first `n` entries.
spec fn best_for(items: Seq<(u64, u64)>, d: u64, n: int) -> int
    decreases n,
{
    if n <= 0 {
        -1
    } else {
        let b = best_for(items, d, n - 1);
        if items[n - 1].0 != d {
            b
        } else if b == -1 {
            n - 1
        } else if items[n - 1].1 > items[b].1 {
            n - 1
        } else {
            b
        }
    }
}

proof fn lemma_best_for(items: Seq<(u64, u64)>, d: u64, n: int)
    requires
        0 <= n <= items.len(),
    ensures
        best_for(items, d, n) >= -1,
        best_for(items, d, n) == -1 ==> forall|j: int|
            0 <= j < n ==> (#[trigger] items[j]).0 != d,
        best_for(items, d, n) >= 0 ==> {
            let b = best_for(items, d, n);
            &&& 0 <= b < n
            &&& items[b].0 == d
            &&& forall|j: int|
                0 <= j < n && (#[trigger] items[j]).0 == d ==> items[j].1 < items[b].1 || (
                items[j].1 == items[b].1 && b <= j)
        },
    decreases n,
{
    if n > 0 {
        lemma_best_for(items, d, n - 1);
        let bp = best_for(items, d, n - 1);
        let b = best_for(items, d, n);
        if items[n - 1].0 == d {
            assert forall|j: int|
                0 <= j < n && (#[trigger] items[j]).0 == d implies items[j].1 < items[b].1 || (
            items[j].1 == items[b].1 && b <= j) by {
                if j < n - 1 {
                    assert(items[j].1 < items[bp].1 || (items[j].1 == items[bp].1 && bp <= j));
                }
            }
        }
    }
}

#[verifier::rlimit(100)]
proof fn lemma_sorted_same_set_eq(
    items: Seq<(u64, u64)>,
    u: Seq<usize>,
    v: Seq<usize>,
    f: spec_fn(int) -> int,
    g: spec_fn(int) -> int,
)
    requires
        forall|p1: int, p2: int|
            0 <= p1 < p2 < u.len() ==> items[u[p1] as int].0 < items[u[p2] as int].0,
        forall|p1: int, p2: int|
            0 <= p1 < p2 < v.len() ==> items[v[p1] as int].0 < items[v[p2] as int].0,
        forall|p: int| 0 <= p < u.len() ==> 0 <= #[trigger] f(p) < v.len() && v[f(p)] == u[p],
        forall|q: int| 0 <= q < v.len() ==> 0 <= #[trigger] g(q) < u.len() && u[g(q)] == v[q],
    ensures
        u == v,
    decreases u.len(),
{
    if u.len() == 0 {
        if v.len() > 0 {
            assert(0 <= g(0) < u.len());
            assert(false);
        }
        assert(u =~= v);
    } else {
        let q0 = f(0);
        let p0 = g(0);
        assert(v[q0] == u[0]);
        assert(u[p0] == v[0]);
        if q0 > 0 && p0 > 0 {
            assert(items[v[0] as int].0 < items[v[q0] as int].0);
            assert(items[u[0] as int].0 < items[u[p0] as int].0);
            assert(false);
        }
        assert(u[0] == v[0]);
        let ut = u.drop_first();
        let vt = v.drop_first();
        let f2 = |p: int| f(p + 1) - 1;
        let g2 = |q: int| g(q + 1) - 1;
        assert forall|p: int| 0 <= p < ut.len() implies 0 <= #[trigger] f2(p) < vt.len() && vt[f2(
            p,
        )] == ut[p] by {
            assert(0 <= f(p + 1) < v.len() && v[f(p + 1)] == u[p + 1]);
            if f(p + 1) == 0 {
                assert(u[p + 1] == v[0] && v[0] == u[0]);
                assert(items[u[0] as int].0 < items[u[p + 1] as int].0);
                assert(false);
            }
            assert(vt[f(p + 1) - 1] == v[f(p + 1)]);
            assert(ut[p] == u[p + 1]);
        }
        assert forall|q: int| 0 <= q < vt.len() implies 0 <= #[trigger] g2(q) < ut.len() && ut[g2(
            q,
        )] == vt[q] by {
            assert(0 <= g(q + 1) < u.len() && u[g(q + 1)] == v[q + 1]);
            if g(q + 1) == 0 {
                assert(v[q + 1] == u[0] && u[0] == v[0]);
                assert(items[v[0] as int].0 < items[v[q + 1] as int].0);
                assert(false);
            }
            assert(ut[g(q + 1) - 1] == u[g(q + 1)]);
            assert(vt[q] == v[q + 1]);
        }
        assert(forall|p1: int, p2: int|
            0 <= p1 < p2 < ut.len() ==> items[ut[p1] as int].0 < items[ut[p2] as int].0) by {
            assert(forall|p: int| 0 <= p < ut.len() ==> ut[p] == #[trigger] u[p + 1]);
        }
        assert(forall|p1: int, p2: int|
            0 <= p1 < p2 < vt.len() ==> items[vt[p1] as int].0 < items[vt[p2] as int].0) by {
            assert(forall|p: int| 0 <= p < vt.len() ==> vt[p] == #[trigger] v[p + 1]);
        }
        lemma_sorted_same_set_eq(items, ut, vt, f2, g2);
        assert(u.len() == v.len());
        assert forall|i: int| 0 <= i < u.len() implies u[i] == v[i] by {
            if i > 0 {
                assert(ut[i - 1] == u[i] && vt[i - 1] == v[i]);
                assert(ut[i - 1] == vt[i - 1]);
            }
        }
        assert(u =~= v);
    }
}

/// Merging is a function of the candidate list alone: any two outputs
/// that meet the merge contract on the same input are equal.  Two
/// workers that hand the orchestrator the same scored candidates end
/// up contributing the same merged set.
#[verifier::rlimit(100)]
pub proof fn lemma_merge_deterministic(items: Seq<(u64, u64)>, w1: Seq<usize>, w2: Seq<usize>)
    requires
        merged_spec(items, w1),
        merged_spec(items, w2),
    ensures
        w1 == w2,
{
    let f = |p: int| find_ndx(items, w2, items[w1[p] as int].0, 0);
    let g = |q: int| find_ndx(items, w1, items[w2[q] as int].0, 0);
    assert forall|p: int| 0 <= p < w1.len() implies 0 <= #[trigger] f(p) < w2.len() && w2[f(p)]
        == w1[p] by {
        let e = w1[p] as int;
        assert(is_winner(items, e));
        let d = items[e].0;
        lemma_find_ndx_props(items, w2, d, 0);
        assert(find_ndx(items, w2, d, 0) >= 0);
        let q = find_ndx(items, w2, d, 0);
        assert(is_winner(items, w2[q] as int));
        lemma_winner_unique(items, w2[q] as int, e);
    }
    assert forall|q: int| 0 <= q < w2.len() implies 0 <= #[trigger] g(q) < w1.len() && w1[g(q)]
        == w2[q] by {
        let e = w2[q] as int;
        assert(is_winner(items, e));
        let d = items[e].0;
        lemma_find_ndx_props(items, w1, d, 0);
        assert(find_ndx(items, w1, d, 0) >= 0);
        let p = find_ndx(items, w1, d, 0);
        assert(is_winner(items, w1[p] as int));
        lemma_winner_unique(items, w1[p] as int, e);
    }
    lemma_sorted_same_set_eq(items, w1, w2, f, g);
}

/// Insert a winning position into a sorted winner list, keeping the
/// strict ascending order by sample index.
#[verifier::rlimit(100)]
fn insert_sorted(items: &Vec<(u64, u64)>, winners: &mut Vec<usize>, e: usize)
    requires
        is_winner(items@, e as int),
        e < items@.len(),
        forall|p: int|
            0 <= p < old(winners)@.len() ==> is_winner(items@, #[trigger] old(winners)@[p] as int),
        forall|p1: int, p2: int|
            0 <= p1 < p2 < old(winners)@.len() ==> items@[old(winners)@[p1] as int].0
                < items@[old(winners)@[p2] as int].0,
        forall|p: int| 0 <= p < old(winners)@.len() ==> #[trigger] old(winners)@[p] < e,
    ensures
        forall|p2: int| 0 <= p2 < final(winners)@.len() ==> #[trigger] final(winners)@[p2] <= e,
        forall|p: int|
            0 <= p < final(winners)@.len() ==> is_winner(items@, #[trigger] final(winners)@[p] as int),
        forall|p1: int, p2: int|
            0 <= p1 < p2 < final(winners)@.len() ==> items@[final(winners)@[p1] as int].0
                < items@[final(winners)@[p2] as int].0,
        final(winners)@.len() == old(winners)@.len() + 1,
        forall|d: u64| find_ndx(items@, old(winners)@, d, 0) >= 0 ==> #[trigger] find_ndx(
            items@,
            final(winners)@,
            d,
            0,
        ) >= 0,
        find_ndx(items@, final(winners)@, items@[e as int].0, 0) >= 0,
{
    let d = items[e].0;
    let mut pos: usize = 0;
    while pos < winners.len() && items[winners[pos]].0 < d
        invariant
            winners@ == old(winners)@,
            e < items@.len(),
            d == items@[e as int].0,
            pos <= winners@.len(),
            forall|p: int| 0 <= p < winners@.len() ==> is_winner(items@, #[trigger] winners@[p] as int),
            forall|p1: int, p2: int|
                0 <= p1 < p2 < winners@.len() ==> items@[winners@[p1] as int].0
                    < items@[winners@[p2] as int].0,
            is_winner(items@, e as int),
            forall|q0: int| 0 <= q0 < pos ==> items@[#[trigger] winners@[q0] as int].0 < d,
        decreases winners@.len() - pos,
    {
        pos = pos + 1;
    }
    proof {
        if pos < winners@.len() {
            assert(items@[winners@[pos as int] as int].0 >= d);
            if items@[winners@[pos as int] as int].0 == d {
                lemma_winner_unique(items@, winners@[pos as int] as int, e as int);
                assert(false);
            }
        }
    }
    let ghost wold = winners@;
    winners.insert(pos, e);
    proof {
        assert(winners@ =~= wold.take(pos as int).push(e) + wold.skip(pos as int));
        assert(forall|p: int| 0 <= p < pos ==> winners@[p] == #[trigger] wold[p]);
        assert(winners@[pos as int] == e);
        assert(forall|p: int| pos < p < winners@.len() ==> winners@[p] == #[trigger] wold[p - 1]);
        assert forall|p1: int, p2: int| 0 <= p1 < p2 < winners@.len() implies items@[winners@[p1] as int].0
            < items@[winners@[p2] as int].0 by {
            if p1 == pos {
                assert(winners@[p2] == wold[p2 - 1] && p2 - 1 >= pos);
                assert(items@[wold[pos as int] as int].0 > d);
                if p2 - 1 > pos {
                    assert(items@[wold[pos as int] as int].0 < items@[wold[p2 - 1] as int].0);
                }
            } else if p2 == pos {
                assert(winners@[p1] == wold[p1]);
            } else if p1 < pos && p2 > pos {
                assert(winners@[p1] == wold[p1] && winners@[p2] == wold[p2 - 1]);
                assert(items@[wold[p1] as int].0 < d);
                if p2 - 1 > pos {
                    assert(items@[wold[pos as int] as int].0 < items@[wold[p2 - 1] as int].0);
                } else {
                    assert(items@[wold[p2 - 1] as int].0 > d);
                }
            }
        }
        lemma_find_ndx_found(items@, winners@, d, pos as int);
        assert forall|d0: u64| find_ndx(items@, wold, d0, 0) >= 0 implies #[trigger] find_ndx(
            items@,
            winners@,
            d0,
            0,
        ) >= 0 by {
            lemma_find_ndx_props(items@, wold, d0, 0);
            let p = find_ndx(items@, wold, d0, 0);
            if p < pos {
                lemma_find_ndx_found(items@, winners@, d0, p);
            } else {
                lemma_find_ndx_found(items@, winners@, d0, p + 1);
            }
        }
    }
}

/// Merge scored candidates by sample index: for every sample index
/// that occurs in `items` (pairs of sample index and score), keep the
/// position of the earliest highest-scored entry, ascending by sample
/// index.
#[verifier::rlimit(100)]
pub fn merge_by_sample_index(items: &Vec<(u64, u64)>) -> (winners: Vec<usize>)
    ensures
        merged_spec(items@, winners@),
{
    let n = items.len();
    let mut winners: Vec<usize> = Vec::new();

    for i in 0..n
        invariant
            n == items@.len(),
            forall|p: int| 0 <= p < winners@.len() ==> is_winner(items@, #[trigger] winners@[p] as int),
            forall|p1: int, p2: int|
                0 <= p1 < p2 < winners@.len() ==> items@[winners@[p1] as int].0
                    < items@[winners@[p2] as int].0,
            forall|p: int| 0 <= p < winners@.len() ==> #[trigger] winners@[p] < i,
            forall|w: int|
                0 <= w < i && is_winner(items@, w) ==> #[trigger] find_ndx(
                    items@,
                    winners@,
                    items@[w].0,
                    0,
                ) >= 0,
    {
        let mut win = true;
        for j in 0..n
            invariant
                n == items@.len(),
                0 <= i < n,
                win == forall|j0: int|
                    0 <= j0 < j && (#[trigger] items@[j0]).0 == items@[i as int].0 ==> items@[j0].1
                        < items@[i as int].1 || (items@[j0].1 == items@[i as int].1 && i <= j0),
        {
            if items[j].0 == items[i].0 {
                if items[j].1 > items[i].1 || (items[j].1 == items[i].1 && j < i) {
                    win = false;
                }
            }
        }
        if win {
            insert_sorted(items, &mut winners, i);
        }
    }

    proof {
        assert forall|i: int| 0 <= i < items@.len() implies find_ndx(
            items@,
            winners@,
            (#[trigger] items@[i]).0,
            0,
        ) >= 0 by {
            lemma_best_for(items@, items@[i].0, items@.len() as int);
            let b = best_for(items@, items@[i].0, items@.len() as int);
            if b == -1 {
                assert(items@[i].0 != items@[i].0);
            }
            assert(0 <= b < items@.len() && items@[b].0 == items@[i].0);
            assert(is_winner(items@, b));
            assert(find_ndx(items@, winners@, items@[b].0, 0) >= 0);
        }
    }
    winners
}

/// Split `total_samples` into `workers` consecutive chunks, each but
/// the last extended by `overlap` samples (capped at the end), the
/// last absorbing the remainder.
pub fn chunk_bounds(total_samples: usize, workers: usize, overlap: usize) -> (r: Vec<
    (usize, usize),
>)
    requires
        workers >= 1,
    ensures
        r@.len() == workers,
        forall|k: int|
            0 <= k < workers ==> (#[trigger] r@[k]).0 == k * (total_samples as int / workers as int),
        forall|k: int|
            0 <= k < workers - 1 ==> (#[trigger] r@[k]).1 == {
                let base = total_samples as int / workers as int;
                if k * base + base + overlap > total_samples {
                    total_samples as int
                } else {
                    k * base + base + overlap
                }
            },
        r@[workers - 1].1 == total_samples,
{
    let base = total_samples / workers;
    let mut r: Vec<(usize, usize)> = Vec::new();
    proof {
        assert(workers * base <= total_samples) by (nonlinear_arith)
            requires
                workers >= 1 && base == total_samples as int / workers as int,
        ;
    }
    for k in 0..workers
        invariant
            workers >= 1,
            base == total_samples as int / workers as int,
            workers * base <= total_samples,
            r@.len() == k,
            forall|k0: int| 0 <= k0 < k ==> (#[trigger] r@[k0]).0 == k0 * (base as int),
            forall|k0: int|
                0 <= k0 < k && k0 < workers - 1 ==> (#[trigger] r@[k0]).1 == (if k0 * (base as int)
                    + base + overlap > total_samples {
                    total_samples as int
                } else {
                    k0 * (base as int) + base + overlap
                }),
            k > 0 && k == workers ==> r@[workers - 1].1 == total_samples,
    {
        proof {
            assert((k as int) * base + base <= total_samples && (k as int) * base == (k as int)
                * (base as int)) by (nonlinear_arith)
                requires
                    0 <= (k as int) < workers && workers * base <= total_samples,
            ;
        }
        let start = k * base;
        let end: usize;
        if k == workers - 1 {
            end = total_samples;
        } else {
            let cap = start + base;
            let remaining = total_samples - cap;
            if overlap >= remaining {
                end = total_samples;
            } else {
                end = cap + overlap;
            }
        }
        r.push((start, end));
    }
    r
}

/// The hexadecimal digits, upper case, as ASCII bytes.
pub const HEX_DIGITS: [u8; 16] = [
    0x30, 0x31, 0x32, 0x33, 0x34, 0x35, 0x36, 0x37, 0x38, 0x39, 0x41, 0x42, 0x43, 0x44, 0x45, 0x46,
];

/// Frame a message for the raw output socket: an asterisk, the bytes
/// in upper-case hex, a semicolon and a newline.
pub fn hex_line(msg: &Vec<u8>) -> (r: Vec<u8>)
    requires
        2 * msg@.len() + 3 <= usize::MAX,
    ensures
        r@.len() == 2 * msg@.len() + 3,
        r@[0] == 0x2au8,
        forall|i: int|
            0 <= i < msg@.len() ==> r@[1 + 2 * i] == HEX_DIGITS@[(#[trigger] msg@[i] >> 4u8) as int],
        forall|i: int|
            0 <= i < msg@.len() ==> r@[2 + 2 * i] == HEX_DIGITS@[(#[trigger] msg@[i] & 0xf) as int],
        r@[r@.len() - 2] == 0x3bu8,
        r@[r@.len() - 1] == 0x0au8,
{
    let n = msg.len();
    let mut r: Vec<u8> = Vec::new();
    r.push(0x2a);
    for i in 0..n
        invariant
            n == msg@.len(),
            2 * n + 3 <= usize::MAX,
            r@.len() == 1 + 2 * i,
            r@[0] == 0x2au8,
            forall|i0: int|
                0 <= i0 < i ==> r@[1 + 2 * i0] == HEX_DIGITS@[(#[trigger] msg@[i0] >> 4u8) as int],
            forall|i0: int|
                0 <= i0 < i ==> r@[2 + 2 * i0] == HEX_DIGITS@[(#[trigger] msg@[i0] & 0xf) as int],
    {
        let b = msg[i];
        assert((b >> 4u8) < 16 && (b & 0xf) < 16) by (bit_vector);
        r.push(HEX_DIGITS[(b >> 4) as usize]);
        r.push(HEX_DIGITS[(b & 0xf) as usize]);
    }
    r.push(0x3b);
    r.push(0x0a);
    r
}

} // verus!
