//! Median-cut palette reduction over RGB colors.

use vstd::prelude::*;

verus! {

/// Smallest value of channel `k` over `cs`, starting from 255.
pub open spec fn chan_lo(cs: Seq<[u8; 3]>, k: int) -> u8
    decreases cs.len(),
{
    if cs.len() == 0 {
        255
    } else {
        let m = chan_lo(cs.drop_last(), k);
        let v = cs.last()[k];
        if v < m {
            v
        } else {
            m
        }
    }
}

/// Largest value of channel `k` over `cs`, starting from 0.
pub open spec fn chan_hi(cs: Seq<[u8; 3]>, k: int) -> u8
    decreases cs.len(),
{
    if cs.len() == 0 {
        0
    } else {
        let m = chan_hi(cs.drop_last(), k);
        let v = cs.last()[k];
        if v > m {
            v
        } else {
            m
        }
    }
}

/// How far channel `k` ranges over `cs`.
pub open spec fn chan_range(cs: Seq<[u8; 3]>, k: int) -> int {
    chan_hi(cs, k) - chan_lo(cs, k)
}

/// Sum of the three channel ranges: the box's color spread.
pub open spec fn spec_channel_spread(cs: Seq<[u8; 3]>) -> int {
    chan_range(cs, 0) + chan_range(cs, 1) + chan_range(cs, 2)
}

/// The channel with the largest range; the later channel wins a tie.
pub open spec fn spec_widest_channel(cs: Seq<[u8; 3]>) -> int {
    let d0 = chan_range(cs, 0);
    let d1 = chan_range(cs, 1);
    let d2 = chan_range(cs, 2);
    if d2 >= d0 && d2 >= d1 {
        2
    } else if d1 >= d0 {
        1
    } else {
        0
    }
}

pub proof fn lemma_chan_bounds(cs: Seq<[u8; 3]>, k: int)
    requires
        cs.len() > 0,
        0 <= k < 3,
    ensures
        chan_lo(cs, k) <= chan_hi(cs, k),
        forall|i: int| 0 <= i < cs.len() ==> chan_lo(cs, k) <= #[trigger] cs[i][k] <= chan_hi(cs, k),
    decreases cs.len(),
{
    if cs.len() > 1 {
        lemma_chan_bounds(cs.drop_last(), k);
        assert forall|i: int| 0 <= i < cs.len() implies chan_lo(cs, k) <= #[trigger] cs[i][k]
            <= chan_hi(cs, k) by {
            if i < cs.len() - 1 {
                assert(cs.drop_last()[i] == cs[i]);
            }
        }
    }
}

/// Lowest and highest value of one channel.
fn channel_bounds(colors: &Vec<[u8; 3]>, k: usize) -> (r: (u8, u8))
    requires
        k < 3,
    ensures
        r.0 == chan_lo(colors@, k as int),
        r.1 == chan_hi(colors@, k as int),
{
    let mut lo: u8 = 255;
    let mut hi: u8 = 0;
    let mut i: usize = 0;
    while i < colors.len()
        invariant
            k < 3,
            i <= colors@.len(),
            lo == chan_lo(colors@.take(i as int), k as int),
            hi == chan_hi(colors@.take(i as int), k as int),
        decreases colors@.len() - i,
    {
        let v = colors[i][k];
        proof {
            let t = colors@.take(i + 1);
            assert(t.drop_last() == colors@.take(i as int));
            assert(t.last() == colors@[i as int]);
        }
        if v < lo {
            lo = v;
        }
        if v > hi {
            hi = v;
        }
        i += 1;
    }
    assert(colors@.take(colors@.len() as int) == colors@);
    (lo, hi)
}

/// Total spread of a box of colors over the three channels.
pub fn channel_spread(colors: &Vec<[u8; 3]>) -> (s: u32)
    requires
        colors@.len() > 0,
    ensures
        s == spec_channel_spread(colors@),
{
    proof {
        lemma_chan_bounds(colors@, 0);
        lemma_chan_bounds(colors@, 1);
        lemma_chan_bounds(colors@, 2);
    }
    let (l0, h0) = channel_bounds(colors, 0);
    let (l1, h1) = channel_bounds(colors, 1);
    let (l2, h2) = channel_bounds(colors, 2);
    (h0 - l0) as u32 + (h1 - l1) as u32 + (h2 - l2) as u32
}

/// The channel along which a box of colors is widest.
pub fn widest_channel(colors: &Vec<[u8; 3]>) -> (k: usize)
    requires
        colors@.len() > 0,
    ensures
        k == spec_widest_channel(colors@),
        k < 3,
{
    proof {
        lemma_chan_bounds(colors@, 0);
        lemma_chan_bounds(colors@, 1);
        lemma_chan_bounds(colors@, 2);
    }
    let (l0, h0) = channel_bounds(colors, 0);
    let (l1, h1) = channel_bounds(colors, 1);
    let (l2, h2) = channel_bounds(colors, 2);
    let d0 = h0 - l0;
    let d1 = h1 - l1;
    let d2 = h2 - l2;
    if d2 >= d0 && d2 >= d1 {
        2
    } else if d1 >= d0 {
        1
    } else {
        0
    }
}

/// Sum of channel `k` over `cs`.
pub open spec fn chan_sum(cs: Seq<[u8; 3]>, k: int) -> nat
    decreases cs.len(),
{
    if cs.len() == 0 {
        0
    } else {
        chan_sum(cs.drop_last(), k) + cs.last()[k] as nat
    }
}

pub proof fn lemma_chan_sum_bound(cs: Seq<[u8; 3]>, k: int)
    ensures
        chan_sum(cs, k) <= 255 * cs.len(),
    decreases cs.len(),
{
    if cs.len() > 0 {
        lemma_chan_sum_bound(cs.drop_last(), k);
    }
}

/// The mean color of a box, each channel rounded down; black for no colors.
pub open spec fn spec_average(cs: Seq<[u8; 3]>) -> [u8; 3] {
    let n = if cs.len() == 0 {
        1
    } else {
        cs.len()
    };
    [(chan_sum(cs, 0) / n) as u8, (chan_sum(cs, 1) / n) as u8, (chan_sum(cs, 2) / n) as u8]
}

fn channel_sum(colors: &Vec<[u8; 3]>, k: usize) -> (s: u128)
    requires
        k < 3,
    ensures
        s == chan_sum(colors@, k as int),
{
    let mut s: u128 = 0;
    let mut i: usize = 0;
    while i < colors.len()
        invariant
            k < 3,
            i <= colors@.len(),
            s == chan_sum(colors@.take(i as int), k as int),
        decreases colors@.len() - i,
    {
        proof {
            let t = colors@.take(i + 1);
            assert(t.drop_last() == colors@.take(i as int));
            assert(t.last() == colors@[i as int]);
            lemma_chan_sum_bound(t, k as int);
            assert(255 * t.len() <= 255 * 0x1_0000_0000_0000_0000);
        }
        s = s + colors[i][k] as u128;
        i += 1;
    }
    assert(colors@.take(colors@.len() as int) == colors@);
    s
}

/// Average color of a box (the palette entry it contributes), summed wide
/// enough that no box can overflow.
pub fn average(colors: &Vec<[u8; 3]>) -> (c: [u8; 3])
    ensures
        c == spec_average(colors@),
{
    let n: u128 = if colors.len() == 0 { 1 } else { colors.len() as u128 };
    proof {
        lemma_chan_sum_bound(colors@, 0);
        lemma_chan_sum_bound(colors@, 1);
        lemma_chan_sum_bound(colors@, 2);
    }
    let s0 = channel_sum(colors, 0);
    let s1 = channel_sum(colors, 1);
    let s2 = channel_sum(colors, 2);
    assert(s0 / n <= 255 && s1 / n <= 255 && s2 / n <= 255) by (nonlinear_arith)
        requires
            n >= 1,
            s0 <= 255 * n,
            s1 <= 255 * n,
            s2 <= 255 * n,
    ;
    let c = [(s0 / n) as u8, (s1 / n) as u8, (s2 / n) as u8];
    assert(c@ =~= spec_average(colors@)@);
    c
}

/// Squared Euclidean distance between two colors.
pub open spec fn spec_dist2(a: [u8; 3], b: [u8; 3]) -> int {
    (a[0] - b[0]) * (a[0] - b[0]) + (a[1] - b[1]) * (a[1] - b[1]) + (a[2] - b[2]) * (a[2] - b[2])
}

pub fn dist2(a: [u8; 3], b: [u8; 3]) -> (d: u32)
    ensures
        d == spec_dist2(a, b),
{
    let d0 = a[0] as i32 - b[0] as i32;
    let d1 = a[1] as i32 - b[1] as i32;
    let d2 = a[2] as i32 - b[2] as i32;
    assert(0 <= d0 * d0 <= 65025 && 0 <= d1 * d1 <= 65025 && 0 <= d2 * d2 <= 65025) by (nonlinear_arith)
        requires
            -255 <= d0 <= 255,
            -255 <= d1 <= 255,
            -255 <= d2 <= 255,
    ;
    (d0 * d0) as u32 + (d1 * d1) as u32 + (d2 * d2) as u32
}

/// The colors of `b` whose channel `ch` equals `v`, in their original order.
pub open spec fn key_bucket(b: Seq<[u8; 3]>, ch: int, v: int) -> Seq<[u8; 3]>
    decreases b.len(),
{
    if b.len() == 0 {
        Seq::empty()
    } else {
        let r = key_bucket(b.drop_last(), ch, v);
        if b.last()[ch] == v {
            r.push(b.last())
        } else {
            r
        }
    }
}

pub proof fn lemma_key_bucket_push(b: Seq<[u8; 3]>, c: [u8; 3], ch: int, v: int)
    ensures
        key_bucket(b.push(c), ch, v) == if c[ch] == v {
            key_bucket(b, ch, v).push(c)
        } else {
            key_bucket(b, ch, v)
        },
{
    assert(b.push(c).drop_last() == b);
}

/// The buckets for keys `v`, `v + 1`, ..., 255, one after another.
pub open spec fn buckets_from(b: Seq<[u8; 3]>, ch: int, v: int) -> Seq<[u8; 3]>
    decreases 256 - v,
{
    if v >= 256 {
        Seq::empty()
    } else {
        key_bucket(b, ch, v) + buckets_from(b, ch, v + 1)
    }
}

/// `b` stably sorted by channel `ch`: ascending key, equal keys in their
/// original order (what `sort_by_key` produces).
pub open spec fn sorted_by_channel(b: Seq<[u8; 3]>, ch: int) -> Seq<[u8; 3]> {
    buckets_from(b, ch, 0)
}

/// Stable sort of a box by one channel.
pub fn sort_by_channel(b: &Vec<[u8; 3]>, ch: usize) -> (out: Vec<[u8; 3]>)
    requires
        ch < 3,
    ensures
        out@ == sorted_by_channel(b@, ch as int),
{
    let mut out: Vec<[u8; 3]> = Vec::new();
    let mut v: u16 = 0;
    while v < 256
        invariant
            ch < 3,
            v <= 256,
            sorted_by_channel(b@, ch as int) == out@ + buckets_from(b@, ch as int, v as int),
        decreases 256 - v,
    {
        let ghost before = out@;
        let mut i: usize = 0;
        while i < b.len()
            invariant
                ch < 3,
                v < 256,
                i <= b@.len(),
                out@ == before + key_bucket(b@.take(i as int), ch as int, v as int),
            decreases b@.len() - i,
        {
            let c = b[i];
            proof {
                let t = b@.take(i + 1);
                assert(t == b@.take(i as int).push(c));
                lemma_key_bucket_push(b@.take(i as int), c, ch as int, v as int);
            }
            if c[ch] as u16 == v {
                out.push(c);
            }
            i += 1;
        }
        assert(b@.take(b@.len() as int) == b@);
        v += 1;
    }
    out
}

pub proof fn lemma_buckets_push(b: Seq<[u8; 3]>, c: [u8; 3], ch: int, v: int)
    requires
        0 <= v <= 256,
    ensures
        buckets_from(b.push(c), ch, v).to_multiset() == if c[ch] >= v {
            buckets_from(b, ch, v).to_multiset().insert(c)
        } else {
            buckets_from(b, ch, v).to_multiset()
        },
    decreases 256 - v,
{
    broadcast use vstd::multiset::group_multiset_axioms, vstd::seq_lib::group_to_multiset_ensures;

    if v < 256 {
        lemma_buckets_push(b, c, ch, v + 1);
        lemma_key_bucket_push(b, c, ch, v);
        vstd::seq_lib::lemma_multiset_commutative(key_bucket(b.push(c), ch, v), buckets_from(b.push(c), ch, v + 1));
        vstd::seq_lib::lemma_multiset_commutative(key_bucket(b, ch, v), buckets_from(b, ch, v + 1));
        assert(buckets_from(b.push(c), ch, v).to_multiset() =~= (if c[ch] >= v {
            buckets_from(b, ch, v).to_multiset().insert(c)
        } else {
            buckets_from(b, ch, v).to_multiset()
        }));
    } else {
        assert(c[ch] < 256);
    }
}

/// Sorting by a channel keeps exactly the colors it was given.
pub proof fn lemma_sorted_by_channel_perm(b: Seq<[u8; 3]>, ch: int)
    ensures
        sorted_by_channel(b, ch).to_multiset() == b.to_multiset(),
        sorted_by_channel(b, ch).len() == b.len(),
    decreases b.len(),
{
    broadcast use vstd::multiset::group_multiset_axioms, vstd::seq_lib::group_to_multiset_ensures;

    if b.len() == 0 {
        lemma_buckets_empty(b, ch, 0);
    } else {
        let p = b.drop_last();
        assert(p.push(b.last()) == b);
        lemma_sorted_by_channel_perm(p, ch);
        lemma_buckets_push(p, b.last(), ch, 0);
        assert(b.last()[ch] >= 0);
    }
    vstd::seq_lib::to_multiset_len(sorted_by_channel(b, ch));
    vstd::seq_lib::to_multiset_len(b);
}

proof fn lemma_key_bucket_keys(b: Seq<[u8; 3]>, ch: int, v: int)
    ensures
        forall|k: int| 0 <= k < key_bucket(b, ch, v).len() ==> #[trigger] key_bucket(b, ch, v)[k][ch] == v,
    decreases b.len(),
{
    if b.len() > 0 {
        let r = key_bucket(b.drop_last(), ch, v);
        lemma_key_bucket_keys(b.drop_last(), ch, v);
        if b.last()[ch] == v {
            assert forall|k: int| 0 <= k < r.push(b.last()).len() implies #[trigger] r.push(b.last())[k][ch]
                == v by {
                if k < r.len() {
                    assert(r.push(b.last())[k] == r[k]);
                }
            }
        }
    }
}

proof fn lemma_buckets_ascending(b: Seq<[u8; 3]>, ch: int, v: int)
    requires
        0 <= v <= 256,
    ensures
        forall|k: int| 0 <= k < buckets_from(b, ch, v).len() ==> #[trigger] buckets_from(b, ch, v)[k][ch] >= v,
        forall|i: int, j: int|
            0 <= i < j < buckets_from(b, ch, v).len() ==> #[trigger] buckets_from(b, ch, v)[i][ch]
                <= #[trigger] buckets_from(b, ch, v)[j][ch],
    decreases 256 - v,
{
    if v < 256 {
        lemma_buckets_ascending(b, ch, v + 1);
        lemma_key_bucket_keys(b, ch, v);
        let kb = key_bucket(b, ch, v);
        let rest = buckets_from(b, ch, v + 1);
        let all = buckets_from(b, ch, v);
        assert(all == kb + rest);
        assert forall|k: int| 0 <= k < all.len() implies #[trigger] all[k][ch] >= v by {
            if k < kb.len() {
                assert(all[k] == kb[k]);
            } else {
                assert(all[k] == rest[k - kb.len()]);
            }
        }
        assert forall|i: int, j: int| 0 <= i < j < all.len() implies #[trigger] all[i][ch]
            <= #[trigger] all[j][ch] by {
            if j < kb.len() {
                assert(all[i] == kb[i] && all[j] == kb[j]);
            } else if i < kb.len() {
                assert(all[i] == kb[i] && all[j] == rest[j - kb.len()]);
            } else {
                assert(all[i] == rest[i - kb.len()] && all[j] == rest[j - kb.len()]);
            }
        }
    }
}

/// Sorting by a channel puts the colors in ascending order of that channel.
pub proof fn lemma_sorted_by_channel_ascending(b: Seq<[u8; 3]>, ch: int)
    ensures
        forall|i: int, j: int|
            0 <= i < j < sorted_by_channel(b, ch).len() ==> #[trigger] sorted_by_channel(b, ch)[i][ch]
                <= #[trigger] sorted_by_channel(b, ch)[j][ch],
{
    lemma_buckets_ascending(b, ch, 0);
}

pub proof fn lemma_buckets_empty(b: Seq<[u8; 3]>, ch: int, v: int)
    requires
        b.len() == 0,
    ensures
        buckets_from(b, ch, v) == Seq::<[u8; 3]>::empty(),
    decreases 256 - v,
{
    if v < 256 {
        lemma_buckets_empty(b, ch, v + 1);
    }
}

/// A channel's bounds are the smallest and the largest value the box holds
/// in it, so its range is their difference.
pub proof fn lemma_chan_bounds_attained(cs: Seq<[u8; 3]>, k: int)
    requires
        cs.len() > 0,
        0 <= k < 3,
    ensures
        exists|i: int| 0 <= i < cs.len() && #[trigger] cs[i][k] == chan_lo(cs, k),
        exists|i: int| 0 <= i < cs.len() && #[trigger] cs[i][k] == chan_hi(cs, k),
    decreases cs.len(),
{
    let l = cs.len() - 1;
    if cs.len() > 1 {
        let d = cs.drop_last();
        lemma_chan_bounds_attained(d, k);
        let a = choose|i: int| 0 <= i < d.len() && #[trigger] d[i][k] == chan_lo(d, k);
        let b = choose|i: int| 0 <= i < d.len() && #[trigger] d[i][k] == chan_hi(d, k);
        assert(d[a] == cs[a] && d[b] == cs[b]);
        assert(cs[l] == cs.last());
        if cs.last()[k] < chan_lo(d, k) {
            assert(cs[l][k] == chan_lo(cs, k));
        } else {
            assert(cs[a][k] == chan_lo(cs, k));
        }
        if cs.last()[k] > chan_hi(d, k) {
            assert(cs[l][k] == chan_hi(cs, k));
        } else {
            assert(cs[b][k] == chan_hi(cs, k));
        }
    } else {
        assert(cs[0] == cs.last());
        assert(cs.drop_last().len() == 0);
        assert(chan_lo(cs.drop_last(), k) == 255);
        assert(chan_hi(cs.drop_last(), k) == 0);
        assert(cs[0][k] == chan_lo(cs, k));
        assert(cs[0][k] == chan_hi(cs, k));
    }
}

/// The widest channel is one whose range is at least each other channel's.
pub proof fn lemma_widest_channel_is_widest(cs: Seq<[u8; 3]>, k: int)
    requires
        0 <= k < 3,
    ensures
        0 <= spec_widest_channel(cs) < 3,
        chan_range(cs, k) <= chan_range(cs, spec_widest_channel(cs)),
{
}

/// One median-cut step replaces the chosen box by its two halves along its
/// widest channel: the lower half takes the first `len / 2` colors in that
/// channel's order, the upper half the rest, every lower value is at most
/// every upper value, and together the halves hold exactly the box's colors.
pub proof fn lemma_split_step_halves(boxes: Seq<Seq<[u8; 3]>>, i: int)
    requires
        0 <= i < boxes.len(),
    ensures
        ({
            let b = boxes[i];
            let c = spec_widest_channel(b);
            let r = split_step(boxes, i);
            let lo = r[boxes.len() - 1];
            let hi = r[boxes.len() as int];
            &&& r.len() == boxes.len() + 1
            &&& lo.len() == b.len() / 2
            &&& hi.len() == b.len() - b.len() / 2
            &&& forall|p: int, q: int|
                0 <= p < lo.len() && 0 <= q < hi.len() ==> #[trigger] lo[p][c] <= #[trigger] hi[q][c]
            &&& (lo + hi).to_multiset() == b.to_multiset()
        }),
{
    let b = boxes[i];
    let c = spec_widest_channel(b);
    let srt = sorted_by_channel(b, c);
    let mid = (b.len() / 2) as int;
    lemma_sorted_by_channel_perm(b, c);
    lemma_sorted_by_channel_ascending(b, c);
    let r = split_step(boxes, i);
    assert(r[boxes.len() - 1] == srt.take(mid));
    assert(r[boxes.len() as int] == srt.skip(mid));
    assert(srt.take(mid) + srt.skip(mid) == srt);
    let lo = srt.take(mid);
    let hi = srt.skip(mid);
    assert forall|p: int, q: int| 0 <= p < lo.len() && 0 <= q < hi.len() implies #[trigger] lo[p][c]
        <= #[trigger] hi[q][c] by {
        assert(lo[p] == srt[p] && hi[q] == srt[mid + q]);
    }
}

/// Index of the box to split next: among boxes holding more than one color,
/// one of largest spread, the later one on a tie; `None` when every box holds
/// a single color.
pub open spec fn best_box(boxes: Seq<Seq<[u8; 3]>>) -> Option<int>
    decreases boxes.len(),
{
    if boxes.len() == 0 {
        None
    } else {
        let i = boxes.len() - 1;
        let prev = best_box(boxes.drop_last());
        if boxes[i].len() > 1 {
            match prev {
                None => Some(i),
                Some(j) => if spec_channel_spread(boxes[i]) >= spec_channel_spread(boxes[j]) {
                    Some(i)
                } else {
                    Some(j)
                },
            }
        } else {
            prev
        }
    }
}

/// Median cut splits the widest box next: the box it picks holds more than
/// one color, and no other box holding more than one color has a larger
/// channel spread.
pub proof fn lemma_best_box_is_widest(boxes: Seq<Seq<[u8; 3]>>, j: int)
    requires
        best_box(boxes) is Some,
        0 <= j < boxes.len(),
        boxes[j].len() > 1,
    ensures
        boxes[best_box(boxes)->0].len() > 1,
        spec_channel_spread(boxes[j]) <= spec_channel_spread(boxes[best_box(boxes)->0]),
    decreases boxes.len(),
{
    lemma_best_box(boxes);
    let i = boxes.len() - 1;
    let d = boxes.drop_last();
    lemma_best_box(d);
    if j < i {
        assert(d[j] == boxes[j]);
        lemma_best_box_is_widest(d, j);
        let k = best_box(d)->0;
        assert(d[k] == boxes[k]);
    } else if let Some(k) = best_box(d) {
        assert(d[k] == boxes[k]);
    }
}

pub proof fn lemma_best_box(boxes: Seq<Seq<[u8; 3]>>)
    ensures
        best_box(boxes) matches Some(i) ==> 0 <= i < boxes.len() && boxes[i].len() > 1,
        best_box(boxes) is None <==> forall|j: int| 0 <= j < boxes.len() ==> #[trigger] boxes[j].len() <= 1,
    decreases boxes.len(),
{
    if boxes.len() > 0 {
        lemma_best_box(boxes.drop_last());
        if best_box(boxes) is None {
            assert forall|j: int| 0 <= j < boxes.len() implies #[trigger] boxes[j].len() <= 1 by {
                if j < boxes.len() - 1 {
                    assert(boxes.drop_last()[j] == boxes[j]);
                }
            }
        } else if let Some(j) = best_box(boxes.drop_last()) {
            assert(boxes.drop_last()[j] == boxes[j]);
        }
        if !(best_box(boxes) is None) {
            let j = if boxes[boxes.len() - 1].len() > 1 {
                boxes.len() - 1
            } else {
                let k = best_box(boxes.drop_last())->0;
                assert(boxes.drop_last()[k] == boxes[k]);
                k
            };
            assert(boxes[j].len() > 1);
        }
    }
}

/// `Vec::swap_remove`: the last box moves into slot `i`.
pub open spec fn swap_removed(boxes: Seq<Seq<[u8; 3]>>, i: int) -> Seq<Seq<[u8; 3]>> {
    boxes.update(i, boxes.last()).drop_last()
}

/// One median-cut step: take box `i` out, sort it along its widest channel
/// and append its lower and upper halves.
pub open spec fn split_step(boxes: Seq<Seq<[u8; 3]>>, i: int) -> Seq<Seq<[u8; 3]>> {
    let b = boxes[i];
    let s = sorted_by_channel(b, spec_widest_channel(b));
    let mid = (b.len() / 2) as int;
    swap_removed(boxes, i).push(s.take(mid)).push(s.skip(mid))
}

/// Median cut: split until there are `max` boxes or every box holds one color.
pub open spec fn median_cut(boxes: Seq<Seq<[u8; 3]>>, max: int) -> Seq<Seq<[u8; 3]>>
    decreases max - boxes.len(),
{
    if boxes.len() >= max {
        boxes
    } else {
        match best_box(boxes) {
            None => boxes,
            Some(i) => {
                proof {
                    lemma_best_box(boxes);
                }
                median_cut(split_step(boxes, i), max)
            },
        }
    }
}

/// The views of a vector of boxes.
pub open spec fn boxes_view(boxes: Seq<Vec<[u8; 3]>>) -> Seq<Seq<[u8; 3]>> {
    boxes.map_values(|b: Vec<[u8; 3]>| b@)
}

/// Index of the box median cut splits next, as `best_box` describes.
fn pick_box(boxes: &Vec<Vec<[u8; 3]>>) -> (r: Option<usize>)
    ensures
        r matches Some(i) ==> best_box(boxes_view(boxes@)) == Some(i as int),
        r is None ==> best_box(boxes_view(boxes@)) is None,
{
    let ghost bv = boxes_view(boxes@);
    let mut best: Option<usize> = None;
    let mut best_spread: u32 = 0;
    let mut i: usize = 0;
    while i < boxes.len()
        invariant
            bv == boxes_view(boxes@),
            i <= boxes@.len(),
            best matches Some(j) ==> best_box(bv.take(i as int)) == Some(j as int) && j < i
                && best_spread == spec_channel_spread(bv[j as int]),
            best is None ==> best_box(bv.take(i as int)) is None,
        decreases boxes@.len() - i,
    {
        proof {
            let t = bv.take(i + 1);
            assert(t.drop_last() == bv.take(i as int));
            assert(t.last() == bv[i as int]);
            if let Some(j) = best {
                assert(t[j as int] == bv[j as int]);
            }
        }
        if boxes[i].len() > 1 {
            let sp = channel_spread(&boxes[i]);
            match best {
                None => {
                    best = Some(i);
                    best_spread = sp;
                },
                Some(_) => {
                    if sp >= best_spread {
                        best = Some(i);
                        best_spread = sp;
                    }
                },
            }
        }
        i += 1;
    }
    assert(bv.take(boxes@.len() as int) == bv);
    best
}

/// Split `colors` into boxes by median cut, stopping at `max_colors` boxes.
pub fn median_cut_boxes(colors: Vec<[u8; 3]>, max_colors: usize) -> (boxes: Vec<Vec<[u8; 3]>>)
    ensures
        boxes_view(boxes@) == median_cut(seq![colors@], max_colors as int),
{
    let ghost start = seq![colors@];
    let mut boxes: Vec<Vec<[u8; 3]>> = Vec::new();
    boxes.push(colors);
    assert(boxes_view(boxes@) == start);
    while boxes.len() < max_colors
        invariant
            median_cut(boxes_view(boxes@), max_colors as int) == median_cut(start, max_colors as int),
        ensures
            median_cut(boxes_view(boxes@), max_colors as int) == median_cut(start, max_colors as int),
            median_cut(boxes_view(boxes@), max_colors as int) == boxes_view(boxes@),
        decreases max_colors - boxes@.len(),
    {
        let ghost bv = boxes_view(boxes@);
        let idx = match pick_box(&boxes) {
            Some(i) => i,
            None => break,
        };
        proof {
            lemma_best_box(bv);
        }
        let b = boxes.swap_remove(idx);
        assert(b@ == bv[idx as int]);
        let channel = widest_channel(&b);
        let mut lo = sort_by_channel(&b, channel);
        proof {
            lemma_sorted_by_channel_perm(b@, channel as int);
        }
        let mid = b.len() / 2;
        let hi = lo.split_off(mid);
        boxes.push(lo);
        boxes.push(hi);
        proof {
            let s = sorted_by_channel(b@, channel as int);
            assert(s.take(mid as int) == s.subrange(0, mid as int));
            assert(boxes_view(boxes@) == split_step(bv, idx as int));
        }
    }
    boxes
}

} // verus!
