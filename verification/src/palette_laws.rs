//! What median cut keeps: every color lands in exactly one non-empty box, and
//! the number of boxes is as large as the color budget and the colors allow.

use vstd::multiset::Multiset;
use vstd::prelude::*;

use crate::palette::{
    best_box, lemma_best_box, lemma_sorted_by_channel_perm, median_cut, sorted_by_channel,
    spec_widest_channel, split_step, swap_removed,
};

verus! {

broadcast use vstd::multiset::group_multiset_axioms, vstd::seq_lib::group_to_multiset_ensures;

/// All the colors held by a list of boxes, counted with multiplicity.
pub open spec fn boxes_multiset(boxes: Seq<Seq<[u8; 3]>>) -> Multiset<[u8; 3]>
    decreases boxes.len(),
{
    if boxes.len() == 0 {
        Multiset::empty()
    } else {
        boxes_multiset(boxes.drop_last()).add(boxes.last().to_multiset())
    }
}

/// Total number of colors held by a list of boxes.
pub open spec fn total_len(boxes: Seq<Seq<[u8; 3]>>) -> nat
    decreases boxes.len(),
{
    if boxes.len() == 0 {
        0
    } else {
        total_len(boxes.drop_last()) + boxes.last().len()
    }
}

pub open spec fn all_nonempty(boxes: Seq<Seq<[u8; 3]>>) -> bool {
    forall|i: int| 0 <= i < boxes.len() ==> #[trigger] boxes[i].len() > 0
}

proof fn lemma_total_len_is_multiset_len(boxes: Seq<Seq<[u8; 3]>>)
    ensures
        boxes_multiset(boxes).len() == total_len(boxes),
    decreases boxes.len(),
{
    if boxes.len() > 0 {
        lemma_total_len_is_multiset_len(boxes.drop_last());
    }
}

proof fn lemma_push_multiset(boxes: Seq<Seq<[u8; 3]>>, b: Seq<[u8; 3]>)
    ensures
        boxes_multiset(boxes.push(b)) == boxes_multiset(boxes).add(b.to_multiset()),
        total_len(boxes.push(b)) == total_len(boxes) + b.len(),
{
    assert(boxes.push(b).drop_last() == boxes);
}

proof fn lemma_update_multiset(boxes: Seq<Seq<[u8; 3]>>, i: int, x: Seq<[u8; 3]>)
    requires
        0 <= i < boxes.len(),
    ensures
        boxes_multiset(boxes.update(i, x)).add(boxes[i].to_multiset()) == boxes_multiset(boxes).add(
            x.to_multiset(),
        ),
    decreases boxes.len(),
{
    let u = boxes.update(i, x);
    if i == boxes.len() - 1 {
        assert(u.drop_last() == boxes.drop_last());
        assert(boxes_multiset(u).add(boxes[i].to_multiset()) =~= boxes_multiset(boxes).add(
            x.to_multiset(),
        ));
    } else {
        let d = boxes.drop_last();
        assert(u.drop_last() == d.update(i, x));
        assert(u.last() == boxes.last());
        assert(d[i] == boxes[i]);
        lemma_update_multiset(d, i, x);
        assert(boxes_multiset(u) == boxes_multiset(d.update(i, x)).add(boxes.last().to_multiset()));
        assert(boxes_multiset(boxes) == boxes_multiset(d).add(boxes.last().to_multiset()));
        let l = boxes_multiset(u).add(boxes[i].to_multiset());
        let r = boxes_multiset(boxes).add(x.to_multiset());
        assert forall|c: [u8; 3]| l.count(c) == r.count(c) by {
            assert(boxes_multiset(d.update(i, x)).add(d[i].to_multiset()).count(c) == boxes_multiset(
                d,
            ).add(x.to_multiset()).count(c));
        }
        assert(l =~= r);
    }
}

/// A median-cut step neither loses nor invents a color, adds one box, and
/// leaves every box non-empty.
pub proof fn lemma_split_step(boxes: Seq<Seq<[u8; 3]>>, i: int)
    requires
        0 <= i < boxes.len(),
        boxes[i].len() > 1,
        all_nonempty(boxes),
    ensures
        boxes_multiset(split_step(boxes, i)) == boxes_multiset(boxes),
        total_len(split_step(boxes, i)) == total_len(boxes),
        split_step(boxes, i).len() == boxes.len() + 1,
        all_nonempty(split_step(boxes, i)),
{
    let b = boxes[i];
    let s = sorted_by_channel(b, spec_widest_channel(b));
    let mid = (b.len() / 2) as int;
    let last = boxes.last();
    let u = boxes.update(i, last);
    let sr = swap_removed(boxes, i);
    lemma_sorted_by_channel_perm(b, spec_widest_channel(b));
    lemma_update_multiset(boxes, i, last);
    assert(u.drop_last().push(u.last()) == u);
    lemma_push_multiset(u.drop_last(), u.last());
    assert(s.take(mid) + s.skip(mid) == s);
    vstd::seq_lib::lemma_multiset_commutative(s.take(mid), s.skip(mid));
    lemma_push_multiset(sr, s.take(mid));
    lemma_push_multiset(sr.push(s.take(mid)), s.skip(mid));
    assert(boxes_multiset(u) == boxes_multiset(sr).add(last.to_multiset()));
    let l = boxes_multiset(sr).add(b.to_multiset());
    assert forall|c: [u8; 3]| l.count(c) == boxes_multiset(boxes).count(c) by {
        assert(boxes_multiset(u).add(b.to_multiset()).count(c) == boxes_multiset(boxes).add(
            last.to_multiset(),
        ).count(c));
    }
    assert(l =~= boxes_multiset(boxes));
    assert(boxes_multiset(split_step(boxes, i)) =~= boxes_multiset(boxes));
    lemma_total_len_is_multiset_len(split_step(boxes, i));
    lemma_total_len_is_multiset_len(boxes);
    assert forall|j: int| 0 <= j < split_step(boxes, i).len() implies #[trigger] split_step(
        boxes,
        i,
    )[j].len() > 0 by {
        if j < sr.len() {
            assert(sr[j] == u[j]);
        }
    }
}

proof fn lemma_total_len_bounds(boxes: Seq<Seq<[u8; 3]>>)
    requires
        all_nonempty(boxes),
    ensures
        total_len(boxes) >= boxes.len(),
        total_len(boxes) == boxes.len() <==> forall|j: int|
            0 <= j < boxes.len() ==> #[trigger] boxes[j].len() <= 1,
    decreases boxes.len(),
{
    if boxes.len() > 0 {
        let d = boxes.drop_last();
        assert forall|j: int| 0 <= j < d.len() implies #[trigger] d[j].len() > 0 by {
            assert(d[j] == boxes[j]);
        }
        lemma_total_len_bounds(d);
        if total_len(boxes) == boxes.len() {
            assert forall|j: int| 0 <= j < boxes.len() implies #[trigger] boxes[j].len() <= 1 by {
                if j < d.len() {
                    assert(d[j] == boxes[j]);
                }
            }
        }
        if forall|j: int| 0 <= j < boxes.len() ==> #[trigger] boxes[j].len() <= 1 {
            assert forall|j: int| 0 <= j < d.len() implies #[trigger] d[j].len() <= 1 by {
                assert(d[j] == boxes[j]);
            }
        }
    }
}

/// Median cut keeps every color it was given, in non-empty boxes, and stops at
/// the color budget or when every box holds a single color: it returns
/// max(current box count, min(budget, number of colors)) boxes.
pub proof fn lemma_median_cut(boxes: Seq<Seq<[u8; 3]>>, max: int)
    requires
        all_nonempty(boxes),
    ensures
        boxes_multiset(median_cut(boxes, max)) == boxes_multiset(boxes),
        total_len(median_cut(boxes, max)) == total_len(boxes),
        all_nonempty(median_cut(boxes, max)),
        median_cut(boxes, max).len() == if boxes.len() >= max || boxes.len() >= total_len(boxes) {
            boxes.len() as int
        } else if max <= total_len(boxes) {
            max
        } else {
            total_len(boxes) as int
        },
    decreases max - boxes.len(),
{
    lemma_best_box(boxes);
    lemma_total_len_bounds(boxes);
    if boxes.len() >= max {
    } else {
        match best_box(boxes) {
            None => {},
            Some(i) => {
                lemma_split_step(boxes, i);
                lemma_median_cut(split_step(boxes, i), max);
            },
        }
    }
}

/// The law for a single starting box: cutting `colors` (at least one) under a
/// budget of `max` colors gives max(1, min(max, |colors|)) non-empty boxes that
/// together hold exactly `colors`.
pub proof fn lemma_median_cut_from_colors(colors: Seq<[u8; 3]>, max: int)
    requires
        colors.len() > 0,
    ensures
        boxes_multiset(median_cut(seq![colors], max)) == colors.to_multiset(),
        all_nonempty(median_cut(seq![colors], max)),
        median_cut(seq![colors], max).len() == if max <= 1 {
            1
        } else if max <= colors.len() {
            max
        } else {
            colors.len() as int
        },
{
    let start = seq![colors];
    let e = Seq::<Seq<[u8; 3]>>::empty();
    assert(start.drop_last() == e);
    assert(boxes_multiset(e) == Multiset::<[u8; 3]>::empty());
    assert(total_len(e) == 0);
    assert(boxes_multiset(start) == boxes_multiset(e).add(colors.to_multiset()));
    assert(boxes_multiset(start) =~= colors.to_multiset());
    assert(total_len(start) == colors.len());
    lemma_median_cut(start, max);
}

} // verus!
