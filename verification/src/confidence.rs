//! Quality metrics for predictions: the pixel counts behind intersection over union,
//! pixel accuracy and the class distribution of a mask.

use vstd::prelude::*;
use crate::grid::{SegmentationMask, mask_cells};

verus! {

/// The pixel counts of intersection over union for one class.
#[derive(Debug, Clone, Copy, PartialEq, Eq, Structural)]
pub struct IouCounts {
    /// Pixels of the class in both masks.
    pub intersection: u64,
    /// Pixels of the class in either mask.
    pub union: u64,
}

/// The pixel counts of pixel accuracy.
#[derive(Debug, Clone, Copy, PartialEq, Eq, Structural)]
pub struct AccuracyCounts {
    /// Pixels on which the two masks agree.
    pub correct: usize,
    /// Pixels of the predicted mask.
    pub total: usize,
}

pub open spec fn min_len(a: Seq<u8>, b: Seq<u8>) -> int {
    if a.len() <= b.len() {
        a.len() as int
    } else {
        b.len() as int
    }
}

/// Among the first `n` pixel pairs, those where both masks hold class `c`.
pub open spec fn both_count(p: Seq<u8>, g: Seq<u8>, c: u8, n: int) -> nat
    decreases n,
{
    if n <= 0 {
        0
    } else {
        both_count(p, g, c, n - 1) + if p[n - 1] == c && g[n - 1] == c {
            1nat
        } else {
            0nat
        }
    }
}

/// Among the first `n` pixel pairs, those where either mask holds class `c`.
pub open spec fn either_count(p: Seq<u8>, g: Seq<u8>, c: u8, n: int) -> nat
    decreases n,
{
    if n <= 0 {
        0
    } else {
        either_count(p, g, c, n - 1) + if p[n - 1] == c || g[n - 1] == c {
            1nat
        } else {
            0nat
        }
    }
}

/// Among the first `n` pixel pairs, those where the masks agree.
pub open spec fn agree_count(p: Seq<u8>, g: Seq<u8>, n: int) -> nat
    decreases n,
{
    if n <= 0 {
        0
    } else {
        agree_count(p, g, n - 1) + if p[n - 1] == g[n - 1] {
            1nat
        } else {
            0nat
        }
    }
}

/// Among the first `n` cells, those that hold class `v`.
pub open spec fn value_count(s: Seq<u8>, v: int, n: int) -> nat
    decreases n,
{
    if n <= 0 {
        0
    } else {
        value_count(s, v, n - 1) + if s[n - 1] == v {
            1nat
        } else {
            0nat
        }
    }
}

proof fn lemma_value_count_bound(s: Seq<u8>, v: int, n: int)
    requires
        n >= 0,
    ensures
        value_count(s, v, n) <= n,
    decreases n,
{
    if n > 0 {
        lemma_value_count_bound(s, v, n - 1);
    }
}

/// The classes `0 .. n` that occur in `s`, each with its pixel count, in class order.
pub open spec fn present_classes(s: Seq<u8>, n: int) -> Seq<(u8, u64)>
    decreases n,
{
    if n <= 0 {
        seq![]
    } else {
        present_classes(s, n - 1) + if value_count(s, n - 1, s.len() as int) > 0 {
            seq![(((n - 1) as u8), value_count(s, n - 1, s.len() as int) as u64)]
        } else {
            seq![]
        }
    }
}

/// The pixel counts of the intersection over union of class `class_id` between a predicted
/// and a ground-truth mask, pairing their cells in row-major order (as far as the shorter
/// of the two goes).
pub fn iou_counts(predicted: &SegmentationMask, ground_truth: &SegmentationMask, class_id: u8) -> (r:
    IouCounts)
    ensures
        r.intersection == both_count(
            mask_cells(*predicted),
            mask_cells(*ground_truth),
            class_id,
            min_len(mask_cells(*predicted), mask_cells(*ground_truth)),
        ),
        r.union == either_count(
            mask_cells(*predicted),
            mask_cells(*ground_truth),
            class_id,
            min_len(mask_cells(*predicted), mask_cells(*ground_truth)),
        ),
{
    let p = predicted.to_cells();
    let g = ground_truth.to_cells();
    let n = if p.len() <= g.len() {
        p.len()
    } else {
        g.len()
    };
    let mut intersection: u64 = 0;
    let mut union: u64 = 0;
    let mut i: usize = 0;
    while i < n
        invariant
            i <= n,
            n == min_len(p@, g@),
            p@ == mask_cells(*predicted),
            g@ == mask_cells(*ground_truth),
            intersection == both_count(p@, g@, class_id, i as int),
            union == either_count(p@, g@, class_id, i as int),
            intersection <= i,
            union <= i,
        decreases n - i,
    {
        let p_match = p[i] == class_id;
        let g_match = g[i] == class_id;
        if p_match && g_match {
            intersection = intersection + 1;
        }
        if p_match || g_match {
            union = union + 1;
        }
        i = i + 1;
    }
    IouCounts { intersection, union }
}

/// The pixel counts of pixel accuracy: the pixels on which the masks agree (pairing their
/// cells in row-major order, as far as the shorter goes) and the pixels of the prediction.
pub fn accuracy_counts(predicted: &SegmentationMask, ground_truth: &SegmentationMask) -> (r:
    AccuracyCounts)
    ensures
        r.correct == agree_count(
            mask_cells(*predicted),
            mask_cells(*ground_truth),
            min_len(mask_cells(*predicted), mask_cells(*ground_truth)),
        ),
        r.total == mask_cells(*predicted).len(),
{
    let p = predicted.to_cells();
    let g = ground_truth.to_cells();
    let n = if p.len() <= g.len() {
        p.len()
    } else {
        g.len()
    };
    let mut correct: usize = 0;
    let mut i: usize = 0;
    while i < n
        invariant
            i <= n,
            n == min_len(p@, g@),
            p@ == mask_cells(*predicted),
            g@ == mask_cells(*ground_truth),
            correct == agree_count(p@, g@, i as int),
            correct <= i,
        decreases n - i,
    {
        if p[i] == g[i] {
            correct = correct + 1;
        }
        i = i + 1;
    }
    AccuracyCounts { correct, total: p.len() }
}

/// The classes `0 .. num_classes` present in a mask, each with its pixel count, in class
/// order (class ids taken modulo 256).
pub fn class_counts(mask: &SegmentationMask, num_classes: usize) -> (r: Vec<(u8, u64)>)
    ensures
        r@ == present_classes(mask_cells(*mask), num_classes as int),
{
    let cells = mask.to_cells();
    let ghost s = cells@;
    let mut counts: Vec<u64> = Vec::new();
    let mut k: usize = 0;
    while k < num_classes
        invariant
            k <= num_classes,
            counts@.len() == k,
            forall|j: int| 0 <= j < k ==> counts@[j] == 0,
        decreases num_classes - k,
    {
        counts.push(0);
        k = k + 1;
    }
    let mut i: usize = 0;
    while i < cells.len()
        invariant
            i <= cells@.len(),
            s == cells@,
            counts@.len() == num_classes,
            forall|j: int| 0 <= j < num_classes ==> #[trigger] counts@[j] == value_count(s, j, i as int),
        decreases cells@.len() - i,
    {
        let v = cells[i] as usize;
        if v < num_classes {
            proof {
                lemma_value_count_bound(s, v as int, i as int);
            }
            let c = counts[v];
            counts.set(v, c + 1);
        }
        i = i + 1;
    }
    let mut present: Vec<(u8, u64)> = Vec::new();
    let mut j: usize = 0;
    while j < num_classes
        invariant
            j <= num_classes,
            s == cells@,
            s == mask_cells(*mask),
            counts@.len() == num_classes,
            forall|t: int| 0 <= t < num_classes ==> #[trigger] counts@[t] == value_count(s, t, s.len() as int),
            present@ == present_classes(s, j as int),
        decreases num_classes - j,
    {
        proof {
            lemma_value_count_bound(s, j as int, s.len() as int);
        }
        if counts[j] > 0 {
            present.push((#[verifier::truncate] (j as u8), counts[j]));
        }
        j = j + 1;
    }
    present
}


proof fn lemma_counts_symmetric(p: Seq<u8>, g: Seq<u8>, c: u8, n: int)
    ensures
        both_count(p, g, c, n) == both_count(g, p, c, n),
        either_count(p, g, c, n) == either_count(g, p, c, n),
        agree_count(p, g, n) == agree_count(g, p, n),
        both_count(p, g, c, n) <= either_count(p, g, c, n),
    decreases n,
{
    if n > 0 {
        lemma_counts_symmetric(p, g, c, n - 1);
    }
}

proof fn lemma_counts_self(p: Seq<u8>, c: u8, n: int)
    requires
        n >= 0,
    ensures
        both_count(p, p, c, n) == either_count(p, p, c, n),
        agree_count(p, p, n) == n,
    decreases n,
{
    if n > 0 {
        lemma_counts_self(p, c, n - 1);
    }
}

/// Intersection over union is symmetric and at most 1: swapping the predicted and the
/// ground-truth mask changes neither count, and the intersection never exceeds the union.
/// Pixel accuracy counts the same agreeing pixels either way round.
pub proof fn lemma_iou_symmetric(a: SegmentationMask, b: SegmentationMask, c: u8)
    ensures
        both_count(mask_cells(a), mask_cells(b), c, min_len(mask_cells(a), mask_cells(b)))
            == both_count(mask_cells(b), mask_cells(a), c, min_len(mask_cells(b), mask_cells(a))),
        either_count(mask_cells(a), mask_cells(b), c, min_len(mask_cells(a), mask_cells(b)))
            == either_count(mask_cells(b), mask_cells(a), c, min_len(mask_cells(b), mask_cells(a))),
        agree_count(mask_cells(a), mask_cells(b), min_len(mask_cells(a), mask_cells(b)))
            == agree_count(mask_cells(b), mask_cells(a), min_len(mask_cells(b), mask_cells(a))),
        both_count(mask_cells(a), mask_cells(b), c, min_len(mask_cells(a), mask_cells(b)))
            <= either_count(mask_cells(a), mask_cells(b), c, min_len(mask_cells(a), mask_cells(b))),
{
    lemma_counts_symmetric(mask_cells(a), mask_cells(b), c, min_len(mask_cells(a), mask_cells(b)));
}

/// A mask compared with itself is a perfect match: for every class the intersection equals
/// the union (IoU 1), and every pixel agrees (pixel accuracy 1).
pub proof fn lemma_iou_self(a: SegmentationMask, c: u8)
    ensures
        both_count(mask_cells(a), mask_cells(a), c, min_len(mask_cells(a), mask_cells(a)))
            == either_count(mask_cells(a), mask_cells(a), c, min_len(mask_cells(a), mask_cells(a))),
        agree_count(mask_cells(a), mask_cells(a), min_len(mask_cells(a), mask_cells(a)))
            == mask_cells(a).len(),
{
    lemma_counts_self(mask_cells(a), c, mask_cells(a).len() as int);
}

/// A count built up one position at a time, adding one where `pred` holds, is the number of
/// positions below `n` where `pred` holds.
proof fn lemma_count_is_card(n: int, pred: spec_fn(int) -> bool, count: spec_fn(int) -> nat)
    requires
        n >= 0,
        count(0) == 0,
        forall|k: int| 0 < k <= n ==> #[trigger] count(k) == count(k - 1) + if pred(k - 1) {
            1nat
        } else {
            0nat
        },
    ensures
        Set::new(|i: int| 0 <= i < n && pred(i)).finite(),
        count(n) == Set::new(|i: int| 0 <= i < n && pred(i)).len(),
    decreases n,
{
    if n > 0 {
        lemma_count_is_card(n - 1, pred, count);
        let s0 = Set::new(|i: int| 0 <= i < n - 1 && pred(i));
        let s1 = Set::new(|i: int| 0 <= i < n && pred(i));
        assert(count(n) == count(n - 1) + if pred(n - 1) {
            1nat
        } else {
            0nat
        });
        if pred(n - 1) {
            assert(s1 =~= s0.insert(n - 1));
        } else {
            assert(s1 =~= s0);
        }
    } else {
        assert(Set::new(|i: int| 0 <= i < n && pred(i)) =~= Set::<int>::empty());
    }
}

/// Pixel accuracy counts exactly the agreeing pixels: `correct` (`agree_count` over the
/// paired cells) is the number of positions `i` below `n` with `p[i] == g[i]`. Masks that
/// differ at every such position have no correct pixel, and equal ones have `n`.
pub proof fn lemma_agree_count_counts_equal_cells(p: Seq<u8>, g: Seq<u8>, n: int)
    requires
        0 <= n,
    ensures
        agree_count(p, g, n) == Set::new(|i: int| 0 <= i < n && p[i] == g[i]).len(),
        (forall|i: int| 0 <= i < n ==> p[i] != g[i]) ==> agree_count(p, g, n) == 0,
        (forall|i: int| 0 <= i < n ==> p[i] == g[i]) ==> agree_count(p, g, n) == n,
{
    let pred = |i: int| p[i] == g[i];
    let count = |k: int| agree_count(p, g, k);
    assert forall|k: int| 0 < k <= n implies #[trigger] count(k) == count(k - 1) + if pred(k - 1) {
        1nat
    } else {
        0nat
    } by {}
    lemma_count_is_card(n, pred, count);
    let s = Set::new(|i: int| 0 <= i < n && p[i] == g[i]);
    assert(s == Set::new(|i: int| 0 <= i < n && pred(i)));
    if forall|i: int| 0 <= i < n ==> p[i] != g[i] {
        assert(s =~= Set::<int>::empty());
    }
    if forall|i: int| 0 <= i < n ==> p[i] == g[i] {
        assert(s =~= Set::new(|i: int| 0 <= i < n));
        vstd::set_lib::lemma_int_range(0, n);
        assert(Set::new(|i: int| 0 <= i < n) =~= vstd::set_lib::set_int_range(0, n));
    }
}

/// The intersection and union counts of class `c` are the numbers of positions `i` below
/// `n` where both cells, or at least one of them, hold `c`.
pub proof fn lemma_iou_counts_count_class_cells(p: Seq<u8>, g: Seq<u8>, c: u8, n: int)
    requires
        0 <= n,
    ensures
        both_count(p, g, c, n) == Set::new(|i: int| 0 <= i < n && p[i] == c && g[i] == c).len(),
        either_count(p, g, c, n) == Set::new(|i: int| 0 <= i < n && (p[i] == c || g[i] == c)).len(),
{
    let pb = |i: int| p[i] == c && g[i] == c;
    let cb = |k: int| both_count(p, g, c, k);
    assert forall|k: int| 0 < k <= n implies #[trigger] cb(k) == cb(k - 1) + if pb(k - 1) {
        1nat
    } else {
        0nat
    } by {}
    lemma_count_is_card(n, pb, cb);
    assert(Set::new(|i: int| 0 <= i < n && p[i] == c && g[i] == c) == Set::new(|i: int| 0 <= i < n && pb(i)));
    let pe = |i: int| p[i] == c || g[i] == c;
    let ce = |k: int| either_count(p, g, c, k);
    assert forall|k: int| 0 < k <= n implies #[trigger] ce(k) == ce(k - 1) + if pe(k - 1) {
        1nat
    } else {
        0nat
    } by {}
    lemma_count_is_card(n, pe, ce);
    assert(Set::new(|i: int| 0 <= i < n && (p[i] == c || g[i] == c)) == Set::new(|i: int| 0 <= i < n && pe(i)));
}

/// The pixel count of a class is the number of cells that hold it: `value_count(s, v, n)`
/// is the number of positions `i` below `n` with `s[i] == v`.
pub proof fn lemma_value_count_counts_cells(s: Seq<u8>, v: int, n: int)
    requires
        0 <= n,
    ensures
        value_count(s, v, n) == Set::new(|i: int| 0 <= i < n && s[i] == v).len(),
{
    let pv = |i: int| s[i] == v;
    let cv = |k: int| value_count(s, v, k);
    assert forall|k: int| 0 < k <= n implies #[trigger] cv(k) == cv(k - 1) + if pv(k - 1) {
        1nat
    } else {
        0nat
    } by {}
    lemma_count_is_card(n, pv, cv);
    assert(Set::new(|i: int| 0 <= i < n && s[i] == v) == Set::new(|i: int| 0 <= i < n && pv(i)));
}

/// The class distribution lists each class below `n` that occurs in `s`, once, in
/// increasing class order, with its pixel count, and nothing else.
pub proof fn lemma_present_classes_lists_occurring(s: Seq<u8>, n: int)
    requires
        0 <= n <= 256,
        s.len() <= u64::MAX,
    ensures
        forall|k: int|
            0 <= k < present_classes(s, n).len() ==> {
                let e = #[trigger] present_classes(s, n)[k];
                &&& e.0 < n
                &&& e.1 > 0
                &&& e.1 == value_count(s, e.0 as int, s.len() as int)
            },
        forall|v: int|
            0 <= v < n && value_count(s, v, s.len() as int) > 0 ==> exists|k: int|
                0 <= k < present_classes(s, n).len() && (#[trigger] present_classes(s, n)[k]).0 == v,
        forall|k1: int, k2: int|
            0 <= k1 < k2 < present_classes(s, n).len() ==> (#[trigger] present_classes(s, n)[k1]).0
                < (#[trigger] present_classes(s, n)[k2]).0,
    decreases n,
{
    if n > 0 {
        lemma_present_classes_lists_occurring(s, n - 1);
        lemma_value_count_bound(s, n - 1, s.len() as int);
        let a = present_classes(s, n - 1);
        let t = if value_count(s, n - 1, s.len() as int) > 0 {
            seq![(((n - 1) as u8), value_count(s, n - 1, s.len() as int) as u64)]
        } else {
            seq![]
        };
        let r = present_classes(s, n);
        assert(r == a + t);
        assert forall|k: int| 0 <= k < r.len() implies {
            let e = #[trigger] r[k];
            &&& e.0 < n
            &&& e.1 > 0
            &&& e.1 == value_count(s, e.0 as int, s.len() as int)
        } by {
            if k < a.len() {
                assert(r[k] == a[k]);
            } else {
                assert(r[k] == t[k - a.len()]);
            }
        }
        assert forall|v: int|
            0 <= v < n && value_count(s, v, s.len() as int) > 0 implies exists|k: int|
                0 <= k < r.len() && (#[trigger] r[k]).0 == v by {
            if v < n - 1 {
                let k = choose|k: int| 0 <= k < a.len() && (#[trigger] a[k]).0 == v;
                assert(r[k] == a[k]);
            } else {
                assert(r[a.len() as int] == t[0]);
            }
        }
        assert forall|k1: int, k2: int| 0 <= k1 < k2 < r.len() implies (#[trigger] r[k1]).0
            < (#[trigger] r[k2]).0 by {
            if k2 < a.len() {
                assert(r[k1] == a[k1]);
                assert(r[k2] == a[k2]);
            } else {
                assert(r[k2] == t[k2 - a.len()]);
                assert(k1 < a.len());
                assert(r[k1] == a[k1]);
            }
        }
    }
}
} // verus!
