use vstd::prelude::*;
use crate::boxes::{iou_exceeds, iou_exceeds_exec, suppresses, CandidateBox, SuppressionConfig};

verus! {

/// Box `i` is considered before box `j`: a higher score first, and the lower
/// index first among equal scores.
pub open spec fn ranks_above(s: Seq<CandidateBox>, i: int, j: int) -> bool {
    s[i].score > s[j].score || (s[i].score == s[j].score && i < j)
}

/// Box `i` exists and scores at least the threshold.
pub open spec fn eligible(s: Seq<CandidateBox>, cfg: SuppressionConfig, i: int) -> bool {
    0 <= i < s.len() && s[i].score >= cfg.score_threshold
}

/// `out` is what greedy suppression selects from `s`: eligible boxes in rank
/// order, no two of which suppress each other, and every eligible box left out
/// is suppressed by a selected box that ranks above it.
pub open spec fn is_suppression_of(s: Seq<CandidateBox>, cfg: SuppressionConfig, out: Seq<usize>) -> bool {
    &&& forall|k: int| 0 <= k < out.len() ==> eligible(s, cfg, #[trigger] out[k] as int)
    &&& forall|k1: int, k2: int|
        0 <= k1 < k2 < out.len() ==> ranks_above(s, #[trigger] out[k1] as int, #[trigger] out[k2] as int)
    &&& forall|k1: int, k2: int|
        0 <= k1 < out.len() && 0 <= k2 < out.len() && k1 != k2 ==> !suppresses(
            s[#[trigger] out[k1] as int],
            s[#[trigger] out[k2] as int],
            cfg,
        )
    &&& forall|i: int|
        eligible(s, cfg, i) && !out.contains(i as usize) ==> exists|k: int|
            0 <= k < out.len() && ranks_above(s, #[trigger] out[k] as int, i) && suppresses(
                s[out[k] as int],
                s[i],
                cfg,
            )
}

/// No two selected boxes of one class overlap by more than the IoU
/// threshold, and every selected box scores at least the score threshold.
pub proof fn lemma_survivors_apart(s: Seq<CandidateBox>, cfg: SuppressionConfig, out: Seq<usize>)
    requires
        is_suppression_of(s, cfg, out),
    ensures
        forall|k1: int, k2: int|
            0 <= k1 < out.len() && 0 <= k2 < out.len() && k1 != k2 && s[#[trigger] out[k1] as int].class_id == s[#[trigger] out[k2] as int].class_id
                ==> !iou_exceeds(s[out[k1] as int], s[out[k2] as int], cfg),
        forall|k: int| 0 <= k < out.len() ==> s[#[trigger] out[k] as int].score >= cfg.score_threshold,
{
}

/// Box `j` comes after the last box handled (all of them, before the first).
pub open spec fn after(s: Seq<CandidateBox>, last: Option<usize>, j: int) -> bool {
    match last {
        None => true,
        Some(l) => ranks_above(s, l as int, j),
    }
}

/// How many eligible boxes below index `n` come after `last`.
pub open spec fn count_after(s: Seq<CandidateBox>, cfg: SuppressionConfig, last: Option<usize>, n: int) -> nat
    decreases n,
{
    if n <= 0 {
        0
    } else {
        count_after(s, cfg, last, n - 1) + if eligible(s, cfg, n - 1) && after(s, last, n - 1) {
            1nat
        } else {
            0nat
        }
    }
}

proof fn lemma_count_after_shrinks(s: Seq<CandidateBox>, cfg: SuppressionConfig, last: Option<usize>, i: usize, n: int)
    requires
        eligible(s, cfg, i as int),
        after(s, last, i as int),
        0 <= n,
    ensures
        count_after(s, cfg, Some(i), n) <= count_after(s, cfg, last, n),
        n > i ==> count_after(s, cfg, Some(i), n) < count_after(s, cfg, last, n),
    decreases n,
{
    if n > 0 {
        lemma_count_after_shrinks(s, cfg, last, i, n - 1);
        assert(!after(s, Some(i), i as int));
    }
}

/// The highest-ranked eligible box that comes after `last`, if any.
fn next_candidate(s: &Vec<CandidateBox>, cfg: &SuppressionConfig, last: Option<usize>) -> (r: Option<usize>)
    requires
        match last {
            None => true,
            Some(l) => l < s@.len(),
        },
    ensures
        match r {
            None => forall|j: int| eligible(s@, *cfg, j) ==> !after(s@, last, j),
            Some(i) => eligible(s@, *cfg, i as int) && after(s@, last, i as int) && forall|j: int|
                eligible(s@, *cfg, j) && after(s@, last, j) && j != i ==> ranks_above(s@, i as int, j),
        },
{
    let mut best: Option<usize> = None;
    let mut j: usize = 0;
    while j < s.len()
        invariant
            j <= s@.len(),
            match last {
                None => true,
                Some(l) => l < s@.len(),
            },
            match best {
                None => forall|q: int| 0 <= q < j && eligible(s@, *cfg, q) ==> !after(s@, last, q),
                Some(i) => i < j && eligible(s@, *cfg, i as int) && after(s@, last, i as int) && forall|q: int|
                    0 <= q < j && eligible(s@, *cfg, q) && after(s@, last, q) && q != i ==> ranks_above(
                        s@,
                        i as int,
                        q,
                    ),
            },
        decreases s@.len() - j,
    {
        let c = s[j].score;
        let is_after = match last {
            None => true,
            Some(l) => s[l].score > c || (s[l].score == c && l < j),
        };
        if c >= cfg.score_threshold && is_after {
            match best {
                None => {
                    best = Some(j);
                },
                Some(i) => {
                    if c > s[i].score {
                        best = Some(j);
                    }
                },
            }
        }
        j = j + 1;
    }
    best
}

/// Greedy non-maximum suppression. Boxes are taken in rank order (score
/// descending, index ascending); a box is selected unless an already selected
/// box of its class overlaps it by more than the IoU threshold. Boxes below the
/// score threshold are never selected. Returns the selected indices in the
/// order they were selected.
///
/// A threshold at or above 1 is accepted, but then no pair ever overlaps
/// enough: near-duplicate boxes all survive as separate detections.
pub fn non_max_suppression(s: &Vec<CandidateBox>, cfg: &SuppressionConfig) -> (out: Vec<usize>)
    ensures
        is_suppression_of(s@, *cfg, out@),
{
    let mut out: Vec<usize> = Vec::new();
    let mut last: Option<usize> = None;
    loop
        invariant
            match last {
                None => out@.len() == 0,
                Some(l) => eligible(s@, *cfg, l as int) && forall|k: int|
                    0 <= k < out@.len() ==> out@[k] == l || ranks_above(s@, #[trigger] out@[k] as int, l as int),
            },
            forall|k: int| 0 <= k < out@.len() ==> eligible(s@, *cfg, #[trigger] out@[k] as int),
            forall|k1: int, k2: int|
                0 <= k1 < k2 < out@.len() ==> ranks_above(s@, #[trigger] out@[k1] as int, #[trigger] out@[k2] as int),
            forall|k1: int, k2: int|
                0 <= k1 < out@.len() && 0 <= k2 < out@.len() && k1 != k2 ==> !suppresses(
                    s@[#[trigger] out@[k1] as int],
                    s@[#[trigger] out@[k2] as int],
                    *cfg,
                ),
            forall|i: int|
                eligible(s@, *cfg, i) && !after(s@, last, i) && !out@.contains(i as usize) ==> exists|k: int|
                    0 <= k < out@.len() && ranks_above(s@, #[trigger] out@[k] as int, i) && suppresses(
                        s@[out@[k] as int],
                        s@[i],
                        *cfg,
                    ),
        ensures
            forall|j: int| eligible(s@, *cfg, j) ==> !after(s@, last, j),
        decreases count_after(s@, *cfg, last, s@.len() as int),
    {
        match next_candidate(s, cfg, last) {
            None => {
                break ;
            },
            Some(i) => {
                let mut hit: Option<usize> = None;
                let mut k: usize = 0;
                while k < out.len()
                    invariant
                        k <= out@.len(),
                        i < s@.len(),
                        forall|q: int| 0 <= q < out@.len() ==> (#[trigger] out@[q]) < s@.len(),
                        match hit {
                            None => forall|q: int| 0 <= q < k ==> !suppresses(s@[#[trigger] out@[q] as int], s@[i as int], *cfg),
                            Some(q) => q < out@.len() && suppresses(s@[out@[q as int] as int], s@[i as int], *cfg),
                        },
                    decreases out@.len() - k,
                {
                    if hit.is_none() {
                        let kept = &s[out[k]];
                        if kept.class_id == s[i].class_id && iou_exceeds_exec(kept, &s[i], cfg) {
                            hit = Some(k);
                        }
                    }
                    k = k + 1;
                }
                proof {
                    lemma_count_after_shrinks(s@, *cfg, last, i, s@.len() as int);
                }
                let ghost old_out = out@;
                match hit {
                    Some(q) => {
                        assert(ranks_above(s@, out@[q as int] as int, i as int));
                        assert forall|j: int|
                            eligible(s@, *cfg, j) && !after(s@, Some(i), j) && !out@.contains(j as usize)
                                implies exists|k: int|
                            0 <= k < out@.len() && ranks_above(s@, #[trigger] out@[k] as int, j) && suppresses(
                                s@[out@[k] as int],
                                s@[j],
                                *cfg,
                            ) by {
                            if j == i {
                                assert(ranks_above(s@, out@[q as int] as int, j));
                            }
                        }
                    },
                    None => {
                        out.push(i);
                        assert(out@[old_out.len() as int] == i);
                        assert forall|j: int|
                            eligible(s@, *cfg, j) && !after(s@, Some(i), j) && !out@.contains(j as usize)
                                implies exists|k: int|
                            0 <= k < out@.len() && ranks_above(s@, #[trigger] out@[k] as int, j) && suppresses(
                                s@[out@[k] as int],
                                s@[j],
                                *cfg,
                            ) by {
                            if j != i {
                                assert(!old_out.contains(j as usize)) by {
                                    if old_out.contains(j as usize) {
                                        let w = choose|w: int| 0 <= w < old_out.len() && old_out[w] == j as usize;
                                        assert(out@[w] == j as usize);
                                    }
                                }
                                let k = choose|k: int|
                                    0 <= k < old_out.len() && ranks_above(s@, #[trigger] old_out[k] as int, j)
                                        && suppresses(s@[old_out[k] as int], s@[j], *cfg);
                                assert(out@[k] == old_out[k]);
                            }
                        }
                    },
                }
                last = Some(i);
            },
        }
    }
    out
}

proof fn lemma_increasing_identity(a: Seq<usize>, m: int, k: int)
    requires
        0 <= k < m,
        m <= usize::MAX,
        forall|q: int| 0 <= q < a.len() ==> (#[trigger] a[q]) < m,
        forall|q1: int, q2: int| 0 <= q1 < q2 < a.len() ==> (#[trigger] a[q1]) < (#[trigger] a[q2]),
        forall|j: int| 0 <= j < m ==> #[trigger] a.contains(j as usize),
    ensures
        k < a.len(),
        a[k] == k,
    decreases k,
{
    if k > 0 {
        lemma_increasing_identity(a, m, k - 1);
    }
    assert(a.contains(k as usize));
    let p = choose|p: int| 0 <= p < a.len() && a[p] == k as usize;
    if p < k {
        if p < k - 1 {
            assert(a[p] < a[k - 1]);
        }
    }
    if k < p {
        assert(a[k] < a[p]);
        if k > 0 {
            assert(a[k - 1] < a[k]);
        }
    }
}

/// Running suppression again, with the same thresholds, on the boxes it
/// selected keeps every one of them, in the same order.
pub proof fn lemma_suppression_idempotent(
    s: Seq<CandidateBox>,
    cfg: SuppressionConfig,
    out: Seq<usize>,
    again: Seq<usize>,
)
    requires
        out.len() <= usize::MAX,
        is_suppression_of(s, cfg, out),
        is_suppression_of(out.map_values(|i: usize| s[i as int]), cfg, again),
    ensures
        again.len() == out.len(),
        forall|k: int| 0 <= k < again.len() ==> again[k] == k,
{
    let t = out.map_values(|i: usize| s[i as int]);
    let m = out.len() as int;
    assert forall|j: int| 0 <= j < m implies #[trigger] again.contains(j as usize) by {
        assert(eligible(out.map_values(|i: usize| s[i as int]), cfg, j));
        if !again.contains(j as usize) {
            let k = choose|k: int|
                0 <= k < again.len() && ranks_above(t, #[trigger] again[k] as int, j) && suppresses(
                    t[again[k] as int],
                    t[j],
                    cfg,
                );
            let a = again[k] as int;
            assert(eligible(t, cfg, a));
            assert(a != j);
            assert(t[a] == s[out[a] as int]);
            assert(!suppresses(s[out[a] as int], s[out[j] as int], cfg));
        }
    }
    assert forall|q1: int, q2: int| 0 <= q1 < q2 < again.len() implies (#[trigger] again[q1]) < (#[trigger] again[q2]) by {
        let a1 = again[q1] as int;
        let a2 = again[q2] as int;
        assert(ranks_above(t, a1, a2));
        assert(eligible(t, cfg, a1));
        assert(eligible(t, cfg, a2));
        if a2 < a1 {
            assert(ranks_above(s, out[a2] as int, out[a1] as int));
        }
    }
    assert forall|q: int| 0 <= q < again.len() implies (#[trigger] again[q]) < m by {
        assert(eligible(t, cfg, again[q] as int));
    }
    assert forall|k: int| 0 <= k < again.len() implies again[k] == k by {
        if k < m {
            lemma_increasing_identity(again, m, k);
        } else {
            if m > 0 {
                lemma_increasing_identity(again, m, m - 1);
                assert(again[m - 1] < again[k]);
            }
            assert(again[k] < m);
        }
    }
    if m > 0 {
        lemma_increasing_identity(again, m, m - 1);
    }
    if again.len() > m {
        assert(again[m] == m);
        assert(again[m] < m);
    }
}

/// Both sequences hold box `i` or neither does.
pub open spec fn agree_on(o1: Seq<usize>, o2: Seq<usize>, i: int) -> bool {
    o1.contains(i as usize) == o2.contains(i as usize)
}

proof fn lemma_sorted_equal(s: Seq<CandidateBox>, a: Seq<usize>, b: Seq<usize>)
    requires
        forall|k: int| 0 <= k < a.len() ==> (#[trigger] a[k]) < s.len(),
        forall|k: int| 0 <= k < b.len() ==> (#[trigger] b[k]) < s.len(),
        forall|k1: int, k2: int| 0 <= k1 < k2 < a.len() ==> ranks_above(s, #[trigger] a[k1] as int, #[trigger] a[k2] as int),
        forall|k1: int, k2: int| 0 <= k1 < k2 < b.len() ==> ranks_above(s, #[trigger] b[k1] as int, #[trigger] b[k2] as int),
        forall|x: usize| #![trigger a.contains(x)] #![trigger b.contains(x)] a.contains(x) == b.contains(x),
    ensures
        a == b,
    decreases a.len(),
{
    if a.len() == 0 {
        if b.len() > 0 {
            assert(b.contains(b[0]));
        }
        assert(a =~= b);
    } else {
        assert(a.contains(a[0]));
        assert(b.len() > 0);
        assert(b.contains(b[0]));
        let pa = choose|p: int| 0 <= p < b.len() && b[p] == a[0];
        let pb = choose|p: int| 0 <= p < a.len() && a[p] == b[0];
        if pa > 0 {
            assert(ranks_above(s, b[0] as int, b[pa] as int));
        }
        if pb > 0 {
            assert(ranks_above(s, a[0] as int, a[pb] as int));
        }
        assert(a[0] == b[0]);
        let ra = a.subrange(1, a.len() as int);
        let rb = b.subrange(1, b.len() as int);
        assert forall|x: usize| #![trigger ra.contains(x)] #![trigger rb.contains(x)] ra.contains(x) == rb.contains(x) by {
            if ra.contains(x) {
                let p = choose|p: int| 0 <= p < ra.len() && ra[p] == x;
                assert(a[p + 1] == x);
                assert(ranks_above(s, a[0] as int, a[p + 1] as int));
                assert(a.contains(x));
                let q = choose|q: int| 0 <= q < b.len() && b[q] == x;
                assert(q != 0);
                assert(rb[q - 1] == x);
            }
            if rb.contains(x) {
                let p = choose|p: int| 0 <= p < rb.len() && rb[p] == x;
                assert(b[p + 1] == x);
                assert(ranks_above(s, b[0] as int, b[p + 1] as int));
                assert(b.contains(x));
                let q = choose|q: int| 0 <= q < a.len() && a[q] == x;
                assert(q != 0);
                assert(ra[q - 1] == x);
            }
        }
        lemma_sorted_equal(s, ra, rb);
        assert(a =~= seq![a[0]] + ra);
        assert(b =~= seq![b[0]] + rb);
    }
}

pub open spec fn disagree_on(s: Seq<CandidateBox>, cfg: SuppressionConfig, o1: Seq<usize>, o2: Seq<usize>, i: int) -> bool {
    eligible(s, cfg, i) && !agree_on(o1, o2, i)
}

proof fn lemma_top_disagreement(s: Seq<CandidateBox>, cfg: SuppressionConfig, o1: Seq<usize>, o2: Seq<usize>, j: int) -> (best: int)
    requires
        0 <= j <= s.len(),
    ensures
        -1 <= best < j,
        best == -1 ==> forall|q: int| 0 <= q < j ==> !disagree_on(s, cfg, o1, o2, q),
        best != -1 ==> disagree_on(s, cfg, o1, o2, best),
        best != -1 ==> forall|q: int|
            0 <= q < j && disagree_on(s, cfg, o1, o2, q) && q != best ==> ranks_above(s, best, q),
    decreases j,
{
    if j == 0 {
        -1
    } else {
        let b = lemma_top_disagreement(s, cfg, o1, o2, j - 1);
        if disagree_on(s, cfg, o1, o2, j - 1) && (b == -1 || ranks_above(s, j - 1, b)) {
            assert forall|q: int| 0 <= q < j && disagree_on(s, cfg, o1, o2, q) && q != j - 1 implies ranks_above(s, j - 1, q) by {
                assert(q < j - 1);
                if q != b {
                    assert(ranks_above(s, b, q));
                }
            }
            j - 1
        } else {
            assert forall|q: int| 0 <= q < j && disagree_on(s, cfg, o1, o2, q) && q != b implies ranks_above(s, b, q) by {
                if q == j - 1 {
                    assert(b != -1);
                }
            }
            b
        }
    }
}

proof fn lemma_kept_not_dropped(s: Seq<CandidateBox>, cfg: SuppressionConfig, o1: Seq<usize>, o2: Seq<usize>, i: int)
    requires
        s.len() <= usize::MAX,
        is_suppression_of(s, cfg, o1),
        is_suppression_of(s, cfg, o2),
        disagree_on(s, cfg, o1, o2, i),
        forall|q: int| disagree_on(s, cfg, o1, o2, q) && q != i ==> ranks_above(s, i, q),
    ensures
        !o1.contains(i as usize),
{
    if o1.contains(i as usize) {
        assert(!o2.contains(i as usize));
        assert(eligible(s, cfg, i));
        let k = choose|k: int|
            0 <= k < o2.len() && ranks_above(s, #[trigger] o2[k] as int, i) && suppresses(s[o2[k] as int], s[i], cfg);
        let jj = o2[k] as int;
        assert(eligible(s, cfg, jj));
        assert(o2.contains(jj as usize)) by {
            assert(o2[k] == jj as usize);
        }
        if disagree_on(s, cfg, o1, o2, jj) {
            assert(ranks_above(s, i, jj));
        }
        assert(o1.contains(jj as usize));
        let p1 = choose|p: int| 0 <= p < o1.len() && o1[p] == jj as usize;
        let p2 = choose|p: int| 0 <= p < o1.len() && o1[p] == i as usize;
        assert(p1 != p2);
        assert(!suppresses(s[o1[p1] as int], s[o1[p2] as int], cfg));
    }
}

/// Greedy suppression has one outcome: any two selections that meet its
/// description are the same sequence.
pub proof fn lemma_suppression_unique(s: Seq<CandidateBox>, cfg: SuppressionConfig, o1: Seq<usize>, o2: Seq<usize>)
    requires
        s.len() <= usize::MAX,
        is_suppression_of(s, cfg, o1),
        is_suppression_of(s, cfg, o2),
    ensures
        o1 == o2,
{
    let n = s.len() as int;
    assert forall|w: int| !disagree_on(s, cfg, o1, o2, w) by {
        if disagree_on(s, cfg, o1, o2, w) {
            let i = lemma_top_disagreement(s, cfg, o1, o2, n);
            assert(w < n);
            assert(i != -1);
            assert forall|q: int| disagree_on(s, cfg, o1, o2, q) && q != i implies ranks_above(s, i, q) by {
                assert(q < n);
            }
            lemma_kept_not_dropped(s, cfg, o1, o2, i);
            assert(disagree_on(s, cfg, o2, o1, i));
            assert forall|q: int| disagree_on(s, cfg, o2, o1, q) && q != i implies ranks_above(s, i, q) by {
                assert(disagree_on(s, cfg, o1, o2, q));
                assert(q < n);
            }
            lemma_kept_not_dropped(s, cfg, o2, o1, i);
        }
    }
    assert forall|x: usize| #![trigger o1.contains(x)] #![trigger o2.contains(x)] o1.contains(x) == o2.contains(x) by {
        if o1.contains(x) {
            let p = choose|p: int| 0 <= p < o1.len() && o1[p] == x;
            assert(eligible(s, cfg, x as int));
            assert(!disagree_on(s, cfg, o1, o2, x as int));
        }
        if o2.contains(x) {
            let p = choose|p: int| 0 <= p < o2.len() && o2[p] == x;
            assert(eligible(s, cfg, x as int));
            assert(!disagree_on(s, cfg, o1, o2, x as int));
        }
    }
    assert forall|k: int| 0 <= k < o1.len() implies (#[trigger] o1[k]) < s.len() by {
        assert(eligible(s, cfg, o1[k] as int));
    }
    assert forall|k: int| 0 <= k < o2.len() implies (#[trigger] o2[k]) < s.len() by {
        assert(eligible(s, cfg, o2[k] as int));
    }
    lemma_sorted_equal(s, o1, o2);
}

/// Suppression run again on the boxes it kept, with the same thresholds,
/// hands back the identical list of boxes: the same members in the same order.
pub proof fn lemma_suppression_idempotent_boxes(
    s: Seq<CandidateBox>,
    cfg: SuppressionConfig,
    out: Seq<usize>,
    again: Seq<usize>,
)
    requires
        out.len() <= usize::MAX,
        is_suppression_of(s, cfg, out),
        is_suppression_of(out.map_values(|i: usize| s[i as int]), cfg, again),
    ensures
        again.map_values(|i: usize| out.map_values(|j: usize| s[j as int])[i as int]) == out.map_values(
            |i: usize| s[i as int],
        ),
{
    lemma_suppression_idempotent(s, cfg, out, again);
    let kept = out.map_values(|i: usize| s[i as int]);
    assert(again.map_values(|i: usize| kept[i as int]) =~= kept);
}

} // verus!
