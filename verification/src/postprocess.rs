//! Detection post-processing: apply the class threshold, pick the best
//! class of each detection, resolve labels, and rank survivors by
//! descending confidence with a stable tie-break on input order.

use vstd::prelude::*;

use crate::detection::{
    best_class_spec, BBox, LabeledDetection, LabeledDetectionView, RawDetection, RawDetectionView,
};

verus! {

/// Failure of post-processing.
#[derive(Clone, Copy, Debug, PartialEq, Eq, Structural)]
pub enum DetectError {
    /// The model produced a class index with no corresponding label: a
    /// mismatch between the deployed model and the label table.
    ModelLabelMismatch,
}

pub open spec fn raw_views(s: Seq<RawDetection>) -> Seq<RawDetectionView> {
    s.map_values(|d: RawDetection| d@)
}

pub open spec fn label_views(s: Seq<Vec<u8>>) -> Seq<Seq<u8>> {
    s.map_values(|l: Vec<u8>| l@)
}

pub open spec fn labeled_views(s: Seq<LabeledDetection>) -> Seq<LabeledDetectionView> {
    s.map_values(|d: LabeledDetection| d@)
}

pub open spec fn pair_views(s: Seq<(usize, LabeledDetection)>) -> Seq<(int, LabeledDetectionView)> {
    s.map_values(|p: (usize, LabeledDetection)| (p.0 as int, p.1@))
}

/// The labeled form of one surviving raw detection.
pub open spec fn labeled_of(d: RawDetectionView, p: u32, label: Seq<u8>) -> LabeledDetectionView {
    LabeledDetectionView { bbox: d.bbox, probability: p, label: label }
}

/// The surviving detections in input order, each labeled and paired with
/// its position in the raw input.
pub open spec fn filtered_pairs(
    raw: Seq<RawDetectionView>,
    labels: Seq<Seq<u8>>,
    threshold: u32,
) -> Seq<(int, LabeledDetectionView)>
    decreases raw.len(),
{
    if raw.len() == 0 {
        Seq::empty()
    } else {
        let pre = filtered_pairs(raw.drop_last(), labels, threshold);
        match best_class_spec(raw.last().probs, threshold) {
            Some(ip) => pre.push(
                ((raw.len() - 1) as int, labeled_of(raw.last(), ip.1, labels[ip.0])),
            ),
            None => pre,
        }
    }
}

/// Where a stable descending-by-probability sort places a new element
/// arriving after everything in `s`: after every element at least as
/// probable, before the first strictly less probable one.
pub open spec fn insert_pos(s: Seq<(int, LabeledDetectionView)>, p: u32) -> int
    decreases s.len(),
{
    if s.len() == 0 {
        0
    } else if s[0].1.probability < p {
        0
    } else {
        1 + insert_pos(s.drop_first(), p)
    }
}

/// Stable insertion sort, descending by probability: later input elements
/// are placed after earlier ones of equal probability.
pub open spec fn sort_desc(s: Seq<(int, LabeledDetectionView)>) -> Seq<(int, LabeledDetectionView)>
    decreases s.len(),
{
    if s.len() == 0 {
        Seq::empty()
    } else {
        let sorted = sort_desc(s.drop_last());
        sorted.insert(insert_pos(sorted, s.last().1.probability), s.last())
    }
}

/// The ranked survivors, each still paired with its input position.
pub open spec fn ranked_pairs(
    raw: Seq<RawDetectionView>,
    labels: Seq<Seq<u8>>,
    threshold: u32,
) -> Seq<(int, LabeledDetectionView)> {
    sort_desc(filtered_pairs(raw, labels, threshold))
}

/// The ranked survivors: what post-processing returns.
pub open spec fn ranked(
    raw: Seq<RawDetectionView>,
    labels: Seq<Seq<u8>>,
    threshold: u32,
) -> Seq<LabeledDetectionView> {
    ranked_pairs(raw, labels, threshold).map_values(|pr: (int, LabeledDetectionView)| pr.1)
}

/// Every surviving detection's best class has a label: post-processing
/// succeeds exactly on such inputs.
pub open spec fn labels_cover(
    raw: Seq<RawDetectionView>,
    labels: Seq<Seq<u8>>,
    threshold: u32,
) -> bool {
    forall|i: int|
        0 <= i < raw.len() && #[trigger] best_class_spec(raw[i].probs, threshold) is Some
            ==> best_class_spec(raw[i].probs, threshold)->Some_0.0 < labels.len()
}

pub open spec fn sorted_desc(s: Seq<(int, LabeledDetectionView)>) -> bool {
    forall|j: int, k: int|
        0 <= j <= k < s.len() ==> s[j].1.probability >= s[k].1.probability
}

proof fn lemma_insert_pos_props(s: Seq<(int, LabeledDetectionView)>, p: u32)
    ensures
        0 <= insert_pos(s, p) <= s.len(),
        forall|k: int| 0 <= k < insert_pos(s, p) ==> s[k].1.probability >= p,
        insert_pos(s, p) < s.len() ==> s[insert_pos(s, p)].1.probability < p,
    decreases s.len(),
{
    if s.len() == 0 {
    } else if s[0].1.probability < p {
    } else {
        lemma_insert_pos_props(s.drop_first(), p);
        assert forall|k: int| 0 <= k < insert_pos(s, p) implies s[k].1.probability >= p by {
            if k > 0 {
                assert(s.drop_first()[k - 1] == s[k]);
            }
        }
        if insert_pos(s, p) < s.len() {
            assert(s.drop_first()[insert_pos(s.drop_first(), p)] == s[insert_pos(s, p)]);
        }
    }
}

proof fn lemma_insert_pos_char(s: Seq<(int, LabeledDetectionView)>, p: u32, j: int)
    requires
        0 <= j <= s.len(),
        forall|k: int| 0 <= k < j ==> s[k].1.probability >= p,
        j == s.len() || s[j].1.probability < p,
    ensures
        insert_pos(s, p) == j,
    decreases s.len(),
{
    if j == 0 {
        if s.len() > 0 {
            assert(s[0].1.probability < p);
        }
    } else {
        assert(s[0].1.probability >= p);
        assert forall|k: int| 0 <= k < j - 1 implies s.drop_first()[k].1.probability >= p by {
            assert(s.drop_first()[k] == s[k + 1]);
        }
        if j < s.len() {
            assert(s.drop_first()[j - 1] == s[j]);
        }
        lemma_insert_pos_char(s.drop_first(), p, j - 1);
    }
}

#[verifier::rlimit(60)]
proof fn lemma_sort_desc_sorted(s: Seq<(int, LabeledDetectionView)>)
    ensures
        sort_desc(s).len() == s.len(),
        sorted_desc(sort_desc(s)),
    decreases s.len(),
{
    if s.len() == 0 {
    } else {
        let pre = s.drop_last();
        let e = s.last();
        let sorted = sort_desc(pre);
        let p = e.1.probability;
        let pos = insert_pos(sorted, p);
        let t = sort_desc(s);
        lemma_sort_desc_sorted(pre);
        lemma_insert_pos_props(sorted, p);
        sorted.insert_ensures(pos, e);
        assert(t == sorted.insert(pos, e));
        assert forall|j: int, k: int| 0 <= j <= k < t.len() implies
            t[j].1.probability >= t[k].1.probability by {
            if k < pos {
                assert(t[j] == sorted[j] && t[k] == sorted[k]);
            } else if j < pos && k == pos {
                assert(t[j] == sorted[j]);
                assert(sorted[j].1.probability >= p);
            } else if j < pos && k > pos {
                assert(t[j] == sorted[j] && t[k] == sorted[k - 1]);
                assert(sorted[j].1.probability >= sorted[k - 1].1.probability);
            } else if j == pos && k > pos {
                assert(t[j] == e && t[k] == sorted[k - 1]);
                assert(pos <= k - 1 < sorted.len());
                assert(sorted[pos].1.probability < p);
                assert(sorted[pos].1.probability >= sorted[k - 1].1.probability);
            } else if j > pos {
                assert(t[j] == sorted[j - 1] && t[k] == sorted[k - 1]);
            }
        }
    }
}

#[verifier::rlimit(60)]
proof fn lemma_sort_desc_membership(s: Seq<(int, LabeledDetectionView)>)
    ensures
        sort_desc(s).len() == s.len(),
        forall|k: int| 0 <= k < s.len() ==> sort_desc(s).contains(s[k]),
        forall|k: int| 0 <= k < s.len() ==> s.contains(#[trigger] sort_desc(s)[k]),
    decreases s.len(),
{
    if s.len() == 0 {
    } else {
        let pre = s.drop_last();
        let e = s.last();
        let sorted = sort_desc(pre);
        let p = e.1.probability;
        let pos = insert_pos(sorted, p);
        let t = sort_desc(s);
        lemma_sort_desc_membership(pre);
        lemma_insert_pos_props(sorted, p);
        sorted.insert_ensures(pos, e);
        assert(t == sorted.insert(pos, e));
        assert forall|k: int| 0 <= k < s.len() implies t.contains(s[k]) by {
            if k == s.len() - 1 {
                assert(t[pos] == e);
                assert(s[k] == e);
            } else {
                assert(pre[k] == s[k]);
                assert(sorted.contains(pre[k]));
                let j = choose|j: int| 0 <= j < sorted.len() && sorted[j] == pre[k];
                if j < pos {
                    assert(t[j] == sorted[j]);
                } else {
                    assert(t[j + 1] == sorted[j]);
                }
            }
        }
        assert forall|k: int| 0 <= k < s.len() implies s.contains(#[trigger] t[k]) by {
            if k == pos {
                assert(t[k] == e);
                assert(s[s.len() - 1] == e);
            } else {
                let j = if k < pos { k } else { k - 1 };
                assert(t[k] == sorted[j]);
                assert(pre.contains(sorted[j]));
                let m = choose|m: int| 0 <= m < pre.len() && pre[m] == sorted[j];
                assert(s[m] == pre[m]);
            }
        }
    }
}

#[verifier::rlimit(60)]
proof fn lemma_sort_desc_stable(s: Seq<(int, LabeledDetectionView)>)
    requires
        forall|j: int, k: int| 0 <= j < k < s.len() ==> s[j].0 < s[k].0,
    ensures
        forall|j: int, k: int|
            0 <= j < k < sort_desc(s).len()
                && sort_desc(s)[j].1.probability == sort_desc(s)[k].1.probability
                ==> sort_desc(s)[j].0 < sort_desc(s)[k].0,
        forall|j: int, k: int|
            0 <= j < k < sort_desc(s).len() ==> sort_desc(s)[j].0 != sort_desc(s)[k].0,
    decreases s.len(),
{
    if s.len() == 0 {
    } else {
        let pre = s.drop_last();
        let e = s.last();
        let sorted = sort_desc(pre);
        let p = e.1.probability;
        let pos = insert_pos(sorted, p);
        let t = sort_desc(s);
        lemma_sort_desc_sorted(pre);
        lemma_sort_desc_membership(pre);
        lemma_insert_pos_props(sorted, p);
        sorted.insert_ensures(pos, e);
        lemma_sort_desc_stable(pre);
        assert(t == sorted.insert(pos, e));
        // every index already placed is smaller than the new element's index
        assert forall|k: int| 0 <= k < sorted.len() implies sorted[k].0 < e.0 by {
            assert(pre.contains(sorted[k]));
            let m = choose|m: int| 0 <= m < pre.len() && pre[m] == sorted[k];
            assert(s[m] == pre[m]);
            assert(s[m].0 < s[s.len() - 1].0);
        }
        assert forall|j: int, k: int|
            0 <= j < k < t.len() && t[j].1.probability == t[k].1.probability implies
            t[j].0 < t[k].0 by {
            if k < pos {
                assert(t[j] == sorted[j] && t[k] == sorted[k]);
            } else if j < pos && k == pos {
                assert(t[j] == sorted[j] && t[k] == e);
            } else if j < pos && k > pos {
                assert(t[j] == sorted[j] && t[k] == sorted[k - 1]);
            } else if j == pos && k > pos {
                // everything after the insertion point is strictly less probable
                assert(t[j] == e && t[k] == sorted[k - 1]);
                assert(pos <= k - 1 < sorted.len());
                assert(sorted[pos].1.probability < p);
                assert(sorted[pos].1.probability >= sorted[k - 1].1.probability);
            } else if j > pos {
                assert(t[j] == sorted[j - 1] && t[k] == sorted[k - 1]);
            }
        }
        assert forall|j: int, k: int| 0 <= j < k < t.len() implies t[j].0 != t[k].0 by {
            if k < pos {
                assert(t[j] == sorted[j] && t[k] == sorted[k]);
            } else if j < pos && k == pos {
                assert(t[j] == sorted[j] && t[k] == e);
            } else if j < pos && k > pos {
                assert(t[j] == sorted[j] && t[k] == sorted[k - 1]);
            } else if j == pos && k > pos {
                assert(t[j] == e && t[k] == sorted[k - 1]);
            } else if j > pos {
                assert(t[j] == sorted[j - 1] && t[k] == sorted[k - 1]);
            }
        }
    }
}

#[verifier::rlimit(60)]
proof fn lemma_filtered_props(raw: Seq<RawDetectionView>, labels: Seq<Seq<u8>>, threshold: u32)
    ensures
        forall|j: int, k: int|
            0 <= j < k < filtered_pairs(raw, labels, threshold).len()
                ==> filtered_pairs(raw, labels, threshold)[j].0
                    < filtered_pairs(raw, labels, threshold)[k].0,
        forall|j: int|
            0 <= j < filtered_pairs(raw, labels, threshold).len()
                ==> {
                    let pr = #[trigger] filtered_pairs(raw, labels, threshold)[j];
                    &&& 0 <= pr.0 < raw.len()
                    &&& best_class_spec(raw[pr.0].probs, threshold) matches Some(ip)
                        && pr.1 == labeled_of(raw[pr.0], ip.1, labels[ip.0])
                        && pr.1.probability >= threshold
                },
        forall|i: int|
            0 <= i < raw.len() && #[trigger] best_class_spec(raw[i].probs, threshold) is Some
                ==> exists|j: int|
                    0 <= j < filtered_pairs(raw, labels, threshold).len()
                        && filtered_pairs(raw, labels, threshold)[j].0 == i,
    decreases raw.len(),
{
    if raw.len() == 0 {
    } else {
        let pre = raw.drop_last();
        lemma_filtered_props(pre, labels, threshold);
        let fp = filtered_pairs(raw, labels, threshold);
        let fpre = filtered_pairs(pre, labels, threshold);
        assert forall|i: int|
            0 <= i < raw.len() && #[trigger] best_class_spec(raw[i].probs, threshold) is Some
            implies exists|j: int| 0 <= j < fp.len() && fp[j].0 == i by {
            if i < raw.len() - 1 {
                assert(pre[i] == raw[i]);
                let j = choose|j: int| 0 <= j < fpre.len() && fpre[j].0 == i;
                assert(fp[j].0 == i);
            } else {
                assert(raw.last() == raw[raw.len() - 1]);
                assert(fp[fp.len() - 1].0 == i);
            }
        }
        assert forall|j: int| 0 <= j < fp.len() implies {
            let pr = #[trigger] fp[j];
            &&& 0 <= pr.0 < raw.len()
            &&& best_class_spec(raw[pr.0].probs, threshold) matches Some(ip)
                && pr.1 == labeled_of(raw[pr.0], ip.1, labels[ip.0])
                && pr.1.probability >= threshold
        } by {
            if j < fpre.len() {
                let pr = fpre[j];
                assert(pre[pr.0] == raw[pr.0]);
            } else {
                assert(raw.last() == raw[raw.len() - 1]);
            }
        }
    }
}

/// A verified byte-for-byte copy.
fn copy_bytes(s: &Vec<u8>) -> (r: Vec<u8>)
    ensures
        r@ == s@,
{
    let mut r: Vec<u8> = Vec::new();
    let mut k: usize = 0;
    while k < s.len()
        invariant
            0 <= k <= s@.len(),
            r@ == s@.take(k as int),
        decreases s@.len() - k,
    {
        let b = s[k];
        r.push(b);
        proof {
            assert(s@.take(k + 1) =~= s@.take(k as int).push(s@[k as int]));
        }
        k += 1;
    }
    proof {
        assert(s@.take(s@.len() as int) =~= s@);
    }
    r
}

/// Post-processing of one inference pass: keep each detection whose best
/// class reaches `class_threshold`, resolve its label, and rank the
/// survivors by descending probability, stably in input order.
///
/// Fails with `ModelLabelMismatch` exactly when some surviving
/// detection's best class index has no entry in the label table.
pub fn process(
    raw: &Vec<RawDetection>,
    labels: &Vec<Vec<u8>>,
    class_threshold: u32,
) -> (r: Result<Vec<LabeledDetection>, DetectError>)
    ensures
        match r {
            Ok(out) => {
                &&& labels_cover(raw_views(raw@), label_views(labels@), class_threshold)
                &&& labeled_views(out@) == ranked(
                    raw_views(raw@),
                    label_views(labels@),
                    class_threshold,
                )
            },
            Err(e) => {
                &&& e == DetectError::ModelLabelMismatch
                &&& !labels_cover(raw_views(raw@), label_views(labels@), class_threshold)
            },
        },
{
    let ghost raw_seq = raw_views(raw@);
    let ghost lbl_seq = label_views(labels@);
    let n = raw.len();
    let mut pairs: Vec<(usize, LabeledDetection)> = Vec::new();
    let mut i: usize = 0;
    proof {
        assert(filtered_pairs(raw_seq.take(0), lbl_seq, class_threshold) =~= Seq::<(
            int,
            LabeledDetectionView,
        )>::empty());
        assert(pair_views(pairs@) =~= Seq::<(int, LabeledDetectionView)>::empty());
    }
    while i < n
        invariant
            0 <= i <= n,
            n == raw@.len(),
            raw_seq == raw_views(raw@),
            lbl_seq == label_views(labels@),
            pair_views(pairs@) == sort_desc(
                filtered_pairs(raw_seq.take(i as int), lbl_seq, class_threshold),
            ),
            forall|k: int|
                0 <= k < i && #[trigger] best_class_spec(raw_seq[k].probs, class_threshold)
                    is Some
                    ==> best_class_spec(raw_seq[k].probs, class_threshold)->Some_0.0
                        < lbl_seq.len(),
        decreases n - i,
    {
        let d = &raw[i];
        proof {
            assert(raw_seq[i as int] == raw@[i as int]@);
            assert(raw_seq.take(i + 1).drop_last() =~= raw_seq.take(i as int));
            assert(raw_seq.take(i + 1).last() == raw_seq[i as int]);
        }
        let bc = d.best_class(class_threshold);
        match bc {
            None => {
                proof {
                    assert(filtered_pairs(raw_seq.take(i + 1), lbl_seq, class_threshold)
                        == filtered_pairs(raw_seq.take(i as int), lbl_seq, class_threshold));
                }
            },
            Some(ip) => {
                let (ci, p) = ip;
                if ci >= labels.len() {
                    proof {
                        assert(lbl_seq.len() == labels@.len());
                        assert(best_class_spec(raw_seq[i as int].probs, class_threshold)
                            ->Some_0.0 >= lbl_seq.len());
                        assert(!labels_cover(raw_seq, lbl_seq, class_threshold));
                    }
                    return Err(DetectError::ModelLabelMismatch);
                }
                let label = copy_bytes(&labels[ci]);
                let bbox = BBox {
                    x: copy_bytes(&d.bbox.x),
                    y: copy_bytes(&d.bbox.y),
                    w: copy_bytes(&d.bbox.w),
                    h: copy_bytes(&d.bbox.h),
                };
                let ld = LabeledDetection { bbox, probability: p, label };
                let ghost f_pre = filtered_pairs(raw_seq.take(i as int), lbl_seq, class_threshold);
                let ghost e = ((i as int), ld@);
                proof {
                    assert(lbl_seq[ci as int] == labels@[ci as int]@);
                    assert(ld@ == labeled_of(raw_seq[i as int], p, lbl_seq[ci as int]));
                    assert(filtered_pairs(raw_seq.take(i + 1), lbl_seq, class_threshold)
                        == f_pre.push(e));
                    assert(f_pre.push(e).drop_last() =~= f_pre);
                    assert(f_pre.push(e).last() == e);
                    assert(sort_desc(f_pre.push(e)) == sort_desc(f_pre).insert(
                        insert_pos(sort_desc(f_pre), p),
                        e,
                    ));
                }
                let mut pos: usize = 0;
                while pos < pairs.len() && pairs[pos].1.probability >= p
                    invariant
                        0 <= pos <= pairs@.len(),
                        forall|k: int|
                            0 <= k < pos ==> #[trigger] pair_views(pairs@)[k].1.probability
                                >= p,
                        pair_views(pairs@) == sort_desc(f_pre),
                    decreases pairs@.len() - pos,
                {
                    proof {
                        assert(pair_views(pairs@)[pos as int].1.probability
                            == pairs@[pos as int].1@.probability);
                    }
                    pos += 1;
                }
                proof {
                    if pos < pairs@.len() {
                        assert(pair_views(pairs@)[pos as int].1.probability
                            == pairs@[pos as int].1@.probability);
                    }
                    lemma_insert_pos_char(pair_views(pairs@), p, pos as int);
                    pairs@.insert_ensures(pos as int, (i, ld));
                    pair_views(pairs@).insert_ensures(pos as int, e);
                    assert(pair_views(pairs@.insert(pos as int, (i, ld))) =~= pair_views(
                        pairs@,
                    ).insert(pos as int, e));
                }
                pairs.insert(pos, (i, ld));
            },
        }
        i += 1;
    }
    proof {
        assert(raw_seq.take(n as int) =~= raw_seq);
    }
    let ghost target = ranked(raw_seq, lbl_seq, class_threshold);
    let mut out: Vec<LabeledDetection> = Vec::new();
    proof {
        assert(labeled_views(out@) + pair_views(pairs@).map_values(
            |pr: (int, LabeledDetectionView)| pr.1,
        ) =~= target);
    }
    while pairs.len() > 0
        invariant
            labeled_views(out@) + pair_views(pairs@).map_values(
                |pr: (int, LabeledDetectionView)| pr.1,
            ) == target,
        decreases pairs@.len(),
    {
        let ghost old_pairs = pairs@;
        let ghost old_out = out@;
        let pr = pairs.remove(0);
        out.push(pr.1);
        proof {
            assert(pairs@ =~= old_pairs.drop_first());
            assert(labeled_views(out@) =~= labeled_views(old_out).push(old_pairs[0].1@));
            assert(pair_views(old_pairs)[0].1 == old_pairs[0].1@);
            assert(pair_views(pairs@).map_values(|q: (int, LabeledDetectionView)| q.1)
                =~= pair_views(old_pairs).map_values(
                |q: (int, LabeledDetectionView)| q.1,
            ).drop_first());
            assert(labeled_views(out@) + pair_views(pairs@).map_values(
                |q: (int, LabeledDetectionView)| q.1,
            ) =~= labeled_views(old_out) + pair_views(old_pairs).map_values(
                |q: (int, LabeledDetectionView)| q.1,
            ));
        }
    }
    proof {
        assert(labeled_views(out@) =~= target);
    }
    Ok(out)
}

/// Thresholding: a detection whose best-class probability falls below the
/// class threshold contributes nothing to the result, and every entry of
/// the result carries a probability at least the threshold.
pub proof fn lemma_thresholding(
    raw: Seq<RawDetectionView>,
    labels: Seq<Seq<u8>>,
    threshold: u32,
    i: int,
)
    requires
        0 <= i < raw.len(),
        best_class_spec(raw[i].probs, threshold) is None,
    ensures
        forall|j: int|
            0 <= j < ranked_pairs(raw, labels, threshold).len()
                ==> #[trigger] ranked_pairs(raw, labels, threshold)[j].0 != i,
        forall|j: int|
            0 <= j < ranked(raw, labels, threshold).len()
                ==> #[trigger] ranked(raw, labels, threshold)[j].probability >= threshold,
{
    let f = filtered_pairs(raw, labels, threshold);
    let rp = ranked_pairs(raw, labels, threshold);
    lemma_filtered_props(raw, labels, threshold);
    lemma_sort_desc_membership(f);
    assert forall|j: int| 0 <= j < rp.len() implies #[trigger] rp[j].0 != i by {
        assert(f.contains(rp[j]));
        let m = choose|m: int| 0 <= m < f.len() && f[m] == rp[j];
        if rp[j].0 == i {
            assert(best_class_spec(raw[i].probs, threshold) is Some);
        }
    }
    assert forall|j: int| 0 <= j < ranked(raw, labels, threshold).len() implies #[trigger] ranked(
        raw,
        labels,
        threshold,
    )[j].probability >= threshold by {
        assert(f.contains(rp[j]));
        let m = choose|m: int| 0 <= m < f.len() && f[m] == rp[j];
        assert(ranked(raw, labels, threshold)[j] == rp[j].1);
    }
}

/// Completeness: a detection whose best-class probability reaches the
/// class threshold appears in the result exactly once, labeled with its
/// best class's label and carrying its best-class probability.
pub proof fn lemma_completeness(
    raw: Seq<RawDetectionView>,
    labels: Seq<Seq<u8>>,
    threshold: u32,
    i: int,
)
    requires
        0 <= i < raw.len(),
        best_class_spec(raw[i].probs, threshold) is Some,
    ensures
        exists|j: int|
            0 <= j < ranked_pairs(raw, labels, threshold).len()
                && ranked_pairs(raw, labels, threshold)[j] == (
                i,
                labeled_of(
                    raw[i],
                    best_class_spec(raw[i].probs, threshold)->Some_0.1,
                    labels[best_class_spec(raw[i].probs, threshold)->Some_0.0],
                ),
            ),
        forall|j: int, k: int|
            0 <= j < ranked_pairs(raw, labels, threshold).len()
                && 0 <= k < ranked_pairs(raw, labels, threshold).len()
                && ranked_pairs(raw, labels, threshold)[j].0 == i
                && ranked_pairs(raw, labels, threshold)[k].0 == i
                ==> j == k,
{
    let f = filtered_pairs(raw, labels, threshold);
    let rp = ranked_pairs(raw, labels, threshold);
    lemma_filtered_props(raw, labels, threshold);
    lemma_sort_desc_membership(f);
    lemma_sort_desc_stable(f);
    let m = choose|m: int| 0 <= m < f.len() && f[m].0 == i;
    assert(f[m] == (i, labeled_of(
        raw[i],
        best_class_spec(raw[i].probs, threshold)->Some_0.1,
        labels[best_class_spec(raw[i].probs, threshold)->Some_0.0],
    )));
    assert(rp.contains(f[m]));
    let j0 = choose|j0: int| 0 <= j0 < rp.len() && rp[j0] == f[m];
    assert(rp[j0] == f[m]);
    assert forall|j: int, k: int|
        0 <= j < rp.len() && 0 <= k < rp.len() && rp[j].0 == i && rp[k].0 == i implies j == k by {
        if j < k {
            assert(rp[j].0 != rp[k].0);
        }
        if k < j {
            assert(rp[k].0 != rp[j].0);
        }
    }
}

/// Ranking: the result is ordered by descending probability.
pub proof fn lemma_ranking(raw: Seq<RawDetectionView>, labels: Seq<Seq<u8>>, threshold: u32)
    ensures
        forall|j: int|
            0 <= j && j + 1 < ranked(raw, labels, threshold).len()
                ==> #[trigger] ranked(raw, labels, threshold)[j].probability >= ranked(
                    raw,
                    labels,
                    threshold,
                )[j + 1].probability,
{
    let f = filtered_pairs(raw, labels, threshold);
    lemma_sort_desc_sorted(f);
    assert forall|j: int| 0 <= j && j + 1 < ranked(raw, labels, threshold).len() implies
        #[trigger] ranked(raw, labels, threshold)[j].probability >= ranked(
        raw,
        labels,
        threshold,
    )[j + 1].probability by {
        assert(ranked(raw, labels, threshold)[j] == sort_desc(f)[j].1);
        assert(ranked(raw, labels, threshold)[j + 1] == sort_desc(f)[j + 1].1);
    }
}

/// Stability: among result entries of equal probability, the one coming
/// earlier in the raw input comes earlier in the result. Together with
/// the result being a function of its inputs, re-running post-processing
/// on the same input always reproduces the same order.
pub proof fn lemma_stability(raw: Seq<RawDetectionView>, labels: Seq<Seq<u8>>, threshold: u32)
    ensures
        forall|j: int, k: int|
            0 <= j < k < ranked_pairs(raw, labels, threshold).len()
                && ranked_pairs(raw, labels, threshold)[j].1.probability == ranked_pairs(
                    raw,
                    labels,
                    threshold,
                )[k].1.probability
                ==> ranked_pairs(raw, labels, threshold)[j].0 < ranked_pairs(
                    raw,
                    labels,
                    threshold,
                )[k].0,
{
    let f = filtered_pairs(raw, labels, threshold);
    lemma_filtered_props(raw, labels, threshold);
    lemma_sort_desc_stable(f);
}

} // verus!
