//! Detection data model: raw candidates from the inference engine and
//! labeled, ranked results.

use vstd::prelude::*;

verus! {

/// A bounding box, each coordinate kept as the byte text the inference
/// engine rendered for it. The coordinates are never interpreted here;
/// they are passed through to the output unchanged.
pub struct BBox {
    pub x: Vec<u8>,
    pub y: Vec<u8>,
    pub w: Vec<u8>,
    pub h: Vec<u8>,
}

pub ghost struct BBoxView {
    pub x: Seq<u8>,
    pub y: Seq<u8>,
    pub w: Seq<u8>,
    pub h: Seq<u8>,
}

impl View for BBox {
    type V = BBoxView;

    open spec fn view(&self) -> BBoxView {
        BBoxView { x: self.x@, y: self.y@, w: self.w@, h: self.h@ }
    }
}

/// One candidate object instance as produced by the inference engine:
/// a box plus a per-class probability vector. Probabilities are
/// fixed-point values in units of 1/10000.
pub struct RawDetection {
    pub bbox: BBox,
    pub probs: Vec<u32>,
}

pub ghost struct RawDetectionView {
    pub bbox: BBoxView,
    pub probs: Seq<u32>,
}

impl View for RawDetection {
    type V = RawDetectionView;

    open spec fn view(&self) -> RawDetectionView {
        RawDetectionView { bbox: self.bbox@, probs: self.probs@ }
    }
}

/// The result of resolving one raw detection's best class: its box, the
/// best-class probability (units of 1/10000), and the class label.
pub struct LabeledDetection {
    pub bbox: BBox,
    pub probability: u32,
    pub label: Vec<u8>,
}

pub ghost struct LabeledDetectionView {
    pub bbox: BBoxView,
    pub probability: u32,
    pub label: Seq<u8>,
}

impl View for LabeledDetection {
    type V = LabeledDetectionView;

    open spec fn view(&self) -> LabeledDetectionView {
        LabeledDetectionView {
            bbox: self.bbox@,
            probability: self.probability,
            label: self.label@,
        }
    }
}

/// The best class of a probability vector: the class index holding the
/// maximum probability, the latest such index when several classes tie.
pub open spec fn best_of(probs: Seq<u32>) -> (int, u32)
    recommends
        probs.len() > 0,
    decreases probs.len(),
{
    if probs.len() <= 1 {
        (0, if probs.len() == 1 { probs[0] } else { 0u32 })
    } else {
        let prior = best_of(probs.drop_last());
        if probs.last() >= prior.1 {
            (probs.len() - 1, probs.last())
        } else {
            prior
        }
    }
}

/// The matched class of a detection, if any: its best class, but only
/// when the best probability reaches `threshold`. A detection with no
/// class at all, or whose best probability falls short, matches nothing
/// and is discarded by post-processing.
pub open spec fn best_class_spec(probs: Seq<u32>, threshold: u32) -> Option<(int, u32)> {
    if probs.len() > 0 && best_of(probs).1 >= threshold {
        Some(best_of(probs))
    } else {
        None
    }
}

impl RawDetection {
    /// The class index with maximum probability together with that
    /// probability, when the maximum reaches `class_threshold`; `None`
    /// otherwise. Ties between classes resolve to the latest index.
    pub fn best_class(&self, class_threshold: u32) -> (r: Option<(usize, u32)>)
        ensures
            match r {
                Some(ip) => {
                    &&& best_class_spec(self.probs@, class_threshold)
                        == Some((ip.0 as int, ip.1))
                    &&& ip.0 < self.probs@.len()
                },
                None => best_class_spec(self.probs@, class_threshold) is None,
            },
    {
        if self.probs.len() == 0 {
            return None;
        }
        let mut best_i: usize = 0;
        let mut best_p: u32 = self.probs[0];
        let mut j: usize = 1;
        proof {
            assert(self.probs@.take(1).drop_last() =~= Seq::<u32>::empty());
            assert(self.probs@.take(1) =~= seq![self.probs@[0]]);
        }
        while j < self.probs.len()
            invariant
                1 <= j <= self.probs@.len(),
                best_i < j,
                best_of(self.probs@.take(j as int)) == (best_i as int, best_p),
            decreases self.probs@.len() - j,
        {
            proof {
                assert(self.probs@.take(j + 1).drop_last() =~= self.probs@.take(j as int));
                assert(self.probs@.take(j + 1).last() == self.probs@[j as int]);
            }
            if self.probs[j] >= best_p {
                best_i = j;
                best_p = self.probs[j];
            }
            j += 1;
        }
        proof {
            assert(self.probs@.take(self.probs@.len() as int) =~= self.probs@);
        }
        if best_p >= class_threshold {
            Some((best_i, best_p))
        } else {
            None
        }
    }
}

} // verus!
