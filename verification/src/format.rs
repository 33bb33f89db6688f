//! Result rendering: the fixed textual layout of the ranked detections,
//! one line per detection:
//! label, tab, probability as a percentage with two decimals and a
//! percent sign, then tab-separated `x: `, `y: `, `w: `, `h: ` fields
//! holding the box coordinates as the engine rendered them, and a line
//! feed.

use vstd::prelude::*;

use crate::detection::{LabeledDetection, LabeledDetectionView, RawDetection};
use crate::postprocess::{
    label_views, labeled_views, labels_cover, process, ranked, raw_views, DetectError,
};

verus! {

/// The decimal digits of a non-negative number, most significant first.
pub open spec fn dec_of(n: int) -> Seq<u8>
    recommends
        n >= 0,
    decreases n,
{
    if n < 10 {
        seq![(48 + n) as u8]
    } else {
        dec_of(n / 10).push((48 + n % 10) as u8)
    }
}

/// A probability in units of 1/10000 rendered as a percentage with two
/// decimal places: its value divided by 100, a point, and the remainder
/// as exactly two digits.
pub open spec fn percent_of(p: u32) -> Seq<u8> {
    dec_of(p as int / 100) + seq![46u8, (48 + (p as int % 100) / 10) as u8, (48 + p as int
        % 10) as u8]
}

/// One output line of a labeled detection.
pub open spec fn line_of(d: LabeledDetectionView) -> Seq<u8> {
    d.label + seq![9u8] + percent_of(d.probability) + seq![37u8, 9u8, 120u8, 58u8, 32u8] + d.bbox.x
        + seq![9u8, 121u8, 58u8, 32u8] + d.bbox.y + seq![9u8, 119u8, 58u8, 32u8] + d.bbox.w + seq![
        9u8,
        104u8,
        58u8,
        32u8,
    ] + d.bbox.h + seq![10u8]
}

/// The whole output text: the line of each detection, in order.
pub open spec fn format_of(s: Seq<LabeledDetectionView>) -> Seq<u8>
    decreases s.len(),
{
    if s.len() == 0 {
        Seq::empty()
    } else {
        format_of(s.drop_last()) + line_of(s.last())
    }
}

/// Appends the decimal digits of `n`.
fn push_decimal(out: &mut Vec<u8>, n: u32)
    ensures
        final(out)@ == old(out)@ + dec_of(n as int),
    decreases n,
{
    if n < 10 {
        out.push((48 + n) as u8);
        proof {
            assert(out@ =~= old(out)@ + dec_of(n as int));
        }
    } else {
        push_decimal(out, n / 10);
        out.push((48 + n % 10) as u8);
        proof {
            assert(out@ =~= old(out)@ + dec_of(n as int));
        }
    }
}

/// Appends the two-decimal percentage rendering of `p`.
fn push_percent(out: &mut Vec<u8>, p: u32)
    ensures
        final(out)@ == old(out)@ + percent_of(p),
{
    push_decimal(out, p / 100);
    out.push(46);
    out.push((48 + (p % 100) / 10) as u8);
    out.push((48 + p % 10) as u8);
    proof {
        assert(out@ =~= old(out)@ + percent_of(p));
    }
}

/// Appends a copy of `s`.
fn push_bytes(out: &mut Vec<u8>, s: &Vec<u8>)
    ensures
        final(out)@ == old(out)@ + s@,
{
    let mut k: usize = 0;
    while k < s.len()
        invariant
            0 <= k <= s@.len(),
            out@ == old(out)@ + s@.take(k as int),
        decreases s@.len() - k,
    {
        let b = s[k];
        out.push(b);
        proof {
            assert(old(out)@ + s@.take(k + 1) =~= (old(out)@ + s@.take(k as int)).push(
                s@[k as int],
            ));
        }
        k += 1;
    }
    proof {
        assert(s@.take(s@.len() as int) =~= s@);
    }
}

/// Renders the ranked detections in the fixed output layout.
#[verifier::rlimit(80)]
pub fn format_detections(dets: &Vec<LabeledDetection>) -> (r: Vec<u8>)
    ensures
        r@ == format_of(labeled_views(dets@)),
{
    let ghost target = labeled_views(dets@);
    let mut out: Vec<u8> = Vec::new();
    let mut i: usize = 0;
    proof {
        assert(format_of(target.take(0)) =~= Seq::<u8>::empty());
        assert(out@ =~= format_of(target.take(0)));
    }
    while i < dets.len()
        invariant
            0 <= i <= dets@.len(),
            target == labeled_views(dets@),
            out@ == format_of(target.take(i as int)),
        decreases dets@.len() - i,
    {
        let ghost out_start = out@;
        let d = &dets[i];
        push_bytes(&mut out, &d.label);
        out.push(9);
        push_percent(&mut out, d.probability);
        out.push(37);
        out.push(9);
        out.push(120);
        out.push(58);
        out.push(32);
        push_bytes(&mut out, &d.bbox.x);
        out.push(9);
        out.push(121);
        out.push(58);
        out.push(32);
        push_bytes(&mut out, &d.bbox.y);
        out.push(9);
        out.push(119);
        out.push(58);
        out.push(32);
        push_bytes(&mut out, &d.bbox.w);
        out.push(9);
        out.push(104);
        out.push(58);
        out.push(32);
        push_bytes(&mut out, &d.bbox.h);
        out.push(10);
        proof {
            assert(target[i as int] == dets@[i as int]@);
            assert(out@ =~= out_start + line_of(target[i as int]));
            assert(target.take(i + 1).drop_last() =~= target.take(i as int));
            assert(target.take(i + 1).last() == target[i as int]);
            assert(out@ =~= format_of(target.take(i + 1)));
        }
        i += 1;
    }
    proof {
        assert(target.take(target.len() as int) =~= target);
    }
    out
}

/// The whole post-processing and rendering pass: the ranked survivors of
/// `raw` rendered in the fixed output layout, or `ModelLabelMismatch`
/// exactly when some survivor's best class has no label. Either one
/// complete, correctly ranked text is produced, or none.
pub fn render_results(
    raw: &Vec<RawDetection>,
    labels: &Vec<Vec<u8>>,
    class_threshold: u32,
) -> (r: Result<Vec<u8>, DetectError>)
    ensures
        match r {
            Ok(text) => {
                &&& labels_cover(raw_views(raw@), label_views(labels@), class_threshold)
                &&& text@ == format_of(ranked(raw_views(raw@), label_views(labels@), class_threshold))
            },
            Err(e) => {
                &&& e == DetectError::ModelLabelMismatch
                &&& !labels_cover(raw_views(raw@), label_views(labels@), class_threshold)
            },
        },
{
    match process(raw, labels, class_threshold) {
        Ok(dets) => Ok(format_detections(&dets)),
        Err(e) => Err(e),
    }
}

/// An empty raw input yields an empty result and an empty (still
/// well-formed) output text, not an error: post-processing is owed
/// success on it.
pub proof fn lemma_empty_input(labels: Seq<Seq<u8>>, threshold: u32)
    ensures
        labels_cover(Seq::<crate::detection::RawDetectionView>::empty(), labels, threshold),
        ranked(Seq::<crate::detection::RawDetectionView>::empty(), labels, threshold)
            == Seq::<LabeledDetectionView>::empty(),
        format_of(Seq::<LabeledDetectionView>::empty()) == Seq::<u8>::empty(),
{
    let raw = Seq::<crate::detection::RawDetectionView>::empty();
    assert(crate::postprocess::filtered_pairs(raw, labels, threshold)
        == Seq::<(int, LabeledDetectionView)>::empty());
    assert(ranked(raw, labels, threshold) =~= Seq::<LabeledDetectionView>::empty());
}

} // verus!
