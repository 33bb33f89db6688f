use darknet_inference::detection::{BBox, LabeledDetection, RawDetection};
use darknet_inference::postprocess::{process, DetectError};

fn bbox(x: &str, y: &str, w: &str, h: &str) -> BBox {
    BBox {
        x: x.as_bytes().to_vec(),
        y: y.as_bytes().to_vec(),
        w: w.as_bytes().to_vec(),
        h: h.as_bytes().to_vec(),
    }
}

fn det(x: &str, y: &str, w: &str, h: &str, probs: &[u32]) -> RawDetection {
    RawDetection { bbox: bbox(x, y, w, h), probs: probs.to_vec() }
}

fn labels(names: &[&str]) -> Vec<Vec<u8>> {
    names.iter().map(|n| n.as_bytes().to_vec()).collect()
}

fn summary(out: &[LabeledDetection]) -> Vec<(String, u32, String)> {
    out.iter()
        .map(|d| {
            (
                String::from_utf8(d.label.clone()).unwrap(),
                d.probability,
                String::from_utf8(d.bbox.x.clone()).unwrap(),
            )
        })
        .collect()
}

#[test]
fn scenario_cat_dog() {
    // labels ["cat","dog"], threshold 0.5, three detections: the middle
    // one (best probability 0.4) is discarded, the two 0.9 ones keep
    // their input order.
    let lbls = labels(&["cat", "dog"]);
    let raw = vec![
        det("0", "0", "10", "10", &[9000, 1000]),
        det("5", "5", "2", "2", &[3000, 4000]),
        det("1", "1", "1", "1", &[9000, 500]),
    ];
    let out = process(&raw, &lbls, 5000).unwrap();
    assert_eq!(
        summary(&out),
        vec![
            ("cat".to_string(), 9000, "0".to_string()),
            ("cat".to_string(), 9000, "1".to_string()),
        ]
    );
}

#[test]
fn empty_input_is_empty_result() {
    let lbls = labels(&["cat", "dog"]);
    let raw: Vec<RawDetection> = Vec::new();
    let out = process(&raw, &lbls, 5000).unwrap();
    assert!(out.is_empty());
}

#[test]
fn out_of_range_class_fails() {
    // best class index 2, but only two labels: a model/label mismatch.
    let lbls = labels(&["cat", "dog"]);
    let raw = vec![det("0", "0", "1", "1", &[1000, 2000, 9000])];
    assert!(matches!(process(&raw, &lbls, 5000), Err(DetectError::ModelLabelMismatch)));
}

#[test]
fn out_of_range_class_of_discarded_detection_is_ignored() {
    // the only detection is below the threshold, so its class index is
    // never resolved
    let lbls = labels(&["cat"]);
    let raw = vec![det("0", "0", "1", "1", &[100, 200])];
    let out = process(&raw, &lbls, 5000).unwrap();
    assert!(out.is_empty());
}

#[test]
fn zero_threshold_admits_every_detection() {
    let lbls = labels(&["cat", "dog"]);
    let raw = vec![
        det("0", "0", "1", "1", &[0, 0]),
        det("2", "0", "1", "1", &[1, 0]),
    ];
    let out = process(&raw, &lbls, 0).unwrap();
    assert_eq!(out.len(), 2);
}

#[test]
fn threshold_above_every_probability_yields_empty() {
    let lbls = labels(&["cat", "dog"]);
    let raw = vec![
        det("0", "0", "1", "1", &[10000, 9999]),
        det("2", "0", "1", "1", &[5000, 1]),
    ];
    let out = process(&raw, &lbls, 10001).unwrap();
    assert!(out.is_empty());
}

#[test]
fn ranking_is_descending() {
    let lbls = labels(&["a", "b", "c"]);
    let raw = vec![
        det("0", "0", "1", "1", &[3000, 0, 0]),
        det("1", "0", "1", "1", &[0, 9000, 0]),
        det("2", "0", "1", "1", &[0, 0, 6000]),
    ];
    let out = process(&raw, &lbls, 1000).unwrap();
    assert_eq!(
        summary(&out),
        vec![
            ("b".to_string(), 9000, "1".to_string()),
            ("c".to_string(), 6000, "2".to_string()),
            ("a".to_string(), 3000, "0".to_string()),
        ]
    );
}

#[test]
fn equal_probabilities_keep_input_order() {
    let lbls = labels(&["a", "b"]);
    let raw = vec![
        det("first", "0", "1", "1", &[7000, 0]),
        det("second", "0", "1", "1", &[0, 7000]),
        det("third", "0", "1", "1", &[7000, 100]),
    ];
    let out = process(&raw, &lbls, 1000).unwrap();
    assert_eq!(
        summary(&out),
        vec![
            ("a".to_string(), 7000, "first".to_string()),
            ("b".to_string(), 7000, "second".to_string()),
            ("a".to_string(), 7000, "third".to_string()),
        ]
    );
    // re-running yields the same order
    let again = process(&raw, &lbls, 1000).unwrap();
    assert_eq!(summary(&again), summary(&out));
}

#[test]
fn best_class_ties_resolve_to_last_index() {
    let d = det("0", "0", "1", "1", &[4000, 4000, 100]);
    assert_eq!(d.best_class(1000), Some((1, 4000)));
}

#[test]
fn best_class_threshold_is_inclusive() {
    let d = det("0", "0", "1", "1", &[4000, 2000]);
    assert_eq!(d.best_class(4000), Some((0, 4000)));
    assert_eq!(d.best_class(4001), None);
}

#[test]
fn best_class_of_empty_probability_vector_is_none() {
    let d = det("0", "0", "1", "1", &[]);
    assert_eq!(d.best_class(0), None);
}
