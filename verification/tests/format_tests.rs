use darknet_inference::detection::{BBox, LabeledDetection, RawDetection};
use darknet_inference::format::{format_detections, render_results};
use darknet_inference::postprocess::DetectError;

fn labeled(label: &str, probability: u32, x: &str, y: &str, w: &str, h: &str) -> LabeledDetection {
    LabeledDetection {
        bbox: BBox {
            x: x.as_bytes().to_vec(),
            y: y.as_bytes().to_vec(),
            w: w.as_bytes().to_vec(),
            h: h.as_bytes().to_vec(),
        },
        probability,
        label: label.as_bytes().to_vec(),
    }
}

fn text(bytes: Vec<u8>) -> String {
    String::from_utf8(bytes).unwrap()
}

#[test]
fn one_line_layout() {
    let dets = vec![labeled("cat", 9000, "0", "0", "10", "10")];
    assert_eq!(text(format_detections(&dets)), "cat\t90.00%\tx: 0\ty: 0\tw: 10\th: 10\n");
}

#[test]
fn empty_list_renders_empty_text() {
    let dets: Vec<LabeledDetection> = Vec::new();
    assert_eq!(text(format_detections(&dets)), "");
}

#[test]
fn percent_has_exactly_two_decimals() {
    let dets = vec![
        labeled("a", 5, "0", "0", "1", "1"),
        labeled("b", 40, "0", "0", "1", "1"),
        labeled("c", 10000, "0", "0", "1", "1"),
        labeled("d", 12345, "0", "0", "1", "1"),
        labeled("e", 0, "0", "0", "1", "1"),
    ];
    let t = text(format_detections(&dets));
    let lines: Vec<&str> = t.lines().collect();
    assert_eq!(lines[0], "a\t0.05%\tx: 0\ty: 0\tw: 1\th: 1");
    assert_eq!(lines[1], "b\t0.40%\tx: 0\ty: 0\tw: 1\th: 1");
    assert_eq!(lines[2], "c\t100.00%\tx: 0\ty: 0\tw: 1\th: 1");
    assert_eq!(lines[3], "d\t123.45%\tx: 0\ty: 0\tw: 1\th: 1");
    assert_eq!(lines[4], "e\t0.00%\tx: 0\ty: 0\tw: 1\th: 1");
}

#[test]
fn coordinates_pass_through_unchanged() {
    let dets = vec![labeled("cat", 7500, "0.48829", "-3.5", "12.25", "7")];
    assert_eq!(
        text(format_detections(&dets)),
        "cat\t75.00%\tx: 0.48829\ty: -3.5\tw: 12.25\th: 7\n"
    );
}

#[test]
fn render_results_scenario() {
    let lbls: Vec<Vec<u8>> = vec![b"cat".to_vec(), b"dog".to_vec()];
    let raw = vec![
        RawDetection {
            bbox: BBox {
                x: b"0".to_vec(),
                y: b"0".to_vec(),
                w: b"10".to_vec(),
                h: b"10".to_vec(),
            },
            probs: vec![9000, 1000],
        },
        RawDetection {
            bbox: BBox {
                x: b"5".to_vec(),
                y: b"5".to_vec(),
                w: b"2".to_vec(),
                h: b"2".to_vec(),
            },
            probs: vec![3000, 4000],
        },
        RawDetection {
            bbox: BBox {
                x: b"1".to_vec(),
                y: b"1".to_vec(),
                w: b"1".to_vec(),
                h: b"1".to_vec(),
            },
            probs: vec![9000, 500],
        },
    ];
    let out = render_results(&raw, &lbls, 5000).unwrap();
    assert_eq!(
        text(out),
        "cat\t90.00%\tx: 0\ty: 0\tw: 10\th: 10\ncat\t90.00%\tx: 1\ty: 1\tw: 1\th: 1\n"
    );
}

#[test]
fn render_results_empty_input_writes_empty_file() {
    let lbls: Vec<Vec<u8>> = vec![b"cat".to_vec()];
    let raw: Vec<RawDetection> = Vec::new();
    let out = render_results(&raw, &lbls, 5000).unwrap();
    assert_eq!(out, Vec::<u8>::new());
}

#[test]
fn render_results_label_mismatch_produces_no_text() {
    let lbls: Vec<Vec<u8>> = vec![b"cat".to_vec()];
    let raw = vec![RawDetection {
        bbox: BBox {
            x: b"0".to_vec(),
            y: b"0".to_vec(),
            w: b"1".to_vec(),
            h: b"1".to_vec(),
        },
        probs: vec![100, 9000],
    }];
    assert!(matches!(
        render_results(&raw, &lbls, 5000),
        Err(DetectError::ModelLabelMismatch)
    ));
}
