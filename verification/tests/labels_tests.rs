use darknet_inference::config::DarknetInferenceService;
use darknet_inference::labels::parse_labels;

fn parsed(text: &str) -> Vec<String> {
    parse_labels(&text.as_bytes().to_vec())
        .into_iter()
        .map(|l| String::from_utf8(l).unwrap())
        .collect()
}

#[test]
fn labels_one_per_line() {
    assert_eq!(parsed("cat\ndog\nbird"), vec!["cat", "dog", "bird"]);
}

#[test]
fn trailing_line_feed_adds_no_entry() {
    assert_eq!(parsed("cat\ndog\n"), vec!["cat", "dog"]);
}

#[test]
fn carriage_return_line_feed_is_one_terminator() {
    assert_eq!(parsed("cat\r\ndog\r\n"), vec!["cat", "dog"]);
}

#[test]
fn interior_blank_lines_become_entries() {
    assert_eq!(parsed("cat\n\ndog"), vec!["cat", "", "dog"]);
}

#[test]
fn empty_text_has_no_labels() {
    assert_eq!(parsed(""), Vec::<String>::new());
}

#[test]
fn lone_trailing_carriage_return_is_kept() {
    assert_eq!(parsed("cat\r"), vec!["cat\r"]);
}

#[test]
fn interior_carriage_return_is_kept() {
    assert_eq!(parsed("ca\rt\ndog"), vec!["ca\rt", "dog"]);
}

#[test]
fn new_service_has_empty_state() {
    let s = DarknetInferenceService::new();
    assert_eq!(s.input_path, "");
    assert_eq!(s.cfg_path, "");
    assert_eq!(s.model_path, "");
    assert_eq!(s.labels_path, "");
    assert_eq!(s.output_path, "");
    assert_eq!(s.objectness_threshold, 0);
    assert_eq!(s.class_threshold, 0);
    assert_eq!(s.hierarchical_threshold, 0);
    assert_eq!(s.iou_threshold, 0);
    assert!(s.letterbox);
}
