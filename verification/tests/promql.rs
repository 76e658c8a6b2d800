use openobserve::promql::{label_join, label_replace, Label, LabelError};

fn label(name: &str, value: &str) -> Label {
    Label { name: name.to_string(), value: value.to_string() }
}

fn labels() -> Vec<Label> {
    vec![
        label("__name__", "http_requests_total"),
        label("instance", "host-1"),
        label("job", "gateway"),
    ]
}

#[test]
fn join_concatenates_source_values_in_label_order() {
    let out = label_join(
        &labels(),
        "combined",
        "-",
        &vec!["instance".to_string(), "job".to_string()],
    );
    assert_eq!(out.len(), 4);
    let last = out.last().unwrap();
    assert_eq!(last.name, "combined");
    assert_eq!(last.value, "host-1-gateway");
    // The existing labels, the metric name included, are kept.
    assert_eq!(out[0].name, "__name__");
    assert_eq!(out[1].value, "host-1");
    assert_eq!(out[2].value, "gateway");
}

#[test]
fn join_never_takes_the_metric_name() {
    let out = label_join(
        &labels(),
        "combined",
        ",",
        &vec!["__name__".to_string(), "job".to_string()],
    );
    assert_eq!(out.last().unwrap().value, "gateway");
}

#[test]
fn join_of_nothing_is_empty() {
    let out = label_join(&labels(), "combined", "-", &vec![]);
    assert_eq!(out.last().unwrap().value, "");
}

#[test]
fn replace_rewrites_the_source_value() {
    let out = label_replace(&labels(), "short", "$1", "instance", "(.*)-.*").unwrap();
    // The metric-name label is dropped; the new label carries the capture.
    assert_eq!(out.len(), 3);
    assert!(out.iter().all(|l| l.name != "__name__"));
    let last = out.last().unwrap();
    assert_eq!(last.name, "short");
    assert_eq!(last.value, "host");
}

#[test]
fn replace_on_an_absent_label_works_on_the_empty_string() {
    let out = label_replace(&labels(), "fresh", "none", "missing", ".*").unwrap();
    assert_eq!(out.last().unwrap().value, "none");
}

#[test]
fn replace_rejects_an_invalid_pattern() {
    let err = label_replace(&labels(), "x", "y", "instance", "(unclosed").unwrap_err();
    assert_eq!(err, LabelError::InvalidRegex);
}
