use lab_rs::{Label, ParseErrorKind, UNITS_PER_SECOND};

fn secs_to_units(secs: f64) -> u64 {
    (secs * UNITS_PER_SECOND as f64).round().max(0.0) as u64
}

fn units_to_secs(units: u64) -> f64 {
    units as f64 / UNITS_PER_SECOND as f64
}

fn score_value(l: &Label) -> Option<f64> {
    l.score.as_deref().map(|s| s.parse::<f64>().unwrap())
}

#[test]
fn parses_full_line() {
    let l: Label = "0 23823130 pau".parse().unwrap();
    assert_eq!(l, Label::new(0, 23823130, "pau"));
}

#[test]
fn parses_score() {
    let l: Label = "0 100 a -42.5".parse().unwrap();
    assert_eq!(score_value(&l), Some(-42.5));
    assert_eq!(l.text, "a");
}

#[test]
fn parses_label_only() {
    let l: Label = "sil".parse().unwrap();
    assert_eq!((l.start, l.end), (None, None));
    assert_eq!(l.text, "sil");
}

#[test]
fn parses_single_time() {
    let l: Label = "100 sil".parse().unwrap();
    assert_eq!((l.start, l.end), (Some(100), None));
}

#[test]
fn numeric_only_line_is_a_label() {
    // the last token is always the label text, even if numeric
    let l: Label = "100 200".parse().unwrap();
    assert_eq!((l.start, l.end), (Some(100), None));
    assert_eq!(l.text, "200");
}

#[test]
fn rejects_start_after_end() {
    let err = "200 100 a".parse::<Label>().unwrap_err();
    assert_eq!(
        err.kind,
        ParseErrorKind::StartAfterEnd {
            start: 200,
            end: 100
        }
    );
}

#[test]
fn rejects_overflowing_time() {
    let err = "99999999999999999999999 100 a"
        .parse::<Label>()
        .unwrap_err();
    assert!(matches!(err.kind, ParseErrorKind::InvalidTime(_)));
}

#[test]
fn display_round_trips() {
    for line in ["0 23823130 pau", "100 sil", "sil", "0 100 a -42.5"] {
        let l: Label = line.parse().unwrap();
        assert_eq!(l.to_string(), line);
    }
}

#[test]
fn seconds_conversion() {
    let l = Label::new(secs_to_units(1.0), secs_to_units(2.5), "a");
    assert_eq!(l.start, Some(10_000_000));
    assert_eq!(l.end, Some(25_000_000));
    assert_eq!(l.duration().map(units_to_secs), Some(1.5));
    assert!(l.contains(15_000_000));
    assert!(!l.contains(25_000_000));
}
