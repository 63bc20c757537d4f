use lab_rs::{LabFile, Label};

const SAMPLE: &str = "0 1000 a\n1000 2500 b\n2500 4000 b\n";

fn sample() -> LabFile {
    SAMPLE.parse().unwrap()
}

#[test]
fn parses_and_round_trips() {
    let lab = sample();
    assert_eq!(lab.len(), 3);
    assert_eq!(lab.to_string(), SAMPLE);
}

#[test]
fn skips_blank_lines_and_reports_line_numbers() {
    let lab: LabFile = "0 10 a\n\n  \n10 20 b\n".parse().unwrap();
    assert_eq!(lab.len(), 2);
    let err = "0 10 a\n\n20 10 b\n".parse::<LabFile>().unwrap_err();
    assert_eq!(err.line, 3);
}

#[test]
fn duration_and_lookup() {
    let lab = sample();
    assert_eq!(lab.duration(), Some(4000));
    assert_eq!(lab.label_at(1500).unwrap().text, "b");
    assert_eq!(lab.label_at(4000), None);
}

#[test]
fn shift_clamps_at_zero() {
    let mut lab = sample();
    lab.shift(-1500);
    assert_eq!(lab[0].start, Some(0));
    assert_eq!(lab[0].end, Some(0));
    assert_eq!(lab[1].start, Some(0));
    assert_eq!(lab[2].end, Some(2500));
}

#[test]
fn merges_adjacent_identical_labels() {
    let mut lab = sample();
    lab.merge_adjacent();
    assert_eq!(lab.len(), 2);
    assert_eq!(lab[1], Label::new(1000, 4000, "b"));
}

#[test]
fn merge_does_not_cross_gaps_or_overlaps() {
    let mut gapped: LabFile = "0 10 a\n20 30 a\n".parse().unwrap();
    gapped.merge_adjacent();
    assert_eq!(gapped.len(), 2);

    let mut nested: LabFile = "0 100 a\n10 20 a\n".parse().unwrap();
    nested.merge_adjacent();
    assert_eq!(nested.len(), 2);
}

#[test]
fn validate_finds_gaps_overlaps_and_disorder() {
    let lab: LabFile = "0 10 a\n5 20 b\n30 40 c\n32 35 d\n".parse().unwrap();
    let problems = lab.validate();
    assert_eq!(problems.len(), 3);
    assert!(problems[0].contains("overlaps"));
    assert!(problems[1].contains("gap"));
    assert!(problems[2].contains("out of order"));
    assert!(sample().validate().is_empty());
}

#[test]
fn reader_and_writer_round_trip() {
    let lab = LabFile::parse_str(std::str::from_utf8(SAMPLE.as_bytes()).unwrap()).unwrap();
    let out = lab.to_string().into_bytes();
    assert_eq!(out, SAMPLE.as_bytes());
}
