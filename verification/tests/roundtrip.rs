use lab_rs::{LabFile, Label, ParseErrorKind, ReadError, UNITS_PER_SECOND};

const ALIGNMENT: &str = "\
0 2500000 sil
2500000 4200000 hh
4200000 6100000 eh
6100000 7800000 l
7800000 9200000 ow
9200000 12000000 sil
";

fn secs_to_units(secs: f64) -> u64 {
    (secs * UNITS_PER_SECOND as f64).round().max(0.0) as u64
}

fn secs_to_offset(secs: f64) -> i64 {
    (secs * UNITS_PER_SECOND as f64).round() as i64
}

#[test]
fn parse_manipulate_write() {
    let mut lab: LabFile = ALIGNMENT.parse().unwrap();
    assert_eq!(lab.len(), 6);
    assert_eq!(
        lab.duration().map(|u| u as f64 / UNITS_PER_SECOND as f64),
        Some(1.2)
    );
    assert!(lab.validate().is_empty());
    assert_eq!(lab.label_at(secs_to_units(0.5)).unwrap().text, "eh");

    lab.shift(secs_to_offset(0.1));
    assert_eq!(lab[0].start, Some(1_000_000));
    lab.shift(secs_to_offset(-0.1));
    assert_eq!(lab.to_string(), ALIGNMENT);
}

#[test]
fn tolerant_of_messy_whitespace() {
    let lab: LabFile = "  0\t100   a  \r\n\r\n100 200 b\r\n".parse().unwrap();
    assert_eq!(lab.len(), 2);
    assert_eq!(lab[0], Label::new(0, 100, "a"));
}

#[test]
fn read_error_carries_parse_details() {
    let err = LabFile::parse_str("0 10 a\n30 20 b\n")
        .map_err(ReadError::from)
        .unwrap_err();
    match err {
        ReadError::Parse(e) => {
            assert_eq!(e.line, 2);
            assert!(matches!(e.kind, ParseErrorKind::StartAfterEnd { .. }));
        }
        other => panic!("expected parse error, got {other:?}"),
    }
}

#[test]
fn labfile_labels_at_methods() {
    let lab: LabFile = "0 10 a\n10 20 b\n20 30 c\n".parse().unwrap();
    assert_eq!(lab.label_at(5).unwrap().text, "a");
    assert_eq!(lab.label_at(15).unwrap().text, "b");
    // intervals are half-open, so a shared boundary belongs to the later label
    assert_eq!(lab.label_at(20).unwrap().text, "c");
    assert_eq!(lab.label_at(30), None);

    assert_eq!(lab.labels_at(5).len(), 1);
    assert_eq!(lab.labels_at(5)[0].text, "a");
    assert_eq!(lab.labels_at(15).len(), 1);
    assert_eq!(lab.labels_at(15)[0].text, "b");
    assert_eq!(lab.labels_at(20).len(), 1);
    assert_eq!(lab.labels_at(20)[0].text, "c");
    assert_eq!(lab.labels_at(30).len(), 0);

    let secs = |units: u64| units as f64 / UNITS_PER_SECOND as f64;
    assert_eq!(lab.labels_at(secs_to_units(secs(5))).len(), 1);
    assert_eq!(lab.labels_at(secs_to_units(secs(15))).len(), 1);
    assert_eq!(lab.labels_at(secs_to_units(secs(20))).len(), 1);
    assert_eq!(lab.labels_at(secs_to_units(secs(30))).len(), 0);
}

#[test]
fn labfile_overlapping_pairs() {
    let lab: LabFile = "0 10 a\n5 20 b\n20 30 c\n".parse().unwrap();
    let overlaps = lab.overlapping_pairs();
    assert_eq!(overlaps.len(), 1);
    assert_eq!(overlaps[0].0, 1);
    assert_eq!(overlaps[0].1.text, "a");
    assert_eq!(overlaps[0].2.text, "b");

    // adjacent labels sharing a boundary are not overlaps
    let clean: LabFile = "0 10 a\n10 20 b\n".parse().unwrap();
    assert!(clean.overlapping_pairs().is_empty());
}
