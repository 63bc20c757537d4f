use lab_rs::seconds::{audacity_line, seconds_line, seconds_string};
use lab_rs::{parse_time, LabFile, Label, ParseError, ParseErrorKind, ReadError, ScaleError};

fn label(start: Option<u64>, end: Option<u64>, text: &str, score: Option<&str>) -> Label {
    Label {
        start,
        end,
        text: text.to_string(),
        score: score.map(|s| s.to_string()),
    }
}

#[test]
fn quoted_text_is_read_and_written_back() {
    let l: Label = "0 10 \"a  b\"".parse().unwrap();
    assert_eq!(l, label(Some(0), Some(10), "a  b", None));
    assert_eq!(l.to_string(), "0 10 \"a  b\"");
}

#[test]
fn backslash_escapes_inside_quotes() {
    let l: Label = r#"0 10 "say \"hi\" \\ ok""#.parse().unwrap();
    assert_eq!(l.text, r#"say "hi" \ ok"#);
    assert_eq!(l.to_string(), r#"0 10 "say \"hi\" \\ ok""#);
}

#[test]
fn end_only_label_uses_empty_quoted_start_marker() {
    let l = label(None, Some(100), "sil", None);
    assert_eq!(l.to_string(), "\"\" 100 sil");
    let back: Label = l.to_string().parse().unwrap();
    assert_eq!(back, l);
}

#[test]
fn ambiguous_text_is_quoted() {
    let cases = [
        (label(None, None, "200", None), "200"),
        (label(None, None, "200", Some("5")), "\"200\" 5"),
        (label(Some(1), None, "2 x", None), "1 \"2 x\""),
        (label(Some(0), Some(1), "a 5", None), "0 1 \"a 5\""),
        (label(Some(0), Some(1), "", None), "0 1 \"\""),
        (label(Some(0), Some(1), " padded", None), "0 1 \" padded\""),
        (label(Some(0), Some(1), "two words", Some("-1.5")), "0 1 two words -1.5"),
        (label(None, None, "\"quoted", None), "\"\\\"quoted\""),
    ];
    for (l, line) in cases {
        assert_eq!(l.to_string(), line);
        let back: Label = line.parse().unwrap();
        assert_eq!(back, l);
    }
}

#[test]
fn empty_line_is_an_invalid_label() {
    for line in ["", "   \t"] {
        let err = line.parse::<Label>().unwrap_err();
        assert_eq!(err.line, 1);
        assert_eq!(err.kind, ParseErrorKind::InvalidLabel("line is empty".to_string()));
    }
}

#[test]
fn malformed_quoted_text_is_an_invalid_label() {
    for line in ["0 1 \"abc", "0 1 \"a\"b", "\"x\\"] {
        let err = Label::parse_line(line, 7).unwrap_err();
        assert_eq!(err.line, 7);
        assert_eq!(
            err.kind,
            ParseErrorKind::InvalidLabel("malformed quoted text".to_string())
        );
    }
}

#[test]
fn parse_time_reads_tokens() {
    assert_eq!(parse_time("123", 1), Ok(Some(123)));
    assert_eq!(parse_time("+5", 1), Ok(Some(5)));
    assert_eq!(parse_time("18446744073709551615", 1), Ok(Some(u64::MAX)));
    assert_eq!(parse_time("abc", 1), Ok(None));
    assert_eq!(parse_time("-5", 1), Ok(None));
    assert_eq!(
        parse_time("18446744073709551616", 4),
        Err(ParseError {
            line: 4,
            kind: ParseErrorKind::InvalidTime("18446744073709551616".to_string())
        })
    );
    assert!(parse_time("", 1).is_err());
}

#[test]
fn scores_follow_float_syntax() {
    let scored = ["a inf", "a -Infinity", "a NaN", "a 1e5", "a -.5", "a 5.", "a +1E-3"];
    for line in scored {
        let l: Label = line.parse().unwrap();
        assert_eq!(l.text, "a", "{line}");
        assert!(l.score.is_some(), "{line}");
        assert!(l.score.as_deref().unwrap().parse::<f64>().is_ok());
    }
    let unscored = ["a 1.2.3", "a .", "a e5", "a 1e", "a infinit", "a 0x10"];
    for line in unscored {
        let l: Label = line.parse().unwrap();
        assert_eq!(l.text, line, "{line}");
        assert_eq!(l.score, None);
        assert!(line[2..].parse::<f64>().is_err());
    }
}

#[test]
fn error_messages() {
    let e = "0 10 a\n\n20 10 b\n".parse::<LabFile>().unwrap_err();
    assert_eq!(e.to_string(), "line 3: start time 20 is after end time 10");
    let e = "99999999999999999999999 1 a".parse::<Label>().unwrap_err();
    assert_eq!(
        e.to_string(),
        "line 1: invalid time value `99999999999999999999999`"
    );
    let e = "".parse::<Label>().unwrap_err();
    assert_eq!(e.to_string(), "line 1: invalid label: line is empty");
    assert_eq!(
        ReadError::from(e).to_string(),
        "parse error: line 1: invalid label: line is empty"
    );
    assert_eq!(
        ScaleError::NonFiniteFactor.to_string(),
        "scale factor must be finite"
    );
    assert_eq!(
        ScaleError::NegativeFactor.to_string(),
        "scale factor must not be negative"
    );
    let io = std::io::Error::new(std::io::ErrorKind::Other, "disk on fire");
    assert_eq!(ReadError::from(io).to_string(), "i/o error: disk on fire");
}

#[test]
fn validate_messages_are_exact() {
    let lab: LabFile = "0 10000 a\n25000 30000 b\n20000 40000 c\n35000 36000 d\n"
        .parse()
        .unwrap();
    assert_eq!(
        lab.validate(),
        vec![
            "gap of 0.0015s between label 1 (`a`) and label 2 (`b`)".to_string(),
            "label 3 (`c`) overlaps label 2 (`b`)".to_string(),
            "label 4 (`d`) is out of order with label 3 (`c`)".to_string(),
        ]
    );
    let big: LabFile = "0 1 a\n123456789 123456790 b\n".parse().unwrap();
    assert_eq!(
        big.validate(),
        vec!["gap of 12.3457s between label 1 (`a`) and label 2 (`b`)".to_string()]
    );
}

#[test]
fn validate_counts_overlaps_and_gaps() {
    let lab: LabFile = "0 10 a\n5 20 b\n30 40 c\n32 35 d\n40 50 e\n".parse().unwrap();
    let gaps = lab
        .validate()
        .iter()
        .filter(|m| m.starts_with("gap"))
        .count();
    assert_eq!(lab.validate().len(), lab.overlapping_pairs().len() + gaps);
    assert_eq!(lab.overlapping_pairs().len(), 2);
}

#[test]
fn start_end_and_duration() {
    let lab: LabFile = "sil\n50 a\n\"\" 70 b\n10 20 c\n".parse().unwrap();
    assert_eq!(lab.start(), Some(10));
    assert_eq!(lab.end(), Some(70));
    assert_eq!(lab.duration(), Some(60));
    let backwards: LabFile = "100 a\n\"\" 20 b\n".parse().unwrap();
    assert_eq!(backwards.duration(), Some(0));
    let untimed: LabFile = "a\nb\n".parse().unwrap();
    assert_eq!((untimed.start(), untimed.end(), untimed.duration()), (None, None, None));
    assert_eq!(LabFile::new().len(), 0);
}

#[test]
fn label_duration_and_contains() {
    assert_eq!(Label::new(10, 25, "a").duration(), Some(15));
    assert_eq!(label(Some(10), None, "a", None).duration(), None);
    assert!(!label(Some(10), None, "a", None).contains(10));
    assert!(Label::new(10, 25, "a").contains(10));
    assert!(!Label::new(10, 10, "a").contains(10));
}

#[test]
fn label_at_is_first_of_labels_at() {
    let lab: LabFile = "0 100 long\n10 20 inner\n50 60 other\n".parse().unwrap();
    for t in [0, 15, 55, 100, 200] {
        let first = lab.label_at(t);
        let all = lab.labels_at(t);
        assert_eq!(first, all.first().copied());
    }
    assert_eq!(lab.labels_at(15).len(), 2);
}

#[test]
fn shift_then_unshift_restores() {
    let mut lab: LabFile = "0 100 a\n100 250 b\n".parse().unwrap();
    let before = lab.clone();
    lab.shift(1_000);
    assert_eq!(lab[1].end, Some(1_250));
    lab.shift(-1_000);
    assert_eq!(lab, before);
    let mut top: LabFile = "18446744073709551610 18446744073709551615 z\n".parse().unwrap();
    top.shift(10);
    assert_eq!(top[0].start, Some(u64::MAX));
}

#[test]
fn merge_is_idempotent_and_clears_scores() {
    let mut lab: LabFile = "0 10 a 1.5\n10 20 a 2\nb\nb\n30 b\n40 50 c\n".parse().unwrap();
    lab.merge_adjacent();
    assert_eq!(
        lab.labels,
        vec![
            label(Some(0), Some(20), "a", None),
            label(None, None, "b", None),
            label(Some(40), Some(50), "c", None),
        ]
    );
    let once = lab.clone();
    lab.merge_adjacent();
    assert_eq!(lab, once);
}

#[test]
fn file_round_trip_with_awkward_texts() {
    let lab = LabFile {
        labels: vec![
            label(Some(0), Some(10), "two  spaces", None),
            label(None, Some(20), "end only", Some("3.25")),
            label(Some(20), None, "42", Some("7")),
            label(None, None, "", None),
            label(Some(30), Some(40), "tab\there \"q\" \\", Some("-inf")),
        ],
    };
    let text = lab.to_string();
    let back: LabFile = text.parse().unwrap();
    assert_eq!(back, lab);
    assert_eq!(back.to_string(), text);
}

#[test]
fn normalized_output_reads_back_the_same() {
    let messy = "  0\t100   a  b  \r\n\n\"\" 200 \"x\\\"y\"\n300 \"42\" 9\n  7 plain 1e3  \n";
    let lab: LabFile = messy.parse().unwrap();
    let text = lab.to_string();
    let again: LabFile = text.parse().unwrap();
    assert_eq!(again, lab);
    assert_eq!(again.to_string(), text);
    assert_eq!(lab[0].text, "a b");
    assert_eq!(lab[1], label(None, Some(200), "x\"y", None));
    assert_eq!(lab[2], label(Some(300), None, "42", Some("9")));
    assert_eq!(lab[3], label(Some(7), None, "plain", Some("1e3")));
    assert_eq!(text, "0 100 a b\n\"\" 200 x\"y\n300 \"42\" 9\n7 plain 1e3\n");
}


fn gap_text(g: u64) -> String {
    let lab: LabFile = format!("0 0 a\n{g} {g} b\n").parse().unwrap();
    lab.validate().remove(0)
}

#[test]
fn gap_seconds_round_as_the_float_quotient() {
    assert_eq!(gap_text(500), "gap of 0.0001s between label 1 (`a`) and label 2 (`b`)");
    assert_eq!(gap_text(1500), "gap of 0.0001s between label 1 (`a`) and label 2 (`b`)");
    assert_eq!(gap_text(2500), "gap of 0.0003s between label 1 (`a`) and label 2 (`b`)");
    assert_eq!(gap_text(312500), "gap of 0.0312s between label 1 (`a`) and label 2 (`b`)");
    assert_eq!(gap_text(937500), "gap of 0.0938s between label 1 (`a`) and label 2 (`b`)");
}

#[test]
fn gap_seconds_match_float_formatting() {
    let mut gaps: Vec<u64> = (1..5000).collect();
    gaps.extend((0..2000u64).map(|k| k * 500 + 500));
    for shift in 40..64 {
        let p = 1u64 << shift;
        gaps.extend([p - 1, p, p + 1, p + 499, p + 500, p + 501]);
    }
    gaps.push(u64::MAX);
    gaps.push(u64::MAX - 500);
    let mut x: u64 = 0x9e37_79b9_7f4a_7c15;
    for _ in 0..20000 {
        x = x.wrapping_mul(6364136223846793005).wrapping_add(1442695040888963407);
        gaps.push(x >> (x % 61));
        gaps.push((x >> 20) / 500 * 500 + 500);
    }
    for g in gaps {
        if g == 0 {
            continue;
        }
        let expected = format!(
            "gap of {:.4}s between label 1 (`a`) and label 2 (`b`)",
            g as f64 / 1e7
        );
        assert_eq!(gap_text(g), expected, "gap {g}");
    }
}

#[test]
fn seconds_string_matches_float_formatting() {
    assert_eq!(seconds_string(0, 7), "0.0000000");
    assert_eq!(seconds_string(123456789, 7), "12.3456789");
    assert_eq!(seconds_string(5, 6), "0.000000");
    assert_eq!(seconds_string(15, 6), "0.000002");
    assert_eq!(seconds_string(u64::MAX, 4), "1844674407370.9551");
    let mut x: u64 = 0x2545_f491_4f6c_dd1d;
    for k in 0..30000u64 {
        x = x.wrapping_mul(6364136223846793005).wrapping_add(1442695040888963407);
        let u = if k % 3 == 0 { k } else { x >> (x % 64) };
        for places in 0..=20u32 {
            let expected = format!("{:.*}", places as usize, u as f64 / 1e7);
            assert_eq!(seconds_string(u, places), expected, "{u} with {places} places");
        }
    }
}

#[test]
fn distinct_texts_are_sorted_and_unique() {
    let lab: LabFile = "0 1 sil\n1 2 b\n2 3 a\n3 4 b\n4 5 sil\n5 6 ab\n6 7 \"\"\n7 8 é\n8 9 z\n"
        .parse()
        .unwrap();
    assert_eq!(lab.distinct_texts(), vec!["", "a", "ab", "b", "sil", "z", "é"]);
    assert!(LabFile::new().distinct_texts().is_empty());
    let words = ["x", "xy", "y", "Y", "ü", "u", "", "xx", "x y", "日本", "日"];
    let mut x: u64 = 7;
    let mut lab = LabFile::new();
    for k in 0..200u64 {
        x = x.wrapping_mul(6364136223846793005).wrapping_add(1442695040888963407);
        lab.labels.push(Label::new(k, k + 1, words[(x >> 33) as usize % words.len()]));
        let expected: std::collections::BTreeSet<&str> =
            lab.iter().map(|l| l.text.as_str()).collect();
        let expected: Vec<&str> = expected.into_iter().collect();
        assert_eq!(lab.distinct_texts(), expected);
    }
}

#[test]
fn seconds_places_edges() {
    assert_eq!(seconds_string(25_000_000, 0), "2");
    assert_eq!(seconds_string(35_000_000, 0), "4");
    assert_eq!(seconds_string(1, 20), format!("{:.20}", 1.0f64 / 1e7));
    assert_eq!(seconds_string(u64::MAX, 20), format!("{:.20}", u64::MAX as f64 / 1e7));
}

#[test]
fn seconds_and_audacity_lines() {
    let l = label(Some(12_345_678), Some(20_000_000), "ab c", Some("1.50"));
    assert_eq!(seconds_line(&l, Some("1.5")), "1.2345678\t2.0000000\tab c\t1.5\n");
    assert_eq!(seconds_line(&l, None), "1.2345678\t2.0000000\tab c\n");
    let open_start = label(None, Some(5), "x", None);
    assert_eq!(seconds_line(&open_start, None), "\t0.0000005\tx\n");
    assert_eq!(audacity_line(&open_start), "0.0000000\t0.0000005\tx\n");
    let open_end = label(Some(30_000_000), None, "y", None);
    assert_eq!(seconds_line(&open_end, None), "3.0000000\t\ty\n");
    assert_eq!(audacity_line(&open_end), "3.0000000\t3.0000000\ty\n");
    assert_eq!(audacity_line(&label(None, None, "z", None)), "0.0000000\t0.0000000\tz\n");
}
