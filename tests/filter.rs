use samfilter::group::{filter_lines, Filter, Output};
use samfilter::param::{contains_name, ConfigError, FilterParam, Mode};
use samfilter::record::{classify_line, parse_flag, split_tabs, FormatError};

fn rec(id: &str, flag: u16, seq: &str) -> Vec<u8> {
    format!("{}\t{}\tchr1\t100\t60\t5M\t*\t0\t0\t{}\tIIIII", id, flag, seq).into_bytes()
}

fn hdr(text: &str) -> Vec<u8> {
    text.as_bytes().to_vec()
}

fn ids(names: &[&str]) -> Vec<Vec<u8>> {
    names.iter().map(|n| n.as_bytes().to_vec()).collect()
}

fn run(p: &FilterParam, input: &[Vec<u8>]) -> Output {
    filter_lines(p, &input.to_vec()).ok().expect("input is well formed")
}

#[test]
fn end_to_end_supplementary_sel() {
    let mut p = FilterParam::new();
    p.supplementary = Mode::Sel;
    let a1 = rec("readA", 0, "ACGTA");
    let a2 = rec("readA", 2048, "ACGTA");
    let b1 = rec("readB", 0, "ACG");
    let out = run(&p, &[a1.clone(), a2.clone(), b1]);
    assert_eq!(out.lines, vec![a1, a2]);
    assert!(out.qnames.is_empty());
}

#[test]
fn end_to_end_supplementary_del() {
    let mut p = FilterParam::new();
    p.supplementary = Mode::Del;
    let a1 = rec("readA", 0, "ACGTA");
    let a2 = rec("readA", 2048, "ACGTA");
    let b1 = rec("readB", 0, "ACG");
    let out = run(&p, &[a1, a2, b1.clone()]);
    assert_eq!(out.lines, vec![b1]);
}

#[test]
fn too_few_fields_stops_the_scan() {
    let p = FilterParam::new();
    let short = b"readA\t0\tchr1".to_vec();
    let input = vec![rec("readA", 0, "ACGT"), short, rec("readB", 0, "ACGT")];
    assert_eq!(filter_lines(&p, &input).err(), Some(FormatError::TooFewFields));
}

#[test]
fn bad_flag_stops_the_scan() {
    let p = FilterParam::new();
    let bad = b"readA\tx1\tchr1\t100\t60\t5M\t*\t0\t0\tACGT\tIIII".to_vec();
    assert_eq!(filter_lines(&p, &vec![bad]).err(), Some(FormatError::BadFlag));
    let big = b"readA\t65536\tchr1\t100\t60\t5M\t*\t0\t0\tACGT\tIIII".to_vec();
    assert_eq!(filter_lines(&p, &vec![big]).err(), Some(FormatError::BadFlag));
}

#[test]
fn headers_pass_through_any_rule() {
    let mut p = FilterParam::new();
    p.greater_len = 100;
    let h1 = hdr("@HD\tVN:1.6");
    let h2 = hdr("@SQ\tSN:chr1\tLN:1000");
    let out = run(&p, &[h1.clone(), h2.clone(), rec("readA", 0, "ACGT")]);
    assert_eq!(out.lines, vec![h1, h2]);
}

#[test]
fn header_inside_a_group_is_written_first() {
    let p = FilterParam::new();
    let a1 = rec("readA", 0, "ACGT");
    let h = hdr("@CO\tnote");
    let a2 = rec("readA", 0, "ACGT");
    let out = run(&p, &[a1.clone(), h.clone(), a2.clone()]);
    assert_eq!(out.lines, vec![h, a1, a2]);
}

#[test]
fn header_needs_no_fields() {
    let p = FilterParam::new();
    let h = hdr("@");
    let out = run(&p, &[h.clone()]);
    assert_eq!(out.lines, vec![h]);
}

#[test]
fn default_rules_keep_everything() {
    let p = FilterParam::new();
    let input = vec![
        hdr("@HD\tVN:1.6"),
        rec("r1", 0, "A"),
        rec("r1", 2048, "AC"),
        rec("r2", 16, "ACG"),
        rec("r3", 0, "ACGT"),
    ];
    let out = run(&p, &input);
    assert_eq!(out.lines, input);
    assert!(out.qnames.is_empty());
}

#[test]
fn empty_input_writes_nothing() {
    let p = FilterParam::new();
    let out = run(&p, &[]);
    assert!(out.lines.is_empty());
    assert!(out.qnames.is_empty());
}

#[test]
fn empty_sequence_is_below_the_default_bound() {
    let p = FilterParam::new();
    let out = run(&p, &[rec("r1", 0, "")]);
    assert!(out.lines.is_empty());
}

#[test]
fn allow_list_excludes_unlisted_groups() {
    let mut p = FilterParam::new();
    p.qname_input = Some(ids(&["r2", "r9"]));
    p.qname_output = true;
    let r2 = rec("r2", 0, "ACG");
    let out = run(&p, &[rec("r1", 0, "ACG"), r2.clone(), rec("r3", 0, "ACG")]);
    assert_eq!(out.lines, vec![r2]);
    assert_eq!(out.qnames, ids(&["r2"]));
}

#[test]
fn allow_list_is_checked_before_other_rules() {
    let mut p = FilterParam::new();
    p.qname_input = Some(ids(&["r1"]));
    p.supplementary = Mode::Sel;
    let out = run(&p, &[rec("r1", 0, "ACG"), rec("r2", 2048, "ACG")]);
    assert!(out.lines.is_empty());
}

#[test]
fn equal_bounds_reject_every_group() {
    for l in [0u32, 3, 4, 5] {
        let mut p = FilterParam::new();
        p.greater_len = l;
        p.smaller_len = l;
        p.qname_output = true;
        let h = hdr("@HD\tVN:1.6");
        let out = run(&p, &[h.clone(), rec("r1", 0, "ACGT"), rec("r2", 0, "")]);
        assert_eq!(out.lines, vec![h]);
        assert!(out.qnames.is_empty());
    }
}

#[test]
fn length_bounds_are_exclusive() {
    let mut p = FilterParam::new();
    p.greater_len = 3;
    p.smaller_len = 5;
    let r4 = rec("r4", 0, "ACGT");
    let input = vec![rec("r3", 0, "ACG"), r4.clone(), rec("r5", 0, "ACGTA")];
    assert_eq!(run(&p, &input).lines, vec![r4]);
}

#[test]
fn group_length_comes_from_the_first_line() {
    let mut p = FilterParam::new();
    p.greater_len = 3;
    let a1 = rec("r1", 0, "ACG");
    let a2 = rec("r1", 0, "ACGTACGT");
    assert!(run(&p, &[a1, a2]).lines.is_empty());
    let b1 = rec("r2", 0, "ACGTACGT");
    let b2 = rec("r2", 0, "ACG");
    assert_eq!(run(&p, &[b1.clone(), b2.clone()]).lines, vec![b1, b2]);
}

#[test]
fn supplementary_flag_on_any_member_counts() {
    let mut p = FilterParam::new();
    p.supplementary = Mode::Sel;
    for pos in 0..3 {
        let lines: Vec<Vec<u8>> = (0..3)
            .map(|i| rec("r1", if i == pos { 2048 | 16 } else { 16 }, "ACG"))
            .collect();
        assert_eq!(run(&p, &lines).lines, lines);
    }
    let none: Vec<Vec<u8>> = (0..3).map(|_| rec("r1", 16, "ACG")).collect();
    assert!(run(&p, &none).lines.is_empty());
}

#[test]
fn identifier_output_follows_group_order() {
    let mut p = FilterParam::new();
    p.qname_output = true;
    p.supplementary = Mode::Del;
    let input = vec![
        rec("r2", 0, "ACG"),
        rec("r2", 0, "ACG"),
        rec("r1", 2048, "ACG"),
        rec("r3", 0, "ACG"),
        rec("r2", 0, "ACG"),
    ];
    let out = run(&p, &input);
    assert_eq!(out.qnames, ids(&["r2", "r3", "r2"]));
    assert_eq!(out.lines.len(), 4);
}

#[test]
fn streaming_matches_whole_input() {
    let mut p = FilterParam::new();
    p.qname_output = true;
    let input = vec![hdr("@HD"), rec("r1", 0, "AC"), rec("r1", 0, "AC"), rec("r2", 0, "AC")];
    let mut f = Filter::new();
    let mut lines = Vec::new();
    let mut names = Vec::new();
    for l in input.iter() {
        let mut o = f.feed(&p, l.clone()).ok().unwrap();
        lines.append(&mut o.lines);
        names.append(&mut o.qnames);
    }
    assert_eq!(lines.len(), 3);
    assert_eq!(names, ids(&["r1"]));
    let mut o = f.finish(&p);
    lines.append(&mut o.lines);
    names.append(&mut o.qnames);
    assert_eq!(lines, input);
    assert_eq!(names, ids(&["r1", "r2"]));
}

#[test]
fn mode_from_str() {
    assert_eq!(Mode::from_str("sel"), Ok(Mode::Sel));
    assert_eq!(Mode::from_str("del"), Ok(Mode::Del));
    assert_eq!(Mode::from_str("Sel"), Err(ConfigError::UnrecognizedMode));
    assert_eq!(Mode::from_str(""), Err(ConfigError::UnrecognizedMode));
    assert_eq!(Mode::from_str("sell"), Err(ConfigError::UnrecognizedMode));
}

#[test]
fn flag_parsing() {
    assert_eq!(parse_flag(b"0"), Some(0));
    assert_eq!(parse_flag(b"2048"), Some(2048));
    assert_eq!(parse_flag(b"+16"), Some(16));
    assert_eq!(parse_flag(b"65535"), Some(65535));
    assert_eq!(parse_flag(b"0065535"), Some(65535));
    assert_eq!(parse_flag(b"65536"), None);
    assert_eq!(parse_flag(b"999999999999"), None);
    assert_eq!(parse_flag(b""), None);
    assert_eq!(parse_flag(b"+"), None);
    assert_eq!(parse_flag(b"-1"), None);
    assert_eq!(parse_flag(b"1a"), None);
    for s in ["0", "7", "2048", "+99", "65535", "65536", "", "+", "-0", " 1"] {
        assert_eq!(parse_flag(s.as_bytes()), s.parse::<u16>().ok());
    }
}

#[test]
fn tab_splitting() {
    assert_eq!(split_tabs(b""), vec![Vec::<u8>::new()]);
    assert_eq!(split_tabs(b"a\t\tbc\t"), vec![b"a".to_vec(), vec![], b"bc".to_vec(), vec![]]);
}

#[test]
fn line_classification() {
    assert!(matches!(classify_line(b"@HD\tVN:1.6"), Ok(None)));
    let r = classify_line(&rec("readA", 2048, "ACGTA")).ok().unwrap().unwrap();
    assert_eq!(r.qname, b"readA".to_vec());
    assert_eq!(r.flag, 2048);
    assert_eq!(r.len, 5);
    let nine = b"a\t0\t2\t3\t4\t5\t6\t7\t8".to_vec();
    assert!(matches!(classify_line(&nine), Err(FormatError::TooFewFields)));
    let ten = b"a\t0\t2\t3\t4\t5\t6\t7\t8\t\xce\xb1\xce\xb2".to_vec();
    assert_eq!(classify_line(&ten).ok().unwrap().unwrap().len, 4);
    assert!(matches!(classify_line(b""), Err(FormatError::TooFewFields)));
}

#[test]
fn allow_list_lookup() {
    let list = ids(&["a", "bc"]);
    assert!(contains_name(&list, b"bc"));
    assert!(!contains_name(&list, b"b"));
    assert!(!contains_name(&Vec::new(), b"a"));
}
