use bundle_rust::version::{RubyVersion, Segment};
use bundle_rust::requirement::parse_req;

fn rv3(a: u64, b: u64, c: u64) -> RubyVersion {
    RubyVersion {
        segments: vec![Segment::Numeric(a), Segment::Numeric(b), Segment::Numeric(c)],
        platform_segment: None,
    }
}

#[test]
fn test_ruby_parse() {
    let rv = RubyVersion::parse("1.7.0");
    assert_eq!(rv.segments.len(), 3);
    assert_eq!(rv.segments[0], Segment::Numeric(1));
    assert_eq!(rv.segments[1], Segment::Numeric(7));
    assert_eq!(rv.segments[2], Segment::Numeric(0));
    assert_eq!(rv.to_string(), "1.7.0");

    let rv = RubyVersion::parse("3.3.7.3");
    assert_eq!(rv.segments.len(), 4);
    assert_eq!(rv.segments[0], Segment::Numeric(3));
    assert_eq!(rv.segments[1], Segment::Numeric(3));
    assert_eq!(rv.segments[2], Segment::Numeric(7));
    assert_eq!(rv.segments[3], Segment::Numeric(3));
    assert_eq!(rv.to_string(), "3.3.7.3");

    let rv = RubyVersion::parse("1.18.7-aarch64-linux-gnu");
    assert_eq!(rv.segments.len(), 3);
    assert_eq!(rv.segments[0], Segment::Numeric(1));
    assert_eq!(rv.segments[1], Segment::Numeric(18));
    assert_eq!(rv.segments[2], Segment::Numeric(7));
    assert_eq!(
        rv.platform_segment,
        Some(Segment::Prerelease("aarch64-linux-gnu".to_string()))
    );
    assert_eq!(rv.to_string(), "1.18.7-aarch64-linux-gnu");

    let rv = RubyVersion::parse("2.15.0.rc1-x86-linux-gnu");
    assert_eq!(rv.segments.len(), 4);
    assert_eq!(rv.segments[0], Segment::Numeric(2));
    assert_eq!(rv.segments[1], Segment::Numeric(15));
    assert_eq!(rv.segments[2], Segment::Numeric(0));
    assert_eq!(rv.segments[3], Segment::Text("rc1".to_string()));
    assert_eq!(
        rv.platform_segment,
        Some(Segment::Prerelease("x86-linux-gnu".to_string()))
    );
    assert_eq!(rv.to_string(), "2.15.0.rc1-x86-linux-gnu")
}

#[test]
fn gt_operator() {
    let r = parse_req(">3.0", ",").0.range;
    assert!(!r.contains(&rv3(3, 0, 0)));
    assert!(r.contains(&rv3(3, 0, 1)));
    assert!(!r.contains(&rv3(2, 9, 9)));
}

#[test]
fn ge_operator() {
    let r = parse_req(">=1.2.3", ",").0.range;
    assert!(r.contains(&rv3(1, 2, 3)));
    assert!(r.contains(&rv3(1, 2, 4)));
    assert!(!r.contains(&rv3(1, 2, 2)));
}

#[test]
fn lt_le_operators() {
    let lt = parse_req("<2.0", ",").0.range;
    assert!(!lt.contains(&rv3(2, 0, 0)));
    assert!(lt.contains(&rv3(1, 9, 9)));

    let le = parse_req("<=2.0", ",").0.range;
    assert!(le.contains(&rv3(2, 0, 0)));
    assert!(!le.contains(&rv3(2, 0, 1)));
}

#[test]
fn eq_operator() {
    let r = parse_req("=1.4.5", ",").0.range;
    assert!(r.contains(&rv3(1, 4, 5)));
    assert!(!r.contains(&rv3(1, 4, 6)));
}

#[test]
fn wildcard() {
    let r = parse_req("*", ",").0.range;
    assert!(r.contains(&rv3(0, 0, 0)));
    assert!(r.contains(&rv3(999, 9, 9)));
}

#[test]
fn pessimistic_operator() {
    let r = parse_req("~>1.5", ",").0.range;
    assert!(r.contains(&rv3(1, 5, 0)));
    assert!(r.contains(&rv3(1, 9, 9)));
    assert!(!r.contains(&rv3(2, 0, 0)));
}

#[test]
fn aaa() {
    let r = parse_req("~> 1.1", ",").0.range;
    let a = RubyVersion::parse("1.10.0");
    let b = RubyVersion::parse("1.11.0");
    assert!(r.contains(&a));
    assert!(r.contains(&b));
    assert!(a < b)
}

#[test]
fn bbb() {
    let r = parse_req("~> 1.6", ",").0.range;
    let a = RubyVersion::parse("1.8.0");
    assert!(r.contains(&a));
}

#[test]
fn not_equal_operator() {
    let r = parse_req("!=2.1.3", ",").0.range;
    assert!(!r.contains(&rv3(2, 1, 3)));
    assert!(r.contains(&rv3(2, 5, 0)));
    assert!(r.contains(&rv3(3, 0, 0)));
}

#[test]
fn multiple_version_req() {
    let r = parse_req(">2.0&<=3.0", "&").0.range;
    assert!(r.contains(&rv3(2, 1, 3)));
    assert!(r.contains(&rv3(2, 5, 0)));
    assert!(r.contains(&rv3(3, 0, 0)));
    assert!(!r.contains(&rv3(3, 0, 1)));
}

#[test]
fn multiple_version_req_with_comma() {
    let r = parse_req(">=2.0,<3.0", ",").0.range;
    assert!(r.contains(&rv3(2, 0, 0)));
    assert!(r.contains(&rv3(2, 1, 3)));
    assert!(r.contains(&rv3(2, 5, 0)));
    assert!(!r.contains(&rv3(3, 0, 0)));
    assert!(!r.contains(&rv3(3, 0, 1)));
}

#[test]
fn test_bump() {
    let rv = RubyVersion::parse("1.2.3");
    let bumped = rv.bump();
    assert_eq!(bumped.to_string(), "1.3");

    let rv = RubyVersion::parse("0.9.11");
    let bumped = rv.bump();
    assert_eq!(bumped.to_string(), "0.10");

    let rv = RubyVersion::parse("3.0.0.rc12");
    let bumped = rv.bump();
    assert_eq!(bumped.to_string(), "3.1");
}

#[test]
fn test_comp() {
    let rv = RubyVersion::parse("1.2.3");
    let prerv = RubyVersion::parse("1.2.3.pre");
    assert!(rv > prerv)
}

#[test]
fn pessimistic_two_segment() {
    let r = parse_req("~> 1.1", ",").0;
    assert!(r.contains(&RubyVersion::parse("1.10.0")));
    assert!(r.contains(&RubyVersion::parse("1.11.0")));
    assert!(!r.contains(&RubyVersion::parse("2.0.0")));
}

#[test]
fn parse_to_string_round_trip() {
    for text in ["1.2.3", "0.9.11", "3.0.0.rc12", "10.0", "2.15.0.rc1", "7"] {
        let v = RubyVersion::parse(text);
        let again = RubyVersion::parse(&v.to_string());
        assert_eq!(v, again);
        assert_eq!(v.to_string(), text);
    }
}

#[test]
fn ordering_is_total_on_samples() {
    let texts = ["1.2", "1.2.0", "1.2.1", "1.2.0.pre", "2.0", "0.9"];
    for a in texts {
        for b in texts {
            let va = RubyVersion::parse(a);
            let vb = RubyVersion::parse(b);
            let lt = va < vb;
            let gt = va > vb;
            let eq = va.partial_cmp(&vb) == Some(std::cmp::Ordering::Equal);
            assert_eq!(1, (lt as u32) + (gt as u32) + (eq as u32));
        }
    }
    assert!(RubyVersion::parse("1.2") <= RubyVersion::parse("1.2.0"));
    assert!(RubyVersion::parse("1.2") >= RubyVersion::parse("1.2.0"));
}

#[test]
fn prerelease_admission() {
    let plain = parse_req(">= 1.0", ",").0;
    assert!(!plain.contains(&RubyVersion::parse("1.1.0.pre")));
    assert!(plain.contains(&RubyVersion::parse("1.1.0")));

    let pinned = parse_req("= 1.1.0.pre", ",").0;
    assert!(pinned.allow_pre);
    assert!(pinned.contains(&RubyVersion::parse("1.1.0.pre")));
}

#[test]
fn wildcard_grants_no_admission() {
    // a missing requirement means the full range, but no pre-release
    let r = parse_req("*", ",").0;
    assert!(!r.allow_pre);
    assert!(r.contains(&RubyVersion::parse("1.0.0")));
    assert!(!r.contains(&RubyVersion::parse("1.1.0.pre")));
}

#[test]
fn caret_operator() {
    // the caret bound increments the major segment in place: ^1.2.3 runs to 2.2.3
    let r = parse_req("^1.2.3", ",").0;
    assert!(r.contains(&RubyVersion::parse("1.2.3")));
    assert!(r.contains(&RubyVersion::parse("1.9.0")));
    assert!(r.contains(&RubyVersion::parse("2.0.0")));
    assert!(!r.contains(&RubyVersion::parse("2.2.3")));
    // with a zero major the minor steps instead: ^0.2.1 runs to 0.3.1
    let r0 = parse_req("^0.2.1", ",").0;
    assert!(r0.contains(&RubyVersion::parse("0.2.5")));
    assert!(r0.contains(&RubyVersion::parse("0.3.0")));
    assert!(!r0.contains(&RubyVersion::parse("0.3.1")));
}
