use hashlife::parse_rle;
use hashlife::parse_rle::RleCoordError;
use hashlife::parse_rle::RleError;
use hashlife::parse_util;
use hashlife::parse_util::ConvertError;
use hashlife::rule_set;
use hashlife::rule_set::RuleSize;
use hashlife::rule_set::RuleTopology;

#[test]
fn test_take_ws_full_ws() {
    let bytes = b"  ";

    let res = parse_util::take_ws(bytes);

    assert_eq!(res, b"")
}

#[test]
fn parse_rle_read_coordinates() {
    let bytes = b"x = 1, y = 1\n";
    parse_rle::read_coordinates(bytes.as_slice()).unwrap();
}

#[test]
fn rle_read_coordinates() {
    let bytes = b"x = 1, y = 1\n";
    parse_rle::read_coordinates(bytes.as_slice()).unwrap();
}

#[test]
fn test_rule_with_extension() {
    // final whitespace needed since RLE files never end in a rule
    let rule_bs = b"B3/S23:T100,58 ";

    let (rule, bs) = rule_set::parse_rule(rule_bs).unwrap();

    assert_eq!(rule.births(), 0b1000);
    assert_eq!(rule.survivals(), 0b1100);
    let ext = rule.extension().unwrap();
    assert!(matches!(ext.topology, RuleTopology::Torus));
    assert!(matches!(ext.width, RuleSize::Bounded(100)));
    assert!(matches!(ext.height, RuleSize::Bounded(58)));
    assert_eq!(bs, b" ");
}

#[test]
fn test_rule_with_unbounded_extension() {
    // final whitespace needed since RLE files never end in a rule
    let rule_bs = b"B3/S23:T100,* ";

    let (rule, bs) = rule_set::parse_rule(rule_bs).unwrap();

    assert_eq!(rule.births(), 0b1000);
    assert_eq!(rule.survivals(), 0b1100);
    let ext = rule.extension().unwrap();
    assert!(matches!(ext.topology, RuleTopology::Torus));
    assert!(matches!(ext.width, RuleSize::Bounded(100)));
    assert!(matches!(ext.height, RuleSize::Unbounded));
    assert_eq!(bs, b" ");
}

#[test]
fn acorn_file_parses_exactly() {
    let text = b"#N Acorn\n#O Charles Corderman\nx = 7, y = 3, rule = B3/S23\nbo5b$3bo3b$2o2b3o!";
    let (file, coords) = parse_rle::read_rle(text).unwrap();

    assert_eq!(file.name.as_deref(), Some(b"Acorn".as_slice()));
    assert_eq!(file.author.as_deref(), Some(b"Charles Corderman".as_slice()));
    assert_eq!(file.offset, Some((7, 3)));
    assert_eq!(file.set.births(), 0b1000);
    assert_eq!(file.set.survivals(), 0b1100);

    let expected = vec![
        (8, 3),
        (10, 2),
        (7, 1),
        (8, 1),
        (11, 1),
        (12, 1),
        (13, 1),
    ];
    assert_eq!(coords, expected);
}

#[test]
fn rle_without_metadata_parses() {
    let (file, coords) = parse_rle::read_rle(b"bob$2bo$3o!").unwrap();
    assert!(file.name.is_none());
    assert!(file.offset.is_none());
    let expected = vec![(1, 0), (2, -1), (0, -2), (1, -2), (2, -2)];
    assert_eq!(coords, expected);
}

#[test]
fn rle_offset_comment_line() {
    let (file, coords) = parse_rle::read_rle(b"#P x = 2, y = -3\no!").unwrap();
    assert_eq!(file.offset, Some((2, -3)));
    assert_eq!(coords, vec![(2, -3)]);
}

#[test]
fn rle_nameless_rule_comment() {
    let (file, _) = parse_rle::read_rle(b"#r 36/125 \n2o$2o!").unwrap();
    assert_eq!(file.set.births(), 0b0100_1000);
    assert_eq!(file.set.survivals(), 0b0010_0110);
}

#[test]
fn rle_truncated_payload_is_an_error() {
    let err = parse_rle::read_rle(b"3o").unwrap_err();
    assert!(matches!(err, RleError::Encoding(_)));
}

#[test]
fn rle_unknown_tag_is_an_error() {
    let err = parse_rle::read_rle(b"3z!").unwrap_err();
    assert!(matches!(err, RleError::Encoding(_)));
}

#[test]
fn rle_bad_comment_type_is_an_error() {
    let err = parse_rle::read_rle(b"#Q something\no!").unwrap_err();
    assert!(matches!(err, RleError::CommentLine(_)));
}

#[test]
fn coordinates_without_y_are_an_error() {
    let err = parse_rle::read_coordinates(b"x = 1, z = 2\n").unwrap_err();
    assert!(matches!(
        err,
        RleCoordError::ParseError(_) | RleCoordError::NoY
    ));
}

#[test]
fn convert_reads_signed_numerals() {
    assert_eq!(parse_util::convert(b"0"), Ok(0));
    assert_eq!(parse_util::convert(b"1234"), Ok(1234));
    assert_eq!(parse_util::convert(b"-42"), Ok(-42));
    assert_eq!(parse_util::convert(b"+7"), Ok(7));
    assert_eq!(parse_util::convert(b""), Err(ConvertError::Empty));
    assert_eq!(parse_util::convert(b"12x"), Err(ConvertError::InvalidDigit));
    assert_eq!(
        parse_util::convert(b"99999999999999999999999999999999999999999"),
        Err(ConvertError::OutOfRange)
    );
}

#[test]
fn rule_errors_name_the_missing_piece() {
    assert!(matches!(
        rule_set::parse_rule(b"3/s23 "),
        Err(rule_set::RuleError::NoBirths)
    ));
    assert!(matches!(
        rule_set::parse_rule(b"b/s23 "),
        Err(rule_set::RuleError::NoBirthsCount)
    ));
    assert!(matches!(
        rule_set::parse_rule(b"b3x/s23 "),
        Err(rule_set::RuleError::BirthCountContainsNonDigits)
    ));
    assert!(matches!(
        rule_set::parse_rule(b"b3/23 "),
        Err(rule_set::RuleError::NoSurvivals)
    ));
    assert!(matches!(
        rule_set::parse_rule(b"b3/s23:Z4,4 "),
        Err(rule_set::RuleError::ExtensionError(_))
    ));
}

#[test]
fn parse_helpers_behave() {
    let (one, rest) = parse_util::take_1(b"ab");
    assert_eq!(one, Some(b'a'));
    assert_eq!(rest, b"b");

    assert_eq!(parse_util::peek_1(b"xy"), Some(b'x'));
    assert_eq!(parse_util::peek_1(b""), None);

    let (pre, rest) = parse_util::split_n(b"abcd", 2);
    assert_eq!(pre, Some(b"ab".as_slice()));
    assert_eq!(rest, b"cd");

    assert_eq!(parse_util::peek_n(b"abcd", 3), Some(b"abc".as_slice()));

    assert!(parse_util::expect(b'a', b"ab").is_ok());
    assert!(parse_util::expect(b'b', b"ab").is_err());
    assert!(parse_util::expect_slice(b"ru", b"rule").is_ok());
    assert!(parse_util::is(b'*', b"*").is_ok());
    assert!(parse_util::is(b'*', b"**").is_err());
    assert!(parse_util::is_slice(b"ab", b"ab").is_ok());

    let (pre, rest) = parse_util::take_until(b'/', b"34/56");
    assert_eq!(pre, Some(b"34".as_slice()));
    assert_eq!(rest, b"/56");

    let (pre, _) = parse_util::take_until_ws(b"ab cd");
    assert_eq!(pre, Some(b"ab".as_slice()));

    let (pre, rest) = parse_util::take_with(b'\n', b"name\nrest");
    assert_eq!(pre, Some(b"name".as_slice()));
    assert_eq!(rest, b"rest");

    let (consumed, rest) = parse_util::take_ws_line(b"  \nnext");
    assert!(consumed);
    assert_eq!(rest, b"next");

    assert_eq!(parse_util::take_ws_lines(b" \n \nabc"), b"abc");
}
