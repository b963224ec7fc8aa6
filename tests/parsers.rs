use barrage::duration::{parse_duration, Duration, TimeUnit, ToDuration};
use barrage::parsers::{
    end, literal, map_one_of, match_char_where, n_or_more, numeric, one_of, one_or_more, uint,
    zero_or_more, Combine, IsNumeric, ParseError, Parser,
};

#[test]
fn test_literal() {
    let input = "hello world";
    let (rest, output) = literal("hello").parse(input).unwrap();

    assert_eq!(output, "hello");
    assert_eq!(rest, " world");
    assert!(literal("goodbye").parse(input).is_err());
}

#[test]
fn test_numeric() {
    let input = "123";
    let (rest, output) = numeric().parse(input).unwrap();

    assert_eq!(output, "1");
    assert_eq!(rest, "23");
}

#[test]
fn test_end_method() {
    let input = "abc";

    let (rest, output) = literal("abc").end().parse(input).unwrap();
    assert_eq!(output, "abc");
    assert_eq!(rest, "");
}

#[test]
fn test_then_method() {
    let input = "500ms";
    let (rest, output) = uint().followed_by("ms").parse(input).unwrap();

    assert_eq!(output.0, 500);
    assert_eq!(output.1, "ms");
    assert!(end().parse(rest).is_ok());
}

#[test]
fn test_map_method() {
    let input = "500ms";

    let (_rest, output) = uint()
        .followed_by(map_one_of(vec![("ms", TimeUnit::Millis)]))
        .map(ToDuration)
        .end()
        .parse(input)
        .expect("skill issue");

    assert_eq!(output, Duration::from_millis(500));
}

#[test]
fn test_one_of_macro() {
    let inputs = vec!["500ms", "2s", "1000ns", "1000000us"];
    let expected_outputs = vec![
        Duration::from_millis(500),
        Duration::from_secs(2),
        Duration::from_nanos(1000),
        Duration::from_micros(1_000_000),
    ];

    for (input, expected) in inputs.into_iter().zip(expected_outputs) {
        let (_rest, (int, unit)) = uint()
            .followed_by(one_of(vec!["s", "ms", "ns", "us"]))
            .end()
            .parse(input)
            .expect("skill issue");
        let output = match unit {
            "s" => Duration::from_secs(int),
            "ms" => Duration::from_millis(int),
            "ns" => Duration::from_nanos(int),
            "us" => Duration::from_micros(int),
            _ => panic!("nah man"),
        };

        assert_eq!(output, expected);
    }
}

#[test]
fn test_map_one_of_macro() {
    let inputs = vec!["500ms", "2s", "1000ns", "1000000us"];
    let expected_outputs = vec![
        Duration::from_millis(500),
        Duration::from_secs(2),
        Duration::from_nanos(1000),
        Duration::from_micros(1_000_000),
    ];

    for (input, expected) in inputs.into_iter().zip(expected_outputs) {
        let (_rest, output) = uint()
            .followed_by(map_one_of(vec![
                ("s", TimeUnit::Seconds),
                ("ms", TimeUnit::Millis),
                ("ns", TimeUnit::Nanos),
                ("us", TimeUnit::Micros),
            ]))
            .map(ToDuration)
            .end()
            .parse(input)
            .expect("skill issue");

        assert_eq!(output, expected);
    }
}

#[test]
fn test_parse_duration() {
    let inputs = vec!["500ms", "1000000us"];

    let expected_outputs = vec![Duration::from_millis(500), Duration::from_micros(1_000_000)];

    for (input, expected) in inputs.into_iter().zip(expected_outputs.into_iter()) {
        let output = parse_duration(input).unwrap();
        assert_eq!(expected, output);
    }
}

#[test]
fn literal_abc_scenarios() {
    assert_eq!(literal("abc").parse("abcdef"), Ok(("def", "abc")));
    assert_eq!(
        literal("abc").parse("xyz"),
        Err(ParseError::LiteralMismatch("abc"))
    );
}

#[test]
fn one_or_more_digits_scenarios() {
    let (rest, digits) = one_or_more(numeric()).parse("123abc").unwrap();
    assert_eq!(digits, vec!["1", "2", "3"]);
    assert_eq!(rest, "abc");
    assert_eq!(
        one_or_more(numeric()).parse("abc"),
        Err(ParseError::EmptyRepetition)
    );
}

#[test]
fn end_scenarios() {
    assert_eq!(end().parse(""), Ok(("", ())));
    assert_eq!(end().parse("x"), Err(ParseError::TrailingInput));
}

#[test]
fn same_parser_twice_same_result() {
    let p = uint().followed_by(one_of(vec!["s", "ms"])).end();
    assert_eq!(p.parse("42ms"), p.parse("42ms"));
    assert_eq!(p.parse("42m"), p.parse("42m"));
    assert_eq!(parse_duration("7us"), parse_duration("7us"));
    assert_eq!(parse_duration("7x"), parse_duration("7x"));
}

#[test]
fn duration_scenarios() {
    assert_eq!(parse_duration("500ms"), Ok(Duration::from_millis(500)));
    assert_eq!(parse_duration("1000000us"), Ok(Duration::from_micros(1_000_000)));
    assert_eq!(parse_duration("1000000us"), Ok(Duration::from_secs(1)));
    assert_eq!(parse_duration("2s"), Ok(Duration::from_secs(2)));
    assert_eq!(parse_duration("1000ns"), Ok(Duration::from_nanos(1000)));
    assert!(parse_duration("").is_err());
    assert!(parse_duration("ms500").is_err());
}

#[test]
fn duration_rejections() {
    for input in ["", "ms", "500", "500x", "500ms!", "500 ms", "+5s", "5.0s", " 5s"] {
        match parse_duration(input) {
            Err(ParseError::NotADuration(_)) => {}
            other => panic!("{:?} gave {:?}", input, other),
        }
    }
}

#[test]
fn duration_each_amount_and_unit() {
    for n in [0u64, 1, 9, 10, 59, 999, 1000, 123456789, u64::MAX] {
        let text = format!("{}", n);
        assert_eq!(
            parse_duration(&format!("{}s", text)),
            Ok(Duration::from_secs(n))
        );
        assert_eq!(
            parse_duration(&format!("{}ms", text)),
            Ok(Duration::from_millis(n))
        );
        assert_eq!(
            parse_duration(&format!("{}us", text)),
            Ok(Duration::from_micros(n))
        );
        assert_eq!(
            parse_duration(&format!("{}ns", text)),
            Ok(Duration::from_nanos(n))
        );
    }
}

#[test]
fn duration_error_chain() {
    assert_eq!(
        parse_duration(""),
        Err(ParseError::NotADuration(Box::new(
            ParseError::FirstParserUnsuccessful(Box::new(ParseError::EmptyRepetition))
        )))
    );
    assert_eq!(
        parse_duration("500x"),
        Err(ParseError::NotADuration(Box::new(
            ParseError::SecondParserUnsuccessful(Box::new(ParseError::NoAlternativeMatched))
        )))
    );
    assert_eq!(
        parse_duration("500ms!"),
        Err(ParseError::NotADuration(Box::new(ParseError::TrailingInput)))
    );
}

#[test]
fn duration_conversions_exact() {
    let d = Duration::from_millis(1_500);
    assert_eq!(d.as_secs(), 1);
    assert_eq!(d.subsec_nanos(), 500_000_000);
    assert_eq!(d.as_nanos(), 1_500_000_000);
    let m = Duration::from_micros(2_000_003);
    assert_eq!((m.as_secs(), m.subsec_nanos()), (2, 3_000));
    let n = Duration::from_nanos(3_000_000_007);
    assert_eq!((n.as_secs(), n.subsec_nanos()), (3, 7));
    let big = Duration::from_secs(u64::MAX);
    assert_eq!(big.as_nanos(), u64::MAX as u128 * 1_000_000_000);
    assert_eq!(TimeUnit::Millis.duration_of(2_001), Duration { secs: 2, nanos: 1_000_000 });
}

#[test]
fn uint_largest_and_overflow() {
    assert_eq!(uint().parse("18446744073709551615s"), Ok(("s", u64::MAX)));
    assert_eq!(
        uint().parse("18446744073709551616s"),
        Err(ParseError::InvalidInteger)
    );
    assert_eq!(uint().parse("007x"), Ok(("x", 7)));
}

#[test]
fn non_ascii_numeric_characters() {
    // ARABIC-INDIC DIGIT THREE is numeric but no ASCII digit.
    assert_eq!(numeric().parse("\u{663}x"), Ok(("x", "\u{663}")));
    assert_eq!(uint().parse("1\u{663}"), Err(ParseError::InvalidInteger));
    assert_eq!(
        numeric().parse("\u{e9}"),
        Err(ParseError::PredicateMismatch('\u{e9}'))
    );
}

#[test]
fn match_char_errors() {
    assert_eq!(
        match_char_where(IsNumeric).parse(""),
        Err(ParseError::UnexpectedEndOfInput)
    );
    assert_eq!(
        match_char_where(IsNumeric).parse("a1"),
        Err(ParseError::PredicateMismatch('a'))
    );
}

#[test]
fn sequence_errors_wrap_context() {
    let p = literal("a").followed_by(literal("b"));
    assert_eq!(p.parse("abc"), Ok(("c", ("a", "b"))));
    assert_eq!(
        p.parse("xb"),
        Err(ParseError::FirstParserUnsuccessful(Box::new(
            ParseError::LiteralMismatch("a")
        )))
    );
    assert_eq!(
        p.parse("ax"),
        Err(ParseError::SecondParserUnsuccessful(Box::new(
            ParseError::LiteralMismatch("b")
        )))
    );
}

#[test]
fn end_method_propagates_and_rejects_trailing() {
    assert_eq!(literal("ab").end().parse("abc"), Err(ParseError::TrailingInput));
    assert_eq!(
        literal("ab").end().parse("x"),
        Err(ParseError::LiteralMismatch("ab"))
    );
}

#[test]
fn alternation_first_match_wins() {
    let p = one_of(vec!["a", "ab"]);
    assert_eq!(p.parse("abc"), Ok(("bc", "a")));
    let q = one_of(vec!["ab", "a"]);
    assert_eq!(q.parse("abc"), Ok(("c", "ab")));
    assert_eq!(q.parse("c"), Err(ParseError::NoAlternativeMatched));
    assert_eq!(
        map_one_of(vec![("x", 1u64), ("y", 2u64)]).parse("yz"),
        Ok(("z", 2))
    );
}

#[test]
fn repetition_variants() {
    assert_eq!(zero_or_more(numeric()).parse("abc"), Ok(("abc", vec![])));
    assert_eq!(zero_or_more(literal("ab")).parse("ababa"), Ok(("a", vec!["ab", "ab"])));
    assert_eq!(n_or_more(2, numeric()).parse("12345"), Ok(("345", vec!["1", "2"])));
    assert_eq!(n_or_more(5, numeric()).parse("12x"), Ok(("x", vec!["1", "2"])));
    assert_eq!(n_or_more(3, numeric()).parse("x"), Err(ParseError::EmptyRepetition));
    assert_eq!(n_or_more(0, numeric()).parse("1"), Err(ParseError::EmptyRepetition));
    // An application that consumes nothing ends the repetition.
    assert_eq!(zero_or_more(end()).parse(""), Ok(("", vec![])));
}
