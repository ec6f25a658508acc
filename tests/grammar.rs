use data_lake::grammar::PathParseError;
use data_lake::path::Path;
use data_lake::path::PathElement;
use data_lake::path::PathElement::{Name, Root, Wildcard};

fn parse_err(s: &str) -> PathParseError {
    match Path::parse(s) {
        Ok(_) => panic!("{} should not parse", s),
        Err(e) => e,
    }
}

#[test]
fn root_path_parses_to_root_only() {
    let p = Path::parse("/").unwrap();
    assert_eq!(p.len(), 1);
    assert!(*p.get(0) == Root);
    assert_eq!(p.to_string(), "/");
}

#[test]
fn segments_parse_to_elements() {
    let p: Path = "/a/*/**/*2,3/kitchen*".parse().unwrap();
    assert_eq!(p.len(), 6);
    assert!(*p.get(0) == Root);
    assert!(*p.get(1) == Name("a".into()));
    assert!(*p.get(2) == Wildcard((1, 0)));
    assert!(*p.get(3) == Wildcard((0, 9)));
    assert!(*p.get(4) == Wildcard((2, 3)));
    assert!(*p.get(5) == Name("kitchen*".into()));
}

#[test]
fn leading_slashes_are_passed_over() {
    let p = Path::parse("//a").unwrap();
    assert_eq!(p.len(), 2);
    assert!(*p.get(1) == Name("a".into()));
}

#[test]
fn serialize_parse_gives_canonical_text() {
    assert_eq!(Path::parse("/a/*/**/*2,3").unwrap().to_string(), "/a/*/**/*2,3");
    assert_eq!(Path::parse("/*1,0").unwrap().to_string(), "/*");
    assert_eq!(Path::parse("/*0,9").unwrap().to_string(), "/**");
    assert_eq!(Path::parse("/*2,03").unwrap().to_string(), "/*2,3");
    assert_eq!(Path::parse("//a/b").unwrap().to_string(), "/a/b");
    assert_eq!(Path::parse("/*10,10/x").unwrap().to_string(), "/*10,10/x");
}

#[test]
fn written_path_reads_back() {
    let p = Path::from_elements(&[Root, Name("floor1".into()), Wildcard((0, 10)), Wildcard((3, 0))]);
    let text = p.to_string();
    assert_eq!(text, "/floor1/*0,10/*3,0");
    let q = Path::parse(&text).unwrap();
    assert_eq!(q.len(), 4);
    for i in 0..4 {
        assert!(*q.get(i) == *p.get(i));
    }
}

#[test]
fn element_texts() {
    assert_eq!(Root.to_string(), "");
    assert_eq!(Name("lamp".into()).to_string(), "lamp");
    assert_eq!(Wildcard((1, 0)).to_string(), "*");
    assert_eq!(Wildcard((0, 9)).to_string(), "**");
    assert_eq!(Wildcard((0, 10)).to_string(), "*0,10");
    assert_eq!(Wildcard((12, 345)).to_string(), "*12,345");
    assert_eq!(Path::from_elements(&[]).to_string(), "");
    assert_eq!(Path::from_elements(&[Wildcard((1, 0)), Wildcard((1, 0))]).to_string(), "/*/*");
}

#[test]
fn element_parse() {
    assert!(PathElement::parse("*").unwrap() == Wildcard((1, 0)));
    assert!(PathElement::parse("**").unwrap() == Wildcard((0, 9)));
    assert!(PathElement::parse("*0,10").unwrap() == Wildcard((0, 10)));
    assert!("x".parse::<PathElement>().unwrap() == Name("x".into()));
    assert_eq!(PathElement::parse("").err(), Some(PathParseError::EmptyElement));
}

#[test]
fn parse_errors() {
    assert_eq!(parse_err(""), PathParseError::MissingLeadingSlash);
    assert_eq!(parse_err("a/b"), PathParseError::MissingLeadingSlash);
    assert_eq!(parse_err("/a/"), PathParseError::TrailingSlash);
    assert_eq!(parse_err("//"), PathParseError::TrailingSlash);
    assert_eq!(parse_err("/a//b"), PathParseError::EmptyElement);
    assert_eq!(parse_err("/*x"), PathParseError::MalformedWildcard);
    assert_eq!(parse_err("/***"), PathParseError::MalformedWildcard);
    assert_eq!(parse_err("/*x,1"), PathParseError::InvalidMandatoryCount);
    assert_eq!(parse_err("/*,1"), PathParseError::InvalidMandatoryCount);
    assert_eq!(parse_err("/*99999999999999999999999,0"), PathParseError::InvalidMandatoryCount);
    assert_eq!(parse_err("/*1,y"), PathParseError::InvalidOptionalCount);
    assert_eq!(parse_err("/*1,+"), PathParseError::InvalidOptionalCount);
    assert_eq!(parse_err("/*+1,0"), PathParseError::InvalidMandatoryCount);
    assert_eq!(parse_err("/*1,+0"), PathParseError::InvalidOptionalCount);
    assert_eq!(parse_err("/*11,0"), PathParseError::MandatoryCountTooLarge);
    assert_eq!(parse_err("/*0,11"), PathParseError::OptionalCountTooLarge);
}
