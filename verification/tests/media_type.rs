use mediatype::media_type::MediaType;
use mediatype::parse::ParseError;
use mediatype::token::Name;
use mediatype::token::Value;

fn text() -> Name {
    Name::new("text").unwrap()
}

fn plain() -> Name {
    Name::new("plain").unwrap()
}

fn image() -> Name {
    Name::new("image").unwrap()
}

fn svg() -> Name {
    Name::new("svg").unwrap()
}

fn xml() -> Name {
    Name::new("xml").unwrap()
}

fn charset() -> Name {
    Name::new("charset").unwrap()
}

fn utf_8() -> Value {
    Value::new("UTF-8").unwrap()
}

#[test]
fn to_string() {
    assert_eq!(MediaType::new(text(), plain()).to_string(), "text/plain");
    assert_eq!(
        MediaType::from_parts(image(), svg(), Some(xml()), None).to_string(),
        "image/svg+xml"
    );
    assert_eq!(
        MediaType::from_parts(text(), plain(), None, Some((charset(), utf_8()))).to_string(),
        "text/plain; charset=UTF-8"
    );
    assert_eq!(
        MediaType::from_parts(image(), svg(), Some(xml()), Some((charset(), utf_8()))).to_string(),
        "image/svg+xml; charset=UTF-8"
    );
}

#[test]
fn set_ty() {
    let mut media_type = MediaType::from_parts(text(), plain(), None, Some((charset(), utf_8())));
    let upper_text = Name::new("TEXT").unwrap();
    media_type.set_ty(upper_text);
    assert_eq!(media_type.to_string(), "TEXT/plain; charset=UTF-8");
}

#[test]
fn set_subty() {
    let mut media_type = MediaType::from_parts(text(), plain(), None, Some((charset(), utf_8())));
    let markdown = Name::new("markdown").unwrap();
    media_type.set_subty(markdown);
    assert_eq!(media_type.to_string(), "text/markdown; charset=UTF-8");
}

#[test]
fn set_suffix() {
    let mut media_type = MediaType::from_parts(image(), svg(), None, Some((charset(), utf_8())));
    media_type.set_suffix(Some(xml()));
    assert_eq!(media_type.to_string(), "image/svg+xml; charset=UTF-8");
}

#[test]
fn media_type_get_param() {
    assert_eq!(MediaType::new(text(), plain()).get_param(&charset()), None);
    assert_eq!(
        MediaType::from_parts(text(), plain(), None, Some((charset(), utf_8())))
            .get_param(&charset())
            .as_deref(),
        Some("UTF-8")
    );
    assert_eq!(
        MediaType::parse("image/svg+xml; charset=UTF-8; HELLO=WORLD")
            .unwrap()
            .get_param(&Name::new("hello").unwrap())
            .as_deref(),
        Some("WORLD")
    );
}

#[test]
fn set_param() {
    let mut media_type = MediaType::from_parts(text(), plain(), None, Some((charset(), utf_8())));
    let lower_utf8 = Value::new("utf-8").unwrap();
    assert_eq!(
        media_type.set_param(charset(), lower_utf8).as_deref(),
        Some("UTF-8")
    );
    assert_eq!(media_type.to_string(), "text/plain; charset=utf-8");

    let alice = Name::new("ALICE").unwrap();
    let bob = Value::new("bob").unwrap();
    assert_eq!(media_type.set_param(alice, bob), None);
    assert_eq!(
        media_type.to_string(),
        "text/plain; ALICE=bob; charset=utf-8"
    );
}

#[test]
fn remove_param() {
    assert_eq!(MediaType::new(text(), plain()).remove_param(&charset()), None);

    let mut media_type = MediaType::from_parts(text(), plain(), None, Some((charset(), utf_8())));
    assert_eq!(media_type.remove_param(&charset()).as_deref(), Some("UTF-8"));
    assert_eq!(media_type.remove_param(&charset()), None);
    assert_eq!(media_type.to_string(), "text/plain");

    let mut media_type = MediaType::parse("image/svg+xml; charset=UTF-8; HELLO=WORLD").unwrap();
    assert_eq!(
        media_type
            .remove_param(&Name::new("hello").unwrap())
            .as_deref(),
        Some("WORLD")
    );
    assert_eq!(media_type.remove_param(&Name::new("hello").unwrap()), None);
    assert_eq!(media_type.to_string(), "image/svg+xml; charset=UTF-8");
}

#[test]
fn media_type_cmp() {
    assert_eq!(
        MediaType::parse("text/plain").unwrap(),
        MediaType::parse("TEXT/PLAIN").unwrap()
    );
    assert_eq!(
        MediaType::parse("image/svg+xml; charset=UTF-8").unwrap(),
        MediaType::parse("IMAGE/SVG+XML; CHARSET=utf-8").unwrap()
    );
    assert_eq!(
        MediaType::parse("image/svg+xml; hello=world; charset=UTF-8").unwrap(),
        MediaType::parse("IMAGE/SVG+XML; CHARSET=utf-8; HELLO=WORLD").unwrap()
    );
}

#[test]
fn accessors() {
    let m = MediaType::parse("Image/SVG+xml; Charset=UTF-8").unwrap();
    assert_eq!(m.ty(), "Image");
    assert_eq!(m.subty(), "SVG");
    assert_eq!(m.suffix(), Some("xml"));
    let params = m.params();
    assert_eq!(params.len(), 1);
    assert_eq!(params[0].0.as_str(), "Charset");
    assert_eq!(params[0].1.as_str(), "UTF-8");
}

#[test]
fn round_trip_display_parse() {
    let m = MediaType::parse("Image/SVG+xml; B=2; a=1; Charset=UTF-8").unwrap();
    let again = MediaType::parse(&m.to_string()).unwrap();
    assert_eq!(m, again);
    assert_eq!(m.to_string(), again.to_string());
}

#[test]
fn parameter_order_independent() {
    assert_eq!(
        MediaType::parse("a/b; x=1; y=2").unwrap(),
        MediaType::parse("a/b; y=2; x=1").unwrap()
    );
}

#[test]
fn set_then_get_consistency() {
    let mut m = MediaType::parse("a/b; x=1; z=3").unwrap();
    let y = Name::new("Y").unwrap();
    assert_eq!(m.get_param(&y), None);
    assert_eq!(m.set_param(y, Value::new("2").unwrap()), None);
    assert_eq!(
        m.get_param(&Name::new("y").unwrap()).as_deref(),
        Some("2")
    );
    assert_eq!(m.get_param(&Name::new("x").unwrap()).as_deref(), Some("1"));
    assert_eq!(m.get_param(&Name::new("z").unwrap()).as_deref(), Some("3"));
    assert_eq!(m.to_string(), "a/b; x=1; Y=2; z=3");
}

#[test]
fn remove_absent_leaves_unchanged() {
    let mut m = MediaType::parse("a/b; x=1").unwrap();
    assert_eq!(m.remove_param(&Name::new("nope").unwrap()), None);
    assert_eq!(m.to_string(), "a/b; x=1");
}

#[test]
fn malformed_inputs() {
    assert_eq!(
        MediaType::parse("noslash").unwrap_err(),
        ParseError::MissingSlash
    );
    assert_eq!(MediaType::parse("a/").unwrap_err(), ParseError::InvalidSubtype);
    assert_eq!(MediaType::parse("/b").unwrap_err(), ParseError::InvalidType);
    assert_eq!(
        MediaType::parse("a/b;").unwrap_err(),
        ParseError::InvalidParamKey
    );
    assert_eq!(
        MediaType::parse("a/b; =v").unwrap_err(),
        ParseError::InvalidParamKey
    );
    assert_eq!(
        MediaType::parse("a/b; k=").unwrap_err(),
        ParseError::InvalidParamValue
    );
    assert_eq!(
        MediaType::parse("a/b+").unwrap_err(),
        ParseError::InvalidSuffix
    );
    assert_eq!(MediaType::parse("a/b c").unwrap_err(), ParseError::TrailingText);
    assert_eq!(
        MediaType::parse("a/b; k=\"x").unwrap_err(),
        ParseError::UnterminatedQuotedValue
    );
}

#[test]
fn suffix_splits_at_last_plus() {
    let m = MediaType::parse("a/b+c+d").unwrap();
    assert_eq!(m.subty(), "b+c");
    assert_eq!(m.suffix(), Some("d"));
}

#[test]
fn quoted_value_recorded_without_quotes() {
    let m = MediaType::parse("a/b; k=\"xyz\"").unwrap();
    assert_eq!(m.get_param(&Name::new("k").unwrap()).as_deref(), Some("xyz"));
}

#[test]
fn duplicate_keys_keep_first() {
    let m = MediaType::parse("a/b; K=1; k=2").unwrap();
    assert_eq!(m.get_param(&Name::new("k").unwrap()).as_deref(), Some("1"));
}

#[test]
fn name_rejects_invalid_tokens() {
    assert!(Name::new("").is_none());
    assert!(Name::new("a b").is_none());
    assert!(Name::new("a/b").is_none());
    assert!(Value::new("").is_none());
    assert!(Name::new("ok-token.1+x").is_some());
}

#[test]
fn ordering() {
    let a = MediaType::parse("image/png").unwrap();
    let b = MediaType::parse("IMAGE/PNG").unwrap();
    let c = MediaType::parse("text/plain").unwrap();
    assert_eq!(a.partial_cmp(&b), Some(std::cmp::Ordering::Equal));
    assert!(a < c);
    assert!(c > b);
    assert_eq!(
        MediaType::parse("a/b").unwrap().partial_cmp(&MediaType::parse("a/b+x").unwrap()),
        Some(std::cmp::Ordering::Less)
    );
    assert!(MediaType::parse("a/b; k=1").unwrap() < MediaType::parse("a/b; k=2").unwrap());
}
