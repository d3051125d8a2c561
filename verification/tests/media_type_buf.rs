use mediatype::media_type::MediaType;
use mediatype::media_type_buf::MediaTypeBuf;
use mediatype::parse::ParseError;
use mediatype::token::Name;

fn charset() -> Name {
    Name::new("charset").unwrap()
}

#[test]
fn media_type_buf_get_param() {
    assert_eq!(
        MediaTypeBuf::from_str("image/svg+xml")
            .unwrap()
            .get_param(&charset()),
        None
    );
    assert_eq!(
        MediaTypeBuf::from_str("image/svg+xml; charset=UTF-8")
            .unwrap()
            .get_param(&charset())
            .as_deref(),
        Some("UTF-8")
    );
    assert_eq!(
        MediaTypeBuf::from_str("image/svg+xml; charset=UTF-8; HELLO=WORLD")
            .unwrap()
            .get_param(&Name::new("hello").unwrap())
            .as_deref(),
        Some("WORLD")
    );
}

#[test]
fn essence() {
    assert_eq!(
        MediaTypeBuf::from_str("image/svg+xml").unwrap().essence(),
        "image/svg+xml"
    );
    assert_eq!(
        MediaTypeBuf::from_str("image/svg+xml;  ")
            .unwrap()
            .essence(),
        "image/svg+xml"
    );
    assert_eq!(
        MediaTypeBuf::from_str("image/svg+xml; charset=UTF-8")
            .unwrap()
            .essence(),
        "image/svg+xml"
    );
}

#[test]
fn canonicalize() {
    assert_eq!(
        MediaTypeBuf::from_str("IMAGE/SVG+XML;         CHARSET=UTF-8;     ")
            .unwrap()
            .canonicalize()
            .to_string(),
        "image/svg+xml; charset=UTF-8"
    );
}

#[test]
fn media_type_buf_cmp() {
    assert_eq!(
        MediaTypeBuf::from_str("text/plain").unwrap(),
        MediaTypeBuf::from_str("TEXT/PLAIN").unwrap()
    );
    assert_eq!(
        MediaTypeBuf::from_str("image/svg+xml; charset=UTF-8").unwrap(),
        MediaTypeBuf::from_str("IMAGE/SVG+XML; CHARSET=utf-8").unwrap()
    );
    assert_eq!(
        MediaTypeBuf::from_str("image/svg+xml; hello=world; charset=UTF-8").unwrap(),
        MediaTypeBuf::from_str("IMAGE/SVG+XML; CHARSET=utf-8; HELLO=WORLD").unwrap()
    );
}

#[test]
fn from_string_owned() {
    let b = MediaTypeBuf::from_string(String::from("Text/Plain; Charset=UTF-8  ")).unwrap();
    assert_eq!(b.ty(), "Text");
    assert_eq!(b.subty(), "Plain");
    assert_eq!(b.suffix(), None);
    assert_eq!(b.get_param(&charset()).as_deref(), Some("UTF-8"));
}

#[test]
fn canonicalize_is_idempotent() {
    let b = MediaTypeBuf::from_str("IMAGE/SVG+XML; CHARSET=UTF-8; Hello=World").unwrap();
    let once = b.canonicalize();
    let twice = once.canonicalize();
    assert_eq!(once.to_string(), twice.to_string());
    assert_eq!(once, twice);
}

#[test]
fn canonicalize_keeps_value_casing() {
    let b = MediaTypeBuf::from_str("A/B; KEY=MixedCase").unwrap();
    assert_eq!(b.canonicalize().to_string(), "a/b; key=MixedCase");
}

#[test]
fn buf_params_sorted() {
    let b = MediaTypeBuf::from_str("a/b; z=3; A=1; m=2").unwrap();
    let params = b.params();
    assert_eq!(params.len(), 3);
    assert_eq!(params[0].0.as_str(), "A");
    assert_eq!(params[1].0.as_str(), "m");
    assert_eq!(params[2].0.as_str(), "z");
}

#[test]
fn buf_rejects_what_parse_rejects() {
    assert_eq!(
        MediaTypeBuf::from_str("a/b;").unwrap_err(),
        ParseError::InvalidParamKey
    );
    assert_eq!(
        MediaTypeBuf::from_string(String::from("noslash")).unwrap_err(),
        ParseError::MissingSlash
    );
}

#[test]
fn buf_matches_borrowed_parse() {
    let s = "Image/SVG+xml; B=2; a=1";
    let b = MediaTypeBuf::from_str(s).unwrap();
    let m = MediaType::parse(s).unwrap();
    assert_eq!(b.to_string(), m.to_string());
    let bp = b.params();
    let mp = m.params();
    assert_eq!(bp.len(), mp.len());
    for i in 0..bp.len() {
        assert_eq!(bp[i].0.as_str(), mp[i].0.as_str());
        assert_eq!(bp[i].1.as_str(), mp[i].1.as_str());
    }
}

#[test]
fn buf_round_trip() {
    let b = MediaTypeBuf::from_str("Text/Plain; Charset=UTF-8").unwrap();
    let again = MediaTypeBuf::from_string(b.to_string()).unwrap();
    assert_eq!(b, again);
}

#[test]
fn buf_from_media_type() {
    let m = MediaType::parse("Image/SVG+xml; Charset=UTF-8").unwrap();
    let b = MediaTypeBuf::from_media_type(&m);
    assert_eq!(b.as_str(), "Image/SVG+xml; Charset=UTF-8");
    assert_eq!(b.to_string(), m.to_string());
}

#[test]
fn buf_ordering() {
    let a = MediaTypeBuf::from_str("image/png").unwrap();
    let b = MediaTypeBuf::from_str("IMAGE/PNG").unwrap();
    let c = MediaTypeBuf::from_str("text/plain").unwrap();
    assert_eq!(a.partial_cmp(&b), Some(std::cmp::Ordering::Equal));
    assert!(a < c);
    assert!(c > b);
}
