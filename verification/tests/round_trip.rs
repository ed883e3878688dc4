// Round-trip scenarios: what the encoder writes, the decoder reads back.

use cookie::cookie::Cookie;
use cookie::json::JsonValue;
use cookie::parser::CookieParser;
use cookie::response::{HeaderCollection, Response, SetCookie};

fn encode(secret: Option<String>, key: &str, value: &str) -> String {
    let mut res = Response::new();
    let signer = Cookie::new(secret);
    res.set_cookie(&signer, (key.to_string(), value.to_string()), HeaderCollection::empty());
    res.headers.get("Set-Cookie").unwrap().clone()
}

fn decode(secret: Option<String>, header: &str) -> Cookie {
    let parser = match secret {
        Some(s) => CookieParser::signed(s),
        None => CookieParser::new(),
    };
    parser.parse(Some(header))
}

#[test]
fn round_trip_unsigned() {
    let header = encode(None, "session", "opened at noon");
    let cookie = decode(None, header.as_str());
    assert_eq!(cookie.map.len(), 1);
    assert_eq!(cookie.map.get("session").unwrap().as_str(), "opened at noon");
}

#[test]
fn round_trip_signed() {
    let header = encode(Some("a secret".to_string()), "session", "opened at noon");
    let cookie = decode(Some("a secret".to_string()), header.as_str());
    assert_eq!(cookie.map.len(), 1);
    assert_eq!(cookie.map.get("session").unwrap().as_str(), "opened at noon");
}

#[test]
fn round_trip_reserved_characters() {
    let nasty = "$=; \r\n\t%&+/?#[]@!'()*,:";
    let header = encode(None, nasty, nasty);
    let cookie = decode(None, header.as_str());
    assert_eq!(cookie.map.len(), 1);
    assert_eq!(cookie.map.get(nasty).unwrap().as_str(), nasty);
}

#[test]
fn round_trip_signed_reserved_characters() {
    let nasty = "$=; \r\n\t%&+/?#[]@!'()*,:";
    let header = encode(Some("key".to_string()), nasty, nasty);
    let cookie = decode(Some("key".to_string()), header.as_str());
    assert_eq!(cookie.map.len(), 1);
    assert_eq!(cookie.map.get(nasty).unwrap().as_str(), nasty);
}

#[test]
fn round_trip_non_ascii() {
    let header = encode(None, "gruß", "café ☕");
    let cookie = decode(None, header.as_str());
    assert_eq!(cookie.map.get("gruß").unwrap().as_str(), "café ☕");
}

#[test]
fn signed_cookie_invisible_across_secrets() {
    let header = encode(Some("secret a".to_string()), "session", "opened");
    let cookie = decode(Some("secret b".to_string()), header.as_str());
    assert_eq!(cookie.map.len(), 0);
    let unsigned_reader = decode(None, header.as_str());
    assert_eq!(unsigned_reader.map.len(), 0);
}

#[test]
fn json_round_trip_unsigned() {
    let mut res = Response::new();
    let signer = Cookie::new(None);
    let value = JsonValue::Obj(vec![("foo".to_string(), JsonValue::Str("bar".to_string()))]);
    res.set_json_cookie(&signer, ("thing".to_string(), value), HeaderCollection::empty());
    let header = res.headers.get("Set-Cookie").unwrap().clone();

    let cookie = decode(None, header.as_str());
    let child = JsonValue::Obj(vec![("foo".to_string(), JsonValue::Str("bar".to_string()))]);
    let expected = JsonValue::Obj(vec![("thing".to_string(), child)]);
    assert_eq!(cookie.json, expected);
    assert_eq!(cookie.map.len(), 0);
}

#[test]
fn empty_key_and_value_round_trip() {
    let header = encode(None, "", "");
    assert_eq!(header, "=");
    let cookie = decode(None, header.as_str());
    assert_eq!(cookie.map.len(), 1);
    assert_eq!(cookie.map.get("").unwrap().as_str(), "");
}

#[test]
fn json_string_with_quotes_round_trips() {
    let mut res = Response::new();
    let signer = Cookie::new(None);
    let value = JsonValue::Str("say \"hi\" \\ bye".to_string());
    res.set_json_cookie(&signer, ("q".to_string(), value), HeaderCollection::empty());
    let header = res.headers.get("Set-Cookie").unwrap().clone();

    let cookie = decode(None, header.as_str());
    let expected = JsonValue::Obj(vec![(
        "q".to_string(),
        JsonValue::Str("say \"hi\" \\ bye".to_string()),
    )]);
    assert_eq!(cookie.json, expected);
}
