// Decoding tests: the Cookie header parser under both trust modes.

use cookie::cookie::Cookie;
use cookie::json::JsonValue;
use cookie::parser::CookieParser;
use cookie::response::{HeaderCollection, Response, SetCookie};

// Parse a given header string with an optional secret (HMAC mode) and
// return the resulting cookie record.
fn get_cookie(secret: Option<String>, header: &str) -> Cookie {
    let parser = match secret {
        Some(s) => CookieParser::signed(s),
        None => CookieParser::new(),
    };
    parser.parse(Some(header))
}

// The same, verifying with the legacy digest.
fn get_cookie_legacy(secret: String, header: &str) -> Cookie {
    CookieParser::signed_legacy(secret).parse(Some(header))
}

#[test]
fn parser_check_cookie() {
    let cookie = get_cookie(None, "thing=thing");
    assert_eq!(cookie.map.len(), 1);
    assert_eq!(cookie.map.get("thing").unwrap().as_str(), "thing");
}

#[test]
fn parser_check_escaping() {
    // Url component decoding should decode the escaped characters
    let cookie = get_cookie(
        None,
        "~%60%21%40%23%24%25%5E%26%2A%28%29_%2B-%3D%7B%7D%7C%5B%5D%5C%3A%22%3B%27%3C%3E%3F%2C.%2F%27=\
         ~%60%21%40%23%24%25%5E%26%2A%28%29_%2B-%3D%7B%7D%7C%5B%5D%5C%3A%22%3B%27%3C%3E%3F%2C.%2F%27",
    );
    assert_eq!(cookie.map.len(), 1);
    assert_eq!(
        cookie.map.get("~`!@#$%^&*()_+-={}|[]\\:\";'<>?,./'").unwrap().as_str(),
        "~`!@#$%^&*()_+-={}|[]\\:\";'<>?,./'"
    );
}

#[test]
fn parser_check_signature() {
    // The signature should be the HMAC-SHA256 hash of key "@zzmp" and message "thung"
    let cookie = get_cookie(
        Some("@zzmp".to_string()),
        "thing=s:thung.e99abddcf60cad18f8d4b993efae53e81410cf2b2855af0309f1ae46fa527fbb",
    );
    assert_eq!(cookie.map.len(), 1);
    assert_eq!(cookie.map.get("thing").unwrap().as_str(), "thung");
}

#[test]
fn check_silo() {
    // The unsigned cookie should not be parsed by the signed cookie parser
    let cookie = get_cookie(Some("@zzmp".to_string()), "thing=thung");
    assert_eq!(cookie.map.len(), 0);
}

#[test]
fn parser_check_json() {
    // Parse the Url component JSON: {"thing":{"foo":"bar"}}
    let cookie = get_cookie(None, "thing=j%3A%7B%22foo%22%3A%22bar%22%7D");
    let child = JsonValue::Obj(vec![("foo".to_string(), JsonValue::Str("bar".to_string()))]);
    let root = JsonValue::Obj(vec![("thing".to_string(), child)]);
    assert_eq!(cookie.json, root);
    assert_eq!(cookie.map.len(), 0);
}

#[test]
fn test_check_cookie() {
    let cookie = get_cookie(None, "thing=thing");
    assert_eq!(cookie.map.len(), 1);
    assert_eq!(cookie.map.get("thing").unwrap().as_str(), "thing");
}

#[test]
fn test_check_escaping() {
    // Url component decoding should decode the escaped characters
    let cookie = get_cookie(
        None,
        "~%60%21%40%23%24%25%5E%26%2A%28%29_%2B-%3D%7B%7D%7C%5B%5D%5C%3A%22%3B%27%3C%3E%3F%2C.%2F%27=\
         ~%60%21%40%23%24%25%5E%26%2A%28%29_%2B-%3D%7B%7D%7C%5B%5D%5C%3A%22%3B%27%3C%3E%3F%2C.%2F%27",
    );
    assert_eq!(cookie.map.len(), 1);
    assert_eq!(
        cookie.map.get("~`!@#$%^&*()_+-={}|[]\\:\";'<>?,./'").unwrap().as_str(),
        "~`!@#$%^&*()_+-={}|[]\\:\";'<>?,./'"
    );
}

#[test]
fn test_check_signature() {
    // The signature should be a SHA-256 hash of @zzmpthung
    let cookie = get_cookie_legacy(
        "@zzmp".to_string(),
        "thing=s:thung.2bc9a8b82a4a393ab67b2b8aaff0e3ab33cb4aca05ef4a0ba201141fbb029f42",
    );
    assert_eq!(cookie.map.len(), 1);
    assert_eq!(cookie.map.get("thing").unwrap().as_str(), "thung");
}

#[test]
fn test_check_json() {
    // Parse the Url component JSON: {"thing":{"foo":"bar"}}
    let cookie = get_cookie(None, "thing=j%3A%7B%22foo%22%3A%22bar%22%7D");
    let child = JsonValue::Obj(vec![("foo".to_string(), JsonValue::Str("bar".to_string()))]);
    let root = JsonValue::Obj(vec![("thing".to_string(), child)]);
    assert_eq!(cookie.json, root);
}

#[test]
fn absent_header_is_empty() {
    let cookie = CookieParser::new().parse(None);
    assert_eq!(cookie.map.len(), 0);
    assert_eq!(cookie.json, JsonValue::Obj(vec![]));
    assert!(!cookie.signed);
}

#[test]
fn missing_equals_is_key_with_empty_value() {
    let cookie = get_cookie(None, "justakey");
    assert_eq!(cookie.map.len(), 1);
    assert_eq!(cookie.map.get("justakey").unwrap().as_str(), "");
}

#[test]
fn leading_whitespace_is_trimmed() {
    let cookie = get_cookie(None, "a=1; b=2;\tc=3");
    assert_eq!(cookie.map.len(), 3);
    assert_eq!(cookie.map.get("a").unwrap().as_str(), "1");
    assert_eq!(cookie.map.get("b").unwrap().as_str(), "2");
    assert_eq!(cookie.map.get("c").unwrap().as_str(), "3");
}

#[test]
fn later_entry_wins() {
    let cookie = get_cookie(None, "a=1; a=2");
    assert_eq!(cookie.map.len(), 1);
    assert_eq!(cookie.map.get("a").unwrap().as_str(), "2");
}

#[test]
fn forged_signature_is_dropped() {
    // same shape, wrong digest: one hex digit of the real signature flipped
    let cookie = get_cookie(
        Some("@zzmp".to_string()),
        "thing=s:thung.f99abddcf60cad18f8d4b993efae53e81410cf2b2855af0309f1ae46fa527fbb",
    );
    assert_eq!(cookie.map.len(), 0);
}

#[test]
fn cross_secret_cookie_is_dropped() {
    // signed under "@zzmp", read under another secret
    let cookie = get_cookie(
        Some("other".to_string()),
        "thing=s:thung.e99abddcf60cad18f8d4b993efae53e81410cf2b2855af0309f1ae46fa527fbb",
    );
    assert_eq!(cookie.map.len(), 0);
}

#[test]
fn unsigned_reader_drops_signed_shape() {
    let cookie = get_cookie(
        None,
        "thing=s:thung.e99abddcf60cad18f8d4b993efae53e81410cf2b2855af0309f1ae46fa527fbb",
    );
    assert_eq!(cookie.map.len(), 0);
}

#[test]
fn signed_value_without_dot_is_dropped() {
    let cookie = get_cookie(Some("@zzmp".to_string()), "thing=s:thung");
    assert_eq!(cookie.map.len(), 0);
}

#[test]
fn malformed_percent_escape_stays_literal() {
    let cookie = get_cookie(None, "a=%zz%1");
    assert_eq!(cookie.map.get("a").unwrap().as_str(), "%zz%1");
}

#[test]
fn invalid_utf8_value_becomes_empty() {
    // %FF alone is not valid UTF-8
    let cookie = get_cookie(None, "a=%FF");
    assert_eq!(cookie.map.get("a").unwrap().as_str(), "");
}

#[test]
fn invalid_json_payload_becomes_null() {
    let cookie = get_cookie(None, "thing=j%3A%7Bnot-json");
    let root = JsonValue::Obj(vec![("thing".to_string(), JsonValue::Null)]);
    assert_eq!(cookie.json, root);
    assert_eq!(cookie.map.len(), 0);
}

#[test]
fn json_numbers_keep_their_literal_text() {
    let cookie = get_cookie(None, "n=j%3A%5B1%2C2.5%2Cnull%2Ctrue%5D");
    let arr = JsonValue::Arr(vec![
        JsonValue::Num("1".to_string()),
        JsonValue::Num("2.5".to_string()),
        JsonValue::Null,
        JsonValue::Bool(true),
    ]);
    let root = JsonValue::Obj(vec![("n".to_string(), arr)]);
    assert_eq!(cookie.json, root);
}

#[test]
fn signed_json_round_trip_header() {
    // a JSON payload signed over the whole tagged value, as the encoder
    // writes it: the signature wraps the tagged, serialized document
    let signer = Cookie::new(Some("@zzmp".to_string()));
    let mut res = Response::new();
    let value = JsonValue::Obj(vec![("foo".to_string(), JsonValue::Str("bar".to_string()))]);
    res.set_json_cookie(&signer, ("thing".to_string(), value), HeaderCollection::empty());
    let header = res.headers.get("Set-Cookie").unwrap().clone();

    let cookie = get_cookie(Some("@zzmp".to_string()), header.as_str());
    let child = JsonValue::Obj(vec![("foo".to_string(), JsonValue::Str("bar".to_string()))]);
    let root = JsonValue::Obj(vec![("thing".to_string(), child)]);
    assert_eq!(cookie.json, root);
    assert_eq!(cookie.map.len(), 0);
}

#[test]
fn empty_header_gives_one_empty_pair() {
    let cookie = get_cookie(None, "");
    assert_eq!(cookie.map.len(), 1);
    assert_eq!(cookie.map.get("").unwrap().as_str(), "");
}

#[test]
fn from_rfc_compliant_trims_and_decodes() {
    assert_eq!(cookie::parser::from_rfc_compliant("  %41%20b"), "A b".to_string());
    assert_eq!(cookie::parser::from_rfc_compliant("\tplain"), "plain".to_string());
}

#[test]
fn is_whitespace_matches_cookie_whitespace() {
    assert!(cookie::parser::is_whitespace(&' '));
    assert!(cookie::parser::is_whitespace(&'\r'));
    assert!(cookie::parser::is_whitespace(&'\t'));
    assert!(cookie::parser::is_whitespace(&'\n'));
    assert!(!cookie::parser::is_whitespace(&'a'));
}

#[test]
fn json_entry_leaves_the_plain_map() {
    // the same name filed first as a scalar, then as JSON: the JSON stage
    // removes it from the plain map, so a name is never in both
    let cookie = get_cookie(None, "a=1; a=j%3A2");
    assert_eq!(cookie.map.len(), 0);
    assert_eq!(cookie.json, JsonValue::Obj(vec![("a".to_string(), JsonValue::Num("2".to_string()))]));

    // and the other way round: a later scalar entry evicts the JSON one
    let cookie = get_cookie(None, "a=j%3A2; a=1");
    assert_eq!(cookie.map.len(), 1);
    assert_eq!(cookie.map.get("a").unwrap().as_str(), "1");
    assert_eq!(cookie.json, JsonValue::Obj(vec![]));
}

#[test]
fn parsed_json_objects_come_back_sorted() {
    // serde_json's map is ordered: entries arrive sorted by key however
    // the document wrote them
    let cookie = get_cookie(None, "thing=j%3A%7B%22b%22%3A1%2C%22a%22%3A2%7D");
    let child = JsonValue::Obj(vec![
        ("a".to_string(), JsonValue::Num("2".to_string())),
        ("b".to_string(), JsonValue::Num("1".to_string())),
    ]);
    assert_eq!(cookie.json, JsonValue::Obj(vec![("thing".to_string(), child)]));
}

#[test]
fn parsed_record_reserializes() {
    // a parsed record's JSON object is well formed, so it can be
    // serialized again byte-reproducibly
    let cookie = get_cookie(None, "thing=j%3A%7B%22foo%22%3A%22bar%22%7D");
    assert_eq!(cookie::json::stringify_json(&cookie.json), "{\"thing\":{\"foo\":\"bar\"}}");
}
