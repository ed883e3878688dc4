// Encoding tests: rendering Set-Cookie values, attributes included.

use cookie::cookie::Cookie;
use cookie::json::JsonValue;
use cookie::response::{Extensions, HeaderCollection, Response, SetCookie, Tm};

// Set a cookie and return its rendered header value.
fn get_cookie(headers: HeaderCollection, secret: Option<String>, key: &str, value: &str) -> String {
    let mut res = Response::new();
    let signer = Cookie::new(secret);
    res.set_cookie(&signer, (key.to_string(), value.to_string()), headers);
    res.headers.get("Set-Cookie").unwrap().clone()
}

// The same, signing with the legacy digest.
fn get_cookie_legacy(
    headers: HeaderCollection,
    secret: Option<String>,
    key: &str,
    value: &str,
) -> String {
    let mut res = Response::new();
    let signer = Cookie::new_legacy(secret);
    res.set_cookie(&signer, (key.to_string(), value.to_string()), headers);
    res.headers.get("Set-Cookie").unwrap().clone()
}

// Set a JSON cookie and return its rendered header value.
fn get_json_cookie(
    headers: HeaderCollection,
    secret: Option<String>,
    key: &str,
    value: JsonValue,
) -> String {
    let mut res = Response::new();
    let signer = Cookie::new(secret);
    res.set_json_cookie(&signer, (key.to_string(), value), headers);
    res.headers.get("Set-Cookie").unwrap().clone()
}

#[test]
fn check_stringify_json() {
    let json = JsonValue::Obj(vec![("foo".to_string(), JsonValue::Str("bar".to_string()))]);
    assert_eq!("{\"foo\":\"bar\"}".to_string(), cookie::json::stringify_json(&json));
}

#[test]
fn response_check_cookie() {
    let headers = HeaderCollection::empty();
    assert_eq!(get_cookie(headers, None, "thing", "thing"), "thing=thing".to_string());
}

#[test]
fn response_check_escaping() {
    let headers = HeaderCollection::empty();
    assert_eq!(
        get_cookie(
            headers,
            None,
            "~`!@#$%^&*()_+-={}|[]\\:\";'<>?,./'",
            "~`!@#$%^&*()_+-={}|[]\\:\";'<>?,./'"
        ),
        // Url component encoding should escape these characters
        "~%60%21%40%23%24%25%5E%26%2A%28%29_%2B-%3D%7B%7D%7C%5B%5D%5C%3A%22%3B%27%3C%3E%3F%2C.%2F%27=\
         ~%60%21%40%23%24%25%5E%26%2A%28%29_%2B-%3D%7B%7D%7C%5B%5D%5C%3A%22%3B%27%3C%3E%3F%2C.%2F%27"
            .to_string()
    );
}

#[test]
fn response_check_headers() {
    // Mock the cookie headers
    let mut exts = Extensions::new();
    exts.insert("foo".to_string(), Some("bar".to_string()));
    exts.insert("@zzmp".to_string(), None);
    let headers = HeaderCollection {
        expires: None,
        max_age: Some(42),
        domain: Some("example.com".to_string()),
        path: Some("/a/path".to_string()),
        secure: true,
        http_only: true,
        extensions: Some(exts),
    };
    assert_eq!(
        get_cookie(headers, None, "thing", "thing"),
        "thing=thing; Max-Age=42; Domain=example.com; Path=/a/path; Secure; Http-Only; @zzmp; foo=bar"
            .to_string()
    );
}

#[test]
fn response_check_signature() {
    let headers = HeaderCollection::empty();
    assert_eq!(
        get_cookie_legacy(headers, Some("@zzmp".to_string()), "thing", "thung"),
        // Hash of @zzmpthung, the SHA-256 signature of the signed cookie
        "thing=s:thung.2bc9a8b82a4a393ab67b2b8aaff0e3ab33cb4aca05ef4a0ba201141fbb029f42"
            .to_string()
    );
}

#[test]
fn response_check_json() {
    let headers = HeaderCollection::empty();
    let json = JsonValue::Obj(vec![("foo".to_string(), JsonValue::Str("bar".to_string()))]);
    assert_eq!(
        get_json_cookie(headers, None, "thing", json),
        // Url component encoded JSON: {"foo":"bar"}
        "thing=j%3A%7B%22foo%22%3A%22bar%22%7D".to_string()
    );
}

#[test]
fn response_test_check_cookie() {
    let headers = HeaderCollection::empty();
    assert_eq!(get_cookie(headers, None, "thing", "thing"), "thing=thing".to_string());
}

#[test]
fn response_test_check_escaping() {
    let headers = HeaderCollection::empty();
    assert_eq!(
        get_cookie(
            headers,
            None,
            "~`!@#$%^&*()_+-={}|[]\\:\";'<>?,./'",
            "~`!@#$%^&*()_+-={}|[]\\:\";'<>?,./'"
        ),
        // Url component encoding
        "~%60%21%40%23%24%25%5E%26%2A%28%29_%2B-%3D%7B%7D%7C%5B%5D%5C%3A%22%3B%27%3C%3E%3F%2C.%2F%27=\
         ~%60%21%40%23%24%25%5E%26%2A%28%29_%2B-%3D%7B%7D%7C%5B%5D%5C%3A%22%3B%27%3C%3E%3F%2C.%2F%27"
            .to_string()
    );
}

#[test]
fn test_check_headers() {
    let mut exts = Extensions::new();
    exts.insert("foo".to_string(), Some("bar".to_string()));
    exts.insert("@zzmp".to_string(), None);
    let headers = HeaderCollection {
        expires: None,
        max_age: Some(42),
        domain: Some("example.com".to_string()),
        path: Some("/a/path".to_string()),
        secure: true,
        http_only: true,
        extensions: Some(exts),
    };
    assert_eq!(
        get_cookie(headers, None, "thing", "thing"),
        "thing=thing; Max-Age=42; Domain=example.com; Path=/a/path; Secure; Http-Only; @zzmp; foo=bar"
            .to_string()
    );
}

#[test]
fn response_test_check_signature() {
    let headers = HeaderCollection::empty();
    assert_eq!(
        get_cookie_legacy(headers, Some("@zzmp".to_string()), "thing", "thung"),
        // Hash of @zzmpthung
        "thing=s:thung.2bc9a8b82a4a393ab67b2b8aaff0e3ab33cb4aca05ef4a0ba201141fbb029f42"
            .to_string()
    );
}

#[test]
fn response_test_check_json() {
    let headers = HeaderCollection::empty();
    // a JSON string value whose text is itself a JSON document; its
    // quotes are escaped in the serialization
    let json = JsonValue::Str("{\"foo\":\"bar\"}".to_string());
    assert_eq!(
        get_json_cookie(headers, None, "thing", json),
        // Url component encoded "{\"foo\":\"bar\"}" with JSON escapes
        "thing=j%3A%22%7B%5C%22foo%5C%22%3A%5C%22bar%5C%22%7D%22".to_string()
    );
}

#[test]
fn hmac_signature_is_rendered() {
    let headers = HeaderCollection::empty();
    assert_eq!(
        get_cookie(headers, Some("@zzmp".to_string()), "thing", "thung"),
        // HMAC-SHA256 of message "thung" under key "@zzmp"
        "thing=s:thung.e99abddcf60cad18f8d4b993efae53e81410cf2b2855af0309f1ae46fa527fbb"
            .to_string()
    );
}

#[test]
fn sign_matches_rendered_signature() {
    let signer = Cookie::new(Some("@zzmp".to_string()));
    assert_eq!(
        signer.sign(&"thung".to_string()).unwrap(),
        "e99abddcf60cad18f8d4b993efae53e81410cf2b2855af0309f1ae46fa527fbb".to_string()
    );
    let legacy = Cookie::new_legacy(Some("@zzmp".to_string()));
    assert_eq!(
        legacy.sign(&"thung".to_string()).unwrap(),
        "2bc9a8b82a4a393ab67b2b8aaff0e3ab33cb4aca05ef4a0ba201141fbb029f42".to_string()
    );
    let unsigned = Cookie::new(None);
    assert!(unsigned.sign(&"thung".to_string()).is_none());
}

#[test]
fn aged_renders_max_age() {
    assert_eq!(get_cookie(HeaderCollection::aged(42), None, "k", "v"), "k=v; Max-Age=42");
}

#[test]
fn secured_renders_flags() {
    assert_eq!(get_cookie(HeaderCollection::secured(), None, "k", "v"), "k=v; Secure; Http-Only");
}

#[test]
fn expires_renders_rfc1123_date() {
    let headers = HeaderCollection {
        expires: Some(Tm { year: 1994, month: 11, mday: 6, hour: 8, min: 49, sec: 37, wday: 0 }),
        max_age: None,
        domain: None,
        path: None,
        secure: false,
        http_only: false,
        extensions: None,
    };
    assert_eq!(
        get_cookie(headers, None, "k", "v"),
        "k=v; Expires=Sun, 06 Nov 1994 08:49:37 GMT"
    );
}

#[test]
fn second_cookie_overwrites_first() {
    let mut res = Response::new();
    let signer = Cookie::new(None);
    res.set_cookie(&signer, ("a".to_string(), "1".to_string()), HeaderCollection::empty());
    res.set_cookie(&signer, ("b".to_string(), "2".to_string()), HeaderCollection::empty());
    assert_eq!(res.headers.get("Set-Cookie").unwrap().as_str(), "b=2");
}

#[test]
fn stringify_covers_every_variant() {
    let v = JsonValue::Arr(vec![
        JsonValue::Null,
        JsonValue::Bool(true),
        JsonValue::Bool(false),
        JsonValue::Num("2.5".to_string()),
        JsonValue::Str("x".to_string()),
        JsonValue::Arr(vec![]),
        JsonValue::Obj(vec![
            ("a".to_string(), JsonValue::Num("1".to_string())),
            ("b".to_string(), JsonValue::Null),
        ]),
    ]);
    assert_eq!(
        cookie::json::stringify_json(&v),
        "[null,true,false,2.5,\"x\",[],{\"a\":1,\"b\":null}]"
    );
}

#[test]
fn to_cookie_av_renders_suffix() {
    assert_eq!(HeaderCollection::aged(7).to_cookie_av(), "; Max-Age=7".to_string());
    assert_eq!(HeaderCollection::secured().to_cookie_av(), "; Secure; Http-Only".to_string());
    assert_eq!(HeaderCollection::empty().to_cookie_av(), "".to_string());
}

#[test]
fn head_and_extension_render_one_attribute() {
    assert_eq!(cookie::response::head("Max-Age", Some("42".to_string())), "; Max-Age=42");
    assert_eq!(cookie::response::head("Max-Age", None), "");
    assert_eq!(cookie::response::extension(&"foo".to_string(), Some("bar".to_string())), "; foo=bar");
    assert_eq!(cookie::response::extension(&"@zzmp".to_string(), None), "; @zzmp");
}

#[test]
fn stringify_escapes_string_contents() {
    let v = JsonValue::Str("a\"b\\c\nd\u{1}".to_string());
    assert_eq!(cookie::json::stringify_json(&v), "\"a\\\"b\\\\c\\nd\\u0001\"");
    let keyed = JsonValue::Obj(vec![("k\"ey".to_string(), JsonValue::Null)]);
    assert_eq!(cookie::json::stringify_json(&keyed), "{\"k\\\"ey\":null}");
}
