use licenser::codec::decode_licenses;
use licenser::codec::encode_licenses;
use licenser::license::License;

fn mk(key: &str, name: &str, url: &str, description: &str, implementation: &str, body: &str) -> License {
    License {
        key: String::from(key),
        name: String::from(name),
        url: String::from(url),
        description: String::from(description),
        implementation: String::from(implementation),
        body: String::from(body),
    }
}

fn assert_same(a: &[License], b: &[License]) {
    assert_eq!(a.len(), b.len());
    for (x, y) in a.iter().zip(b.iter()) {
        assert_eq!(x.key, y.key);
        assert_eq!(x.name, y.name);
        assert_eq!(x.url, y.url);
        assert_eq!(x.description, y.description);
        assert_eq!(x.implementation, y.implementation);
        assert_eq!(x.body, y.body);
    }
}

#[test]
fn encode_one_record_exact_text() {
    let ls = vec![mk("mit", "MIT License", "u", "d", "i", "MIT text...")];
    let s = encode_licenses(&ls);
    assert_eq!(
        s,
        "[{\"key\":\"mit\",\"name\":\"MIT License\",\"url\":\"u\",\
         \"description\":\"d\",\"implementation\":\"i\",\"body\":\"MIT text...\"}]"
    );
}

#[test]
fn encode_empty_catalog_is_empty_array() {
    assert_eq!(encode_licenses(&Vec::new()), "[]");
}

#[test]
fn encode_escapes_quotes_backslashes_and_newlines() {
    let ls = vec![mk("k", "a \"quoted\" name", "u", "back\\slash", "tab\there", "line1\nline2\r")];
    let s = encode_licenses(&ls);
    assert_eq!(
        s,
        "[{\"key\":\"k\",\"name\":\"a \\\"quoted\\\" name\",\"url\":\"u\",\
         \"description\":\"back\\\\slash\",\"implementation\":\"tab\\there\",\
         \"body\":\"line1\\nline2\\r\"}]"
    );
}

#[test]
fn round_trip_empty_catalog() {
    let out = decode_licenses(&encode_licenses(&Vec::new())).unwrap();
    assert!(out.is_empty());
}

#[test]
fn round_trip_returns_an_equal_list() {
    let ls = vec![
        mk("mit", "MIT License", "https://api.github.com/licenses/mit", "short", "copy it", "MIT text..."),
        mk("gpl-3.0", "GPL v3", "https://api.github.com/licenses/gpl-3.0", "copyleft", "", "GPL\nbody"),
    ];
    let out = decode_licenses(&encode_licenses(&ls)).unwrap();
    assert_same(&ls, &out);
}

#[test]
fn round_trip_keeps_every_special_character() {
    let ls = vec![mk(
        "k\"ey",
        "na\\me",
        "u\nrl",
        "de\tsc",
        "im\rpl",
        "body with \"all\" of \\ \n \r \t them",
    )];
    let out = decode_licenses(&encode_licenses(&ls)).unwrap();
    assert_same(&ls, &out);
}

#[test]
fn round_trip_keeps_non_ascii_text() {
    let ls = vec![mk("k", "Ä-Lizenz", "u", "résumé", "", "köper — ✓")];
    let out = decode_licenses(&encode_licenses(&ls)).unwrap();
    assert_same(&ls, &out);
}

#[test]
fn decode_rejects_empty_input() {
    assert!(decode_licenses("").is_err());
}

#[test]
fn decode_rejects_text_that_is_no_array() {
    assert!(decode_licenses("not a catalog").is_err());
    assert!(decode_licenses("{}").is_err());
    assert!(decode_licenses("[").is_err());
}

#[test]
fn decode_rejects_truncated_record() {
    assert!(decode_licenses("[{\"key\":\"mit\"").is_err());
    assert!(decode_licenses("[{\"key\":\"mit\",\"name\":\"m\"}]").is_err());
}

#[test]
fn decode_rejects_trailing_text() {
    let s = encode_licenses(&vec![mk("k", "n", "u", "d", "i", "b")]);
    let mut with_junk = s.clone();
    with_junk.push_str(" ");
    assert!(decode_licenses(&with_junk).is_err());
}

#[test]
fn decode_rejects_unknown_escape() {
    assert!(decode_licenses(
        "[{\"key\":\"\\q\",\"name\":\"\",\"url\":\"\",\"description\":\"\",\
         \"implementation\":\"\",\"body\":\"\"}]"
    )
    .is_err());
}

#[test]
fn decode_cache_text_then_lookup_and_show() {
    let cache_text = "[{\"key\":\"mit\",\"name\":\"MIT License\",\
                      \"url\":\"https://api.github.com/licenses/mit\",\
                      \"description\":\"\",\"implementation\":\"\",\
                      \"body\":\"MIT text...\"}]";
    let licenses = decode_licenses(cache_text).unwrap();
    let repo = licenser::repo::Licenser::from_licenses(licenses);
    let found = repo.get_license("mit").unwrap();
    assert_eq!(found.render_show(true), "MIT text...\n");
}

#[test]
fn initialized_cache_deserializes_to_all_complete_records() {
    let full = vec![
        mk("mit", "MIT License", "https://api.github.com/licenses/mit", "d1", "i1", "MIT text..."),
        mk("gpl-3.0", "GPL v3", "https://api.github.com/licenses/gpl-3.0", "d2", "i2", "GPL text"),
        mk("apache-2.0", "Apache 2.0", "https://api.github.com/licenses/apache-2.0", "d3", "i3", "Apache text"),
    ];
    let cache_text = encode_licenses(&full);
    let reloaded = decode_licenses(&cache_text).unwrap();
    assert_eq!(reloaded.len(), 3);
    for l in &reloaded {
        assert!(!l.body.is_empty());
    }
    assert_same(&full, &reloaded);
}
