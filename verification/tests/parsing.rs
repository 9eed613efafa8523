use tethys::manifest::{parse_manifest, strip_bom, version_file_url};
use tethys::version::{extract_version, parse_i32, parse_i32_or_default, u32_to_string,
    version_to_int};

const MANIFEST: &str = "<Document><ChannelingList><Local>\
<Version addr=\"http://patch.example.test/dir/\" />\
<Login addr=\"10.0.0.2\" port=\"100\" />\
<Login addr=\"10.0.0.1\" port=\"200\" />\
<Login addr=\"10.0.0.2\" port=\"100\" />\
</Local></ChannelingList></Document>";

#[test]
fn manifest_yields_first_locale_logins_in_order_deduplicated() {
    let m = parse_manifest(MANIFEST).expect("manifest should parse");
    assert_eq!(m.addresses, vec!["10.0.0.2:100".to_string(), "10.0.0.1:200".to_string()]);
    assert_eq!(m.version_source, "http://patch.example.test/dir/");
}

#[test]
fn manifest_takes_first_locale_only() {
    let doc = "<ChannelList><Local>\
<Version addr=\"http://one.test/\" /><Login addr=\"a\" port=\"1\" />\
</Local><Local>\
<Version addr=\"http://two.test/\" /><Login addr=\"b\" port=\"2\" />\
</Local></ChannelList>";
    let m = parse_manifest(doc).expect("manifest should parse");
    assert_eq!(m.addresses, vec!["a:1".to_string()]);
    assert_eq!(m.version_source, "http://one.test/");
}

#[test]
fn manifest_without_locale_region_is_rejected() {
    assert!(parse_manifest("<Document></Document>").is_none());
    assert!(parse_manifest("<Document><Local><Login addr=\"a\" port=\"1\" />").is_none());
}

#[test]
fn manifest_with_malformed_login_is_rejected() {
    let doc = "<Local><Version addr=\"http://v.test/\" />\
<Login port-only=\"nope\"></Login></Local>";
    // The login tag has no addr attribute before its closing bracket.
    assert!(parse_manifest(doc).is_none());
}

#[test]
fn version_file_url_forces_https_and_appends_resource() {
    assert_eq!(
        version_file_url("http://patch.example.test/dir/"),
        "https://patch.example.test/dir/PatchInfoServer.cfg"
    );
    assert_eq!(version_file_url("https://a.test/"), "https://a.test/PatchInfoServer.cfg");
}

#[test]
fn strip_bom_removes_leading_mark_only() {
    assert_eq!(strip_bom("\u{feff}hello"), "hello");
    assert_eq!(strip_bom("hello"), "hello");
    assert_eq!(strip_bom("he\u{feff}llo"), "he\u{feff}llo");
    assert_eq!(strip_bom(""), "");
}

#[test]
fn extract_version_finds_first_case_insensitive_token() {
    assert_eq!(extract_version("Version 42"), Some(42));
    assert_eq!(extract_version("noise VERSION\t7 more"), Some(7));
    assert_eq!(extract_version("version then, later version 9"), Some(9));
    assert_eq!(extract_version("Version 42 and Version 43"), Some(42));
}

#[test]
fn extract_version_absent_or_unparsable() {
    assert_eq!(extract_version("no token here"), None);
    assert_eq!(extract_version("version"), None);
    assert_eq!(extract_version("version x"), None);
    // A run of digits too large for the target type reads as zero.
    assert_eq!(extract_version("version 99999999999999999999"), Some(0));
}

#[test]
fn version_to_int_collects_digits() {
    assert_eq!(version_to_int("v1.2.3"), 123);
    assert_eq!(version_to_int("42"), 42);
    assert_eq!(version_to_int("no digits"), 0);
    assert_eq!(version_to_int(""), 0);
    assert_eq!(version_to_int("99999999999999999999999"), 0);
}

#[test]
fn parse_i32_is_strict() {
    assert_eq!(parse_i32("41"), Some(41));
    assert_eq!(parse_i32("-5"), Some(-5));
    assert_eq!(parse_i32("+7"), Some(7));
    assert_eq!(parse_i32(""), None);
    assert_eq!(parse_i32("4x"), None);
    assert_eq!(parse_i32(" 4"), None);
    assert_eq!(parse_i32("2147483647"), Some(i32::MAX));
    assert_eq!(parse_i32("2147483648"), None);
    assert_eq!(parse_i32("-2147483648"), Some(i32::MIN));
    assert_eq!(parse_i32_or_default("oops"), 0);
}

#[test]
fn u32_to_string_renders_decimal() {
    assert_eq!(u32_to_string(0), "0");
    assert_eq!(u32_to_string(42), "42");
    assert_eq!(u32_to_string(4294967295), "4294967295");
}
