use whichlicense_detection::hashing::{
    hash_license, process_all_licenses, process_all_licenses_manual,
};
use whichlicense_detection::license_tools::strip_pattern;
use whichlicense_detection::{strip_license, strip_spdx_heading, DetectionError, RawLicense};

#[test]
fn same_text_produce_same_hash() {
    let text = "This is a test";
    let hash1 = hash_license(text);
    let hash2 = hash_license(text);
    assert_eq!(hash1, hash2);
}

#[test]
fn similar_text_produce_different_hash() {
    let text1 = "This is a test";
    let text2 = "This is a tesu";
    let hash1 = hash_license(text1);
    let hash2 = hash_license(text2);
    assert_ne!(hash1, hash2);
}

#[test]
fn whitespace_is_stripped() {
    assert_eq!(strip_license("a b\tc\nd\re\r\nf  g"), "abcdefg");
    assert_eq!(strip_license(""), "");
    assert_eq!(strip_license(" \t\r\n"), "");
    assert_eq!(strip_license("nothing-to-strip"), "nothing-to-strip");
}

#[test]
fn the_preamble_between_the_markers_is_stripped() {
    assert_eq!(strip_spdx_heading("---\nkey: apache-2.0\nname: Apache\n---\nThe text"), "The text");
    assert_eq!(strip_spdx_heading("before\n---\nkey: x\n---\nafter"), "before\nafter");
    assert_eq!(strip_spdx_heading("no preamble at all"), "no preamble at all");
    // the markers alone, with nothing between them, are no preamble
    assert_eq!(strip_spdx_heading("---\n---\nThe text"), "---\n---\nThe text");
}

#[test]
fn a_corpus_is_fingerprinted_in_order() {
    let raw = vec![
        RawLicense {
            name: "a.LICENSE".to_string(),
            text: "---\nkey: a\n---\nHello, world!".to_string(),
        },
        RawLicense { name: "b.LICENSE".to_string(), text: "H e l l o ,\nworld!".to_string() },
        RawLicense { name: "c.LICENSE".to_string(), text: "Something else".to_string() },
    ];
    let list = process_all_licenses(&raw).unwrap();
    assert_eq!(list.licenses.len(), 3);
    assert_eq!(list.licenses[0].name, "a.LICENSE");
    assert_eq!(list.licenses[1].name, "b.LICENSE");
    assert_eq!(list.licenses[2].name, "c.LICENSE");
    assert_eq!(list.licenses[0].hash, hash_license("Hello,world!").unwrap());
    assert_eq!(list.licenses[1].hash, list.licenses[0].hash);
    assert_ne!(list.licenses[2].hash, list.licenses[0].hash);
    assert!(process_all_licenses(&Vec::new()).unwrap().licenses.is_empty());
}

#[test]
fn a_corpus_is_fingerprinted_with_a_hash_of_the_caller() {
    let raw = vec![
        RawLicense { name: "a".to_string(), text: "---\nk: v\n---\nHello, world!".to_string() },
        RawLicense { name: "b".to_string(), text: " x y ".to_string() },
    ];
    let list = process_all_licenses_manual(&raw, |text: String| format!("<{}>", text));
    assert_eq!(list.licenses.len(), 2);
    assert_eq!(list.licenses[0].name, "a");
    assert_eq!(list.licenses[0].hash, "<Hello,world!>");
    assert_eq!(list.licenses[1].hash, "<xy>");
}

#[test]
fn a_pattern_of_the_caller_is_stripped_or_refused() {
    assert_eq!(strip_pattern("[0-9]+", "a1b22c"), Ok("abc".to_string()));
    assert_eq!(strip_pattern("x", "abc"), Ok("abc".to_string()));
    assert_eq!(strip_pattern("(unclosed", "abc"), Err(DetectionError::MalformedInput));
}
