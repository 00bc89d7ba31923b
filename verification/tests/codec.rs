use item_registry::codec::{decode_items, encode_items};
use item_registry::item::Item;

fn item(id: u32, name: &str, status: &str, stream_url: &str) -> Item {
    Item {
        id,
        name: name.to_string(),
        status: status.to_string(),
        stream_url: stream_url.to_string(),
    }
}

#[test]
fn empty_collection_encodes_to_empty_array() {
    assert_eq!(encode_items(&Vec::new()), "[]");
}

#[test]
fn one_item_encodes_to_expected_text() {
    let v = vec![item(1, "A", "up", "u1")];
    assert_eq!(
        encode_items(&v),
        "[\n  {\"id\": 1, \"name\": \"A\", \"status\": \"up\", \"stream_url\": \"u1\"}\n]"
    );
}

#[test]
fn two_items_encode_to_expected_text() {
    let v = vec![item(1, "A", "up", "u1"), item(2, "B", "down", "u2")];
    assert_eq!(
        encode_items(&v),
        "[\n  {\"id\": 1, \"name\": \"A\", \"status\": \"up\", \"stream_url\": \"u1\"},\n  {\"id\": 2, \"name\": \"B\", \"status\": \"down\", \"stream_url\": \"u2\"}\n]"
    );
}

#[test]
fn quotes_and_backslashes_are_escaped() {
    let v = vec![item(3, "a\"b", "c\\d", "u")];
    assert_eq!(
        encode_items(&v),
        "[\n  {\"id\": 3, \"name\": \"a\\\"b\", \"status\": \"c\\\\d\", \"stream_url\": \"u\"}\n]"
    );
}

#[test]
fn decode_of_empty_array_is_empty() {
    let v = decode_items("[]").unwrap();
    assert_eq!(v.len(), 0);
}

#[test]
fn decode_recovers_encoded_items() {
    let v = vec![
        item(1, "plain", "up", "rtsp://host/1"),
        item(2, "quo\"te", "ba\\ck", "u2"),
        item(4294967295, "", "", ""),
    ];
    let doc = encode_items(&v);
    let w = decode_items(&doc).unwrap();
    assert_eq!(w.len(), v.len());
    for (x, y) in v.iter().zip(w.iter()) {
        assert_eq!(x.id, y.id);
        assert_eq!(x.name, y.name);
        assert_eq!(x.status, y.status);
        assert_eq!(x.stream_url, y.stream_url);
    }
}

#[test]
fn decode_rejects_malformed_documents() {
    assert!(decode_items("").is_none());
    assert!(decode_items("[").is_none());
    assert!(decode_items("[\n]").is_none());
    assert!(decode_items("{\"id\": 1}").is_none());
    assert!(decode_items("[\n  {\"id\": , \"name\": \"A\", \"status\": \"u\", \"stream_url\": \"v\"}\n]").is_none());
    assert!(decode_items("[\n  {\"id\": 1, \"name\": \"A\", \"status\": \"u\", \"stream_url\": \"v\"}\n] ").is_none());
    assert!(decode_items("[\n  {\"id\": 1, \"name\": \"A\", \"status\": \"u\", \"stream_url\": \"v\"}\n]x").is_none());
}

#[test]
fn decode_rejects_numbers_above_u32() {
    let doc = "[\n  {\"id\": 4294967296, \"name\": \"A\", \"status\": \"u\", \"stream_url\": \"v\"}\n]";
    assert!(decode_items(doc).is_none());
    let doc = "[\n  {\"id\": 99999999999999999999, \"name\": \"A\", \"status\": \"u\", \"stream_url\": \"v\"}\n]";
    assert!(decode_items(doc).is_none());
}

#[test]
fn decode_rejects_stray_escapes() {
    let doc = "[\n  {\"id\": 1, \"name\": \"a\\nb\", \"status\": \"u\", \"stream_url\": \"v\"}\n]";
    assert!(decode_items(doc).is_none());
}

#[test]
fn encoded_document_is_well_formed_json() {
    let v = vec![
        item(1, "camera \"east\"", "up", "rtsp://host/1"),
        item(2, "base\\ment", "down", "u2"),
    ];
    let doc = encode_items(&v);
    let parsed: serde_json::Value = serde_json::from_str(&doc).unwrap();
    let arr = parsed.as_array().unwrap();
    assert_eq!(arr.len(), 2);
    assert_eq!(arr[0]["id"].as_u64(), Some(1));
    assert_eq!(arr[0]["name"].as_str(), Some("camera \"east\""));
    assert_eq!(arr[0]["status"].as_str(), Some("up"));
    assert_eq!(arr[0]["stream_url"].as_str(), Some("rtsp://host/1"));
    assert_eq!(arr[1]["id"].as_u64(), Some(2));
    assert_eq!(arr[1]["name"].as_str(), Some("base\\ment"));
}
