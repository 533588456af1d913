use bson_repair::document::{copy_elements, copy_value, encode_elements, encode_nested, encode_value, tag_byte, Document, Element, Value};
use bson_repair::error::Error;
use bson_repair::layout::{locate, scan_element};
use bson_repair::parse::parse;

fn element(tag: u8, key: &[u8], value: &[u8]) -> Vec<u8> {
    let mut out: Vec<u8> = vec![tag];
    out.extend_from_slice(key);
    out.push(0);
    out.extend_from_slice(value);
    out
}

fn text(bytes: &[u8]) -> Vec<u8> {
    let mut out: Vec<u8> = ((bytes.len() + 1) as u32).to_le_bytes().to_vec();
    out.extend_from_slice(bytes);
    out.push(0);
    out
}

fn document(elements: &[Vec<u8>]) -> Vec<u8> {
    let body: Vec<u8> = elements.concat();
    let mut out: Vec<u8> = ((body.len() + 5) as u32).to_le_bytes().to_vec();
    out.extend_from_slice(&body);
    out.push(0);
    out
}

fn nested() -> Vec<u8> {
    let inner = document(&[element(0x02, b"t", &text(b"x")), element(0x08, b"b", &[1])]);
    let items = document(&[
        element(0x02, b"0", &text(&[0xC1, 0xEE])),
        element(0x03, b"1", &inner),
        element(0x04, b"2", &document(&[element(0x10, b"0", &[9, 0, 0, 0])])),
    ]);
    document(&[
        element(0x07, b"_id", &[1, 2, 3, 4, 5, 6, 7, 8, 9, 10, 11, 12]),
        element(0x03, b"sub", &inner),
        element(0x04, b"list", &items),
        element(0x0B, b"re", b"a.*\0i\0"),
        element(0x05, b"bin", &[3, 0, 0, 0, 0x80, 1, 2, 3]),
        element(0x0A, b"nil", &[]),
        element(0x01, b"f", &[0, 0, 0, 0, 0, 0, 0xF0, 0x3F]),
        element(0x0D, b"js", &text(b"f()")),
        element(0x0F, b"cws", &[4 + 6 + 5, 0, 0, 0, 2, 0, 0, 0, b'x', 0, 5, 0, 0, 0, 0]),
        element(0x0C, b"ptr", &[text(b"ns"), vec![0u8; 12]].concat()),
        element(0xFF, b"min", &[]),
        element(0x7F, b"max", &[]),
        element(0x13, b"dec", &[7u8; 16]),
        element(0x11, b"ts", &[1, 0, 0, 0, 2, 0, 0, 0]),
    ])
}

#[test]
fn empty_document_is_parsed() {
    let parsed = parse(&[5, 0, 0, 0, 0]).unwrap();
    assert_eq!(parsed, Document { elements: vec![] });
    assert_eq!(parsed.encode(), Ok(vec![5, 0, 0, 0, 0]));
}

#[test]
fn flat_document_is_parsed_into_elements() {
    let bytes = document(&[element(0x02, b"a", &text(b"hi")), element(0x10, b"n", &[7, 0, 0, 0])]);
    let parsed = parse(&bytes).unwrap();
    assert_eq!(
        parsed,
        Document {
            elements: vec![
                Element { key: b"a".to_vec(), value: Value::Text(b"hi".to_vec()) },
                Element { key: b"n".to_vec(), value: Value::Other { tag: 0x10, payload: vec![7, 0, 0, 0] } },
            ],
        }
    );
}

#[test]
fn text_that_is_not_valid_is_still_parsed() {
    let bytes = document(&[element(0x02, b"name", &text(&[0xC1, 0xEE]))]);
    let parsed = parse(&bytes).unwrap();
    assert_eq!(parsed.elements[0].value, Value::Text(vec![0xC1, 0xEE]));
    assert_eq!(parsed.encode(), Ok(bytes));
}

#[test]
fn nested_document_is_parsed_by_kind() {
    let parsed = parse(&nested()).unwrap();
    assert_eq!(parsed.elements.len(), 14);
    assert_eq!(parsed.elements[0].key, b"_id".to_vec());
    assert!(matches!(&parsed.elements[1].value, Value::Document(es) if es.len() == 2));
    assert!(matches!(&parsed.elements[2].value, Value::Array(es) if es.len() == 3));
    assert_eq!(parsed.elements[3].value, Value::Other { tag: 0x0B, payload: b"a.*\0i\0".to_vec() });
    assert_eq!(parsed.elements[5].value, Value::Other { tag: 0x0A, payload: vec![] });
    if let Value::Array(items) = &parsed.elements[2].value {
        assert_eq!(items[0].value, Value::Text(vec![0xC1, 0xEE]));
        assert!(matches!(&items[1].value, Value::Document(_)));
        assert!(matches!(&items[2].value, Value::Array(_)));
    }
}

#[test]
fn encoding_undoes_parsing() {
    let bytes = nested();
    assert_eq!(parse(&bytes).unwrap().encode(), Ok(bytes));
}

#[test]
fn parsing_undoes_encoding() {
    let made = Document {
        elements: vec![
            Element { key: b"k".to_vec(), value: Value::Text(vec![0xFF, 0x00, 0x41]) },
            Element {
                key: b"d".to_vec(),
                value: Value::Document(vec![Element { key: vec![], value: Value::Array(vec![]) }]),
            },
            Element { key: b"o".to_vec(), value: Value::Other { tag: 0x08, payload: vec![1] } },
        ],
    };
    let bytes = made.encode().unwrap();
    assert_eq!(
        bytes,
        vec![
            35, 0, 0, 0, 0x02, b'k', 0, 4, 0, 0, 0, 0xFF, 0x00, 0x41, 0, 0x03, b'd', 0, 12, 0, 0, 0, 0x04, 0, 5, 0,
            0, 0, 0, 0, 0x08, b'o', 0, 1, 0,
        ]
    );
    assert_eq!(parse(&bytes).unwrap(), made);
}

#[test]
fn documents_built_by_the_store_client_are_read_alike() {
    let mut inner = bson::RawDocumentBuf::new();
    inner.append("x", 1.5f64);
    inner.append("s", "snow ☃");
    let mut list = bson::RawArrayBuf::new();
    list.push("one");
    list.push(2i32);
    list.push(inner.clone());
    let mut made = bson::RawDocumentBuf::new();
    made.append("_id", bson::oid::ObjectId::from_bytes([7; 12]));
    made.append("name", "Áî");
    made.append("inner", inner);
    made.append("list", list);
    made.append("flag", true);
    made.append("when", bson::DateTime::from_millis(1_700_000_000_000));
    made.append("big", 1i64 << 40);
    made.append("none", bson::RawBson::Null);
    let bytes = made.as_bytes().to_vec();
    let parsed = parse(&bytes).unwrap();
    let keys: Vec<Vec<u8>> = parsed.elements.iter().map(|e| e.key.clone()).collect();
    let theirs: Vec<Vec<u8>> =
        made.iter_elements().map(|e| e.unwrap().key().as_bytes().to_vec()).collect();
    assert_eq!(keys, theirs);
    assert_eq!(parsed.elements[1].value, Value::Text("Áî".as_bytes().to_vec()));
    assert_eq!(parsed.encode(), Ok(bytes));
}

#[test]
fn wrong_declared_length_is_a_length_mismatch() {
    assert_eq!(parse(&[]), Err(Error::LengthMismatch));
    assert_eq!(parse(&[5, 0, 0]), Err(Error::LengthMismatch));
    assert_eq!(parse(&[6, 0, 0, 0, 0]), Err(Error::LengthMismatch));
    assert_eq!(parse(&[4, 0, 0, 0, 0]), Err(Error::LengthMismatch));
    let mut bytes = nested();
    bytes.push(0);
    assert_eq!(parse(&bytes), Err(Error::LengthMismatch));
    let mut short = nested();
    short.pop();
    assert_eq!(parse(&short), Err(Error::LengthMismatch));
}

#[test]
fn broken_layout_is_malformed() {
    assert_eq!(parse(&[4, 0, 0, 0]), Err(Error::Malformed));
    assert_eq!(parse(&[5, 0, 0, 0, 1]), Err(Error::Malformed));
    // text that declares more than the document holds
    assert_eq!(parse(&[13, 0, 0, 0, 0x02, b'a', 0, 9, 0, 0, 0, b'x', 0]), Err(Error::Malformed));
    // text without its terminator
    assert_eq!(parse(&[13, 0, 0, 0, 0x02, b'a', 0, 2, 0, 0, 0, b'x', b'y']), Err(Error::Malformed));
    assert_eq!(parse(&[14, 0, 0, 0, 0x02, b'a', 0, 2, 0, 0, 0, b'x', b'y', 0]), Err(Error::Malformed));
    // unknown tag
    assert_eq!(parse(&[8, 0, 0, 0, 0x42, b'a', 0, 0]), Err(Error::Malformed));
    // key without terminator
    assert_eq!(parse(&[8, 0, 0, 0, 0x0A, b'a', b'b', b'c']), Err(Error::Malformed));
    // last element runs into the terminator
    assert_eq!(parse(&[11, 0, 0, 0, 0x10, b'n', 0, 7, 0, 0, 0]), Err(Error::Malformed));
    // embedded document whose own terminator is missing
    let inner: Vec<u8> = vec![5, 0, 0, 0, 9];
    assert_eq!(parse(&document(&[element(0x03, b"d", &inner)])), Err(Error::Malformed));
    // embedded document that declares fewer bytes than a document has
    let tiny: Vec<u8> = vec![4, 0, 0, 0];
    assert_eq!(parse(&document(&[element(0x03, b"d", &tiny)])), Err(Error::Malformed));
    // negative count
    assert_eq!(
        parse(&document(&[element(0x02, b"t", &[0xFF, 0xFF, 0xFF, 0xFF, 0])])),
        Err(Error::Malformed)
    );
}

#[test]
fn a_payload_too_large_to_declare_is_refused() {
    let huge = Document {
        elements: vec![Element {
            key: b"b".to_vec(),
            value: Value::Other { tag: 0x05, payload: vec![0u8; 0x8000_0000] },
        }],
    };
    assert_eq!(huge.encode(), Err(Error::TooLarge));
}

#[test]
fn values_are_encoded_by_kind() {
    assert_eq!(encode_value(&Value::Text(b"hi".to_vec())), Ok(vec![3, 0, 0, 0, b'h', b'i', 0]));
    assert_eq!(encode_value(&Value::Text(vec![])), Ok(vec![1, 0, 0, 0, 0]));
    assert_eq!(encode_value(&Value::Document(vec![])), Ok(vec![5, 0, 0, 0, 0]));
    assert_eq!(encode_value(&Value::Array(vec![])), Ok(vec![5, 0, 0, 0, 0]));
    assert_eq!(encode_value(&Value::Other { tag: 0x10, payload: vec![7, 0, 0, 0] }), Ok(vec![7, 0, 0, 0]));
    let es = vec![Element { key: b"a".to_vec(), value: Value::Other { tag: 0x0A, payload: vec![] } }];
    assert_eq!(encode_elements(&es), Ok(vec![0x0A, b'a', 0]));
    assert_eq!(encode_nested(&es), Ok(vec![8, 0, 0, 0, 0x0A, b'a', 0, 0]));
}

#[test]
fn tags_follow_the_kind() {
    assert_eq!(tag_byte(&Value::Text(vec![])), 0x02);
    assert_eq!(tag_byte(&Value::Document(vec![])), 0x03);
    assert_eq!(tag_byte(&Value::Array(vec![])), 0x04);
    assert_eq!(tag_byte(&Value::Other { tag: 0x12, payload: vec![0; 8] }), 0x12);
}

#[test]
fn copies_are_equal_to_what_was_copied() {
    let parsed = parse(&nested()).unwrap();
    assert_eq!(parsed.duplicate(), parsed);
    assert_eq!(copy_elements(&parsed.elements), parsed.elements);
    assert_eq!(copy_value(&parsed.elements[2].value), parsed.elements[2].value);
}

fn every_kind() -> bson::RawDocumentBuf {
    let mut scope = bson::RawDocumentBuf::new();
    scope.append("x", 1i32);
    let mut list = bson::RawArrayBuf::new();
    list.push("one");
    list.push(scope.clone());
    let mut made = bson::RawDocumentBuf::new();
    made.append("double", 2.5f64);
    made.append("text", "Áî");
    made.append("empty", "");
    made.append("doc", scope.clone());
    made.append("list", list);
    made.append("bin", bson::Binary { subtype: bson::spec::BinarySubtype::Generic, bytes: vec![1, 2, 3] });
    made.append("undefined", bson::RawBson::Undefined);
    made.append("oid", bson::oid::ObjectId::from_bytes([9; 12]));
    made.append("yes", true);
    made.append("when", bson::DateTime::from_millis(-1));
    made.append("null", bson::RawBson::Null);
    made.append("re", bson::Regex { pattern: String::from("^a.*$"), options: String::from("ix") });
    made.append("js", bson::RawBson::JavaScriptCode(String::from("f()")));
    made.append("symbol", bson::RawBson::Symbol(String::from("sym")));
    made.append(
        "scoped",
        bson::RawBson::JavaScriptCodeWithScope(bson::RawJavaScriptCodeWithScope {
            code: String::from("g(x)"),
            scope,
        }),
    );
    made.append("int", -7i32);
    made.append("ts", bson::Timestamp { time: 5, increment: 6 });
    made.append("long", i64::MIN);
    made.append("dec", bson::Decimal128::from_bytes([3; 16]));
    made.append("min", bson::RawBson::MinKey);
    made.append("max", bson::RawBson::MaxKey);
    made
}

#[test]
fn the_walk_agrees_with_the_store_client_on_every_kind() {
    let made = every_kind();
    let bytes = made.as_bytes().to_vec();
    let limit = bytes.len() - 1;
    let mut at: usize = 4;
    let mut seen: usize = 0;
    for theirs in made.iter_elements() {
        let theirs = theirs.unwrap();
        let ours = scan_element(&bytes, at, limit).unwrap();
        assert_eq!(ours.offset, at);
        assert_eq!(ours.tag, theirs.element_type() as u8);
        assert_eq!(ours.key_len, theirs.key().len());
        assert_eq!(&bytes[at + 1..at + 1 + ours.key_len], theirs.key().as_bytes());
        assert_eq!(ours.encoded_len, 1 + theirs.key().len() + 1 + theirs.len());
        assert!(locate(&bytes, &ours).is_ok());
        at += ours.encoded_len;
        seen += 1;
    }
    assert_eq!(at, limit);
    assert_eq!(seen, 21);
    let parsed = parse(&bytes).unwrap();
    assert_eq!(parsed.elements.len(), 21);
    assert_eq!(parsed.encode(), Ok(bytes));
}
