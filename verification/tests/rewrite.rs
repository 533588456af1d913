use bson_repair::document::{Document, Element, Value};
use bson_repair::error::Error;
use bson_repair::options::{Options, Selection};
use bson_repair::parse::parse;
use bson_repair::process::{plan_write_back, process, record_identity, report_for, rewrite_record, Report, WriteBack};
use bson_repair::decision::{decide, decisions, field_prompt, prompt, RepairDecision};
use bson_repair::rewrite::rewrite;

fn element(tag: u8, key: &[u8], value: &[u8]) -> Vec<u8> {
    let mut out: Vec<u8> = vec![tag];
    out.extend_from_slice(key);
    out.push(0);
    out.extend_from_slice(value);
    out
}

fn text(bytes: &[u8]) -> Vec<u8> {
    let mut out: Vec<u8> = ((bytes.len() + 1) as u32).to_le_bytes().to_vec();
    out.extend_from_slice(bytes);
    out.push(0);
    out
}

fn document(elements: &[Vec<u8>]) -> Vec<u8> {
    let body: Vec<u8> = elements.concat();
    let mut out: Vec<u8> = ((body.len() + 5) as u32).to_le_bytes().to_vec();
    out.extend_from_slice(&body);
    out.push(0);
    out
}

const ID: [u8; 12] = [0x65, 0x01, 0x02, 0x03, 0x04, 0x05, 0x06, 0x07, 0x08, 0x09, 0x0A, 0xFF];

fn record(name: &[u8]) -> Vec<u8> {
    document(&[element(0x07, b"_id", &ID), element(0x02, b"name", &text(name))])
}

fn deep(first: &[u8], second: &[u8], third: &[u8], hidden: &[u8]) -> Vec<u8> {
    let inner = document(&[element(0x10, b"n", &[1, 0, 0, 0]), element(0x02, b"t", &text(second))]);
    let items = document(&[
        element(0x02, b"0", &text(third)),
        element(0x03, b"1", &document(&[element(0x02, b"u", &text(b"fine"))])),
        element(0x04, b"2", &document(&[element(0x02, b"0", &text(hidden))])),
    ]);
    document(&[
        element(0x02, b"a", &text(first)),
        element(0x03, b"sub", &inner),
        element(0x04, b"list", &items),
        element(0x08, b"flag", &[1]),
    ])
}

#[test]
fn truncated_name_is_repaired_and_replaced() {
    let stored = record(&[0xC1, 0xEE]);
    let outcome = process(&stored, false, &vec![], false).unwrap();
    assert!(outcome.changed);
    assert_eq!(outcome.write_back, WriteBack::Replace);
    assert_eq!(outcome.identity, Some(String::from("650102030405060708090aff")));
    assert_eq!(outcome.document, record("Áî".as_bytes()));
    let rewritten = bson::RawDocumentBuf::from_bytes(outcome.document).unwrap();
    assert_eq!(rewritten.get_str("name"), Ok("Áî"));
    assert_eq!(rewritten.get_object_id("_id"), Ok(bson::oid::ObjectId::from_bytes(ID)));
}

#[test]
fn stored_bytes_that_are_valid_text_stay() {
    let stored = record(&[0x04, 0x10, 0x04, 0x11]);
    let outcome = process(&stored, false, &vec![], false).unwrap();
    assert!(!outcome.changed);
    assert_eq!(outcome.write_back, WriteBack::Unchanged);
    assert_eq!(outcome.document, stored);
}

#[test]
fn dry_run_writes_nothing_and_reports_the_same() {
    let stored = record(&[0xC1, 0xEE]);
    let wet = process(&stored, false, &vec![], false).unwrap();
    let dry = process(&stored, false, &vec![], true).unwrap();
    assert_eq!(dry.write_back, WriteBack::DryRun);
    assert_eq!(dry.document, wet.document);
    assert_eq!(dry.changed, wet.changed);
    assert_eq!(dry.identity, wet.identity);
    let clean = process(&record(b"ok"), false, &vec![], true).unwrap();
    assert_eq!(clean.write_back, WriteBack::DryRun);
}

#[test]
fn write_back_needs_change_identity_and_no_dry_run() {
    assert_eq!(plan_write_back(false, true, true), WriteBack::Replace);
    assert_eq!(plan_write_back(false, true, false), WriteBack::NoIdentity);
    assert_eq!(plan_write_back(false, false, true), WriteBack::Unchanged);
    assert_eq!(plan_write_back(false, false, false), WriteBack::Unchanged);
    assert_eq!(plan_write_back(true, true, true), WriteBack::DryRun);
    assert_eq!(plan_write_back(true, true, false), WriteBack::DryRun);
    assert_eq!(plan_write_back(true, false, true), WriteBack::DryRun);
    assert_eq!(plan_write_back(true, false, false), WriteBack::DryRun);
}

#[test]
fn record_without_identity_is_rewritten_but_not_written_back() {
    let stored = document(&[element(0x02, b"name", &text(&[0xC1, 0xEE]))]);
    let outcome = process(&stored, false, &vec![], false).unwrap();
    assert!(outcome.changed);
    assert_eq!(outcome.identity, None);
    assert_eq!(outcome.write_back, WriteBack::NoIdentity);
    assert_eq!(outcome.document, document(&[element(0x02, b"name", &text("Áî".as_bytes()))]));
    let textual = document(&[element(0x02, b"_id", &text(b"abc")), element(0x02, b"name", &text(&[0xFF]))]);
    assert_eq!(process(&textual, false, &vec![], false).unwrap().write_back, WriteBack::NoIdentity);
}

#[test]
fn identity_is_the_object_id_in_hex() {
    assert_eq!(record_identity(&record(b"x")), Some(String::from("650102030405060708090aff")));
    assert_eq!(record_identity(&document(&[])), None);
    assert_eq!(record_identity(&[1, 2, 3]), None);
    assert_eq!(record_identity(&document(&[element(0x10, b"_id", &[1, 0, 0, 0])])), None);
}

#[test]
fn declined_repair_keeps_the_lenient_reading() {
    let stored = record(&[0xC1, 0xEE]);
    let outcome = process(&stored, true, &vec![false], false).unwrap();
    assert!(!outcome.changed);
    assert_eq!(outcome.write_back, WriteBack::Unchanged);
    assert_eq!(outcome.document, record("\u{FFFD}\u{FFFD}".as_bytes()));
    assert_ne!(outcome.document, stored);
    let parsed = bson::RawDocumentBuf::from_bytes(outcome.document).unwrap();
    assert_eq!(parsed.get_str("name"), Ok("\u{FFFD}\u{FFFD}"));
}

#[test]
fn confirmed_repair_is_applied() {
    let stored = record(&[0xC1, 0xEE]);
    let outcome = process(&stored, true, &vec![true], false).unwrap();
    assert!(outcome.changed);
    assert_eq!(outcome.document, record("Áî".as_bytes()));
}

#[test]
fn unanswered_repair_counts_as_declined() {
    let stored = record(&[0xC1, 0xEE]);
    let (bytes, changed) = rewrite_record(&stored, true, &vec![]).unwrap();
    assert!(!changed);
    assert_eq!(bytes, record("\u{FFFD}\u{FFFD}".as_bytes()));
}

#[test]
fn answers_are_ignored_without_confirmation() {
    let stored = record(&[0xC1, 0xEE]);
    let (bytes, changed) = rewrite_record(&stored, false, &vec![false]).unwrap();
    assert!(changed);
    assert_eq!(bytes, record("Áî".as_bytes()));
}

#[test]
fn clean_documents_are_rebuilt_byte_for_byte() {
    let stored = deep(b"one", "zwei \u{E4}".as_bytes(), b"", b"x");
    assert_eq!(rewrite_record(&stored, false, &vec![]), Ok((stored.clone(), false)));
    assert_eq!(rewrite_record(&stored, true, &vec![true, false]), Ok((stored.clone(), false)));
    assert_eq!(rewrite_record(&[5, 0, 0, 0, 0], false, &vec![]), Ok((vec![5, 0, 0, 0, 0], false)));
}

#[test]
fn stale_text_is_repaired_at_every_depth_the_walk_reaches() {
    let stored = deep(&[0xE9], &[0xFC, 0x62], &[0xC1, 0xEE], b"x");
    let (bytes, changed) = rewrite_record(&stored, false, &vec![]).unwrap();
    assert!(changed);
    assert_eq!(bytes, deep("é".as_bytes(), "üb".as_bytes(), "Áî".as_bytes(), b"x"));
}

#[test]
fn array_items_of_an_array_pass_through() {
    let stored = deep(b"a", b"b", b"c", &[0xC1]);
    assert_eq!(rewrite_record(&stored, false, &vec![]), Ok((stored.clone(), false)));
    let mixed = deep(&[0xC1], b"b", b"c", &[0xC1]);
    assert_eq!(rewrite_record(&mixed, false, &vec![]), Ok((deep("Á".as_bytes(), b"b", b"c", &[0xC1]), true)));
}

#[test]
fn one_stale_field_changes_and_nothing_else() {
    let stored = deep(b"first", &[0xC1, 0xEE], b"third", b"x");
    let (bytes, changed) = rewrite_record(&stored, false, &vec![]).unwrap();
    assert!(changed);
    assert_eq!(bytes, deep(b"first", "Áî".as_bytes(), b"third", b"x"));
    let before = parse(&stored).unwrap();
    let after = parse(&bytes).unwrap();
    assert_eq!(before.elements.len(), after.elements.len());
    assert_eq!(before.elements[0], after.elements[0]);
    assert_eq!(before.elements[2], after.elements[2]);
    assert_eq!(before.elements[3], after.elements[3]);
    assert_eq!(before.elements[1].key, after.elements[1].key);
    if let (Value::Document(old), Value::Document(new)) = (&before.elements[1].value, &after.elements[1].value) {
        assert_eq!(old[0], new[0]);
        assert_eq!(old[1].key, new[1].key);
        assert_eq!(new[1].value, Value::Text("Áî".as_bytes().to_vec()));
    } else {
        panic!("embedded document expected");
    }
}

#[test]
fn answers_are_taken_in_the_order_of_the_walk() {
    let stored = deep(&[0xE9], &[0xFC], &[0xC1], b"x");
    let (bytes, changed) = rewrite_record(&stored, true, &vec![true, false, true]).unwrap();
    assert!(changed);
    assert_eq!(bytes, deep("é".as_bytes(), "\u{FFFD}".as_bytes(), "Á".as_bytes(), b"x"));
    let (bytes, changed) = rewrite_record(&stored, true, &vec![false, true]).unwrap();
    assert!(changed);
    assert_eq!(bytes, deep("\u{FFFD}".as_bytes(), "ü".as_bytes(), "\u{FFFD}".as_bytes(), b"x"));
    let (bytes, changed) = rewrite_record(&stored, true, &vec![false, false, false, true]).unwrap();
    assert!(!changed);
    assert_eq!(bytes, deep("\u{FFFD}".as_bytes(), "\u{FFFD}".as_bytes(), "\u{FFFD}".as_bytes(), b"x"));
}

#[test]
fn second_pass_changes_nothing() {
    let stored = deep(&[0xE9], &[0xFC, 0x62], &[0xC1, 0xEE], &[0x80]);
    let (once, changed) = rewrite_record(&stored, true, &vec![true, false, true]).unwrap();
    assert!(changed);
    assert_eq!(rewrite_record(&once, false, &vec![]), Ok((once.clone(), false)));
    assert_eq!(rewrite_record(&once, true, &vec![true, true, true]), Ok((once.clone(), false)));
    assert_eq!(decisions(&parse(&once).unwrap(), false, &vec![]), vec![]);
}

#[test]
fn unreadable_records_are_errors() {
    assert_eq!(rewrite_record(&[], false, &vec![]), Err(Error::LengthMismatch));
    assert_eq!(rewrite_record(&[9, 0, 0, 0, 0], false, &vec![]), Err(Error::LengthMismatch));
    assert_eq!(rewrite_record(&[5, 0, 0, 0, 7], false, &vec![]), Err(Error::Malformed));
    assert_eq!(process(&[5, 0, 0, 0, 7], false, &vec![], true), Err(Error::Malformed));
    assert_eq!(process(&[1], true, &vec![true], false), Err(Error::LengthMismatch));
}

#[test]
fn rewriting_a_document_leaves_the_input_alone() {
    let input = parse(&deep(&[0xE9], b"b", b"c", &[0xC1])).unwrap();
    let copy = input.duplicate();
    let (output, changed) = rewrite(&input, false, &vec![]);
    assert!(changed);
    assert_eq!(input, copy);
    assert_eq!(output.elements[0], Element { key: b"a".to_vec(), value: Value::Text("é".as_bytes().to_vec()) });
    assert_eq!(output.elements[1..], input.elements[1..]);
    let (same, changed) = rewrite(&Document { elements: vec![] }, true, &vec![true]);
    assert!(!changed);
    assert_eq!(same, Document { elements: vec![] });
}

#[test]
fn decisions_list_each_stale_field_in_order() {
    let stored = parse(&deep(&[0xE9], &[0xFC, 0x62], &[0xC1, 0xEE], &[0x80])).unwrap();
    let listed = decisions(&stored, true, &vec![true, false]);
    assert_eq!(
        listed,
        vec![
            RepairDecision {
                key: b"a".to_vec(),
                original: String::from("\u{FFFD}"),
                candidate: String::from("é"),
                accepted: true,
            },
            RepairDecision {
                key: b"t".to_vec(),
                original: String::from("\u{FFFD}b"),
                candidate: String::from("üb"),
                accepted: false,
            },
            RepairDecision {
                key: b"0".to_vec(),
                original: String::from("\u{FFFD}\u{FFFD}"),
                candidate: String::from("Áî"),
                accepted: false,
            },
        ]
    );
    assert_eq!(listed[0].emitted_text(), "é");
    assert_eq!(listed[1].emitted_text(), "\u{FFFD}b");
    let auto = decisions(&stored, false, &vec![]);
    assert_eq!(auto.len(), 3);
    assert!(auto.iter().all(|d| d.accepted));
    assert_eq!(decisions(&parse(&record(b"fine")).unwrap(), false, &vec![]), vec![]);
}

#[test]
fn decisions_follow_confirmation_and_answer() {
    assert!(decide(false, false));
    assert!(decide(false, true));
    assert!(decide(true, true));
    assert!(!decide(true, false));
}

#[test]
fn prompt_names_identity_and_key() {
    assert_eq!(prompt(&Some(String::from("abc")), "name", "x -> y"), "[abc][name] x -> y");
    assert_eq!(prompt(&None, "name", "diff"), "[][name] diff");
    assert_eq!(prompt(&None, "", ""), "[][] ");
    let decision = RepairDecision {
        key: b"name".to_vec(),
        original: String::from("\u{FFFD}\u{FFFD}"),
        candidate: String::from("Áî"),
        accepted: true,
    };
    let asked = field_prompt(&Some(String::from("65ff")), &decision);
    assert!(asked.starts_with("[65ff][name] "));
    assert!(asked.contains("Diff"));
    assert!(asked.len() > "[65ff][name] ".len() + 4);
}

#[test]
fn report_shows_differences_of_readable_records() {
    assert_eq!(report_for(true, true, false), Report::Difference);
    assert_eq!(report_for(true, true, true), Report::Nothing);
    assert_eq!(report_for(false, true, false), Report::Nothing);
    assert_eq!(report_for(false, true, true), Report::Nothing);
    assert_eq!(report_for(true, false, false), Report::Both);
    assert_eq!(report_for(false, false, false), Report::Both);
    assert_eq!(report_for(true, false, true), Report::Both);
}

#[test]
fn options_choose_confirmation_and_record_sets() {
    let mut options = Options {
        connection_uri: String::from("mongodb://localhost"),
        database_name: None,
        collection_names: vec![],
        confirm: None,
        dry_run: false,
    };
    assert!(!options.confirms());
    assert_eq!(options.selection(), Selection::Nothing);
    options.collection_names = vec![String::from("people")];
    assert_eq!(options.selection(), Selection::Nothing);
    options.database_name = Some(String::from("app"));
    assert_eq!(options.selection(), Selection::Named);
    options.collection_names = vec![];
    assert_eq!(options.selection(), Selection::Every);
    options.confirm = Some(false);
    assert!(!options.confirms());
    options.confirm = Some(true);
    assert!(options.confirms());
}

#[test]
fn rewritten_records_are_read_by_the_store_client() {
    let mut inner = bson::RawDocumentBuf::new();
    inner.append("city", "Zürich");
    let mut made = bson::RawDocumentBuf::new();
    made.append("_id", bson::oid::ObjectId::from_bytes(ID));
    made.append("n", 3i32);
    made.append("inner", inner);
    let clean = made.as_bytes().to_vec();
    assert_eq!(rewrite_record(&clean, false, &vec![]), Ok((clean.clone(), false)));

    let stored = document(&[
        element(0x07, b"_id", &ID),
        element(0x10, b"n", &[3, 0, 0, 0]),
        element(0x03, b"inner", &document(&[element(0x02, b"city", &text(&[b'Z', 0xFC, b'r', b'i', b'c', b'h']))])),
    ]);
    assert!(bson::RawDocumentBuf::from_bytes(stored.clone()).unwrap().get_document("inner").unwrap().get_str("city").is_err());
    let (bytes, changed) = rewrite_record(&stored, false, &vec![]).unwrap();
    assert!(changed);
    assert_eq!(bytes, clean);
}
