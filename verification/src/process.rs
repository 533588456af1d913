//! The record processor: one record from stored bytes to rewritten bytes, and
//! what is to be done with the result.
use vstd::prelude::*;
use crate::document::{encoding, storable};
use crate::error::Error;
use crate::fidelity::{
    first_stale, lemma_clean_unchanged, lemma_rewritten_is_clean, lemma_single_stale,
    with_first_stale,
};
use crate::parse::{
    declares_own_length, decoded, lemma_decoded_encoding, lemma_encoding_decoded, parse,
};
use crate::decision::option_text;
use crate::rewrite::{
    accepted, any_accepted, lemma_rewritten_well_formed, rewrite, rewritten, stale_in,
};
use crate::text::emitted;
use crate::wire::MAX_LEN;

verus! {

/// The identity of the record in `bytes` as `bson` reads it: the object
/// identifier under `key`, in hexadecimal, where the record has one.
pub uninterp spec fn object_id_hex_of(bytes: Seq<u8>, key: Seq<char>) -> Option<Seq<char>>;

/// `bson::RawDocument::from_bytes`, `get_object_id` and `ObjectId::to_hex`:
/// the object identifier that the document in `bytes` holds under `key`, in
/// hexadecimal; `None` where the bytes are no document or hold no object
/// identifier there. The result depends on the bytes and the key alone.
#[verifier::external_body]
fn object_id_hex(bytes: &[u8], key: &str) -> (id: Option<String>)
    ensures
        option_text(id) == object_id_hex_of(bytes@, key@),
{
    match bson::RawDocument::from_bytes(bytes) {
        Ok(document) => match document.get_object_id(key) {
            Ok(id) => Some(id.to_hex()),
            Err(_) => None,
        },
        Err(_) => None,
    }
}

/// The identity of a record: the object identifier under `_id`, in
/// hexadecimal. A record without one is rewritten but never written back.
pub fn record_identity(record: &[u8]) -> (id: Option<String>)
    ensures
        option_text(id) == object_id_hex_of(record@, "_id"@),
{
    object_id_hex(record, "_id")
}

/// What is done with a rewritten record.
#[derive(Clone, Copy, Debug, PartialEq, Eq, Structural)]
pub enum WriteBack {
    /// The stored record is replaced by the rewritten one.
    Replace,
    /// Nothing is written: this is a dry run.
    DryRun,
    /// Nothing is written: no repair was accepted.
    Unchanged,
    /// Nothing is written: the record has no identity to replace it by.
    NoIdentity,
}

/// What is done with a rewritten record: it replaces the stored one only
/// outside a dry run, where a repair was accepted and the record has an
/// identity.
pub open spec fn write_back_of(dry_run: bool, changed: bool, has_identity: bool) -> WriteBack {
    if dry_run {
        WriteBack::DryRun
    } else if !changed {
        WriteBack::Unchanged
    } else if !has_identity {
        WriteBack::NoIdentity
    } else {
        WriteBack::Replace
    }
}

/// Decides what is done with a rewritten record.
pub fn plan_write_back(dry_run: bool, changed: bool, has_identity: bool) -> (plan: WriteBack)
    ensures
        plan == write_back_of(dry_run, changed, has_identity),
{
    if dry_run {
        WriteBack::DryRun
    } else if !changed {
        WriteBack::Unchanged
    } else if !has_identity {
        WriteBack::NoIdentity
    } else {
        WriteBack::Replace
    }
}

/// What is shown of a record before and after rewriting.
#[derive(Clone, Copy, Debug, PartialEq, Eq, Structural)]
pub enum Report {
    /// Both can be read and they differ: their difference is shown.
    Difference,
    /// Nothing is shown.
    Nothing,
    /// The rewritten record cannot be read: both are shown as they are.
    Both,
}

/// What is shown of a record, given whether it could be read with typed values
/// before and after rewriting and whether the two readings are the same.
pub fn report_for(readable_before: bool, readable_after: bool, same: bool) -> (report: Report)
    ensures
        report == if readable_after {
            if readable_before && !same {
                Report::Difference
            } else {
                Report::Nothing
            }
        } else {
            Report::Both
        },
{
    if readable_after {
        if readable_before && !same {
            Report::Difference
        } else {
            Report::Nothing
        }
    } else {
        Report::Both
    }
}

/// The error on bytes that hold no document.
pub open spec fn unreadable(bytes: Seq<u8>) -> Error {
    if declares_own_length(bytes) {
        Error::Malformed
    } else {
        Error::LengthMismatch
    }
}

/// The rewritten bytes of a record and whether a repair was accepted: the
/// encoding of the document that the bytes hold, rewritten. An error where the
/// bytes hold no document, or where the rewritten document is too large to be
/// encoded.
pub open spec fn rewritten_record(bytes: Seq<u8>, confirm: bool, answers: Seq<bool>) -> Result<
    (Seq<u8>, bool),
    Error,
> {
    match decoded(bytes) {
        Some(es) => {
            let out = rewritten(es, false, confirm, answers, 0);
            if encoding(out).len() <= MAX_LEN {
                Ok((encoding(out), any_accepted(confirm, answers, 0, stale_in(es, false) as int)))
            } else {
                Err(Error::TooLarge)
            }
        },
        None => Err(unreadable(bytes)),
    }
}

/// Rewrites the record in `record`: reads the document, rebuilds it with stale
/// text replaced, and encodes the result.
pub fn rewrite_record(record: &[u8], confirm: bool, answers: &Vec<bool>) -> (out: Result<
    (Vec<u8>, bool),
    Error,
>)
    ensures
        match out {
            Ok((bytes, changed)) => rewritten_record(record@, confirm, answers@) == Ok::<
                (Seq<u8>, bool),
                Error,
            >((bytes@, changed)),
            Err(e) => rewritten_record(record@, confirm, answers@) == Err::<(Seq<u8>, bool), Error>(
                e,
            ),
        },
{
    let document = match parse(record) {
        Ok(document) => document,
        Err(e) => {
            return Err(e);
        },
    };
    let (rebuilt, changed) = rewrite(&document, confirm, answers);
    match rebuilt.encode() {
        Ok(bytes) => Ok((bytes, changed)),
        Err(e) => Err(e),
    }
}

/// A record after processing.
#[derive(Debug, PartialEq, Eq)]
pub struct Outcome {
    /// The rewritten record.
    pub document: Vec<u8>,
    /// Whether any repair was accepted.
    pub changed: bool,
    /// The identity of the record, where it has one.
    pub identity: Option<String>,
    /// What is to be done with the rewritten record.
    pub write_back: WriteBack,
}

/// What an `Outcome` stands for.
pub struct OutcomeView {
    pub document: Seq<u8>,
    pub changed: bool,
    pub identity: Option<Seq<char>>,
    pub write_back: WriteBack,
}

impl View for Outcome {
    type V = OutcomeView;

    open spec fn view(&self) -> OutcomeView {
        OutcomeView {
            document: self.document@,
            changed: self.changed,
            identity: option_text(self.identity),
            write_back: self.write_back,
        }
    }
}

/// What processing makes of a record: the rewritten record, its identity, and
/// what is done with the result. Only the last depends on `dry_run`.
pub open spec fn processed(bytes: Seq<u8>, confirm: bool, answers: Seq<bool>, dry_run: bool) -> Result<
    OutcomeView,
    Error,
> {
    match rewritten_record(bytes, confirm, answers) {
        Ok((document, changed)) => Ok(
            OutcomeView {
                document,
                changed,
                identity: object_id_hex_of(bytes, "_id"@),
                write_back: write_back_of(
                    dry_run,
                    changed,
                    object_id_hex_of(bytes, "_id"@) is Some,
                ),
            },
        ),
        Err(e) => Err(e),
    }
}

/// Processes one record: rewrites it and decides whether the result replaces
/// the stored record. A record that cannot be read, or cannot be encoded after
/// rewriting, is an error; a missing identity stops the write-back and nothing
/// else.
pub fn process(record: &[u8], confirm: bool, answers: &Vec<bool>, dry_run: bool) -> (out: Result<
    Outcome,
    Error,
>)
    ensures
        match out {
            Ok(outcome) => processed(record@, confirm, answers@, dry_run) == Ok::<
                OutcomeView,
                Error,
            >(outcome@),
            Err(e) => processed(record@, confirm, answers@, dry_run) == Err::<OutcomeView, Error>(
                e,
            ),
        },
{
    let (document, changed) = match rewrite_record(record, confirm, answers) {
        Ok(pair) => pair,
        Err(e) => {
            return Err(e);
        },
    };
    let identity: Option<String> = record_identity(record);
    let write_back: WriteBack = plan_write_back(dry_run, changed, identity.is_some());
    Ok(Outcome { document, changed, identity, write_back })
}

/// In a dry run nothing is ever written back, whether or not a repair was
/// accepted.
pub proof fn lemma_dry_run_writes_nothing(changed: bool, has_identity: bool)
    ensures
        write_back_of(true, changed, has_identity) == WriteBack::DryRun,
{
}

/// A dry run makes of a record what a run that writes makes of it: the same
/// rewritten record, the same flag and identity, or the same error. It differs
/// only in that nothing is written back.
pub proof fn lemma_dry_run_reports_the_same(bytes: Seq<u8>, confirm: bool, answers: Seq<bool>)
    ensures
        match (processed(bytes, confirm, answers, true), processed(bytes, confirm, answers, false)) {
            (Ok(dry), Ok(wet)) => {
                &&& dry.document == wet.document
                &&& dry.changed == wet.changed
                &&& dry.identity == wet.identity
                &&& dry.write_back == WriteBack::DryRun
            },
            (Err(dry), Err(wet)) => dry == wet,
            _ => false,
        },
{
}

/// A record that holds no stale text is rewritten to the very bytes it had, and
/// nothing counts as changed.
pub proof fn lemma_clean_record_unchanged(bytes: Seq<u8>, confirm: bool, answers: Seq<bool>)
    requires
        decoded(bytes) is Some,
        stale_in(decoded(bytes)->0, false) == 0,
    ensures
        rewritten_record(bytes, confirm, answers) == Ok::<(Seq<u8>, bool), Error>((bytes, false)),
{
    let es = decoded(bytes)->0;
    lemma_encoding_decoded(bytes);
    lemma_clean_unchanged(es, false, confirm, answers, 0);
}

/// A second pass over a rewritten record gives the same bytes and accepts no
/// repair, whatever the answers of either pass.
pub proof fn lemma_second_pass_changes_nothing(
    bytes: Seq<u8>,
    confirm: bool,
    answers: Seq<bool>,
    confirm_again: bool,
    answers_again: Seq<bool>,
)
    requires
        rewritten_record(bytes, confirm, answers) is Ok,
    ensures
        rewritten_record(
            (rewritten_record(bytes, confirm, answers)->Ok_0).0,
            confirm_again,
            answers_again,
        ) == Ok::<(Seq<u8>, bool), Error>(
            ((rewritten_record(bytes, confirm, answers)->Ok_0).0, false),
        ),
{
    let es = decoded(bytes)->0;
    let out = rewritten(es, false, confirm, answers, 0);
    lemma_encoding_decoded(bytes);
    lemma_rewritten_well_formed(es, false, confirm, answers, 0);
    assert(storable(out));
    lemma_decoded_encoding(out);
    lemma_rewritten_is_clean(es, false, confirm, answers, 0);
    lemma_clean_record_unchanged(encoding(out), confirm_again, answers_again);
}

/// A record in which the walk meets exactly one stale text field is rewritten
/// to the encoding of the same document with the value of that field replaced,
/// by its repair where that was accepted and by its lenient reading where not.
pub proof fn lemma_single_stale_record(bytes: Seq<u8>, confirm: bool, answers: Seq<bool>)
    requires
        decoded(bytes) is Some,
        stale_in(decoded(bytes)->0, false) == 1,
        rewritten_record(bytes, confirm, answers) is Ok,
    ensures
        rewritten_record(bytes, confirm, answers) == Ok::<(Seq<u8>, bool), Error>(
            (
                encoding(
                    with_first_stale(
                        decoded(bytes)->0,
                        false,
                        emitted(
                            first_stale(decoded(bytes)->0, false),
                            accepted(confirm, answers, 0),
                        ),
                    ),
                ),
                accepted(confirm, answers, 0),
            ),
        ),
{
    let es = decoded(bytes)->0;
    lemma_single_stale(es, false, confirm, answers, 0);
    assert(any_accepted(confirm, answers, 0, 1) == accepted(confirm, answers, 0));
}

} // verus!
