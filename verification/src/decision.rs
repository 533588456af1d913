//! Deciding on changes: what is proposed for each stale field, what is asked,
//! and how an answer decides.
use vstd::prelude::*;
use vstd::string::StringExecFns;
use vstd::utf8::valid_utf8;
use crate::document::{views, Document, Element, ElementView, Value, ValueView};
use crate::rewrite::{accepted, stale_in, stale_in_value};
use crate::text::{is_valid_text, lossy, repair, utf8_lossy, widened};
use crate::wire::copy_bytes;

verus! {

/// What was proposed for one stale text field and what became of it.
#[derive(Debug, PartialEq, Eq)]
pub struct RepairDecision {
    /// The key of the field, as stored.
    pub key: Vec<u8>,
    /// The stored bytes read leniently as text.
    pub original: String,
    /// The repaired text.
    pub candidate: String,
    /// Whether the repair replaces the stored bytes.
    pub accepted: bool,
}

/// What a `RepairDecision` stands for.
pub struct DecisionView {
    pub key: Seq<u8>,
    pub original: Seq<char>,
    pub candidate: Seq<char>,
    pub accepted: bool,
}

impl View for RepairDecision {
    type V = DecisionView;

    open spec fn view(&self) -> DecisionView {
        DecisionView {
            key: self.key@,
            original: self.original@,
            candidate: self.candidate@,
            accepted: self.accepted,
        }
    }
}

impl RepairDecision {
    /// The text that is written for the field: the candidate where it was
    /// accepted, else the original.
    pub fn emitted_text(&self) -> (text: &String)
        ensures
            text@ == if self.accepted {
                self.candidate@
            } else {
                self.original@
            },
    {
        if self.accepted {
            &self.candidate
        } else {
            &self.original
        }
    }
}

/// What `ds` stand for, in order.
pub open spec fn decision_views(ds: Seq<RepairDecision>) -> Seq<DecisionView> {
    Seq::new(ds.len(), |i: int| ds[i]@)
}

/// Decides on one candidate: without confirmation it is accepted, with
/// confirmation the answer decides.
pub fn decide(confirm: bool, answer: bool) -> (accept: bool)
    ensures
        accept == (!confirm || answer),
{
    !confirm || answer
}

/// The decisions on the stale fields of the value under `key`, the first of
/// which has number `base`.
pub open spec fn decisions_in_value(
    value: ValueView,
    key: Seq<u8>,
    in_array: bool,
    confirm: bool,
    answers: Seq<bool>,
    base: int,
) -> Seq<DecisionView>
    decreases value,
{
    match value {
        ValueView::Text(text) => if valid_utf8(text) {
            Seq::empty()
        } else {
            seq![
                DecisionView {
                    key,
                    original: utf8_lossy(text),
                    candidate: widened(text),
                    accepted: accepted(confirm, answers, base),
                },
            ]
        },
        ValueView::Document(es) => decisions_in(es, false, confirm, answers, base),
        ValueView::Array(es) => if in_array {
            Seq::empty()
        } else {
            decisions_in(es, true, confirm, answers, base)
        },
        ValueView::Other { .. } => Seq::empty(),
    }
}

/// The decisions on the stale fields of a run of elements, in the order of the
/// walk.
pub open spec fn decisions_in(
    es: Seq<ElementView>,
    in_array: bool,
    confirm: bool,
    answers: Seq<bool>,
    base: int,
) -> Seq<DecisionView>
    decreases es,
{
    if es.len() == 0 {
        Seq::empty()
    } else {
        decisions_in_value(es[0].value, es[0].key, in_array, confirm, answers, base)
            + decisions_in(
            es.drop_first(),
            in_array,
            confirm,
            answers,
            base + stale_in_value(es[0].value, in_array),
        )
    }
}

/// There is one decision for each stale field of a value.
pub proof fn lemma_decisions_in_value_len(
    value: ValueView,
    key: Seq<u8>,
    in_array: bool,
    confirm: bool,
    answers: Seq<bool>,
    base: int,
)
    ensures
        decisions_in_value(value, key, in_array, confirm, answers, base).len() == stale_in_value(
            value,
            in_array,
        ),
    decreases value,
{
    match value {
        ValueView::Document(es) => lemma_decisions_in_len(es, false, confirm, answers, base),
        ValueView::Array(es) => if !in_array {
            lemma_decisions_in_len(es, true, confirm, answers, base)
        },
        _ => {},
    }
}

/// There is one decision for each stale field of a run.
pub proof fn lemma_decisions_in_len(
    es: Seq<ElementView>,
    in_array: bool,
    confirm: bool,
    answers: Seq<bool>,
    base: int,
)
    ensures
        decisions_in(es, in_array, confirm, answers, base).len() == stale_in(es, in_array),
    decreases es,
{
    if es.len() > 0 {
        lemma_decisions_in_value_len(es[0].value, es[0].key, in_array, confirm, answers, base);
        lemma_decisions_in_len(
            es.drop_first(),
            in_array,
            confirm,
            answers,
            base + stale_in_value(es[0].value, in_array),
        );
    }
}

/// Unfolds the decisions of a run by its first element.
proof fn lemma_decisions_in_skip(
    es: Seq<ElementView>,
    in_array: bool,
    confirm: bool,
    answers: Seq<bool>,
    base: int,
    i: int,
)
    requires
        0 <= i < es.len(),
    ensures
        decisions_in(es.skip(i), in_array, confirm, answers, base) == decisions_in_value(
            es[i].value,
            es[i].key,
            in_array,
            confirm,
            answers,
            base,
        ) + decisions_in(
            es.skip(i + 1),
            in_array,
            confirm,
            answers,
            base + stale_in_value(es[i].value, in_array),
        ),
{
    assert(es.skip(i).drop_first() =~= es.skip(i + 1));
}

/// Appends the decisions on the stale fields of a value.
fn collect_from_value(
    value: &Value,
    key: &Vec<u8>,
    in_array: bool,
    confirm: bool,
    answers: &Vec<bool>,
    out: &mut Vec<RepairDecision>,
)
    ensures
        decision_views(final(out)@) == decision_views(old(out)@) + decisions_in_value(
            value@,
            key@,
            in_array,
            confirm,
            answers@,
            old(out).len() as int,
        ),
    decreases value,
{
    let ghost before = decision_views(out@);
    match value {
        Value::Text(text) => {
            if !is_valid_text(text.as_slice()) {
                let k: usize = out.len();
                let decision = RepairDecision {
                    key: copy_bytes(key.as_slice()),
                    original: lossy(text.as_slice()),
                    candidate: repair(text.as_slice()),
                    accepted: decide(confirm, k < answers.len() && answers[k]),
                };
                out.push(decision);
                assert(decision_views(out@) =~= before + seq![decision@]);
            } else {
                assert(before + Seq::<DecisionView>::empty() =~= before);
            }
        },
        Value::Document(es) => collect_from_elements(es, false, confirm, answers, out),
        Value::Array(es) => if in_array {
            assert(before + Seq::<DecisionView>::empty() =~= before);
        } else {
            collect_from_elements(es, true, confirm, answers, out)
        },
        Value::Other { .. } => {
            assert(before + Seq::<DecisionView>::empty() =~= before);
        },
    }
}

/// Appends the decisions on the stale fields of a run of elements.
fn collect_from_elements(
    es: &Vec<Element>,
    in_array: bool,
    confirm: bool,
    answers: &Vec<bool>,
    out: &mut Vec<RepairDecision>,
)
    ensures
        decision_views(final(out)@) == decision_views(old(out)@) + decisions_in(
            views(es@),
            in_array,
            confirm,
            answers@,
            old(out).len() as int,
        ),
    decreases es,
{
    let ghost all = views(es@);
    let ghost before = decision_views(out@);
    let ghost base = out.len() as int;
    let ghost seen: int = 0;
    let mut i: usize = 0;
    proof {
        assert(all.skip(0) =~= all);
    }
    while i < es.len()
        invariant
            i <= es.len(),
            all == views(es@),
            0 <= seen,
            out.len() == base + seen,
            decision_views(out@) + decisions_in(
                all.skip(i as int),
                in_array,
                confirm,
                answers@,
                base + seen,
            ) == before + decisions_in(all, in_array, confirm, answers@, base),
        decreases es.len() - i,
    {
        let ghost here = base + seen;
        let ghost so_far = decision_views(out@);
        proof {
            lemma_decisions_in_skip(all, in_array, confirm, answers@, here, i as int);
            assert(all[i as int] == es@[i as int]@);
            lemma_decisions_in_value_len(
                all[i as int].value,
                all[i as int].key,
                in_array,
                confirm,
                answers@,
                here,
            );
        }
        collect_from_value(&es[i].value, &es[i].key, in_array, confirm, answers, out);
        proof {
            let mine = decisions_in_value(
                all[i as int].value,
                all[i as int].key,
                in_array,
                confirm,
                answers@,
                here,
            );
            let count = stale_in_value(all[i as int].value, in_array) as int;
            let rest = decisions_in(all.skip(i + 1), in_array, confirm, answers@, here + count);
            assert(decision_views(out@).len() == out.len());
            assert(so_far.len() == here);
            assert((so_far + mine) + rest =~= so_far + (mine + rest));
            seen = seen + count;
        }
        i = i + 1;
    }
    proof {
        assert(all.skip(i as int) =~= Seq::<ElementView>::empty());
        assert(decision_views(out@) + Seq::<DecisionView>::empty() =~= decision_views(out@));
    }
}

/// The decision on each stale text field of `document`, in the order in which
/// rewriting meets them: the key, the stored bytes read leniently, the repaired
/// text, and whether the repair is accepted under `confirm` and `answers`.
pub fn decisions(document: &Document, confirm: bool, answers: &Vec<bool>) -> (out: Vec<RepairDecision>)
    ensures
        decision_views(out@) == decisions_in(document@, false, confirm, answers@, 0),
        out.len() == stale_in(document@, false),
{
    let mut out: Vec<RepairDecision> = Vec::new();
    collect_from_elements(&document.elements, false, confirm, answers, &mut out);
    proof {
        let listed = decisions_in(document@, false, confirm, answers@, 0);
        assert(decision_views(Seq::<RepairDecision>::empty()) + listed =~= listed);
        lemma_decisions_in_len(document@, false, confirm, answers@, 0);
        assert(decision_views(out@).len() == out.len());
    }
    out
}

/// The text of an identity where there is one.
pub open spec fn option_text(text: Option<String>) -> Option<Seq<char>> {
    match text {
        Some(s) => Some(s@),
        None => None,
    }
}

/// The line that asks about one field: the record's identity and the key in
/// square brackets, then the rendered difference.
pub open spec fn prompt_text(identity: Option<Seq<char>>, key: Seq<char>, rendered: Seq<char>) -> Seq<
    char,
> {
    "["@ + (match identity {
        Some(id) => id,
        None => Seq::empty(),
    }) + "]["@ + key + "] "@ + rendered
}

/// `pretty_assertions::Comparison` of the two texts, shown with `{}`: a
/// rendering of their difference for a person to read. Whether it holds colour
/// codes depends on the terminal, so nothing is stated of it.
#[verifier::external_body]
fn render_comparison(original: &String, candidate: &String) -> (rendered: String) {
    format!("{}", pretty_assertions::Comparison::new(original, candidate))
}

/// Puts the line together that asks about one field.
pub fn prompt(identity: &Option<String>, key: &str, rendered: &str) -> (text: String)
    ensures
        text@ == prompt_text(option_text(*identity), key@, rendered@),
{
    let mut text: String = String::from_str("[");
    match identity {
        Some(id) => {
            text.append(id.as_str());
        },
        None => {
            assert(text@ + Seq::<char>::empty() =~= text@);
        },
    }
    text.append("][");
    text.append(key);
    text.append("] ");
    text.append(rendered);
    text
}

/// The line that asks about the field of `decision` in the record with
/// `identity`: its start is fixed, the rendered difference follows.
pub fn field_prompt(identity: &Option<String>, decision: &RepairDecision) -> (text: String)
    ensures
        exists|rendered: Seq<char>|
            text@ == prompt_text(option_text(*identity), utf8_lossy(decision.key@), rendered),
{
    let key: String = lossy(decision.key.as_slice());
    let rendered: String = render_comparison(&decision.original, &decision.candidate);
    prompt(identity, key.as_str(), rendered.as_str())
}

} // verus!
