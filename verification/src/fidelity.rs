//! What rewriting keeps: a document without stale text is rebuilt as it is, a
//! rebuilt document holds no stale text, and nothing but stale text changes.
use vstd::prelude::*;
use vstd::utf8::valid_utf8;
use crate::document::{ElementView, ValueView};
use crate::rewrite::{accepted, rewritten, rewritten_value, stale_in, stale_in_value};
use crate::text::{emitted, lemma_emitted_is_valid};

verus! {

/// A value without stale text is rebuilt as it is.
pub proof fn lemma_clean_value_unchanged(
    value: ValueView,
    in_array: bool,
    confirm: bool,
    answers: Seq<bool>,
    base: int,
)
    requires
        stale_in_value(value, in_array) == 0,
    ensures
        rewritten_value(value, in_array, confirm, answers, base) == value,
    decreases value,
{
    match value {
        ValueView::Document(es) => lemma_clean_unchanged(es, false, confirm, answers, base),
        ValueView::Array(es) => if !in_array {
            lemma_clean_unchanged(es, true, confirm, answers, base)
        },
        _ => {},
    }
}

/// Elements without stale text are rebuilt as they are, whatever the answers.
pub proof fn lemma_clean_unchanged(
    es: Seq<ElementView>,
    in_array: bool,
    confirm: bool,
    answers: Seq<bool>,
    base: int,
)
    requires
        stale_in(es, in_array) == 0,
    ensures
        rewritten(es, in_array, confirm, answers, base) == es,
    decreases es,
{
    if es.len() > 0 {
        lemma_clean_value_unchanged(es[0].value, in_array, confirm, answers, base);
        lemma_clean_unchanged(es.drop_first(), in_array, confirm, answers, base);
        assert(rewritten(es, in_array, confirm, answers, base) =~= es);
    }
}

/// A rebuilt value holds no stale text, whether repairs were accepted or not.
pub proof fn lemma_rewritten_value_is_clean(
    value: ValueView,
    in_array: bool,
    confirm: bool,
    answers: Seq<bool>,
    base: int,
)
    ensures
        stale_in_value(rewritten_value(value, in_array, confirm, answers, base), in_array) == 0,
    decreases value,
{
    match value {
        ValueView::Text(text) => {
            lemma_emitted_is_valid(text, accepted(confirm, answers, base));
        },
        ValueView::Document(es) => lemma_rewritten_is_clean(es, false, confirm, answers, base),
        ValueView::Array(es) => if !in_array {
            lemma_rewritten_is_clean(es, true, confirm, answers, base)
        },
        _ => {},
    }
}

/// Rebuilt elements hold no stale text: every text field that the walk meets
/// is well-formed afterwards, whether its repair was accepted or declined.
pub proof fn lemma_rewritten_is_clean(
    es: Seq<ElementView>,
    in_array: bool,
    confirm: bool,
    answers: Seq<bool>,
    base: int,
)
    ensures
        stale_in(rewritten(es, in_array, confirm, answers, base), in_array) == 0,
    decreases es,
{
    if es.len() > 0 {
        let out = rewritten(es, in_array, confirm, answers, base);
        let next = base + stale_in_value(es[0].value, in_array);
        let tail = rewritten(es.drop_first(), in_array, confirm, answers, next);
        lemma_rewritten_value_is_clean(es[0].value, in_array, confirm, answers, base);
        lemma_rewritten_is_clean(es.drop_first(), in_array, confirm, answers, next);
        assert(out.drop_first() =~= tail);
    }
}

/// Rewriting a second time changes nothing: the rebuilt elements are rebuilt as
/// they are, under any answers.
pub proof fn lemma_rewrite_idempotent(
    es: Seq<ElementView>,
    in_array: bool,
    confirm: bool,
    answers: Seq<bool>,
    base: int,
    confirm_again: bool,
    answers_again: Seq<bool>,
    base_again: int,
)
    ensures
        rewritten(
            rewritten(es, in_array, confirm, answers, base),
            in_array,
            confirm_again,
            answers_again,
            base_again,
        ) == rewritten(es, in_array, confirm, answers, base),
{
    lemma_rewritten_is_clean(es, in_array, confirm, answers, base);
    lemma_clean_unchanged(
        rewritten(es, in_array, confirm, answers, base),
        in_array,
        confirm_again,
        answers_again,
        base_again,
    );
}

/// `after` is `before` but for stale text: the same kind of value, with
/// everything the same that is not text that the walk meets and finds not
/// well-formed; in place of such text stands well-formed text.
pub open spec fn value_kept(before: ValueView, after: ValueView, in_array: bool) -> bool
    decreases before,
{
    match before {
        ValueView::Text(text) => if valid_utf8(text) {
            after == before
        } else {
            after matches ValueView::Text(new_text) && valid_utf8(new_text)
        },
        ValueView::Document(es) => after matches ValueView::Document(new_es) && kept(
            es,
            new_es,
            false,
        ),
        ValueView::Array(es) => if in_array {
            after == before
        } else {
            after matches ValueView::Array(new_es) && kept(es, new_es, true)
        },
        ValueView::Other { .. } => after == before,
    }
}

/// `after` holds the elements of `before` in their order under their keys, each
/// value kept but for stale text.
pub open spec fn kept(before: Seq<ElementView>, after: Seq<ElementView>, in_array: bool) -> bool
    decreases before,
{
    &&& after.len() == before.len()
    &&& forall|i: int|
        0 <= i < before.len() ==> (#[trigger] after[i]).key == before[i].key && value_kept(
            before[i].value,
            after[i].value,
            in_array,
        )
}

/// A rebuilt value is the old one but for stale text.
pub proof fn lemma_rewritten_value_kept(
    value: ValueView,
    in_array: bool,
    confirm: bool,
    answers: Seq<bool>,
    base: int,
)
    ensures
        value_kept(value, rewritten_value(value, in_array, confirm, answers, base), in_array),
    decreases value,
{
    match value {
        ValueView::Text(text) => {
            lemma_emitted_is_valid(text, accepted(confirm, answers, base));
        },
        ValueView::Document(es) => lemma_rewritten_kept(es, false, confirm, answers, base),
        ValueView::Array(es) => if !in_array {
            lemma_rewritten_kept(es, true, confirm, answers, base)
        },
        _ => {},
    }
}

/// Rebuilt elements are the old ones but for stale text: no element is dropped,
/// added or moved, no key changes, and no value changes that is not stale text.
pub proof fn lemma_rewritten_kept(
    es: Seq<ElementView>,
    in_array: bool,
    confirm: bool,
    answers: Seq<bool>,
    base: int,
)
    ensures
        kept(es, rewritten(es, in_array, confirm, answers, base), in_array),
    decreases es,
{
    if es.len() > 0 {
        let out = rewritten(es, in_array, confirm, answers, base);
        let rest = es.drop_first();
        let next = base + stale_in_value(es[0].value, in_array);
        let tail = rewritten(rest, in_array, confirm, answers, next);
        lemma_rewritten_value_kept(es[0].value, in_array, confirm, answers, base);
        lemma_rewritten_kept(rest, in_array, confirm, answers, next);
        assert forall|i: int| 0 <= i < es.len() implies (#[trigger] out[i]).key == es[i].key
            && value_kept(es[i].value, out[i].value, in_array) by {
            if i > 0 {
                let j = i - 1;
                assert(out[i] == tail[j]);
                assert(es[i] == rest[j]);
                assert(tail[j].key == rest[j].key && value_kept(
                    rest[j].value,
                    tail[j].value,
                    in_array,
                ));
            }
        }
    }
}

/// The stored bytes of the first stale text field of a value.
pub open spec fn first_stale_value(value: ValueView, in_array: bool) -> Seq<u8>
    decreases value,
{
    match value {
        ValueView::Text(text) => text,
        ValueView::Document(es) => first_stale(es, false),
        ValueView::Array(es) => first_stale(es, true),
        ValueView::Other { payload, .. } => payload,
    }
}

/// The stored bytes of the first stale text field of a run of elements.
pub open spec fn first_stale(es: Seq<ElementView>, in_array: bool) -> Seq<u8>
    decreases es,
{
    if es.len() == 0 {
        Seq::empty()
    } else if stale_in_value(es[0].value, in_array) > 0 {
        first_stale_value(es[0].value, in_array)
    } else {
        first_stale(es.drop_first(), in_array)
    }
}

/// `value` with `text` in place of its first stale text field, and nothing
/// else changed.
pub open spec fn value_with_first_stale(value: ValueView, in_array: bool, text: Seq<u8>) -> ValueView
    decreases value,
{
    match value {
        ValueView::Text(old_text) => if valid_utf8(old_text) {
            value
        } else {
            ValueView::Text(text)
        },
        ValueView::Document(es) => ValueView::Document(with_first_stale(es, false, text)),
        ValueView::Array(es) => if in_array {
            value
        } else {
            ValueView::Array(with_first_stale(es, true, text))
        },
        ValueView::Other { .. } => value,
    }
}

/// `es` with `text` in place of the first stale text field, and nothing else
/// changed.
pub open spec fn with_first_stale(es: Seq<ElementView>, in_array: bool, text: Seq<u8>) -> Seq<
    ElementView,
>
    decreases es,
{
    if es.len() == 0 {
        es
    } else if stale_in_value(es[0].value, in_array) > 0 {
        seq![
            ElementView {
                key: es[0].key,
                value: value_with_first_stale(es[0].value, in_array, text),
            },
        ] + es.drop_first()
    } else {
        seq![es[0]] + with_first_stale(es.drop_first(), in_array, text)
    }
}

/// A value with one stale text field is rebuilt with that field replaced and
/// nothing else changed.
pub proof fn lemma_single_stale_value(
    value: ValueView,
    in_array: bool,
    confirm: bool,
    answers: Seq<bool>,
    base: int,
)
    requires
        stale_in_value(value, in_array) == 1,
    ensures
        rewritten_value(value, in_array, confirm, answers, base) == value_with_first_stale(
            value,
            in_array,
            emitted(first_stale_value(value, in_array), accepted(confirm, answers, base)),
        ),
    decreases value,
{
    match value {
        ValueView::Document(es) => lemma_single_stale(es, false, confirm, answers, base),
        ValueView::Array(es) => if !in_array {
            lemma_single_stale(es, true, confirm, answers, base)
        },
        _ => {},
    }
}

/// Where the walk meets exactly one stale text field, at whatever depth, the
/// rebuilt elements are the old ones with the value of that field replaced:
/// every other key and value, and the order, are as they were.
pub proof fn lemma_single_stale(
    es: Seq<ElementView>,
    in_array: bool,
    confirm: bool,
    answers: Seq<bool>,
    base: int,
)
    requires
        stale_in(es, in_array) == 1,
    ensures
        rewritten(es, in_array, confirm, answers, base) == with_first_stale(
            es,
            in_array,
            emitted(first_stale(es, in_array), accepted(confirm, answers, base)),
        ),
    decreases es,
{
    let rest = es.drop_first();
    let text = emitted(first_stale(es, in_array), accepted(confirm, answers, base));
    if stale_in_value(es[0].value, in_array) > 0 {
        lemma_single_stale_value(es[0].value, in_array, confirm, answers, base);
        lemma_clean_unchanged(rest, in_array, confirm, answers, base + 1);
        assert(rewritten(es, in_array, confirm, answers, base) =~= with_first_stale(
            es,
            in_array,
            text,
        ));
    } else {
        lemma_clean_value_unchanged(es[0].value, in_array, confirm, answers, base);
        lemma_single_stale(rest, in_array, confirm, answers, base);
        assert(rewritten(es, in_array, confirm, answers, base) =~= with_first_stale(
            es,
            in_array,
            text,
        ));
    }
}

} // verus!
