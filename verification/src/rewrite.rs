//! The rewriter: a document is rebuilt element by element, and only text that is
//! not well-formed is replaced.
use vstd::prelude::*;
use vstd::utf8::valid_utf8;
use crate::document::{
    copy_elements, lemma_views_push, views, well_formed, well_formed_value, Document,
    Element, ElementView, Value, ValueView,
};
use crate::text::{emitted, is_valid_text, lossy, repair, text_bytes};
use crate::wire::{copy_bytes, nul_free};

verus! {

/// Whether the repair of the stale field number `k`, counted from zero in the
/// order of the walk, is accepted. Without confirmation every repair is; with
/// it, the one that was answered with yes.
pub open spec fn accepted(confirm: bool, answers: Seq<bool>, k: int) -> bool {
    !confirm || (0 <= k < answers.len() && answers[k])
}

/// Whether a repair is accepted among the stale fields from number `from` up to,
/// not including, number `to`.
pub open spec fn any_accepted(confirm: bool, answers: Seq<bool>, from: int, to: int) -> bool {
    exists|k: int| from <= k < to && accepted(confirm, answers, k)
}

/// The number of stale fields that the walk meets in a value: text that is not
/// well-formed. The walk enters documents, and arrays that are not themselves
/// items of an array.
pub open spec fn stale_in_value(value: ValueView, in_array: bool) -> nat
    decreases value,
{
    match value {
        ValueView::Text(text) => if valid_utf8(text) {
            0
        } else {
            1
        },
        ValueView::Document(es) => stale_in(es, false),
        ValueView::Array(es) => if in_array {
            0
        } else {
            stale_in(es, true)
        },
        ValueView::Other { .. } => 0,
    }
}

/// The number of stale fields that the walk meets in a run of elements.
pub open spec fn stale_in(es: Seq<ElementView>, in_array: bool) -> nat
    decreases es,
{
    if es.len() == 0 {
        0
    } else {
        stale_in_value(es[0].value, in_array) + stale_in(es.drop_first(), in_array)
    }
}

/// The value that the rewriter builds in place of `value`, whose first stale
/// field has number `base`.
pub open spec fn rewritten_value(
    value: ValueView,
    in_array: bool,
    confirm: bool,
    answers: Seq<bool>,
    base: int,
) -> ValueView
    decreases value,
{
    match value {
        ValueView::Text(text) => if valid_utf8(text) {
            value
        } else {
            ValueView::Text(emitted(text, accepted(confirm, answers, base)))
        },
        ValueView::Document(es) => ValueView::Document(
            rewritten(es, false, confirm, answers, base),
        ),
        ValueView::Array(es) => if in_array {
            value
        } else {
            ValueView::Array(rewritten(es, true, confirm, answers, base))
        },
        ValueView::Other { .. } => value,
    }
}

/// The elements that the rewriter builds in place of `es`: as many, in the same
/// order, under the same keys.
pub open spec fn rewritten(
    es: Seq<ElementView>,
    in_array: bool,
    confirm: bool,
    answers: Seq<bool>,
    base: int,
) -> Seq<ElementView>
    decreases es,
{
    if es.len() == 0 {
        es
    } else {
        seq![
            ElementView {
                key: es[0].key,
                value: rewritten_value(es[0].value, in_array, confirm, answers, base),
            },
        ] + rewritten(
            es.drop_first(),
            in_array,
            confirm,
            answers,
            base + stale_in_value(es[0].value, in_array),
        )
    }
}

/// The smaller of a field number and the number of answers.
pub open spec fn capped(k: int, len: int) -> int {
    if k < len {
        k
    } else {
        len
    }
}

/// Unfolds the count of a run by its first element.
pub proof fn lemma_stale_in_skip(es: Seq<ElementView>, in_array: bool, i: int)
    requires
        0 <= i < es.len(),
    ensures
        stale_in(es.skip(i), in_array) == stale_in_value(es[i].value, in_array) + stale_in(
            es.skip(i + 1),
            in_array,
        ),
{
    assert(es.skip(i).drop_first() =~= es.skip(i + 1));
}

/// Unfolds the rewriting of a run by its first element.
pub proof fn lemma_rewritten_skip(
    es: Seq<ElementView>,
    in_array: bool,
    confirm: bool,
    answers: Seq<bool>,
    base: int,
    i: int,
)
    requires
        0 <= i < es.len(),
    ensures
        rewritten(es.skip(i), in_array, confirm, answers, base) == seq![
            ElementView {
                key: es[i].key,
                value: rewritten_value(es[i].value, in_array, confirm, answers, base),
            },
        ] + rewritten(
            es.skip(i + 1),
            in_array,
            confirm,
            answers,
            base + stale_in_value(es[i].value, in_array),
        ),
{
    assert(es.skip(i).drop_first() =~= es.skip(i + 1));
}

/// Rebuilds one value.
fn rewrite_value(
    value: &Value,
    in_array: bool,
    confirm: bool,
    answers: &Vec<bool>,
    next: &mut usize,
    changed: &mut bool,
    Ghost(base): Ghost<int>,
) -> (out: Value)
    requires
        0 <= base,
        *old(next) == capped(base, answers.len() as int),
    ensures
        out@ == rewritten_value(value@, in_array, confirm, answers@, base),
        *final(next) == capped(base + stale_in_value(value@, in_array), answers.len() as int),
        *final(changed) == (*old(changed) || any_accepted(
            confirm,
            answers@,
            base,
            base + stale_in_value(value@, in_array),
        )),
    decreases value,
{
    match value {
        Value::Text(text) => {
            if is_valid_text(text.as_slice()) {
                Value::Text(copy_bytes(text.as_slice()))
            } else {
                let asked: bool = *next < answers.len();
                let accept: bool = !confirm || (asked && answers[*next]);
                if asked {
                    *next = *next + 1;
                }
                let replacement: String = if accept {
                    repair(text.as_slice())
                } else {
                    lossy(text.as_slice())
                };
                if accept {
                    *changed = true;
                }
                assert(accept == accepted(confirm, answers@, base));
                assert(any_accepted(confirm, answers@, base, base + 1) == accept);
                Value::Text(text_bytes(&replacement))
            }
        },
        Value::Document(es) => Value::Document(
            rewrite_elements(es, false, confirm, answers, next, changed, Ghost(base)),
        ),
        Value::Array(es) => if in_array {
            Value::Array(copy_elements(es))
        } else {
            Value::Array(rewrite_elements(es, true, confirm, answers, next, changed, Ghost(base)))
        },
        Value::Other { tag, payload } => Value::Other {
            tag: *tag,
            payload: copy_bytes(payload.as_slice()),
        },
    }
}

/// Rebuilds a run of elements in order.
fn rewrite_elements(
    es: &Vec<Element>,
    in_array: bool,
    confirm: bool,
    answers: &Vec<bool>,
    next: &mut usize,
    changed: &mut bool,
    Ghost(base): Ghost<int>,
) -> (out: Vec<Element>)
    requires
        0 <= base,
        *old(next) == capped(base, answers.len() as int),
    ensures
        views(out@) == rewritten(views(es@), in_array, confirm, answers@, base),
        *final(next) == capped(base + stale_in(views(es@), in_array), answers.len() as int),
        *final(changed) == (*old(changed) || any_accepted(
            confirm,
            answers@,
            base,
            base + stale_in(views(es@), in_array),
        )),
    decreases es,
{
    let ghost all = views(es@);
    let ghost seen: int = 0;
    let mut out: Vec<Element> = Vec::new();
    let mut i: usize = 0;
    proof {
        assert(all.skip(0) =~= all);
        assert(views(out@) =~= Seq::<ElementView>::empty());
        assert(views(out@) + rewritten(all, in_array, confirm, answers@, base) =~= rewritten(
            all,
            in_array,
            confirm,
            answers@,
            base,
        ));
    }
    while i < es.len()
        invariant
            i <= es.len(),
            all == views(es@),
            0 <= base,
            0 <= seen,
            seen + stale_in(all.skip(i as int), in_array) == stale_in(all, in_array),
            *next == capped(base + seen, answers.len() as int),
            *changed == (*old(changed) || any_accepted(confirm, answers@, base, base + seen)),
            views(out@) + rewritten(all.skip(i as int), in_array, confirm, answers@, base + seen)
                == rewritten(all, in_array, confirm, answers@, base),
        decreases es.len() - i,
    {
        let ghost here = base + seen;
        let ghost count = stale_in_value(all[i as int].value, in_array) as int;
        proof {
            lemma_stale_in_skip(all, in_array, i as int);
            lemma_rewritten_skip(all, in_array, confirm, answers@, here, i as int);
            assert(all[i as int] == es@[i as int]@);
        }
        let ghost before = views(out@);
        let value = rewrite_value(
            &es[i].value,
            in_array,
            confirm,
            answers,
            next,
            changed,
            Ghost(here),
        );
        let element = Element { key: copy_bytes(es[i].key.as_slice()), value };
        proof {
            lemma_views_push(out@, element);
            let rest = rewritten(
                all.skip(i + 1),
                in_array,
                confirm,
                answers@,
                here + count,
            );
            assert(before + (seq![element@] + rest) =~= before.push(element@) + rest);
            assert(any_accepted(confirm, answers@, base, here + count) == (any_accepted(
                confirm,
                answers@,
                base,
                here,
            ) || any_accepted(confirm, answers@, here, here + count)));
        }
        out.push(element);
        proof {
            seen = seen + count;
        }
        i = i + 1;
    }
    proof {
        assert(all.skip(i as int) =~= Seq::<ElementView>::empty());
        assert(views(out@) + Seq::<ElementView>::empty() =~= views(out@));
    }
    out
}

/// Rebuilds `document`. Every element is copied as it is, but for text that is
/// not well-formed: it is replaced by its repair where that is accepted, and by
/// the stored bytes read leniently where it is not. Without `confirm` every
/// repair is accepted; with it, the repair of the stale field number `k` is
/// accepted where `answers[k]` says yes, and declined where it says no or
/// there is no such answer. The flag tells whether any repair was accepted.
pub fn rewrite(document: &Document, confirm: bool, answers: &Vec<bool>) -> (out: (Document, bool))
    ensures
        out.0@ == rewritten(document@, false, confirm, answers@, 0),
        out.1 == any_accepted(confirm, answers@, 0, stale_in(document@, false) as int),
        document.wf() ==> out.0.wf(),
{
    let mut next: usize = 0;
    let mut changed: bool = false;
    let elements = rewrite_elements(
        &document.elements,
        false,
        confirm,
        answers,
        &mut next,
        &mut changed,
        Ghost(0),
    );
    proof {
        if document.wf() {
            lemma_rewritten_well_formed(document@, false, confirm, answers@, 0);
        }
    }
    (Document { elements }, changed)
}

/// Rewriting keeps a well-formed value well-formed.
pub proof fn lemma_rewritten_value_well_formed(
    value: ValueView,
    in_array: bool,
    confirm: bool,
    answers: Seq<bool>,
    base: int,
)
    requires
        well_formed_value(value),
    ensures
        well_formed_value(rewritten_value(value, in_array, confirm, answers, base)),
    decreases value,
{
    match value {
        ValueView::Document(es) => lemma_rewritten_well_formed(es, false, confirm, answers, base),
        ValueView::Array(es) => if !in_array {
            lemma_rewritten_well_formed(es, true, confirm, answers, base)
        },
        _ => {},
    }
}

/// Rewriting keeps well-formed elements well-formed.
pub proof fn lemma_rewritten_well_formed(
    es: Seq<ElementView>,
    in_array: bool,
    confirm: bool,
    answers: Seq<bool>,
    base: int,
)
    requires
        well_formed(es),
    ensures
        well_formed(rewritten(es, in_array, confirm, answers, base)),
        rewritten(es, in_array, confirm, answers, base).len() == es.len(),
    decreases es,
{
    if es.len() > 0 {
        let out = rewritten(es, in_array, confirm, answers, base);
        let rest = es.drop_first();
        let next = base + stale_in_value(es[0].value, in_array);
        assert(nul_free(es[0].key) && well_formed_value(es[0].value));
        assert(well_formed(rest)) by {
            assert forall|i: int| 0 <= i < rest.len() implies nul_free(#[trigger] rest[i].key)
                && well_formed_value(rest[i].value) by {
                assert(rest[i] == es[i + 1]);
            }
        }
        lemma_rewritten_value_well_formed(es[0].value, in_array, confirm, answers, base);
        lemma_rewritten_well_formed(rest, in_array, confirm, answers, next);
        let tail = rewritten(rest, in_array, confirm, answers, next);
        assert forall|i: int| 0 <= i < out.len() implies nul_free(#[trigger] out[i].key)
            && well_formed_value(out[i].value) by {
            if i > 0 {
                assert(out[i] == tail[i - 1]);
                let j = i - 1;
                assert(nul_free(tail[j].key) && well_formed_value(tail[j].value));
            }
        }
    }
}

} // verus!
