//! Reading a document out of its bytes, and why that undoes the encoding.
use vstd::prelude::*;
use crate::document::{
    element_encoding, elements_encoding, encoding, lemma_views_push, storable, tag_of,
    value_encoding, views, well_formed, well_formed_value, Document, Element, ElementView, Value,
    ValueView,
};
use crate::error::Error;
use crate::layout::{
    element_extent, lemma_value_extent_local, locate, payload_in_bounds, scan_element,
    value_extent, RawElement, TAG_ARRAY, TAG_DOCUMENT, TAG_TEXT,
};
use crate::wire::{
    copy_range, cstring_at, le32, le32_value, lemma_cstring_unique, lemma_le32_of_le32_value,
    lemma_le32_value_prefix, nul_free, read_le32, MAX_LEN,
};

verus! {

/// The value with `tag` whose bytes are exactly `body`.
pub open spec fn parse_payload(tag: u8, body: Seq<u8>) -> Option<ValueView>
    decreases body.len(), 0int,
{
    if tag == TAG_TEXT {
        if body.len() >= 5 && body.last() == 0 {
            Some(ValueView::Text(body.subrange(4, body.len() - 1)))
        } else {
            None
        }
    } else if tag == TAG_DOCUMENT || tag == TAG_ARRAY {
        if body.len() >= 5 && body.last() == 0 {
            match parse_elements(body.subrange(4, body.len() - 1)) {
                Some(es) => Some(
                    if tag == TAG_DOCUMENT {
                        ValueView::Document(es)
                    } else {
                        ValueView::Array(es)
                    },
                ),
                None => None,
            }
        } else {
            None
        }
    } else {
        Some(ValueView::Other { tag, payload: body })
    }
}

/// The element that starts `s`, and the number of bytes it takes.
pub open spec fn parse_element(s: Seq<u8>) -> Option<(ElementView, int)>
    decreases s.len(), 1int,
{
    match element_extent(s) {
        Some((key_len, n)) => if 0 <= key_len && 0 <= n && key_len + 2 + n <= s.len() {
            match parse_payload(s[0], s.subrange(key_len + 2, key_len + 2 + n)) {
                Some(value) => Some(
                    (ElementView { key: s.subrange(1, 1 + key_len), value }, key_len + 2 + n),
                ),
                None => None,
            }
        } else {
            None
        },
        None => None,
    }
}

/// The elements that fill `s` from its first byte to its last.
pub open spec fn parse_elements(s: Seq<u8>) -> Option<Seq<ElementView>>
    decreases s.len(), 2int,
{
    if s.len() == 0 {
        Some(Seq::empty())
    } else {
        match parse_element(s) {
            Some((element, used)) => if 0 < used <= s.len() {
                match parse_elements(s.skip(used)) {
                    Some(rest) => Some(seq![element] + rest),
                    None => None,
                }
            } else {
                None
            },
            None => None,
        }
    }
}

/// The document that `bytes` hold: they declare their own length, end with a
/// terminator, and elements fill what lies between.
pub open spec fn decoded(bytes: Seq<u8>) -> Option<Seq<ElementView>> {
    if value_extent(TAG_DOCUMENT, bytes) == Some(bytes.len() as int) {
        match parse_payload(TAG_DOCUMENT, bytes) {
            Some(ValueView::Document(es)) => Some(es),
            _ => None,
        }
    } else {
        None
    }
}

/// The bytes start with a length field that counts all of them.
pub open spec fn declares_own_length(bytes: Seq<u8>) -> bool {
    bytes.len() >= 4 && le32_value(bytes) == bytes.len()
}

/// What `parse_payload` reads is well-formed, carries the tag it was read
/// under, and is encoded by the bytes it was read from.
pub proof fn lemma_parse_payload_sound(tag: u8, body: Seq<u8>)
    requires
        value_extent(tag, body) == Some(body.len() as int),
        parse_payload(tag, body) is Some,
    ensures
        tag_of(parse_payload(tag, body)->0) == tag,
        well_formed_value(parse_payload(tag, body)->0),
        value_encoding(parse_payload(tag, body)->0) == body,
    decreases body.len(), 0int,
{
    let value = parse_payload(tag, body)->0;
    if tag == TAG_TEXT {
        lemma_le32_of_le32_value(body);
        assert(value_encoding(value) =~= body);
    } else if tag == TAG_DOCUMENT || tag == TAG_ARRAY {
        let inner = body.subrange(4, body.len() - 1);
        lemma_parse_elements_sound(inner);
        lemma_le32_of_le32_value(body);
        assert(value_encoding(value) =~= body);
    } else {
    }
}

/// What `parse_elements` reads is well-formed and is encoded by the bytes it was
/// read from.
pub proof fn lemma_parse_elements_sound(s: Seq<u8>)
    requires
        parse_elements(s) is Some,
    ensures
        well_formed(parse_elements(s)->0),
        elements_encoding(parse_elements(s)->0) == s,
    decreases s.len(), 2int,
{
    let es = parse_elements(s)->0;
    if s.len() == 0 {
        assert(elements_encoding(es) =~= s);
    } else {
        let (element, used) = parse_element(s)->0;
        let (key_len, n) = element_extent(s)->0;
        let rest = parse_elements(s.skip(used))->0;
        let body = s.subrange(key_len + 2, key_len + 2 + n);
        let tail = s.skip(1);
        assert(cstring_at(tail, key_len));
        assert(nul_free(element.key)) by {
            assert forall|i: int| 0 <= i < element.key.len() implies element.key[i] != 0 by {
                assert(element.key[i] == tail[i]);
            }
        }
        assert(tail[key_len] == s[key_len + 1]);
        let v = s.skip(key_len + 2);
        assert(v.subrange(0, n) =~= body);
        assert(body.subrange(0, n) =~= body);
        lemma_value_extent_local(s[0], v, body);
        lemma_parse_payload_sound(s[0], body);
        assert(element_encoding(element) =~= s.subrange(0, used));
        lemma_parse_elements_sound(s.skip(used));
        assert(es == seq![element] + rest);
        assert(es[0] == element);
        assert(es.drop_first() =~= rest);
        assert(elements_encoding(es) =~= s.subrange(0, used) + s.skip(used));
        assert(s.subrange(0, used) + s.skip(used) =~= s);
        assert forall|i: int| 0 <= i < es.len() implies nul_free(#[trigger] es[i].key)
            && well_formed_value(es[i].value) by {
            if i > 0 {
                assert(es[i] == rest[i - 1]);
            }
        }
    }
}

/// A well-formed value is read back from its encoding, whatever follows it.
pub proof fn lemma_parse_encoded_value(value: ValueView, tail: Seq<u8>)
    requires
        well_formed_value(value),
        value_encoding(value).len() <= MAX_LEN,
    ensures
        value_extent(tag_of(value), value_encoding(value) + tail) == Some(
            value_encoding(value).len() as int,
        ),
        parse_payload(tag_of(value), value_encoding(value)) == Some(value),
    decreases value,
{
    let body = value_encoding(value);
    let tag = tag_of(value);
    match value {
        ValueView::Text(text) => {
            let n = text.len() as int + 1;
            assert(body + tail =~= le32(n) + (text + seq![0u8] + tail));
            lemma_le32_value_prefix(n, text + seq![0u8] + tail);
            assert(body.subrange(4, body.len() - 1) =~= text);
        },
        ValueView::Document(es) => {
            let inner = elements_encoding(es);
            let n = inner.len() as int + 5;
            assert(body + tail =~= le32(n) + (inner + seq![0u8] + tail));
            lemma_le32_value_prefix(n, inner + seq![0u8] + tail);
            assert(body.subrange(4, body.len() - 1) =~= inner);
            lemma_parse_encoded_elements(es);
        },
        ValueView::Array(es) => {
            let inner = elements_encoding(es);
            let n = inner.len() as int + 5;
            assert(body + tail =~= le32(n) + (inner + seq![0u8] + tail));
            lemma_le32_value_prefix(n, inner + seq![0u8] + tail);
            assert(body.subrange(4, body.len() - 1) =~= inner);
            lemma_parse_encoded_elements(es);
        },
        ValueView::Other { tag, payload } => {
            let w = payload + tail;
            assert(w.subrange(0, payload.len() as int) =~= payload);
            assert(payload.subrange(0, payload.len() as int) =~= payload);
            lemma_value_extent_local(tag, payload, w);
        },
    }
}

/// Well-formed elements are read back from their encoding.
pub proof fn lemma_parse_encoded_elements(es: Seq<ElementView>)
    requires
        well_formed(es),
        elements_encoding(es).len() <= MAX_LEN,
    ensures
        parse_elements(elements_encoding(es)) == Some(es),
    decreases es,
{
    let s = elements_encoding(es);
    if es.len() == 0 {
        assert(es =~= Seq::<ElementView>::empty());
    } else {
        let element = es[0];
        let rest = es.drop_first();
        let key_len = element.key.len() as int;
        let head = element_encoding(element);
        let after = elements_encoding(rest);
        let body = value_encoding(element.value);
        assert(s == head + after);
        assert(nul_free(element.key) && well_formed_value(element.value));
        let tail = s.skip(1);
        assert(cstring_at(tail, key_len)) by {
            assert(tail[key_len] == 0);
            assert forall|i: int| 0 <= i < key_len implies tail[i] != 0 by {
                assert(tail[i] == element.key[i]);
            }
        }
        lemma_cstring_unique(tail, key_len);
        assert(s.skip(key_len + 2) =~= body + after);
        lemma_parse_encoded_value(element.value, after);
        let n = body.len() as int;
        assert(element_extent(s) == Some((key_len, n)));
        assert(s.subrange(key_len + 2, key_len + 2 + n) =~= body);
        assert(s.subrange(1, 1 + key_len) =~= element.key);
        assert(s[0] == tag_of(element.value));
        let used = key_len + 2 + n;
        assert(parse_element(s) == Some((element, used)));
        assert(s.skip(used) =~= after);
        assert(well_formed(rest)) by {
            assert forall|i: int| 0 <= i < rest.len() implies nul_free(#[trigger] rest[i].key)
                && well_formed_value(rest[i].value) by {
                assert(rest[i] == es[i + 1]);
            }
        }
        lemma_parse_encoded_elements(rest);
        assert(seq![element] + rest =~= es);
    }
}

/// A storable document is the one that its encoding holds.
pub proof fn lemma_decoded_encoding(es: Seq<ElementView>)
    requires
        storable(es),
    ensures
        decoded(encoding(es)) == Some(es),
{
    lemma_parse_encoded_value(ValueView::Document(es), Seq::empty());
    assert(encoding(es) + Seq::<u8>::empty() =~= encoding(es));
}

/// What bytes hold is a storable document, and they are its encoding.
pub proof fn lemma_encoding_decoded(bytes: Seq<u8>)
    requires
        decoded(bytes) is Some,
    ensures
        storable(decoded(bytes)->0),
        encoding(decoded(bytes)->0) == bytes,
{
    lemma_parse_payload_sound(TAG_DOCUMENT, bytes);
}

/// Two storable documents with the same encoding are the same document.
pub proof fn lemma_encoding_injective(a: Seq<ElementView>, b: Seq<ElementView>)
    requires
        storable(a),
        storable(b),
        encoding(a) == encoding(b),
    ensures
        a == b,
{
    lemma_decoded_encoding(a);
    lemma_decoded_encoding(b);
}

/// Puts what was read so far before what the rest of a region holds.
pub open spec fn read_then(done: Seq<ElementView>, rest: Option<Seq<ElementView>>) -> Option<
    Seq<ElementView>,
> {
    match rest {
        Some(more) => Some(done + more),
        None => None,
    }
}

/// Reads the value of `element` out of `bytes`.
fn parse_value_at(bytes: &[u8], element: &RawElement) -> (out: Result<Value, Error>)
    requires
        element.key_len + 2 <= element.encoded_len,
        element.end() <= bytes.len(),
        value_extent(
            element.tag,
            bytes@.subrange(element.value_start(), element.end()),
        ) == Some(element.encoded_len - element.key_len - 2),
    ensures
        match out {
            Ok(value) => parse_payload(
                element.tag,
                bytes@.subrange(element.value_start(), element.end()),
            ) == Some(value@),
            Err(e) => e == Error::Malformed && parse_payload(
                element.tag,
                bytes@.subrange(element.value_start(), element.end()),
            ) is None,
        },
    decreases element.encoded_len, 0int,
{
    let tag: u8 = element.tag;
    let from: usize = element.offset + element.key_len + 2;
    let to: usize = element.offset + element.encoded_len;
    let ghost body = bytes@.subrange(from as int, to as int);
    if tag == TAG_TEXT || tag == TAG_DOCUMENT || tag == TAG_ARRAY {
        assert(body.len() >= 5);
        let span = match locate(bytes, element) {
            Ok(span) => span,
            Err(e) => {
                assert(payload_in_bounds(bytes.len() as int, *element));
                return Err(e);
            },
        };
        let end: usize = span.start + span.len;
        assert(body.last() == bytes@[end as int]);
        if bytes[end] != 0 {
            return Err(Error::Malformed);
        }
        assert(body.subrange(4, body.len() - 1) =~= bytes@.subrange(
            span.start as int,
            end as int,
        ));
        if tag == TAG_TEXT {
            Ok(Value::Text(copy_range(bytes, span.start, end)))
        } else {
            match parse_region(bytes, span.start, end) {
                Ok(es) => if tag == TAG_DOCUMENT {
                    Ok(Value::Document(es))
                } else {
                    Ok(Value::Array(es))
                },
                Err(e) => Err(e),
            }
        }
    } else {
        Ok(Value::Other { tag, payload: copy_range(bytes, from, to) })
    }
}

/// Reads the elements that fill `bytes[start..end]`.
fn parse_region(bytes: &[u8], start: usize, end: usize) -> (out: Result<Vec<Element>, Error>)
    requires
        start <= end <= bytes.len(),
    ensures
        match out {
            Ok(es) => parse_elements(bytes@.subrange(start as int, end as int)) == Some(
                views(es@),
            ),
            Err(e) => e == Error::Malformed && parse_elements(
                bytes@.subrange(start as int, end as int),
            ) is None,
        },
    decreases end - start, 1int,
{
    let ghost region = bytes@.subrange(start as int, end as int);
    let mut es: Vec<Element> = Vec::new();
    let mut at: usize = start;
    assert(views(es@) + Seq::<ElementView>::empty() =~= Seq::<ElementView>::empty());
    assert(views(es@) =~= Seq::<ElementView>::empty());
    while at < end
        invariant
            start <= at <= end <= bytes.len(),
            region == bytes@.subrange(start as int, end as int),
            parse_elements(region) == read_then(
                views(es@),
                parse_elements(bytes@.subrange(at as int, end as int)),
            ),
        decreases end - at,
    {
        let ghost s = bytes@.subrange(at as int, end as int);
        let raw = match scan_element(bytes, at, end) {
            Ok(raw) => raw,
            Err(e) => {
                return Err(e);
            },
        };
        let ghost n = raw.encoded_len - raw.key_len - 2;
        proof {
            let v = s.skip(raw.key_len + 2);
            let body = bytes@.subrange(raw.value_start(), raw.end());
            assert(v.subrange(0, n) =~= body);
            assert(body.subrange(0, n) =~= body);
            lemma_value_extent_local(raw.tag, v, body);
            assert(s.subrange(raw.key_len + 2, raw.key_len + 2 + n) =~= body);
        }
        let value = match parse_value_at(bytes, &raw) {
            Ok(value) => value,
            Err(e) => {
                return Err(e);
            },
        };
        let key: Vec<u8> = copy_range(bytes, at + 1, at + 1 + raw.key_len);
        let element = Element { key, value };
        proof {
            assert(s.subrange(1, 1 + raw.key_len) =~= element.key@);
            assert(parse_element(s) == Some((element@, raw.encoded_len as int)));
            assert(s.skip(raw.encoded_len as int) =~= bytes@.subrange(
                at + raw.encoded_len,
                end as int,
            ));
            lemma_views_push(es@, element);
            let after = parse_elements(bytes@.subrange(at + raw.encoded_len, end as int));
            if after is Some {
                assert(views(es@) + (seq![element@] + after->0) =~= views(es@).push(element@)
                    + after->0);
            }
        }
        es.push(element);
        at = at + raw.encoded_len;
    }
    proof {
        assert(bytes@.subrange(at as int, end as int) =~= Seq::<u8>::empty());
        assert(views(es@) + Seq::<ElementView>::empty() =~= views(es@));
    }
    Ok(es)
}

/// Reads a document out of its bytes. Succeeds exactly on the encodings of
/// storable documents, and gives the document that was encoded.
pub fn parse(bytes: &[u8]) -> (out: Result<Document, Error>)
    ensures
        match out {
            Ok(document) => storable(document@) && encoding(document@) == bytes@,
            Err(e) => {
                &&& forall|es: Seq<ElementView>| storable(es) ==> encoding(es) != bytes@
                &&& e == if declares_own_length(bytes@) {
                    Error::Malformed
                } else {
                    Error::LengthMismatch
                }
            },
        },
        out is Ok <==> decoded(bytes@) is Some,
        out matches Ok(document) ==> decoded(bytes@) == Some(document@),
{
    proof {
        if decoded(bytes@) is Some {
            lemma_encoding_decoded(bytes@);
        }
        assert forall|es: Seq<ElementView>| storable(es) && encoding(es) == bytes@ implies decoded(
            bytes@,
        ) == Some(es) by {
            lemma_decoded_encoding(es);
        }
    }
    let size: usize = bytes.len();
    if size < 4 {
        return Err(Error::LengthMismatch);
    }
    let declared: u32 = read_le32(bytes, 0);
    assert(bytes@.skip(0) =~= bytes@);
    if declared as usize != size {
        return Err(Error::LengthMismatch);
    }
    if size < 5 || size > MAX_LEN || bytes[size - 1] != 0 {
        return Err(Error::Malformed);
    }
    assert(bytes@.last() == bytes@[size - 1]);
    match parse_region(bytes, 4, size - 1) {
        Ok(elements) => Ok(Document { elements }),
        Err(e) => Err(e),
    }
}

} // verus!
