//! Documents as ordered sequences of elements, and their byte encoding.
use vstd::prelude::*;
use crate::error::Error;
use crate::layout::{value_extent, TAG_ARRAY, TAG_DOCUMENT, TAG_TEXT};
use crate::wire::{copy_bytes, le32, nul_free, push_bytes, push_le32, MAX_LEN};

verus! {

/// A value of a document. Text is held as the bytes that were stored, which need
/// not be well-formed text. Kinds that are neither text, document nor array are
/// held as their tag and the bytes of the whole value.
#[derive(Debug, PartialEq, Eq)]
pub enum Value {
    Text(Vec<u8>),
    Document(Vec<Element>),
    Array(Vec<Element>),
    Other { tag: u8, payload: Vec<u8> },
}

/// One key with its value.
#[derive(Debug, PartialEq, Eq)]
pub struct Element {
    pub key: Vec<u8>,
    pub value: Value,
}

/// A record: its elements in stored order.
#[derive(Debug, PartialEq, Eq)]
pub struct Document {
    pub elements: Vec<Element>,
}

/// What a `Value` stands for.
pub enum ValueView {
    Text(Seq<u8>),
    Document(Seq<ElementView>),
    Array(Seq<ElementView>),
    Other { tag: u8, payload: Seq<u8> },
}

/// What an `Element` stands for.
pub struct ElementView {
    pub key: Seq<u8>,
    pub value: ValueView,
}

/// The elements that `es` stand for, in order.
pub open spec fn views(es: Seq<Element>) -> Seq<ElementView>
    decreases es,
{
    Seq::new(
        es.len(),
        |i: int|
            if 0 <= i < es.len() {
                es[i]@
            } else {
                arbitrary()
            },
    )
}

impl View for Value {
    type V = ValueView;

    open spec fn view(&self) -> ValueView
        decreases self,
    {
        match self {
            Value::Text(text) => ValueView::Text(text@),
            Value::Document(es) => ValueView::Document(views(es@)),
            Value::Array(es) => ValueView::Array(views(es@)),
            Value::Other { tag, payload } => ValueView::Other { tag: *tag, payload: payload@ },
        }
    }
}

impl View for Element {
    type V = ElementView;

    open spec fn view(&self) -> ElementView
        decreases self,
    {
        ElementView { key: self.key@, value: self.value@ }
    }
}

impl View for Document {
    type V = Seq<ElementView>;

    open spec fn view(&self) -> Seq<ElementView> {
        views(self.elements@)
    }
}

/// Pushing an element onto a vector pushes what it stands for.
pub proof fn lemma_views_push(es: Seq<Element>, e: Element)
    ensures
        views(es.push(e)) == views(es).push(e@),
{
    assert(views(es.push(e)) =~= views(es).push(e@));
}

/// The type tag under which a value is stored.
pub open spec fn tag_of(value: ValueView) -> u8 {
    match value {
        ValueView::Text(_) => TAG_TEXT,
        ValueView::Document(_) => TAG_DOCUMENT,
        ValueView::Array(_) => TAG_ARRAY,
        ValueView::Other { tag, .. } => tag,
    }
}

/// The bytes of a value: for text a count, the bytes and a terminator; for a
/// document or an array the encoding of a document; else the payload as it is.
pub open spec fn value_encoding(value: ValueView) -> Seq<u8>
    decreases value,
{
    match value {
        ValueView::Text(text) => le32(text.len() as int + 1) + text + seq![0u8],
        ValueView::Document(es) => le32(elements_encoding(es).len() as int + 5) + elements_encoding(
            es,
        ) + seq![0u8],
        ValueView::Array(es) => le32(elements_encoding(es).len() as int + 5) + elements_encoding(
            es,
        ) + seq![0u8],
        ValueView::Other { payload, .. } => payload,
    }
}

/// The bytes of an element: its tag, its key, a terminator and its value.
pub open spec fn element_encoding(element: ElementView) -> Seq<u8>
    decreases element,
{
    seq![tag_of(element.value)] + element.key + seq![0u8] + value_encoding(element.value)
}

/// The bytes of a run of elements, one after the other.
pub open spec fn elements_encoding(es: Seq<ElementView>) -> Seq<u8>
    decreases es,
{
    if es.len() == 0 {
        Seq::empty()
    } else {
        element_encoding(es[0]) + elements_encoding(es.drop_first())
    }
}

/// The bytes of a whole document: its length, its elements and a terminator.
pub open spec fn encoding(es: Seq<ElementView>) -> Seq<u8> {
    value_encoding(ValueView::Document(es))
}

/// A value that reads back as itself: a payload held as it is carries a tag of
/// that kind and has the size that its tag and its first bytes declare.
pub open spec fn well_formed_value(value: ValueView) -> bool
    decreases value,
{
    match value {
        ValueView::Text(_) => true,
        ValueView::Document(es) => well_formed(es),
        ValueView::Array(es) => well_formed(es),
        ValueView::Other { tag, payload } => {
            &&& tag != TAG_TEXT
            &&& tag != TAG_DOCUMENT
            &&& tag != TAG_ARRAY
            &&& value_extent(tag, payload) == Some(payload.len() as int)
        },
    }
}

/// Elements that read back as themselves: no key holds a zero byte and each
/// value is well-formed.
pub open spec fn well_formed(es: Seq<ElementView>) -> bool
    decreases es,
{
    forall|i: int|
        0 <= i < es.len() ==> nul_free(#[trigger] es[i].key) && well_formed_value(es[i].value)
}

/// A well-formed document whose encoding a length field can declare.
pub open spec fn storable(es: Seq<ElementView>) -> bool {
    well_formed(es) && encoding(es).len() <= MAX_LEN
}

impl Document {
    /// The document reads back as itself.
    pub open spec fn wf(&self) -> bool {
        well_formed(self@)
    }
}

/// Unfolds the encoding of a run by its first element.
pub proof fn lemma_elements_encoding_skip(es: Seq<ElementView>, i: int)
    requires
        0 <= i < es.len(),
    ensures
        elements_encoding(es.skip(i)) == element_encoding(es[i]) + elements_encoding(
            es.skip(i + 1),
        ),
{
    assert(es.skip(i).drop_first() =~= es.skip(i + 1));
}

/// A deep copy of a value.
pub fn copy_value(value: &Value) -> (copy: Value)
    ensures
        copy@ == value@,
    decreases value,
{
    match value {
        Value::Text(text) => Value::Text(copy_bytes(text.as_slice())),
        Value::Document(es) => Value::Document(copy_elements(es)),
        Value::Array(es) => Value::Array(copy_elements(es)),
        Value::Other { tag, payload } => Value::Other {
            tag: *tag,
            payload: copy_bytes(payload.as_slice()),
        },
    }
}

/// A deep copy of a run of elements.
pub fn copy_elements(es: &Vec<Element>) -> (copy: Vec<Element>)
    ensures
        views(copy@) == views(es@),
    decreases es,
{
    let mut copy: Vec<Element> = Vec::new();
    let mut i: usize = 0;
    while i < es.len()
        invariant
            i <= es.len(),
            views(copy@) == views(es@.subrange(0, i as int)),
        decreases es.len() - i,
    {
        let element = Element {
            key: copy_bytes(es[i].key.as_slice()),
            value: copy_value(&es[i].value),
        };
        proof {
            lemma_views_push(copy@, element);
            lemma_views_push(es@.subrange(0, i as int), es@[i as int]);
            assert(es@.subrange(0, i + 1) =~= es@.subrange(0, i as int).push(es@[i as int]));
        }
        copy.push(element);
        i = i + 1;
    }
    assert(es@.subrange(0, i as int) =~= es@);
    copy
}

/// The bytes of a value, where a length field can declare them.
pub fn encode_value(value: &Value) -> (out: Result<Vec<u8>, Error>)
    ensures
        match out {
            Ok(bytes) => bytes@ == value_encoding(value@) && bytes.len() <= MAX_LEN,
            Err(e) => e == Error::TooLarge && value_encoding(value@).len() > MAX_LEN,
        },
    decreases value,
{
    match value {
        Value::Text(text) => {
            if text.len() > MAX_LEN - 5 {
                return Err(Error::TooLarge);
            }
            let mut bytes: Vec<u8> = Vec::new();
            push_le32(&mut bytes, (text.len() + 1) as u32);
            push_bytes(&mut bytes, text.as_slice());
            bytes.push(0u8);
            Ok(bytes)
        },
        Value::Document(es) => encode_nested(es),
        Value::Array(es) => encode_nested(es),
        Value::Other { tag, payload } => {
            if payload.len() > MAX_LEN {
                return Err(Error::TooLarge);
            }
            Ok(copy_bytes(payload.as_slice()))
        },
    }
}

/// The bytes of a document made of `es`: its length, the elements, a terminator.
pub fn encode_nested(es: &Vec<Element>) -> (out: Result<Vec<u8>, Error>)
    ensures
        match out {
            Ok(bytes) => bytes@ == encoding(views(es@)) && bytes.len() <= MAX_LEN,
            Err(e) => e == Error::TooLarge && encoding(views(es@)).len() > MAX_LEN,
        },
    decreases es, 1int,
{
    let body: Vec<u8> = encode_elements(es)?;
    let mut bytes: Vec<u8> = Vec::new();
    push_le32(&mut bytes, (body.len() + 5) as u32);
    push_bytes(&mut bytes, body.as_slice());
    bytes.push(0u8);
    Ok(bytes)
}

/// The bytes of a run of elements, where the document around them can declare
/// its length.
pub fn encode_elements(es: &Vec<Element>) -> (out: Result<Vec<u8>, Error>)
    ensures
        match out {
            Ok(bytes) => bytes@ == elements_encoding(views(es@)) && bytes.len() + 5 <= MAX_LEN,
            Err(e) => e == Error::TooLarge && elements_encoding(views(es@)).len() + 5 > MAX_LEN,
        },
    decreases es, 0int,
{
    let ghost all = views(es@);
    let mut bytes: Vec<u8> = Vec::new();
    let mut i: usize = 0;
    assert(all.skip(0) =~= all);
    while i < es.len()
        invariant
            i <= es.len(),
            all == views(es@),
            bytes.len() + 5 <= MAX_LEN,
            bytes@ + elements_encoding(all.skip(i as int)) == elements_encoding(all),
        decreases es.len() - i,
    {
        proof {
            lemma_elements_encoding_skip(all, i as int);
        }
        let ghost before = bytes@;
        let ghost rest = elements_encoding(all.skip(i + 1));
        let element = &es[i];
        assert(all[i as int] == element@);
        let value: Vec<u8> = encode_value(&element.value)?;
        let tag: u8 = tag_byte(&element.value);
        // tag, key, terminator and value must leave room for the five bytes around the run
        let room: usize = MAX_LEN - 5 - bytes.len();
        if element.key.len() > room || room - element.key.len() < 2 || room - element.key.len() - 2
            < value.len() {
            return Err(Error::TooLarge);
        }
        bytes.push(tag);
        push_bytes(&mut bytes, element.key.as_slice());
        bytes.push(0u8);
        push_bytes(&mut bytes, value.as_slice());
        assert(bytes@ =~= before + element_encoding(element@));
        assert(bytes@ + rest =~= before + (element_encoding(element@) + rest));
        i = i + 1;
    }
    assert(all.skip(i as int) =~= Seq::<ElementView>::empty());
    assert(bytes@ =~= elements_encoding(all));
    Ok(bytes)
}

/// The type tag under which `value` is stored.
pub fn tag_byte(value: &Value) -> (tag: u8)
    ensures
        tag == tag_of(value@),
{
    match value {
        Value::Text(_) => TAG_TEXT,
        Value::Document(_) => TAG_DOCUMENT,
        Value::Array(_) => TAG_ARRAY,
        Value::Other { tag, .. } => *tag,
    }
}

impl Document {
    /// The bytes of the document in the binary format. Fails only where the
    /// document needs more bytes than its length field can declare.
    pub fn encode(&self) -> (out: Result<Vec<u8>, Error>)
        ensures
            match out {
                Ok(bytes) => bytes@ == encoding(self@) && bytes.len() <= MAX_LEN,
                Err(e) => e == Error::TooLarge && encoding(self@).len() > MAX_LEN,
            },
    {
        encode_nested(&self.elements)
    }

    /// A deep copy of the document.
    pub fn duplicate(&self) -> (copy: Document)
        ensures
            copy@ == self@,
    {
        Document { elements: copy_elements(&self.elements) }
    }
}

} // verus!
