//! Where an element and its value payload lie in a document buffer, worked out
//! from declared lengths alone.
use vstd::prelude::*;
use crate::error::Error;
use crate::wire::{
    cstring_at, cstring_len, has_cstring, le32_value, lemma_cstring_unique, read_le32,
    scan_cstring, MAX_LEN,
};

verus! {

/// Type tag of a text value.
pub const TAG_TEXT: u8 = 0x02;

/// Type tag of an embedded document.
pub const TAG_DOCUMENT: u8 = 0x03;

/// Type tag of an array.
pub const TAG_ARRAY: u8 = 0x04;

/// Type tag of generic binary data.
pub const TAG_BINARY: u8 = 0x05;

/// Type tag of a regular expression: two terminated strings.
pub const TAG_REGEX: u8 = 0x0B;

/// How the size of a value follows from its type tag.
pub enum Shape {
    /// The value always takes this many bytes.
    Fixed(usize),
    /// The value starts with a four-byte count of at least `least`; it takes the
    /// count and `overhead` more bytes.
    Counted { overhead: usize, least: usize },
    /// The value is two strings, each ended by a zero byte.
    Strings,
    /// The tag is not one of the format's.
    Unknown,
}

/// The shape of the values that carry `tag`.
pub open spec fn shape_of(tag: u8) -> Shape {
    if tag == 0x01 || tag == 0x09 || tag == 0x11 || tag == 0x12 {
        Shape::Fixed(8)
    } else if tag == 0x07 {
        Shape::Fixed(12)
    } else if tag == 0x08 {
        Shape::Fixed(1)
    } else if tag == 0x10 {
        Shape::Fixed(4)
    } else if tag == 0x13 {
        Shape::Fixed(16)
    } else if tag == 0x06 || tag == 0x0A || tag == 0x7F || tag == 0xFF {
        Shape::Fixed(0)
    } else if tag == TAG_TEXT || tag == 0x0D || tag == 0x0E {
        Shape::Counted { overhead: 4, least: 1 }
    } else if tag == TAG_DOCUMENT || tag == TAG_ARRAY {
        Shape::Counted { overhead: 0, least: 5 }
    } else if tag == TAG_BINARY {
        Shape::Counted { overhead: 5, least: 0 }
    } else if tag == 0x0C {
        Shape::Counted { overhead: 16, least: 1 }
    } else if tag == 0x0F {
        Shape::Counted { overhead: 0, least: 4 }
    } else if tag == TAG_REGEX {
        Shape::Strings
    } else {
        Shape::Unknown
    }
}

/// The shape of the values that carry `tag`.
pub fn shape(tag: u8) -> (s: Shape)
    ensures
        s == shape_of(tag),
{
    if tag == 0x01 || tag == 0x09 || tag == 0x11 || tag == 0x12 {
        Shape::Fixed(8)
    } else if tag == 0x07 {
        Shape::Fixed(12)
    } else if tag == 0x08 {
        Shape::Fixed(1)
    } else if tag == 0x10 {
        Shape::Fixed(4)
    } else if tag == 0x13 {
        Shape::Fixed(16)
    } else if tag == 0x06 || tag == 0x0A || tag == 0x7F || tag == 0xFF {
        Shape::Fixed(0)
    } else if tag == TAG_TEXT || tag == 0x0D || tag == 0x0E {
        Shape::Counted { overhead: 4, least: 1 }
    } else if tag == TAG_DOCUMENT || tag == TAG_ARRAY {
        Shape::Counted { overhead: 0, least: 5 }
    } else if tag == TAG_BINARY {
        Shape::Counted { overhead: 5, least: 0 }
    } else if tag == 0x0C {
        Shape::Counted { overhead: 16, least: 1 }
    } else if tag == 0x0F {
        Shape::Counted { overhead: 0, least: 4 }
    } else if tag == TAG_REGEX {
        Shape::Strings
    } else {
        Shape::Unknown
    }
}

/// The number of bytes that a value with `tag` takes at the start of `v`, or
/// `None` where `v` is too short for what it declares or the tag is unknown.
pub open spec fn value_extent(tag: u8, v: Seq<u8>) -> Option<int> {
    match shape_of(tag) {
        Shape::Fixed(width) => if width <= v.len() {
            Some(width as int)
        } else {
            None
        },
        Shape::Counted { overhead, least } => if v.len() >= 4 && least <= le32_value(v) <= MAX_LEN
            && le32_value(v) + overhead <= v.len() {
            Some(le32_value(v) + overhead)
        } else {
            None
        },
        Shape::Strings => if has_cstring(v) && has_cstring(v.skip(cstring_len(v) + 1)) {
            Some(cstring_len(v) + 1 + cstring_len(v.skip(cstring_len(v) + 1)) + 1)
        } else {
            None
        },
        Shape::Unknown => None,
    }
}

/// The length of the key and of the value of the element that starts `s`, or
/// `None` where `s` does not start with a whole element.
pub open spec fn element_extent(s: Seq<u8>) -> Option<(int, int)> {
    if s.len() >= 1 && has_cstring(s.skip(1)) {
        let key_len = cstring_len(s.skip(1));
        match value_extent(s[0], s.skip(key_len + 2)) {
            Some(n) => Some((key_len, n)),
            None => None,
        }
    } else {
        None
    }
}

/// The extent of a value depends on no byte behind it.
pub proof fn lemma_value_extent_local(tag: u8, v: Seq<u8>, w: Seq<u8>)
    requires
        value_extent(tag, v) is Some,
        w.len() >= value_extent(tag, v)->0,
        w.subrange(0, value_extent(tag, v)->0) == v.subrange(0, value_extent(tag, v)->0),
    ensures
        0 <= value_extent(tag, v)->0 <= v.len(),
        value_extent(tag, w) == value_extent(tag, v),
{
    let n = value_extent(tag, v)->0;
    let vp = v.subrange(0, n);
    let wp = w.subrange(0, n);
    match shape_of(tag) {
        Shape::Fixed(width) => {},
        Shape::Counted { overhead, least } => {
            assert(n >= 4);
            assert(vp[0] == v[0] && vp[1] == v[1] && vp[2] == v[2] && vp[3] == v[3]);
            assert(wp[0] == w[0] && wp[1] == w[1] && wp[2] == w[2] && wp[3] == w[3]);
        },
        Shape::Strings => {
            let a = cstring_len(v);
            assert(cstring_at(v, a));
            let v2 = v.skip(a + 1);
            let b = cstring_len(v2);
            assert(cstring_at(v2, b));
            assert(n == a + 1 + b + 1);
            assert(cstring_at(w, a)) by {
                assert(wp[a] == w[a] && vp[a] == v[a]);
                assert forall|i: int| 0 <= i < a implies w[i] != 0 by {
                    assert(wp[i] == w[i] && vp[i] == v[i]);
                }
            }
            lemma_cstring_unique(w, a);
            let w2 = w.skip(a + 1);
            assert(cstring_at(w2, b)) by {
                assert(w2[b] == w[a + 1 + b] && wp[a + 1 + b] == w[a + 1 + b]);
                assert(v2[b] == v[a + 1 + b] && vp[a + 1 + b] == v[a + 1 + b]);
                assert forall|i: int| 0 <= i < b implies w2[i] != 0 by {
                    assert(w2[i] == w[a + 1 + i] && wp[a + 1 + i] == w[a + 1 + i]);
                    assert(v2[i] == v[a + 1 + i] && vp[a + 1 + i] == v[a + 1 + i]);
                }
            }
            lemma_cstring_unique(w2, b);
        },
        Shape::Unknown => {},
    }
}

/// The number of bytes that the value with `tag` at `bytes[start..end]` takes.
pub fn value_extent_at(bytes: &[u8], start: usize, end: usize, tag: u8) -> (found: Option<usize>)
    requires
        start <= end <= bytes.len(),
    ensures
        match found {
            Some(n) => value_extent(tag, bytes@.subrange(start as int, end as int)) == Some(
                n as int,
            ) && start + n <= end,
            None => value_extent(tag, bytes@.subrange(start as int, end as int)) is None,
        },
{
    let ghost v = bytes@.subrange(start as int, end as int);
    let room: usize = end - start;
    match shape(tag) {
        Shape::Fixed(width) => if width <= room {
            Some(width)
        } else {
            None
        },
        Shape::Counted { overhead, least } => {
            if room < 4 {
                return None;
            }
            let declared: u32 = read_le32(bytes, start);
            proof {
                let whole = bytes@.subrange(start as int, bytes.len() as int);
                assert(v[0] == whole[0] && v[1] == whole[1] && v[2] == whole[2] && v[3]
                    == whole[3]);
            }
            if declared > 0x7fff_ffff {
                return None;
            }
            let count: usize = declared as usize;
            if count < least || count > room || room - count < overhead {
                return None;
            }
            Some(count + overhead)
        },
        Shape::Strings => {
            match scan_cstring(bytes, start, end) {
                None => None,
                Some(a) => {
                    proof {
                        lemma_cstring_unique(v, a as int);
                        assert(v.skip(a + 1) =~= bytes@.subrange(start + a + 1, end as int));
                    }
                    match scan_cstring(bytes, start + a + 1, end) {
                        None => None,
                        Some(b) => {
                            proof {
                                lemma_cstring_unique(v.skip(a + 1), b as int);
                            }
                            Some(a + 1 + b + 1)
                        },
                    }
                },
            }
        },
        Shape::Unknown => None,
    }
}

/// An element as the walk over a document finds it: where it starts, its type
/// tag, the length of its key and the bytes it takes in all, tag, key and key
/// terminator included. None of this needs the value decoded.
#[derive(Clone, Copy, Debug, PartialEq, Eq, Structural)]
pub struct RawElement {
    pub offset: usize,
    pub tag: u8,
    pub key_len: usize,
    pub encoded_len: usize,
}

impl RawElement {
    /// Where the value starts: behind the tag, the key and the key's terminator.
    pub open spec fn value_start(&self) -> int {
        self.offset + 1 + self.key_len + 1
    }

    /// Where the element ends.
    pub open spec fn end(&self) -> int {
        self.offset + self.encoded_len
    }
}

/// A byte range of a document buffer, which holds a value's payload whether or
/// not that payload can be decoded.
#[derive(Clone, Copy, Debug, PartialEq, Eq, Structural)]
pub struct RawSpan {
    pub start: usize,
    pub len: usize,
}

impl RawSpan {
    /// The place behind the last byte of the span.
    pub open spec fn end(&self) -> int {
        self.start + self.len
    }
}

/// The width of the length field that starts a value with `tag`.
pub open spec fn prefix_width(tag: u8) -> int {
    if tag == TAG_TEXT || tag == TAG_DOCUMENT || tag == TAG_ARRAY || tag == TAG_BINARY {
        4
    } else {
        0
    }
}

/// The width of the terminator that ends a value with `tag`.
pub open spec fn terminator_width(tag: u8) -> int {
    if tag == TAG_TEXT || tag == TAG_DOCUMENT || tag == TAG_ARRAY {
        1
    } else {
        0
    }
}

/// Where the payload of `element` starts.
pub open spec fn payload_start(element: RawElement) -> int {
    element.value_start() + prefix_width(element.tag)
}

/// Where the payload of `element` ends.
pub open spec fn payload_end(element: RawElement) -> int {
    element.end() - terminator_width(element.tag)
}

/// The payload of `element` lies inside a buffer of `buffer_len` bytes.
pub open spec fn payload_in_bounds(buffer_len: int, element: RawElement) -> bool {
    payload_start(element) <= payload_end(element) <= buffer_len
}

/// The byte range of the value payload of `element` in `document`: what lies
/// between the value's length field, if its type has one, and its terminator,
/// if its type has one. Fails where that range is not inside the buffer.
pub fn locate(document: &[u8], element: &RawElement) -> (found: Result<RawSpan, Error>)
    ensures
        match found {
            Ok(span) => {
                &&& payload_in_bounds(document.len() as int, *element)
                &&& span.start == payload_start(*element)
                &&& span.end() == payload_end(*element)
            },
            Err(e) => e == Error::Malformed && !payload_in_bounds(document.len() as int, *element),
        },
{
    let tag: u8 = element.tag;
    let prefix: usize = if tag == TAG_TEXT || tag == TAG_DOCUMENT || tag == TAG_ARRAY || tag
        == TAG_BINARY {
        4
    } else {
        0
    };
    let terminator: usize = if tag == TAG_TEXT || tag == TAG_DOCUMENT || tag == TAG_ARRAY {
        1
    } else {
        0
    };
    let size: usize = document.len();
    // start = offset + 1 + key_len + 1 + prefix, kept below `size` at each step
    if element.offset > size || size - element.offset < 2 + prefix {
        return Err(Error::Malformed);
    }
    let room: usize = size - element.offset - 2 - prefix;
    if element.key_len > room {
        return Err(Error::Malformed);
    }
    let start: usize = element.offset + 2 + prefix + element.key_len;
    if element.encoded_len < terminator || element.encoded_len - terminator > size
        - element.offset {
        return Err(Error::Malformed);
    }
    let end: usize = element.offset + (element.encoded_len - terminator);
    if end < start {
        return Err(Error::Malformed);
    }
    Ok(RawSpan { start, len: end - start })
}

/// The element that starts at `offset` and must end by `limit`, as far as the
/// declared lengths tell: its tag, where its key ends and how many bytes its
/// value takes. Fails where no whole element lies there.
pub fn scan_element(bytes: &[u8], offset: usize, limit: usize) -> (found: Result<
    RawElement,
    Error,
>)
    requires
        offset <= limit <= bytes.len(),
    ensures
        match found {
            Ok(element) => {
                &&& element_extent(bytes@.subrange(offset as int, limit as int)) == Some(
                    (element.key_len as int, element.encoded_len - element.key_len - 2),
                )
                &&& element.offset == offset
                &&& element.tag == bytes@[offset as int]
                &&& element.key_len + 2 <= element.encoded_len
                &&& offset + element.encoded_len <= limit
            },
            Err(e) => e == Error::Malformed && element_extent(
                bytes@.subrange(offset as int, limit as int),
            ) is None,
        },
{
    let ghost s = bytes@.subrange(offset as int, limit as int);
    if offset == limit {
        return Err(Error::Malformed);
    }
    let tag: u8 = bytes[offset];
    assert(s[0] == tag);
    assert(s.skip(1) =~= bytes@.subrange(offset + 1, limit as int));
    match scan_cstring(bytes, offset + 1, limit) {
        None => Err(Error::Malformed),
        Some(key_len) => {
            proof {
                lemma_cstring_unique(s.skip(1), key_len as int);
                assert(s.skip(key_len + 2) =~= bytes@.subrange(
                    offset + key_len + 2,
                    limit as int,
                ));
            }
            match value_extent_at(bytes, offset + key_len + 2, limit, tag) {
                None => Err(Error::Malformed),
                Some(n) => Ok(RawElement { offset, tag, key_len, encoded_len: key_len + 2 + n }),
            }
        },
    }
}

} // verus!
