//! The fully lazy, zero-copy strategy: wrapper objects holding only a byte
//! range, where every accessor scans its range on demand.  The log-record
//! view additionally performs one full field scan up front and keeps a
//! memoized tag table, so each of its accessors is a table lookup rather
//! than a rescan.

use vstd::prelude::*;
use vstd::utf8::valid_utf8;
use crate::model::{
    any_nonzero, as_i32, as_i64, as_u32, field_bytes_first, fixed64_first, id_valid, string_first,
    to_i32, to_i64, to_u32, varint_first,
};
use crate::text::is_valid_utf8;
pub use crate::wire::ProtobufParser;
use crate::wire::{
    children_at, fields_at, fields_of, first_field, fixed32, fixed64, found_fields, last_field,
    lemma_fields_at_step, lemma_filter_empty, lemma_filter_push, len_delim, tag_pred, varint,
    FieldAt, WIRE_FIXED32, WIRE_FIXED64, WIRE_LEN, WIRE_VARINT,
};

verus! {

/// The dynamic type of a lazily probed value; `Unknown` reports a value
/// message with no populated branch.
#[derive(Debug, Clone, Copy, PartialEq, Eq, Structural)]
pub enum AnyValueType {
    String,
    Bool,
    Int,
    Double,
    Array,
    KvList,
    Bytes,
    Unknown,
}

/// The branch that lazy probing reports for a value message: the first
/// present tag in the order 1 to 7, or `Unknown` when none is present.
pub open spec fn lazy_value_tag(data: Seq<u8>) -> AnyValueType {
    if first_field(data, 1) is Some {
        AnyValueType::String
    } else if first_field(data, 2) is Some {
        AnyValueType::Bool
    } else if first_field(data, 3) is Some {
        AnyValueType::Int
    } else if first_field(data, 4) is Some {
        AnyValueType::Double
    } else if first_field(data, 5) is Some {
        AnyValueType::Array
    } else if first_field(data, 6) is Some {
        AnyValueType::KvList
    } else if first_field(data, 7) is Some {
        AnyValueType::Bytes
    } else {
        AnyValueType::Unknown
    }
}

/// The scope name that the lazy view reports: the scope's name field, with
/// an empty name for an absent scope, an absent name, or one that is not
/// valid UTF-8.
pub open spec fn lazy_scope_name(data: Seq<u8>) -> Seq<u8> {
    match field_bytes_first(data, 1) {
        Some(s) => match field_bytes_first(s, 1) {
            Some(nb) => if valid_utf8(nb) {
                nb
            } else {
                Seq::empty()
            },
            None => Seq::empty(),
        },
        None => Seq::empty(),
    }
}

/// The scope version that the lazy view reports: absent when the scope or
/// the field is absent, or when the version reads back empty (an unreadable
/// encoding reads back empty as well).
pub open spec fn lazy_scope_version(data: Seq<u8>) -> Option<Seq<u8>> {
    match field_bytes_first(data, 1) {
        Some(s) => match field_bytes_first(s, 2) {
            Some(vb) => {
                let v = if valid_utf8(vb) {
                    vb
                } else {
                    Seq::<u8>::empty()
                };
                if v.len() == 0 {
                    None
                } else {
                    Some(v)
                }
            },
            None => None,
        },
        None => None,
    }
}

/// Scans from `start` for the next length-delimited occurrence of `tag`:
/// returns its content bytes and the position after it, or `None` with the
/// position where the scan stopped.
fn scan_child<'a>(parser: &ProtobufParser<'a>, start: usize, tag: u32) -> (r: (
    Option<&'a [u8]>,
    usize,
))
    ensures
        ({
            let cs = children_at(parser@, start as int, tag);
            match r.0 {
                Some(sub) => cs.len() > 0 && sub@ == parser@.subrange(cs[0].0, cs[0].1)
                    && children_at(parser@, r.1 as int, tag) == cs.skip(1) && r.1 <= parser@.len(),
                None => cs.len() == 0 && children_at(parser@, r.1 as int, tag).len() == 0,
            }
        }),
{
    let ghost d = parser@;
    let mut pos = start;
    while pos < parser.data_len()
        invariant
            parser@ == d,
            children_at(d, pos as int, tag) == children_at(d, start as int, tag),
        decreases d.len() - pos,
    {
        match parser.parse_varint(pos) {
            None => {
                return (None, pos);
            },
            Some((tag_and_wire, new_pos)) => {
                let t = #[verifier::truncate] ((tag_and_wire >> 3) as u32);
                let w = #[verifier::truncate] ((tag_and_wire & 0x7) as u8);
                if t == tag && w == WIRE_LEN {
                    match parser.parse_length_delimited(new_pos) {
                        Some((sub, end)) => {
                            proof {
                                let cs = children_at(d, pos as int, tag);
                                assert(cs == seq![
                                    ((end - sub@.len()) as int, end as int),
                                ] + children_at(d, end as int, tag));
                                assert(cs.skip(1) =~= children_at(d, end as int, tag));
                            }
                            return (Some(sub), end);
                        },
                        None => {
                            return (None, pos);
                        },
                    }
                } else {
                    match parser.skip_value(w, new_pos) {
                        Some(p3) => {
                            pos = p3;
                        },
                        None => {
                            return (None, pos);
                        },
                    }
                }
            },
        }
    }
    (None, pos)
}

/// Zero-copy view of a whole logs payload.
pub struct LogsDataParser<'a> {
    parser: ProtobufParser<'a>,
}

impl<'a> View for LogsDataParser<'a> {
    type V = Seq<u8>;

    closed spec fn view(&self) -> Seq<u8> {
        self.parser@
    }
}

impl<'a> LogsDataParser<'a> {
    pub fn new(data: &'a [u8]) -> (r: Self)
        ensures
            r@ == data@,
    {
        LogsDataParser { parser: ProtobufParser::new(data) }
    }

    /// An iterator over the resource groups (tag 1).
    pub fn resource_logs(&self) -> (r: ResourceLogsIterator<'a>)
        ensures
            r.buf() == self@,
            r.remaining() == children_at(self@, 0, 1),
    {
        ResourceLogsIterator { parser: self.parser, pos: 0 }
    }
}

/// Iterator over the resource-group submessages of a payload.
pub struct ResourceLogsIterator<'a> {
    parser: ProtobufParser<'a>,
    pos: usize,
}

impl<'a> ResourceLogsIterator<'a> {
    /// The underlying buffer.
    pub closed spec fn buf(self) -> Seq<u8> {
        self.parser@
    }

    /// The content ranges this iterator has yet to yield.
    pub closed spec fn remaining(self) -> Seq<(int, int)> {
        children_at(self.parser@, self.pos as int, 1)
    }

    /// Yields the next resource group, advancing past it.
    pub fn next(&mut self) -> (r: Option<ResourceLogsParser<'a>>)
        ensures
            final(self).buf() == old(self).buf(),
            match r {
                Some(p) => old(self).remaining().len() > 0 && p@ == old(self).buf().subrange(
                    old(self).remaining()[0].0,
                    old(self).remaining()[0].1,
                ) && final(self).remaining() == old(self).remaining().skip(1),
                None => old(self).remaining().len() == 0 && final(self).remaining().len() == 0,
            },
    {
        let (sub, new_pos) = scan_child(&self.parser, self.pos, 1);
        self.pos = new_pos;
        match sub {
            Some(b) => Some(ResourceLogsParser::new(b)),
            None => None,
        }
    }
}

/// Zero-copy view of one resource group.
pub struct ResourceLogsParser<'a> {
    parser: ProtobufParser<'a>,
}

impl<'a> View for ResourceLogsParser<'a> {
    type V = Seq<u8>;

    closed spec fn view(&self) -> Seq<u8> {
        self.parser@
    }
}

impl<'a> ResourceLogsParser<'a> {
    pub fn new(data: &'a [u8]) -> (r: Self)
        ensures
            r@ == data@,
    {
        ResourceLogsParser { parser: ProtobufParser::new(data) }
    }

    /// The length of the viewed byte range.
    pub fn data_len(&self) -> (n: usize)
        ensures
            n == self@.len(),
    {
        self.parser.data_len()
    }

    /// The raw bytes of the resource message (tag 1), if present.
    pub fn resource(&self) -> (r: Option<&'a [u8]>)
        ensures
            match r {
                Some(b) => field_bytes_first(self@, 1) == Some(b@),
                None => field_bytes_first(self@, 1) is None,
            },
    {
        match self.parser.find_field(1) {
            Some((wire_type, pos)) => {
                if wire_type == WIRE_LEN {
                    match self.parser.parse_length_delimited(pos) {
                        Some((bytes, _)) => Some(bytes),
                        None => None,
                    }
                } else {
                    None
                }
            },
            None => None,
        }
    }

    /// An iterator over the resource's attributes (tag 1 inside the
    /// resource message), if the resource is present.
    pub fn attributes(&self) -> (r: Option<ResourceAttributeIterator<'a>>)
        ensures
            match r {
                Some(it) => field_bytes_first(self@, 1) matches Some(b) && it.buf() == b
                    && it.remaining() == children_at(b, 0, 1),
                None => field_bytes_first(self@, 1) is None,
            },
    {
        match self.resource() {
            Some(resource_bytes) => Some(
                ResourceAttributeIterator { parser: ProtobufParser::new(resource_bytes), pos: 0 },
            ),
            None => None,
        }
    }

    /// An iterator over the scope groups (tag 2).
    pub fn scope_logs(&self) -> (r: ScopeLogsIterator<'a>)
        ensures
            r.buf() == self@,
            r.remaining() == children_at(self@, 0, 2),
    {
        ScopeLogsIterator { parser: self.parser, pos: 0 }
    }

    /// The schema URL (tag 3), absent when missing or not valid UTF-8.
    pub fn schema_url(&self) -> (r: Option<&'a [u8]>)
        ensures
            match r {
                Some(b) => string_first(self@, 3) == Some(b@),
                None => string_first(self@, 3) is None,
            },
    {
        string_field(&self.parser, 3)
    }
}

/// Reads the first occurrence of `tag` as a UTF-8 string field; absent on a
/// wire-type mismatch, a truncated span, or an invalid encoding.
fn string_field<'a>(parser: &ProtobufParser<'a>, tag: u32) -> (r: Option<&'a [u8]>)
    ensures
        match r {
            Some(b) => string_first(parser@, tag) == Some(b@),
            None => string_first(parser@, tag) is None,
        },
{
    match parser.find_field(tag) {
        Some((wire_type, pos)) => {
            if wire_type == WIRE_LEN {
                match parser.parse_length_delimited(pos) {
                    Some((bytes, _)) => {
                        if is_valid_utf8(bytes) {
                            Some(bytes)
                        } else {
                            None
                        }
                    },
                    None => None,
                }
            } else {
                None
            }
        },
        None => None,
    }
}

/// Reads the first occurrence of `tag` as raw length-delimited bytes.
fn bytes_field<'a>(parser: &ProtobufParser<'a>, tag: u32) -> (r: Option<&'a [u8]>)
    ensures
        match r {
            Some(b) => field_bytes_first(parser@, tag) == Some(b@),
            None => field_bytes_first(parser@, tag) is None,
        },
{
    match parser.find_field(tag) {
        Some((wire_type, pos)) => {
            if wire_type == WIRE_LEN {
                match parser.parse_length_delimited(pos) {
                    Some((bytes, _)) => Some(bytes),
                    None => None,
                }
            } else {
                None
            }
        },
        None => None,
    }
}

/// Iterator over the attribute submessages of a resource message.
pub struct ResourceAttributeIterator<'a> {
    parser: ProtobufParser<'a>,
    pos: usize,
}

impl<'a> ResourceAttributeIterator<'a> {
    /// The underlying buffer (the resource message bytes).
    pub closed spec fn buf(self) -> Seq<u8> {
        self.parser@
    }

    /// The content ranges this iterator has yet to yield.
    pub closed spec fn remaining(self) -> Seq<(int, int)> {
        children_at(self.parser@, self.pos as int, 1)
    }

    /// Yields the next attribute, advancing past it.
    pub fn next(&mut self) -> (r: Option<KeyValueParser<'a>>)
        ensures
            final(self).buf() == old(self).buf(),
            match r {
                Some(p) => old(self).remaining().len() > 0 && p@ == old(self).buf().subrange(
                    old(self).remaining()[0].0,
                    old(self).remaining()[0].1,
                ) && final(self).remaining() == old(self).remaining().skip(1),
                None => old(self).remaining().len() == 0 && final(self).remaining().len() == 0,
            },
    {
        let (sub, new_pos) = scan_child(&self.parser, self.pos, 1);
        self.pos = new_pos;
        match sub {
            Some(b) => Some(KeyValueParser::new(b)),
            None => None,
        }
    }
}

/// Iterator over the scope-group submessages of a resource group.
pub struct ScopeLogsIterator<'a> {
    parser: ProtobufParser<'a>,
    pos: usize,
}

impl<'a> ScopeLogsIterator<'a> {
    /// The underlying buffer.
    pub closed spec fn buf(self) -> Seq<u8> {
        self.parser@
    }

    /// The content ranges this iterator has yet to yield.
    pub closed spec fn remaining(self) -> Seq<(int, int)> {
        children_at(self.parser@, self.pos as int, 2)
    }

    /// Yields the next scope group, advancing past it.
    pub fn next(&mut self) -> (r: Option<ScopeLogsParser<'a>>)
        ensures
            final(self).buf() == old(self).buf(),
            match r {
                Some(p) => old(self).remaining().len() > 0 && p@ == old(self).buf().subrange(
                    old(self).remaining()[0].0,
                    old(self).remaining()[0].1,
                ) && final(self).remaining() == old(self).remaining().skip(1),
                None => old(self).remaining().len() == 0 && final(self).remaining().len() == 0,
            },
    {
        let (sub, new_pos) = scan_child(&self.parser, self.pos, 2);
        self.pos = new_pos;
        match sub {
            Some(b) => Some(ScopeLogsParser::new(b)),
            None => None,
        }
    }
}

/// Zero-copy view of one scope group.
pub struct ScopeLogsParser<'a> {
    parser: ProtobufParser<'a>,
}

impl<'a> View for ScopeLogsParser<'a> {
    type V = Seq<u8>;

    closed spec fn view(&self) -> Seq<u8> {
        self.parser@
    }
}

impl<'a> ScopeLogsParser<'a> {
    pub fn new(data: &'a [u8]) -> (r: Self)
        ensures
            r@ == data@,
    {
        ScopeLogsParser { parser: ProtobufParser::new(data) }
    }

    /// The length of the viewed byte range.
    pub fn data_len(&self) -> (n: usize)
        ensures
            n == self@.len(),
    {
        self.parser.data_len()
    }

    /// The raw bytes of the scope message (tag 1), if present.
    pub fn scope(&self) -> (r: Option<&'a [u8]>)
        ensures
            match r {
                Some(b) => field_bytes_first(self@, 1) == Some(b@),
                None => field_bytes_first(self@, 1) is None,
            },
    {
        bytes_field(&self.parser, 1)
    }

    /// An iterator over the log records (tag 2).
    pub fn log_records(&self) -> (r: LogRecordIterator<'a>)
        ensures
            r.buf() == self@,
            r.remaining() == children_at(self@, 0, 2),
    {
        LogRecordIterator { parser: self.parser, pos: 0 }
    }

    /// The schema URL (tag 3), absent when missing or not valid UTF-8.
    pub fn schema_url(&self) -> (r: Option<&'a [u8]>)
        ensures
            match r {
                Some(b) => string_first(self@, 3) == Some(b@),
                None => string_first(self@, 3) is None,
            },
    {
        string_field(&self.parser, 3)
    }

    /// The scope's name, reading back empty when the scope or the name is
    /// absent or the name is not valid UTF-8.
    pub fn scope_name(&self) -> (r: &'a [u8])
        ensures
            r@ == lazy_scope_name(self@),
    {
        if let Some(scope_bytes) = self.scope() {
            let scope_parser = ProtobufParser::new(scope_bytes);
            if let Some((wire_type, pos)) = scope_parser.find_field(1) {
                if wire_type == WIRE_LEN {
                    if let Some((bytes, _)) = scope_parser.parse_length_delimited(pos) {
                        if is_valid_utf8(bytes) {
                            return bytes;
                        } else {
                            return &[];
                        }
                    }
                }
            }
        }
        &[]
    }

    /// The scope's version; absent when the scope or the version is absent
    /// or the version reads back empty.
    pub fn scope_version(&self) -> (r: Option<&'a [u8]>)
        ensures
            match r {
                Some(b) => lazy_scope_version(self@) == Some(b@),
                None => lazy_scope_version(self@) is None,
            },
    {
        if let Some(scope_bytes) = self.scope() {
            let scope_parser = ProtobufParser::new(scope_bytes);
            if let Some((wire_type, pos)) = scope_parser.find_field(2) {
                if wire_type == WIRE_LEN {
                    if let Some((bytes, _)) = scope_parser.parse_length_delimited(pos) {
                        if is_valid_utf8(bytes) && bytes.len() > 0 {
                            return Some(bytes);
                        } else {
                            return None;
                        }
                    }
                }
            }
        }
        None
    }
}

/// Zero-copy view of one key/value attribute.
pub struct KeyValueParser<'a> {
    parser: ProtobufParser<'a>,
}

impl<'a> View for KeyValueParser<'a> {
    type V = Seq<u8>;

    closed spec fn view(&self) -> Seq<u8> {
        self.parser@
    }
}

impl<'a> KeyValueParser<'a> {
    pub fn new(data: &'a [u8]) -> (r: Self)
        ensures
            r@ == data@,
    {
        KeyValueParser { parser: ProtobufParser::new(data) }
    }

    /// The key (tag 1), absent when missing or not valid UTF-8.
    pub fn key(&self) -> (r: Option<&'a [u8]>)
        ensures
            match r {
                Some(b) => string_first(self@, 1) == Some(b@),
                None => string_first(self@, 1) is None,
            },
    {
        string_field(&self.parser, 1)
    }

    /// The value message (tag 2), if present and readable.
    pub fn value(&self) -> (r: Option<AnyValueParser<'a>>)
        ensures
            match r {
                Some(p) => field_bytes_first(self@, 2) == Some(p@),
                None => field_bytes_first(self@, 2) is None,
            },
    {
        match bytes_field(&self.parser, 2) {
            Some(b) => Some(AnyValueParser::new(b)),
            None => None,
        }
    }
}

/// Zero-copy view of one dynamically typed value.
pub struct AnyValueParser<'a> {
    parser: ProtobufParser<'a>,
}

impl<'a> View for AnyValueParser<'a> {
    type V = Seq<u8>;

    closed spec fn view(&self) -> Seq<u8> {
        self.parser@
    }
}

impl<'a> AnyValueParser<'a> {
    pub fn new(data: &'a [u8]) -> (r: Self)
        ensures
            r@ == data@,
    {
        AnyValueParser { parser: ProtobufParser::new(data) }
    }

    /// The string branch (tag 1), absent on a type mismatch.
    pub fn string_value(&self) -> (r: Option<&'a [u8]>)
        ensures
            match r {
                Some(b) => string_first(self@, 1) == Some(b@),
                None => string_first(self@, 1) is None,
            },
    {
        string_field(&self.parser, 1)
    }

    /// The boolean branch (tag 2), absent on a type mismatch.
    pub fn bool_value(&self) -> (r: Option<bool>)
        ensures
            match r {
                Some(b) => varint_first(self@, 2) matches Some(v) && b == (v != 0),
                None => varint_first(self@, 2) is None,
            },
    {
        match self.parser.find_field(2) {
            Some((wire_type, pos)) => {
                if wire_type == WIRE_VARINT {
                    match self.parser.parse_varint(pos) {
                        Some((v, _)) => Some(v != 0),
                        None => None,
                    }
                } else {
                    None
                }
            },
            None => None,
        }
    }

    /// The integer branch (tag 3), absent on a type mismatch.
    pub fn int_value(&self) -> (r: Option<i64>)
        ensures
            match r {
                Some(n) => varint_first(self@, 3) matches Some(v) && n == as_i64(v),
                None => varint_first(self@, 3) is None,
            },
    {
        match self.parser.find_field(3) {
            Some((wire_type, pos)) => {
                if wire_type == WIRE_VARINT {
                    match self.parser.parse_varint(pos) {
                        Some((v, _)) => Some(to_i64(v)),
                        None => None,
                    }
                } else {
                    None
                }
            },
            None => None,
        }
    }

    /// The bit pattern of the double branch (tag 4), absent on a type
    /// mismatch.  The caller reinterprets the bits as a floating-point
    /// number.
    pub fn double_bits_value(&self) -> (r: Option<u64>)
        ensures
            match r {
                Some(v) => fixed64_first(self@, 4) == Some(v),
                None => fixed64_first(self@, 4) is None,
            },
    {
        match self.parser.find_field(4) {
            Some((wire_type, pos)) => {
                if wire_type == 1 {
                    match self.parser.parse_fixed64(pos) {
                        Some((v, _)) => Some(v),
                        None => None,
                    }
                } else {
                    None
                }
            },
            None => None,
        }
    }

    /// An iterator over the array branch's elements (tag 5), present
    /// whenever some tag-5 field occurs.
    pub fn array_value(&self) -> (r: Option<ArrayValueIterator<'a>>)
        ensures
            match r {
                Some(it) => first_field(self@, 5) is Some && it.buf() == self@ && it.remaining()
                    == children_at(self@, 0, 5),
                None => first_field(self@, 5) is None,
            },
    {
        if self.parser.find_field(5).is_some() {
            Some(ArrayValueIterator { parser: self.parser, pos: 0 })
        } else {
            None
        }
    }

    /// An iterator over the key/value-list branch's entries (tag 6),
    /// present whenever some tag-6 field occurs.
    pub fn kvlist_value(&self) -> (r: Option<KvListIterator<'a>>)
        ensures
            match r {
                Some(it) => first_field(self@, 6) is Some && it.buf() == self@ && it.remaining()
                    == children_at(self@, 0, 6),
                None => first_field(self@, 6) is None,
            },
    {
        if self.parser.find_field(6).is_some() {
            Some(KvListIterator { parser: self.parser, pos: 0 })
        } else {
            None
        }
    }

    /// The bytes branch (tag 7), absent on a type mismatch.
    pub fn bytes_value(&self) -> (r: Option<&'a [u8]>)
        ensures
            match r {
                Some(b) => field_bytes_first(self@, 7) == Some(b@),
                None => field_bytes_first(self@, 7) is None,
            },
    {
        bytes_field(&self.parser, 7)
    }

    /// The branch this value carries: the first present tag probing 1 to 7
    /// in order, `Unknown` when no tag is present.
    pub fn value_type(&self) -> (r: AnyValueType)
        ensures
            r == lazy_value_tag(self@),
    {
        if self.parser.find_field(1).is_some() {
            AnyValueType::String
        } else if self.parser.find_field(2).is_some() {
            AnyValueType::Bool
        } else if self.parser.find_field(3).is_some() {
            AnyValueType::Int
        } else if self.parser.find_field(4).is_some() {
            AnyValueType::Double
        } else if self.parser.find_field(5).is_some() {
            AnyValueType::Array
        } else if self.parser.find_field(6).is_some() {
            AnyValueType::KvList
        } else if self.parser.find_field(7).is_some() {
            AnyValueType::Bytes
        } else {
            AnyValueType::Unknown
        }
    }
}

/// Iterator over the element values of an array value.
pub struct ArrayValueIterator<'a> {
    parser: ProtobufParser<'a>,
    pos: usize,
}

impl<'a> ArrayValueIterator<'a> {
    /// The underlying buffer (the value message bytes).
    pub closed spec fn buf(self) -> Seq<u8> {
        self.parser@
    }

    /// The content ranges this iterator has yet to yield.
    pub closed spec fn remaining(self) -> Seq<(int, int)> {
        children_at(self.parser@, self.pos as int, 5)
    }

    /// Yields the next element value, advancing past it.
    pub fn next(&mut self) -> (r: Option<AnyValueParser<'a>>)
        ensures
            final(self).buf() == old(self).buf(),
            match r {
                Some(p) => old(self).remaining().len() > 0 && p@ == old(self).buf().subrange(
                    old(self).remaining()[0].0,
                    old(self).remaining()[0].1,
                ) && final(self).remaining() == old(self).remaining().skip(1),
                None => old(self).remaining().len() == 0 && final(self).remaining().len() == 0,
            },
    {
        let (sub, new_pos) = scan_child(&self.parser, self.pos, 5);
        self.pos = new_pos;
        match sub {
            Some(b) => Some(AnyValueParser::new(b)),
            None => None,
        }
    }
}

/// Iterator over the entries of a key/value-list value.
pub struct KvListIterator<'a> {
    parser: ProtobufParser<'a>,
    pos: usize,
}

impl<'a> KvListIterator<'a> {
    /// The underlying buffer (the value message bytes).
    pub closed spec fn buf(self) -> Seq<u8> {
        self.parser@
    }

    /// The content ranges this iterator has yet to yield.
    pub closed spec fn remaining(self) -> Seq<(int, int)> {
        children_at(self.parser@, self.pos as int, 6)
    }

    /// Yields the next entry, advancing past it.
    pub fn next(&mut self) -> (r: Option<KeyValueParser<'a>>)
        ensures
            final(self).buf() == old(self).buf(),
            match r {
                Some(p) => old(self).remaining().len() > 0 && p@ == old(self).buf().subrange(
                    old(self).remaining()[0].0,
                    old(self).remaining()[0].1,
                ) && final(self).remaining() == old(self).remaining().skip(1),
                None => old(self).remaining().len() == 0 && final(self).remaining().len() == 0,
            },
    {
        let (sub, new_pos) = scan_child(&self.parser, self.pos, 6);
        self.pos = new_pos;
        match sub {
            Some(b) => Some(KeyValueParser::new(b)),
            None => None,
        }
    }
}

/// The last recorded occurrence of a tag as a `(wire type, value position)`
/// pair, as the memoized field table keeps it.
pub open spec fn last_pair_of(es: Seq<FieldAt>) -> Option<(u8, int)> {
    if es.len() == 0 {
        None
    } else {
        Some((es.last().wire, es.last().pos))
    }
}

/// Agreement between an executable table entry and its specification.
pub open spec fn pair_match(e: Option<(u8, usize)>, s: Option<(u8, int)>) -> bool {
    match e {
        Some(p) => s == Some((p.0, p.1 as int)),
        None => s is None,
    }
}

/// Executable `(wire type, value position)` pairs, lifted to the
/// specification level.
pub open spec fn pairs_of(s: Seq<(u8, usize)>) -> Seq<(u8, int)> {
    s.map_values(|p: (u8, usize)| (p.0, p.1 as int))
}

/// The `(wire type, value position)` pairs of recorded field occurrences.
pub open spec fn field_pairs(es: Seq<FieldAt>) -> Seq<(u8, int)> {
    es.map_values(|g: FieldAt| (g.wire, g.pos))
}

/// The `(wire type, value position)` pairs of the occurrences of `tag`.
pub open spec fn found_pairs(data: Seq<u8>, tag: u32) -> Seq<(u8, int)> {
    field_pairs(found_fields(data, tag))
}

/// Lifting pairs commutes with appending one pair.
pub proof fn lemma_pairs_of_push(s: Seq<(u8, usize)>, x: (u8, usize))
    ensures
        pairs_of(s.push(x)) == pairs_of(s).push((x.0, x.1 as int)),
{
    assert(pairs_of(s.push(x)) =~= pairs_of(s).push((x.0, x.1 as int)));
}

/// Recording pairs commutes with appending one occurrence.
pub proof fn lemma_field_pairs_push(es: Seq<FieldAt>, f: FieldAt)
    ensures
        field_pairs(es.push(f)) == field_pairs(es).push((f.wire, f.pos)),
{
    assert(field_pairs(es.push(f)) =~= field_pairs(es).push((f.wire, f.pos)));
}

/// The value of the last occurrence of `tag` when that occurrence is a
/// readable 8-byte field; 0 otherwise.  The memoized record view reports
/// fixed-width timestamps this way.
pub open spec fn lazy_fixed64_or0(data: Seq<u8>, tag: u32) -> u64 {
    match last_field(data, tag) {
        Some(f) => if f.wire == WIRE_FIXED64 {
            match fixed64(data, f.pos) {
                Some((v, _)) => v,
                None => 0,
            }
        } else {
            0
        },
        None => 0,
    }
}

/// The low 32 bits of the last occurrence of `tag` as a signed value when
/// that occurrence is a readable varint; 0 otherwise.
pub open spec fn lazy_varint_i32_or0(data: Seq<u8>, tag: u32) -> i32 {
    match last_field(data, tag) {
        Some(f) => if f.wire == WIRE_VARINT {
            match varint(data, f.pos) {
                Some((v, _)) => as_i32(v),
                None => 0,
            }
        } else {
            0
        },
        None => 0,
    }
}

/// The low 32 bits of the last occurrence of `tag` when that occurrence is
/// a readable varint.
pub open spec fn lazy_varint_u32_last(data: Seq<u8>, tag: u32) -> Option<u32> {
    match last_field(data, tag) {
        Some(f) => if f.wire == WIRE_VARINT {
            match varint(data, f.pos) {
                Some((v, _)) => Some(as_u32(v)),
                None => None,
            }
        } else {
            None
        },
        None => None,
    }
}

/// The value of the last occurrence of `tag` when that occurrence is a
/// readable 4-byte field.
pub open spec fn lazy_fixed32_last(data: Seq<u8>, tag: u32) -> Option<u32> {
    match last_field(data, tag) {
        Some(f) => if f.wire == WIRE_FIXED32 {
            match fixed32(data, f.pos) {
                Some((v, _)) => Some(v),
                None => None,
            }
        } else {
            None
        },
        None => None,
    }
}

/// The content bytes of the last occurrence of `tag` when that occurrence
/// is length-delimited and readable.
pub open spec fn lazy_bytes_last(data: Seq<u8>, tag: u32) -> Option<Seq<u8>> {
    match last_field(data, tag) {
        Some(f) => if f.wire == WIRE_LEN {
            match len_delim(data, f.pos) {
                Some((s, e)) => Some(data.subrange(s, e)),
                None => None,
            }
        } else {
            None
        },
        None => None,
    }
}

/// The content bytes of the last occurrence of `tag` when they are valid
/// UTF-8.
pub open spec fn lazy_string_last(data: Seq<u8>, tag: u32) -> Option<Seq<u8>> {
    match lazy_bytes_last(data, tag) {
        Some(b) => if valid_utf8(b) {
            Some(b)
        } else {
            None
        },
        None => None,
    }
}

/// The memoized field table of a record view: the last recorded
/// `(wire type, value position)` of each singular tag, and every recorded
/// position of the repeated attribute tag.
struct FieldCache {
    time_unix_nano: Option<(u8, usize)>,
    observed_time_unix_nano: Option<(u8, usize)>,
    severity_number: Option<(u8, usize)>,
    severity_text: Option<(u8, usize)>,
    body: Option<(u8, usize)>,
    attributes: Vec<(u8, usize)>,
    dropped_attributes_count: Option<(u8, usize)>,
    flags: Option<(u8, usize)>,
    trace_id: Option<(u8, usize)>,
    span_id: Option<(u8, usize)>,
    event_name: Option<(u8, usize)>,
}

/// Zero-copy view of one log record.  Unlike the other views, a record view
/// is read far more often per message, so its constructor performs one full
/// field scan and memoizes every tag position; each accessor is then a
/// table lookup instead of a rescan.
pub struct LogRecordParser<'a> {
    parser: ProtobufParser<'a>,
    cache: FieldCache,
}

impl<'a> View for LogRecordParser<'a> {
    type V = Seq<u8>;

    closed spec fn view(&self) -> Seq<u8> {
        self.parser@
    }
}

/// Agreement between a field table and the recorded entries of a scan.
spec fn cache_matches(c: FieldCache, done: Seq<FieldAt>) -> bool {
    &&& pair_match(c.time_unix_nano, last_pair_of(done.filter(tag_pred(1))))
    &&& pair_match(c.severity_number, last_pair_of(done.filter(tag_pred(2))))
    &&& pair_match(c.severity_text, last_pair_of(done.filter(tag_pred(3))))
    &&& pair_match(c.body, last_pair_of(done.filter(tag_pred(5))))
    &&& pair_match(c.dropped_attributes_count, last_pair_of(done.filter(tag_pred(7))))
    &&& pair_match(c.flags, last_pair_of(done.filter(tag_pred(8))))
    &&& pair_match(c.trace_id, last_pair_of(done.filter(tag_pred(9))))
    &&& pair_match(c.span_id, last_pair_of(done.filter(tag_pred(10))))
    &&& pair_match(c.observed_time_unix_nano, last_pair_of(done.filter(tag_pred(11))))
    &&& pair_match(c.event_name, last_pair_of(done.filter(tag_pred(12))))
    &&& pairs_of(c.attributes@) == field_pairs(done.filter(tag_pred(6)))
}

impl<'a> LogRecordParser<'a> {
    /// The memoized table agrees with the field scan of the record bytes.
    #[verifier::type_invariant]
    closed spec fn cache_ok(self) -> bool {
        cache_matches(self.cache, fields_of(self.parser@))
    }

    /// Builds the view and its memoized field table with one linear scan of
    /// the record bytes.
    pub fn new(data: &'a [u8]) -> (r: Self)
        ensures
            r@ == data@,
    {
        let parser = ProtobufParser::new(data);
        let ghost d = data@;
        let mut cache = FieldCache {
            time_unix_nano: None,
            observed_time_unix_nano: None,
            severity_number: None,
            severity_text: None,
            body: None,
            attributes: Vec::new(),
            dropped_attributes_count: None,
            flags: None,
            trace_id: None,
            span_id: None,
            event_name: None,
        };
        let ghost mut done: Seq<FieldAt> = Seq::empty();
        let mut pos: usize = 0;
        let mut stopped = false;
        proof {
            lemma_filter_empty(tag_pred(1));
            lemma_filter_empty(tag_pred(2));
            lemma_filter_empty(tag_pred(3));
            lemma_filter_empty(tag_pred(5));
            lemma_filter_empty(tag_pred(6));
            lemma_filter_empty(tag_pred(7));
            lemma_filter_empty(tag_pred(8));
            lemma_filter_empty(tag_pred(9));
            lemma_filter_empty(tag_pred(10));
            lemma_filter_empty(tag_pred(11));
            lemma_filter_empty(tag_pred(12));
            assert(pairs_of(cache.attributes@) =~= field_pairs(
                Seq::<FieldAt>::empty().filter(tag_pred(6)),
            ));
        }
        while !stopped && pos < parser.data_len()
            invariant
                parser@ == d,
                pos <= d.len(),
                fields_of(d) =~= done + (if stopped {
                    Seq::<FieldAt>::empty()
                } else {
                    fields_at(d, pos as int)
                }),
                cache_matches(cache, done),
            decreases d.len() - pos + (if stopped {
                0int
            } else {
                1int
            }),
        {
            match parser.parse_varint(pos) {
                None => {
                    proof {
                        assert(fields_at(d, pos as int) =~= Seq::<FieldAt>::empty());
                    }
                    stopped = true;
                },
                Some((tag_and_wire, new_pos)) => {
                    let tag = #[verifier::truncate] ((tag_and_wire >> 3) as u32);
                    let wire_type = #[verifier::truncate] ((tag_and_wire & 0x7) as u8);
                    let ghost f = FieldAt { tag: tag, wire: wire_type, pos: new_pos as int };
                    proof {
                        lemma_fields_at_step(d, pos as int);
                        lemma_filter_push(done, f, 1);
                        lemma_filter_push(done, f, 2);
                        lemma_filter_push(done, f, 3);
                        lemma_filter_push(done, f, 5);
                        lemma_filter_push(done, f, 6);
                        lemma_filter_push(done, f, 7);
                        lemma_filter_push(done, f, 8);
                        lemma_filter_push(done, f, 9);
                        lemma_filter_push(done, f, 10);
                        lemma_filter_push(done, f, 11);
                        lemma_filter_push(done, f, 12);
                    }
                    if tag == 1 {
                        cache.time_unix_nano = Some((wire_type, new_pos));
                    } else if tag == 2 {
                        cache.severity_number = Some((wire_type, new_pos));
                    } else if tag == 3 {
                        cache.severity_text = Some((wire_type, new_pos));
                    } else if tag == 5 {
                        cache.body = Some((wire_type, new_pos));
                    } else if tag == 6 {
                        let ghost old_attrs = cache.attributes@;
                        cache.attributes.push((wire_type, new_pos));
                        proof {
                            lemma_pairs_of_push(old_attrs, (wire_type, new_pos));
                            lemma_field_pairs_push(done.filter(tag_pred(6)), f);
                            assert((done + seq![f]).filter(tag_pred(6)) == done.filter(
                                tag_pred(6),
                            ).push(f));
                            assert(pairs_of(cache.attributes@) == field_pairs(
                                (done + seq![f]).filter(tag_pred(6)),
                            ));
                        }
                    } else if tag == 7 {
                        cache.dropped_attributes_count = Some((wire_type, new_pos));
                    } else if tag == 8 {
                        cache.flags = Some((wire_type, new_pos));
                    } else if tag == 9 {
                        cache.trace_id = Some((wire_type, new_pos));
                    } else if tag == 10 {
                        cache.span_id = Some((wire_type, new_pos));
                    } else if tag == 11 {
                        cache.observed_time_unix_nano = Some((wire_type, new_pos));
                    } else if tag == 12 {
                        cache.event_name = Some((wire_type, new_pos));
                    }
                    proof {
                        done = done + seq![f];
                    }
                    match parser.skip_value(wire_type, new_pos) {
                        Some(p3) => {
                            pos = p3;
                        },
                        None => {
                            stopped = true;
                        },
                    }
                },
            }
        }
        proof {
            if !stopped {
                assert(fields_at(d, pos as int) =~= Seq::<FieldAt>::empty());
            }
            assert(done + Seq::<FieldAt>::empty() =~= done);
            assert(fields_of(d) =~= done);
        }
        LogRecordParser { parser, cache }
    }

    /// The explicit timestamp (tag 1), 0 when absent or unreadable.
    pub fn time_unix_nano(&self) -> (r: u64)
        ensures
            r == lazy_fixed64_or0(self@, 1),
    {
        proof {
            use_type_invariant(self);
        }
        if let Some((wire_type, pos)) = self.cache.time_unix_nano {
            if wire_type == WIRE_FIXED64 {
                if let Some((v, _)) = self.parser.parse_fixed64(pos) {
                    return v;
                }
            }
        }
        0
    }

    /// The observed timestamp (tag 11), 0 when absent or unreadable.
    pub fn observed_time_unix_nano(&self) -> (r: u64)
        ensures
            r == lazy_fixed64_or0(self@, 11),
    {
        proof {
            use_type_invariant(self);
        }
        if let Some((wire_type, pos)) = self.cache.observed_time_unix_nano {
            if wire_type == WIRE_FIXED64 {
                if let Some((v, _)) = self.parser.parse_fixed64(pos) {
                    return v;
                }
            }
        }
        0
    }

    /// The severity number (tag 2), 0 when absent or unreadable.
    pub fn severity_number(&self) -> (r: i32)
        ensures
            r == lazy_varint_i32_or0(self@, 2),
    {
        proof {
            use_type_invariant(self);
        }
        if let Some((wire_type, pos)) = self.cache.severity_number {
            if wire_type == WIRE_VARINT {
                if let Some((v, _)) = self.parser.parse_varint(pos) {
                    return to_i32(v);
                }
            }
        }
        0
    }

    /// The severity text (tag 3), absent when missing or not valid UTF-8.
    pub fn severity_text(&self) -> (r: Option<&'a [u8]>)
        ensures
            match r {
                Some(b) => lazy_string_last(self@, 3) == Some(b@),
                None => lazy_string_last(self@, 3) is None,
            },
    {
        proof {
            use_type_invariant(self);
        }
        if let Some((wire_type, pos)) = self.cache.severity_text {
            if wire_type == WIRE_LEN {
                if let Some((bytes, _)) = self.parser.parse_length_delimited(pos) {
                    if is_valid_utf8(bytes) {
                        return Some(bytes);
                    }
                }
            }
        }
        None
    }

    /// The raw bytes of the body value message (tag 5), if present.
    pub fn body(&self) -> (r: Option<&'a [u8]>)
        ensures
            match r {
                Some(b) => lazy_bytes_last(self@, 5) == Some(b@),
                None => lazy_bytes_last(self@, 5) is None,
            },
    {
        proof {
            use_type_invariant(self);
        }
        if let Some((wire_type, pos)) = self.cache.body {
            if wire_type == WIRE_LEN {
                if let Some((bytes, _)) = self.parser.parse_length_delimited(pos) {
                    return Some(bytes);
                }
            }
        }
        None
    }

    /// An iterator over the record's attributes, backed by the memoized
    /// positions of every tag-6 field.
    pub fn attributes(&'a self) -> (r: CachedAttributeIterator<'a>)
        ensures
            r.buf() == self@,
            r.idx() == 0,
            r.entries() == found_pairs(self@, 6),
    {
        proof {
            use_type_invariant(self);
        }
        CachedAttributeIterator { parser: self.parser, positions: &self.cache.attributes, index: 0 }
    }

    /// The dropped-attributes count (tag 7), if present and readable.
    pub fn dropped_attributes_count(&self) -> (r: Option<u32>)
        ensures
            r == lazy_varint_u32_last(self@, 7),
    {
        proof {
            use_type_invariant(self);
        }
        if let Some((wire_type, pos)) = self.cache.dropped_attributes_count {
            if wire_type == WIRE_VARINT {
                if let Some((v, _)) = self.parser.parse_varint(pos) {
                    return Some(to_u32(v));
                }
            }
        }
        None
    }

    /// The flags field (tag 8), if present and readable.
    pub fn flags(&self) -> (r: Option<u32>)
        ensures
            r == lazy_fixed32_last(self@, 8),
    {
        proof {
            use_type_invariant(self);
        }
        if let Some((wire_type, pos)) = self.cache.flags {
            if wire_type == WIRE_FIXED32 {
                if let Some((v, _)) = self.parser.parse_fixed32(pos) {
                    return Some(v);
                }
            }
        }
        None
    }

    /// The trace identifier bytes (tag 9), if present and readable.
    pub fn trace_id(&self) -> (r: Option<&'a [u8]>)
        ensures
            match r {
                Some(b) => lazy_bytes_last(self@, 9) == Some(b@),
                None => lazy_bytes_last(self@, 9) is None,
            },
    {
        proof {
            use_type_invariant(self);
        }
        if let Some((wire_type, pos)) = self.cache.trace_id {
            if wire_type == WIRE_LEN {
                if let Some((bytes, _)) = self.parser.parse_length_delimited(pos) {
                    return Some(bytes);
                }
            }
        }
        None
    }

    /// The span identifier bytes (tag 10), if present and readable.
    pub fn span_id(&self) -> (r: Option<&'a [u8]>)
        ensures
            match r {
                Some(b) => lazy_bytes_last(self@, 10) == Some(b@),
                None => lazy_bytes_last(self@, 10) is None,
            },
    {
        proof {
            use_type_invariant(self);
        }
        if let Some((wire_type, pos)) = self.cache.span_id {
            if wire_type == WIRE_LEN {
                if let Some((bytes, _)) = self.parser.parse_length_delimited(pos) {
                    return Some(bytes);
                }
            }
        }
        None
    }

    /// The event name (tag 12), absent when missing or not valid UTF-8.
    pub fn event_name(&self) -> (r: Option<&'a [u8]>)
        ensures
            match r {
                Some(b) => lazy_string_last(self@, 12) == Some(b@),
                None => lazy_string_last(self@, 12) is None,
            },
    {
        proof {
            use_type_invariant(self);
        }
        if let Some((wire_type, pos)) = self.cache.event_name {
            if wire_type == WIRE_LEN {
                if let Some((bytes, _)) = self.parser.parse_length_delimited(pos) {
                    if is_valid_utf8(bytes) {
                        return Some(bytes);
                    }
                }
            }
        }
        None
    }

    /// Whether the trace identifier is valid: exactly 16 bytes and not all
    /// zero.
    pub fn is_trace_id_valid(&self) -> (r: bool)
        ensures
            r == id_valid(lazy_bytes_last(self@, 9), 16),
    {
        if let Some(trace_id) = self.trace_id() {
            trace_id.len() == 16 && any_nonzero(trace_id)
        } else {
            false
        }
    }

    /// Whether the span identifier is valid: exactly 8 bytes and not all
    /// zero.
    pub fn is_span_id_valid(&self) -> (r: bool)
        ensures
            r == id_valid(lazy_bytes_last(self@, 10), 8),
    {
        if let Some(span_id) = self.span_id() {
            span_id.len() == 8 && any_nonzero(span_id)
        } else {
            false
        }
    }

    /// The trace flags: the low 8 bits of the flags field, if present.
    pub fn trace_flags(&self) -> (r: Option<u8>)
        ensures
            match r {
                Some(b) => lazy_fixed32_last(self@, 8) matches Some(f) && b == (f & 0xff) as u8,
                None => lazy_fixed32_last(self@, 8) is None,
            },
    {
        match self.flags() {
            Some(flags) => Some(#[verifier::truncate] ((flags & 0xff) as u8)),
            None => None,
        }
    }
}

/// Iterator over the record-message submessages of a scope group.
pub struct LogRecordIterator<'a> {
    parser: ProtobufParser<'a>,
    pos: usize,
}

impl<'a> LogRecordIterator<'a> {
    /// The underlying buffer.
    pub closed spec fn buf(self) -> Seq<u8> {
        self.parser@
    }

    /// The content ranges this iterator has yet to yield.
    pub closed spec fn remaining(self) -> Seq<(int, int)> {
        children_at(self.parser@, self.pos as int, 2)
    }

    /// Yields the next log record, advancing past it.
    pub fn next(&mut self) -> (r: Option<LogRecordParser<'a>>)
        ensures
            final(self).buf() == old(self).buf(),
            match r {
                Some(p) => old(self).remaining().len() > 0 && p@ == old(self).buf().subrange(
                    old(self).remaining()[0].0,
                    old(self).remaining()[0].1,
                ) && final(self).remaining() == old(self).remaining().skip(1),
                None => old(self).remaining().len() == 0 && final(self).remaining().len() == 0,
            },
    {
        let (sub, new_pos) = scan_child(&self.parser, self.pos, 2);
        self.pos = new_pos;
        match sub {
            Some(b) => Some(LogRecordParser::new(b)),
            None => None,
        }
    }
}

/// Iterator over a record's attributes driven by the memoized positions of
/// its tag-6 fields: each step is a table lookup, not a rescan.
pub struct CachedAttributeIterator<'a> {
    parser: ProtobufParser<'a>,
    positions: &'a Vec<(u8, usize)>,
    index: usize,
}

impl<'a> CachedAttributeIterator<'a> {
    /// The underlying buffer (the record message bytes).
    pub closed spec fn buf(self) -> Seq<u8> {
        self.parser@
    }

    /// The memoized `(wire type, value position)` table driving the
    /// iterator.
    pub closed spec fn entries(self) -> Seq<(u8, int)> {
        pairs_of(self.positions@)
    }

    /// The position of the iterator in the table.
    pub closed spec fn idx(self) -> int {
        self.index as int
    }

    /// The number of memoized table entries.
    pub fn entries_len(&self) -> (n: usize)
        ensures
            n == self.entries().len(),
    {
        proof {
            assert(self.entries().len() == self.positions@.len());
        }
        self.positions.len()
    }

    /// Yields the attribute at the current table entry when that entry is a
    /// readable length-delimited field, advancing the table position either
    /// way; reports `None` past the end of the table or on an unusable
    /// entry.
    pub fn next(&mut self) -> (r: Option<KeyValueParser<'a>>)
        ensures
            final(self).buf() == old(self).buf(),
            final(self).entries() == old(self).entries(),
            final(self).idx() == if old(self).idx() < old(self).entries().len() {
                old(self).idx() + 1
            } else {
                old(self).idx()
            },
            match r {
                Some(p) => {
                    &&& old(self).idx() < old(self).entries().len()
                    &&& ({
                        let e = old(self).entries()[old(self).idx()];
                        &&& e.0 == WIRE_LEN
                        &&& (len_delim(old(self).buf(), e.1) matches Some((s, ee)) && p@ == old(
                            self,
                        ).buf().subrange(s, ee))
                    })
                },
                None => old(self).idx() >= old(self).entries().len() || {
                    let e = old(self).entries()[old(self).idx()];
                    e.0 != WIRE_LEN || len_delim(old(self).buf(), e.1) is None
                },
            },
    {
        if self.index < self.positions.len() {
            let (wire_type, pos) = self.positions[self.index];
            self.index = self.index + 1;
            if wire_type == WIRE_LEN {
                if let Some((bytes, _)) = self.parser.parse_length_delimited(pos) {
                    return Some(KeyValueParser::new(bytes));
                }
            }
        }
        None
    }
}

/// Iterator over the attribute submessages of a record that is not backed
/// by the record view's memoized table (tag 6, scanned on demand).
pub struct AttributeIterator<'a> {
    parser: ProtobufParser<'a>,
    pos: usize,
}

impl<'a> AttributeIterator<'a> {
    /// The underlying buffer (the record message bytes).
    pub closed spec fn buf(self) -> Seq<u8> {
        self.parser@
    }

    /// The content ranges this iterator has yet to yield.
    pub closed spec fn remaining(self) -> Seq<(int, int)> {
        children_at(self.parser@, self.pos as int, 6)
    }

    /// Yields the next attribute, advancing past it.
    pub fn next(&mut self) -> (r: Option<KeyValueParser<'a>>)
        ensures
            final(self).buf() == old(self).buf(),
            match r {
                Some(p) => old(self).remaining().len() > 0 && p@ == old(self).buf().subrange(
                    old(self).remaining()[0].0,
                    old(self).remaining()[0].1,
                ) && final(self).remaining() == old(self).remaining().skip(1),
                None => old(self).remaining().len() == 0 && final(self).remaining().len() == 0,
            },
    {
        let (sub, new_pos) = scan_child(&self.parser, self.pos, 6);
        self.pos = new_pos;
        match sub {
            Some(b) => Some(KeyValueParser::new(b)),
            None => None,
        }
    }
}

} // verus!
