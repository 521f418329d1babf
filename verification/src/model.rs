//! The mathematical model of a decoded logs message: what each message kind
//! of the wire format denotes, defined purely over the bytes.  The eager
//! tree, the lazy views and the plain in-memory tree all state their
//! contracts against these functions.

use vstd::prelude::*;
use vstd::utf8::valid_utf8;
use crate::wire::{
    first_field, fixed32, fixed64, found_fields, len_delim, msg_ranges, varint, WIRE_FIXED32,
    WIRE_FIXED64, WIRE_LEN, WIRE_VARINT,
};

verus! {

/// The value carried by an attribute or a record body: a tagged union of
/// scalar and composite branches.  A `Double` carries the raw bit pattern of
/// the 8-byte field.
#[verifier::ext_equal]
pub ghost enum ValueModel {
    String(Seq<u8>),
    Bool(bool),
    Int(i64),
    Double(u64),
    Array(Seq<ValueModel>),
    KvList(Seq<AttrModel>),
    Bytes(Seq<u8>),
}

/// One key/value attribute; the key is never empty.
#[verifier::ext_equal]
pub ghost struct AttrModel {
    pub key: Seq<u8>,
    pub val: Option<ValueModel>,
}

/// One log record.
#[verifier::ext_equal]
pub ghost struct RecordModel {
    pub time: Option<u64>,
    pub observed: u64,
    pub severity: i32,
    pub severity_text: Option<Seq<u8>>,
    pub body: Option<ValueModel>,
    pub attrs: Seq<AttrModel>,
    pub dropped: Option<u32>,
    pub flags: Option<u32>,
    pub trace_id: Option<Seq<u8>>,
    pub span_id: Option<Seq<u8>>,
    pub event_name: Option<Seq<u8>>,
}

/// One instrumentation scope.
#[verifier::ext_equal]
pub ghost struct ScopeModel {
    pub name: Option<Seq<u8>>,
    pub version: Option<Seq<u8>>,
    pub attrs: Seq<AttrModel>,
    pub dropped: Option<u32>,
}

/// The resource description of a resource group.
#[verifier::ext_equal]
pub ghost struct ResourceModel {
    pub attrs: Seq<AttrModel>,
    pub dropped: Option<u32>,
}

/// One instrumentation scope group: the scope, its records, and a schema
/// URL.
#[verifier::ext_equal]
pub ghost struct ScopeLogsModel {
    pub scope: Option<ScopeModel>,
    pub records: Seq<RecordModel>,
    pub schema_url: Option<Seq<u8>>,
}

/// One resource group: the resource, its scope groups, and a schema URL.
#[verifier::ext_equal]
pub ghost struct ResourceLogsModel {
    pub resource: Option<ResourceModel>,
    pub scopes: Seq<ScopeLogsModel>,
    pub schema_url: Option<Seq<u8>>,
}

/// The low 64 bits of a varint reinterpreted as a signed value.
pub open spec fn as_i64(v: u64) -> i64 {
    if v <= 0x7fff_ffff_ffff_ffff {
        v as i64
    } else {
        (v - 0x1_0000_0000_0000_0000) as i64
    }
}

/// The low 32 bits of a varint reinterpreted as a signed value.
pub open spec fn as_i32(v: u64) -> i32 {
    let w = v & 0xffff_ffff;
    if w <= 0x7fff_ffff {
        w as i32
    } else {
        (w - 0x1_0000_0000) as i32
    }
}

/// The low 32 bits of a varint.
pub open spec fn as_u32(v: u64) -> u32 {
    (v & 0xffff_ffff) as u32
}

/// The string value of the first attribute whose key is `key`: absent when
/// no attribute has that key, or when the first one that does carries no
/// string value.
pub open spec fn attr_lookup(attrs: Seq<AttrModel>, key: Seq<u8>) -> Option<Seq<u8>>
    decreases attrs.len(),
{
    if attrs.len() == 0 {
        None
    } else if attrs[0].key == key {
        match attrs[0].val {
            Some(ValueModel::String(s)) => Some(s),
            _ => None,
        }
    } else {
        attr_lookup(attrs.skip(1), key)
    }
}

/// Decides whether two byte slices hold the same bytes.
pub fn bytes_eq(a: &[u8], b: &[u8]) -> (r: bool)
    ensures
        r == (a@ == b@),
{
    if a.len() != b.len() {
        proof {
            assert(a@.len() != b@.len());
        }
        return false;
    }
    let mut k: usize = 0;
    while k < a.len()
        invariant
            k <= a@.len(),
            a@.len() == b@.len(),
            forall|i: int| 0 <= i < k ==> a@[i] == b@[i],
        decreases a@.len() - k,
    {
        if a[k] != b[k] {
            proof {
                assert(a@[k as int] != b@[k as int]);
            }
            return false;
        }
        k = k + 1;
    }
    proof {
        assert(a@ =~= b@);
    }
    true
}

/// Validity of a trace or span identifier: present, of exactly the required
/// length, and not entirely zero.
pub open spec fn id_valid(b: Option<Seq<u8>>, n: int) -> bool {
    match b {
        Some(t) => t.len() == n && exists|i: int| 0 <= i < t.len() && t[i] != 0,
        None => false,
    }
}

/// Decides whether any byte of the slice is nonzero.
pub fn any_nonzero(b: &[u8]) -> (r: bool)
    ensures
        r == exists|i: int| 0 <= i < b@.len() && b@[i] != 0,
{
    let mut k: usize = 0;
    while k < b.len()
        invariant
            k <= b@.len(),
            forall|i: int| 0 <= i < k ==> b@[i] == 0,
        decreases b@.len() - k,
    {
        if b[k] != 0 {
            return true;
        }
        k = k + 1;
    }
    false
}

/// Reinterprets a decoded varint as the signed 64-bit value with the same
/// bit pattern.
pub fn to_i64(v: u64) -> (r: i64)
    ensures
        r == as_i64(v),
{
    if v <= 0x7fff_ffff_ffff_ffff {
        v as i64
    } else {
        ((v - 0x8000_0000_0000_0000) as i64) + i64::MIN
    }
}

/// Reinterprets the low 32 bits of a decoded varint as a signed value.
pub fn to_i32(v: u64) -> (r: i32)
    ensures
        r == as_i32(v),
{
    proof {
        assert(v & 0xffff_ffff <= 0xffff_ffff) by (bit_vector);
    }
    let w = v & 0xffff_ffff;
    if w <= 0x7fff_ffff {
        w as i32
    } else {
        ((w - 0x8000_0000) as i32) + i32::MIN
    }
}

/// The low 32 bits of a decoded varint.
pub fn to_u32(v: u64) -> (r: u32)
    ensures
        r == as_u32(v),
{
    proof {
        assert(v & 0xffff_ffff <= 0xffff_ffff) by (bit_vector);
    }
    (v & 0xffff_ffff) as u32
}

/// The content bytes of the first occurrence of `tag`, when that occurrence
/// is length-delimited and its span is readable.
pub open spec fn field_bytes_first(data: Seq<u8>, tag: u32) -> Option<Seq<u8>> {
    match first_field(data, tag) {
        Some(f) => if f.wire == WIRE_LEN {
            match len_delim(data, f.pos) {
                Some((s, e)) => Some(data.subrange(s, e)),
                None => None,
            }
        } else {
            None
        },
        None => None,
    }
}

/// The content bytes of the first occurrence of `tag` when they are valid
/// UTF-8; an invalid encoding makes the field absent.
pub open spec fn string_first(data: Seq<u8>, tag: u32) -> Option<Seq<u8>> {
    match field_bytes_first(data, tag) {
        Some(b) => if valid_utf8(b) {
            Some(b)
        } else {
            None
        },
        None => None,
    }
}

/// The value of the first occurrence of `tag` when it is a readable varint.
pub open spec fn varint_first(data: Seq<u8>, tag: u32) -> Option<u64> {
    match first_field(data, tag) {
        Some(f) => if f.wire == WIRE_VARINT {
            match varint(data, f.pos) {
                Some((v, _)) => Some(v),
                None => None,
            }
        } else {
            None
        },
        None => None,
    }
}

/// The value of the first occurrence of `tag` when it is a readable 8-byte
/// field.
pub open spec fn fixed64_first(data: Seq<u8>, tag: u32) -> Option<u64> {
    match first_field(data, tag) {
        Some(f) => if f.wire == WIRE_FIXED64 {
            match fixed64(data, f.pos) {
                Some((v, _)) => Some(v),
                None => None,
            }
        } else {
            None
        },
        None => None,
    }
}

/// The value of the first occurrence of `tag` when it is a readable 4-byte
/// field.
pub open spec fn fixed32_first(data: Seq<u8>, tag: u32) -> Option<u32> {
    match first_field(data, tag) {
        Some(f) => if f.wire == WIRE_FIXED32 {
            match fixed32(data, f.pos) {
                Some((v, _)) => Some(v),
                None => None,
            }
        } else {
            None
        },
        None => None,
    }
}

/// Round trip of an 8-byte field through the extraction used by the
/// decoded models: encoding a value under `tag` and reading the field back
/// yields that value, whatever follows the encoding.
pub proof fn lemma_fixed64_first_round_trip(tag: u32, v: u64, rest: Seq<u8>)
    ensures
        fixed64_first(crate::wire::encoded_fixed64_field(tag, v) + rest, tag) == Some(v),
{
    crate::wire::lemma_fixed64_field_round_trip(tag, v, rest);
}

/// Round trip of a varint field through the extraction used by the decoded
/// models.
pub proof fn lemma_varint_first_round_trip(tag: u32, v: u64, rest: Seq<u8>)
    ensures
        varint_first(crate::wire::encoded_varint_field(tag, v) + rest, tag) == Some(v),
{
    crate::wire::lemma_varint_field_round_trip(tag, v, rest);
}

/// Round trip of a length-delimited field through the extraction used by
/// the decoded models.
pub proof fn lemma_field_bytes_first_round_trip(tag: u32, content: Seq<u8>, rest: Seq<u8>)
    requires
        content.len() <= u64::MAX,
    ensures
        field_bytes_first(crate::wire::encoded_field(tag, content) + rest, tag) == Some(content),
{
    crate::wire::lemma_len_field_round_trip(tag, content, rest);
}

/// Round trip of a record's scalar fields: a record message that begins
/// with its encoded timestamp, observed timestamp and severity number —
/// whatever fields follow — denotes a record carrying exactly those
/// values.
pub proof fn lemma_record_scalars_round_trip(t: u64, o: u64, s: u64, rest: Seq<u8>)
    ensures
        ({
            let buf = crate::wire::encoded_fixed64_field(1, t) + (crate::wire::encoded_fixed64_field(
                11,
                o,
            ) + (crate::wire::encoded_varint_field(2, s) + rest));
            &&& record_model(buf).time == Some(t)
            &&& record_model(buf).observed == o
            &&& record_model(buf).severity == as_i32(s)
        }),
{
    let h1 = crate::wire::encoded_fixed64_field(1, t);
    let h2 = crate::wire::encoded_fixed64_field(11, o);
    let h3 = crate::wire::encoded_varint_field(2, s);
    let r2 = h3 + rest;
    let r1 = h2 + r2;
    let buf = h1 + r1;

    // The explicit timestamp is the first field of the buffer itself.
    crate::wire::lemma_fixed64_field_round_trip(1, t, r1);
    assert(fixed64_first(buf, 1) == Some(t));

    // The observed timestamp is the first field of what follows, moved by
    // the first field's length.
    crate::wire::lemma_fixed64_field_then(1, t, r1);
    crate::wire::lemma_fixed64_field_round_trip(11, o, r2);
    let g11 = first_field(r1, 11)->Some_0;
    assert(first_field(buf, 11) == Some(
        crate::wire::FieldAt { tag: g11.tag, wire: g11.wire, pos: g11.pos + h1.len() },
    ));
    crate::wire::lemma_fixed64_shift(h1, r1, g11.pos);
    assert(fixed64_first(buf, 11) == Some(o));

    // The severity number sits two fields in; the shifts compose.
    crate::wire::lemma_varint_field_round_trip(2, s, rest);
    crate::wire::lemma_fixed64_field_then(11, o, r2);
    let g2 = first_field(r2, 2)->Some_0;
    assert(first_field(r1, 2) == Some(
        crate::wire::FieldAt { tag: g2.tag, wire: g2.wire, pos: g2.pos + h2.len() },
    ));
    crate::wire::lemma_varint_shift(h2, r2, g2.pos, 0, 0);
    assert(varint(r1, g2.pos + h2.len()) matches Some(rr) && rr.0 == s);
    crate::wire::lemma_fixed64_field_then(1, t, r1);
    assert(first_field(buf, 2) == Some(
        crate::wire::FieldAt { tag: g2.tag, wire: g2.wire, pos: g2.pos + h2.len() + h1.len() },
    ));
    crate::wire::lemma_varint_shift(h1, r1, g2.pos + h2.len(), 0, 0);
    assert(varint(buf, g2.pos + h2.len() + h1.len()) matches Some(rr) && rr.0 == s);
    assert(varint_first(buf, 2) == Some(s));
}

/// What an attribute value message denotes: the first populated branch,
/// probing tags 1 to 7 in order; a branch whose encoding is unusable is
/// passed over; `None` when no branch is populated.
pub open spec fn value_model(data: Seq<u8>) -> Option<ValueModel>
    decreases data.len(), 3int, 0int,
{
    if string_first(data, 1) is Some {
        Some(ValueModel::String(string_first(data, 1)->Some_0))
    } else if varint_first(data, 2) is Some {
        Some(ValueModel::Bool(varint_first(data, 2)->Some_0 != 0))
    } else if varint_first(data, 3) is Some {
        Some(ValueModel::Int(as_i64(varint_first(data, 3)->Some_0)))
    } else if fixed64_first(data, 4) is Some {
        Some(ValueModel::Double(fixed64_first(data, 4)->Some_0))
    } else if first_field(data, 5) is Some {
        Some(ValueModel::Array(values_list(data, 0)))
    } else if first_field(data, 6) is Some {
        Some(ValueModel::KvList(attrs_list(data, 6, 0)))
    } else if field_bytes_first(data, 7) is Some {
        Some(ValueModel::Bytes(field_bytes_first(data, 7)->Some_0))
    } else {
        None
    }
}

/// The element values of an array value message, from the `i`-th occurrence
/// of tag 5 on: occurrences that are not readable submessages, and elements
/// whose own message has no populated branch, are dropped.
pub open spec fn values_list(data: Seq<u8>, i: int) -> Seq<ValueModel>
    decreases data.len(), 1int, found_fields(data, 5).len() - i,
{
    let es = found_fields(data, 5);
    if i < 0 || i >= es.len() {
        Seq::empty()
    } else {
        let f = es[i];
        let rest = values_list(data, i + 1);
        if f.wire == WIRE_LEN && len_delim(data, f.pos) is Some {
            let r = len_delim(data, f.pos)->Some_0;
            if 0 <= r.0 <= r.1 <= data.len() && r.1 - r.0 < data.len() {
                match value_model(data.subrange(r.0, r.1)) {
                    Some(v) => seq![v] + rest,
                    None => rest,
                }
            } else {
                rest
            }
        } else {
            rest
        }
    }
}

/// What an attribute message denotes: `None` when the key is absent, empty,
/// or not valid UTF-8 (such an attribute is dropped), otherwise the key and
/// the attribute's value, if any.
pub open spec fn attr_model(data: Seq<u8>) -> Option<AttrModel>
    decreases data.len(), 2int, 0int,
{
    match string_first(data, 1) {
        Some(k) => if k.len() == 0 {
            None
        } else {
            Some(
                AttrModel {
                    key: k,
                    val: match field_bytes_first(data, 2) {
                        Some(vb) => if vb.len() < data.len() {
                            value_model(vb)
                        } else {
                            None
                        },
                        None => None,
                    },
                },
            )
        },
        None => None,
    }
}

/// The attributes carried by the occurrences of `tag`, from the `i`-th
/// occurrence on; occurrences that are not readable submessages, and
/// dropped attributes (empty or unreadable key), are left out.
pub open spec fn attrs_list(data: Seq<u8>, tag: u32, i: int) -> Seq<AttrModel>
    decreases data.len(), 1int, found_fields(data, tag).len() - i,
{
    let es = found_fields(data, tag);
    if i < 0 || i >= es.len() {
        Seq::empty()
    } else {
        let f = es[i];
        let rest = attrs_list(data, tag, i + 1);
        if f.wire == WIRE_LEN && len_delim(data, f.pos) is Some {
            let r = len_delim(data, f.pos)->Some_0;
            if 0 <= r.0 <= r.1 <= data.len() && r.1 - r.0 < data.len() {
                match attr_model(data.subrange(r.0, r.1)) {
                    Some(a) => seq![a] + rest,
                    None => rest,
                }
            } else {
                rest
            }
        } else {
            rest
        }
    }
}

/// What a log record message denotes.  The observed timestamp and the
/// severity number default to 0 when absent; every other field is optional.
pub open spec fn record_model(data: Seq<u8>) -> RecordModel
    decreases data.len(), 4int, 0int,
{
    RecordModel {
        time: fixed64_first(data, 1),
        observed: match fixed64_first(data, 11) {
            Some(v) => v,
            None => 0,
        },
        severity: match varint_first(data, 2) {
            Some(v) => as_i32(v),
            None => 0,
        },
        severity_text: string_first(data, 3),
        body: match field_bytes_first(data, 5) {
            Some(b) => if b.len() < data.len() {
                value_model(b)
            } else {
                None
            },
            None => None,
        },
        attrs: attrs_list(data, 6, 0),
        dropped: match varint_first(data, 7) {
            Some(v) => Some(as_u32(v)),
            None => None,
        },
        flags: fixed32_first(data, 8),
        trace_id: field_bytes_first(data, 9),
        span_id: field_bytes_first(data, 10),
        event_name: string_first(data, 12),
    }
}

/// What an instrumentation scope message denotes.
pub open spec fn scope_model(data: Seq<u8>) -> ScopeModel
    decreases data.len(), 4int, 0int,
{
    ScopeModel {
        name: string_first(data, 1),
        version: string_first(data, 2),
        attrs: attrs_list(data, 3, 0),
        dropped: match varint_first(data, 4) {
            Some(v) => Some(as_u32(v)),
            None => None,
        },
    }
}

/// What a resource message denotes.
pub open spec fn resource_model(data: Seq<u8>) -> ResourceModel
    decreases data.len(), 4int, 0int,
{
    ResourceModel {
        attrs: attrs_list(data, 1, 0),
        dropped: match varint_first(data, 2) {
            Some(v) => Some(as_u32(v)),
            None => None,
        },
    }
}

/// The log records of a scope group, from the `i`-th occurrence of tag 2
/// on; occurrences that are not readable submessages are left out.
pub open spec fn records_list(data: Seq<u8>, i: int) -> Seq<RecordModel>
    decreases data.len(), 1int, found_fields(data, 2).len() - i,
{
    let es = found_fields(data, 2);
    if i < 0 || i >= es.len() {
        Seq::empty()
    } else {
        let f = es[i];
        let rest = records_list(data, i + 1);
        if f.wire == WIRE_LEN && len_delim(data, f.pos) is Some {
            let r = len_delim(data, f.pos)->Some_0;
            if 0 <= r.0 <= r.1 <= data.len() && r.1 - r.0 < data.len() {
                seq![record_model(data.subrange(r.0, r.1))] + rest
            } else {
                rest
            }
        } else {
            rest
        }
    }
}

/// What a scope group message denotes.
pub open spec fn scope_logs_model(data: Seq<u8>) -> ScopeLogsModel
    decreases data.len(), 5int, 0int,
{
    ScopeLogsModel {
        scope: match field_bytes_first(data, 1) {
            Some(b) => if b.len() < data.len() {
                Some(scope_model(b))
            } else {
                None
            },
            None => None,
        },
        records: records_list(data, 0),
        schema_url: string_first(data, 3),
    }
}

/// The scope groups of a resource group, from the `i`-th occurrence of tag
/// 2 on; occurrences that are not readable submessages are left out.
pub open spec fn scopes_list(data: Seq<u8>, i: int) -> Seq<ScopeLogsModel>
    decreases data.len(), 1int, found_fields(data, 2).len() - i,
{
    let es = found_fields(data, 2);
    if i < 0 || i >= es.len() {
        Seq::empty()
    } else {
        let f = es[i];
        let rest = scopes_list(data, i + 1);
        if f.wire == WIRE_LEN && len_delim(data, f.pos) is Some {
            let r = len_delim(data, f.pos)->Some_0;
            if 0 <= r.0 <= r.1 <= data.len() && r.1 - r.0 < data.len() {
                seq![scope_logs_model(data.subrange(r.0, r.1))] + rest
            } else {
                rest
            }
        } else {
            rest
        }
    }
}

/// What a resource group message denotes.
pub open spec fn resource_logs_model(data: Seq<u8>) -> ResourceLogsModel
    decreases data.len(), 6int, 0int,
{
    ResourceLogsModel {
        resource: match field_bytes_first(data, 1) {
            Some(b) => if b.len() < data.len() {
                Some(resource_model(b))
            } else {
                None
            },
            None => None,
        },
        scopes: scopes_list(data, 0),
        schema_url: string_first(data, 3),
    }
}

/// The resource groups of a whole logs payload, from the `i`-th
/// length-delimited occurrence of tag 1 on.
pub open spec fn rlogs_list(data: Seq<u8>, i: int) -> Seq<ResourceLogsModel>
    decreases data.len(), 1int, msg_ranges(data, 1).len() - i,
{
    let rs = msg_ranges(data, 1);
    if i < 0 || i >= rs.len() {
        Seq::empty()
    } else {
        let r = rs[i];
        let rest = rlogs_list(data, i + 1);
        if 0 <= r.0 <= r.1 <= data.len() && r.1 - r.0 < data.len() {
            seq![resource_logs_model(data.subrange(r.0, r.1))] + rest
        } else {
            rest
        }
    }
}

/// What a whole logs payload denotes: its resource groups, in wire order.
pub open spec fn logs_model(data: Seq<u8>) -> Seq<ResourceLogsModel>
    decreases data.len(), 7int, 0int,
{
    rlogs_list(data, 0)
}

} // verus!
