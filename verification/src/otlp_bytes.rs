//! The eager, reusable parse-tree strategy: one node type per message kind,
//! each with a `parse` that repopulates the node in place.  Child
//! collections keep their allocated capacity across parses and expose only
//! a logical prefix, so repeated decoding does not reallocate; a node
//! re-parsed over new bytes is indistinguishable from a node parsed fresh.

use vstd::prelude::*;
use crate::model::{
    any_nonzero, attr_lookup, attr_model, attrs_list, bytes_eq, field_bytes_first, fixed32_first,
    fixed64_first, id_valid, logs_model, record_model, records_list, resource_logs_model,
    resource_model, rlogs_list, scope_logs_model, scope_model, scopes_list, string_first, to_i32,
    to_i64, to_u32, value_model, values_list, varint_first, AttrModel, RecordModel,
    ResourceLogsModel, ResourceModel, ScopeLogsModel, ScopeModel, ValueModel,
};
use crate::text::is_valid_utf8;
pub use crate::wire::ProtobufParser;
use crate::wire::{
    children_at, found_fields, len_delim, lemma_children_at_is_ranges, lemma_len_delim_bounds,
    lemma_msg_ranges_bounds, msg_ranges, WIRE_FIXED32, WIRE_FIXED64, WIRE_LEN, WIRE_VARINT,
};

verus! {

broadcast use vstd::seq::group_seq_axioms, vstd::std_specs::vec::group_vec_axioms;

/// The dynamic type of an eagerly decoded value.
#[derive(Debug, Clone, Copy, PartialEq, Eq, Structural)]
pub enum AnyValueType {
    String,
    Bool,
    Int,
    Double,
    Array,
    KvList,
    Bytes,
}

/// The stored branch of an eagerly decoded value.  A `Double` carries the
/// raw bit pattern of the 8-byte field.
pub enum AnyValueData<'a> {
    String(&'a [u8]),
    Bool(bool),
    Int(i64),
    Double(u64),
    Array(Vec<AnyValue<'a>>),
    KvList(Vec<KeyValue<'a>>),
    Bytes(&'a [u8]),
}

/// Reusable eagerly parsed value node.
pub struct AnyValue<'a> {
    value: AnyValueData<'a>,
}

/// Reusable eagerly parsed key/value attribute node.
pub struct KeyValue<'a> {
    key: &'a [u8],
    value: Option<AnyValue<'a>>,
}

/// What an eager value node denotes.
pub closed spec fn value_view<'a>(v: AnyValue<'a>) -> ValueModel
    decreases v, 1int, 0int,
{
    match v.value {
        AnyValueData::String(s) => ValueModel::String(s@),
        AnyValueData::Bool(b) => ValueModel::Bool(b),
        AnyValueData::Int(n) => ValueModel::Int(n),
        AnyValueData::Double(bits) => ValueModel::Double(bits),
        AnyValueData::Array(vs) => ValueModel::Array(vals_prefix(vs@, vs@.len() as int)),
        AnyValueData::KvList(kvs) => ValueModel::KvList(kvs_prefix(kvs@, kvs@.len() as int)),
        AnyValueData::Bytes(b) => ValueModel::Bytes(b@),
    }
}

/// What the first `n` elements of a sequence of value nodes denote (`n`
/// clamped to the sequence's length).
pub open spec fn vals_prefix<'a>(s: Seq<AnyValue<'a>>, n: int) -> Seq<ValueModel>
    decreases s, 0int, n,
{
    if n <= 0 {
        Seq::empty()
    } else if n > s.len() {
        vals_prefix(s, s.len() as int)
    } else {
        vals_prefix(s, n - 1).push(value_view(s[n - 1]))
    }
}

/// What an eager attribute node denotes.
pub closed spec fn kv_view<'a>(kv: KeyValue<'a>) -> AttrModel
    decreases kv, 1int, 0int,
{
    AttrModel {
        key: kv.key@,
        val: match kv.value {
            Some(av) => Some(value_view(av)),
            None => None,
        },
    }
}

/// What the first `n` elements of a sequence of attribute nodes denote
/// (`n` clamped to the sequence's length).
pub open spec fn kvs_prefix<'a>(s: Seq<KeyValue<'a>>, n: int) -> Seq<AttrModel>
    decreases s, 0int, n,
{
    if n <= 0 {
        Seq::empty()
    } else if n > s.len() {
        kvs_prefix(s, s.len() as int)
    } else {
        kvs_prefix(s, n - 1).push(kv_view(s[n - 1]))
    }
}

impl<'a> View for AnyValue<'a> {
    type V = ValueModel;

    open spec fn view(&self) -> ValueModel {
        value_view(*self)
    }
}

impl<'a> View for KeyValue<'a> {
    type V = AttrModel;

    open spec fn view(&self) -> AttrModel {
        kv_view(*self)
    }
}

/// Appending a node does not change what an existing prefix denotes.
pub proof fn lemma_vals_prefix_push<'a>(s: Seq<AnyValue<'a>>, x: AnyValue<'a>, n: int)
    requires
        0 <= n <= s.len(),
    ensures
        vals_prefix(s.push(x), n) == vals_prefix(s, n),
    decreases n,
{
    if n > 0 {
        lemma_vals_prefix_push(s, x, n - 1);
        assert(s.push(x)[n - 1] == s[n - 1]);
    }
}

/// Appending a node does not change what an existing prefix denotes.
pub proof fn lemma_kvs_prefix_push<'a>(s: Seq<KeyValue<'a>>, x: KeyValue<'a>, n: int)
    requires
        0 <= n <= s.len(),
    ensures
        kvs_prefix(s.push(x), n) == kvs_prefix(s, n),
    decreases n,
{
    if n > 0 {
        lemma_kvs_prefix_push(s, x, n - 1);
        assert(s.push(x)[n - 1] == s[n - 1]);
    }
}

/// Overwriting a node past the prefix does not change what the prefix
/// denotes.
pub proof fn lemma_kvs_prefix_update<'a>(s: Seq<KeyValue<'a>>, i: int, x: KeyValue<'a>, n: int)
    requires
        0 <= n <= i < s.len(),
    ensures
        kvs_prefix(s.update(i, x), n) == kvs_prefix(s, n),
    decreases n,
{
    if n > 0 {
        lemma_kvs_prefix_update(s, i, x, n - 1);
        assert(s.update(i, x)[n - 1] == s[n - 1]);
    }
}

/// The dynamic type that each denoted value reports.
pub open spec fn type_of_value(m: ValueModel) -> AnyValueType {
    match m {
        ValueModel::String(_) => AnyValueType::String,
        ValueModel::Bool(_) => AnyValueType::Bool,
        ValueModel::Int(_) => AnyValueType::Int,
        ValueModel::Double(_) => AnyValueType::Double,
        ValueModel::Array(_) => AnyValueType::Array,
        ValueModel::KvList(_) => AnyValueType::KvList,
        ValueModel::Bytes(_) => AnyValueType::Bytes,
    }
}

impl<'a> AnyValue<'a> {
    /// A fresh node, denoting the empty string.
    pub fn new() -> (r: Self)
        ensures
            r@ == ValueModel::String(Seq::<u8>::empty()),
    {
        let r = AnyValue { value: AnyValueData::String(&[]) };
        proof {
            assert(r@ =~= ValueModel::String(Seq::<u8>::empty()));
        }
        r
    }

    /// Resets the node to the fresh state.
    pub fn clear(&mut self)
        ensures
            final(self)@ == ValueModel::String(Seq::<u8>::empty()),
    {
        self.value = AnyValueData::String(&[]);
        proof {
            assert(self@ =~= ValueModel::String(Seq::<u8>::empty()));
        }
    }

    /// Repopulates the node from a value message: stores the first
    /// populated branch, probing tags 1 to 7 in order, and reports whether
    /// any branch was populated.  On failure the node is left cleared.
    pub fn parse(&mut self, data: &'a [u8]) -> (r: bool)
        ensures
            match value_model(data@) {
                Some(m) => r == true && final(self)@ == m,
                None => r == false && final(self)@ == ValueModel::String(Seq::<u8>::empty()),
            },
        decreases data@.len(), 1int,
    {
        self.clear();
        let parser = ProtobufParser::new(data);
        let ghost d = data@;

        if let Some((wire_type, pos)) = parser.find_field(1) {
            if wire_type == WIRE_LEN {
                if let Some((bytes, _)) = parser.parse_length_delimited(pos) {
                    if is_valid_utf8(bytes) {
                        self.value = AnyValueData::String(bytes);
                        return true;
                    }
                }
            }
        }
        if let Some((wire_type, pos)) = parser.find_field(2) {
            if wire_type == WIRE_VARINT {
                if let Some((v, _)) = parser.parse_varint(pos) {
                    self.value = AnyValueData::Bool(v != 0);
                    return true;
                }
            }
        }
        if let Some((wire_type, pos)) = parser.find_field(3) {
            if wire_type == WIRE_VARINT {
                if let Some((v, _)) = parser.parse_varint(pos) {
                    self.value = AnyValueData::Int(to_i64(v));
                    return true;
                }
            }
        }
        if let Some((wire_type, pos)) = parser.find_field(4) {
            if wire_type == WIRE_FIXED64 {
                if let Some((v, _)) = parser.parse_fixed64(pos) {
                    self.value = AnyValueData::Double(v);
                    return true;
                }
            }
        }
        if parser.find_field(5).is_some() {
            let fields = parser.parse_all_fields(5);
            let mut array_values: Vec<AnyValue<'a>> = Vec::new();
            let mut i: usize = 0;
            proof {
                crate::wire::lemma_found_fields_bounds(d, 5);
            }
            while i < fields.len()
                invariant
                    parser@ == d,
                    data@ == d,
                    fields@.len() == found_fields(d, 5).len(),
                    forall|j: int|
                        0 <= j < fields@.len() ==> {
                            let f = #[trigger] found_fields(d, 5)[j];
                            fields@[j].0 == f.wire && fields@[j].1 == f.pos
                        },
                    forall|j: int|
                        0 <= j < found_fields(d, 5).len() ==> 1 <= #[trigger] found_fields(
                            d,
                            5,
                        )[j].pos <= d.len(),
                    i <= fields@.len(),
                    values_list(d, 0) == vals_prefix(array_values@, array_values@.len() as int)
                        + values_list(d, i as int),
                decreases fields@.len() - i,
            {
                let (wire_type, pos) = fields[i];
                let ghost before = array_values@;
                if wire_type == WIRE_LEN {
                    if let Some((bytes, _)) = parser.parse_length_delimited(pos) {
                        let mut any_value = AnyValue::new();
                        if any_value.parse(bytes) {
                            let ghost pushed = any_value;
                            array_values.push(any_value);
                            proof {
                                lemma_vals_prefix_push(before, pushed, before.len() as int);
                                assert(vals_prefix(array_values@, array_values@.len() as int)
                                    == vals_prefix(before, before.len() as int).push(
                                    value_view(array_values@[before.len() as int]),
                                ));
                            }
                        }
                    }
                }
                i = i + 1;
            }
            self.value = AnyValueData::Array(array_values);
            return true;
        }
        if parser.find_field(6).is_some() {
            let fields = parser.parse_all_fields(6);
            let mut kv_values: Vec<KeyValue<'a>> = Vec::new();
            let mut i: usize = 0;
            proof {
                crate::wire::lemma_found_fields_bounds(d, 6);
            }
            while i < fields.len()
                invariant
                    parser@ == d,
                    data@ == d,
                    fields@.len() == found_fields(d, 6).len(),
                    forall|j: int|
                        0 <= j < fields@.len() ==> {
                            let f = #[trigger] found_fields(d, 6)[j];
                            fields@[j].0 == f.wire && fields@[j].1 == f.pos
                        },
                    forall|j: int|
                        0 <= j < found_fields(d, 6).len() ==> 1 <= #[trigger] found_fields(
                            d,
                            6,
                        )[j].pos <= d.len(),
                    i <= fields@.len(),
                    attrs_list(d, 6, 0) == kvs_prefix(kv_values@, kv_values@.len() as int)
                        + attrs_list(d, 6, i as int),
                decreases fields@.len() - i,
            {
                let (wire_type, pos) = fields[i];
                let ghost before = kv_values@;
                if wire_type == WIRE_LEN {
                    if let Some((bytes, _)) = parser.parse_length_delimited(pos) {
                        let mut kv = KeyValue::new();
                        if kv.parse(bytes) {
                            let ghost pushed = kv;
                            kv_values.push(kv);
                            proof {
                                lemma_kvs_prefix_push(before, pushed, before.len() as int);
                                assert(kvs_prefix(kv_values@, kv_values@.len() as int)
                                    == kvs_prefix(before, before.len() as int).push(
                                    kv_view(kv_values@[before.len() as int]),
                                ));
                            }
                        }
                    }
                }
                i = i + 1;
            }
            self.value = AnyValueData::KvList(kv_values);
            return true;
        }
        if let Some((wire_type, pos)) = parser.find_field(7) {
            if wire_type == WIRE_LEN {
                if let Some((bytes, _)) = parser.parse_length_delimited(pos) {
                    self.value = AnyValueData::Bytes(bytes);
                    return true;
                }
            }
        }
        false
    }

    /// The dynamic type of the stored branch.
    pub fn value_type(&self) -> (r: AnyValueType)
        ensures
            r == type_of_value(self@),
    {
        match &self.value {
            AnyValueData::String(_) => AnyValueType::String,
            AnyValueData::Bool(_) => AnyValueType::Bool,
            AnyValueData::Int(_) => AnyValueType::Int,
            AnyValueData::Double(_) => AnyValueType::Double,
            AnyValueData::Array(_) => AnyValueType::Array,
            AnyValueData::KvList(_) => AnyValueType::KvList,
            AnyValueData::Bytes(_) => AnyValueType::Bytes,
        }
    }

    /// The string branch, absent when another branch is stored.
    pub fn string_value(&self) -> (r: Option<&'a [u8]>)
        ensures
            match r {
                Some(b) => self@ == ValueModel::String(b@),
                None => !(self@ is String),
            },
    {
        match &self.value {
            AnyValueData::String(s) => Some(*s),
            _ => None,
        }
    }

    /// The boolean branch, absent when another branch is stored.
    pub fn bool_value(&self) -> (r: Option<bool>)
        ensures
            match r {
                Some(b) => self@ == ValueModel::Bool(b),
                None => !(self@ is Bool),
            },
    {
        match &self.value {
            AnyValueData::Bool(b) => Some(*b),
            _ => None,
        }
    }

    /// The integer branch, absent when another branch is stored.
    pub fn int_value(&self) -> (r: Option<i64>)
        ensures
            match r {
                Some(n) => self@ == ValueModel::Int(n),
                None => !(self@ is Int),
            },
    {
        match &self.value {
            AnyValueData::Int(n) => Some(*n),
            _ => None,
        }
    }

    /// The bit pattern of the double branch, absent when another branch is
    /// stored.  The caller reinterprets the bits as a floating-point
    /// number.
    pub fn double_bits_value(&self) -> (r: Option<u64>)
        ensures
            match r {
                Some(bits) => self@ == ValueModel::Double(bits),
                None => !(self@ is Double),
            },
    {
        match &self.value {
            AnyValueData::Double(bits) => Some(*bits),
            _ => None,
        }
    }

    /// The element nodes of the array branch, absent when another branch is
    /// stored.
    pub fn array_value(&self) -> (r: Option<&Vec<AnyValue<'a>>>)
        ensures
            match r {
                Some(vs) => self@ == ValueModel::Array(vals_prefix(vs@, vs@.len() as int)),
                None => !(self@ is Array),
            },
    {
        match &self.value {
            AnyValueData::Array(vs) => Some(vs),
            _ => None,
        }
    }

    /// The entry nodes of the key/value-list branch, absent when another
    /// branch is stored.
    pub fn kvlist_value(&self) -> (r: Option<&Vec<KeyValue<'a>>>)
        ensures
            match r {
                Some(kvs) => self@ == ValueModel::KvList(kvs_prefix(kvs@, kvs@.len() as int)),
                None => !(self@ is KvList),
            },
    {
        match &self.value {
            AnyValueData::KvList(kvs) => Some(kvs),
            _ => None,
        }
    }

    /// The bytes branch, absent when another branch is stored.
    pub fn bytes_value(&self) -> (r: Option<&'a [u8]>)
        ensures
            match r {
                Some(b) => self@ == ValueModel::Bytes(b@),
                None => !(self@ is Bytes),
            },
    {
        match &self.value {
            AnyValueData::Bytes(b) => Some(*b),
            _ => None,
        }
    }
}

impl<'a> KeyValue<'a> {
    /// A fresh node with an empty key and no value.
    pub fn new() -> (r: Self)
        ensures
            r@ == (AttrModel { key: Seq::<u8>::empty(), val: None }),
    {
        let r = KeyValue { key: &[], value: None };
        proof {
            assert(r@ =~= AttrModel { key: Seq::<u8>::empty(), val: None });
        }
        r
    }

    /// Resets the node to the fresh state.
    pub fn clear(&mut self)
        ensures
            final(self)@ == (AttrModel { key: Seq::<u8>::empty(), val: None }),
    {
        self.key = &[];
        self.value = None;
        proof {
            assert(self@ =~= AttrModel { key: Seq::<u8>::empty(), val: None });
        }
    }

    /// Repopulates the node from an attribute message.  An attribute whose
    /// key is absent, unreadable, or empty is rejected (the node is left
    /// cleared); otherwise the key and the value, if readable, are stored.
    pub fn parse(&mut self, data: &'a [u8]) -> (r: bool)
        ensures
            match attr_model(data@) {
                Some(m) => r == true && final(self)@ == m,
                None => r == false && final(self)@ == (AttrModel {
                    key: Seq::<u8>::empty(),
                    val: None,
                }),
            },
        decreases data@.len(), 2int,
    {
        self.clear();
        let parser = ProtobufParser::new(data);
        let ghost d = data@;

        let mut key_bytes: &'a [u8] = &[];
        if let Some((wire_type, pos)) = parser.find_field(1) {
            if wire_type == WIRE_LEN {
                if let Some((bytes, _)) = parser.parse_length_delimited(pos) {
                    if is_valid_utf8(bytes) {
                        key_bytes = bytes;
                    }
                }
            }
        }
        if key_bytes.len() == 0 {
            return false;
        }
        self.key = key_bytes;

        if let Some((wire_type, pos)) = parser.find_field(2) {
            if wire_type == WIRE_LEN {
                if let Some((bytes, _)) = parser.parse_length_delimited(pos) {
                    proof {
                        crate::wire::lemma_found_fields_bounds(d, 2);
                    }
                    let mut any_value = AnyValue::new();
                    if any_value.parse(bytes) {
                        self.value = Some(any_value);
                    }
                }
            }
        }
        true
    }

    /// The attribute's key.
    pub fn key(&self) -> (r: &'a [u8])
        ensures
            r@ == self@.key,
    {
        self.key
    }

    /// The attribute's value node, if one was stored.
    pub fn value(&self) -> (r: Option<&AnyValue<'a>>)
        ensures
            match r {
                Some(v) => self@.val == Some(v@),
                None => self@.val is None,
            },
    {
        self.value.as_ref()
    }
}

/// What the prefix of `n` elements of a sequence of attribute nodes
/// denotes when one node past the prefix is overwritten: the prefix is
/// unchanged, and the prefix one longer ends with the new node.
proof fn lemma_kvs_slot(s: Seq<KeyValue>, i: int, x: KeyValue)
    requires
        0 <= i < s.len(),
    ensures
        kvs_prefix(s.update(i, x), i) == kvs_prefix(s, i),
        kvs_prefix(s.update(i, x), i + 1) == kvs_prefix(s, i).push(kv_view(x)),
{
    lemma_kvs_prefix_update(s, i, x, i);
    assert(s.update(i, x)[i] == x);
}

/// Repopulates a pooled attribute collection from every occurrence of
/// `tag`: a node at the current logical index is reused when one exists,
/// a new node is appended otherwise, and the logical length counts only
/// the attributes whose nested parse succeeded.  Returns that logical
/// length.
fn fill_attrs<'a>(parser: &ProtobufParser<'a>, tag: u32, attrs: &mut Vec<KeyValue<'a>>) -> (used:
    usize)
    ensures
        used <= final(attrs)@.len(),
        kvs_prefix(final(attrs)@, used as int) == attrs_list(parser@, tag, 0),
{
    let ghost d = parser@;
    let fields = parser.parse_all_fields(tag);
    let mut used: usize = 0;
    let mut i: usize = 0;
    proof {
        crate::wire::lemma_found_fields_bounds(d, tag);
    }
    while i < fields.len()
        invariant
            parser@ == d,
            fields@.len() == found_fields(d, tag).len(),
            forall|j: int|
                0 <= j < fields@.len() ==> {
                    let f = #[trigger] found_fields(d, tag)[j];
                    fields@[j].0 == f.wire && fields@[j].1 == f.pos
                },
            forall|j: int|
                0 <= j < found_fields(d, tag).len() ==> 1 <= #[trigger] found_fields(
                    d,
                    tag,
                )[j].pos <= d.len(),
            i <= fields@.len(),
            used <= attrs@.len(),
            attrs_list(d, tag, 0) == kvs_prefix(attrs@, used as int) + attrs_list(
                d,
                tag,
                i as int,
            ),
        decreases fields@.len() - i,
    {
        let (wire_type, pos) = fields[i];
        if wire_type == WIRE_LEN {
            if let Some((bytes, _)) = parser.parse_length_delimited(pos) {
                if used >= attrs.len() {
                    let ghost pre = attrs@;
                    let fresh = KeyValue::new();
                    let ghost freshg = fresh;
                    attrs.push(fresh);
                    proof {
                        assert(attrs@ == pre.push(freshg));
                        lemma_kvs_prefix_push(pre, freshg, used as int);
                    }
                }
                let cap = attrs.len();
                proof {
                    assert(used < cap);
                }
                let ghost before = attrs@;
                let slot = &mut attrs[used];
                let ok = slot.parse(bytes);
                proof {
                    assert(attrs@ == before.update(used as int, attrs@[used as int]));
                    lemma_kvs_slot(before, used as int, attrs@[used as int]);
                }
                if ok {
                    used = used + 1;
                }
            }
        }
        proof {
            let es = found_fields(d, tag);
            let f = es[i as int];
            if f.wire == WIRE_LEN && len_delim(d, f.pos) is Some {
                let r = len_delim(d, f.pos)->Some_0;
                lemma_len_delim_bounds(d, f.pos);
                assert(2 <= r.0 <= r.1 <= d.len() && r.1 - r.0 < d.len());
                let rest = attrs_list(d, tag, i as int + 1);
                match attr_model(d.subrange(r.0, r.1)) {
                    Some(a) => {
                        assert(attrs_list(d, tag, i as int) == seq![a] + rest);
                        assert(kvs_prefix(attrs@, used as int) == kvs_prefix(
                            attrs@,
                            used as int - 1,
                        ).push(a));
                        assert(kvs_prefix(attrs@, used as int - 1) + (seq![a] + rest)
                            =~= kvs_prefix(attrs@, used as int) + rest);
                    },
                    None => {
                        assert(attrs_list(d, tag, i as int) == rest);
                    },
                }
            } else {
                assert(attrs_list(d, tag, i as int) == attrs_list(d, tag, i as int + 1));
            }
            assert(attrs_list(d, tag, 0) == kvs_prefix(attrs@, used as int) + attrs_list(
                d,
                tag,
                i as int + 1,
            ));
        }
        i = i + 1;
    }
    proof {
        assert(kvs_prefix(attrs@, used as int) + Seq::<AttrModel>::empty() =~= kvs_prefix(
            attrs@,
            used as int,
        ));
    }
    used
}

/// Reusable eagerly parsed resource message.
pub struct Resource<'a> {
    attributes: Vec<KeyValue<'a>>,
    attributes_used: usize,
    dropped_attributes_count: Option<u32>,
}

/// What an eager resource node denotes.
pub closed spec fn resource_view<'a>(r: Resource<'a>) -> ResourceModel {
    ResourceModel {
        attrs: kvs_prefix(r.attributes@, r.attributes_used as int),
        dropped: r.dropped_attributes_count,
    }
}

impl<'a> View for Resource<'a> {
    type V = ResourceModel;

    open spec fn view(&self) -> ResourceModel {
        resource_view(*self)
    }
}

impl<'a> Resource<'a> {
    /// A fresh node with no attributes.
    pub fn new() -> (r: Self)
        ensures
            r@ == (ResourceModel { attrs: Seq::<AttrModel>::empty(), dropped: None }),
    {
        Resource { attributes: Vec::new(), attributes_used: 0, dropped_attributes_count: None }
    }

    /// Resets the logical length, keeping the pooled capacity.
    pub fn clear(&mut self)
        ensures
            final(self)@ == (ResourceModel { attrs: Seq::<AttrModel>::empty(), dropped: None }),
    {
        self.attributes_used = 0;
        self.dropped_attributes_count = None;
    }

    /// Repopulates the node from a resource message.
    pub fn parse(&mut self, data: &'a [u8]) -> (r: bool)
        ensures
            r == true,
            final(self)@ == resource_model(data@),
    {
        self.clear();
        let parser = ProtobufParser::new(data);
        self.attributes_used = fill_attrs(&parser, 1, &mut self.attributes);
        self.dropped_attributes_count = parse_u32_field(&parser, 2);
        proof {
            assert(self@ =~= resource_model(data@));
        }
        true
    }

    /// The attributes within the logical length.
    pub fn attributes(&self) -> (r: UsedSliceIter<'_, KeyValue<'a>>)
        ensures
            r.remaining_elems().len() == self@.attrs.len(),
            forall|i: int|
                0 <= i < r.remaining_elems().len() ==> kv_view(#[trigger] r.remaining_elems()[i])
                    == self@.attrs[i],
    {
        let n = if self.attributes_used <= self.attributes.len() {
            self.attributes_used
        } else {
            self.attributes.len()
        };
        let r = UsedSliceIter::new(
            vstd::slice::slice_subrange(self.attributes.as_slice(), 0, n),
        );
        proof {
            lemma_kvs_prefix_take(self.attributes@, n as int);
        }
        r
    }

    /// The dropped-attributes count, if one was present.
    pub fn dropped_attributes_count(&self) -> (r: Option<u32>)
        ensures
            r == self@.dropped,
    {
        self.dropped_attributes_count
    }

    /// The key of the well-known service-name attribute.
    pub open spec fn spec_service_name_key() -> Seq<u8> {
        seq![115u8, 101u8, 114u8, 118u8, 105u8, 99u8, 101u8, 46u8, 110u8, 97u8, 109u8, 101u8]
    }

    /// The string value of the first attribute keyed `service.name`, if
    /// any.
    pub fn get_service_name(&self) -> (r: Option<&'a [u8]>)
        ensures
            match r {
                Some(b) => attr_lookup(self@.attrs, Self::spec_service_name_key()) == Some(b@),
                None => attr_lookup(self@.attrs, Self::spec_service_name_key()) is None,
            },
    {
        let key: [u8; 12] = [115u8, 101u8, 114u8, 118u8, 105u8, 99u8, 101u8, 46u8, 110u8, 97u8,
            109u8, 101u8];
        proof {
            assert(key@ =~= Self::spec_service_name_key());
        }
        self.find_string_attr(key.as_slice())
    }

    /// The string value of the first attribute whose key is `key`, if any.
    pub fn find_string_attr(&self, key: &[u8]) -> (r: Option<&'a [u8]>)
        ensures
            match r {
                Some(b) => attr_lookup(self@.attrs, key@) == Some(b@),
                None => attr_lookup(self@.attrs, key@) is None,
            },
    {
        let n = if self.attributes_used <= self.attributes.len() {
            self.attributes_used
        } else {
            self.attributes.len()
        };
        let ghost attrs = self@.attrs;
        proof {
            lemma_kvs_prefix_take(self.attributes@, n as int);
        }
        let mut k: usize = 0;
        proof {
            assert(attrs.skip(0) =~= attrs);
        }
        while k < n
            invariant
                n <= self.attributes@.len(),
                attrs == self@.attrs,
                attrs.len() == n,
                forall|i: int|
                    0 <= i < n ==> kv_view(#[trigger] self.attributes@[i]) == attrs[i],
                k <= n,
                attr_lookup(attrs, key@) == attr_lookup(attrs.skip(k as int), key@),
            decreases n - k,
        {
            proof {
                assert(attrs.skip(k as int)[0] == attrs[k as int]);
                assert(attrs.skip(k as int).skip(1) =~= attrs.skip(k as int + 1));
            }
            let kv = &self.attributes[k];
            if bytes_eq(kv.key(), key) {
                return match kv.value() {
                    Some(v) => v.string_value(),
                    None => None,
                };
            }
            k = k + 1;
        }
        proof {
            assert(attrs.skip(n as int).len() == 0);
        }
        None
    }
}

/// What the first `n` elements denote, element by element: the prefix view
/// has length `n` and its `i`-th element is the view of the `i`-th node.
proof fn lemma_kvs_prefix_take(s: Seq<KeyValue>, n: int)
    requires
        0 <= n <= s.len(),
    ensures
        kvs_prefix(s, n).len() == n,
        forall|i: int| 0 <= i < n ==> #[trigger] kvs_prefix(s, n)[i] == kv_view(s[i]),
    decreases n,
{
    if n > 0 {
        lemma_kvs_prefix_take(s, n - 1);
    }
}

/// Reads the first occurrence of `tag` as a 32-bit varint count field.
fn parse_u32_field<'a>(parser: &ProtobufParser<'a>, tag: u32) -> (r: Option<u32>)
    ensures
        r == match varint_first(parser@, tag) {
            Some(v) => Some(crate::model::as_u32(v)),
            None => None::<u32>,
        },
{
    match parser.find_field(tag) {
        Some((wire_type, pos)) => {
            if wire_type == WIRE_VARINT {
                match parser.parse_varint(pos) {
                    Some((v, _)) => Some(to_u32(v)),
                    None => None,
                }
            } else {
                None
            }
        },
        None => None,
    }
}

/// Reads the first occurrence of `tag` as a UTF-8 string field.
fn parse_string_field<'a>(parser: &ProtobufParser<'a>, tag: u32) -> (r: Option<&'a [u8]>)
    ensures
        match r {
            Some(b) => string_first(parser@, tag) == Some(b@),
            None => string_first(parser@, tag) is None,
        },
{
    match parser.find_field(tag) {
        Some((wire_type, pos)) => {
            if wire_type == WIRE_LEN {
                match parser.parse_length_delimited(pos) {
                    Some((bytes, _)) => {
                        if is_valid_utf8(bytes) {
                            Some(bytes)
                        } else {
                            None
                        }
                    },
                    None => None,
                }
            } else {
                None
            }
        },
        None => None,
    }
}

/// Reads the first occurrence of `tag` as an 8-byte field.
fn parse_fixed64_field<'a>(parser: &ProtobufParser<'a>, tag: u32) -> (r: Option<u64>)
    ensures
        r == fixed64_first(parser@, tag),
{
    match parser.find_field(tag) {
        Some((wire_type, pos)) => {
            if wire_type == WIRE_FIXED64 {
                match parser.parse_fixed64(pos) {
                    Some((v, _)) => Some(v),
                    None => None,
                }
            } else {
                None
            }
        },
        None => None,
    }
}

/// Reads the first occurrence of `tag` as a 4-byte field.
fn parse_fixed32_field<'a>(parser: &ProtobufParser<'a>, tag: u32) -> (r: Option<u32>)
    ensures
        r == fixed32_first(parser@, tag),
{
    match parser.find_field(tag) {
        Some((wire_type, pos)) => {
            if wire_type == WIRE_FIXED32 {
                match parser.parse_fixed32(pos) {
                    Some((v, _)) => Some(v),
                    None => None,
                }
            } else {
                None
            }
        },
        None => None,
    }
}

/// Reads the first occurrence of `tag` as raw length-delimited bytes.
fn parse_bytes_field<'a>(parser: &ProtobufParser<'a>, tag: u32) -> (r: Option<&'a [u8]>)
    ensures
        match r {
            Some(b) => field_bytes_first(parser@, tag) == Some(b@),
            None => field_bytes_first(parser@, tag) is None,
        },
{
    match parser.find_field(tag) {
        Some((wire_type, pos)) => {
            if wire_type == WIRE_LEN {
                match parser.parse_length_delimited(pos) {
                    Some((bytes, _)) => Some(bytes),
                    None => None,
                }
            } else {
                None
            }
        },
        None => None,
    }
}

/// Reads the first occurrence of `tag` as a varint.
fn parse_varint_field<'a>(parser: &ProtobufParser<'a>, tag: u32) -> (r: Option<u64>)
    ensures
        r == varint_first(parser@, tag),
{
    match parser.find_field(tag) {
        Some((wire_type, pos)) => {
            if wire_type == WIRE_VARINT {
                match parser.parse_varint(pos) {
                    Some((v, _)) => Some(v),
                    None => None,
                }
            } else {
                None
            }
        },
        None => None,
    }
}

/// Reads the first occurrence of `tag` as a submessage and the first
/// occurrence's content bytes are strictly shorter than the message, which
/// the recursive model definitions rely on.
fn parse_msg_field<'a>(parser: &ProtobufParser<'a>, tag: u32) -> (r: Option<&'a [u8]>)
    ensures
        match r {
            Some(b) => field_bytes_first(parser@, tag) == Some(b@) && b@.len() < parser@.len(),
            None => field_bytes_first(parser@, tag) is None,
        },
{
    let ghost d = parser@;
    match parser.find_field(tag) {
        Some((wire_type, pos)) => {
            if wire_type == WIRE_LEN {
                match parser.parse_length_delimited(pos) {
                    Some((bytes, _)) => {
                        proof {
                            crate::wire::lemma_found_fields_bounds(d, tag);
                            lemma_len_delim_bounds(d, pos as int);
                        }
                        Some(bytes)
                    },
                    None => None,
                }
            } else {
                None
            }
        },
        None => None,
    }
}

/// Reusable eagerly parsed instrumentation scope message.
pub struct InstrumentationScope<'a> {
    name: Option<&'a [u8]>,
    version: Option<&'a [u8]>,
    attributes: Vec<KeyValue<'a>>,
    attributes_used: usize,
    dropped_attributes_count: Option<u32>,
}

/// An optional borrowed byte field, lifted to the specification level.
pub open spec fn opt_bytes(o: Option<&[u8]>) -> Option<Seq<u8>> {
    match o {
        Some(b) => Some(b@),
        None => None,
    }
}

/// What an eager scope node denotes.
pub closed spec fn scope_view<'a>(s: InstrumentationScope<'a>) -> ScopeModel {
    ScopeModel {
        name: opt_bytes(s.name),
        version: opt_bytes(s.version),
        attrs: kvs_prefix(s.attributes@, s.attributes_used as int),
        dropped: s.dropped_attributes_count,
    }
}

impl<'a> View for InstrumentationScope<'a> {
    type V = ScopeModel;

    open spec fn view(&self) -> ScopeModel {
        scope_view(*self)
    }
}

impl<'a> InstrumentationScope<'a> {
    /// A fresh node with no fields.
    pub fn new() -> (r: Self)
        ensures
            r@ == (ScopeModel {
                name: None,
                version: None,
                attrs: Seq::<AttrModel>::empty(),
                dropped: None,
            }),
    {
        InstrumentationScope {
            name: None,
            version: None,
            attributes: Vec::new(),
            attributes_used: 0,
            dropped_attributes_count: None,
        }
    }

    /// Resets the node, keeping the pooled capacity.
    pub fn clear(&mut self)
        ensures
            final(self)@ == (ScopeModel {
                name: None,
                version: None,
                attrs: Seq::<AttrModel>::empty(),
                dropped: None,
            }),
    {
        self.name = None;
        self.version = None;
        self.attributes_used = 0;
        self.dropped_attributes_count = None;
    }

    /// Repopulates the node from an instrumentation scope message.
    pub fn parse(&mut self, data: &'a [u8]) -> (r: bool)
        ensures
            r == true,
            final(self)@ == scope_model(data@),
    {
        self.clear();
        let parser = ProtobufParser::new(data);
        self.name = parse_string_field(&parser, 1);
        self.version = parse_string_field(&parser, 2);
        self.attributes_used = fill_attrs(&parser, 3, &mut self.attributes);
        self.dropped_attributes_count = parse_u32_field(&parser, 4);
        proof {
            assert(self@ =~= scope_model(data@));
        }
        true
    }

    /// The scope's name field, if present.
    pub fn name(&self) -> (r: Option<&'a [u8]>)
        ensures
            opt_bytes(r) == self@.name,
    {
        self.name
    }

    /// The scope's version field, if present.
    pub fn version(&self) -> (r: Option<&'a [u8]>)
        ensures
            opt_bytes(r) == self@.version,
    {
        self.version
    }
}

/// Reusable eagerly parsed log record.
pub struct LogRecord<'a> {
    time_unix_nano: Option<u64>,
    observed_time_unix_nano: u64,
    severity_number: i32,
    severity_text: Option<&'a [u8]>,
    body: Option<AnyValue<'a>>,
    attributes: Vec<KeyValue<'a>>,
    attributes_used: usize,
    dropped_attributes_count: Option<u32>,
    flags: Option<u32>,
    trace_id: Option<&'a [u8]>,
    span_id: Option<&'a [u8]>,
    event_name: Option<&'a [u8]>,
}

/// What an eager record node denotes.
pub closed spec fn record_view<'a>(r: LogRecord<'a>) -> RecordModel {
    RecordModel {
        time: r.time_unix_nano,
        observed: r.observed_time_unix_nano,
        severity: r.severity_number,
        severity_text: opt_bytes(r.severity_text),
        body: match r.body {
            Some(av) => Some(value_view(av)),
            None => None,
        },
        attrs: kvs_prefix(r.attributes@, r.attributes_used as int),
        dropped: r.dropped_attributes_count,
        flags: r.flags,
        trace_id: opt_bytes(r.trace_id),
        span_id: opt_bytes(r.span_id),
        event_name: opt_bytes(r.event_name),
    }
}

impl<'a> View for LogRecord<'a> {
    type V = RecordModel;

    open spec fn view(&self) -> RecordModel {
        record_view(*self)
    }
}

/// What a cleared record node denotes.
pub open spec fn cleared_record() -> RecordModel {
    RecordModel {
        time: None,
        observed: 0,
        severity: 0,
        severity_text: None,
        body: None,
        attrs: Seq::<AttrModel>::empty(),
        dropped: None,
        flags: None,
        trace_id: None,
        span_id: None,
        event_name: None,
    }
}

impl<'a> LogRecord<'a> {
    /// A fresh node with every field at its default.
    pub fn new() -> (r: Self)
        ensures
            r@ == cleared_record(),
    {
        LogRecord {
            time_unix_nano: None,
            observed_time_unix_nano: 0,
            severity_number: 0,
            severity_text: None,
            body: None,
            attributes: Vec::new(),
            attributes_used: 0,
            dropped_attributes_count: None,
            flags: None,
            trace_id: None,
            span_id: None,
            event_name: None,
        }
    }

    /// Resets the node, keeping the pooled capacity.
    pub fn clear(&mut self)
        ensures
            final(self)@ == cleared_record(),
    {
        self.time_unix_nano = None;
        self.observed_time_unix_nano = 0;
        self.severity_number = 0;
        self.severity_text = None;
        self.body = None;
        self.attributes_used = 0;
        self.dropped_attributes_count = None;
        self.flags = None;
        self.trace_id = None;
        self.span_id = None;
        self.event_name = None;
    }

    /// Repopulates the node from a log record message.
    pub fn parse(&mut self, data: &'a [u8]) -> (r: bool)
        ensures
            r == true,
            final(self)@ == record_model(data@),
    {
        self.clear();
        let parser = ProtobufParser::new(data);
        let ghost d = data@;

        self.time_unix_nano = parse_fixed64_field(&parser, 1);

        // The observed timestamp is required: it defaults to 0 when absent.
        self.observed_time_unix_nano = match parse_fixed64_field(&parser, 11) {
            Some(v) => v,
            None => 0,
        };

        // The severity number is a required enum: it defaults to 0.
        self.severity_number = match parse_varint_field(&parser, 2) {
            Some(v) => to_i32(v),
            None => 0,
        };

        self.severity_text = parse_string_field(&parser, 3);

        self.body = match parse_msg_field(&parser, 5) {
            Some(bytes) => {
                let mut any_value = AnyValue::new();
                if any_value.parse(bytes) {
                    Some(any_value)
                } else {
                    None
                }
            },
            None => None,
        };

        self.attributes_used = fill_attrs(&parser, 6, &mut self.attributes);

        self.dropped_attributes_count = parse_u32_field(&parser, 7);
        self.flags = parse_fixed32_field(&parser, 8);
        self.trace_id = parse_bytes_field(&parser, 9);
        self.span_id = parse_bytes_field(&parser, 10);
        self.event_name = parse_string_field(&parser, 12);

        proof {
            assert(self@ =~= record_model(data@));
        }
        true
    }

    /// The explicit timestamp, if present.
    pub fn time_unix_nano(&self) -> (r: Option<u64>)
        ensures
            r == self@.time,
    {
        self.time_unix_nano
    }

    /// The observed timestamp (0 when it was absent).
    pub fn observed_time_unix_nano(&self) -> (r: u64)
        ensures
            r == self@.observed,
    {
        self.observed_time_unix_nano
    }

    /// The severity number (0 when it was absent).
    pub fn severity_number(&self) -> (r: i32)
        ensures
            r == self@.severity,
    {
        self.severity_number
    }

    /// The severity text, if present.
    pub fn severity_text(&self) -> (r: Option<&'a [u8]>)
        ensures
            opt_bytes(r) == self@.severity_text,
    {
        self.severity_text
    }

    /// The body value node, if one was stored.
    pub fn body(&self) -> (r: Option<&AnyValue<'a>>)
        ensures
            match r {
                Some(v) => self@.body == Some(v@),
                None => self@.body is None,
            },
    {
        self.body.as_ref()
    }

    /// The dropped-attributes count, if present.
    pub fn dropped_attributes_count(&self) -> (r: Option<u32>)
        ensures
            r == self@.dropped,
    {
        self.dropped_attributes_count
    }

    /// The flags field, if present.
    pub fn flags(&self) -> (r: Option<u32>)
        ensures
            r == self@.flags,
    {
        self.flags
    }

    /// The trace identifier bytes, if present.
    pub fn trace_id(&self) -> (r: Option<&'a [u8]>)
        ensures
            opt_bytes(r) == self@.trace_id,
    {
        self.trace_id
    }

    /// The span identifier bytes, if present.
    pub fn span_id(&self) -> (r: Option<&'a [u8]>)
        ensures
            opt_bytes(r) == self@.span_id,
    {
        self.span_id
    }

    /// The event name, if present.
    pub fn event_name(&self) -> (r: Option<&'a [u8]>)
        ensures
            opt_bytes(r) == self@.event_name,
    {
        self.event_name
    }

    /// Whether the trace identifier is valid: exactly 16 bytes and not all
    /// zero.
    pub fn is_trace_id_valid(&self) -> (r: bool)
        ensures
            r == id_valid(self@.trace_id, 16),
    {
        if let Some(trace_id) = self.trace_id {
            trace_id.len() == 16 && any_nonzero(trace_id)
        } else {
            false
        }
    }

    /// Whether the span identifier is valid: exactly 8 bytes and not all
    /// zero.
    pub fn is_span_id_valid(&self) -> (r: bool)
        ensures
            r == id_valid(self@.span_id, 8),
    {
        if let Some(span_id) = self.span_id {
            span_id.len() == 8 && any_nonzero(span_id)
        } else {
            false
        }
    }

    /// The trace flags: the low 8 bits of the flags field, if present.
    pub fn trace_flags(&self) -> (r: Option<u8>)
        ensures
            match r {
                Some(b) => self@.flags matches Some(f) && b == (f & 0xff) as u8,
                None => self@.flags is None,
            },
    {
        match self.flags {
            Some(flags) => Some(#[verifier::truncate] ((flags & 0xff) as u8)),
            None => None,
        }
    }

    /// The record's display name; records carry no name field on the wire,
    /// so every record reports the same constant.
    pub fn name(&self) -> (r: &'a [u8])
        ensures
            r@ == spec_record_name(),
    {
        let name: &'static [u8] = &[108u8, 111u8, 103u8, 95u8, 114u8, 101u8, 99u8, 111u8, 114u8,
            100u8];
        proof {
            assert(name@ =~= spec_record_name());
        }
        name
    }

    /// The record's effective timestamp: the explicit timestamp when
    /// present, else the observed timestamp when nonzero.
    pub fn timestamp(&self) -> (r: Option<u64>)
        ensures
            r == record_timestamp(self@),
    {
        match self.time_unix_nano {
            Some(t) => Some(t),
            None => {
                if self.observed_time_unix_nano != 0 {
                    Some(self.observed_time_unix_nano)
                } else {
                    None
                }
            },
        }
    }

    /// The attributes within the logical length.
    pub fn attributes(&self) -> (r: UsedSliceIter<'_, KeyValue<'a>>)
        ensures
            r.remaining_elems().len() == self@.attrs.len(),
            forall|i: int|
                0 <= i < r.remaining_elems().len() ==> kv_view(#[trigger] r.remaining_elems()[i])
                    == self@.attrs[i],
    {
        let n = if self.attributes_used <= self.attributes.len() {
            self.attributes_used
        } else {
            self.attributes.len()
        };
        let r = UsedSliceIter::new(
            vstd::slice::slice_subrange(self.attributes.as_slice(), 0, n),
        );
        proof {
            lemma_kvs_prefix_take(self.attributes@, n as int);
        }
        r
    }
}

/// The constant display name of a log record.
pub open spec fn spec_record_name() -> Seq<u8> {
    seq![108u8, 111u8, 103u8, 95u8, 114u8, 101u8, 99u8, 111u8, 114u8, 100u8]
}

/// The effective timestamp of a record: the explicit timestamp when
/// present, else the observed timestamp when nonzero.
pub open spec fn record_timestamp(r: RecordModel) -> Option<u64> {
    match r.time {
        Some(t) => Some(t),
        None => if r.observed != 0 {
            Some(r.observed)
        } else {
            None
        },
    }
}

/// Reusable eagerly parsed scope group.
pub struct ScopeLogs<'a> {
    scope: Option<InstrumentationScope<'a>>,
    log_records: Vec<LogRecord<'a>>,
    log_records_used: usize,
    schema_url: Option<&'a [u8]>,
}

/// What the first `n` elements of a sequence of record nodes denote (`n`
/// clamped to the sequence's length).
pub open spec fn records_prefix<'a>(s: Seq<LogRecord<'a>>, n: int) -> Seq<RecordModel>
    decreases n,
{
    if n <= 0 {
        Seq::empty()
    } else if n > s.len() {
        records_prefix(s, s.len() as int)
    } else {
        records_prefix(s, n - 1).push(record_view(s[n - 1]))
    }
}

/// What an eager scope-group node denotes.
pub closed spec fn scope_logs_view<'a>(s: ScopeLogs<'a>) -> ScopeLogsModel {
    ScopeLogsModel {
        scope: match s.scope {
            Some(sc) => Some(scope_view(sc)),
            None => None,
        },
        records: records_prefix(s.log_records@, s.log_records_used as int),
        schema_url: opt_bytes(s.schema_url),
    }
}

impl<'a> View for ScopeLogs<'a> {
    type V = ScopeLogsModel;

    open spec fn view(&self) -> ScopeLogsModel {
        scope_logs_view(*self)
    }
}

/// Appending a node does not change what an existing prefix denotes.
proof fn lemma_records_prefix_push<'a>(s: Seq<LogRecord<'a>>, x: LogRecord<'a>, n: int)
    requires
        0 <= n <= s.len(),
    ensures
        records_prefix(s.push(x), n) == records_prefix(s, n),
    decreases n,
{
    if n > 0 {
        lemma_records_prefix_push(s, x, n - 1);
        assert(s.push(x)[n - 1] == s[n - 1]);
    }
}

/// Overwriting the node at the prefix boundary keeps the prefix and
/// appends the new node's view to the one-longer prefix.
proof fn lemma_records_slot<'a>(s: Seq<LogRecord<'a>>, i: int, x: LogRecord<'a>)
    requires
        0 <= i < s.len(),
    ensures
        records_prefix(s.update(i, x), i) == records_prefix(s, i),
        records_prefix(s.update(i, x), i + 1) == records_prefix(s, i).push(record_view(x)),
    decreases i,
{
    lemma_records_prefix_update(s, i, x, i);
    assert(s.update(i, x)[i] == x);
}

/// Overwriting a node past the prefix does not change what the prefix
/// denotes.
proof fn lemma_records_prefix_update<'a>(s: Seq<LogRecord<'a>>, i: int, x: LogRecord<'a>, n: int)
    requires
        0 <= n <= i < s.len(),
    ensures
        records_prefix(s.update(i, x), n) == records_prefix(s, n),
    decreases n,
{
    if n > 0 {
        lemma_records_prefix_update(s, i, x, n - 1);
        assert(s.update(i, x)[n - 1] == s[n - 1]);
    }
}

/// The prefix view has length `n` and its `i`-th element is the view of
/// the `i`-th node.
proof fn lemma_records_prefix_take(s: Seq<LogRecord>, n: int)
    requires
        0 <= n <= s.len(),
    ensures
        records_prefix(s, n).len() == n,
        forall|i: int| 0 <= i < n ==> #[trigger] records_prefix(s, n)[i] == record_view(s[i]),
    decreases n,
{
    if n > 0 {
        lemma_records_prefix_take(s, n - 1);
    }
}

/// Repopulates a pooled record collection from every occurrence of tag 2:
/// a node at the current logical index is reused when one exists, a new
/// node is appended otherwise.  Returns the logical length.
fn fill_records<'a>(parser: &ProtobufParser<'a>, records: &mut Vec<LogRecord<'a>>) -> (used: usize)
    ensures
        used <= final(records)@.len(),
        records_prefix(final(records)@, used as int) == records_list(parser@, 0),
{
    let ghost d = parser@;
    let fields = parser.parse_all_fields(2);
    let mut used: usize = 0;
    let mut i: usize = 0;
    proof {
        crate::wire::lemma_found_fields_bounds(d, 2);
    }
    while i < fields.len()
        invariant
            parser@ == d,
            fields@.len() == found_fields(d, 2).len(),
            forall|j: int|
                0 <= j < fields@.len() ==> {
                    let f = #[trigger] found_fields(d, 2)[j];
                    fields@[j].0 == f.wire && fields@[j].1 == f.pos
                },
            forall|j: int|
                0 <= j < found_fields(d, 2).len() ==> 1 <= #[trigger] found_fields(d, 2)[j].pos
                    <= d.len(),
            i <= fields@.len(),
            used <= records@.len(),
            records_list(d, 0) == records_prefix(records@, used as int) + records_list(
                d,
                i as int,
            ),
        decreases fields@.len() - i,
    {
        let (wire_type, pos) = fields[i];
        if wire_type == WIRE_LEN {
            if let Some((bytes, _)) = parser.parse_length_delimited(pos) {
                if used >= records.len() {
                    let ghost pre = records@;
                    let fresh = LogRecord::new();
                    let ghost freshg = fresh;
                    records.push(fresh);
                    proof {
                        assert(records@ == pre.push(freshg));
                        lemma_records_prefix_push(pre, freshg, used as int);
                    }
                }
                let cap = records.len();
                proof {
                    assert(used < cap);
                }
                let ghost before = records@;
                let slot = &mut records[used];
                let ok = slot.parse(bytes);
                proof {
                    assert(records@ == before.update(used as int, records@[used as int]));
                    lemma_records_slot(before, used as int, records@[used as int]);
                }
                if ok {
                    used = used + 1;
                }
            }
        }
        proof {
            let es = found_fields(d, 2);
            let f = es[i as int];
            if f.wire == WIRE_LEN && len_delim(d, f.pos) is Some {
                let r = len_delim(d, f.pos)->Some_0;
                lemma_len_delim_bounds(d, f.pos);
                assert(2 <= r.0 <= r.1 <= d.len() && r.1 - r.0 < d.len());
                let rest = records_list(d, i as int + 1);
                let m = record_model(d.subrange(r.0, r.1));
                assert(records_list(d, i as int) == seq![m] + rest);
                assert(records_prefix(records@, used as int) == records_prefix(
                    records@,
                    used as int - 1,
                ).push(m));
                assert(records_prefix(records@, used as int - 1) + (seq![m] + rest)
                    =~= records_prefix(records@, used as int) + rest);
            } else {
                assert(records_list(d, i as int) == records_list(d, i as int + 1));
            }
            assert(records_list(d, 0) == records_prefix(records@, used as int) + records_list(
                d,
                i as int + 1,
            ));
        }
        i = i + 1;
    }
    proof {
        assert(records_prefix(records@, used as int) + Seq::<RecordModel>::empty()
            =~= records_prefix(records@, used as int));
    }
    used
}

impl<'a> ScopeLogs<'a> {
    /// A fresh node with no scope and no records.
    pub fn new() -> (r: Self)
        ensures
            r@ == (ScopeLogsModel {
                scope: None,
                records: Seq::<RecordModel>::empty(),
                schema_url: None,
            }),
    {
        ScopeLogs { scope: None, log_records: Vec::new(), log_records_used: 0, schema_url: None }
    }

    /// Resets the node, keeping the pooled capacity.
    pub fn clear(&mut self)
        ensures
            final(self)@ == (ScopeLogsModel {
                scope: None,
                records: Seq::<RecordModel>::empty(),
                schema_url: None,
            }),
    {
        self.scope = None;
        self.log_records_used = 0;
        self.schema_url = None;
    }

    /// Repopulates the node from a scope group message.
    pub fn parse(&mut self, data: &'a [u8]) -> (r: bool)
        ensures
            r == true,
            final(self)@ == scope_logs_model(data@),
    {
        self.clear();
        let parser = ProtobufParser::new(data);

        self.scope = match parse_msg_field(&parser, 1) {
            Some(bytes) => {
                let mut scope = InstrumentationScope::new();
                if scope.parse(bytes) {
                    Some(scope)
                } else {
                    None
                }
            },
            None => None,
        };

        self.log_records_used = fill_records(&parser, &mut self.log_records);

        self.schema_url = parse_string_field(&parser, 3);

        proof {
            assert(self@ =~= scope_logs_model(data@));
        }
        true
    }

    /// The scope node, if one was stored.
    pub fn scope_message(&self) -> (r: Option<&InstrumentationScope<'a>>)
        ensures
            match r {
                Some(s) => self@.scope == Some(s@),
                None => self@.scope is None,
            },
    {
        self.scope.as_ref()
    }

    /// The scope's display name: its name field, with a placeholder for an
    /// absent scope or name.
    pub fn scope(&self) -> (r: &'a [u8])
        ensures
            r@ == scope_display_name(self@),
    {
        if let Some(s) = self.scope.as_ref() {
            if let Some(name) = s.name() {
                return name;
            }
        }
        let unknown: &'static [u8] = &[117u8, 110u8, 107u8, 110u8, 111u8, 119u8, 110u8, 45u8,
            115u8, 99u8, 111u8, 112u8, 101u8];
        proof {
            assert(unknown@ =~= spec_unknown_scope());
        }
        unknown
    }

    /// The scope's version field, absent when the scope is absent.
    pub fn version(&self) -> (r: Option<&'a [u8]>)
        ensures
            opt_bytes(r) == scope_display_version(self@),
    {
        match self.scope.as_ref() {
            Some(s) => s.version(),
            None => None,
        }
    }

    /// The log records within the logical length.
    pub fn log_records(&self) -> (r: UsedSliceIter<'_, LogRecord<'a>>)
        ensures
            r.remaining_elems().len() == self@.records.len(),
            forall|i: int|
                0 <= i < r.remaining_elems().len() ==> record_view(
                    #[trigger] r.remaining_elems()[i],
                ) == self@.records[i],
    {
        let n = if self.log_records_used <= self.log_records.len() {
            self.log_records_used
        } else {
            self.log_records.len()
        };
        let r = UsedSliceIter::new(vstd::slice::slice_subrange(self.log_records.as_slice(), 0, n));
        proof {
            lemma_records_prefix_take(self.log_records@, n as int);
        }
        r
    }

    /// The schema URL, if present.
    pub fn schema_url(&self) -> (r: Option<&'a [u8]>)
        ensures
            opt_bytes(r) == self@.schema_url,
    {
        self.schema_url
    }
}

/// The placeholder name reported for an absent scope or scope name.
pub open spec fn spec_unknown_scope() -> Seq<u8> {
    seq![117u8, 110u8, 107u8, 110u8, 111u8, 119u8, 110u8, 45u8, 115u8, 99u8, 111u8, 112u8, 101u8]
}

/// The display name of a scope group: the scope's name field, or a
/// placeholder when the scope or the name is absent.
pub open spec fn scope_display_name(m: ScopeLogsModel) -> Seq<u8> {
    match m.scope {
        Some(sm) => match sm.name {
            Some(nb) => nb,
            None => spec_unknown_scope(),
        },
        None => spec_unknown_scope(),
    }
}

/// The display version of a scope group: the scope's version field, absent
/// when the scope is absent.
pub open spec fn scope_display_version(m: ScopeLogsModel) -> Option<Seq<u8>> {
    match m.scope {
        Some(sm) => sm.version,
        None => None,
    }
}

/// Reusable eagerly parsed resource group.
pub struct ResourceLogs<'a> {
    resource: Option<Resource<'a>>,
    scope_logs: Vec<ScopeLogs<'a>>,
    scope_logs_used: usize,
    schema_url: Option<&'a [u8]>,
}

/// What the first `n` elements of a sequence of scope-group nodes denote
/// (`n` clamped to the sequence's length).
pub open spec fn scopes_prefix<'a>(s: Seq<ScopeLogs<'a>>, n: int) -> Seq<ScopeLogsModel>
    decreases n,
{
    if n <= 0 {
        Seq::empty()
    } else if n > s.len() {
        scopes_prefix(s, s.len() as int)
    } else {
        scopes_prefix(s, n - 1).push(scope_logs_view(s[n - 1]))
    }
}

/// What an eager resource-group node denotes.
pub closed spec fn resource_logs_view<'a>(r: ResourceLogs<'a>) -> ResourceLogsModel {
    ResourceLogsModel {
        resource: match r.resource {
            Some(res) => Some(resource_view(res)),
            None => None,
        },
        scopes: scopes_prefix(r.scope_logs@, r.scope_logs_used as int),
        schema_url: opt_bytes(r.schema_url),
    }
}

impl<'a> View for ResourceLogs<'a> {
    type V = ResourceLogsModel;

    open spec fn view(&self) -> ResourceLogsModel {
        resource_logs_view(*self)
    }
}

/// Appending a node does not change what an existing prefix denotes.
proof fn lemma_scopes_prefix_push<'a>(s: Seq<ScopeLogs<'a>>, x: ScopeLogs<'a>, n: int)
    requires
        0 <= n <= s.len(),
    ensures
        scopes_prefix(s.push(x), n) == scopes_prefix(s, n),
    decreases n,
{
    if n > 0 {
        lemma_scopes_prefix_push(s, x, n - 1);
        assert(s.push(x)[n - 1] == s[n - 1]);
    }
}

/// Overwriting a node past the prefix does not change what the prefix
/// denotes.
proof fn lemma_scopes_prefix_update<'a>(s: Seq<ScopeLogs<'a>>, i: int, x: ScopeLogs<'a>, n: int)
    requires
        0 <= n <= i < s.len(),
    ensures
        scopes_prefix(s.update(i, x), n) == scopes_prefix(s, n),
    decreases n,
{
    if n > 0 {
        lemma_scopes_prefix_update(s, i, x, n - 1);
        assert(s.update(i, x)[n - 1] == s[n - 1]);
    }
}

/// Overwriting the node at the prefix boundary keeps the prefix and
/// appends the new node's view to the one-longer prefix.
proof fn lemma_scopes_slot<'a>(s: Seq<ScopeLogs<'a>>, i: int, x: ScopeLogs<'a>)
    requires
        0 <= i < s.len(),
    ensures
        scopes_prefix(s.update(i, x), i) == scopes_prefix(s, i),
        scopes_prefix(s.update(i, x), i + 1) == scopes_prefix(s, i).push(scope_logs_view(x)),
{
    lemma_scopes_prefix_update(s, i, x, i);
    assert(s.update(i, x)[i] == x);
}

/// The prefix view has length `n` and its `i`-th element is the view of
/// the `i`-th node.
proof fn lemma_scopes_prefix_take(s: Seq<ScopeLogs>, n: int)
    requires
        0 <= n <= s.len(),
    ensures
        scopes_prefix(s, n).len() == n,
        forall|i: int| 0 <= i < n ==> #[trigger] scopes_prefix(s, n)[i] == scope_logs_view(s[i]),
    decreases n,
{
    if n > 0 {
        lemma_scopes_prefix_take(s, n - 1);
    }
}

/// Repopulates a pooled scope-group collection from every occurrence of
/// tag 2.  Returns the logical length.
fn fill_scopes<'a>(parser: &ProtobufParser<'a>, scopes: &mut Vec<ScopeLogs<'a>>) -> (used: usize)
    ensures
        used <= final(scopes)@.len(),
        scopes_prefix(final(scopes)@, used as int) == scopes_list(parser@, 0),
{
    let ghost d = parser@;
    let fields = parser.parse_all_fields(2);
    let mut used: usize = 0;
    let mut i: usize = 0;
    proof {
        crate::wire::lemma_found_fields_bounds(d, 2);
    }
    while i < fields.len()
        invariant
            parser@ == d,
            fields@.len() == found_fields(d, 2).len(),
            forall|j: int|
                0 <= j < fields@.len() ==> {
                    let f = #[trigger] found_fields(d, 2)[j];
                    fields@[j].0 == f.wire && fields@[j].1 == f.pos
                },
            forall|j: int|
                0 <= j < found_fields(d, 2).len() ==> 1 <= #[trigger] found_fields(d, 2)[j].pos
                    <= d.len(),
            i <= fields@.len(),
            used <= scopes@.len(),
            scopes_list(d, 0) == scopes_prefix(scopes@, used as int) + scopes_list(d, i as int),
        decreases fields@.len() - i,
    {
        let (wire_type, pos) = fields[i];
        if wire_type == WIRE_LEN {
            if let Some((bytes, _)) = parser.parse_length_delimited(pos) {
                if used >= scopes.len() {
                    let ghost pre = scopes@;
                    let fresh = ScopeLogs::new();
                    let ghost freshg = fresh;
                    scopes.push(fresh);
                    proof {
                        assert(scopes@ == pre.push(freshg));
                        lemma_scopes_prefix_push(pre, freshg, used as int);
                    }
                }
                let cap = scopes.len();
                proof {
                    assert(used < cap);
                }
                let ghost before = scopes@;
                let slot = &mut scopes[used];
                let ok = slot.parse(bytes);
                proof {
                    assert(scopes@ == before.update(used as int, scopes@[used as int]));
                    lemma_scopes_slot(before, used as int, scopes@[used as int]);
                }
                if ok {
                    used = used + 1;
                }
            }
        }
        proof {
            let es = found_fields(d, 2);
            let f = es[i as int];
            if f.wire == WIRE_LEN && len_delim(d, f.pos) is Some {
                let r = len_delim(d, f.pos)->Some_0;
                lemma_len_delim_bounds(d, f.pos);
                assert(2 <= r.0 <= r.1 <= d.len() && r.1 - r.0 < d.len());
                let rest = scopes_list(d, i as int + 1);
                let m = scope_logs_model(d.subrange(r.0, r.1));
                assert(scopes_list(d, i as int) == seq![m] + rest);
                assert(scopes_prefix(scopes@, used as int) == scopes_prefix(
                    scopes@,
                    used as int - 1,
                ).push(m));
                assert(scopes_prefix(scopes@, used as int - 1) + (seq![m] + rest)
                    =~= scopes_prefix(scopes@, used as int) + rest);
            } else {
                assert(scopes_list(d, i as int) == scopes_list(d, i as int + 1));
            }
            assert(scopes_list(d, 0) == scopes_prefix(scopes@, used as int) + scopes_list(
                d,
                i as int + 1,
            ));
        }
        i = i + 1;
    }
    proof {
        assert(scopes_prefix(scopes@, used as int) + Seq::<ScopeLogsModel>::empty()
            =~= scopes_prefix(scopes@, used as int));
    }
    used
}

impl<'a> ResourceLogs<'a> {
    /// A fresh node with no resource and no scope groups.
    pub fn new() -> (r: Self)
        ensures
            r@ == (ResourceLogsModel {
                resource: None,
                scopes: Seq::<ScopeLogsModel>::empty(),
                schema_url: None,
            }),
    {
        ResourceLogs {
            resource: None,
            scope_logs: Vec::new(),
            scope_logs_used: 0,
            schema_url: None,
        }
    }

    /// Resets the node, keeping the pooled capacity.
    pub fn clear(&mut self)
        ensures
            final(self)@ == (ResourceLogsModel {
                resource: None,
                scopes: Seq::<ScopeLogsModel>::empty(),
                schema_url: None,
            }),
    {
        self.resource = None;
        self.scope_logs_used = 0;
        self.schema_url = None;
    }

    /// Repopulates the node from a resource group message.
    pub fn parse(&mut self, data: &'a [u8]) -> (r: bool)
        ensures
            r == true,
            final(self)@ == resource_logs_model(data@),
    {
        self.clear();
        let parser = ProtobufParser::new(data);

        self.resource = match parse_msg_field(&parser, 1) {
            Some(bytes) => {
                let mut resource = Resource::new();
                if resource.parse(bytes) {
                    Some(resource)
                } else {
                    None
                }
            },
            None => None,
        };

        self.scope_logs_used = fill_scopes(&parser, &mut self.scope_logs);

        self.schema_url = parse_string_field(&parser, 3);

        proof {
            assert(self@ =~= resource_logs_model(data@));
        }
        true
    }

    /// The resource node, if one was stored.
    pub fn resource_message(&self) -> (r: Option<&Resource<'a>>)
        ensures
            match r {
                Some(res) => self@.resource == Some(res@),
                None => self@.resource is None,
            },
    {
        self.resource.as_ref()
    }

    /// The resource's display name: its service-name attribute, with a
    /// placeholder when the resource or the attribute is absent.
    pub fn resource(&self) -> (r: &'a [u8])
        ensures
            r@ == resource_display_name(self@),
    {
        if let Some(res) = self.resource.as_ref() {
            if let Some(name) = res.get_service_name() {
                return name;
            }
        }
        let unknown: &'static [u8] = &[117u8, 110u8, 107u8, 110u8, 111u8, 119u8, 110u8, 45u8,
            115u8, 101u8, 114u8, 118u8, 105u8, 99u8, 101u8];
        proof {
            assert(unknown@ =~= spec_unknown_service());
        }
        unknown
    }

    /// The scope groups within the logical length.
    pub fn scopes(&self) -> (r: UsedSliceIter<'_, ScopeLogs<'a>>)
        ensures
            r.remaining_elems().len() == self@.scopes.len(),
            forall|i: int|
                0 <= i < r.remaining_elems().len() ==> scope_logs_view(
                    #[trigger] r.remaining_elems()[i],
                ) == self@.scopes[i],
    {
        let n = if self.scope_logs_used <= self.scope_logs.len() {
            self.scope_logs_used
        } else {
            self.scope_logs.len()
        };
        let r = UsedSliceIter::new(vstd::slice::slice_subrange(self.scope_logs.as_slice(), 0, n));
        proof {
            lemma_scopes_prefix_take(self.scope_logs@, n as int);
        }
        r
    }

    /// The schema URL, if present.
    pub fn schema_url(&self) -> (r: Option<&'a [u8]>)
        ensures
            opt_bytes(r) == self@.schema_url,
    {
        self.schema_url
    }
}

/// The placeholder name reported for an absent resource or service name.
pub open spec fn spec_unknown_service() -> Seq<u8> {
    seq![
        117u8,
        110u8,
        107u8,
        110u8,
        111u8,
        119u8,
        110u8,
        45u8,
        115u8,
        101u8,
        114u8,
        118u8,
        105u8,
        99u8,
        101u8,
    ]
}

/// The display name of a resource group: its service-name attribute, or a
/// placeholder when the resource or the attribute is absent.
pub open spec fn resource_display_name(m: ResourceLogsModel) -> Seq<u8> {
    match m.resource {
        Some(rm) => match attr_lookup(rm.attrs, Resource::spec_service_name_key()) {
            Some(s) => s,
            None => spec_unknown_service(),
        },
        None => spec_unknown_service(),
    }
}

/// Reusable eagerly parsed logs payload: the root of the eager tree.
pub struct LogsData<'a> {
    resource_logs: Vec<ResourceLogs<'a>>,
    used_count: usize,
}

/// What the first `n` elements of a sequence of resource-group nodes
/// denote (`n` clamped to the sequence's length).
pub open spec fn rl_prefix<'a>(s: Seq<ResourceLogs<'a>>, n: int) -> Seq<ResourceLogsModel>
    decreases n,
{
    if n <= 0 {
        Seq::empty()
    } else if n > s.len() {
        rl_prefix(s, s.len() as int)
    } else {
        rl_prefix(s, n - 1).push(resource_logs_view(s[n - 1]))
    }
}

impl<'a> View for LogsData<'a> {
    type V = Seq<ResourceLogsModel>;

    closed spec fn view(&self) -> Seq<ResourceLogsModel> {
        rl_prefix(self.resource_logs@, self.used_count as int)
    }
}

/// Appending a node does not change what an existing prefix denotes.
proof fn lemma_rl_prefix_push<'a>(s: Seq<ResourceLogs<'a>>, x: ResourceLogs<'a>, n: int)
    requires
        0 <= n <= s.len(),
    ensures
        rl_prefix(s.push(x), n) == rl_prefix(s, n),
    decreases n,
{
    if n > 0 {
        lemma_rl_prefix_push(s, x, n - 1);
        assert(s.push(x)[n - 1] == s[n - 1]);
    }
}

/// Overwriting a node past the prefix does not change what the prefix
/// denotes.
proof fn lemma_rl_prefix_update<'a>(s: Seq<ResourceLogs<'a>>, i: int, x: ResourceLogs<'a>, n: int)
    requires
        0 <= n <= i < s.len(),
    ensures
        rl_prefix(s.update(i, x), n) == rl_prefix(s, n),
    decreases n,
{
    if n > 0 {
        lemma_rl_prefix_update(s, i, x, n - 1);
        assert(s.update(i, x)[n - 1] == s[n - 1]);
    }
}

/// Overwriting the node at the prefix boundary keeps the prefix and
/// appends the new node's view to the one-longer prefix.
proof fn lemma_rl_slot<'a>(s: Seq<ResourceLogs<'a>>, i: int, x: ResourceLogs<'a>)
    requires
        0 <= i < s.len(),
    ensures
        rl_prefix(s.update(i, x), i) == rl_prefix(s, i),
        rl_prefix(s.update(i, x), i + 1) == rl_prefix(s, i).push(resource_logs_view(x)),
{
    lemma_rl_prefix_update(s, i, x, i);
    assert(s.update(i, x)[i] == x);
}

/// The prefix view has length `n` and its `i`-th element is the view of
/// the `i`-th node.
proof fn lemma_rl_prefix_take(s: Seq<ResourceLogs>, n: int)
    requires
        0 <= n <= s.len(),
    ensures
        rl_prefix(s, n).len() == n,
        forall|i: int| 0 <= i < n ==> #[trigger] rl_prefix(s, n)[i] == resource_logs_view(s[i]),
    decreases n,
{
    if n > 0 {
        lemma_rl_prefix_take(s, n - 1);
    }
}

impl<'a> LogsData<'a> {
    /// The logical length never exceeds the pooled node count.
    pub closed spec fn wf(self) -> bool {
        self.used_count <= self.resource_logs@.len()
    }

    /// A fresh tree with no resource groups.
    pub fn new() -> (r: Self)
        ensures
            r@ == Seq::<ResourceLogsModel>::empty(),
            r.wf(),
    {
        LogsData { resource_logs: Vec::new(), used_count: 0 }
    }

    /// Resets the logical length, keeping every pooled node and its
    /// capacity.
    pub fn clear(&mut self)
        ensures
            final(self)@ == Seq::<ResourceLogsModel>::empty(),
            final(self).wf(),
    {
        self.used_count = 0;
    }

    /// Repopulates the whole tree from an encoded logs payload, reusing
    /// pooled nodes; afterwards the tree exposes exactly the denoted
    /// resource groups, whatever it held before.  Reports whether at least
    /// one resource group was decoded.
    #[verifier::rlimit(60)]
    pub fn parse(&mut self, data: &'a [u8]) -> (r: bool)
        ensures
            final(self)@ == logs_model(data@),
            final(self).wf(),
            r == (logs_model(data@).len() > 0),
    {
        self.clear();
        proof {
            assert(rl_prefix(self.resource_logs@, self.used_count as int) + rlogs_list(data@, 0)
                =~= rlogs_list(data@, 0));
        }

        let parser = ProtobufParser::new(data);
        let ghost d = data@;
        let ghost rs = msg_ranges(d, 1);
        let ghost mut k: int = 0;
        let mut pos: usize = 0;
        let mut stopped = false;
        proof {
            lemma_children_at_is_ranges(d, 0, 1);
            assert(children_at(d, 0, 1) == rs);
            assert(rs.skip(0) =~= rs);
            lemma_msg_ranges_bounds(d, 1);
        }
        while !stopped && pos < parser.data_len()
            invariant
                parser@ == d,
                data@ == d,
                rs == msg_ranges(d, 1),
                forall|j: int|
                    0 <= j < rs.len() ==> {
                        let rr = #[trigger] rs[j];
                        2 <= rr.0 <= rr.1 <= d.len() && rr.1 - rr.0 < d.len()
                    },
                0 <= k <= rs.len(),
                pos <= d.len(),
                children_at(d, pos as int, 1) == (if stopped {
                    Seq::<(int, int)>::empty()
                } else {
                    rs.skip(k)
                }),
                stopped ==> k == rs.len(),
                self.used_count <= self.resource_logs@.len(),
                rlogs_list(d, 0) == rl_prefix(self.resource_logs@, self.used_count as int)
                    + rlogs_list(d, k),
            decreases d.len() - pos + (if stopped {
                0int
            } else {
                1int
            }),
        {
            match parser.parse_varint(pos) {
                None => {
                    proof {
                        assert(children_at(d, pos as int, 1) =~= Seq::<(int, int)>::empty());
                        assert(rs.skip(k).len() == 0);
                        assert(k == rs.len());
                    }
                    stopped = true;
                },
                Some((tag_and_wire, new_pos)) => {
                    let tag = #[verifier::truncate] ((tag_and_wire >> 3) as u32);
                    let wire_type = #[verifier::truncate] ((tag_and_wire & 0x7) as u8);
                    if tag == 1 && wire_type == WIRE_LEN {
                        match parser.parse_length_delimited(new_pos) {
                            Some((bytes, end_pos)) => {
                                proof {
                                    assert(children_at(d, pos as int, 1) == seq![
                                        ((end_pos - bytes@.len()) as int, end_pos as int),
                                    ] + children_at(d, end_pos as int, 1));
                                    assert(rs.skip(k)[0] == rs[k]);
                                    assert((seq![
                                        ((end_pos - bytes@.len()) as int, end_pos as int),
                                    ] + children_at(d, end_pos as int, 1)).skip(1)
                                        =~= children_at(d, end_pos as int, 1));
                                    assert(rs.skip(k).skip(1) =~= rs.skip(k + 1));
                                    assert(children_at(d, end_pos as int, 1) =~= rs.skip(k + 1));
                                    assert(bytes@ == d.subrange(rs[k].0, rs[k].1));
                                }
                                if self.used_count >= self.resource_logs.len() {
                                    let ghost pre = self.resource_logs@;
                                    let fresh = ResourceLogs::new();
                                    let ghost freshg = fresh;
                                    self.resource_logs.push(fresh);
                                    proof {
                                        assert(self.resource_logs@ == pre.push(freshg));
                                        lemma_rl_prefix_push(pre, freshg, self.used_count as int);
                                    }
                                }
                                let cap = self.resource_logs.len();
                                proof {
                                    assert(self.used_count < cap);
                                }
                                let used = self.used_count;
                                let ghost before = self.resource_logs@;
                                let slot = &mut self.resource_logs[used];
                                let ok = slot.parse(bytes);
                                proof {
                                    assert(self.resource_logs@ == before.update(
                                        used as int,
                                        self.resource_logs@[used as int],
                                    ));
                                    lemma_rl_slot(
                                        before,
                                        used as int,
                                        self.resource_logs@[used as int],
                                    );
                                }
                                if ok {
                                    self.used_count = used + 1;
                                }
                                proof {
                                    let m = resource_logs_model(d.subrange(rs[k].0, rs[k].1));
                                    let rest = rlogs_list(d, k + 1);
                                    assert(rlogs_list(d, k) == seq![m] + rest);
                                    assert(rl_prefix(
                                        self.resource_logs@,
                                        self.used_count as int,
                                    ) == rl_prefix(
                                        self.resource_logs@,
                                        self.used_count as int - 1,
                                    ).push(m));
                                    assert(rl_prefix(
                                        self.resource_logs@,
                                        self.used_count as int - 1,
                                    ) + (seq![m] + rest) =~= rl_prefix(
                                        self.resource_logs@,
                                        self.used_count as int,
                                    ) + rest);
                                    k = k + 1;
                                }
                                pos = end_pos;
                            },
                            None => {
                                proof {
                                    assert(children_at(d, pos as int, 1) =~= Seq::<
                                        (int, int),
                                    >::empty());
                                    assert(k == rs.len());
                                }
                                stopped = true;
                            },
                        }
                    } else {
                        match parser.skip_value(wire_type, new_pos) {
                            Some(p3) => {
                                proof {
                                    assert(children_at(d, pos as int, 1) == children_at(
                                        d,
                                        p3 as int,
                                        1,
                                    ));
                                }
                                pos = p3;
                            },
                            None => {
                                proof {
                                    assert(children_at(d, pos as int, 1) =~= Seq::<
                                        (int, int),
                                    >::empty());
                                    assert(k == rs.len());
                                }
                                stopped = true;
                            },
                        }
                    }
                },
            }
        }
        proof {
            if !stopped {
                assert(children_at(d, pos as int, 1) =~= Seq::<(int, int)>::empty());
                assert(rs.skip(k).len() == 0);
                assert(k == rs.len());
            }
            assert(rlogs_list(d, k).len() == 0);
            assert(rl_prefix(self.resource_logs@, self.used_count as int) + Seq::<
                ResourceLogsModel,
            >::empty() =~= rl_prefix(self.resource_logs@, self.used_count as int));
            assert(self@ == logs_model(d));
            lemma_rl_prefix_take(self.resource_logs@, self.used_count as int);
        }
        self.used_count > 0
    }

    /// The resource groups within the logical length.
    pub fn resources(&self) -> (r: UsedSliceIter<'_, ResourceLogs<'a>>)
        ensures
            r.remaining_elems().len() == self@.len(),
            forall|i: int|
                0 <= i < r.remaining_elems().len() ==> resource_logs_view(
                    #[trigger] r.remaining_elems()[i],
                ) == self@[i],
    {
        let n = if self.used_count <= self.resource_logs.len() {
            self.used_count
        } else {
            self.resource_logs.len()
        };
        let r = UsedSliceIter::new(
            vstd::slice::slice_subrange(self.resource_logs.as_slice(), 0, n),
        );
        proof {
            lemma_rl_prefix_take(self.resource_logs@, n as int);
        }
        r
    }
}

/// An iterator over the nodes within a collection's logical length;
/// pooled nodes past that bound are never yielded.
pub struct UsedSliceIter<'s, T> {
    slice: &'s [T],
    index: usize,
}

impl<'s, T> UsedSliceIter<'s, T> {
    /// The elements this iterator has yet to yield.
    pub closed spec fn remaining_elems(self) -> Seq<T> {
        if self.index as int <= self.slice@.len() {
            self.slice@.skip(self.index as int)
        } else {
            Seq::empty()
        }
    }

    fn new(slice: &'s [T]) -> (r: Self)
        ensures
            r.remaining_elems() == slice@,
    {
        let r = UsedSliceIter { slice, index: 0 };
        proof {
            assert(slice@.skip(0) =~= slice@);
        }
        r
    }

    /// How many nodes remain to be yielded.
    pub fn remaining_len(&self) -> (n: usize)
        ensures
            n == self.remaining_elems().len(),
    {
        if self.index <= self.slice.len() {
            self.slice.len() - self.index
        } else {
            0
        }
    }

    /// Yields a reference to the next node, advancing past it.
    pub fn next(&mut self) -> (r: Option<&'s T>)
        ensures
            match r {
                Some(x) => old(self).remaining_elems().len() > 0 && *x == old(
                    self,
                ).remaining_elems()[0] && final(self).remaining_elems() == old(
                    self,
                ).remaining_elems().skip(1),
                None => old(self).remaining_elems().len() == 0 && final(self).remaining_elems()
                    == old(self).remaining_elems(),
            },
    {
        if self.index < self.slice.len() {
            let item = vstd::slice::slice_index_get(self.slice, self.index);
            self.index = self.index + 1;
            proof {
                assert(old(self).remaining_elems()[0] == self.slice@[old(self).index as int]);
                assert(self.remaining_elems() =~= old(self).remaining_elems().skip(1));
            }
            Some(item)
        } else {
            None
        }
    }
}

} // verus!
