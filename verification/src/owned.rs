//! The baseline strategy: a plain in-memory object tree holding owned
//! values.  It is built directly (never decoded), denotes the same models
//! as the other strategies, and exposes the same traversal surface, so
//! traversal code written once yields identical results from any backend.

use vstd::prelude::*;
use crate::model::{attr_lookup, AttrModel, RecordModel, ResourceLogsModel, ResourceModel,
    ScopeLogsModel, ScopeModel, ValueModel};
use crate::ValueType;

verus! {

broadcast use vstd::seq::group_seq_axioms, vstd::std_specs::vec::group_vec_axioms;

/// A dynamically typed value with owned contents.  `DoubleValue` carries
/// the raw bit pattern of the 8-byte field.
pub enum AnyValueData {
    StringValue(Vec<u8>),
    BoolValue(bool),
    IntValue(i64),
    DoubleValue(u64),
    ArrayValue(Vec<AnyValue>),
    KvlistValue(Vec<KeyValue>),
    BytesValue(Vec<u8>),
}

/// A value slot; `value: None` stands for a value with no populated branch.
pub struct AnyValue {
    pub value: Option<AnyValueData>,
}

/// One owned key/value attribute.
pub struct KeyValue {
    pub key: Vec<u8>,
    pub value: Option<AnyValue>,
}

/// What an owned value slot denotes; an unpopulated slot denotes nothing.
pub open spec fn value_view(v: AnyValue) -> Option<ValueModel>
    decreases v, 1int, 0int,
{
    match v.value {
        Some(AnyValueData::StringValue(s)) => Some(ValueModel::String(s@)),
        Some(AnyValueData::BoolValue(b)) => Some(ValueModel::Bool(b)),
        Some(AnyValueData::IntValue(n)) => Some(ValueModel::Int(n)),
        Some(AnyValueData::DoubleValue(bits)) => Some(ValueModel::Double(bits)),
        Some(AnyValueData::ArrayValue(vs)) => Some(
            ValueModel::Array(vals_view(vs@, vs@.len() as int)),
        ),
        Some(AnyValueData::KvlistValue(kvs)) => Some(
            ValueModel::KvList(kvs_view(kvs@, kvs@.len() as int)),
        ),
        Some(AnyValueData::BytesValue(b)) => Some(ValueModel::Bytes(b@)),
        None => None,
    }
}

/// What the first `n` owned value slots denote; unpopulated slots denote
/// nothing and are left out.
pub open spec fn vals_view(s: Seq<AnyValue>, n: int) -> Seq<ValueModel>
    decreases s, 0int, n,
{
    if n <= 0 {
        Seq::empty()
    } else if n > s.len() {
        vals_view(s, s.len() as int)
    } else {
        match value_view(s[n - 1]) {
            Some(m) => vals_view(s, n - 1).push(m),
            None => vals_view(s, n - 1),
        }
    }
}

/// What an owned attribute denotes.
pub open spec fn kv_view(kv: KeyValue) -> AttrModel
    decreases kv, 1int, 0int,
{
    AttrModel {
        key: kv.key@,
        val: match kv.value {
            Some(av) => value_view(av),
            None => None,
        },
    }
}

/// What the first `n` owned attributes denote.
pub open spec fn kvs_view(s: Seq<KeyValue>, n: int) -> Seq<AttrModel>
    decreases s, 0int, n,
{
    if n <= 0 {
        Seq::empty()
    } else if n > s.len() {
        kvs_view(s, s.len() as int)
    } else {
        kvs_view(s, n - 1).push(kv_view(s[n - 1]))
    }
}

/// An owned byte string under proto3 presence rules: empty means absent.
pub open spec fn opt_text(s: Seq<u8>) -> Option<Seq<u8>> {
    if s.len() == 0 {
        None
    } else {
        Some(s)
    }
}

/// The owned resource description.
pub struct Resource {
    pub attributes: Vec<KeyValue>,
    pub dropped_attributes_count: u32,
}

/// What an owned resource denotes.
pub open spec fn resource_view(r: Resource) -> ResourceModel {
    ResourceModel {
        attrs: kvs_view(r.attributes@, r.attributes@.len() as int),
        dropped: if r.dropped_attributes_count == 0 {
            None
        } else {
            Some(r.dropped_attributes_count)
        },
    }
}

/// The owned instrumentation scope.
pub struct InstrumentationScope {
    pub name: Vec<u8>,
    pub version: Vec<u8>,
    pub attributes: Vec<KeyValue>,
    pub dropped_attributes_count: u32,
}

/// What an owned scope denotes.
pub open spec fn scope_view(s: InstrumentationScope) -> ScopeModel {
    ScopeModel {
        name: opt_text(s.name@),
        version: opt_text(s.version@),
        attrs: kvs_view(s.attributes@, s.attributes@.len() as int),
        dropped: if s.dropped_attributes_count == 0 {
            None
        } else {
            Some(s.dropped_attributes_count)
        },
    }
}

/// One owned log record.  Identifier fields follow proto3 presence rules:
/// an empty byte string or a zero scalar stands for an absent field.
pub struct LogRecord {
    pub time_unix_nano: u64,
    pub observed_time_unix_nano: u64,
    pub severity_number: i32,
    pub severity_text: Vec<u8>,
    pub body: Option<AnyValue>,
    pub attributes: Vec<KeyValue>,
    pub dropped_attributes_count: u32,
    pub flags: u32,
    pub trace_id: Vec<u8>,
    pub span_id: Vec<u8>,
    pub event_name: Vec<u8>,
}

/// What an owned record denotes.
pub open spec fn record_view(r: LogRecord) -> RecordModel
    decreases r,
{
    RecordModel {
        time: if r.time_unix_nano == 0 {
            None
        } else {
            Some(r.time_unix_nano)
        },
        observed: r.observed_time_unix_nano,
        severity: r.severity_number,
        severity_text: opt_text(r.severity_text@),
        body: match r.body {
            Some(av) => value_view(av),
            None => None,
        },
        attrs: kvs_view(r.attributes@, r.attributes@.len() as int),
        dropped: if r.dropped_attributes_count == 0 {
            None
        } else {
            Some(r.dropped_attributes_count)
        },
        flags: if r.flags == 0 {
            None
        } else {
            Some(r.flags)
        },
        trace_id: if r.trace_id@.len() == 0 {
            None
        } else {
            Some(r.trace_id@)
        },
        span_id: if r.span_id@.len() == 0 {
            None
        } else {
            Some(r.span_id@)
        },
        event_name: opt_text(r.event_name@),
    }
}

/// One owned scope group.
pub struct ScopeLogs {
    pub scope: Option<InstrumentationScope>,
    pub log_records: Vec<LogRecord>,
    pub schema_url: Vec<u8>,
}

/// What an owned scope group denotes.
pub open spec fn scope_logs_view(s: ScopeLogs) -> ScopeLogsModel
    decreases s,
{
    ScopeLogsModel {
        scope: match s.scope {
            Some(sc) => Some(scope_view(sc)),
            None => None,
        },
        records: records_view(s.log_records@, s.log_records@.len() as int),
        schema_url: opt_text(s.schema_url@),
    }
}

/// What the first `n` owned records denote.
pub open spec fn records_view(s: Seq<LogRecord>, n: int) -> Seq<RecordModel>
    decreases n,
{
    if n <= 0 {
        Seq::empty()
    } else if n > s.len() {
        records_view(s, s.len() as int)
    } else {
        records_view(s, n - 1).push(record_view(s[n - 1]))
    }
}

/// One owned resource group.
pub struct ResourceLogs {
    pub resource: Option<Resource>,
    pub scope_logs: Vec<ScopeLogs>,
    pub schema_url: Vec<u8>,
}

/// What an owned resource group denotes.
pub open spec fn resource_logs_view(r: ResourceLogs) -> ResourceLogsModel
    decreases r,
{
    ResourceLogsModel {
        resource: match r.resource {
            Some(res) => Some(resource_view(res)),
            None => None,
        },
        scopes: scopes_view(r.scope_logs@, r.scope_logs@.len() as int),
        schema_url: opt_text(r.schema_url@),
    }
}

/// What the first `n` owned scope groups denote.
pub open spec fn scopes_view(s: Seq<ScopeLogs>, n: int) -> Seq<ScopeLogsModel>
    decreases n,
{
    if n <= 0 {
        Seq::empty()
    } else if n > s.len() {
        scopes_view(s, s.len() as int)
    } else {
        scopes_view(s, n - 1).push(scope_logs_view(s[n - 1]))
    }
}

/// The owned logs payload: the root of the baseline tree.
pub struct LogsData {
    pub resource_logs: Vec<ResourceLogs>,
}

/// What the first `n` owned resource groups denote.
pub open spec fn rl_view(s: Seq<ResourceLogs>, n: int) -> Seq<ResourceLogsModel>
    decreases n,
{
    if n <= 0 {
        Seq::empty()
    } else if n > s.len() {
        rl_view(s, s.len() as int)
    } else {
        rl_view(s, n - 1).push(resource_logs_view(s[n - 1]))
    }
}

impl View for LogsData {
    type V = Seq<ResourceLogsModel>;

    open spec fn view(&self) -> Seq<ResourceLogsModel> {
        rl_view(self.resource_logs@, self.resource_logs@.len() as int)
    }
}

/// The prefix view has length `n` and its `i`-th element is the view of
/// the `i`-th node.
pub proof fn lemma_rl_view_take(s: Seq<ResourceLogs>, n: int)
    requires
        0 <= n <= s.len(),
    ensures
        rl_view(s, n).len() == n,
        forall|i: int| 0 <= i < n ==> #[trigger] rl_view(s, n)[i] == resource_logs_view(s[i]),
    decreases n,
{
    if n > 0 {
        lemma_rl_view_take(s, n - 1);
    }
}

/// The prefix view has length `n` and its `i`-th element is the view of
/// the `i`-th node.
pub proof fn lemma_scopes_view_take(s: Seq<ScopeLogs>, n: int)
    requires
        0 <= n <= s.len(),
    ensures
        scopes_view(s, n).len() == n,
        forall|i: int| 0 <= i < n ==> #[trigger] scopes_view(s, n)[i] == scope_logs_view(s[i]),
    decreases n,
{
    if n > 0 {
        lemma_scopes_view_take(s, n - 1);
    }
}

/// The prefix view has length `n` and its `i`-th element is the view of
/// the `i`-th node.
pub proof fn lemma_records_view_take(s: Seq<LogRecord>, n: int)
    requires
        0 <= n <= s.len(),
    ensures
        records_view(s, n).len() == n,
        forall|i: int| 0 <= i < n ==> #[trigger] records_view(s, n)[i] == record_view(s[i]),
    decreases n,
{
    if n > 0 {
        lemma_records_view_take(s, n - 1);
    }
}

/// The prefix view has length `n` and its `i`-th element is the view of
/// the `i`-th node.
pub proof fn lemma_kvs_view_take(s: Seq<KeyValue>, n: int)
    requires
        0 <= n <= s.len(),
    ensures
        kvs_view(s, n).len() == n,
        forall|i: int| 0 <= i < n ==> #[trigger] kvs_view(s, n)[i] == kv_view(s[i]),
    decreases n,
{
    if n > 0 {
        lemma_kvs_view_take(s, n - 1);
    }
}

impl LogsData {
    /// The resource groups of the payload.
    pub fn resources(&self) -> (r: &Vec<ResourceLogs>)
        ensures
            r@.len() == self@.len(),
            forall|i: int|
                0 <= i < r@.len() ==> resource_logs_view(#[trigger] r@[i]) == self@[i],
    {
        proof {
            lemma_rl_view_take(self.resource_logs@, self.resource_logs@.len() as int);
        }
        &self.resource_logs
    }
}

impl ResourceLogs {
    /// The resource's display name: its service-name attribute, or a
    /// placeholder when the resource or the attribute is absent.
    pub fn resource(&self) -> (r: &[u8])
        ensures
            r@ == owned_display_name(resource_logs_view(*self)),
    {
        if let Some(res) = &self.resource {
            let n = res.attributes.len();
            let ghost attrs = resource_view(*res).attrs;
            proof {
                lemma_kvs_view_take(res.attributes@, n as int);
                assert(attrs.skip(0) =~= attrs);
            }
            let mut k: usize = 0;
            let key: [u8; 12] = [115u8, 101u8, 114u8, 118u8, 105u8, 99u8, 101u8, 46u8, 110u8,
                97u8, 109u8, 101u8];
            proof {
                assert(key@ =~= crate::otlp_bytes::Resource::spec_service_name_key());
            }
            while k < n
                invariant
                    self.resource is Some,
                    *res == self.resource->Some_0,
                    attrs == resource_view(*res).attrs,
                    n == res.attributes@.len(),
                    attrs.len() == n,
                    forall|i: int|
                        0 <= i < n ==> kv_view(#[trigger] res.attributes@[i]) == attrs[i],
                    k <= n,
                    key@ == crate::otlp_bytes::Resource::spec_service_name_key(),
                    attr_lookup(attrs, key@) == attr_lookup(attrs.skip(k as int), key@),
                decreases n - k,
            {
                proof {
                    assert(attrs.skip(k as int)[0] == attrs[k as int]);
                    assert(attrs.skip(k as int).skip(1) =~= attrs.skip(k as int + 1));
                }
                let kv = &res.attributes[k];
                if crate::model::bytes_eq(kv.key.as_slice(), key.as_slice()) {
                    proof {
                        assert(kv_view(res.attributes@[k as int]) == attrs[k as int]);
                        assert(attrs[k as int].key == key@);
                        assert(attr_lookup(attrs.skip(k as int), key@) == (
                        match attrs[k as int].val {
                            Some(ValueModel::String(s)) => Some(s),
                            _ => None,
                        }));
                    }
                    if let Some(av) = kv.value.as_ref() {
                        if let Some(AnyValueData::StringValue(s)) = av.value.as_ref() {
                            proof {
                                assert(attrs[k as int].val == Some(ValueModel::String(s@)));
                                assert(attr_lookup(attrs, key@) == Some(s@));
                                assert(self.resource is Some);
                                assert(*res == self.resource->Some_0);
                                assert(resource_logs_view(*self).resource == Some(
                                    resource_view(*res),
                                ));
                                assert(owned_display_name(resource_logs_view(*self)) == s@);
                            }
                            return s.as_slice();
                        }
                    }
                    let unknown: &'static [u8] = &[117u8, 110u8, 107u8, 110u8, 111u8, 119u8,
                        110u8];
                    proof {
                        assert(unknown@ =~= spec_unknown());
                        assert(attr_lookup(attrs, key@) is None);
                    }
                    return unknown;
                }
                k = k + 1;
            }
            proof {
                assert(attrs.skip(n as int).len() == 0);
            }
        }
        let unknown: &'static [u8] = &[117u8, 110u8, 107u8, 110u8, 111u8, 119u8, 110u8];
        proof {
            assert(unknown@ =~= spec_unknown());
        }
        unknown
    }

    /// The scope groups of the resource group.
    pub fn scopes(&self) -> (r: &Vec<ScopeLogs>)
        ensures
            r@.len() == resource_logs_view(*self).scopes.len(),
            forall|i: int|
                0 <= i < r@.len() ==> scope_logs_view(#[trigger] r@[i]) == resource_logs_view(
                    *self,
                ).scopes[i],
    {
        proof {
            lemma_scopes_view_take(self.scope_logs@, self.scope_logs@.len() as int);
        }
        &self.scope_logs
    }
}

/// The placeholder name the baseline tree reports for anything it cannot
/// resolve.
pub open spec fn spec_unknown() -> Seq<u8> {
    seq![117u8, 110u8, 107u8, 110u8, 111u8, 119u8, 110u8]
}

/// The display name of a resource group in the baseline tree: the string
/// value of its first service-name attribute, or a placeholder when the
/// resource or the attribute is absent or the attribute is not a string.
pub open spec fn owned_display_name(m: ResourceLogsModel) -> Seq<u8> {
    match m.resource {
        Some(rm) => match attr_lookup(rm.attrs, crate::otlp_bytes::Resource::spec_service_name_key(),
        ) {
            Some(s) => s,
            None => spec_unknown(),
        },
        None => spec_unknown(),
    }
}

impl ScopeLogs {
    /// The scope's display name: its name field, or empty when the scope is
    /// absent (an absent scope reports a placeholder).
    pub fn scope(&self) -> (r: &[u8])
        ensures
            r@ == owned_scope_name(scope_logs_view(*self)),
    {
        match self.scope.as_ref() {
            Some(s) => s.name.as_slice(),
            None => {
                let unknown: &'static [u8] = &[117u8, 110u8, 107u8, 110u8, 111u8, 119u8, 110u8];
                proof {
                    assert(unknown@ =~= spec_unknown());
                }
                unknown
            },
        }
    }

    /// The scope's version field, absent when the scope is absent.
    pub fn version(&self) -> (r: Option<&[u8]>)
        ensures
            match r {
                Some(v) => self.scope is Some && v@ == self.scope->Some_0.version@,
                None => self.scope is None,
            },
    {
        match self.scope.as_ref() {
            Some(s) => Some(s.version.as_slice()),
            None => None,
        }
    }

    /// The log records of the scope group.
    pub fn log_records(&self) -> (r: &Vec<LogRecord>)
        ensures
            r@.len() == scope_logs_view(*self).records.len(),
            forall|i: int|
                0 <= i < r@.len() ==> record_view(#[trigger] r@[i]) == scope_logs_view(
                    *self,
                ).records[i],
    {
        proof {
            lemma_records_view_take(self.log_records@, self.log_records@.len() as int);
        }
        &self.log_records
    }
}

/// The display name of a scope group in the baseline tree: the scope's raw
/// name field (possibly empty), or a placeholder when the scope is absent.
pub open spec fn owned_scope_name(m: ScopeLogsModel) -> Seq<u8> {
    match m.scope {
        Some(sm) => match sm.name {
            Some(nb) => nb,
            None => Seq::empty(),
        },
        None => spec_unknown(),
    }
}

impl LogRecord {
    /// The record's display name: the same constant for every record.
    pub fn name(&self) -> (r: &[u8])
        ensures
            r@ == crate::otlp_bytes::spec_record_name(),
    {
        let name: &'static [u8] = &[108u8, 111u8, 103u8, 95u8, 114u8, 101u8, 99u8, 111u8, 114u8,
            100u8];
        proof {
            assert(name@ =~= crate::otlp_bytes::spec_record_name());
        }
        name
    }

    /// The record's timestamp: the baseline tree reports the explicit
    /// timestamp field directly.
    pub fn timestamp(&self) -> (r: Option<u64>)
        ensures
            r == Some(self.time_unix_nano),
    {
        Some(self.time_unix_nano)
    }

    /// The record's attributes.
    pub fn attributes(&self) -> (r: &Vec<KeyValue>)
        ensures
            r@.len() == record_view(*self).attrs.len(),
            forall|i: int|
                0 <= i < r@.len() ==> kv_view(#[trigger] r@[i]) == record_view(*self).attrs[i],
    {
        proof {
            lemma_kvs_view_take(self.attributes@, self.attributes@.len() as int);
        }
        &self.attributes
    }
}

impl KeyValue {
    /// The attribute's key.
    pub fn key(&self) -> (r: &[u8])
        ensures
            r@ == kv_view(*self).key,
    {
        self.key.as_slice()
    }

    /// The attribute's value slot, if any.
    pub fn value(&self) -> (r: Option<&AnyValue>)
        ensures
            match r {
                Some(v) => self.value == Some(*v),
                None => self.value is None,
            },
    {
        self.value.as_ref()
    }
}

impl AnyValue {
    /// The dynamic type of the value; an unpopulated slot reports the
    /// string type, as the baseline tree has no separate unknown marker.
    pub fn value_type(&self) -> (r: ValueType)
        ensures
            r == match value_view(*self) {
                Some(m) => owned_type_of(m),
                None => ValueType::String,
            },
    {
        match self.value.as_ref() {
            Some(AnyValueData::StringValue(_)) => ValueType::String,
            Some(AnyValueData::BoolValue(_)) => ValueType::Bool,
            Some(AnyValueData::IntValue(_)) => ValueType::Int64,
            Some(AnyValueData::DoubleValue(_)) => ValueType::Double,
            Some(AnyValueData::ArrayValue(_)) => ValueType::Array,
            Some(AnyValueData::KvlistValue(_)) => ValueType::KeyValueList,
            Some(AnyValueData::BytesValue(_)) => ValueType::Bytes,
            None => ValueType::String,
        }
    }

    /// The string branch, absent on a type mismatch.
    pub fn as_string(&self) -> (r: Option<&[u8]>)
        ensures
            match r {
                Some(b) => value_view(*self) == Some(ValueModel::String(b@)),
                None => !(value_view(*self) matches Some(m) && m is String),
            },
    {
        match self.value.as_ref() {
            Some(AnyValueData::StringValue(s)) => Some(s.as_slice()),
            _ => None,
        }
    }

    /// The boolean branch, absent on a type mismatch.
    pub fn as_bool(&self) -> (r: Option<bool>)
        ensures
            match r {
                Some(b) => value_view(*self) == Some(ValueModel::Bool(b)),
                None => !(value_view(*self) matches Some(m) && m is Bool),
            },
    {
        match self.value.as_ref() {
            Some(AnyValueData::BoolValue(b)) => Some(*b),
            _ => None,
        }
    }

    /// The integer branch, absent on a type mismatch.
    pub fn as_int64(&self) -> (r: Option<i64>)
        ensures
            match r {
                Some(n) => value_view(*self) == Some(ValueModel::Int(n)),
                None => !(value_view(*self) matches Some(m) && m is Int),
            },
    {
        match self.value.as_ref() {
            Some(AnyValueData::IntValue(n)) => Some(*n),
            _ => None,
        }
    }

    /// The bit pattern of the double branch, absent on a type mismatch.
    pub fn as_double_bits(&self) -> (r: Option<u64>)
        ensures
            match r {
                Some(bits) => value_view(*self) == Some(ValueModel::Double(bits)),
                None => !(value_view(*self) matches Some(m) && m is Double),
            },
    {
        match self.value.as_ref() {
            Some(AnyValueData::DoubleValue(bits)) => Some(*bits),
            _ => None,
        }
    }

    /// The bytes branch, absent on a type mismatch.
    pub fn as_bytes(&self) -> (r: Option<&[u8]>)
        ensures
            match r {
                Some(b) => value_view(*self) == Some(ValueModel::Bytes(b@)),
                None => !(value_view(*self) matches Some(m) && m is Bytes),
            },
    {
        match self.value.as_ref() {
            Some(AnyValueData::BytesValue(b)) => Some(b.as_slice()),
            _ => None,
        }
    }

    /// The element slots of the array branch, absent on a type mismatch.
    pub fn as_array(&self) -> (r: Option<&Vec<AnyValue>>)
        ensures
            match r {
                Some(vs) => value_view(*self) == Some(
                    ValueModel::Array(vals_view(vs@, vs@.len() as int)),
                ),
                None => !(value_view(*self) matches Some(m) && m is Array),
            },
    {
        match self.value.as_ref() {
            Some(AnyValueData::ArrayValue(vs)) => Some(vs),
            _ => None,
        }
    }

    /// The entries of the key/value-list branch, absent on a type mismatch.
    pub fn as_kvlist(&self) -> (r: Option<&Vec<KeyValue>>)
        ensures
            match r {
                Some(kvs) => value_view(*self) == Some(
                    ValueModel::KvList(kvs_view(kvs@, kvs@.len() as int)),
                ),
                None => !(value_view(*self) matches Some(m) && m is KvList),
            },
    {
        match self.value.as_ref() {
            Some(AnyValueData::KvlistValue(kvs)) => Some(kvs),
            _ => None,
        }
    }
}

/// The dynamic type that each denoted value reports through the shared
/// traversal surface.
pub open spec fn owned_type_of(m: ValueModel) -> ValueType {
    match m {
        ValueModel::String(_) => ValueType::String,
        ValueModel::Bool(_) => ValueType::Bool,
        ValueModel::Int(_) => ValueType::Int64,
        ValueModel::Double(_) => ValueType::Double,
        ValueModel::Array(_) => ValueType::Array,
        ValueModel::KvList(_) => ValueType::KeyValueList,
        ValueModel::Bytes(_) => ValueType::Bytes,
    }
}

} // verus!
