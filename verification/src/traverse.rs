//! Traversal written once per strategy, counting resource groups, scope
//! groups, log records and attributes, each proved to report the counts of
//! the decoded model — so the three strategies are interchangeable for
//! traversal, which is the point of the shared surface.

use vstd::prelude::*;
use crate::model::{
    attr_model, attrs_list, logs_model, record_model, records_list, resource_logs_model,
    rlogs_list, scope_logs_model, scopes_list, RecordModel, ResourceLogsModel, ScopeLogsModel,
};
use crate::wire::{
    children_at, found_fields, len_delim, lemma_children_at_is_ranges, lemma_children_at_sum,
    lemma_fields_at_count, lemma_found_fields_bounds, lemma_len_delim_bounds,
    lemma_msg_ranges_bounds, msg_ranges, msgs, ranges_from, ranges_len_sum, tag_pred, FieldAt,
    WIRE_LEN,
};
use crate::otlp_bytes;
use crate::otlp_bytes_lazy::{
    LogsDataParser, LogRecordParser, ResourceLogsParser, ScopeLogsParser,
};
use crate::owned;

verus! {

broadcast use vstd::seq::group_seq_axioms, vstd::std_specs::vec::group_vec_axioms;

/// The total attribute count of a run of records.
pub open spec fn record_attr_total(rs: Seq<RecordModel>) -> int
    decreases rs.len(),
{
    if rs.len() == 0 {
        0
    } else {
        rs[0].attrs.len() + record_attr_total(rs.skip(1))
    }
}

/// The total record count of a run of scope groups.
pub open spec fn scopes_record_total(ss: Seq<ScopeLogsModel>) -> int
    decreases ss.len(),
{
    if ss.len() == 0 {
        0
    } else {
        ss[0].records.len() + scopes_record_total(ss.skip(1))
    }
}

/// The total attribute count of a run of scope groups.
pub open spec fn scopes_attr_total(ss: Seq<ScopeLogsModel>) -> int
    decreases ss.len(),
{
    if ss.len() == 0 {
        0
    } else {
        record_attr_total(ss[0].records) + scopes_attr_total(ss.skip(1))
    }
}

/// The total scope-group count of a decoded payload.
pub open spec fn logs_scope_total(ls: Seq<ResourceLogsModel>) -> int
    decreases ls.len(),
{
    if ls.len() == 0 {
        0
    } else {
        ls[0].scopes.len() + logs_scope_total(ls.skip(1))
    }
}

/// The total record count of a decoded payload.
pub open spec fn logs_record_total(ls: Seq<ResourceLogsModel>) -> int
    decreases ls.len(),
{
    if ls.len() == 0 {
        0
    } else {
        scopes_record_total(ls[0].scopes) + logs_record_total(ls.skip(1))
    }
}

/// The total attribute count of a decoded payload.
pub open spec fn logs_attr_total(ls: Seq<ResourceLogsModel>) -> int
    decreases ls.len(),
{
    if ls.len() == 0 {
        0
    } else {
        scopes_attr_total(ls[0].scopes) + logs_attr_total(ls.skip(1))
    }
}

/// The four traversal counts of a decoded payload: resource groups, scope
/// groups, log records, attributes.
pub open spec fn traversal_counts(ls: Seq<ResourceLogsModel>) -> (int, int, int, int) {
    (ls.len() as int, logs_scope_total(ls), logs_record_total(ls), logs_attr_total(ls))
}

/// Whether the four counts fit the machine word that the traversal
/// functions report them in.
pub open spec fn counts_fit(ls: Seq<ResourceLogsModel>) -> bool {
    logs_scope_total(ls) <= usize::MAX && logs_record_total(ls) <= usize::MAX && logs_attr_total(
        ls,
    ) <= usize::MAX
}

/// Every count is nonnegative.
proof fn lemma_totals_nonneg(ls: Seq<ResourceLogsModel>)
    ensures
        logs_scope_total(ls) >= 0,
        logs_record_total(ls) >= 0,
        logs_attr_total(ls) >= 0,
    decreases ls.len(),
{
    if ls.len() > 0 {
        lemma_totals_nonneg(ls.skip(1));
        lemma_scope_totals_nonneg(ls[0].scopes);
    }
}

/// Every count is nonnegative.
proof fn lemma_scope_totals_nonneg(ss: Seq<ScopeLogsModel>)
    ensures
        scopes_record_total(ss) >= 0,
        scopes_attr_total(ss) >= 0,
    decreases ss.len(),
{
    if ss.len() > 0 {
        lemma_scope_totals_nonneg(ss.skip(1));
        lemma_record_totals_nonneg(ss[0].records);
    }
}

/// Every count is nonnegative.
proof fn lemma_record_totals_nonneg(rs: Seq<RecordModel>)
    ensures
        record_attr_total(rs) >= 0,
    decreases rs.len(),
{
    if rs.len() > 0 {
        lemma_record_totals_nonneg(rs.skip(1));
    }
}

/// The counts of every strategy agree: any two traversals that report the
/// counts of the same decoded model report the same counts.  The eager
/// tree, the lazy view and the baseline tree each come with a traversal
/// whose contract is exactly `traversal_counts` of its model, so identical
/// logical content yields identical traversal results from any of the
/// three.
pub proof fn lemma_traversals_agree(
    ls: Seq<ResourceLogsModel>,
    a: (usize, usize, usize, usize),
    b: (usize, usize, usize, usize),
)
    requires
        (a.0 as int, a.1 as int, a.2 as int, a.3 as int) == traversal_counts(ls),
        (b.0 as int, b.1 as int, b.2 as int, b.3 as int) == traversal_counts(ls),
    ensures
        a == b,
{
}

/// Parsing is idempotent: parsing the same bytes twice into the same eager
/// tree leaves the same observable state as parsing them once, because the
/// tree a parse leaves behind is a function of the bytes alone.
pub proof fn lemma_parse_idempotent(
    data: Seq<u8>,
    once: Seq<ResourceLogsModel>,
    twice: Seq<ResourceLogsModel>,
)
    requires
        once == logs_model(data),
        twice == logs_model(data),
    ensures
        once == twice,
{
}

/// Reuse is sound: parsing new bytes into a used eager tree exposes
/// exactly the new content — no entry of any earlier, larger parse stays
/// visible — because the state a parse leaves behind is a function of the
/// new bytes alone, whatever the tree held before.
pub proof fn lemma_parse_reuse(
    first: Seq<u8>,
    second: Seq<u8>,
    reused: Seq<ResourceLogsModel>,
    fresh: Seq<ResourceLogsModel>,
)
    requires
        reused == logs_model(second),
        fresh == logs_model(second),
    ensures
        reused == fresh,
        reused.len() == logs_model(second).len(),
{
}

/// Round trip at the payload level: encoding any run of resource-group
/// messages and decoding the result yields exactly those groups'
/// denotations, in order.
pub proof fn lemma_payload_round_trip(groups: Seq<Seq<u8>>)
    requires
        forall|i: int| 0 <= i < groups.len() ==> #[trigger] groups[i].len() <= u64::MAX,
    ensures
        logs_model(crate::wire::encoded_children(1, groups)).len() == groups.len(),
        forall|i: int|
            0 <= i < groups.len() ==> #[trigger] logs_model(
                crate::wire::encoded_children(1, groups),
            )[i] == resource_logs_model(groups[i]),
{
    let buf = crate::wire::encoded_children(1, groups);
    crate::wire::lemma_children_round_trip(1, groups);
    lemma_counts_bounded(buf);
    lemma_children_at_is_ranges(buf, 0, 1);
    assert(found_fields(buf, 1) == crate::wire::fields_at(buf, 0).filter(tag_pred(1)));
    assert(msg_ranges(buf, 1) == children_at(buf, 0, 1));
    assert forall|i: int| 0 <= i < groups.len() implies #[trigger] logs_model(buf)[i]
        == resource_logs_model(groups[i]) by {
        let r = msg_ranges(buf, 1)[i];
        assert(buf.subrange(r.0, r.1) == groups[i]);
    }
}

/// Round trip at the scope-group level: encoding any run of record
/// messages and decoding the scope group yields exactly those records'
/// denotations, in order.
pub proof fn lemma_scope_round_trip(records: Seq<Seq<u8>>)
    requires
        forall|i: int| 0 <= i < records.len() ==> #[trigger] records[i].len() <= u64::MAX,
    ensures
        scope_logs_model(crate::wire::encoded_children(2, records)).records.len()
            == records.len(),
        forall|i: int|
            0 <= i < records.len() ==> #[trigger] scope_logs_model(
                crate::wire::encoded_children(2, records),
            ).records[i] == record_model(records[i]),
{
    let buf = crate::wire::encoded_children(2, records);
    crate::wire::lemma_children_round_trip(2, records);
    lemma_scope_bounds(buf);
    assert forall|i: int| 0 <= i < records.len() implies #[trigger] scope_logs_model(
        buf,
    ).records[i] == record_model(records[i]) by {
        let r = children_at(buf, 0, 2)[i];
        assert(buf.subrange(r.0, r.1) == records[i]);
        assert(records_list(buf, 0)[i] == record_model(buf.subrange(r.0, r.1)));
    }
}

/// Counts the eager tree's content by walking its iterators, reporting
/// `None` only when a total does not fit in a machine word.
pub fn count_logs_eager(logs: &otlp_bytes::LogsData) -> (r: Option<(usize, usize, usize, usize)>)
    ensures
        counts_fit(logs@) ==> r == Some(
            (
                logs@.len() as usize,
                logs_scope_total(logs@) as usize,
                logs_record_total(logs@) as usize,
                logs_attr_total(logs@) as usize,
            ),
        ),
{
    let ghost ls = logs@;
    let mut resource_count: usize = 0;
    let mut scope_count: usize = 0;
    let mut record_count: usize = 0;
    let mut attribute_count: usize = 0;
    let mut resources = logs.resources();
    let n0 = resources.remaining_len();
    proof {
        assert(ls.skip(0) =~= ls);
        lemma_totals_nonneg(ls);
    }
    loop
        invariant
            ls == logs@,
            ls.len() == n0,
            resources.remaining_elems().len() <= ls.len(),
            resource_count + resources.remaining_elems().len() == ls.len(),
            forall|i: int|
                0 <= i < resources.remaining_elems().len()
                    ==> otlp_bytes::resource_logs_view(
                    #[trigger] resources.remaining_elems()[i],
                ) == ls[resource_count + i],
            counts_fit(ls) ==> {
                &&& scope_count == logs_scope_total(ls) - logs_scope_total(
                    ls.skip(resource_count as int),
                )
                &&& record_count == logs_record_total(ls) - logs_record_total(
                    ls.skip(resource_count as int),
                )
                &&& attribute_count == logs_attr_total(ls) - logs_attr_total(
                    ls.skip(resource_count as int),
                )
            },
        ensures
            resource_count == ls.len(),
            counts_fit(ls) ==> {
                &&& scope_count == logs_scope_total(ls)
                &&& record_count == logs_record_total(ls)
                &&& attribute_count == logs_attr_total(ls)
            },
        decreases resources.remaining_elems().len(),
    {
        let next_resource = resources.next();
        match next_resource {
            None => {
                proof {
                    assert(ls.skip(resource_count as int).len() == 0);
                    assert(logs_scope_total(ls.skip(resource_count as int)) == 0);
                    assert(logs_record_total(ls.skip(resource_count as int)) == 0);
                    assert(logs_attr_total(ls.skip(resource_count as int)) == 0);
                }
                break;
            },
            Some(resource) => {
                let ghost rm = ls[resource_count as int];
                proof {
                    assert(otlp_bytes::resource_logs_view(*resource) == ls[resource_count as int]);
                    assert(ls.skip(resource_count as int)[0] == ls[resource_count as int]);
                    assert(ls.skip(resource_count as int).skip(1) =~= ls.skip(
                        resource_count as int + 1,
                    ));
                    lemma_totals_nonneg(ls.skip(resource_count as int + 1));
                    lemma_scope_totals_nonneg(rm.scopes);
                }
                proof {
                    assert(logs_scope_total(ls.skip(resource_count as int)) == rm.scopes.len()
                        + logs_scope_total(ls.skip(resource_count as int + 1)));
                    assert(logs_record_total(ls.skip(resource_count as int))
                        == scopes_record_total(rm.scopes) + logs_record_total(
                        ls.skip(resource_count as int + 1),
                    ));
                    assert(logs_attr_total(ls.skip(resource_count as int)) == scopes_attr_total(
                        rm.scopes,
                    ) + logs_attr_total(ls.skip(resource_count as int + 1)));
                }
                match count_resource_eager(resource) {
                    Some((s, c, a)) => {
                        if counts_would_overflow(scope_count, s) || counts_would_overflow(
                            record_count,
                            c,
                        ) || counts_would_overflow(attribute_count, a) {
                            proof {
                                if counts_fit(ls) {
                                    assert(false);
                                }
                            }
                            return None;
                        }
                        scope_count = scope_count + s;
                        record_count = record_count + c;
                        attribute_count = attribute_count + a;
                    },
                    None => {
                        proof {
                            if counts_fit(ls) {
                                assert(scopes_record_total(rm.scopes) <= usize::MAX);
                                assert(scopes_attr_total(rm.scopes) <= usize::MAX);
                                assert(false);
                            }
                        }
                        return None;
                    },
                }
                resource_count = resource_count + 1;
                proof {
                    assert forall|i: int| 0 <= i < resources.remaining_elems().len()
                        implies otlp_bytes::resource_logs_view(
                        #[trigger] resources.remaining_elems()[i],
                    ) == ls[resource_count + i] by {}
                }
            },
        }
    }
    Some((resource_count, scope_count, record_count, attribute_count))
}

/// Whether adding `b` to `a` would exceed the machine word.
fn counts_would_overflow(a: usize, b: usize) -> (r: bool)
    ensures
        r == (a + b > usize::MAX),
{
    a > usize::MAX - b
}

/// Counts one eager resource group's scope groups, records and attributes.
fn count_resource_eager(resource: &otlp_bytes::ResourceLogs) -> (r: Option<
    (usize, usize, usize),
>)
    ensures
        ({
            let rm = otlp_bytes::resource_logs_view(*resource);
            (scopes_record_total(rm.scopes) <= usize::MAX && scopes_attr_total(rm.scopes)
                <= usize::MAX) ==> r == Some(
                (
                    rm.scopes.len() as usize,
                    scopes_record_total(rm.scopes) as usize,
                    scopes_attr_total(rm.scopes) as usize,
                ),
            )
        }),
{
    let ghost ss = otlp_bytes::resource_logs_view(*resource).scopes;
    let mut scope_count: usize = 0;
    let mut record_count: usize = 0;
    let mut attribute_count: usize = 0;
    let mut scopes = resource.scopes();
    let n0 = scopes.remaining_len();
    proof {
        assert(ss.skip(0) =~= ss);
        lemma_scope_totals_nonneg(ss);
    }
    loop
        invariant
            ss == otlp_bytes::resource_logs_view(*resource).scopes,
            ss.len() == n0,
            scopes.remaining_elems().len() <= ss.len(),
            scope_count + scopes.remaining_elems().len() == ss.len(),
            forall|i: int|
                0 <= i < scopes.remaining_elems().len() ==> otlp_bytes::scope_logs_view(
                    #[trigger] scopes.remaining_elems()[i],
                ) == ss[scope_count + i],
            (scopes_record_total(ss) <= usize::MAX && scopes_attr_total(ss) <= usize::MAX) ==> {
                &&& record_count == scopes_record_total(ss) - scopes_record_total(
                    ss.skip(scope_count as int),
                )
                &&& attribute_count == scopes_attr_total(ss) - scopes_attr_total(
                    ss.skip(scope_count as int),
                )
            },
        ensures
            scope_count == ss.len(),
            (scopes_record_total(ss) <= usize::MAX && scopes_attr_total(ss) <= usize::MAX) ==> {
                &&& record_count == scopes_record_total(ss)
                &&& attribute_count == scopes_attr_total(ss)
            },
        decreases scopes.remaining_elems().len(),
    {
        let next_scope = scopes.next();
        match next_scope {
            None => {
                proof {
                    assert(ss.skip(scope_count as int).len() == 0);
                    assert(scopes_record_total(ss.skip(scope_count as int)) == 0);
                    assert(scopes_attr_total(ss.skip(scope_count as int)) == 0);
                }
                break;
            },
            Some(scope) => {
                let ghost sm = ss[scope_count as int];
                proof {
                    assert(otlp_bytes::scope_logs_view(*scope) == ss[scope_count as int]);
                    assert(ss.skip(scope_count as int)[0] == ss[scope_count as int]);
                    assert(ss.skip(scope_count as int).skip(1) =~= ss.skip(scope_count as int + 1));
                    lemma_scope_totals_nonneg(ss.skip(scope_count as int + 1));
                    lemma_record_totals_nonneg(sm.records);
                }
                proof {
                    assert(scopes_record_total(ss.skip(scope_count as int)) == sm.records.len()
                        + scopes_record_total(ss.skip(scope_count as int + 1)));
                    assert(scopes_attr_total(ss.skip(scope_count as int)) == record_attr_total(
                        sm.records,
                    ) + scopes_attr_total(ss.skip(scope_count as int + 1)));
                }
                match count_scope_eager(scope) {
                    Some((c, a)) => {
                        if counts_would_overflow(record_count, c) || counts_would_overflow(
                            attribute_count,
                            a,
                        ) {
                            proof {
                                if scopes_record_total(ss) <= usize::MAX && scopes_attr_total(ss)
                                    <= usize::MAX {
                                    assert(false);
                                }
                            }
                            return None;
                        }
                        record_count = record_count + c;
                        attribute_count = attribute_count + a;
                    },
                    None => {
                        proof {
                            if scopes_record_total(ss) <= usize::MAX && scopes_attr_total(ss)
                                <= usize::MAX {
                                assert(record_attr_total(sm.records) <= usize::MAX);
                                assert(false);
                            }
                        }
                        return None;
                    },
                }
                scope_count = scope_count + 1;
            },
        }
    }
    Some((scope_count, record_count, attribute_count))
}

/// Counts one eager scope group's records and attributes.
fn count_scope_eager(scope: &otlp_bytes::ScopeLogs) -> (r: Option<(usize, usize)>)
    ensures
        ({
            let sm = otlp_bytes::scope_logs_view(*scope);
            record_attr_total(sm.records) <= usize::MAX ==> r == Some(
                (sm.records.len() as usize, record_attr_total(sm.records) as usize),
            )
        }),
{
    let ghost rs = otlp_bytes::scope_logs_view(*scope).records;
    let mut record_count: usize = 0;
    let mut attribute_count: usize = 0;
    let mut records = scope.log_records();
    let n0 = records.remaining_len();
    proof {
        assert(rs.skip(0) =~= rs);
        lemma_record_totals_nonneg(rs);
    }
    loop
        invariant
            rs == otlp_bytes::scope_logs_view(*scope).records,
            rs.len() == n0,
            records.remaining_elems().len() <= rs.len(),
            record_count + records.remaining_elems().len() == rs.len(),
            forall|i: int|
                0 <= i < records.remaining_elems().len() ==> otlp_bytes::record_view(
                    #[trigger] records.remaining_elems()[i],
                ) == rs[record_count + i],
            record_attr_total(rs) <= usize::MAX ==> attribute_count == record_attr_total(rs)
                - record_attr_total(rs.skip(record_count as int)),
        ensures
            record_count == rs.len(),
            record_attr_total(rs) <= usize::MAX ==> attribute_count == record_attr_total(rs),
        decreases records.remaining_elems().len(),
    {
        let next_record = records.next();
        match next_record {
            None => {
                proof {
                    assert(rs.skip(record_count as int).len() == 0);
                    assert(record_attr_total(rs.skip(record_count as int)) == 0);
                }
                break;
            },
            Some(record) => {
                proof {
                    assert(otlp_bytes::record_view(*record) == rs[record_count as int]);
                    assert(rs.skip(record_count as int)[0] == rs[record_count as int]);
                    assert(rs.skip(record_count as int).skip(1) =~= rs.skip(
                        record_count as int + 1,
                    ));
                    lemma_record_totals_nonneg(rs.skip(record_count as int + 1));
                }
                let a = count_record_attrs_eager(record);
                if counts_would_overflow(attribute_count, a) {
                    proof {
                        assert(a == rs[record_count as int].attrs.len());
                        assert(attribute_count + a > usize::MAX);
                        if record_attr_total(rs) <= usize::MAX {
                            assert(attribute_count == record_attr_total(rs) - record_attr_total(
                                rs.skip(record_count as int),
                            ));
                            assert(record_attr_total(rs.skip(record_count as int)) == rs[
                                record_count as int].attrs.len() + record_attr_total(
                                rs.skip(record_count as int + 1),
                            ));
                            assert(record_attr_total(rs.skip(record_count as int + 1)) >= 0);
                            assert(false);
                        }
                    }
                    return None;
                }
                attribute_count = attribute_count + a;
                record_count = record_count + 1;
            },
        }
    }
    Some((record_count, attribute_count))
}

/// A well-formed record message: every occurrence of the attribute tag is
/// a readable submessage that denotes an attribute (no empty or unreadable
/// keys).  On such records the eager strategy drops nothing and the
/// memoized lazy iteration stops only at the end of its table.
pub open spec fn wf_record(rec: Seq<u8>) -> bool {
    forall|i: int|
        0 <= i < found_fields(rec, 6).len() ==> {
            let f = #[trigger] found_fields(rec, 6)[i];
            &&& f.wire == WIRE_LEN
            &&& len_delim(rec, f.pos) is Some
            &&& attr_model(
                rec.subrange(len_delim(rec, f.pos)->Some_0.0, len_delim(rec, f.pos)->Some_0.1),
            ) is Some
        }
}

/// A well-formed scope group message: every record submessage is
/// well-formed.
pub open spec fn wf_scope_logs(s: Seq<u8>) -> bool {
    forall|j: int| 0 <= j < msgs(s, 2).len() ==> wf_record(#[trigger] msgs(s, 2)[j])
}

/// A well-formed resource group message: every scope group submessage is
/// well-formed.
pub open spec fn wf_resource_logs(r: Seq<u8>) -> bool {
    forall|j: int| 0 <= j < msgs(r, 2).len() ==> wf_scope_logs(#[trigger] msgs(r, 2)[j])
}

/// A well-formed payload: every resource group submessage is well-formed.
/// Well-formedness is what every correctly produced encoding satisfies; it
/// is exactly the condition under which the strategies cannot diverge on
/// attributes that one drops and another surfaces.
pub open spec fn wf_payload(d: Seq<u8>) -> bool {
    forall|j: int| 0 <= j < msgs(d, 1).len() ==> wf_resource_logs(#[trigger] msgs(d, 1)[j])
}

/// The attribute list keeps at most one attribute per occurrence of the
/// tag.
proof fn lemma_attrs_list_count(d: Seq<u8>, tag: u32, i: int)
    requires
        0 <= i <= found_fields(d, tag).len(),
    ensures
        attrs_list(d, tag, i).len() <= found_fields(d, tag).len() - i,
    decreases found_fields(d, tag).len() - i,
{
    if i < found_fields(d, tag).len() {
        lemma_attrs_list_count(d, tag, i + 1);
    }
}

/// On a well-formed record the attribute list keeps exactly one attribute
/// per occurrence of the tag.
proof fn lemma_wf_attrs_count(d: Seq<u8>, i: int)
    requires
        wf_record(d),
        0 <= i <= found_fields(d, 6).len(),
    ensures
        attrs_list(d, 6, i).len() == found_fields(d, 6).len() - i,
    decreases found_fields(d, 6).len() - i,
{
    lemma_found_fields_bounds(d, 6);
    if i < found_fields(d, 6).len() {
        lemma_wf_attrs_count(d, i + 1);
        let f = found_fields(d, 6)[i];
        let r = len_delim(d, f.pos)->Some_0;
        lemma_len_delim_bounds(d, f.pos);
        assert(2 <= r.0 <= r.1 <= d.len() && r.1 - r.0 < d.len());
    }
}

/// An attribute list is no longer than its message: one occurrence per
/// recorded field, one field per byte at most.
proof fn lemma_record_attrs_bound(rec: Seq<u8>)
    ensures
        attrs_list(rec, 6, 0).len() <= rec.len(),
{
    lemma_attrs_list_count(rec, 6, 0);
    crate::wire::fields_of(rec).lemma_filter_len(tag_pred(6));
    lemma_fields_at_count(rec, 0);
}

/// The record list of a scope group, from the `i`-th occurrence of tag 2
/// on, matches the readable submessage ranges one for one: same length,
/// the `j`-th record denotes the `j`-th range's bytes, and the attribute
/// total is bounded by the combined range length.
proof fn lemma_records_vs_ranges(s: Seq<u8>, i: int)
    requires
        0 <= i <= found_fields(s, 2).len(),
    ensures
        ({
            let rg = ranges_from(s, found_fields(s, 2).skip(i));
            &&& records_list(s, i).len() == rg.len()
            &&& forall|j: int|
                0 <= j < rg.len() ==> {
                    let r = #[trigger] rg[j];
                    0 <= r.0 <= r.1 <= s.len() && records_list(s, i)[j] == record_model(
                        s.subrange(r.0, r.1),
                    )
                }
            &&& record_attr_total(records_list(s, i)) <= ranges_len_sum(rg)
        }),
    decreases found_fields(s, 2).len() - i,
{
    let es = found_fields(s, 2);
    lemma_found_fields_bounds(s, 2);
    if i == es.len() {
        assert(es.skip(i) =~= Seq::<FieldAt>::empty());
        assert(ranges_from(s, Seq::<FieldAt>::empty()) =~= Seq::<(int, int)>::empty());
    } else {
        lemma_records_vs_ranges(s, i + 1);
        let f = es[i];
        assert(es.skip(i)[0] == f);
        assert(es.skip(i).skip(1) =~= es.skip(i + 1));
        let rg = ranges_from(s, es.skip(i));
        let rg1 = ranges_from(s, es.skip(i + 1));
        if f.wire == WIRE_LEN && len_delim(s, f.pos) is Some {
            let r = len_delim(s, f.pos)->Some_0;
            lemma_len_delim_bounds(s, f.pos);
            assert(2 <= r.0 <= r.1 <= s.len() && r.1 - r.0 < s.len());
            let m = record_model(s.subrange(r.0, r.1));
            assert(records_list(s, i) == seq![m] + records_list(s, i + 1));
            assert(rg == seq![r] + rg1);
            assert(rg.skip(1) =~= rg1);
            assert((seq![m] + records_list(s, i + 1)).skip(1) =~= records_list(s, i + 1));
            lemma_record_attrs_bound(s.subrange(r.0, r.1));
            assert(m.attrs == attrs_list(s.subrange(r.0, r.1), 6, 0));
            assert forall|j: int| 0 <= j < rg.len() implies {
                let rr = #[trigger] rg[j];
                0 <= rr.0 <= rr.1 <= s.len() && records_list(s, i)[j] == record_model(
                    s.subrange(rr.0, rr.1),
                )
            } by {
                if j > 0 {
                    assert(rg[j] == rg1[j - 1]);
                    assert(records_list(s, i)[j] == records_list(s, i + 1)[j - 1]);
                }
            }
        } else {
            assert(records_list(s, i) == records_list(s, i + 1));
            assert(rg == rg1);
        }
    }
}

/// A scope group's record count and attribute total are bounded by its
/// length, and its record list matches the scanned submessages.
proof fn lemma_scope_bounds(s: Seq<u8>)
    ensures
        scope_logs_model(s).records == records_list(s, 0),
        records_list(s, 0).len() == children_at(s, 0, 2).len(),
        records_list(s, 0).len() <= s.len(),
        record_attr_total(records_list(s, 0)) <= s.len(),
        forall|j: int|
            0 <= j < children_at(s, 0, 2).len() ==> {
                let r = #[trigger] children_at(s, 0, 2)[j];
                0 <= r.0 <= r.1 <= s.len() && records_list(s, 0)[j] == record_model(
                    s.subrange(r.0, r.1),
                )
            },
{
    lemma_children_at_is_ranges(s, 0, 2);
    assert(found_fields(s, 2) == crate::wire::fields_at(s, 0).filter(tag_pred(2)));
    assert(found_fields(s, 2).skip(0) =~= found_fields(s, 2));
    lemma_records_vs_ranges(s, 0);
    lemma_children_at_sum(s, 0, 2);
}

/// The scope-group list of a resource group, from the `i`-th occurrence of
/// tag 2 on, matches the readable submessage ranges one for one, with its
/// record and attribute totals bounded by the combined range length.
proof fn lemma_scopes_vs_ranges(r: Seq<u8>, i: int)
    requires
        0 <= i <= found_fields(r, 2).len(),
    ensures
        ({
            let rg = ranges_from(r, found_fields(r, 2).skip(i));
            &&& scopes_list(r, i).len() == rg.len()
            &&& forall|j: int|
                0 <= j < rg.len() ==> {
                    let rr = #[trigger] rg[j];
                    0 <= rr.0 <= rr.1 <= r.len() && scopes_list(r, i)[j] == scope_logs_model(
                        r.subrange(rr.0, rr.1),
                    )
                }
            &&& scopes_record_total(scopes_list(r, i)) <= ranges_len_sum(rg)
            &&& scopes_attr_total(scopes_list(r, i)) <= ranges_len_sum(rg)
        }),
    decreases found_fields(r, 2).len() - i,
{
    let es = found_fields(r, 2);
    lemma_found_fields_bounds(r, 2);
    if i == es.len() {
        assert(es.skip(i) =~= Seq::<FieldAt>::empty());
        assert(ranges_from(r, Seq::<FieldAt>::empty()) =~= Seq::<(int, int)>::empty());
    } else {
        lemma_scopes_vs_ranges(r, i + 1);
        let f = es[i];
        assert(es.skip(i)[0] == f);
        assert(es.skip(i).skip(1) =~= es.skip(i + 1));
        let rg = ranges_from(r, es.skip(i));
        let rg1 = ranges_from(r, es.skip(i + 1));
        if f.wire == WIRE_LEN && len_delim(r, f.pos) is Some {
            let rr = len_delim(r, f.pos)->Some_0;
            lemma_len_delim_bounds(r, f.pos);
            assert(2 <= rr.0 <= rr.1 <= r.len() && rr.1 - rr.0 < r.len());
            let sub = r.subrange(rr.0, rr.1);
            let m = scope_logs_model(sub);
            assert(scopes_list(r, i) == seq![m] + scopes_list(r, i + 1));
            assert(rg == seq![rr] + rg1);
            assert(rg.skip(1) =~= rg1);
            assert((seq![m] + scopes_list(r, i + 1)).skip(1) =~= scopes_list(r, i + 1));
            lemma_scope_bounds(sub);
            assert(m.records.len() <= sub.len());
            lemma_record_totals_nonneg(m.records);
            assert(record_attr_total(m.records) <= sub.len());
            assert forall|j: int| 0 <= j < rg.len() implies {
                let r2 = #[trigger] rg[j];
                0 <= r2.0 <= r2.1 <= r.len() && scopes_list(r, i)[j] == scope_logs_model(
                    r.subrange(r2.0, r2.1),
                )
            } by {
                if j > 0 {
                    assert(rg[j] == rg1[j - 1]);
                    assert(scopes_list(r, i)[j] == scopes_list(r, i + 1)[j - 1]);
                }
            }
        } else {
            assert(scopes_list(r, i) == scopes_list(r, i + 1));
            assert(rg == rg1);
        }
    }
}

/// A resource group's totals are bounded by its length, and its scope list
/// matches the scanned submessages.
proof fn lemma_resource_bounds(r: Seq<u8>)
    ensures
        resource_logs_model(r).scopes == scopes_list(r, 0),
        scopes_list(r, 0).len() == children_at(r, 0, 2).len(),
        scopes_list(r, 0).len() <= r.len(),
        scopes_record_total(scopes_list(r, 0)) <= r.len(),
        scopes_attr_total(scopes_list(r, 0)) <= r.len(),
        forall|j: int|
            0 <= j < children_at(r, 0, 2).len() ==> {
                let rr = #[trigger] children_at(r, 0, 2)[j];
                0 <= rr.0 <= rr.1 <= r.len() && scopes_list(r, 0)[j] == scope_logs_model(
                    r.subrange(rr.0, rr.1),
                )
            },
{
    lemma_children_at_is_ranges(r, 0, 2);
    assert(found_fields(r, 2) == crate::wire::fields_at(r, 0).filter(tag_pred(2)));
    assert(found_fields(r, 2).skip(0) =~= found_fields(r, 2));
    lemma_scopes_vs_ranges(r, 0);
    lemma_children_at_sum(r, 0, 2);
}

/// The resource-group list of a payload, from the `k`-th submessage range
/// on: its length, its elements, and its totals, all bounded by the
/// combined range length.
proof fn lemma_rlogs_bounds(d: Seq<u8>, k: int)
    requires
        0 <= k <= msg_ranges(d, 1).len(),
    ensures
        ({
            let rs = msg_ranges(d, 1);
            &&& rlogs_list(d, k).len() == rs.len() - k
            &&& forall|j: int|
                k <= j < rs.len() ==> #[trigger] rlogs_list(d, k)[j - k] == resource_logs_model(
                    d.subrange(rs[j].0, rs[j].1),
                )
            &&& logs_scope_total(rlogs_list(d, k)) <= ranges_len_sum(rs.skip(k))
            &&& logs_record_total(rlogs_list(d, k)) <= ranges_len_sum(rs.skip(k))
            &&& logs_attr_total(rlogs_list(d, k)) <= ranges_len_sum(rs.skip(k))
        }),
    decreases msg_ranges(d, 1).len() - k,
{
    let rs = msg_ranges(d, 1);
    lemma_msg_ranges_bounds(d, 1);
    if k == rs.len() {
        assert(rs.skip(k).len() == 0);
    } else {
        lemma_rlogs_bounds(d, k + 1);
        let r = rs[k];
        assert(2 <= r.0 <= r.1 <= d.len() && r.1 - r.0 < d.len());
        let sub = d.subrange(r.0, r.1);
        let m = resource_logs_model(sub);
        assert(rlogs_list(d, k) == seq![m] + rlogs_list(d, k + 1));
        assert((seq![m] + rlogs_list(d, k + 1)).skip(1) =~= rlogs_list(d, k + 1));
        assert(rs.skip(k)[0] == rs[k]);
        assert(rs.skip(k).skip(1) =~= rs.skip(k + 1));
        lemma_resource_bounds(sub);
        lemma_scope_totals_nonneg(m.scopes);
        assert(m.scopes.len() <= sub.len());
        assert forall|j: int| k <= j < rs.len() implies #[trigger] rlogs_list(d, k)[j - k]
            == resource_logs_model(d.subrange(rs[j].0, rs[j].1)) by {
            if j > k {
                assert(rlogs_list(d, k)[j - k] == rlogs_list(d, k + 1)[j - (k + 1)]);
            }
        }
    }
}

/// Every traversal count of a decoded payload is bounded by the length of
/// the input buffer: the submessages at each level are disjoint spans.
pub proof fn lemma_counts_bounded(d: Seq<u8>)
    ensures
        logs_model(d).len() <= d.len(),
        logs_scope_total(logs_model(d)) <= d.len(),
        logs_record_total(logs_model(d)) <= d.len(),
        logs_attr_total(logs_model(d)) <= d.len(),
        forall|j: int|
            0 <= j < msg_ranges(d, 1).len() ==> #[trigger] logs_model(d)[j]
                == resource_logs_model(d.subrange(msg_ranges(d, 1)[j].0, msg_ranges(d, 1)[j].1)),
        logs_model(d).len() == children_at(d, 0, 1).len(),
{
    lemma_rlogs_bounds(d, 0);
    lemma_children_at_is_ranges(d, 0, 1);
    assert(found_fields(d, 1) == crate::wire::fields_at(d, 0).filter(tag_pred(1)));
    assert(msg_ranges(d, 1).skip(0) =~= msg_ranges(d, 1));
    lemma_children_at_sum(d, 0, 1);
    assert forall|j: int| 0 <= j < msg_ranges(d, 1).len() implies #[trigger] logs_model(d)[j]
        == resource_logs_model(d.subrange(msg_ranges(d, 1)[j].0, msg_ranges(d, 1)[j].1)) by {
        assert(rlogs_list(d, 0)[j - 0] == resource_logs_model(
            d.subrange(msg_ranges(d, 1)[j].0, msg_ranges(d, 1)[j].1),
        ));
    }
}

/// The number of attributes the memoized record iteration yields on any
/// input: the longest prefix of memoized attribute-tag entries that are
/// readable length-delimited spans — the iteration stops at the first
/// entry that is not.
pub open spec fn record_attr_yield(data: Seq<u8>, i: int) -> int
    decreases found_fields(data, 6).len() - i,
{
    let es = found_fields(data, 6);
    if i < 0 || i >= es.len() {
        0
    } else {
        let f = es[i];
        if f.wire == WIRE_LEN && len_delim(data, f.pos) is Some {
            1 + record_attr_yield(data, i + 1)
        } else {
            0
        }
    }
}

/// The attribute total the lazy traversal of a scope group yields on any
/// input, from its `k`-th record submessage on.
pub open spec fn scope_attr_yield(s: Seq<u8>, k: int) -> int
    decreases children_at(s, 0, 2).len() - k,
{
    let cs = children_at(s, 0, 2);
    if k < 0 || k >= cs.len() {
        0
    } else {
        record_attr_yield(s.subrange(cs[k].0, cs[k].1), 0) + scope_attr_yield(s, k + 1)
    }
}

/// The attribute total the lazy traversal of a resource group yields on
/// any input, from its `k`-th scope-group submessage on.
pub open spec fn resource_attr_yield(r: Seq<u8>, k: int) -> int
    decreases children_at(r, 0, 2).len() - k,
{
    let cs = children_at(r, 0, 2);
    if k < 0 || k >= cs.len() {
        0
    } else {
        scope_attr_yield(r.subrange(cs[k].0, cs[k].1), 0) + resource_attr_yield(r, k + 1)
    }
}

/// The attribute total the lazy traversal of a whole payload yields on any
/// input, from its `k`-th resource-group submessage on.
pub open spec fn payload_attr_yield(d: Seq<u8>, k: int) -> int
    decreases children_at(d, 0, 1).len() - k,
{
    let cs = children_at(d, 0, 1);
    if k < 0 || k >= cs.len() {
        0
    } else {
        resource_attr_yield(d.subrange(cs[k].0, cs[k].1), 0) + payload_attr_yield(d, k + 1)
    }
}

/// Counts one lazy record view's attributes by walking its memoized
/// iterator.  The count is pinned on every input: the yield of the
/// memoized table; on a well-formed record it is exactly the number of
/// attributes the record denotes.
pub fn count_record_attrs_lazy(record: &LogRecordParser) -> (r: usize)
    ensures
        r == record_attr_yield(record@, 0),
        r <= found_fields(record@, 6).len(),
        wf_record(record@) ==> r == attrs_list(record@, 6, 0).len(),
{
    let ghost d = record@;
    let mut count: usize = 0;
    let mut attrs = record.attributes();
    let n = attrs.entries_len();
    proof {
        assert(crate::otlp_bytes_lazy::found_pairs(d, 6).len() == found_fields(d, 6).len());
    }
    loop
        invariant_except_break
            0 <= attrs.idx() <= n,
            count == attrs.idx(),
            record_attr_yield(d, 0) == count + record_attr_yield(d, count as int),
        invariant
            d == record@,
            attrs.buf() == d,
            attrs.entries() == crate::otlp_bytes_lazy::found_pairs(d, 6),
            n == attrs.entries().len(),
            n == found_fields(d, 6).len(),
            count <= n,
        ensures
            count == record_attr_yield(d, 0),
            count <= found_fields(d, 6).len(),
            wf_record(d) ==> count == found_fields(d, 6).len(),
        decreases n - attrs.idx(),
    {
        let next_attr = attrs.next();
        match next_attr {
            None => {
                proof {
                    if count < n {
                        // The iteration stopped on an unusable entry, which
                        // is exactly where the yield ends.
                        let f = found_fields(d, 6)[count as int];
                        assert(attrs.entries()[count as int] == (f.wire, f.pos));
                        assert(record_attr_yield(d, count as int) == 0);
                        if wf_record(d) {
                            assert(false);
                        }
                    } else {
                        assert(record_attr_yield(d, count as int) == 0);
                    }
                }
                break;
            },
            Some(_) => {
                proof {
                    let f = found_fields(d, 6)[count as int];
                    assert(attrs.entries()[count as int] == (f.wire, f.pos));
                    assert(record_attr_yield(d, count as int) == 1 + record_attr_yield(
                        d,
                        count as int + 1,
                    ));
                }
                count = count + 1;
            },
        }
    }
    proof {
        if wf_record(d) {
            lemma_wf_attrs_count(d, 0);
        }
    }
    count
}

/// Counts one lazy scope-group view's records and attributes by fresh
/// iteration.  The record count is always exact; the attribute total is
/// exact on well-formed scope groups.
#[verifier::rlimit(60)]
pub fn count_scope_lazy(scope: &ScopeLogsParser) -> (r: (usize, usize))
    ensures
        r.0 == scope_logs_model(scope@).records.len(),
        r.1 == scope_attr_yield(scope@, 0),
        r.1 <= scope@.len(),
        wf_scope_logs(scope@) ==> r.1 == record_attr_total(scope_logs_model(scope@).records),
{
    let ghost d = scope@;
    let ghost cs = children_at(d, 0, 2);
    let ghost rm = scope_logs_model(d).records;
    let mut record_count: usize = 0;
    let mut attribute_count: usize = 0;
    let mut records = scope.log_records();
    let n0 = scope.data_len();
    proof {
        lemma_scope_bounds(d);
        lemma_children_at_sum(d, 0, 2);
        assert(cs.skip(0) =~= cs);
        assert(rm.skip(0) =~= rm);
        lemma_ranges_sum_parts(cs, 0);
    }
    loop
        invariant
            d == scope@,
            cs == children_at(d, 0, 2),
            rm == scope_logs_model(d).records,
            rm == records_list(d, 0),
            n0 == d.len(),
            cs.len() <= d.len(),
            ranges_len_sum(cs) <= d.len(),
            rm.len() == cs.len(),
            forall|j: int|
                0 <= j < cs.len() ==> {
                    let r = #[trigger] cs[j];
                    0 <= r.0 <= r.1 <= d.len() && rm[j] == record_model(d.subrange(r.0, r.1))
                },
            records.buf() == d,
            0 <= record_count <= cs.len(),
            records.remaining() == cs.skip(record_count as int),
            attribute_count + ranges_len_sum(cs.skip(record_count as int)) <= ranges_len_sum(cs),
            0 <= attribute_count,
            scope_attr_yield(d, 0) == attribute_count + scope_attr_yield(d, record_count as int),
            wf_scope_logs(d) ==> attribute_count == record_attr_total(rm) - record_attr_total(
                rm.skip(record_count as int),
            ),
        ensures
            record_count == cs.len(),
            attribute_count == scope_attr_yield(d, 0),
            attribute_count <= d.len(),
            wf_scope_logs(d) ==> attribute_count == record_attr_total(rm),
        decreases cs.len() - record_count,
    {
        let next_record = records.next();
        match next_record {
            None => {
                proof {
                    assert(cs.skip(record_count as int).len() == 0);
                    assert(record_count == cs.len());
                    assert(record_attr_total(rm.skip(record_count as int)) == 0);
                    assert(scope_attr_yield(d, record_count as int) == 0);
                    lemma_ranges_sum_parts(cs, record_count as int);
                }
                break;
            },
            Some(record) => {
                proof {
                    assert(cs.skip(record_count as int)[0] == cs[record_count as int]);
                    assert(cs.skip(record_count as int).skip(1) =~= cs.skip(
                        record_count as int + 1,
                    ));
                    assert(record@ == d.subrange(
                        cs[record_count as int].0,
                        cs[record_count as int].1,
                    ));
                    assert(record_model(record@) == rm[record_count as int]);
                    assert(scope_attr_yield(d, record_count as int) == record_attr_yield(
                        record@,
                        0,
                    ) + scope_attr_yield(d, record_count as int + 1));
                    lemma_ranges_sum_parts(cs, record_count as int + 1);
                    lemma_record_attrs_bound(record@);
                    crate::wire::fields_of(record@).lemma_filter_len(tag_pred(6));
                    lemma_fields_at_count(record@, 0);
                    if wf_scope_logs(d) {
                        lemma_children_at_is_ranges(d, 0, 2);
                        assert(found_fields(d, 2) == crate::wire::fields_at(d, 0).filter(
                            tag_pred(2),
                        ));
                        assert(msg_ranges(d, 2) == cs);
                        assert(msgs(d, 2)[record_count as int] == record@);
                        assert(wf_record(record@));
                        assert(rm.skip(record_count as int)[0] == rm[record_count as int]);
                        assert(rm.skip(record_count as int).skip(1) =~= rm.skip(
                            record_count as int + 1,
                        ));
                    }
                }
                let a = count_record_attrs_lazy(&record);
                attribute_count = attribute_count + a;
                record_count = record_count + 1;
            },
        }
    }
    (record_count, attribute_count)
}

/// Counts one lazy resource-group view's scope groups, records and
/// attributes by fresh iteration.  Scope and record counts are always
/// exact; the attribute total is exact on well-formed resource groups.
#[verifier::rlimit(80)]
pub fn count_resource_lazy(resource: &ResourceLogsParser) -> (r: (usize, usize, usize))
    ensures
        r.0 == resource_logs_model(resource@).scopes.len(),
        r.1 == scopes_record_total(resource_logs_model(resource@).scopes),
        r.2 == resource_attr_yield(resource@, 0),
        r.2 <= resource@.len(),
        wf_resource_logs(resource@) ==> r.2 == scopes_attr_total(
            resource_logs_model(resource@).scopes,
        ),
{
    let ghost d = resource@;
    let ghost cs = children_at(d, 0, 2);
    let ghost sm = resource_logs_model(d).scopes;
    let mut scope_count: usize = 0;
    let mut record_count: usize = 0;
    let mut attribute_count: usize = 0;
    let mut scopes = resource.scope_logs();
    let n0 = resource.data_len();
    proof {
        lemma_resource_bounds(d);
        lemma_children_at_sum(d, 0, 2);
        assert(cs.skip(0) =~= cs);
        assert(sm.skip(0) =~= sm);
        lemma_ranges_sum_parts(cs, 0);
        lemma_scope_totals_nonneg(sm);
    }
    loop
        invariant
            d == resource@,
            cs == children_at(d, 0, 2),
            sm == resource_logs_model(d).scopes,
            sm == scopes_list(d, 0),
            n0 == d.len(),
            cs.len() <= d.len(),
            ranges_len_sum(cs) <= d.len(),
            scopes_record_total(sm) <= d.len(),
            sm.len() == cs.len(),
            forall|j: int|
                0 <= j < cs.len() ==> {
                    let r = #[trigger] cs[j];
                    0 <= r.0 <= r.1 <= d.len() && sm[j] == scope_logs_model(d.subrange(r.0, r.1))
                },
            scopes.buf() == d,
            0 <= scope_count <= cs.len(),
            scopes.remaining() == cs.skip(scope_count as int),
            record_count == scopes_record_total(sm) - scopes_record_total(
                sm.skip(scope_count as int),
            ),
            attribute_count + ranges_len_sum(cs.skip(scope_count as int)) <= ranges_len_sum(cs),
            0 <= attribute_count,
            0 <= record_count,
            resource_attr_yield(d, 0) == attribute_count + resource_attr_yield(
                d,
                scope_count as int,
            ),
            wf_resource_logs(d) ==> attribute_count == scopes_attr_total(sm) - scopes_attr_total(
                sm.skip(scope_count as int),
            ),
        ensures
            scope_count == cs.len(),
            record_count == scopes_record_total(sm),
            attribute_count == resource_attr_yield(d, 0),
            attribute_count <= d.len(),
            wf_resource_logs(d) ==> attribute_count == scopes_attr_total(sm),
        decreases cs.len() - scope_count,
    {
        let next_scope = scopes.next();
        match next_scope {
            None => {
                proof {
                    assert(cs.skip(scope_count as int).len() == 0);
                    assert(scope_count == cs.len());
                    assert(scopes_record_total(sm.skip(scope_count as int)) == 0);
                    assert(scopes_attr_total(sm.skip(scope_count as int)) == 0);
                    assert(resource_attr_yield(d, scope_count as int) == 0);
                    lemma_ranges_sum_parts(cs, scope_count as int);
                }
                break;
            },
            Some(scope) => {
                proof {
                    assert(cs.skip(scope_count as int)[0] == cs[scope_count as int]);
                    assert(cs.skip(scope_count as int).skip(1) =~= cs.skip(
                        scope_count as int + 1,
                    ));
                    assert(scope@ == d.subrange(
                        cs[scope_count as int].0,
                        cs[scope_count as int].1,
                    ));
                    assert(scope_logs_model(scope@) == sm[scope_count as int]);
                    assert(resource_attr_yield(d, scope_count as int) == scope_attr_yield(
                        scope@,
                        0,
                    ) + resource_attr_yield(d, scope_count as int + 1));
                    assert(sm.skip(scope_count as int)[0] == sm[scope_count as int]);
                    assert(sm.skip(scope_count as int).skip(1) =~= sm.skip(
                        scope_count as int + 1,
                    ));
                    lemma_ranges_sum_parts(cs, scope_count as int + 1);
                    lemma_scope_totals_nonneg(sm.skip(scope_count as int + 1));
                    lemma_record_totals_nonneg(sm[scope_count as int].records);
                    lemma_scope_bounds(scope@);
                    if wf_resource_logs(d) {
                        lemma_children_at_is_ranges(d, 0, 2);
                        assert(found_fields(d, 2) == crate::wire::fields_at(d, 0).filter(
                            tag_pred(2),
                        ));
                        assert(msg_ranges(d, 2) == cs);
                        assert(msgs(d, 2)[scope_count as int] == scope@);
                        assert(wf_scope_logs(scope@));
                    }
                }
                let (c, a) = count_scope_lazy(&scope);
                record_count = record_count + c;
                attribute_count = attribute_count + a;
                scope_count = scope_count + 1;
            },
        }
    }
    (scope_count, record_count, attribute_count)
}

/// Counts a whole payload through the lazy views, scanning the buffer on
/// demand and allocating nothing.  Resource, scope and record counts are
/// always exact; the attribute count is exact on well-formed payloads.
#[verifier::rlimit(80)]
pub fn count_logs_lazy(data: &[u8]) -> (r: (usize, usize, usize, usize))
    ensures
        r.0 == logs_model(data@).len(),
        r.1 == logs_scope_total(logs_model(data@)),
        r.2 == logs_record_total(logs_model(data@)),
        r.3 == payload_attr_yield(data@, 0),
        r.3 <= data@.len(),
        wf_payload(data@) ==> r.3 == logs_attr_total(logs_model(data@)),
{
    let ghost d = data@;
    let ghost cs = children_at(d, 0, 1);
    let ghost lm = logs_model(d);
    let logs = LogsDataParser::new(data);
    let mut resource_count: usize = 0;
    let mut scope_count: usize = 0;
    let mut record_count: usize = 0;
    let mut attribute_count: usize = 0;
    let mut resources = logs.resource_logs();
    let n0 = data.len();
    proof {
        lemma_counts_bounded(d);
        lemma_children_at_is_ranges(d, 0, 1);
        assert(found_fields(d, 1) == crate::wire::fields_at(d, 0).filter(tag_pred(1)));
        assert(msg_ranges(d, 1) == cs);
        lemma_msg_ranges_bounds(d, 1);
        lemma_children_at_sum(d, 0, 1);
        assert(cs.skip(0) =~= cs);
        assert(lm.skip(0) =~= lm);
        lemma_ranges_sum_parts(cs, 0);
        lemma_totals_nonneg(lm);
    }
    loop
        invariant
            d == data@,
            cs == children_at(d, 0, 1),
            cs == msg_ranges(d, 1),
            lm == logs_model(d),
            n0 == d.len(),
            cs.len() <= d.len(),
            ranges_len_sum(cs) <= d.len(),
            logs_scope_total(lm) <= d.len(),
            logs_record_total(lm) <= d.len(),
            lm.len() == cs.len(),
            forall|j: int|
                0 <= j < cs.len() ==> {
                    let r = #[trigger] cs[j];
                    0 <= r.0 <= r.1 <= d.len() && lm[j] == resource_logs_model(
                        d.subrange(r.0, r.1),
                    )
                },
            resources.buf() == d,
            0 <= resource_count <= cs.len(),
            resources.remaining() == cs.skip(resource_count as int),
            scope_count == logs_scope_total(lm) - logs_scope_total(lm.skip(resource_count as int)),
            record_count == logs_record_total(lm) - logs_record_total(
                lm.skip(resource_count as int),
            ),
            attribute_count + ranges_len_sum(cs.skip(resource_count as int)) <= ranges_len_sum(cs),
            0 <= attribute_count,
            0 <= scope_count,
            0 <= record_count,
            payload_attr_yield(d, 0) == attribute_count + payload_attr_yield(
                d,
                resource_count as int,
            ),
            wf_payload(d) ==> attribute_count == logs_attr_total(lm) - logs_attr_total(
                lm.skip(resource_count as int),
            ),
        ensures
            resource_count == cs.len(),
            scope_count == logs_scope_total(lm),
            record_count == logs_record_total(lm),
            attribute_count == payload_attr_yield(d, 0),
            attribute_count <= d.len(),
            wf_payload(d) ==> attribute_count == logs_attr_total(lm),
        decreases cs.len() - resource_count,
    {
        let next_resource = resources.next();
        match next_resource {
            None => {
                proof {
                    assert(cs.skip(resource_count as int).len() == 0);
                    assert(resource_count == cs.len());
                    assert(logs_scope_total(lm.skip(resource_count as int)) == 0);
                    assert(logs_record_total(lm.skip(resource_count as int)) == 0);
                    assert(logs_attr_total(lm.skip(resource_count as int)) == 0);
                    assert(payload_attr_yield(d, resource_count as int) == 0);
                    lemma_ranges_sum_parts(cs, resource_count as int);
                }
                break;
            },
            Some(resource) => {
                proof {
                    assert(cs.skip(resource_count as int)[0] == cs[resource_count as int]);
                    assert(cs.skip(resource_count as int).skip(1) =~= cs.skip(
                        resource_count as int + 1,
                    ));
                    assert(resource@ == d.subrange(
                        cs[resource_count as int].0,
                        cs[resource_count as int].1,
                    ));
                    assert(resource_logs_model(resource@) == lm[resource_count as int]);
                    assert(payload_attr_yield(d, resource_count as int) == resource_attr_yield(
                        resource@,
                        0,
                    ) + payload_attr_yield(d, resource_count as int + 1));
                    assert(lm.skip(resource_count as int)[0] == lm[resource_count as int]);
                    assert(lm.skip(resource_count as int).skip(1) =~= lm.skip(
                        resource_count as int + 1,
                    ));
                    lemma_ranges_sum_parts(cs, resource_count as int + 1);
                    lemma_totals_nonneg(lm.skip(resource_count as int + 1));
                    lemma_scope_totals_nonneg(lm[resource_count as int].scopes);
                    lemma_resource_bounds(resource@);
                    if wf_payload(d) {
                        assert(msgs(d, 1)[resource_count as int] == resource@);
                        assert(wf_resource_logs(resource@));
                    }
                }
                let (s, c, a) = count_resource_lazy(&resource);
                scope_count = scope_count + s;
                record_count = record_count + c;
                attribute_count = attribute_count + a;
                resource_count = resource_count + 1;
            },
        }
    }
    (resource_count, scope_count, record_count, attribute_count)
}

/// A run of spans has a nonnegative combined length.
proof fn lemma_ranges_sum_nonneg(cs: Seq<(int, int)>)
    requires
        forall|j: int| 0 <= j < cs.len() ==> #[trigger] cs[j].0 <= cs[j].1,
    ensures
        0 <= ranges_len_sum(cs),
    decreases cs.len(),
{
    if cs.len() > 0 {
        assert(forall|j: int|
            0 <= j < cs.skip(1).len() ==> #[trigger] cs.skip(1)[j] == cs[j + 1]);
        lemma_ranges_sum_nonneg(cs.skip(1));
    }
}

/// Splitting a range run at `k`: the combined length of the suffix is
/// nonnegative and bounded by the whole, provided every range is a span.
proof fn lemma_ranges_sum_parts(cs: Seq<(int, int)>, k: int)
    requires
        0 <= k <= cs.len(),
        forall|j: int| 0 <= j < cs.len() ==> #[trigger] cs[j].0 <= cs[j].1,
    ensures
        0 <= ranges_len_sum(cs.skip(k)),
        ranges_len_sum(cs.skip(k)) <= ranges_len_sum(cs),
    decreases k,
{
    assert(forall|j: int|
        0 <= j < cs.skip(k).len() ==> #[trigger] cs.skip(k)[j] == cs[j + k]);
    lemma_ranges_sum_nonneg(cs.skip(k));
    if k == 0 {
        assert(cs.skip(0) =~= cs);
    } else {
        lemma_ranges_sum_parts(cs, k - 1);
        let tail = cs.skip(k - 1);
        assert(tail.len() > 0);
        assert(tail[0] == cs[k - 1]);
        assert(tail.skip(1) =~= cs.skip(k));
        assert(ranges_len_sum(tail) == (tail[0].1 - tail[0].0) + ranges_len_sum(cs.skip(k)));
    }
}

/// Counts the baseline tree's content by walking its collections,
/// reporting `None` only when a total does not fit in a machine word.
pub fn count_logs_owned(logs: &owned::LogsData) -> (r: Option<(usize, usize, usize, usize)>)
    ensures
        counts_fit(logs@) ==> r == Some(
            (
                logs@.len() as usize,
                logs_scope_total(logs@) as usize,
                logs_record_total(logs@) as usize,
                logs_attr_total(logs@) as usize,
            ),
        ),
{
    let ghost ls = logs@;
    let mut scope_count: usize = 0;
    let mut record_count: usize = 0;
    let mut attribute_count: usize = 0;
    let resources = logs.resources();
    let n = resources.len();
    let mut i: usize = 0;
    proof {
        assert(ls.skip(0) =~= ls);
        lemma_totals_nonneg(ls);
    }
    while i < n
        invariant
            ls == logs@,
            n == resources@.len(),
            n == ls.len(),
            forall|j: int|
                0 <= j < n ==> owned::resource_logs_view(#[trigger] resources@[j]) == ls[j],
            i <= n,
            counts_fit(ls) ==> {
                &&& scope_count == logs_scope_total(ls) - logs_scope_total(ls.skip(i as int))
                &&& record_count == logs_record_total(ls) - logs_record_total(ls.skip(i as int))
                &&& attribute_count == logs_attr_total(ls) - logs_attr_total(ls.skip(i as int))
            },
        decreases n - i,
    {
        let resource = &resources[i];
        let ghost rm = ls[i as int];
        proof {
            assert(owned::resource_logs_view(*resource) == ls[i as int]);
            assert(ls.skip(i as int)[0] == ls[i as int]);
            assert(ls.skip(i as int).skip(1) =~= ls.skip(i as int + 1));
            lemma_totals_nonneg(ls.skip(i as int + 1));
            lemma_scope_totals_nonneg(rm.scopes);
            assert(logs_scope_total(ls.skip(i as int)) == rm.scopes.len() + logs_scope_total(
                ls.skip(i as int + 1),
            ));
            assert(logs_record_total(ls.skip(i as int)) == scopes_record_total(rm.scopes)
                + logs_record_total(ls.skip(i as int + 1)));
            assert(logs_attr_total(ls.skip(i as int)) == scopes_attr_total(rm.scopes)
                + logs_attr_total(ls.skip(i as int + 1)));
        }
        match count_resource_owned(resource) {
            Some((s, c, a)) => {
                if counts_would_overflow(scope_count, s) || counts_would_overflow(record_count, c)
                    || counts_would_overflow(attribute_count, a) {
                    proof {
                        if counts_fit(ls) {
                            assert(false);
                        }
                    }
                    return None;
                }
                scope_count = scope_count + s;
                record_count = record_count + c;
                attribute_count = attribute_count + a;
            },
            None => {
                proof {
                    if counts_fit(ls) {
                        assert(scopes_record_total(rm.scopes) <= usize::MAX);
                        assert(scopes_attr_total(rm.scopes) <= usize::MAX);
                        assert(false);
                    }
                }
                return None;
            },
        }
        i = i + 1;
    }
    proof {
        if counts_fit(ls) {
            assert(ls.skip(n as int).len() == 0);
            assert(logs_scope_total(ls.skip(n as int)) == 0);
            assert(logs_record_total(ls.skip(n as int)) == 0);
            assert(logs_attr_total(ls.skip(n as int)) == 0);
        }
    }
    Some((n, scope_count, record_count, attribute_count))
}

/// Counts one baseline resource group's scope groups, records and
/// attributes.
fn count_resource_owned(resource: &owned::ResourceLogs) -> (r: Option<(usize, usize, usize)>)
    ensures
        ({
            let rm = owned::resource_logs_view(*resource);
            (scopes_record_total(rm.scopes) <= usize::MAX && scopes_attr_total(rm.scopes)
                <= usize::MAX) ==> r == Some(
                (
                    rm.scopes.len() as usize,
                    scopes_record_total(rm.scopes) as usize,
                    scopes_attr_total(rm.scopes) as usize,
                ),
            )
        }),
{
    let ghost ss = owned::resource_logs_view(*resource).scopes;
    let mut record_count: usize = 0;
    let mut attribute_count: usize = 0;
    let scopes = resource.scopes();
    let n = scopes.len();
    let mut i: usize = 0;
    proof {
        assert(ss.skip(0) =~= ss);
        lemma_scope_totals_nonneg(ss);
    }
    while i < n
        invariant
            ss == owned::resource_logs_view(*resource).scopes,
            n == scopes@.len(),
            n == ss.len(),
            forall|j: int| 0 <= j < n ==> owned::scope_logs_view(#[trigger] scopes@[j]) == ss[j],
            i <= n,
            (scopes_record_total(ss) <= usize::MAX && scopes_attr_total(ss) <= usize::MAX) ==> {
                &&& record_count == scopes_record_total(ss) - scopes_record_total(
                    ss.skip(i as int),
                )
                &&& attribute_count == scopes_attr_total(ss) - scopes_attr_total(ss.skip(i as int))
            },
        decreases n - i,
    {
        let scope = &scopes[i];
        let ghost sm = ss[i as int];
        proof {
            assert(owned::scope_logs_view(*scope) == ss[i as int]);
            assert(ss.skip(i as int)[0] == ss[i as int]);
            assert(ss.skip(i as int).skip(1) =~= ss.skip(i as int + 1));
            lemma_scope_totals_nonneg(ss.skip(i as int + 1));
            lemma_record_totals_nonneg(sm.records);
            assert(scopes_record_total(ss.skip(i as int)) == sm.records.len()
                + scopes_record_total(ss.skip(i as int + 1)));
            assert(scopes_attr_total(ss.skip(i as int)) == record_attr_total(sm.records)
                + scopes_attr_total(ss.skip(i as int + 1)));
        }
        match count_scope_owned(scope) {
            Some((c, a)) => {
                if counts_would_overflow(record_count, c) || counts_would_overflow(
                    attribute_count,
                    a,
                ) {
                    proof {
                        if scopes_record_total(ss) <= usize::MAX && scopes_attr_total(ss)
                            <= usize::MAX {
                            assert(false);
                        }
                    }
                    return None;
                }
                record_count = record_count + c;
                attribute_count = attribute_count + a;
            },
            None => {
                proof {
                    if scopes_record_total(ss) <= usize::MAX && scopes_attr_total(ss)
                        <= usize::MAX {
                        assert(record_attr_total(sm.records) <= usize::MAX);
                        assert(false);
                    }
                }
                return None;
            },
        }
        i = i + 1;
    }
    proof {
        assert(ss.skip(n as int).len() == 0);
        assert(scopes_record_total(ss.skip(n as int)) == 0);
        assert(scopes_attr_total(ss.skip(n as int)) == 0);
    }
    Some((n, record_count, attribute_count))
}

/// Counts one baseline scope group's records and attributes.
fn count_scope_owned(scope: &owned::ScopeLogs) -> (r: Option<(usize, usize)>)
    ensures
        ({
            let sm = owned::scope_logs_view(*scope);
            record_attr_total(sm.records) <= usize::MAX ==> r == Some(
                (sm.records.len() as usize, record_attr_total(sm.records) as usize),
            )
        }),
{
    let ghost rs = owned::scope_logs_view(*scope).records;
    let mut attribute_count: usize = 0;
    let records = scope.log_records();
    let n = records.len();
    let mut i: usize = 0;
    proof {
        assert(rs.skip(0) =~= rs);
        lemma_record_totals_nonneg(rs);
    }
    while i < n
        invariant
            rs == owned::scope_logs_view(*scope).records,
            n == records@.len(),
            n == rs.len(),
            forall|j: int| 0 <= j < n ==> owned::record_view(#[trigger] records@[j]) == rs[j],
            i <= n,
            record_attr_total(rs) <= usize::MAX ==> attribute_count == record_attr_total(rs)
                - record_attr_total(rs.skip(i as int)),
        decreases n - i,
    {
        let record = &records[i];
        proof {
            assert(owned::record_view(*record) == rs[i as int]);
            assert(rs.skip(i as int)[0] == rs[i as int]);
            assert(rs.skip(i as int).skip(1) =~= rs.skip(i as int + 1));
            lemma_record_totals_nonneg(rs.skip(i as int + 1));
            assert(record_attr_total(rs.skip(i as int)) == rs[i as int].attrs.len()
                + record_attr_total(rs.skip(i as int + 1)));
        }
        let attrs = record.attributes();
        let a = attrs.len();
        proof {
            assert(a == rs[i as int].attrs.len());
        }
        if counts_would_overflow(attribute_count, a) {
            proof {
                if record_attr_total(rs) <= usize::MAX {
                    assert(false);
                }
            }
            return None;
        }
        attribute_count = attribute_count + a;
        i = i + 1;
    }
    proof {
        assert(rs.skip(n as int).len() == 0);
        assert(record_attr_total(rs.skip(n as int)) == 0);
    }
    Some((n, attribute_count))
}

/// Counts one eager record's attributes by walking its iterator.
fn count_record_attrs_eager(record: &otlp_bytes::LogRecord) -> (r: usize)
    ensures
        r == otlp_bytes::record_view(*record).attrs.len(),
{
    let mut count: usize = 0;
    let mut attrs = record.attributes();
    let n0 = attrs.remaining_len();
    let ghost total = attrs.remaining_elems().len();
    loop
        invariant
            count + attrs.remaining_elems().len() == total,
            total == otlp_bytes::record_view(*record).attrs.len(),
            total == n0,
        ensures
            count == total,
        decreases attrs.remaining_elems().len(),
    {
        let next_attr = attrs.next();
        match next_attr {
            None => {
                break;
            },
            Some(_) => {
                proof {
                    assert(count < total);
                }
                count = count + 1;
            },
        }
    }
    count
}

} // verus!
