//! Byte-level wire-format primitives: base-128 varints, length-delimited
//! spans, fixed-width little-endian reads, and field skipping, together with
//! the specification-level reading functions that all contracts in this crate
//! are stated over.

use vstd::prelude::*;

verus! {

/// Wire type for varint-encoded fields.
pub const WIRE_VARINT: u8 = 0;

/// Wire type for 8-byte little-endian fields.
pub const WIRE_FIXED64: u8 = 1;

/// Wire type for length-delimited fields (strings, bytes, submessages).
pub const WIRE_LEN: u8 = 2;

/// Wire type for 4-byte little-endian fields.
pub const WIRE_FIXED32: u8 = 5;

/// Result of reading a base-128 varint starting at `pos`: the decoded value
/// and the position one past its last byte, or `None` when the input is
/// exhausted or the encoding exceeds 64 significant bits — a payload bit
/// that would land past bit 63 makes the read fail rather than be
/// discarded.
///
/// `shift` and `acc` thread the accumulated low bits through the recursion;
/// a read starts with `varint(data, pos)` below.
pub open spec fn varint_at(data: Seq<u8>, pos: int, shift: int, acc: u64) -> Option<(u64, int)>
    decreases data.len() - pos,
{
    if pos < 0 || pos >= data.len() || shift >= 64 {
        None
    } else {
        let b = data[pos];
        if shift > 57 && (((b & 0x7f) as u64) >> ((64 - shift) as u64)) != 0 {
            None
        } else {
            let acc2 = acc | (((b & 0x7f) as u64) << (shift as u64));
            if b & 0x80 == 0 {
                Some((acc2, pos + 1))
            } else {
                varint_at(data, pos + 1, shift + 7, acc2)
            }
        }
    }
}

/// Reading a varint at `pos` with an empty accumulator.
pub open spec fn varint(data: Seq<u8>, pos: int) -> Option<(u64, int)> {
    varint_at(data, pos, 0, 0)
}

/// A successful varint read consumes at least one byte and stays in bounds.
pub proof fn lemma_varint_progress(data: Seq<u8>, pos: int, shift: int, acc: u64)
    ensures
        varint_at(data, pos, shift, acc) matches Some(r) ==> pos < r.1 <= data.len(),
    decreases data.len() - pos,
{
    if 0 <= pos < data.len() && shift < 64 {
        let b = data[pos];
        if b & 0x80 != 0 {
            let acc2 = acc | (((b & 0x7f) as u64) << (shift as u64));
            lemma_varint_progress(data, pos + 1, shift + 7, acc2);
        }
    }
}

/// Result of reading a length-delimited span at `pos`: the half-open range
/// `(start, end)` of the content bytes, or `None` when the length prefix is
/// unreadable or the declared length runs past the end of the buffer.
pub open spec fn len_delim(data: Seq<u8>, pos: int) -> Option<(int, int)> {
    match varint(data, pos) {
        Some((l, p2)) => if p2 + l <= data.len() {
            Some((p2, p2 + l))
        } else {
            None
        },
        None => None,
    }
}

/// A successful length-delimited read yields a content range past `pos` and
/// inside the buffer.
pub proof fn lemma_len_delim_bounds(data: Seq<u8>, pos: int)
    ensures
        len_delim(data, pos) matches Some(r) ==> pos < r.0 <= r.1 <= data.len(),
{
    lemma_varint_progress(data, pos, 0, 0);
}

/// The 4-byte little-endian value starting at `pos`.
pub open spec fn le32_at(data: Seq<u8>, pos: int) -> u32 {
    (data[pos] as u32) | ((data[pos + 1] as u32) << 8) | ((data[pos + 2] as u32) << 16) | ((data[
        pos + 3] as u32) << 24)
}

/// The 8-byte little-endian value starting at `pos`.
pub open spec fn le64_at(data: Seq<u8>, pos: int) -> u64 {
    (data[pos] as u64) | ((data[pos + 1] as u64) << 8) | ((data[pos + 2] as u64) << 16) | ((data[
        pos + 3] as u64) << 24) | ((data[pos + 4] as u64) << 32) | ((data[pos + 5] as u64) << 40)
        | ((data[pos + 6] as u64) << 48) | ((data[pos + 7] as u64) << 56)
}

/// Result of reading a 4-byte little-endian field at `pos`.
pub open spec fn fixed32(data: Seq<u8>, pos: int) -> Option<(u32, int)> {
    if 0 <= pos && pos + 4 <= data.len() {
        Some((le32_at(data, pos), pos + 4))
    } else {
        None
    }
}

/// Result of reading an 8-byte little-endian field at `pos`.
pub open spec fn fixed64(data: Seq<u8>, pos: int) -> Option<(u64, int)> {
    if 0 <= pos && pos + 8 <= data.len() {
        Some((le64_at(data, pos), pos + 8))
    } else {
        None
    }
}

/// Position one past a field's value when the value at `pos` with the given
/// wire type is skipped, or `None` when the value cannot be skipped (input
/// exhausted, or an unsupported wire type such as the legacy group markers).
pub open spec fn skip_at(data: Seq<u8>, wire: u8, pos: int) -> Option<int> {
    if wire == WIRE_VARINT {
        match varint(data, pos) {
            Some((_, p2)) => Some(p2),
            None => None,
        }
    } else if wire == WIRE_FIXED64 {
        if 0 <= pos && pos + 8 <= data.len() {
            Some(pos + 8)
        } else {
            None
        }
    } else if wire == WIRE_LEN {
        match len_delim(data, pos) {
            Some((_, end)) => Some(end),
            None => None,
        }
    } else if wire == WIRE_FIXED32 {
        if 0 <= pos && pos + 4 <= data.len() {
            Some(pos + 4)
        } else {
            None
        }
    } else {
        None
    }
}

/// A successful skip moves forward (when `pos` was in bounds) and stays in
/// bounds.
pub proof fn lemma_skip_bounds(data: Seq<u8>, wire: u8, pos: int)
    requires
        0 <= pos,
    ensures
        skip_at(data, wire, pos) matches Some(p) ==> pos < p <= data.len(),
{
    lemma_varint_progress(data, pos, 0, 0);
    lemma_len_delim_bounds(data, pos);
}

/// One field occurrence found while scanning a message: its tag number, wire
/// type, and the position of its value (one past the key varint).
pub ghost struct FieldAt {
    pub tag: u32,
    pub wire: u8,
    pub pos: int,
}

/// Every field occurrence of the message `data`, scanning from `pos`: the
/// scan reads a key varint, records the field, and skips its value; it stops
/// at the end of the buffer, on an unreadable key, or after a field whose
/// value cannot be skipped (that last field is still recorded, as the key was
/// read before the failure).
pub open spec fn fields_at(data: Seq<u8>, pos: int) -> Seq<FieldAt>
    decreases data.len() - pos,
{
    if pos < 0 || pos >= data.len() {
        Seq::empty()
    } else {
        match varint(data, pos) {
            None => Seq::empty(),
            Some((tw, p2)) => {
                let f = FieldAt {
                    tag: #[verifier::truncate] ((tw >> 3) as u32),
                    wire: #[verifier::truncate] ((tw & 7) as u8),
                    pos: p2,
                };
                match skip_at(data, f.wire, p2) {
                    None => seq![f],
                    Some(p3) => if pos < p3 <= data.len() {
                        seq![f] + fields_at(data, p3)
                    } else {
                        seq![f]
                    },
                }
            },
        }
    }
}

/// Every field occurrence of the whole message `data`, in wire order.
pub open spec fn fields_of(data: Seq<u8>) -> Seq<FieldAt> {
    fields_at(data, 0)
}

/// The occurrences of the field numbered `tag`, in wire order.
pub open spec fn found_fields(data: Seq<u8>, tag: u32) -> Seq<FieldAt> {
    fields_of(data).filter(tag_pred(tag))
}

/// The first occurrence of the field numbered `tag`, if any.
pub open spec fn first_field(data: Seq<u8>, tag: u32) -> Option<FieldAt> {
    if found_fields(data, tag).len() > 0 {
        Some(found_fields(data, tag)[0])
    } else {
        None
    }
}

/// The last occurrence of the field numbered `tag`, if any.
pub open spec fn last_field(data: Seq<u8>, tag: u32) -> Option<FieldAt> {
    if found_fields(data, tag).len() > 0 {
        Some(found_fields(data, tag)[found_fields(data, tag).len() - 1])
    } else {
        None
    }
}

/// The predicate selecting the occurrences of one field number.
pub open spec fn tag_pred(tag: u32) -> spec_fn(FieldAt) -> bool {
    |f: FieldAt| f.tag == tag
}

/// Filtering a one-element sequence keeps or drops its element.
pub proof fn lemma_filter_single<A>(x: A, pred: spec_fn(A) -> bool)
    ensures
        seq![x].filter(pred) == if pred(x) {
            seq![x]
        } else {
            Seq::<A>::empty()
        },
{
    reveal_with_fuel(Seq::filter, 2);
    assert(seq![x].drop_last() =~= Seq::<A>::empty());
    if pred(x) {
        assert(seq![x].filter(pred) =~= seq![x]);
    } else {
        assert(seq![x].filter(pred) =~= Seq::<A>::empty());
    }
}

/// Unfolding one scan step: with a readable key at `pos` and a skippable
/// value, the fields from `pos` are the first field followed by the fields
/// from the position after its value.
pub proof fn lemma_fields_at_step(data: Seq<u8>, pos: int)
    requires
        0 <= pos < data.len(),
        varint(data, pos) is Some,
    ensures
        ({
            let (tw, p2) = varint(data, pos)->Some_0;
            let f = FieldAt {
                tag: #[verifier::truncate] ((tw >> 3) as u32),
                wire: #[verifier::truncate] ((tw & 7) as u8),
                pos: p2,
            };
            match skip_at(data, f.wire, p2) {
                None => fields_at(data, pos) == seq![f],
                Some(p3) => fields_at(data, pos) == seq![f] + fields_at(data, p3),
            }
        }),
{
    let (tw, p2) = varint(data, pos)->Some_0;
    let f = FieldAt {
        tag: #[verifier::truncate] ((tw >> 3) as u32),
        wire: #[verifier::truncate] ((tw & 7) as u8),
        pos: p2,
    };
    lemma_varint_progress(data, pos, 0, 0);
    if let Some(p3) = skip_at(data, f.wire, p2) {
        lemma_skip_bounds(data, f.wire, p2);
        assert(pos < p3 <= data.len());
    }
}

/// Every recorded field lies properly inside the buffer: its value position
/// is past at least the one key byte, and within bounds.
pub proof fn lemma_fields_at_bounds(data: Seq<u8>, pos: int)
    requires
        0 <= pos,
    ensures
        forall|i: int|
            0 <= i < fields_at(data, pos).len() ==> pos < #[trigger] fields_at(data, pos)[i].pos
                <= data.len(),
    decreases data.len() - pos,
{
    if pos < data.len() {
        if let Some((tw, p2)) = varint(data, pos) {
            lemma_varint_progress(data, pos, 0, 0);
            let w = #[verifier::truncate] ((tw & 7) as u8);
            if let Some(p3) = skip_at(data, w, p2) {
                lemma_skip_bounds(data, w, p2);
                if pos < p3 {
                    lemma_fields_at_bounds(data, p3);
                    let f = FieldAt { tag: (tw >> 3) as u32, wire: w, pos: p2 };
                    let whole = fields_at(data, pos);
                    let rest = fields_at(data, p3);
                    assert(whole == seq![f] + rest);
                    assert forall|i: int| 0 <= i < whole.len() implies pos < #[trigger] whole[i].pos
                        <= data.len() by {
                        if i > 0 {
                            assert(whole[i] == rest[i - 1]);
                        }
                    }
                }
            }
        }
    }
}

/// The content ranges of the given field occurrences that carry a readable
/// length-delimited value, in order.
pub open spec fn ranges_from(data: Seq<u8>, es: Seq<FieldAt>) -> Seq<(int, int)>
    decreases es.len(),
{
    if es.len() == 0 {
        Seq::empty()
    } else {
        let f = es[0];
        let rest = ranges_from(data, es.skip(1));
        if f.wire == WIRE_LEN && len_delim(data, f.pos) is Some {
            seq![len_delim(data, f.pos)->Some_0] + rest
        } else {
            rest
        }
    }
}

/// The content ranges of the submessages carried by the field numbered
/// `tag`, in wire order.
pub open spec fn msg_ranges(data: Seq<u8>, tag: u32) -> Seq<(int, int)> {
    ranges_from(data, found_fields(data, tag))
}

/// The content bytes of the submessages carried by the field numbered `tag`,
/// in wire order.
pub open spec fn msgs(data: Seq<u8>, tag: u32) -> Seq<Seq<u8>> {
    msg_ranges(data, tag).map_values(|r: (int, int)| data.subrange(r.0, r.1))
}

/// When every element of a sequence satisfies a property, so does every
/// element that a filter keeps.
pub proof fn lemma_filter_preserves<A>(s: Seq<A>, pred: spec_fn(A) -> bool, prop: spec_fn(A) -> bool)
    requires
        forall|i: int| 0 <= i < s.len() ==> prop(#[trigger] s[i]),
    ensures
        forall|i: int| 0 <= i < s.filter(pred).len() ==> prop(#[trigger] s.filter(pred)[i]),
    decreases s.len(),
{
    reveal(Seq::filter);
    if s.len() > 0 {
        lemma_filter_preserves(s.drop_last(), pred, prop);
        let out = s.filter(pred);
        let sub = s.drop_last().filter(pred);
        assert forall|i: int| 0 <= i < out.len() implies prop(#[trigger] out[i]) by {
            if pred(s.last()) {
                assert(out == sub.push(s.last()));
                if i < out.len() - 1 {
                    assert(out[i] == sub[i]);
                } else {
                    assert(out[i] == s.last());
                    assert(prop(s[s.len() - 1]));
                }
            } else {
                assert(out == sub);
            }
        }
    }
}

/// `ranges_from` on a single entry.
pub proof fn lemma_ranges_from_single(data: Seq<u8>, f: FieldAt)
    ensures
        ranges_from(data, seq![f]) == if f.wire == WIRE_LEN && len_delim(data, f.pos) is Some {
            seq![len_delim(data, f.pos)->Some_0]
        } else {
            Seq::<(int, int)>::empty()
        },
{
    let one = seq![f];
    assert(one.skip(1) =~= Seq::<FieldAt>::empty());
    assert(ranges_from(data, Seq::<FieldAt>::empty()) =~= Seq::<(int, int)>::empty());
    if f.wire == WIRE_LEN && len_delim(data, f.pos) is Some {
        assert(ranges_from(data, one) =~= seq![len_delim(data, f.pos)->Some_0]);
    } else {
        assert(ranges_from(data, one) =~= Seq::<(int, int)>::empty());
    }
}

/// Filtering the empty sequence yields the empty sequence.
pub proof fn lemma_filter_empty<A>(pred: spec_fn(A) -> bool)
    ensures
        Seq::<A>::empty().filter(pred) == Seq::<A>::empty(),
{
    reveal(Seq::filter);
}

/// Appending one entry extends a filtered view by that entry exactly when
/// the entry matches.
pub proof fn lemma_filter_push(es: Seq<FieldAt>, f: FieldAt, k: u32)
    ensures
        (es + seq![f]).filter(tag_pred(k)) == if f.tag == k {
            es.filter(tag_pred(k)).push(f)
        } else {
            es.filter(tag_pred(k))
        },
{
    Seq::filter_distributes_over_add(es, seq![f], tag_pred(k));
    lemma_filter_single(f, tag_pred(k));
    if f.tag == k {
        assert(es.filter(tag_pred(k)) + seq![f] =~= es.filter(tag_pred(k)).push(f));
    } else {
        assert(es.filter(tag_pred(k)) + Seq::<FieldAt>::empty() =~= es.filter(tag_pred(k)));
    }
}

/// `ranges_from` looks at the entries one by one, so it distributes over
/// concatenation.
pub proof fn lemma_ranges_from_add(data: Seq<u8>, a: Seq<FieldAt>, b: Seq<FieldAt>)
    ensures
        ranges_from(data, a + b) == ranges_from(data, a) + ranges_from(data, b),
    decreases a.len(),
{
    if a.len() == 0 {
        assert(a + b =~= b);
        assert(ranges_from(data, a) + ranges_from(data, b) =~= ranges_from(data, b));
    } else {
        assert((a + b).skip(1) =~= a.skip(1) + b);
        lemma_ranges_from_add(data, a.skip(1), b);
        let f = a[0];
        assert((a + b)[0] == f);
        if f.wire == WIRE_LEN && len_delim(data, f.pos) is Some {
            let r = seq![len_delim(data, f.pos)->Some_0];
            assert(r + (ranges_from(data, a.skip(1)) + ranges_from(data, b)) =~= (r + ranges_from(
                data,
                a.skip(1),
            )) + ranges_from(data, b));
        }
    }
}

/// Every content range of a message lies inside the buffer, past the field
/// key, and is strictly shorter than the message itself.
pub proof fn lemma_msg_ranges_bounds(data: Seq<u8>, tag: u32)
    ensures
        forall|i: int|
            0 <= i < msg_ranges(data, tag).len() ==> {
                let r = #[trigger] msg_ranges(data, tag)[i];
                2 <= r.0 <= r.1 <= data.len() && r.1 - r.0 < data.len()
            },
{
    lemma_fields_at_bounds(data, 0);
    let es = found_fields(data, tag);
    assert(fields_of(data) == fields_at(data, 0));
    lemma_filter_preserves(
        fields_of(data),
        tag_pred(tag),
        |f: FieldAt| 1 <= f.pos <= data.len(),
    );
    assert forall|i: int| 0 <= i < es.len() implies 1 <= #[trigger] es[i].pos <= data.len() by {
        assert((|f: FieldAt| 1 <= f.pos <= data.len())(es[i]));
    }
    lemma_ranges_entry_bounds(data, es);
}

/// Helper for `lemma_msg_ranges_bounds`: bounds for `ranges_from` given
/// bounds on the entry positions.
pub proof fn lemma_ranges_entry_bounds(data: Seq<u8>, es: Seq<FieldAt>)
    requires
        forall|i: int| 0 <= i < es.len() ==> 1 <= #[trigger] es[i].pos <= data.len(),
    ensures
        forall|i: int|
            0 <= i < ranges_from(data, es).len() ==> {
                let r = #[trigger] ranges_from(data, es)[i];
                2 <= r.0 <= r.1 <= data.len() && r.1 - r.0 < data.len()
            },
    decreases es.len(),
{
    if es.len() > 0 {
        let f = es[0];
        assert(forall|i: int| 0 <= i < es.skip(1).len() ==> #[trigger] es.skip(1)[i] == es[i + 1]);
        lemma_ranges_entry_bounds(data, es.skip(1));
        let rest = ranges_from(data, es.skip(1));
        if f.wire == WIRE_LEN && len_delim(data, f.pos) is Some {
            lemma_len_delim_bounds(data, f.pos);
            let whole = ranges_from(data, es);
            let r0 = len_delim(data, f.pos)->Some_0;
            assert(whole == seq![r0] + rest);
            assert forall|i: int| 0 <= i < whole.len() implies {
                let r = #[trigger] whole[i];
                2 <= r.0 <= r.1 <= data.len() && r.1 - r.0 < data.len()
            } by {
                if i > 0 {
                    assert(whole[i] == rest[i - 1]);
                }
            }
        }
    }
}

/// The submessage ranges that a scan for `tag` from `pos` yields: at each
/// readable key, a matching length-delimited field contributes its content
/// range and the scan resumes after it; any other field is skipped; the scan
/// stops at the end of input, at an unreadable key, at a matching field whose
/// span is unreadable, or at an unskippable value.
pub open spec fn children_at(data: Seq<u8>, pos: int, tag: u32) -> Seq<(int, int)>
    decreases data.len() - pos,
{
    if pos < 0 || pos >= data.len() {
        Seq::empty()
    } else {
        match varint(data, pos) {
            None => Seq::empty(),
            Some((tw, p2)) => {
                let t = #[verifier::truncate] ((tw >> 3) as u32);
                let w = #[verifier::truncate] ((tw & 7) as u8);
                if t == tag && w == WIRE_LEN {
                    match len_delim(data, p2) {
                        None => Seq::empty(),
                        Some((s, e)) => if pos < e <= data.len() {
                            seq![(s, e)] + children_at(data, e, tag)
                        } else {
                            seq![(s, e)]
                        },
                    }
                } else {
                    match skip_at(data, w, p2) {
                        None => Seq::empty(),
                        Some(p3) => if pos < p3 <= data.len() {
                            children_at(data, p3, tag)
                        } else {
                            Seq::empty()
                        },
                    }
                }
            },
        }
    }
}

/// A scan for `tag` yields exactly the readable submessage ranges of the
/// matching fields that a full field scan records from the same position.
pub proof fn lemma_children_at_is_ranges(data: Seq<u8>, pos: int, tag: u32)
    requires
        0 <= pos,
    ensures
        children_at(data, pos, tag) == ranges_from(data, fields_at(data, pos).filter(tag_pred(tag))),
    decreases data.len() - pos,
{
    reveal_with_fuel(Seq::filter, 1);
    assert(Seq::<FieldAt>::empty().filter(tag_pred(tag)) =~= Seq::<FieldAt>::empty());
    assert(ranges_from(data, Seq::<FieldAt>::empty()) =~= Seq::<(int, int)>::empty());
    if pos >= data.len() {
        assert(fields_at(data, pos) =~= Seq::<FieldAt>::empty());
    } else {
        match varint(data, pos) {
            None => {
                assert(fields_at(data, pos) =~= Seq::<FieldAt>::empty());
            },
            Some((tw, p2)) => {
                lemma_varint_progress(data, pos, 0, 0);
                let t = #[verifier::truncate] ((tw >> 3) as u32);
                let w = #[verifier::truncate] ((tw & 7) as u8);
                let f = FieldAt { tag: t, wire: w, pos: p2 };
                lemma_fields_at_step(data, pos);
                lemma_filter_single(f, tag_pred(tag));
                lemma_ranges_from_single(data, f);
                match skip_at(data, w, p2) {
                    None => {
                        // The scan from `pos` records only `f`.
                        assert(fields_at(data, pos) == seq![f]);
                        if t == tag && w == WIRE_LEN {
                            // A matching field whose span is unreadable: skip
                            // failing on wire type 2 means the span failed.
                            assert(len_delim(data, p2) is None);
                        }
                    },
                    Some(p3) => {
                        lemma_skip_bounds(data, w, p2);
                        lemma_children_at_is_ranges(data, p3, tag);
                        Seq::filter_distributes_over_add(
                            seq![f],
                            fields_at(data, p3),
                            tag_pred(tag),
                        );
                        assert(fields_at(data, pos).filter(tag_pred(tag)) == seq![f].filter(
                            tag_pred(tag),
                        ) + fields_at(data, p3).filter(tag_pred(tag)));
                        lemma_ranges_from_single(data, f);
                        if t == tag && w == WIRE_LEN {
                            let (s, e) = len_delim(data, p2)->Some_0;
                            assert(p3 == e);
                            lemma_ranges_from_add(
                                data,
                                seq![f],
                                fields_at(data, p3).filter(tag_pred(tag)),
                            );
                            assert(ranges_from(data, seq![f]) == seq![(s, e)]);
                        } else {
                            assert(seq![f].filter(tag_pred(tag)) == if t == tag {
                                seq![f]
                            } else {
                                Seq::<FieldAt>::empty()
                            });
                            if t == tag {
                                lemma_ranges_from_add(
                                    data,
                                    seq![f],
                                    fields_at(data, p3).filter(tag_pred(tag)),
                                );
                                assert(ranges_from(data, seq![f]) == Seq::<(int, int)>::empty());
                                assert(Seq::<(int, int)>::empty() + children_at(data, p3, tag)
                                    =~= children_at(data, p3, tag));
                            } else {
                                assert(Seq::<FieldAt>::empty() + fields_at(data, p3).filter(
                                    tag_pred(tag),
                                ) =~= fields_at(data, p3).filter(tag_pred(tag)));
                            }
                        }
                    },
                }
            },
        }
    }
}

/// Every field occurrence of a message lies past at least the one key byte,
/// within bounds.
pub proof fn lemma_found_fields_bounds(data: Seq<u8>, tag: u32)
    ensures
        forall|i: int|
            0 <= i < found_fields(data, tag).len() ==> 1 <= #[trigger] found_fields(
                data,
                tag,
            )[i].pos <= data.len(),
{
    lemma_fields_at_bounds(data, 0);
    lemma_filter_preserves(fields_of(data), tag_pred(tag), |f: FieldAt| 1 <= f.pos <= data.len());
    assert forall|i: int| 0 <= i < found_fields(data, tag).len() implies 1 <= #[trigger] found_fields(
        data,
        tag,
    )[i].pos <= data.len() by {
        assert((|f: FieldAt| 1 <= f.pos <= data.len())(found_fields(data, tag)[i]));
    }
}

/// A field scan records at most one field per remaining byte: every field
/// key takes at least one byte.
pub proof fn lemma_fields_at_count(data: Seq<u8>, pos: int)
    requires
        0 <= pos <= data.len(),
    ensures
        fields_at(data, pos).len() <= data.len() - pos,
    decreases data.len() - pos,
{
    if pos < data.len() {
        if let Some((tw, p2)) = varint(data, pos) {
            lemma_varint_progress(data, pos, 0, 0);
            let w = #[verifier::truncate] ((tw & 7) as u8);
            if let Some(p3) = skip_at(data, w, p2) {
                lemma_skip_bounds(data, w, p2);
                if pos < p3 <= data.len() {
                    lemma_fields_at_count(data, p3);
                }
            }
        }
    }
}

/// The combined length of a sequence of content ranges.
pub open spec fn ranges_len_sum(cs: Seq<(int, int)>) -> int
    decreases cs.len(),
{
    if cs.len() == 0 {
        0
    } else {
        (cs[0].1 - cs[0].0) + ranges_len_sum(cs.skip(1))
    }
}

/// The submessages a scan yields are disjoint spans of the remaining
/// bytes, so their combined length is bounded by what remains.
pub proof fn lemma_children_at_sum(data: Seq<u8>, pos: int, tag: u32)
    requires
        0 <= pos <= data.len(),
    ensures
        ranges_len_sum(children_at(data, pos, tag)) <= data.len() - pos,
        children_at(data, pos, tag).len() <= data.len() - pos,
        forall|j: int|
            0 <= j < children_at(data, pos, tag).len() ==> {
                let r = #[trigger] children_at(data, pos, tag)[j];
                0 <= r.0 <= r.1 <= data.len()
            },
    decreases data.len() - pos,
{
    let cs = children_at(data, pos, tag);
    if pos < data.len() {
        if let Some((tw, p2)) = varint(data, pos) {
            lemma_varint_progress(data, pos, 0, 0);
            let t = #[verifier::truncate] ((tw >> 3) as u32);
            let w = #[verifier::truncate] ((tw & 7) as u8);
            if t == tag && w == WIRE_LEN {
                if let Some((s, e)) = len_delim(data, p2) {
                    lemma_len_delim_bounds(data, p2);
                    if pos < e <= data.len() {
                        lemma_children_at_sum(data, e, tag);
                        let rest = children_at(data, e, tag);
                        assert(cs == seq![(s, e)] + rest);
                        assert(cs.skip(1) =~= rest);
                        assert forall|j: int| 0 <= j < cs.len() implies {
                            let r = #[trigger] cs[j];
                            0 <= r.0 <= r.1 <= data.len()
                        } by {
                            if j > 0 {
                                assert(cs[j] == rest[j - 1]);
                            }
                        }
                    }
                }
            } else {
                if let Some(p3) = skip_at(data, w, p2) {
                    lemma_skip_bounds(data, w, p2);
                    if pos < p3 <= data.len() {
                        lemma_children_at_sum(data, p3, tag);
                    }
                }
            }
        }
    }
}

/// The base-128 encoding of a value: seven bits per byte, least significant
/// group first, continuation bit 0x80 on every byte but the last.
pub open spec fn varint_bytes(v: u64) -> Seq<u8>
    decreases v via varint_bytes_decreases
{
    if v < 0x80 {
        seq![v as u8]
    } else {
        seq![((v & 0x7f) | 0x80) as u8] + varint_bytes(v >> 7)
    }
}

#[via_fn]
proof fn varint_bytes_decreases(v: u64) {
    assert(v >= 0x80 ==> v >> 7 < v) by (bit_vector);
}

/// Round trip of the varint encoding: reading a varint from an encoded
/// value followed by anything else yields exactly that value and stops
/// right after its encoding.
pub proof fn lemma_varint_round_trip(v: u64, rest: Seq<u8>)
    ensures
        varint(varint_bytes(v) + rest, 0) == Some((v, varint_bytes(v).len() as int)),
{
    assert((varint_bytes(v) + rest).subrange(0, varint_bytes(v).len() as int) =~= varint_bytes(
        v,
    ));
    lemma_varint_encode_at(v, varint_bytes(v) + rest, 0, 0, 0);
    assert(v << 0u64 == v) by (bit_vector);
    assert(0u64 | v == v) by (bit_vector);
}

/// Generalization over the read position and accumulator: reading from the
/// middle of a buffer that carries the encoding of `v` at `pos` adds
/// `v << shift` to the accumulated bits.
proof fn lemma_varint_encode_at(v: u64, data: Seq<u8>, pos: int, shift: u64, acc: u64)
    requires
        0 <= pos,
        shift < 64,
        shift % 7 == 0,
        v < (1u64 << ((64 - shift) as u64)) || shift == 0,
        pos + varint_bytes(v).len() <= data.len(),
        data.subrange(pos, pos + varint_bytes(v).len() as int) == varint_bytes(v),
    ensures
        varint_at(data, pos, shift as int, acc) == Some(
            (acc | (v << shift), pos + varint_bytes(v).len()),
        ),
    decreases varint_bytes(v).len(),
{
    let enc = varint_bytes(v);
    assert(data[pos] == enc[0]);
    if v < 0x80 {
        assert(enc == seq![v as u8]);
        assert(data[pos] == v as u8);
        let b = v as u8;
        assert(b & 0x80 == 0 && ((b & 0x7f) as u64) == v) by (bit_vector)
            requires
                b == v as u8,
                v < 0x80,
        ;
        // The final byte never carries bits past bit 63.
        assert(!(shift > 57 && (((b & 0x7f) as u64) >> ((64 - shift) as u64)) != 0))
            by (bit_vector)
            requires
                b == v as u8,
                v < 0x80,
                shift < 64,
                v < (1u64 << ((64 - shift) as u64)) || shift == 0,
        ;
    } else {
        let b = ((v & 0x7f) | 0x80) as u8;
        assert(enc[0] == b);
        let tail = varint_bytes(v >> 7);
        assert(enc == seq![b] + tail);
        assert(b & 0x80 != 0) by (bit_vector)
            requires
                b == ((v & 0x7f) | 0x80) as u8,
        ;
        // A continued byte never carries bits past bit 63 either.
        assert(!(shift > 57 && (((b & 0x7f) as u64) >> ((64 - shift) as u64)) != 0))
            by (bit_vector)
            requires
                b == ((v & 0x7f) | 0x80) as u8,
                shift < 64,
                v < (1u64 << ((64 - shift) as u64)) || shift == 0,
        ;
        assert(data.subrange(pos + 1, pos + 1 + tail.len() as int) =~= tail) by {
            assert forall|i: int| 0 <= i < tail.len() implies data[pos + 1 + i] == tail[i] by {
                assert(data.subrange(pos, pos + enc.len() as int)[i + 1] == enc[i + 1]);
                assert(enc[i + 1] == tail[i]);
            }
        }
        // The next shift stays below 64: a value needing another byte is at
        // least 2^7, and the encoding length is bounded by the bit width.
        assert(v >> 7 < (1u64 << ((64 - (shift + 7)) as u64)) || (shift + 7 >= 64)) by (bit_vector)
            requires
                v < (1u64 << ((64 - shift) as u64)) || shift == 0,
                shift < 64,
        ;
        if shift + 7 >= 64 {
            // With shift at 63 the value fits in one bit, contradicting
            // v >= 0x80; with shift at 57 the value fits in 7 bits, likewise.
            assert(false) by (bit_vector)
                requires
                    v >= 0x80,
                    shift < 64,
                    shift + 7 >= 64,
                    shift % 7 == 0,
                    v < (1u64 << ((64 - shift) as u64)) || shift == 0,
            ;
        }
        let acc2 = acc | (((b & 0x7f) as u64) << shift);
        lemma_varint_encode_at(v >> 7, data, pos + 1, (shift + 7) as u64, acc2);
        assert(acc2 | ((v >> 7) << ((shift + 7) as u64)) == acc | (v << shift)) by (bit_vector)
            requires
                b == ((v & 0x7f) | 0x80) as u8,
                shift < 57,
                acc2 == acc | (((b & 0x7f) as u64) << shift),
        ;
    }
}

/// The encoding of one length-delimited field: the key varint, the length
/// varint, then the content bytes.
pub open spec fn encoded_field(tag: u32, content: Seq<u8>) -> Seq<u8> {
    varint_bytes(((tag as u64) << 3) | 2) + varint_bytes(content.len() as u64) + content
}

/// Round trip of one length-delimited field: at the start of its encoding,
/// whatever follows, the key reads back as the field's tag with wire type
/// 2, the span reads back as exactly the content bytes, and skipping the
/// field lands where the following bytes begin.
pub proof fn lemma_field_round_trip(tag: u32, content: Seq<u8>, rest: Seq<u8>)
    requires
        content.len() <= u64::MAX,
    ensures
        ({
            let tw = ((tag as u64) << 3) | 2;
            let buf = encoded_field(tag, content) + rest;
            let klen = varint_bytes(tw).len() as int;
            let llen = varint_bytes(content.len() as u64).len() as int;
            let start = klen + llen;
            let end = start + content.len() as int;
            &&& varint(buf, 0) == Some((tw, klen))
            &&& (tw >> 3) as u32 == tag && (tw & 7) as u8 == WIRE_LEN
            &&& len_delim(buf, klen) == Some((start, end))
            &&& buf.subrange(start, end) == content
            &&& skip_at(buf, WIRE_LEN, klen) == Some(end)
            &&& end == encoded_field(tag, content).len()
        }),
{
    let tw = ((tag as u64) << 3) | 2;
    let lv = content.len() as u64;
    let buf = encoded_field(tag, content) + rest;
    let klen = varint_bytes(tw).len() as int;
    let llen = varint_bytes(lv).len() as int;
    let start = klen + llen;
    let end = start + content.len() as int;
    assert(buf =~= varint_bytes(tw) + (varint_bytes(lv) + content + rest));
    lemma_varint_round_trip(tw, varint_bytes(lv) + content + rest);
    assert(varint(varint_bytes(tw) + (varint_bytes(lv) + content + rest), 0) == Some((tw, klen)));
    assert(((tw >> 3) as u32) == tag && ((tw & 7) as u8) == 2) by (bit_vector)
        requires
            tw == ((tag as u64) << 3) | 2,
    ;
    assert(buf.subrange(klen, klen + llen) =~= varint_bytes(lv));
    lemma_varint_encode_at(lv, buf, klen, 0, 0);
    assert(lv << 0u64 == lv) by (bit_vector);
    assert(0u64 | lv == lv) by (bit_vector);
    assert(varint(buf, klen) == Some((lv, start)));
    assert(start + lv <= buf.len());
    assert(len_delim(buf, klen) == Some((start, end)));
    assert(buf.subrange(start, end) =~= content);
}

/// Scanning is local: reading a varint within the suffix of a buffer reads
/// the same bytes as reading it in the suffix alone.
pub proof fn lemma_varint_shift(a: Seq<u8>, b: Seq<u8>, pos: int, shift: int, acc: u64)
    requires
        0 <= pos,
    ensures
        varint_at(a + b, a.len() + pos, shift, acc) == match varint_at(b, pos, shift, acc) {
            Some((v, p)) => Some((v, a.len() + p)),
            None => None::<(u64, int)>,
        },
    decreases b.len() - pos,
{
    if pos < b.len() && shift < 64 {
        assert((a + b)[a.len() + pos] == b[pos]);
        let bb = b[pos];
        let acc2 = acc | (((bb & 0x7f) as u64) << (shift as u64));
        if bb & 0x80 != 0 {
            lemma_varint_shift(a, b, pos + 1, shift + 7, acc2);
        }
    }
}

/// Scanning is local: finding the submessages of `tag` within the suffix
/// of a buffer finds the same submessages, shifted, as scanning the suffix
/// alone.
proof fn lemma_children_shift(a: Seq<u8>, b: Seq<u8>, pos: int, tag: u32)
    requires
        0 <= pos,
    ensures
        children_at(a + b, a.len() + pos, tag).len() == children_at(b, pos, tag).len(),
        forall|j: int|
            0 <= j < children_at(b, pos, tag).len() ==> #[trigger] children_at(
                a + b,
                a.len() + pos,
                tag,
            )[j] == (
                children_at(b, pos, tag)[j].0 + a.len(),
                children_at(b, pos, tag)[j].1 + a.len(),
            ),
    decreases b.len() - pos,
{
    let buf = a + b;
    let al = a.len() as int;
    if pos < b.len() {
        lemma_varint_shift(a, b, pos, 0, 0);
        match varint(b, pos) {
            None => {},
            Some((tw, p2)) => {
                lemma_varint_progress(b, pos, 0, 0);
                let t = #[verifier::truncate] ((tw >> 3) as u32);
                let w = #[verifier::truncate] ((tw & 7) as u8);
                if t == tag && w == WIRE_LEN {
                    lemma_varint_shift(a, b, p2, 0, 0);
                    match len_delim(b, p2) {
                        None => {
                            if varint(b, p2) is Some {
                                // The span runs past the end of the suffix,
                                // so it runs past the end of the whole too.
                                assert(len_delim(buf, al + p2) is None);
                            }
                        },
                        Some((s, e)) => {
                            lemma_len_delim_bounds(b, p2);
                            assert(len_delim(buf, al + p2) == Some((al + s, al + e)));
                            lemma_children_shift(a, b, e, tag);
                            let cb = children_at(b, pos, tag);
                            let cw = children_at(buf, al + pos, tag);
                            assert(cb == seq![(s, e)] + children_at(b, e, tag));
                            assert(cw == seq![(al + s, al + e)] + children_at(buf, al + e, tag));
                            assert forall|j: int| 0 <= j < cb.len() implies #[trigger] cw[j] == (
                                cb[j].0 + al,
                                cb[j].1 + al,
                            ) by {
                                if j > 0 {
                                    assert(cw[j] == children_at(buf, al + e, tag)[j - 1]);
                                    assert(cb[j] == children_at(b, e, tag)[j - 1]);
                                }
                            }
                        },
                    }
                } else {
                    match skip_at(b, w, p2) {
                        None => {
                            if w == WIRE_VARINT {
                                lemma_varint_shift(a, b, p2, 0, 0);
                            } else if w == WIRE_LEN {
                                lemma_varint_shift(a, b, p2, 0, 0);
                                if varint(b, p2) is Some {
                                    assert(len_delim(buf, al + p2) is None);
                                }
                            }
                            assert(skip_at(buf, w, al + p2) is None || !(al + p2 < buf.len()));
                        },
                        Some(p3) => {
                            lemma_skip_bounds(b, w, p2);
                            if w == WIRE_VARINT {
                                lemma_varint_shift(a, b, p2, 0, 0);
                            } else if w == WIRE_LEN {
                                lemma_varint_shift(a, b, p2, 0, 0);
                            }
                            assert(skip_at(buf, w, al + p2) == Some(al + p3));
                            lemma_children_shift(a, b, p3, tag);
                        },
                    }
                }
            },
        }
    } else {
        assert(children_at(b, pos, tag).len() == 0);
        if al + pos < buf.len() {
            assert(pos >= b.len());
            assert(al + pos >= buf.len());
        }
    }
}

/// A message whose first field's key carries `tag` has that field as the
/// first occurrence of `tag`, whatever follows.
proof fn lemma_first_field_is_head(data: Seq<u8>, tag: u32)
    requires
        data.len() > 0,
        varint(data, 0) is Some,
        ({
            let (tw, p2) = varint(data, 0)->Some_0;
            #[verifier::truncate] ((tw >> 3) as u32) == tag
        }),
    ensures
        ({
            let (tw, p2) = varint(data, 0)->Some_0;
            first_field(data, tag) == Some(
                FieldAt {
                    tag: tag,
                    wire: #[verifier::truncate] ((tw & 7) as u8),
                    pos: p2,
                },
            )
        }),
{
    let (tw, p2) = varint(data, 0)->Some_0;
    let f = FieldAt {
        tag: #[verifier::truncate] ((tw >> 3) as u32),
        wire: #[verifier::truncate] ((tw & 7) as u8),
        pos: p2,
    };
    lemma_fields_at_step(data, 0);
    lemma_filter_single(f, tag_pred(tag));
    match skip_at(data, f.wire, p2) {
        None => {
            assert(fields_of(data) == seq![f]);
        },
        Some(p3) => {
            Seq::filter_distributes_over_add(seq![f], fields_at(data, p3), tag_pred(tag));
            assert(found_fields(data, tag) == seq![f] + fields_at(data, p3).filter(
                tag_pred(tag),
            ));
        },
    }
}

/// The encoding of one 8-byte little-endian field.
pub open spec fn encoded_fixed64_field(tag: u32, v: u64) -> Seq<u8> {
    varint_bytes(((tag as u64) << 3) | 1) + seq![
        #[verifier::truncate] (v as u8),
        #[verifier::truncate] ((v >> 8) as u8),
        #[verifier::truncate] ((v >> 16) as u8),
        #[verifier::truncate] ((v >> 24) as u8),
        #[verifier::truncate] ((v >> 32) as u8),
        #[verifier::truncate] ((v >> 40) as u8),
        #[verifier::truncate] ((v >> 48) as u8),
        #[verifier::truncate] ((v >> 56) as u8),
    ]
}

/// Round trip of an 8-byte field: at the start of its encoding, whatever
/// follows, the first occurrence of its tag reads back exactly its value.
pub proof fn lemma_fixed64_field_round_trip(tag: u32, v: u64, rest: Seq<u8>)
    ensures
        ({
            let buf = encoded_fixed64_field(tag, v) + rest;
            &&& first_field(buf, tag) matches Some(f)
            &&& first_field(buf, tag)->Some_0.wire == WIRE_FIXED64
            &&& fixed64(buf, first_field(buf, tag)->Some_0.pos) matches Some(r) && r.0 == v
        }),
{
    let tw = ((tag as u64) << 3) | 1;
    let buf = encoded_fixed64_field(tag, v) + rest;
    let klen = varint_bytes(tw).len() as int;
    assert(buf =~= varint_bytes(tw) + (encoded_fixed64_field(tag, v).subrange(
        klen,
        klen + 8,
    ) + rest));
    lemma_varint_round_trip(
        tw,
        encoded_fixed64_field(tag, v).subrange(klen, klen + 8) + rest,
    );
    assert(((tw >> 3) as u32) == tag && ((tw & 7) as u8) == 1) by (bit_vector)
        requires
            tw == ((tag as u64) << 3) | 1,
    ;
    lemma_first_field_is_head(buf, tag);
    let b0 = buf[klen];
    let b1 = buf[klen + 1];
    let b2 = buf[klen + 2];
    let b3 = buf[klen + 3];
    let b4 = buf[klen + 4];
    let b5 = buf[klen + 5];
    let b6 = buf[klen + 6];
    let b7 = buf[klen + 7];
    assert((b0 as u64) | ((b1 as u64) << 8) | ((b2 as u64) << 16) | ((b3 as u64) << 24) | ((
    b4 as u64) << 32) | ((b5 as u64) << 40) | ((b6 as u64) << 48) | ((b7 as u64) << 56) == v)
        by (bit_vector)
        requires
            b0 == #[verifier::truncate] (v as u8),
            b1 == #[verifier::truncate] ((v >> 8) as u8),
            b2 == #[verifier::truncate] ((v >> 16) as u8),
            b3 == #[verifier::truncate] ((v >> 24) as u8),
            b4 == #[verifier::truncate] ((v >> 32) as u8),
            b5 == #[verifier::truncate] ((v >> 40) as u8),
            b6 == #[verifier::truncate] ((v >> 48) as u8),
            b7 == #[verifier::truncate] ((v >> 56) as u8),
    ;
    assert(le64_at(buf, klen) == v);
}

/// The encoding of one varint field.
pub open spec fn encoded_varint_field(tag: u32, v: u64) -> Seq<u8> {
    varint_bytes((tag as u64) << 3) + varint_bytes(v)
}

/// Round trip of a varint field: at the start of its encoding, whatever
/// follows, the first occurrence of its tag reads back exactly its value.
pub proof fn lemma_varint_field_round_trip(tag: u32, v: u64, rest: Seq<u8>)
    ensures
        ({
            let buf = encoded_varint_field(tag, v) + rest;
            &&& first_field(buf, tag) is Some
            &&& first_field(buf, tag)->Some_0.wire == WIRE_VARINT
            &&& varint(buf, first_field(buf, tag)->Some_0.pos) matches Some(r) && r.0 == v
        }),
{
    let tw = (tag as u64) << 3;
    let buf = encoded_varint_field(tag, v) + rest;
    let klen = varint_bytes(tw).len() as int;
    assert(buf =~= varint_bytes(tw) + (varint_bytes(v) + rest));
    lemma_varint_round_trip(tw, varint_bytes(v) + rest);
    assert(((tw >> 3) as u32) == tag && ((tw & 7) as u8) == 0) by (bit_vector)
        requires
            tw == (tag as u64) << 3,
    ;
    lemma_first_field_is_head(buf, tag);
    assert(buf.subrange(klen, klen + varint_bytes(v).len() as int) =~= varint_bytes(v));
    lemma_varint_encode_at(v, buf, klen, 0, 0);
    assert(v << 0u64 == v) by (bit_vector);
    assert(0u64 | v == v) by (bit_vector);
}

/// Round trip of a length-delimited field at the head of a message: the
/// first occurrence of its tag spans exactly its content bytes.
pub proof fn lemma_len_field_round_trip(tag: u32, content: Seq<u8>, rest: Seq<u8>)
    requires
        content.len() <= u64::MAX,
    ensures
        ({
            let buf = encoded_field(tag, content) + rest;
            &&& first_field(buf, tag) is Some
            &&& first_field(buf, tag)->Some_0.wire == WIRE_LEN
            &&& len_delim(buf, first_field(buf, tag)->Some_0.pos) matches Some(r)
                && buf.subrange(r.0, r.1) == content
        }),
{
    lemma_field_round_trip(tag, content, rest);
    let buf = encoded_field(tag, content) + rest;
    lemma_first_field_is_head(buf, tag);
}

/// A run of recorded fields moved by `n` byte positions.
pub open spec fn shift_fields(es: Seq<FieldAt>, n: int) -> Seq<FieldAt> {
    es.map_values(|f: FieldAt| FieldAt { tag: f.tag, wire: f.wire, pos: f.pos + n })
}

/// Filtering by tag commutes with moving the positions.
proof fn lemma_shift_fields_filter(es: Seq<FieldAt>, n: int, tag: u32)
    ensures
        shift_fields(es, n).filter(tag_pred(tag)) == shift_fields(es.filter(tag_pred(tag)), n),
    decreases es.len(),
{
    reveal(Seq::filter);
    if es.len() > 0 {
        lemma_shift_fields_filter(es.drop_last(), n, tag);
        assert(shift_fields(es, n).drop_last() =~= shift_fields(es.drop_last(), n));
        assert(shift_fields(es, n).last() == FieldAt {
            tag: es.last().tag,
            wire: es.last().wire,
            pos: es.last().pos + n,
        });
        if tag_pred(tag)(es.last()) {
            assert(es.filter(tag_pred(tag)) == es.drop_last().filter(tag_pred(tag)).push(
                es.last(),
            ));
            assert(shift_fields(es.drop_last().filter(tag_pred(tag)).push(es.last()), n)
                =~= shift_fields(es.drop_last().filter(tag_pred(tag)), n).push(
                shift_fields(es, n).last(),
            ));
        } else {
            assert(es.filter(tag_pred(tag)) == es.drop_last().filter(tag_pred(tag)));
        }
    } else {
        assert(shift_fields(es, n) =~= Seq::<FieldAt>::empty());
        assert(Seq::<FieldAt>::empty().filter(tag_pred(tag)) =~= Seq::<FieldAt>::empty());
        assert(shift_fields(Seq::<FieldAt>::empty().filter(tag_pred(tag)), n) =~= Seq::<
            FieldAt,
        >::empty());
    }
}

/// Scanning is local: the fields recorded within the suffix of a buffer
/// are the fields of the suffix alone, moved by the prefix's length.
proof fn lemma_fields_shift(a: Seq<u8>, b: Seq<u8>, pos: int)
    requires
        0 <= pos,
    ensures
        fields_at(a + b, a.len() + pos) == shift_fields(fields_at(b, pos), a.len() as int),
    decreases b.len() - pos,
{
    let buf = a + b;
    let al = a.len() as int;
    if pos < b.len() {
        lemma_varint_shift(a, b, pos, 0, 0);
        match varint(b, pos) {
            None => {
                assert(fields_at(b, pos) =~= Seq::<FieldAt>::empty());
                assert(fields_at(buf, al + pos) =~= Seq::<FieldAt>::empty());
                assert(shift_fields(Seq::<FieldAt>::empty(), al) =~= Seq::<FieldAt>::empty());
            },
            Some((tw, p2)) => {
                lemma_varint_progress(b, pos, 0, 0);
                let w = #[verifier::truncate] ((tw & 7) as u8);
                let f = FieldAt {
                    tag: #[verifier::truncate] ((tw >> 3) as u32),
                    wire: w,
                    pos: p2,
                };
                let fs = FieldAt { tag: f.tag, wire: w, pos: al + p2 };
                if w == WIRE_VARINT || w == WIRE_LEN {
                    lemma_varint_shift(a, b, p2, 0, 0);
                }
                match skip_at(b, w, p2) {
                    None => {
                        if w == WIRE_LEN && varint(b, p2) is Some {
                            assert(len_delim(buf, al + p2) is None);
                        }
                        assert(skip_at(buf, w, al + p2) is None);
                        assert(fields_at(b, pos) == seq![f]);
                        assert(fields_at(buf, al + pos) == seq![fs]);
                        assert(shift_fields(seq![f], al) =~= seq![fs]);
                    },
                    Some(p3) => {
                        lemma_skip_bounds(b, w, p2);
                        assert(skip_at(buf, w, al + p2) == Some(al + p3));
                        lemma_fields_shift(a, b, p3);
                        assert(fields_at(b, pos) == seq![f] + fields_at(b, p3));
                        assert(fields_at(buf, al + pos) == seq![fs] + fields_at(buf, al + p3));
                        assert(shift_fields(seq![f] + fields_at(b, p3), al) =~= seq![
                            fs,
                        ] + shift_fields(fields_at(b, p3), al));
                    },
                }
            },
        }
    } else {
        assert(fields_at(b, pos) =~= Seq::<FieldAt>::empty());
        if al + pos < buf.len() {
            assert(al + pos >= buf.len());
        }
        assert(shift_fields(Seq::<FieldAt>::empty(), al) =~= Seq::<FieldAt>::empty());
    }
}

/// A buffer that begins with one whole encoded field scans as that field
/// followed by the fields of what remains, for every tag.
proof fn lemma_fields_after_one(head: Seq<u8>, rest: Seq<u8>, f: FieldAt)
    requires
        head.len() > 0,
        ({
            let buf = head + rest;
            &&& (varint(buf, 0) matches Some((tw, p2)) && p2 == f.pos && (
            #[verifier::truncate] ((tw >> 3) as u32)) == f.tag && (#[verifier::truncate] ((tw
                & 7) as u8)) == f.wire)
            &&& skip_at(buf, f.wire, f.pos) == Some(head.len() as int)
        }),
    ensures
        forall|t: u32|
            #[trigger] found_fields(head + rest, t) == (if f.tag == t {
                seq![f]
            } else {
                Seq::<FieldAt>::empty()
            }) + shift_fields(found_fields(rest, t), head.len() as int),
{
    let buf = head + rest;
    let hl = head.len() as int;
    lemma_fields_at_step(buf, 0);
    lemma_fields_shift(head, rest, 0);
    assert(fields_of(buf) == seq![f] + shift_fields(fields_of(rest), hl));
    assert forall|t: u32|
        #[trigger] found_fields(buf, t) == (if f.tag == t {
            seq![f]
        } else {
            Seq::<FieldAt>::empty()
        }) + shift_fields(found_fields(rest, t), hl) by {
        Seq::filter_distributes_over_add(seq![f], shift_fields(fields_of(rest), hl), tag_pred(t));
        lemma_filter_single(f, tag_pred(t));
        lemma_shift_fields_filter(fields_of(rest), hl, t);
    }
}

/// After one whole encoded 8-byte field, the remaining fields are those of
/// what follows; the first occurrence of any other tag comes from there.
pub proof fn lemma_fixed64_field_then(tag: u32, v: u64, rest: Seq<u8>)
    ensures
        ({
            let head = encoded_fixed64_field(tag, v);
            let buf = head + rest;
            forall|t: u32|
                t != tag ==> #[trigger] first_field(buf, t) == (
                match first_field(rest, t) {
                    Some(g) => Some(FieldAt { tag: g.tag, wire: g.wire, pos: g.pos + head.len() }),
                    None => None,
                })
        }),
{
    let head = encoded_fixed64_field(tag, v);
    let buf = head + rest;
    let hl = head.len() as int;
    let tw = ((tag as u64) << 3) | 1;
    let klen = varint_bytes(tw).len() as int;
    let f = FieldAt { tag: tag, wire: WIRE_FIXED64, pos: klen };
    assert(buf =~= varint_bytes(tw) + (head.subrange(klen, klen + 8) + rest));
    lemma_varint_round_trip(tw, head.subrange(klen, klen + 8) + rest);
    assert(((tw >> 3) as u32) == tag && ((tw & 7) as u8) == WIRE_FIXED64) by (bit_vector)
        requires
            tw == ((tag as u64) << 3) | 1,
    ;
    assert(skip_at(buf, WIRE_FIXED64, klen) == Some(hl));
    lemma_fields_after_one(head, rest, f);
    assert forall|t: u32| t != tag implies #[trigger] first_field(buf, t) == (
    match first_field(rest, t) {
        Some(g) => Some(FieldAt { tag: g.tag, wire: g.wire, pos: g.pos + head.len() }),
        None => None,
    }) by {
        assert(found_fields(buf, t) == Seq::<FieldAt>::empty() + shift_fields(
            found_fields(rest, t),
            hl,
        ));
        assert(Seq::<FieldAt>::empty() + shift_fields(found_fields(rest, t), hl)
            =~= shift_fields(found_fields(rest, t), hl));
        if found_fields(rest, t).len() > 0 {
            assert(shift_fields(found_fields(rest, t), hl)[0] == FieldAt {
                tag: found_fields(rest, t)[0].tag,
                wire: found_fields(rest, t)[0].wire,
                pos: found_fields(rest, t)[0].pos + hl,
            });
        }
    }
}

/// After one whole encoded varint field, the remaining fields are those of
/// what follows; the first occurrence of any other tag comes from there.
pub proof fn lemma_varint_field_then(tag: u32, v: u64, rest: Seq<u8>)
    ensures
        ({
            let head = encoded_varint_field(tag, v);
            let buf = head + rest;
            forall|t: u32|
                t != tag ==> #[trigger] first_field(buf, t) == (
                match first_field(rest, t) {
                    Some(g) => Some(FieldAt { tag: g.tag, wire: g.wire, pos: g.pos + head.len() }),
                    None => None,
                })
        }),
{
    let head = encoded_varint_field(tag, v);
    let buf = head + rest;
    let hl = head.len() as int;
    let tw = (tag as u64) << 3;
    let klen = varint_bytes(tw).len() as int;
    let f = FieldAt { tag: tag, wire: WIRE_VARINT, pos: klen };
    assert(buf =~= varint_bytes(tw) + (varint_bytes(v) + rest));
    lemma_varint_round_trip(tw, varint_bytes(v) + rest);
    assert(((tw >> 3) as u32) == tag && ((tw & 7) as u8) == WIRE_VARINT) by (bit_vector)
        requires
            tw == (tag as u64) << 3,
    ;
    assert(buf.subrange(klen, klen + varint_bytes(v).len() as int) =~= varint_bytes(v));
    lemma_varint_encode_at(v, buf, klen, 0, 0);
    assert(v << 0u64 == v) by (bit_vector);
    assert(0u64 | v == v) by (bit_vector);
    assert(skip_at(buf, WIRE_VARINT, klen) == Some(hl));
    lemma_fields_after_one(head, rest, f);
    assert forall|t: u32| t != tag implies #[trigger] first_field(buf, t) == (
    match first_field(rest, t) {
        Some(g) => Some(FieldAt { tag: g.tag, wire: g.wire, pos: g.pos + head.len() }),
        None => None,
    }) by {
        assert(found_fields(buf, t) == Seq::<FieldAt>::empty() + shift_fields(
            found_fields(rest, t),
            hl,
        ));
        assert(Seq::<FieldAt>::empty() + shift_fields(found_fields(rest, t), hl)
            =~= shift_fields(found_fields(rest, t), hl));
        if found_fields(rest, t).len() > 0 {
            assert(shift_fields(found_fields(rest, t), hl)[0] == FieldAt {
                tag: found_fields(rest, t)[0].tag,
                wire: found_fields(rest, t)[0].wire,
                pos: found_fields(rest, t)[0].pos + hl,
            });
        }
    }
}

/// Reading an 8-byte value within the suffix of a buffer reads the same
/// bytes as reading it in the suffix alone.
pub proof fn lemma_fixed64_shift(a: Seq<u8>, b: Seq<u8>, pos: int)
    requires
        0 <= pos,
    ensures
        fixed64(a + b, a.len() + pos) == (match fixed64(b, pos) {
            Some((v, p)) => Some((v, a.len() + p)),
            None => None::<(u64, int)>,
        }),
{
    let al = a.len() as int;
    if pos + 8 <= b.len() {
        assert forall|i: int| 0 <= i < 8 implies (a + b)[al + pos + i] == #[trigger] b[pos + i]
            by {}
        assert(le64_at(a + b, al + pos) == le64_at(b, pos));
    }
}

/// The concatenated encoding of a run of submessages under one tag.
pub open spec fn encoded_children(tag: u32, ms: Seq<Seq<u8>>) -> Seq<u8>
    decreases ms.len(),
{
    if ms.len() == 0 {
        Seq::empty()
    } else {
        encoded_field(tag, ms[0]) + encoded_children(tag, ms.skip(1))
    }
}

/// Round trip of a run of submessages: scanning the concatenated encoding
/// of `ms` under `tag` yields exactly the messages of `ms`, in order.
pub proof fn lemma_children_round_trip(tag: u32, ms: Seq<Seq<u8>>)
    requires
        forall|i: int| 0 <= i < ms.len() ==> #[trigger] ms[i].len() <= u64::MAX,
    ensures
        ({
            let buf = encoded_children(tag, ms);
            let cs = children_at(buf, 0, tag);
            &&& cs.len() == ms.len()
            &&& forall|i: int|
                0 <= i < ms.len() ==> buf.subrange(
                    #[trigger] cs[i].0,
                    cs[i].1,
                ) == ms[i]
        }),
    decreases ms.len(),
{
    if ms.len() > 0 {
        let head = encoded_field(tag, ms[0]);
        let tail = encoded_children(tag, ms.skip(1));
        let buf = encoded_children(tag, ms);
        assert(buf == head + tail);
        assert(forall|i: int|
            0 <= i < ms.skip(1).len() ==> #[trigger] ms.skip(1)[i] == ms[i + 1]);
        lemma_children_round_trip(tag, ms.skip(1));
        lemma_field_round_trip(tag, ms[0], tail);
        let tw = ((tag as u64) << 3) | 2;
        let klen = varint_bytes(tw).len() as int;
        let llen = varint_bytes(ms[0].len() as u64).len() as int;
        let start = klen + llen;
        let end = start + ms[0].len() as int;
        let cs = children_at(buf, 0, tag);
        assert(cs == seq![(start, end)] + children_at(buf, end, tag));
        lemma_children_shift(head, tail, 0, tag);
        assert(head.len() + 0 == end);
        let ct = children_at(tail, 0, tag);
        assert(children_at(buf, end, tag).len() == ct.len());
        assert(cs.len() == ms.len());
        assert forall|i: int| 0 <= i < ms.len() implies buf.subrange(
            #[trigger] cs[i].0,
            cs[i].1,
        ) == ms[i] by {
            if i == 0 {
                assert(cs[0] == (start, end));
            } else {
                assert(cs[i] == children_at(buf, end, tag)[i - 1]);
                assert(children_at(buf, end, tag)[i - 1] == (
                    ct[i - 1].0 + head.len(),
                    ct[i - 1].1 + head.len(),
                ));
                assert(tail.subrange(ct[i - 1].0, ct[i - 1].1) == ms.skip(1)[i - 1]);
                lemma_children_at_sum(tail, 0, tag);
                assert(0 <= ct[i - 1].0 <= ct[i - 1].1 <= tail.len());
                assert(buf.subrange(ct[i - 1].0 + head.len(), ct[i - 1].1 + head.len())
                    =~= tail.subrange(ct[i - 1].0, ct[i - 1].1));
            }
        }
    }
}

/// A stateless cursor over a borrowed byte buffer, offering the wire-format
/// decode primitives.  Every view handed out aliases the original buffer;
/// nothing is copied.
#[derive(Clone, Copy)]
pub struct ProtobufParser<'a> {
    data: &'a [u8],
}

impl<'a> View for ProtobufParser<'a> {
    type V = Seq<u8>;

    closed spec fn view(&self) -> Seq<u8> {
        self.data@
    }
}

impl<'a> ProtobufParser<'a> {
    pub fn new(data: &'a [u8]) -> (r: Self)
        ensures
            r@ == data@,
    {
        ProtobufParser { data }
    }

    /// The length of the underlying buffer.
    pub fn data_len(&self) -> (n: usize)
        ensures
            n == self@.len(),
    {
        self.data.len()
    }

    /// Reads the base-128 varint starting at `pos`, with an unrolled fast
    /// path for the dominant 1–4 byte encodings before the general loop.
    /// The read fails on exhausted input and on an encoding that exceeds
    /// 64 significant bits.
    pub fn parse_varint(&self, pos: usize) -> (r: Option<(u64, usize)>)
        ensures
            match r {
                Some(v) => varint(self@, pos as int) == Some((v.0, v.1 as int)) && pos < v.1
                    <= self@.len(),
                None => varint(self@, pos as int) is None,
            },
    {
        let ghost d = self@;
        proof {
            lemma_varint_progress(d, pos as int, 0, 0);
        }
        if pos >= self.data.len() {
            return None;
        }
        let mut p = pos;
        let byte = self.data[p];
        p = p + 1;
        let mut result: u64 = 0 | (((byte & 0x7f) as u64) << 0);
        // Fast path for single-byte varints (values 0-127, the common case).
        if byte & 0x80 == 0 {
            return Some((result, p));
        }
        // Unrolled steps for the common 2-4 byte encodings.
        assert(varint(d, pos as int) == varint_at(d, p as int, 7, result));
        if p >= self.data.len() {
            return None;
        }
        let byte = self.data[p];
        p = p + 1;
        result = result | (((byte & 0x7f) as u64) << 7);
        if byte & 0x80 == 0 {
            return Some((result, p));
        }
        assert(varint(d, pos as int) == varint_at(d, p as int, 14, result));
        if p >= self.data.len() {
            return None;
        }
        let byte = self.data[p];
        p = p + 1;
        result = result | (((byte & 0x7f) as u64) << 14);
        if byte & 0x80 == 0 {
            return Some((result, p));
        }
        assert(varint(d, pos as int) == varint_at(d, p as int, 21, result));
        if p >= self.data.len() {
            return None;
        }
        let byte = self.data[p];
        p = p + 1;
        result = result | (((byte & 0x7f) as u64) << 21);
        if byte & 0x80 == 0 {
            return Some((result, p));
        }
        assert(varint(d, pos as int) == varint_at(d, p as int, 28, result));
        // General loop for the rare 5+ byte encodings.
        let mut shift: u64 = 28;
        while p < self.data.len() && shift < 64
            invariant
                self@ == d,
                pos < p <= d.len(),
                varint(d, pos as int) == varint_at(d, p as int, shift as int, result),
            decreases d.len() - p,
        {
            let byte = self.data[p];
            if shift > 57 && ((byte & 0x7f) as u64) >> (64 - shift) != 0 {
                // The payload would run past bit 63: more than 64
                // significant bits, so the read fails.
                return None;
            }
            p = p + 1;
            result = result | (((byte & 0x7f) as u64) << shift);
            if byte & 0x80 == 0 {
                return Some((result, p));
            }
            shift = shift + 7;
        }
        None
    }

    /// Reads the varint length prefix at `pos` and returns the span of that
    /// many content bytes together with the position after them.
    pub fn parse_length_delimited(&self, pos: usize) -> (r: Option<(&'a [u8], usize)>)
        ensures
            match r {
                Some(v) => {
                    &&& len_delim(self@, pos as int) == Some(
                        ((v.1 - v.0@.len()) as int, v.1 as int),
                    )
                    &&& v.0@ == self@.subrange(v.1 - v.0@.len(), v.1 as int)
                    &&& pos < v.1 - v.0@.len() && v.1 <= self@.len()
                },
                None => len_delim(self@, pos as int) is None,
            },
    {
        match self.parse_varint(pos) {
            None => None,
            Some((length, p2)) => {
                if length <= (self.data.len() - p2) as u64 {
                    let end = p2 + (length as usize);
                    Some((vstd::slice::slice_subrange(self.data, p2, end), end))
                } else {
                    None
                }
            },
        }
    }

    /// Reads the 4-byte little-endian value at `pos`.
    pub fn parse_fixed32(&self, pos: usize) -> (r: Option<(u32, usize)>)
        ensures
            match r {
                Some(v) => fixed32(self@, pos as int) == Some((v.0, v.1 as int)),
                None => fixed32(self@, pos as int) is None,
            },
    {
        if pos <= self.data.len() && self.data.len() - pos >= 4 {
            let value = (self.data[pos] as u32) | ((self.data[pos + 1] as u32) << 8) | ((self.data[
                pos + 2] as u32) << 16) | ((self.data[pos + 3] as u32) << 24);
            Some((value, pos + 4))
        } else {
            None
        }
    }

    /// Reads the 8-byte little-endian value at `pos`.
    pub fn parse_fixed64(&self, pos: usize) -> (r: Option<(u64, usize)>)
        ensures
            match r {
                Some(v) => fixed64(self@, pos as int) == Some((v.0, v.1 as int)),
                None => fixed64(self@, pos as int) is None,
            },
    {
        if pos <= self.data.len() && self.data.len() - pos >= 8 {
            let value = (self.data[pos] as u64) | ((self.data[pos + 1] as u64) << 8) | ((self.data[
                pos + 2] as u64) << 16) | ((self.data[pos + 3] as u64) << 24) | ((self.data[pos
                + 4] as u64) << 32) | ((self.data[pos + 5] as u64) << 40) | ((self.data[pos
                + 6] as u64) << 48) | ((self.data[pos + 7] as u64) << 56);
            Some((value, pos + 8))
        } else {
            None
        }
    }

    /// Advances past the value of a field with the given wire type, or
    /// reports that the value cannot be skipped.
    pub fn skip_value(&self, wire_type: u8, pos: usize) -> (r: Option<usize>)
        ensures
            match r {
                Some(p) => skip_at(self@, wire_type, pos as int) == Some(p as int) && pos < p
                    <= self@.len(),
                None => skip_at(self@, wire_type, pos as int) is None,
            },
    {
        proof {
            lemma_skip_bounds(self@, wire_type, pos as int);
        }
        if wire_type == WIRE_VARINT {
            match self.parse_varint(pos) {
                Some((_, p)) => Some(p),
                None => None,
            }
        } else if wire_type == WIRE_FIXED64 {
            if pos <= self.data.len() && self.data.len() - pos >= 8 {
                Some(pos + 8)
            } else {
                None
            }
        } else if wire_type == WIRE_LEN {
            match self.parse_length_delimited(pos) {
                Some((_, p)) => Some(p),
                None => None,
            }
        } else if wire_type == WIRE_FIXED32 {
            if pos <= self.data.len() && self.data.len() - pos >= 4 {
                Some(pos + 4)
            } else {
                None
            }
        } else {
            None
        }
    }

    /// Finds the first occurrence of the field numbered `target_tag` by a
    /// linear scan from the start of the message, returning its wire type
    /// and value position.
    pub fn find_field(&self, target_tag: u32) -> (r: Option<(u8, usize)>)
        ensures
            match r {
                Some(v) => first_field(self@, target_tag) == Some(
                    FieldAt { tag: target_tag, wire: v.0, pos: v.1 as int },
                ) && v.1 <= self@.len(),
                None => first_field(self@, target_tag) is None,
            },
    {
        let ghost d = self@;
        let mut pos: usize = 0;
        while pos < self.data.len()
            invariant
                self@ == d,
                pos <= d.len(),
                found_fields(d, target_tag) == fields_at(d, pos as int).filter(
                    tag_pred(target_tag),
                ),
            decreases d.len() - pos,
        {
            match self.parse_varint(pos) {
                None => {
                    proof {
                        assert(fields_at(d, pos as int) =~= Seq::<FieldAt>::empty());
                        reveal_with_fuel(Seq::filter, 1);
                    }
                    return None;
                },
                Some((tag_and_wire, new_pos)) => {
                    let tag = #[verifier::truncate] ((tag_and_wire >> 3) as u32);
                    let wire_type = #[verifier::truncate] ((tag_and_wire & 0x7) as u8);
                    let ghost f = FieldAt { tag: tag, wire: wire_type, pos: new_pos as int };
                    proof {
                        lemma_fields_at_step(d, pos as int);
                        lemma_filter_single(f, tag_pred(target_tag));
                        if let Some(p3) = skip_at(d, wire_type, new_pos as int) {
                            Seq::filter_distributes_over_add(
                                seq![f],
                                fields_at(d, p3),
                                tag_pred(target_tag),
                            );
                        }
                    }
                    if tag == target_tag {
                        return Some((wire_type, new_pos));
                    }
                    match self.skip_value(wire_type, new_pos) {
                        Some(p3) => {
                            pos = p3;
                        },
                        None => {
                            return None;
                        },
                    }
                },
            }
        }
        proof {
            assert(fields_at(d, pos as int) =~= Seq::<FieldAt>::empty());
            reveal_with_fuel(Seq::filter, 1);
        }
        None
    }

    /// Collects every occurrence of the field numbered `target_tag` in one
    /// linear pass: its wire type and value position, in wire order.
    #[verifier::rlimit(30)]
    pub fn parse_all_fields(&self, target_tag: u32) -> (r: Vec<(u8, usize)>)
        ensures
            r@.len() == found_fields(self@, target_tag).len(),
            forall|i: int|
                0 <= i < r@.len() ==> {
                    let f = #[trigger] found_fields(self@, target_tag)[i];
                    r@[i].0 == f.wire && r@[i].1 == f.pos && f.tag == target_tag
                },
    {
        let ghost d = self@;
        let mut results: Vec<(u8, usize)> = Vec::new();
        let ghost mut done: Seq<FieldAt> = Seq::empty();
        let mut pos: usize = 0;
        while pos < self.data.len()
            invariant
                self@ == d,
                pos <= d.len(),
                found_fields(d, target_tag) =~= done + fields_at(d, pos as int).filter(
                    tag_pred(target_tag),
                ),
                results@.len() == done.len(),
                forall|i: int|
                    0 <= i < done.len() ==> results@[i].0 == #[trigger] done[i].wire
                        && results@[i].1 == done[i].pos && done[i].tag == target_tag,
            decreases d.len() - pos,
        {
            match self.parse_varint(pos) {
                None => {
                    proof {
                        assert(fields_at(d, pos as int) =~= Seq::<FieldAt>::empty());
                        reveal_with_fuel(Seq::filter, 1);
                        assert(done + Seq::<FieldAt>::empty() =~= done);
                    }
                    return results;
                },
                Some((tag_and_wire, new_pos)) => {
                    let tag = #[verifier::truncate] ((tag_and_wire >> 3) as u32);
                    let wire_type = #[verifier::truncate] ((tag_and_wire & 0x7) as u8);
                    let ghost f = FieldAt { tag: tag, wire: wire_type, pos: new_pos as int };
                    proof {
                        lemma_fields_at_step(d, pos as int);
                        lemma_filter_single(f, tag_pred(target_tag));
                        if let Some(p3) = skip_at(d, wire_type, new_pos as int) {
                            Seq::filter_distributes_over_add(
                                seq![f],
                                fields_at(d, p3),
                                tag_pred(target_tag),
                            );
                        }
                    }
                    if tag == target_tag {
                        let ghost before_done = done;
                        let ghost before_results = results@;
                        results.push((wire_type, new_pos));
                        proof {
                            done = done.push(f);
                            assert(results@ == before_results.push((wire_type, new_pos)));
                            assert forall|i: int| 0 <= i < done.len() implies results@[i].0
                                == #[trigger] done[i].wire && results@[i].1 == done[i].pos
                                && done[i].tag == target_tag by {
                                if i < done.len() - 1 {
                                    assert(done[i] == before_done[i]);
                                    assert(results@[i] == before_results[i]);
                                    assert(before_results[i].0 == before_done[i].wire
                                        && before_results[i].1 == before_done[i].pos
                                        && before_done[i].tag == target_tag);
                                } else {
                                    assert(done[i] == f);
                                    assert(results@[i] == (wire_type, new_pos));
                                }
                            }
                        }
                    }
                    match self.skip_value(wire_type, new_pos) {
                        Some(p3) => {
                            proof {
                                if tag == target_tag {
                                    assert(done.drop_last() + (seq![f] + fields_at(
                                        d,
                                        p3 as int,
                                    ).filter(tag_pred(target_tag))) =~= done + fields_at(
                                        d,
                                        p3 as int,
                                    ).filter(tag_pred(target_tag)));
                                }
                            }
                            pos = p3;
                        },
                        None => {
                            proof {
                                if tag == target_tag {
                                    assert(done.drop_last() + seq![f] =~= done);
                                } else {
                                    assert(done + Seq::<FieldAt>::empty() =~= done);
                                }
                                assert(found_fields(d, target_tag) =~= done);
                                assert(results@.len() == done.len());
                                assert forall|i: int| 0 <= i < results@.len() implies {
                                    let f2 = #[trigger] found_fields(d, target_tag)[i];
                                    results@[i].0 == f2.wire && results@[i].1 == f2.pos && f2.tag
                                        == target_tag
                                } by {
                                    assert(found_fields(d, target_tag)[i] == done[i]);
                                    assert(results@[i].0 == done[i].wire && results@[i].1
                                        == done[i].pos && done[i].tag == target_tag);
                                }
                            }
                            return results;
                        },
                    }
                },
            }
        }
        proof {
            assert(fields_at(d, pos as int) =~= Seq::<FieldAt>::empty());
            reveal_with_fuel(Seq::filter, 1);
            assert(done + Seq::<FieldAt>::empty() =~= done);
        }
        results
    }
}

} // verus!
