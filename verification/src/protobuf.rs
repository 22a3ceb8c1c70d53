//! Value model, tag arithmetic, and the decode/encode engines.
//!
//! Decoding needs no schema: every field is classified from its wire type
//! alone, and LEN payloads go through a three-tier heuristic (nested
//! message, UTF-8 text, raw bytes). `Varint` values keep their raw unsigned
//! bit pattern; zig-zag decoding is the caller's business.

use vstd::prelude::*;

verus! {

use crate::buffer::Reader;
use crate::error::DecodeError;
use crate::fixint::{fix32_bytes, fix32_val, fix64_bytes, fix64_val};
use crate::varint::{uvarint_bytes, uvarint_end, uvarint_err, uvarint_ok, uvarint_value};
use vstd::utf8::{decode_utf8, encode_utf8, valid_utf8};

/// The six protobuf wire-type codes. `SGROUP` and `EGROUP` are recognized
/// but always rejected at decode time.
#[derive(Debug, Clone, Copy, PartialEq, Eq, Structural)]
pub enum WireType {
    VARINT,
    I64,
    LEN,
    SGROUP,
    EGROUP,
    I32,
}

impl WireType {
    /// The 3-bit code of this wire type in a field tag.
    pub open spec fn spec_code(self) -> u64 {
        match self {
            WireType::VARINT => 0,
            WireType::I64 => 1,
            WireType::LEN => 2,
            WireType::SGROUP => 3,
            WireType::EGROUP => 4,
            WireType::I32 => 5,
        }
    }

    /// Executable counterpart of [`WireType::spec_code`].
    pub fn code(&self) -> (c: u64)
        ensures
            c == self.spec_code(),
    {
        match self {
            WireType::VARINT => 0,
            WireType::I64 => 1,
            WireType::LEN => 2,
            WireType::SGROUP => 3,
            WireType::EGROUP => 4,
            WireType::I32 => 5,
        }
    }

    /// The wire type a 3-bit code names, if any.
    pub open spec fn spec_from_code(code: u64) -> Result<WireType, DecodeError> {
        if code == 0 {
            Ok(WireType::VARINT)
        } else if code == 1 {
            Ok(WireType::I64)
        } else if code == 2 {
            Ok(WireType::LEN)
        } else if code == 3 {
            Ok(WireType::SGROUP)
        } else if code == 4 {
            Ok(WireType::EGROUP)
        } else if code == 5 {
            Ok(WireType::I32)
        } else {
            Err(DecodeError::UnknownWireType(code))
        }
    }

    /// Classify a tag's wire-type code, rejecting codes outside 0 through 5.
    pub fn try_from(wire_type: u64) -> (r: Result<WireType, DecodeError>)
        ensures
            r == WireType::spec_from_code(wire_type),
    {
        match wire_type {
            0 => Ok(WireType::VARINT),
            1 => Ok(WireType::I64),
            2 => Ok(WireType::LEN),
            3 => Ok(WireType::SGROUP),
            4 => Ok(WireType::EGROUP),
            5 => Ok(WireType::I32),
            _ => Err(DecodeError::UnknownWireType(wire_type)),
        }
    }
}

/// The mathematical shape of a decoded value tree: what [`ProtoData`]
/// looks like once every buffer is a sequence. Contracts speak of this
/// model.
pub enum ProtoVal {
    Varint(u64),
    Fix64(i64),
    Fix32(i32),
    Bytes(Seq<u8>),
    Str(Seq<char>),
    Repeated(Seq<ProtoVal>),
    Message(Seq<(u64, ProtoVal)>),
}

/// A small code telling the seven value shapes apart.
pub open spec fn val_kind(v: ProtoVal) -> int {
    match v {
        ProtoVal::Varint(_) => 0,
        ProtoVal::Fix64(_) => 1,
        ProtoVal::Fix32(_) => 2,
        ProtoVal::Bytes(_) => 3,
        ProtoVal::Str(_) => 4,
        ProtoVal::Repeated(_) => 5,
        ProtoVal::Message(_) => 6,
    }
}

/// The wire-type code a value is written under.
pub open spec fn val_wire_code(v: ProtoVal) -> u64 {
    match v {
        ProtoVal::Varint(_) => 0,
        ProtoVal::Fix64(_) => 1,
        ProtoVal::Fix32(_) => 5,
        _ => 2,
    }
}

/// The generic, inspectable value tree a decode yields and an encode
/// consumes.
#[derive(Debug, PartialEq, Eq, Hash)]
pub enum ProtoData {
    Varint(u64),
    Fix64(i64),
    Fix32(i32),
    Bytes(Vec<u8>),
    String(String),
    Repeated(Vec<ProtoData>),
    Message(FieldMap),
}

/// One field of a message: its number and its value.
#[derive(Debug, PartialEq, Eq, Hash)]
struct FieldEntry {
    key: u64,
    value: ProtoData,
}

/// An ordered mapping from field number to value, iterated in ascending
/// key order regardless of insertion order: a sorted vector of entries.
#[derive(Debug, PartialEq, Eq, Hash)]
pub struct FieldMap {
    entries: Vec<FieldEntry>,
}

impl ProtoData {
    /// The mathematical value this tree stands for.
    pub open spec fn deep(self) -> ProtoVal
        decreases self,
    {
        match self {
            ProtoData::Varint(v) => ProtoVal::Varint(v),
            ProtoData::Fix64(v) => ProtoVal::Fix64(v),
            ProtoData::Fix32(v) => ProtoVal::Fix32(v),
            ProtoData::Bytes(v) => ProtoVal::Bytes(v@),
            ProtoData::String(v) => ProtoVal::Str(v@),
            ProtoData::Repeated(v) => ProtoVal::Repeated(
                Seq::new(
                    v@.len(),
                    |i: int|
                        if 0 <= i < v@.len() {
                            v@[i].deep()
                        } else {
                            ProtoVal::Varint(0)
                        },
                ),
            ),
            ProtoData::Message(m) => ProtoVal::Message(m.deep()),
        }
    }

    /// The wire type this value is written under.
    pub open spec fn spec_wire_type(self) -> WireType {
        match self {
            ProtoData::Varint(_) => WireType::VARINT,
            ProtoData::Fix64(_) => WireType::I64,
            ProtoData::Fix32(_) => WireType::I32,
            _ => WireType::LEN,
        }
    }

    /// Executable counterpart of [`ProtoData::spec_wire_type`].
    pub fn wire_type(&self) -> (w: WireType)
        ensures
            w == self.spec_wire_type(),
    {
        match self {
            ProtoData::Varint(_) => WireType::VARINT,
            ProtoData::Fix64(_) => WireType::I64,
            ProtoData::Fix32(_) => WireType::I32,
            _ => WireType::LEN,
        }
    }

    /// Executable counterpart of [`val_kind`] on the deep view.
    fn kind_code(&self) -> (k: u64)
        ensures
            k as int == val_kind(self.deep()),
    {
        match self {
            ProtoData::Varint(_) => 0,
            ProtoData::Fix64(_) => 1,
            ProtoData::Fix32(_) => 2,
            ProtoData::Bytes(_) => 3,
            ProtoData::String(_) => 4,
            ProtoData::Repeated(_) => 5,
            ProtoData::Message(_) => 6,
        }
    }
}

impl FieldMap {
    /// The entries, in storage order, as mathematical values.
    pub closed spec fn deep(self) -> Seq<(u64, ProtoVal)>
        decreases self,
    {
        Seq::new(
            self.entries@.len(),
            |i: int|
                if 0 <= i < self.entries@.len() {
                    (self.entries@[i].key, self.entries@[i].value.deep())
                } else {
                    (0u64, ProtoVal::Varint(0))
                },
        )
    }

    /// The keys stand in strictly ascending order.
    pub open spec fn wf(self) -> bool {
        map_wf(self.deep())
    }

    /// An empty map.
    pub fn new() -> (r: FieldMap)
        ensures
            r.deep() == Seq::<(u64, ProtoVal)>::empty(),
            r.wf(),
    {
        let r = FieldMap { entries: Vec::new() };
        proof {
            assert(r.deep() =~= Seq::<(u64, ProtoVal)>::empty());
        }
        r
    }

    /// How many fields the map holds.
    pub fn len(&self) -> (n: usize)
        ensures
            n == self.deep().len(),
    {
        self.entries.len()
    }

    /// True exactly when the map holds no field.
    pub fn is_empty(&self) -> (b: bool)
        ensures
            b == (self.deep().len() == 0),
    {
        self.entries.len() == 0
    }

    /// The field number of the entry at position `i` (ascending order).
    pub fn key_at(&self, i: usize) -> (k: u64)
        requires
            i < self.deep().len(),
        ensures
            k == self.deep()[i as int].0,
    {
        self.entries[i].key
    }

    /// The value of the entry at position `i` (ascending key order).
    pub fn value_at(&self, i: usize) -> (v: &ProtoData)
        requires
            i < self.deep().len(),
        ensures
            v.deep() == self.deep()[i as int].1,
    {
        &self.entries[i].value
    }
}

/// The keys of `m` stand in strictly ascending order.
pub open spec fn map_wf(m: Seq<(u64, ProtoVal)>) -> bool {
    forall|i: int, j: int| 0 <= i < j < m.len() ==> m[i].0 < m[j].0
}

/// Some entry of `m` carries the key `k`.
pub open spec fn map_has_key(m: Seq<(u64, ProtoVal)>, k: u64) -> bool {
    exists|i: int| 0 <= i < m.len() && m[i].0 == k
}

/// Plain insertion: replace the value at an existing key, else add the
/// entry at its sorted position.
pub open spec fn map_insert(m: Seq<(u64, ProtoVal)>, k: u64, v: ProtoVal) -> Seq<(u64, ProtoVal)>
    decreases m.len(),
{
    if m.len() == 0 {
        seq![(k, v)]
    } else if k < m[0].0 {
        seq![(k, v)] + m
    } else if k == m[0].0 {
        seq![(k, v)] + m.drop_first()
    } else {
        seq![m[0]] + map_insert(m.drop_first(), k, v)
    }
}

/// How a repeated occurrence of a field joins the value already stored: a
/// repeated list grows in place, anything else becomes a two-element list.
pub open spec fn merge_occurrence(prev: ProtoVal, v: ProtoVal) -> ProtoVal {
    match prev {
        ProtoVal::Repeated(l) => ProtoVal::Repeated(l.push(v)),
        _ => ProtoVal::Repeated(seq![prev, v]),
    }
}

/// Accumulating insertion, as the decoder uses it: a repeated occurrence
/// merges with the stored value instead of replacing it.
pub open spec fn map_accumulate(m: Seq<(u64, ProtoVal)>, k: u64, v: ProtoVal) -> Seq<
    (u64, ProtoVal),
>
    decreases m.len(),
{
    if m.len() == 0 {
        seq![(k, v)]
    } else if k < m[0].0 {
        seq![(k, v)] + m
    } else if k == m[0].0 {
        seq![(k, merge_occurrence(m[0].1, v))] + m.drop_first()
    } else {
        seq![m[0]] + map_accumulate(m.drop_first(), k, v)
    }
}

/// Plain insertion keeps the keys sorted, and touches exactly the key
/// it inserts.
pub proof fn lemma_map_insert_wf(m: Seq<(u64, ProtoVal)>, k: u64, v: ProtoVal)
    requires
        map_wf(m),
    ensures
        map_wf(map_insert(m, k, v)),
        forall|x: u64| #[trigger] map_has_key(map_insert(m, k, v), x) <==> (map_has_key(m, x)
            || x == k),
    decreases m.len(),
{
    let r = map_insert(m, k, v);
    if m.len() == 0 {
        assert forall|x: u64| map_has_key(r, x) implies (map_has_key(m, x) || x == k) by {
            assert(r[0].0 == k);
        }
        assert(map_has_key(r, k)) by {
            assert(r[0].0 == k);
        }
    } else if k < m[0].0 {
        assert forall|i: int, j: int| 0 <= i < j < r.len() implies r[i].0 < r[j].0 by {
            if i > 0 {
                assert(r[i] == m[i - 1] && r[j] == m[j - 1]);
            } else {
                assert(r[j] == m[j - 1]);
                if j > 1 {
                    assert(m[0].0 < m[j - 1].0);
                }
            }
        }
        assert forall|x: u64| map_has_key(r, x) implies (map_has_key(m, x) || x == k) by {
            let i = choose|i: int| 0 <= i < r.len() && r[i].0 == x;
            if i > 0 {
                assert(m[i - 1].0 == x);
            }
        }
        assert forall|x: u64| map_has_key(m, x) || x == k implies map_has_key(r, x) by {
            if x == k {
                assert(r[0].0 == k);
            } else {
                let i = choose|i: int| 0 <= i < m.len() && m[i].0 == x;
                assert(r[i + 1].0 == x);
            }
        }
    } else if k == m[0].0 {
        assert forall|i: int, j: int| 0 <= i < j < r.len() implies r[i].0 < r[j].0 by {
            if i > 0 {
                assert(r[i] == m[i] && r[j] == m[j]);
            } else {
                assert(r[j] == m[j]);
            }
        }
        assert forall|x: u64| map_has_key(r, x) implies (map_has_key(m, x) || x == k) by {
            let i = choose|i: int| 0 <= i < r.len() && r[i].0 == x;
            if i > 0 {
                assert(m[i].0 == x);
            }
        }
        assert forall|x: u64| map_has_key(m, x) || x == k implies map_has_key(r, x) by {
            if x == k {
                assert(r[0].0 == k);
            } else {
                let i = choose|i: int| 0 <= i < m.len() && m[i].0 == x;
                assert(i > 0);
                assert(r[i].0 == x);
            }
        }
    } else {
        let t = m.drop_first();
        assert forall|i: int, j: int| 0 <= i < j < t.len() implies t[i].0 < t[j].0 by {
            assert(t[i] == m[i + 1] && t[j] == m[j + 1]);
        }
        lemma_map_insert_wf(t, k, v);
        let rt = map_insert(t, k, v);
        assert forall|i: int, j: int| 0 <= i < j < r.len() implies r[i].0 < r[j].0 by {
            if i > 0 {
                assert(r[i] == rt[i - 1] && r[j] == rt[j - 1]);
            } else {
                assert(r[j] == rt[j - 1]);
                assert(map_has_key(rt, rt[j - 1].0)) by {
                    assert(0 <= j - 1 < rt.len() && rt[j - 1].0 == rt[j - 1].0);
                }
                if map_has_key(t, rt[j - 1].0) {
                    let ti = choose|ii: int| 0 <= ii < t.len() && t[ii].0 == rt[j - 1].0;
                    assert(m[0].0 < m[ti + 1].0);
                    assert(t[ti] == m[ti + 1]);
                }
            }
        }
        assert forall|x: u64| map_has_key(r, x) implies (map_has_key(m, x) || x == k) by {
            let i = choose|i: int| 0 <= i < r.len() && r[i].0 == x;
            if i == 0 {
                assert(m[0].0 == x);
            } else {
                assert(rt[i - 1].0 == x);
                assert(map_has_key(rt, x));
                if map_has_key(t, x) {
                    let ti = choose|ii: int| 0 <= ii < t.len() && t[ii].0 == x;
                    assert(m[ti + 1].0 == x);
                }
            }
        }
        assert forall|x: u64| map_has_key(m, x) || x == k implies map_has_key(r, x) by {
            if x == k || map_has_key(m, x) {
                if map_has_key(m, x) {
                    let i = choose|i: int| 0 <= i < m.len() && m[i].0 == x;
                    if i == 0 {
                        assert(r[0].0 == x);
                    } else {
                        assert(0 <= i - 1 < t.len() && t[i - 1].0 == x);
                        assert(map_has_key(t, x));
                        assert(map_has_key(rt, x));
                        let ri = choose|ii: int| 0 <= ii < rt.len() && rt[ii].0 == x;
                        assert(r[ri + 1].0 == x);
                    }
                } else {
                    assert(map_has_key(rt, x) <==> (map_has_key(t, x) || x == k));
                    assert(map_has_key(rt, x));
                    let ri = choose|ii: int| 0 <= ii < rt.len() && rt[ii].0 == x;
                    assert(r[ri + 1].0 == x);
                }
            }
        }
    }
}

/// Accumulating insertion keeps the keys sorted, and touches exactly the
/// key it inserts.
pub proof fn lemma_map_accumulate_wf(m: Seq<(u64, ProtoVal)>, k: u64, v: ProtoVal)
    requires
        map_wf(m),
    ensures
        map_wf(map_accumulate(m, k, v)),
        forall|x: u64| #[trigger] map_has_key(map_accumulate(m, k, v), x) <==> (map_has_key(m,
            x) || x == k),
    decreases m.len(),
{
    let r = map_accumulate(m, k, v);
    if m.len() == 0 {
        assert forall|x: u64| map_has_key(r, x) implies (map_has_key(m, x) || x == k) by {
            assert(r[0].0 == k);
        }
        assert(map_has_key(r, k)) by {
            assert(r[0].0 == k);
        }
    } else if k < m[0].0 {
        assert(map_accumulate(m, k, v) == map_insert(m, k, v));
        lemma_map_insert_wf(m, k, v);
    } else if k == m[0].0 {
        let ri = map_insert(m, k, merge_occurrence(m[0].1, v));
        assert(r =~= ri);
        lemma_map_insert_wf(m, k, merge_occurrence(m[0].1, v));
    } else {
        let t = m.drop_first();
        assert forall|i: int, j: int| 0 <= i < j < t.len() implies t[i].0 < t[j].0 by {
            assert(t[i] == m[i + 1] && t[j] == m[j + 1]);
        }
        lemma_map_accumulate_wf(t, k, v);
        let rt = map_accumulate(t, k, v);
        assert forall|i: int, j: int| 0 <= i < j < r.len() implies r[i].0 < r[j].0 by {
            if i > 0 {
                assert(r[i] == rt[i - 1] && r[j] == rt[j - 1]);
            } else {
                assert(r[j] == rt[j - 1]);
                assert(map_has_key(rt, rt[j - 1].0)) by {
                    assert(0 <= j - 1 < rt.len() && rt[j - 1].0 == rt[j - 1].0);
                }
                if map_has_key(t, rt[j - 1].0) {
                    let ti = choose|ii: int| 0 <= ii < t.len() && t[ii].0 == rt[j - 1].0;
                    assert(m[0].0 < m[ti + 1].0);
                    assert(t[ti] == m[ti + 1]);
                }
            }
        }
        assert forall|x: u64| map_has_key(r, x) implies (map_has_key(m, x) || x == k) by {
            let i = choose|i: int| 0 <= i < r.len() && r[i].0 == x;
            if i == 0 {
                assert(m[0].0 == x);
            } else {
                assert(rt[i - 1].0 == x);
                assert(map_has_key(rt, x));
                if map_has_key(t, x) {
                    let ti = choose|ii: int| 0 <= ii < t.len() && t[ii].0 == x;
                    assert(m[ti + 1].0 == x);
                }
            }
        }
        assert forall|x: u64| map_has_key(m, x) || x == k implies map_has_key(r, x) by {
            if x == k || map_has_key(m, x) {
                if map_has_key(m, x) {
                    let i = choose|i: int| 0 <= i < m.len() && m[i].0 == x;
                    if i == 0 {
                        assert(r[0].0 == x);
                    } else {
                        assert(0 <= i - 1 < t.len() && t[i - 1].0 == x);
                        assert(map_has_key(t, x));
                        assert(map_has_key(rt, x));
                        let ri = choose|ii: int| 0 <= ii < rt.len() && rt[ii].0 == x;
                        assert(r[ri + 1].0 == x);
                    }
                } else {
                    assert(map_has_key(rt, x) <==> (map_has_key(t, x) || x == k));
                    assert(map_has_key(rt, x));
                    let ri = choose|ii: int| 0 <= ii < rt.len() && rt[ii].0 == x;
                    assert(r[ri + 1].0 == x);
                }
            }
        }
    }
}

/// Past a scanned prefix whose keys all lie below `k`, plain insertion
/// happens in the remainder.
proof fn lemma_map_insert_split(m: Seq<(u64, ProtoVal)>, k: u64, v: ProtoVal, i: int)
    requires
        0 <= i <= m.len(),
        forall|j: int| 0 <= j < i ==> m[j].0 < k,
    ensures
        map_insert(m, k, v) == m.take(i) + map_insert(m.skip(i), k, v),
    decreases i,
{
    if i == 0 {
        assert(m.skip(0) =~= m);
        assert(m.take(0) + map_insert(m, k, v) =~= map_insert(m, k, v));
    } else {
        let t = m.drop_first();
        assert forall|j: int| 0 <= j < i - 1 implies t[j].0 < k by {
            assert(t[j] == m[j + 1]);
        }
        lemma_map_insert_split(t, k, v, i - 1);
        assert(t.skip(i - 1) =~= m.skip(i));
        assert(seq![m[0]] + (t.take(i - 1) + map_insert(t.skip(i - 1), k, v)) =~= m.take(i)
            + map_insert(m.skip(i), k, v));
    }
}

/// Past a scanned prefix whose keys all lie below `k`, accumulating
/// insertion happens in the remainder.
proof fn lemma_map_accumulate_split(m: Seq<(u64, ProtoVal)>, k: u64, v: ProtoVal, i: int)
    requires
        0 <= i <= m.len(),
        forall|j: int| 0 <= j < i ==> m[j].0 < k,
    ensures
        map_accumulate(m, k, v) == m.take(i) + map_accumulate(m.skip(i), k, v),
    decreases i,
{
    if i == 0 {
        assert(m.skip(0) =~= m);
        assert(m.take(0) + map_accumulate(m, k, v) =~= map_accumulate(m, k, v));
    } else {
        let t = m.drop_first();
        assert forall|j: int| 0 <= j < i - 1 implies t[j].0 < k by {
            assert(t[j] == m[j + 1]);
        }
        lemma_map_accumulate_split(t, k, v, i - 1);
        assert(t.skip(i - 1) =~= m.skip(i));
        assert(seq![m[0]] + (t.take(i - 1) + map_accumulate(t.skip(i - 1), k, v)) =~= m.take(i)
            + map_accumulate(m.skip(i), k, v));
    }
}

impl FieldMap {
    /// Where `field` would stand: the index of the first entry whose key
    /// is not below `field`.
    fn lower_bound(&self, field: u64) -> (i: usize)
        ensures
            0 <= i <= self.deep().len(),
            forall|j: int| 0 <= j < i ==> self.deep()[j].0 < field,
            i < self.deep().len() ==> self.deep()[i as int].0 >= field,
    {
        let mut i: usize = 0;
        while i < self.entries.len() && self.entries[i].key < field
            invariant
                0 <= i <= self.entries@.len(),
                forall|j: int| 0 <= j < i ==> self.entries@[j].key < field,
            decreases self.entries@.len() - i,
        {
            i = i + 1;
        }
        proof {
            assert(forall|j: int|
                0 <= j < self.deep().len() ==> self.deep()[j].0 == self.entries@[j].key);
        }
        i
    }

    /// Insert `value` at `field`, replacing whatever value was there.
    pub fn insert(&mut self, field: u64, value: ProtoData)
        requires
            old(self).wf(),
        ensures
            final(self).wf(),
            final(self).deep() == map_insert(old(self).deep(), field, value.deep()),
    {
        let ghost m = old(self).deep();
        let ghost dv = value.deep();
        let i = self.lower_bound(field);
        proof {
            lemma_map_insert_split(m, field, dv, i as int);
            lemma_map_insert_wf(m, field, dv);
        }
        if i < self.entries.len() && self.entries[i].key == field {
            let _ = self.entries.remove(i);
            self.entries.insert(i, FieldEntry { key: field, value });
            proof {
                assert(map_insert(m.skip(i as int), field, dv) =~= seq![(field, dv)] + m.skip(
                    i as int + 1,
                ));
                assert(self.deep() =~= m.take(i as int) + (seq![(field, dv)] + m.skip(
                    i as int + 1,
                )));
            }
        } else {
            self.entries.insert(i, FieldEntry { key: field, value });
            proof {
                if i < m.len() {
                    assert(m.skip(i as int)[0] == m[i as int]);
                }
                assert(map_insert(m.skip(i as int), field, dv) =~= seq![(field, dv)] + m.skip(
                    i as int,
                ));
                assert(self.deep() =~= m.take(i as int) + (seq![(field, dv)] + m.skip(i as int)));
            }
        }
    }

    /// Record one more occurrence of `field`, as the decoder does: the
    /// first occurrence stores the bare value, later ones grow a repeated
    /// list in arrival order.
    #[verifier::rlimit(50)]
    fn accumulate(&mut self, field: u64, value: ProtoData)
        requires
            old(self).wf(),
        ensures
            final(self).wf(),
            final(self).deep() == map_accumulate(old(self).deep(), field, value.deep()),
    {
        let ghost m = old(self).deep();
        let ghost dv = value.deep();
        let i = self.lower_bound(field);
        proof {
            lemma_map_accumulate_split(m, field, dv, i as int);
            lemma_map_accumulate_wf(m, field, dv);
        }
        if i < self.entries.len() && self.entries[i].key == field {
            let prev_entry = self.entries.remove(i);
            let ghost dprev = prev_entry.value.deep();
            proof {
                assert(dprev == m[i as int].1);
            }
            let merged = merge_value(prev_entry.value, value);
            self.entries.insert(i, FieldEntry { key: field, value: merged });
            proof {
                assert(map_accumulate(m.skip(i as int), field, dv) =~= seq![
                    (field, merge_occurrence(m[i as int].1, dv)),
                ] + m.skip(i as int + 1));
                assert(self.deep() =~= m.take(i as int) + (seq![
                    (field, merge_occurrence(m[i as int].1, dv)),
                ] + m.skip(i as int + 1)));
            }
        } else {
            self.entries.insert(i, FieldEntry { key: field, value });
            proof {
                if i < m.len() {
                    assert(m.skip(i as int)[0] == m[i as int]);
                }
                assert(map_accumulate(m.skip(i as int), field, dv) =~= seq![(field, dv)] + m.skip(
                    i as int,
                ));
                assert(self.deep() =~= m.take(i as int) + (seq![(field, dv)] + m.skip(i as int)));
            }
        }
    }
}

/// Join one more occurrence of a field with the value already stored
/// under its number.
fn merge_value(prev: ProtoData, value: ProtoData) -> (r: ProtoData)
    ensures
        r.deep() == merge_occurrence(prev.deep(), value.deep()),
{
    let ghost dprev = prev.deep();
    let ghost dv = value.deep();
    match prev {
        ProtoData::Repeated(mut l) => {
            let ghost l0 = l@;
            l.push(value);
            let r = ProtoData::Repeated(l);
            proof {
                let inner = dprev->Repeated_0;
                assert(dprev is Repeated);
                assert(forall|j: int| 0 <= j < l0.len() ==> inner[j] == l0[j].deep());
                assert(r.deep() matches ProtoVal::Repeated(s2) && s2 =~= inner.push(dv));
            }
            r
        },
        other => {
            let r = ProtoData::Repeated(vec![other, value]);
            proof {
                assert(r.deep() matches ProtoVal::Repeated(l) && l =~= seq![dprev, dv]);
            }
            r
        },
    }
}

impl Default for FieldMap {
    /// An empty map.
    fn default() -> (r: FieldMap)
        ensures
            r.deep() == Seq::<(u64, ProtoVal)>::empty(),
            r.wf(),
    {
        FieldMap::new()
    }
}

/// The wire tag of `field` under wire-type code `code`: the field number
/// shifted into the high bits (truncated to 64 bits), the code in the low
/// three.
pub open spec fn tag_val(field: u64, code: u64) -> u64 {
    (((field as nat) * 8) % 0x10000000000000000 + code) as u64
}

/// The varint encoding of the wire tag.
pub open spec fn tag_bytes(field: u64, code: u64) -> Seq<u8> {
    uvarint_bytes(tag_val(field, code))
}

/// The value tree has a wire representation: no repeated list nested in
/// another, and every repeated list homogeneous.
pub open spec fn encodable(v: ProtoVal) -> bool
    decreases v,
{
    match v {
        ProtoVal::Repeated(l) => forall|i: int|
            0 <= i < l.len() ==> !((#[trigger] l[i]) is Repeated) && val_kind(l[i]) == val_kind(
                l[0],
            ) && encodable(l[i]),
        ProtoVal::Message(m) => forall|i: int| 0 <= i < m.len() ==> encodable((#[trigger] m[i]).1),
        _ => true,
    }
}

/// Every value of the message has a wire representation.
pub open spec fn msg_encodable(m: Seq<(u64, ProtoVal)>) -> bool {
    encodable(ProtoVal::Message(m))
}

/// What one field's encoding appends: its tag, then its payload. A
/// repeated list writes one shared tag for packed scalars, none for
/// LEN-typed elements (each carries its own), and nothing when empty.
pub open spec fn field_bytes(field: u64, v: ProtoVal) -> Seq<u8>
    decreases v, 1int,
{
    match v {
        ProtoVal::Varint(x) => tag_bytes(field, 0) + uvarint_bytes(x),
        ProtoVal::Fix64(x) => tag_bytes(field, 1) + fix64_bytes(x),
        ProtoVal::Fix32(x) => tag_bytes(field, 5) + fix32_bytes(x),
        ProtoVal::Bytes(b) => tag_bytes(field, 2) + uvarint_bytes(b.len() as u64) + b,
        ProtoVal::Str(s) => tag_bytes(field, 2) + uvarint_bytes(
            (encode_utf8(s).len() as usize) as u64,
        ) + encode_utf8(s),
        ProtoVal::Repeated(l) => if l.len() == 0 {
            Seq::empty()
        } else if val_wire_code(l[0]) == 2 {
            rep_bytes(field, l)
        } else {
            tag_bytes(field, 2) + rep_bytes(field, l)
        },
        ProtoVal::Message(m) => msg_bytes(m),
    }
}

/// What one element of a repeated list appends: scalars write their bare
/// payload (packed), LEN-typed elements -- bytes, text and messages alike
/// -- each write their own tag, length varint and payload.
pub open spec fn elem_bytes(field: u64, v: ProtoVal) -> Seq<u8>
    decreases v, 1int,
{
    match v {
        ProtoVal::Varint(x) => uvarint_bytes(x),
        ProtoVal::Fix64(x) => fix64_bytes(x),
        ProtoVal::Fix32(x) => fix32_bytes(x),
        ProtoVal::Bytes(b) => tag_bytes(field, 2) + uvarint_bytes(b.len() as u64) + b,
        ProtoVal::Str(s) => tag_bytes(field, 2) + uvarint_bytes(
            (encode_utf8(s).len() as usize) as u64,
        ) + encode_utf8(s),
        ProtoVal::Repeated(_) => Seq::empty(),
        ProtoVal::Message(m) => tag_bytes(field, 2) + uvarint_bytes(msg_bytes(m).len() as u64)
            + msg_bytes(m),
    }
}

/// The concatenated element encodings of a repeated list.
pub open spec fn rep_bytes(field: u64, l: Seq<ProtoVal>) -> Seq<u8>
    decreases l, 0int,
{
    if l.len() == 0 {
        Seq::empty()
    } else {
        elem_bytes(field, l[0]) + rep_bytes(field, l.drop_first())
    }
}

/// The concatenated field encodings of a message, in storage order.
pub open spec fn msg_bytes(m: Seq<(u64, ProtoVal)>) -> Seq<u8>
    decreases m, 0int,
{
    if m.len() == 0 {
        Seq::empty()
    } else {
        field_bytes(m[0].0, m[0].1) + msg_bytes(m.drop_first())
    }
}

/// One more element extends a repeated list's encoding at the tail.
proof fn lemma_rep_bytes_snoc(field: u64, l: Seq<ProtoVal>, i: int)
    requires
        0 <= i < l.len(),
    ensures
        rep_bytes(field, l.take(i + 1)) == rep_bytes(field, l.take(i)) + elem_bytes(field, l[i]),
    decreases i,
{
    if i == 0 {
        assert(l.take(1).drop_first() =~= Seq::<ProtoVal>::empty());
        assert(l.take(1)[0] == l[0]);
        assert(rep_bytes(field, Seq::<ProtoVal>::empty()) == Seq::<u8>::empty());
        assert(rep_bytes(field, l.take(1)) =~= elem_bytes(field, l[0]));
        assert(rep_bytes(field, l.take(0)) =~= Seq::<u8>::empty());
        assert(Seq::<u8>::empty() + elem_bytes(field, l[0]) =~= elem_bytes(field, l[0]));
    } else {
        let t = l.drop_first();
        lemma_rep_bytes_snoc(field, t, i - 1);
        assert(l.take(i + 1).drop_first() =~= t.take(i));
        assert(l.take(i).drop_first() =~= t.take(i - 1));
        assert(t[i - 1] == l[i]);
        assert(l.take(i + 1)[0] == l[0] && l.take(i)[0] == l[0]);
        assert(elem_bytes(field, l[0]) + (rep_bytes(field, t.take(i - 1)) + elem_bytes(field, l[i]))
            =~= (elem_bytes(field, l[0]) + rep_bytes(field, t.take(i - 1))) + elem_bytes(
            field,
            l[i],
        ));
    }
}

/// One more field extends a message's encoding at the tail.
proof fn lemma_msg_bytes_snoc(m: Seq<(u64, ProtoVal)>, i: int)
    requires
        0 <= i < m.len(),
    ensures
        msg_bytes(m.take(i + 1)) == msg_bytes(m.take(i)) + field_bytes(m[i].0, m[i].1),
    decreases i,
{
    if i == 0 {
        assert(m.take(1).drop_first() =~= Seq::<(u64, ProtoVal)>::empty());
        assert(m.take(1)[0] == m[0]);
        assert(msg_bytes(Seq::<(u64, ProtoVal)>::empty()) == Seq::<u8>::empty());
        assert(msg_bytes(m.take(1)) =~= field_bytes(m[0].0, m[0].1));
        assert(msg_bytes(m.take(0)) =~= Seq::<u8>::empty());
        assert(Seq::<u8>::empty() + field_bytes(m[0].0, m[0].1) =~= field_bytes(m[0].0, m[0].1));
    } else {
        let t = m.drop_first();
        lemma_msg_bytes_snoc(t, i - 1);
        assert(m.take(i + 1).drop_first() =~= t.take(i));
        assert(m.take(i).drop_first() =~= t.take(i - 1));
        assert(t[i - 1] == m[i]);
        assert(m.take(i + 1)[0] == m[0] && m.take(i)[0] == m[0]);
        assert(field_bytes(m[0].0, m[0].1) + (msg_bytes(t.take(i - 1)) + field_bytes(
            m[i].0,
            m[i].1,
        )) =~= (field_bytes(m[0].0, m[0].1) + msg_bytes(t.take(i - 1))) + field_bytes(
            m[i].0,
            m[i].1,
        ));
    }
}

/// A sequence stays a prefix of itself under appends.
proof fn lemma_prefix_extend(a: Seq<u8>, b: Seq<u8>)
    ensures
        a.is_prefix_of(a + b),
{
    assert((a + b).take(a.len() as int) =~= a);
}

/// Prefixes chain.
proof fn lemma_prefix_trans(a: Seq<u8>, b: Seq<u8>, c: Seq<u8>)
    requires
        a.is_prefix_of(b),
        b.is_prefix_of(c),
    ensures
        a.is_prefix_of(c),
{
    assert(c.take(a.len() as int) =~= b.take(a.len() as int));
}

/// Write the tag varint for `field` under wire type `wt`.
fn write_tag(field: u64, wt: &WireType, buf: &mut Vec<u8>)
    ensures
        final(buf)@ == old(buf)@ + tag_bytes(field, wt.spec_code()),
{
    let c = wt.code();
    let t = (field << 3) | c;
    proof {
        assert(((field << 3) | c) == ((field as nat) * 8) % 0x10000000000000000 + c)
            by (bit_vector)
            requires
                c <= 5,
        ;
    }
    crate::varint::write_uvarint(t, buf);
}

impl ProtoData {
    /// Write one field: its tag, then its payload, as [`field_bytes`] lays
    /// it out. Succeeds exactly on wire-representable values; on failure
    /// the buffer keeps what was written before the offending element.
    pub fn encode_to(&self, field: u64, buf: &mut Vec<u8>) -> (r: Result<
        (),
        crate::error::EncodeError,
    >)
        ensures
            encodable(self.deep()) ==> (r is Ok && final(buf)@ == old(buf)@ + field_bytes(
                field,
                self.deep(),
            )),
            !encodable(self.deep()) ==> (r == Err::<(), crate::error::EncodeError>(
                crate::error::EncodeError::DataError,
            ) && old(buf)@.is_prefix_of(final(buf)@)),
        decreases self,
    {
        match self {
            ProtoData::Varint(v) => {
                write_tag(field, &WireType::VARINT, buf);
                crate::varint::write_uvarint(*v, buf);
                proof {
                    assert(buf@ =~= old(buf)@ + field_bytes(field, self.deep()));
                }
                Ok(())
            },
            ProtoData::Fix64(v) => {
                write_tag(field, &WireType::I64, buf);
                crate::fixint::write_fix64(*v, buf);
                proof {
                    assert(buf@ =~= old(buf)@ + field_bytes(field, self.deep()));
                }
                Ok(())
            },
            ProtoData::Fix32(v) => {
                write_tag(field, &WireType::I32, buf);
                crate::fixint::write_fix32(*v, buf);
                proof {
                    assert(buf@ =~= old(buf)@ + field_bytes(field, self.deep()));
                }
                Ok(())
            },
            ProtoData::Bytes(v) => {
                write_tag(field, &WireType::LEN, buf);
                crate::varint::write_uvarint(v.len() as u64, buf);
                buf.extend_from_slice(v.as_slice());
                proof {
                    assert(buf@ =~= old(buf)@ + field_bytes(field, self.deep()));
                }
                Ok(())
            },
            ProtoData::String(v) => {
                write_tag(field, &WireType::LEN, buf);
                let s = v.as_str();
                crate::varint::write_uvarint(s.len() as u64, buf);
                buf.extend_from_slice(s.as_bytes());
                proof {
                    assert(buf@ =~= old(buf)@ + field_bytes(field, self.deep()));
                }
                Ok(())
            },
            ProtoData::Repeated(v) => self.encode_repeated_list(field, v, buf),
            ProtoData::Message(m) => {
                let r = m.encode_to(buf);
                proof {
                    if msg_encodable(m.deep()) {
                        assert(buf@ =~= old(buf)@ + field_bytes(field, self.deep()));
                    }
                }
                r
            },
        }
    }

    /// The repeated arm of [`ProtoData::encode_to`]: an empty list writes
    /// nothing; packed scalars share one tag; LEN-typed elements each
    /// carry their own; a mixed or nested list is refused.
    fn encode_repeated_list(&self, field: u64, v: &Vec<ProtoData>, buf: &mut Vec<u8>) -> (r: Result<
        (),
        crate::error::EncodeError,
    >)
        requires
            *self matches ProtoData::Repeated(l) && l@ == v@,
        ensures
            encodable(self.deep()) ==> (r is Ok && final(buf)@ == old(buf)@ + field_bytes(
                field,
                self.deep(),
            )),
            !encodable(self.deep()) ==> (r == Err::<(), crate::error::EncodeError>(
                crate::error::EncodeError::DataError,
            ) && old(buf)@.is_prefix_of(final(buf)@)),
        decreases self, 0int,
    {
        let ghost dl = self.deep()->Repeated_0;
        proof {
            assert(forall|j: int| 0 <= j < v@.len() ==> dl[j] == v@[j].deep());
        }
        if v.len() == 0 {
            proof {
                assert(old(buf)@ + field_bytes(field, self.deep()) =~= old(buf)@);
            }
            return Ok(());
        }
        let first_wt = v[0].wire_type();
        let first_kind = v[0].kind_code();
        match first_wt {
            WireType::LEN => {},
            _ => {
                write_tag(field, &WireType::LEN, buf);
            },
        }
        let ghost base = buf@;
        let mut i: usize = 0;
        while i < v.len()
            invariant
                0 <= i <= v@.len(),
                v@.len() > 0,
                *self matches ProtoData::Repeated(l) && l@ == v@,
                dl == self.deep()->Repeated_0,
                dl.len() == v@.len(),
                forall|j: int| 0 <= j < v@.len() ==> dl[j] == v@[j].deep(),
                first_kind as int == val_kind(dl[0]),
                buf@ == base + rep_bytes(field, dl.take(i as int)),
                old(buf)@.is_prefix_of(base),
                forall|j: int|
                    0 <= j < i ==> !((#[trigger] dl[j]) is Repeated) && val_kind(dl[j]) == val_kind(
                        dl[0],
                    ) && encodable(dl[j]),
            decreases v@.len() - i,
        {
            let item = &v[i];
            if item.kind_code() != first_kind {
                proof {
                    assert(!encodable(self.deep()));
                    lemma_prefix_extend(base, rep_bytes(field, dl.take(i as int)));
                    lemma_prefix_trans(old(buf)@, base, buf@);
                }
                return Err(crate::error::EncodeError::DataError);
            }
            let is_nested = match item {
                ProtoData::Repeated(_) => true,
                _ => false,
            };
            if is_nested {
                proof {
                    assert(dl[i as int] is Repeated);
                    assert(!encodable(self.deep()));
                    lemma_prefix_extend(base, rep_bytes(field, dl.take(i as int)));
                    lemma_prefix_trans(old(buf)@, base, buf@);
                }
                return Err(crate::error::EncodeError::DataError);
            }
            let ghost pre = buf@;
            match item.encode_repeated_to(field, buf) {
                Ok(_) => {},
                Err(e) => {
                    proof {
                        assert(!encodable(dl[i as int]));
                        assert(!encodable(self.deep()));
                        assert(old(buf)@.is_prefix_of(pre)) by {
                            lemma_prefix_extend(base, rep_bytes(field, dl.take(i as int)));
                            lemma_prefix_trans(old(buf)@, base, pre);
                        }
                        lemma_prefix_trans(old(buf)@, pre, buf@);
                    }
                    return Err(e);
                },
            }
            proof {
                lemma_rep_bytes_snoc(field, dl, i as int);
                assert(buf@ =~= base + rep_bytes(field, dl.take(i as int + 1)));
            }
            i = i + 1;
        }
        proof {
            assert(dl.take(dl.len() as int) =~= dl);
            assert(self.deep() is Repeated);
            assert(encodable(self.deep()));
            assert(first_wt.spec_code() == val_wire_code(dl[0]));
            if val_wire_code(dl[0]) == 2 {
                assert(base =~= old(buf)@);
                assert(buf@ =~= old(buf)@ + field_bytes(field, self.deep()));
            } else {
                assert(base =~= old(buf)@ + tag_bytes(field, 2));
                assert(buf@ =~= old(buf)@ + (tag_bytes(field, 2) + rep_bytes(field, dl)));
            }
        }
        Ok(())
    }

    /// Write one element of a repeated list: the bare payload for packed
    /// scalars, a tagged payload for LEN-typed values, nothing for a
    /// nested repeated list (the caller rejects those).
    pub fn encode_repeated_to(&self, field: u64, buf: &mut Vec<u8>) -> (r: Result<
        (),
        crate::error::EncodeError,
    >)
        ensures
            self.deep() is Repeated ==> (r is Ok && final(buf)@ == old(buf)@),
            !(self.deep() is Repeated) && encodable(self.deep()) ==> (r is Ok && final(buf)@ == old(
                buf,
            )@ + elem_bytes(field, self.deep())),
            !(self.deep() is Repeated) && !encodable(self.deep()) ==> (r == Err::<
                (),
                crate::error::EncodeError,
            >(crate::error::EncodeError::DataError) && old(buf)@.is_prefix_of(final(buf)@)),
        decreases self, 1int,
    {
        match self {
            ProtoData::Varint(v) => {
                crate::varint::write_uvarint(*v, buf);
                Ok(())
            },
            ProtoData::Fix64(v) => {
                crate::fixint::write_fix64(*v, buf);
                Ok(())
            },
            ProtoData::Fix32(v) => {
                crate::fixint::write_fix32(*v, buf);
                Ok(())
            },
            ProtoData::Bytes(v) => {
                write_tag(field, &WireType::LEN, buf);
                crate::varint::write_uvarint(v.len() as u64, buf);
                buf.extend_from_slice(v.as_slice());
                proof {
                    assert(buf@ =~= old(buf)@ + elem_bytes(field, self.deep()));
                }
                Ok(())
            },
            ProtoData::String(v) => {
                write_tag(field, &WireType::LEN, buf);
                let s = v.as_str();
                crate::varint::write_uvarint(s.len() as u64, buf);
                buf.extend_from_slice(s.as_bytes());
                proof {
                    assert(buf@ =~= old(buf)@ + elem_bytes(field, self.deep()));
                }
                Ok(())
            },
            ProtoData::Repeated(_) => Ok(()),
            ProtoData::Message(m) => {
                // A repeated message element is framed like any other
                // LEN-typed element: its own tag, a length varint, then
                // the nested bytes.
                let mut payload: Vec<u8> = Vec::new();
                match m.encode_to(&mut payload) {
                    Ok(_) => {
                        write_tag(field, &WireType::LEN, buf);
                        crate::varint::write_uvarint(payload.len() as u64, buf);
                        buf.extend_from_slice(payload.as_slice());
                        proof {
                            assert(buf@ =~= old(buf)@ + elem_bytes(field, self.deep()));
                        }
                        Ok(())
                    },
                    Err(e) => {
                        proof {
                            assert(old(buf)@.is_prefix_of(buf@)) by {
                                assert(buf@.take(old(buf)@.len() as int) =~= old(buf)@);
                            }
                        }
                        Err(e)
                    },
                }
            },
        }
    }
}

impl FieldMap {
    /// Write every field of the map, in ascending field-number order when
    /// the map is well formed (entries go out in storage order).
    pub fn encode_to(&self, buf: &mut Vec<u8>) -> (r: Result<(), crate::error::EncodeError>)
        ensures
            msg_encodable(self.deep()) ==> (r is Ok && final(buf)@ == old(buf)@ + msg_bytes(
                self.deep(),
            )),
            !msg_encodable(self.deep()) ==> (r == Err::<(), crate::error::EncodeError>(
                crate::error::EncodeError::DataError,
            ) && old(buf)@.is_prefix_of(final(buf)@)),
        decreases self,
    {
        let ghost dm = self.deep();
        let mut i: usize = 0;
        while i < self.entries.len()
            invariant
                0 <= i <= self.entries@.len(),
                dm == self.deep(),
                dm.len() == self.entries@.len(),
                buf@ == old(buf)@ + msg_bytes(dm.take(i as int)),
                forall|j: int| 0 <= j < i ==> encodable((#[trigger] dm[j]).1),
            decreases self.entries@.len() - i,
        {
            let entry = &self.entries[i];
            proof {
                assert(dm[i as int] == (entry.key, entry.value.deep()));
            }
            let ghost pre = buf@;
            match entry.value.encode_to(entry.key, buf) {
                Ok(_) => {},
                Err(e) => {
                    proof {
                        let ghost j = i as int;
                        assert(0 <= j < dm.len());
                        assert(!encodable(dm[j].1));
                        assert(ProtoVal::Message(dm)->Message_0 == dm);
                        assert(encodable(ProtoVal::Message(dm)) ==> encodable(dm[j].1));
                        assert(!msg_encodable(dm));
                        assert(old(buf)@.is_prefix_of(pre)) by {
                            lemma_prefix_extend(old(buf)@, msg_bytes(dm.take(i as int)));
                        }
                        lemma_prefix_trans(old(buf)@, pre, buf@);
                    }
                    return Err(e);
                },
            }
            proof {
                lemma_msg_bytes_snoc(dm, i as int);
                assert(buf@ =~= old(buf)@ + msg_bytes(dm.take(i as int + 1)));
            }
            i = i + 1;
        }
        proof {
            assert(dm.take(dm.len() as int) =~= dm);
        }
        Ok(())
    }

    /// The whole map as wire bytes.
    pub fn encode(&self) -> (r: Result<Vec<u8>, crate::error::EncodeError>)
        ensures
            msg_encodable(self.deep()) ==> (r matches Ok(b) && b@ == msg_bytes(self.deep())),
            !msg_encodable(self.deep()) ==> r == Err::<Vec<u8>, crate::error::EncodeError>(
                crate::error::EncodeError::DataError,
            ),
    {
        let mut buf: Vec<u8> = Vec::new();
        match self.encode_to(&mut buf) {
            Ok(_) => {
                proof {
                    assert(buf@ =~= msg_bytes(self.deep()));
                }
                Ok(buf)
            },
            Err(e) => Err(e),
        }
    }
}

impl Clone for ProtoData {
    /// A clone stands for the same mathematical value as the original.
    fn clone(&self) -> (res: Self)
        ensures
            res.deep() == self.deep(),
        decreases self,
    {
        match self {
            ProtoData::Varint(v) => ProtoData::Varint(*v),
            ProtoData::Fix64(v) => ProtoData::Fix64(*v),
            ProtoData::Fix32(v) => ProtoData::Fix32(*v),
            ProtoData::Bytes(v) => {
                let c = vstd::slice::slice_to_vec(v.as_slice());
                ProtoData::Bytes(c)
            },
            ProtoData::String(v) => ProtoData::String(v.clone()),
            ProtoData::Repeated(v) => {
                let ghost dl = self.deep()->Repeated_0;
                proof {
                    assert(forall|j: int| 0 <= j < v@.len() ==> dl[j] == v@[j].deep());
                }
                let mut out: Vec<ProtoData> = Vec::new();
                let mut i: usize = 0;
                while i < v.len()
                    invariant
                        *self matches ProtoData::Repeated(l) && l@ == v@,
                        0 <= i <= v@.len(),
                        dl.len() == v@.len(),
                        forall|j: int| 0 <= j < v@.len() ==> dl[j] == v@[j].deep(),
                        out@.len() == i,
                        forall|j: int| 0 <= j < i ==> (#[trigger] out@[j]).deep() == dl[j],
                    decreases v@.len() - i,
                {
                    let item = &v[i];
                    out.push(item.clone());
                    i = i + 1;
                }
                let res = ProtoData::Repeated(out);
                proof {
                    assert(res.deep() matches ProtoVal::Repeated(s2) && s2 =~= dl);
                }
                res
            },
            ProtoData::Message(m) => ProtoData::Message(m.clone()),
        }
    }
}

impl Clone for FieldMap {
    /// A clone stands for the same entries as the original.
    fn clone(&self) -> (res: Self)
        ensures
            res.deep() == self.deep(),
        decreases self,
    {
        let ghost dm = self.deep();
        let mut out: Vec<FieldEntry> = Vec::new();
        let mut i: usize = 0;
        while i < self.entries.len()
            invariant
                0 <= i <= self.entries@.len(),
                dm == self.deep(),
                dm.len() == self.entries@.len(),
                out@.len() == i,
                forall|j: int|
                    0 <= j < i ==> ((#[trigger] out@[j]).key == dm[j].0 && out@[j].value.deep()
                        == dm[j].1),
            decreases self.entries@.len() - i,
        {
            let entry = &self.entries[i];
            proof {
                assert(dm[i as int] == (entry.key, entry.value.deep()));
            }
            out.push(FieldEntry { key: entry.key, value: entry.value.clone() });
            i = i + 1;
        }
        let res = FieldMap { entries: out };
        proof {
            assert(res.deep() =~= dm);
        }
        res
    }
}

/// Reading one field tag at the head of `s` succeeds: the varint parses
/// and its low three bits name a wire type.
pub open spec fn tag_ok(s: Seq<u8>) -> bool {
    uvarint_ok(s) && uvarint_value(s) % 8 <= 5
}

/// The field number carried by the tag at the head of `s`.
pub open spec fn tag_field(s: Seq<u8>) -> u64 {
    uvarint_value(s) / 8
}

/// The wire-type code carried by the tag at the head of `s`.
pub open spec fn tag_code(s: Seq<u8>) -> u64 {
    uvarint_value(s) % 8
}

/// The error a failed tag read over `s` yields.
pub open spec fn tag_err(s: Seq<u8>) -> DecodeError {
    if !uvarint_ok(s) {
        uvarint_err(s)
    } else {
        DecodeError::UnknownWireType(uvarint_value(s) % 8)
    }
}

/// What decoding a whole message over the bytes `s` yields, with fields
/// already gathered in `acc`: read tags until the buffer is exactly
/// exhausted, dispatch each payload on its wire type, and accumulate
/// values per field number. Any failure discards the whole message.
pub open spec fn spec_decode_msg(s: Seq<u8>, acc: Seq<(u64, ProtoVal)>) -> Result<
    Seq<(u64, ProtoVal)>,
    DecodeError,
>
    decreases s.len(), 0int,
        via spec_decode_msg_dec
{
    if s.len() == 0 {
        Ok(acc)
    } else if !tag_ok(s) {
        Err(tag_err(s))
    } else {
        let f = tag_field(s);
        let code = tag_code(s);
        let s1 = s.skip(uvarint_end(s));
        if code == 0 {
            if uvarint_ok(s1) {
                spec_decode_msg(
                    s1.skip(uvarint_end(s1)),
                    map_accumulate(acc, f, ProtoVal::Varint(uvarint_value(s1))),
                )
            } else {
                Err(DecodeError::Error)
            }
        } else if code == 1 {
            if s1.len() >= 8 {
                spec_decode_msg(s1.skip(8), map_accumulate(acc, f, ProtoVal::Fix64(fix64_val(s1))))
            } else {
                Err(DecodeError::Error)
            }
        } else if code == 5 {
            if s1.len() >= 4 {
                spec_decode_msg(s1.skip(4), map_accumulate(acc, f, ProtoVal::Fix32(fix32_val(s1))))
            } else {
                Err(DecodeError::Error)
            }
        } else if code == 2 {
            if !uvarint_ok(s1) {
                Err(DecodeError::Error)
            } else {
                let n1 = uvarint_end(s1);
                let len = uvarint_value(s1) as int;
                if len == 0 {
                    spec_decode_msg(
                        s1.skip(n1),
                        map_accumulate(acc, f, ProtoVal::Message(Seq::empty())),
                    )
                } else if s1.len() - n1 < len {
                    Err(DecodeError::Error)
                } else {
                    spec_decode_msg(
                        s1.skip(n1 + len),
                        map_accumulate(
                            acc,
                            f,
                            spec_classify_payload(s1.subrange(n1, n1 + len)),
                        ),
                    )
                }
            }
        } else if code == 3 {
            Err(DecodeError::DeprecatedWireType(WireType::SGROUP))
        } else {
            Err(DecodeError::DeprecatedWireType(WireType::EGROUP))
        }
    }
}

#[via_fn]
proof fn spec_decode_msg_dec(s: Seq<u8>, acc: Seq<(u64, ProtoVal)>) {
    crate::varint::lemma_uvarint_end_bounds(s);
    crate::varint::lemma_uvarint_end_bounds(s.skip(crate::varint::uvarint_end(s)));
}

/// The second and third tiers of the heuristic: valid UTF-8 classifies as
/// text, anything else as raw bytes.
pub open spec fn spec_text_or_bytes(sub: Seq<u8>) -> ProtoVal {
    if valid_utf8(sub) {
        ProtoVal::Str(decode_utf8(sub))
    } else {
        ProtoVal::Bytes(sub)
    }
}

/// The three-tier classification of a non-empty LEN payload: a
/// structurally valid, non-empty nested message wins; then UTF-8 text;
/// raw bytes is the fallback that cannot fail.
pub open spec fn spec_classify_payload(sub: Seq<u8>) -> ProtoVal
    decreases sub.len(), 1int,
{
    match spec_decode_msg(sub, Seq::empty()) {
        Ok(m) => if m.len() > 0 {
            ProtoVal::Message(m)
        } else {
            spec_text_or_bytes(sub)
        },
        Err(_) => spec_text_or_bytes(sub),
    }
}

/// What reading one length-delimited payload at the head of `s` yields:
/// the classified value and the number of bytes consumed (the length
/// varint plus the payload).
pub open spec fn len_payload_res(s: Seq<u8>) -> Result<(ProtoVal, int), DecodeError>
    decreases s.len(), 1int,
        via len_payload_res_dec
{
    if !uvarint_ok(s) {
        Err(uvarint_err(s))
    } else {
        let n1 = uvarint_end(s);
        let len = uvarint_value(s) as int;
        if len == 0 {
            Ok((ProtoVal::Message(Seq::empty()), n1))
        } else if s.len() - n1 < len {
            Err(DecodeError::UnexpectedEof)
        } else {
            Ok((spec_classify_payload(s.subrange(n1, n1 + len)), n1 + len))
        }
    }
}

#[via_fn]
proof fn len_payload_res_dec(s: Seq<u8>) {
    crate::varint::lemma_uvarint_end_bounds(s);
}

/// Read one field tag: a varint split into field number and wire type.
pub fn read_tag<'a>(buf: &mut Reader<'a>) -> (r: Result<(u64, WireType), DecodeError>)
    requires
        old(buf).inv(),
    ensures
        final(buf).inv(),
        final(buf).all_bytes() == old(buf).all_bytes(),
        match r {
            Ok(p) => tag_ok(old(buf).rest()) && p.0 == tag_field(old(buf).rest())
                && p.1.spec_code() == tag_code(old(buf).rest()) && final(buf).rest() == old(
                buf,
            ).rest().skip(uvarint_end(old(buf).rest())),
            Err(e) => !tag_ok(old(buf).rest()) && e == tag_err(old(buf).rest()) && (e
                == DecodeError::EOF ==> *final(buf) == *old(buf)),
        },
{
    let tag = match crate::varint::read_uvarint(buf) {
        Ok(t) => t,
        Err(e) => {
            return Err(e);
        },
    };
    proof {
        assert(tag >> 3 == tag / 8 && (tag & 0x07) == tag % 8) by (bit_vector);
    }
    match WireType::try_from(tag & 0x07) {
        Ok(wt) => Ok((tag >> 3, wt)),
        Err(e) => Err(e),
    }
}

/// Relies on std's `str::from_utf8`: it accepts exactly the valid UTF-8
/// byte sequences and returns the text those bytes encode.
#[verifier::external_body]
fn utf8_to_string(b: &[u8]) -> (r: Option<String>)
    ensures
        match r {
            Some(t) => valid_utf8(b@) && t@ == decode_utf8(b@),
            None => !valid_utf8(b@),
        },
{
    match core::str::from_utf8(b) {
        Ok(t) => Some(t.to_string()),
        Err(_) => None,
    }
}

/// Read one LEN payload: a length varint, then exactly that many bytes,
/// classified by the three-tier heuristic. The list always holds exactly
/// one value.
pub fn read_length_delimited<'a>(buf: &mut Reader<'a>) -> (r: Result<Vec<ProtoData>, DecodeError>)
    requires
        old(buf).inv(),
    ensures
        final(buf).inv(),
        final(buf).all_bytes() == old(buf).all_bytes(),
        match r {
            Ok(list) => len_payload_res(old(buf).rest()) matches Ok(p) && list@.len() == 1
                && list@[0].deep() == p.0 && (list@[0] matches ProtoData::Message(fm) ==> fm.wf())
                && final(buf).rest() == old(buf).rest().skip(p.1),
            Err(e) => len_payload_res(old(buf).rest()) == Err::<(ProtoVal, int), DecodeError>(e)
                && (uvarint_ok(old(buf).rest()) ==> final(buf).rest() == old(buf).rest().skip(
                uvarint_end(old(buf).rest()),
            )),
        },
    decreases old(buf).rest().len(),
{
    let ghost s = old(buf).rest();
    let mut result: Vec<ProtoData> = Vec::new();
    let len = match crate::varint::read_uvarint(buf) {
        Ok(l) => l,
        Err(e) => {
            return Err(e);
        },
    };
    let ghost n1 = uvarint_end(s);
    proof {
        crate::varint::lemma_uvarint_end_bounds(s);
    }
    if len == 0 {
        result.push(ProtoData::Message(FieldMap::new()));
        proof {
            assert(result@[0].deep() == ProtoVal::Message(Seq::<(u64, ProtoVal)>::empty()));
        }
        return Ok(result);
    }
    let remaining = buf.remaining();
    if len > remaining as u64 {
        return Err(DecodeError::UnexpectedEof);
    }
    let sub_slice = match buf.read_bytes(len as usize) {
        Ok(b) => b,
        Err(e) => {
            return Err(e);
        },
    };
    let ghost sub = s.subrange(n1, n1 + len as int);
    proof {
        assert(sub_slice@ =~= sub);
        assert(final(buf).rest() =~= s.skip(n1 + len as int));
    }
    let mut data_buf = Reader::new(sub_slice);
    match decode_protobuf_from(&mut data_buf) {
        Ok(d) => {
            match d {
                ProtoData::Message(msg) => {
                    if msg.len() > 0 {
                        result.push(ProtoData::Message(msg));
                        return Ok(result);
                    }
                },
                _ => {},
            }
        },
        Err(_) => {},
    }
    match utf8_to_string(sub_slice) {
        Some(text) => {
            result.push(ProtoData::String(text));
            return Ok(result);
        },
        None => {},
    }
    result.push(ProtoData::Bytes(vstd::slice::slice_to_vec(sub_slice)));
    Ok(result)
}

/// Decode one whole message from the cursor: read tags until a clean end
/// of buffer, dispatch payloads on their wire type, and coalesce repeated
/// occurrences of a field into one list. Any malformation aborts the
/// whole decode.
pub fn decode_protobuf_from<'a>(buf: &mut Reader<'a>) -> (r: Result<ProtoData, DecodeError>)
    requires
        old(buf).inv(),
    ensures
        final(buf).inv(),
        final(buf).all_bytes() == old(buf).all_bytes(),
        match r {
            Ok(d) => d matches ProtoData::Message(fm) && fm.wf() && spec_decode_msg(
                old(buf).rest(),
                Seq::empty(),
            ) == Ok::<Seq<(u64, ProtoVal)>, DecodeError>(fm.deep()) && final(buf).rest().len()
                == 0,
            Err(e) => spec_decode_msg(old(buf).rest(), Seq::empty()) == Err::<
                Seq<(u64, ProtoVal)>,
                DecodeError,
            >(e),
        },
    decreases old(buf).rest().len(),
{
    let ghost s0 = old(buf).rest();
    let mut parsed = FieldMap::new();
    loop
        invariant
            s0 == old(buf).rest(),
            buf.inv(),
            buf.all_bytes() == old(buf).all_bytes(),
            buf.rest().len() <= s0.len(),
            parsed.wf(),
            spec_decode_msg(s0, Seq::empty()) == spec_decode_msg(buf.rest(), parsed.deep()),
        decreases buf.rest().len(),
    {
        let ghost rest = buf.rest();
        let ghost dacc = parsed.deep();
        let (field, wire_type) = match read_tag(buf) {
            Ok(p) => p,
            Err(e) => {
                match e {
                    DecodeError::EOF => {
                        proof {
                            assert(rest.len() == 0);
                            assert(spec_decode_msg(rest, dacc) == Ok::<
                                Seq<(u64, ProtoVal)>,
                                DecodeError,
                            >(dacc));
                        }
                        return Ok(ProtoData::Message(parsed));
                    },
                    other => {
                        proof {
                            assert(spec_decode_msg(rest, dacc) == Err::<
                                Seq<(u64, ProtoVal)>,
                                DecodeError,
                            >(tag_err(rest)));
                        }
                        return Err(other);
                    },
                }
            },
        };
        let ghost s1 = buf.rest();
        proof {
            assert(rest.len() > 0);
            crate::varint::lemma_uvarint_end_bounds(rest);
            assert(buf.rest().len() < s0.len());
        }
        let data = match wire_type {
            WireType::VARINT => {
                match crate::varint::read_uvarint(buf) {
                    Ok(v) => ProtoData::Varint(v),
                    Err(_) => {
                        proof {
                            assert(spec_decode_msg(rest, dacc) == Err::<
                                Seq<(u64, ProtoVal)>,
                                DecodeError,
                            >(DecodeError::Error));
                        }
                        return Err(DecodeError::Error);
                    },
                }
            },
            WireType::I64 => {
                match crate::fixint::read_fix64(buf) {
                    Ok(v) => ProtoData::Fix64(v),
                    Err(_) => {
                        proof {
                            assert(spec_decode_msg(rest, dacc) == Err::<
                                Seq<(u64, ProtoVal)>,
                                DecodeError,
                            >(DecodeError::Error));
                        }
                        return Err(DecodeError::Error);
                    },
                }
            },
            WireType::I32 => {
                match crate::fixint::read_fix32(buf) {
                    Ok(v) => ProtoData::Fix32(v),
                    Err(_) => {
                        proof {
                            assert(spec_decode_msg(rest, dacc) == Err::<
                                Seq<(u64, ProtoVal)>,
                                DecodeError,
                            >(DecodeError::Error));
                        }
                        return Err(DecodeError::Error);
                    },
                }
            },
            WireType::LEN => {
                match read_length_delimited(buf) {
                    Ok(mut list) => {
                        match list.pop() {
                            Some(d) => d,
                            None => {
                                proof {
                                    assert(false);
                                }
                                return Err(DecodeError::Error);
                            },
                        }
                    },
                    Err(_) => {
                        proof {
                            assert(spec_decode_msg(rest, dacc) == Err::<
                                Seq<(u64, ProtoVal)>,
                                DecodeError,
                            >(DecodeError::Error));
                        }
                        return Err(DecodeError::Error);
                    },
                }
            },
            WireType::SGROUP => {
                proof {
                    assert(tag_code(rest) == 3);
                    assert(spec_decode_msg(rest, dacc) == Err::<
                        Seq<(u64, ProtoVal)>,
                        DecodeError,
                    >(DecodeError::DeprecatedWireType(WireType::SGROUP)));
                }
                return Err(DecodeError::DeprecatedWireType(WireType::SGROUP));
            },
            WireType::EGROUP => {
                proof {
                    assert(tag_code(rest) == 4);
                    assert(spec_decode_msg(rest, dacc) == Err::<
                        Seq<(u64, ProtoVal)>,
                        DecodeError,
                    >(DecodeError::DeprecatedWireType(WireType::EGROUP)));
                }
                return Err(DecodeError::DeprecatedWireType(WireType::EGROUP));
            },
        };
        proof {
            crate::varint::lemma_uvarint_end_bounds(rest);
            crate::varint::lemma_uvarint_end_bounds(s1);
            assert(spec_decode_msg(rest, dacc) == spec_decode_msg(
                buf.rest(),
                map_accumulate(dacc, field, data.deep()),
            ));
        }
        parsed.accumulate(field, data);
    }
}

/// Decode one whole message from a byte buffer.
pub fn decode_protobuf(data: &[u8]) -> (r: Result<ProtoData, DecodeError>)
    ensures
        match r {
            Ok(d) => d matches ProtoData::Message(fm) && fm.wf() && spec_decode_msg(
                data@,
                Seq::empty(),
            ) == Ok::<Seq<(u64, ProtoVal)>, DecodeError>(fm.deep()),
            Err(e) => spec_decode_msg(data@, Seq::empty()) == Err::<
                Seq<(u64, ProtoVal)>,
                DecodeError,
            >(e),
        },
{
    let mut reader = Reader::new(data);
    decode_protobuf_from(&mut reader)
}

/// The numeric value of one hex digit, or 16 where the character is none.
pub open spec fn hex_digit_val(c: char) -> nat {
    let u = c as u32;
    if ('0' as u32) <= u <= ('9' as u32) {
        (u - ('0' as u32)) as nat
    } else if ('a' as u32) <= u <= ('f' as u32) {
        (u - ('a' as u32) + 10) as nat
    } else if ('A' as u32) <= u <= ('F' as u32) {
        (u - ('A' as u32) + 10) as nat
    } else {
        16
    }
}

/// The text with its spaces removed.
pub open spec fn strip_spaces(s: Seq<char>) -> Seq<char> {
    s.filter(|c: char| c != ' ')
}

/// Every character is a hex digit.
pub open spec fn all_hex_digits(s: Seq<char>) -> bool {
    forall|i: int| 0 <= i < s.len() ==> hex_digit_val(#[trigger] s[i]) < 16
}

/// The bytes an even-length run of hex digits spells, two digits each.
pub open spec fn hex_bytes(h: Seq<char>) -> Seq<u8> {
    Seq::new(
        (h.len() / 2) as nat,
        |k: int| (16 * hex_digit_val(h[2 * k]) + hex_digit_val(h[2 * k + 1])) as u8,
    )
}

/// Executable counterpart of [`hex_digit_val`].
fn hex_digit(c: char) -> (v: u8)
    ensures
        v as nat == hex_digit_val(c),
{
    let u = c as u32;
    if 48 <= u && u <= 57 {
        (u - 48) as u8
    } else if 97 <= u && u <= 102 {
        (u - 97 + 10) as u8
    } else if 65 <= u && u <= 70 {
        (u - 65 + 10) as u8
    } else {
        16
    }
}

/// Turn hex text into bytes: spaces are ignored, the digits must pair up,
/// and anything else is rejected.
pub fn decode_hex(data: &str) -> (r: Result<Vec<u8>, DecodeError>)
    ensures
        ({
            let h = strip_spaces(data@);
            if all_hex_digits(h) && h.len() % 2 == 0 {
                r matches Ok(b) && b@ == hex_bytes(h)
            } else {
                r == Err::<Vec<u8>, DecodeError>(DecodeError::Error)
            }
        }),
{
    let n = data.unicode_len();
    let mut out: Vec<u8> = Vec::new();
    let mut pending: Option<u8> = None;
    let mut i: usize = 0;
    while i < n
        invariant
            data@.len() == n,
            0 <= i <= n,
            ({
                let h = strip_spaces(data@.take(i as int));
                all_hex_digits(h) && out@ == hex_bytes(h) && (match pending {
                    None => h.len() % 2 == 0,
                    Some(hi) => h.len() % 2 == 1 && hi < 16 && hi as nat == hex_digit_val(h.last()),
                })
            }),
        decreases n - i,
    {
        let ghost hpre = strip_spaces(data@.take(i as int));
        let ghost hfull = strip_spaces(data@);
        let c = data.get_char(i);
        proof {
            reveal(Seq::filter);
            assert(data@.take(i as int + 1).drop_last() =~= data@.take(i as int));
            assert(data@.take(i as int + 1).last() == c);
        }
        if c == ' ' {
            proof {
                assert(strip_spaces(data@.take(i as int + 1)) == hpre);
            }
        } else {
            proof {
                assert(strip_spaces(data@.take(i as int + 1)) == hpre.push(c));
            }
            let v = hex_digit(c);
            if v >= 16 {
                proof {
                    Seq::filter_distributes_over_add(
                        data@.take(i as int + 1),
                        data@.skip(i as int + 1),
                        |ch: char| ch != ' ',
                    );
                    assert(data@.take(i as int + 1) + data@.skip(i as int + 1) =~= data@);
                    assert(hfull == hpre.push(c) + strip_spaces(data@.skip(i as int + 1)));
                    assert(hfull[hpre.len() as int] == c);
                    assert(!all_hex_digits(hfull));
                }
                return Err(DecodeError::Error);
            }
            match pending {
                None => {
                    pending = Some(v);
                    proof {
                        let h2 = hpre.push(c);
                        assert(h2.last() == c);
                        assert(hex_bytes(h2) =~= hex_bytes(hpre));
                    }
                },
                Some(hi) => {
                    out.push(hi * 16 + v);
                    pending = None;
                    proof {
                        let h2 = hpre.push(c);
                        assert(h2[h2.len() - 2] == hpre.last() && h2[h2.len() - 1] == c);
                        assert(out@ =~= hex_bytes(h2));
                    }
                },
            }
        }
        i = i + 1;
    }
    proof {
        assert(data@.take(n as int) =~= data@);
    }
    match pending {
        None => Ok(out),
        Some(_) => Err(DecodeError::Error),
    }
}

/// Convenience entry point: decode a message given as hex text, spaces
/// permitted and ignored.
pub fn decode_protobuf_hex(data: &str) -> (r: Result<ProtoData, DecodeError>)
    ensures
        ({
            let h = strip_spaces(data@);
            if all_hex_digits(h) && h.len() % 2 == 0 {
                match r {
                    Ok(d) => d matches ProtoData::Message(fm) && fm.wf() && spec_decode_msg(
                        hex_bytes(h),
                        Seq::empty(),
                    ) == Ok::<Seq<(u64, ProtoVal)>, DecodeError>(fm.deep()),
                    Err(e) => spec_decode_msg(hex_bytes(h), Seq::empty()) == Err::<
                        Seq<(u64, ProtoVal)>,
                        DecodeError,
                    >(e),
                }
            } else {
                r == Err::<ProtoData, DecodeError>(DecodeError::Error)
            }
        }),
{
    let bytes = match decode_hex(data) {
        Ok(b) => b,
        Err(e) => {
            return Err(e);
        },
    };
    decode_protobuf(bytes.as_slice())
}

impl From<u8> for ProtoData {
    /// Integers convert to `Varint` by their raw bit pattern.
    fn from(v: u8) -> (r: ProtoData) {
        ProtoData::Varint(v as u64)
    }
}

impl vstd::std_specs::convert::FromSpecImpl<u8> for ProtoData {
    open spec fn obeys_from_spec() -> bool {
        true
    }

    open spec fn from_spec(v: u8) -> ProtoData {
        ProtoData::Varint(v as u64)
    }
}

impl From<u16> for ProtoData {
    /// Integers convert to `Varint` by their raw bit pattern.
    fn from(v: u16) -> (r: ProtoData) {
        ProtoData::Varint(v as u64)
    }
}

impl vstd::std_specs::convert::FromSpecImpl<u16> for ProtoData {
    open spec fn obeys_from_spec() -> bool {
        true
    }

    open spec fn from_spec(v: u16) -> ProtoData {
        ProtoData::Varint(v as u64)
    }
}

impl From<u32> for ProtoData {
    /// Integers convert to `Varint` by their raw bit pattern.
    fn from(v: u32) -> (r: ProtoData) {
        ProtoData::Varint(v as u64)
    }
}

impl vstd::std_specs::convert::FromSpecImpl<u32> for ProtoData {
    open spec fn obeys_from_spec() -> bool {
        true
    }

    open spec fn from_spec(v: u32) -> ProtoData {
        ProtoData::Varint(v as u64)
    }
}

impl From<u64> for ProtoData {
    /// Integers convert to `Varint` by their raw bit pattern.
    fn from(v: u64) -> (r: ProtoData) {
        ProtoData::Varint(v)
    }
}

impl vstd::std_specs::convert::FromSpecImpl<u64> for ProtoData {
    open spec fn obeys_from_spec() -> bool {
        true
    }

    open spec fn from_spec(v: u64) -> ProtoData {
        ProtoData::Varint(v)
    }
}

impl From<i8> for ProtoData {
    /// Signed integers sign-extend into the raw 64-bit pattern; no
    /// zig-zag mapping is applied here.
    fn from(v: i8) -> (r: ProtoData) {
        ProtoData::Varint(v as u64)
    }
}

impl vstd::std_specs::convert::FromSpecImpl<i8> for ProtoData {
    open spec fn obeys_from_spec() -> bool {
        true
    }

    open spec fn from_spec(v: i8) -> ProtoData {
        ProtoData::Varint(v as u64)
    }
}

impl From<i16> for ProtoData {
    /// Signed integers sign-extend into the raw 64-bit pattern; no
    /// zig-zag mapping is applied here.
    fn from(v: i16) -> (r: ProtoData) {
        ProtoData::Varint(v as u64)
    }
}

impl vstd::std_specs::convert::FromSpecImpl<i16> for ProtoData {
    open spec fn obeys_from_spec() -> bool {
        true
    }

    open spec fn from_spec(v: i16) -> ProtoData {
        ProtoData::Varint(v as u64)
    }
}

impl From<i32> for ProtoData {
    /// Signed integers sign-extend into the raw 64-bit pattern; no
    /// zig-zag mapping is applied here.
    fn from(v: i32) -> (r: ProtoData) {
        ProtoData::Varint(v as u64)
    }
}

impl vstd::std_specs::convert::FromSpecImpl<i32> for ProtoData {
    open spec fn obeys_from_spec() -> bool {
        true
    }

    open spec fn from_spec(v: i32) -> ProtoData {
        ProtoData::Varint(v as u64)
    }
}

impl From<i64> for ProtoData {
    /// Signed integers sign-extend into the raw 64-bit pattern; no
    /// zig-zag mapping is applied here.
    fn from(v: i64) -> (r: ProtoData) {
        ProtoData::Varint(v as u64)
    }
}

impl vstd::std_specs::convert::FromSpecImpl<i64> for ProtoData {
    open spec fn obeys_from_spec() -> bool {
        true
    }

    open spec fn from_spec(v: i64) -> ProtoData {
        ProtoData::Varint(v as u64)
    }
}

impl From<bool> for ProtoData {
    /// Booleans convert to `Varint(1)` or `Varint(0)`.
    fn from(v: bool) -> (r: ProtoData) {
        if v {
            ProtoData::Varint(1)
        } else {
            ProtoData::Varint(0)
        }
    }
}

impl vstd::std_specs::convert::FromSpecImpl<bool> for ProtoData {
    open spec fn obeys_from_spec() -> bool {
        true
    }

    open spec fn from_spec(v: bool) -> ProtoData {
        if v {
            ProtoData::Varint(1)
        } else {
            ProtoData::Varint(0)
        }
    }
}

impl From<String> for ProtoData {
    /// Text converts to `String`.
    fn from(v: String) -> (r: ProtoData) {
        ProtoData::String(v)
    }
}

impl vstd::std_specs::convert::FromSpecImpl<String> for ProtoData {
    open spec fn obeys_from_spec() -> bool {
        true
    }

    open spec fn from_spec(v: String) -> ProtoData {
        ProtoData::String(v)
    }
}

impl<'a> From<&'a str> for ProtoData {
    /// Text converts to `String`. A borrowed string is copied, and the
    /// copy cannot be named in a specification, so nothing is promised of
    /// this conversion.
    fn from(v: &'a str) -> (r: ProtoData) {
        ProtoData::String(v.to_owned())
    }
}

impl<'a> vstd::std_specs::convert::FromSpecImpl<&'a str> for ProtoData {
    open spec fn obeys_from_spec() -> bool {
        false
    }

    open spec fn from_spec(v: &'a str) -> ProtoData {
        ProtoData::Varint(0)
    }
}

impl From<Vec<u8>> for ProtoData {
    /// Byte buffers convert to `Bytes`.
    fn from(v: Vec<u8>) -> (r: ProtoData) {
        ProtoData::Bytes(v)
    }
}

impl vstd::std_specs::convert::FromSpecImpl<Vec<u8>> for ProtoData {
    open spec fn obeys_from_spec() -> bool {
        true
    }

    open spec fn from_spec(v: Vec<u8>) -> ProtoData {
        ProtoData::Bytes(v)
    }
}

impl From<Vec<ProtoData>> for ProtoData {
    /// Value lists convert to `Repeated`.
    fn from(v: Vec<ProtoData>) -> (r: ProtoData) {
        ProtoData::Repeated(v)
    }
}

impl vstd::std_specs::convert::FromSpecImpl<Vec<ProtoData>> for ProtoData {
    open spec fn obeys_from_spec() -> bool {
        true
    }

    open spec fn from_spec(v: Vec<ProtoData>) -> ProtoData {
        ProtoData::Repeated(v)
    }
}

impl From<FieldMap> for ProtoData {
    /// A field map converts to `Message`.
    fn from(v: FieldMap) -> (r: ProtoData) {
        ProtoData::Message(v)
    }
}

impl vstd::std_specs::convert::FromSpecImpl<FieldMap> for ProtoData {
    open spec fn obeys_from_spec() -> bool {
        true
    }

    open spec fn from_spec(v: FieldMap) -> ProtoData {
        ProtoData::Message(v)
    }
}

/// A LEN payload of length zero decodes to an empty message: no decode
/// failure, and no re-entry into the decode loop.
pub proof fn lemma_zero_length_payload(s: Seq<u8>)
    requires
        uvarint_ok(s),
        uvarint_value(s) == 0,
    ensures
        len_payload_res(s) == Ok::<(ProtoVal, int), DecodeError>(
            (ProtoVal::Message(Seq::empty()), uvarint_end(s)),
        ),
{
}

/// Disambiguation priority: a LEN payload that decodes as a syntactically
/// valid, non-empty message classifies as `Message`, never as `Str` or
/// `Bytes`, whatever else the bytes would pass for.
pub proof fn lemma_message_tier_priority(sub: Seq<u8>, m: Seq<(u64, ProtoVal)>)
    requires
        spec_decode_msg(sub, Seq::empty()) == Ok::<Seq<(u64, ProtoVal)>, DecodeError>(m),
        m.len() > 0,
    ensures
        spec_classify_payload(sub) == ProtoVal::Message(m),
        !(spec_classify_payload(sub) is Str),
        !(spec_classify_payload(sub) is Bytes),
{
}

/// Three occurrences of one field accumulate into a single flat
/// three-element repeated list, in arrival order.
pub proof fn lemma_repeated_field_accumulation(f: u64, a: ProtoVal, b: ProtoVal, c: ProtoVal)
    requires
        !(a is Repeated),
    ensures
        map_accumulate(
            map_accumulate(map_accumulate(Seq::empty(), f, a), f, b),
            f,
            c,
        ) == seq![(f, ProtoVal::Repeated(seq![a, b, c]))],
{
    let m1 = map_accumulate(Seq::empty(), f, a);
    assert(m1 =~= seq![(f, a)]);
    let m2 = map_accumulate(m1, f, b);
    assert(merge_occurrence(a, b) == ProtoVal::Repeated(seq![a, b]));
    assert(m2 =~= seq![(f, ProtoVal::Repeated(seq![a, b]))]);
    let m3 = map_accumulate(m2, f, c);
    assert(merge_occurrence(ProtoVal::Repeated(seq![a, b]), c) == ProtoVal::Repeated(
        seq![a, b].push(c),
    ));
    assert(seq![a, b].push(c) =~= seq![a, b, c]);
    assert(m3 =~= seq![(f, ProtoVal::Repeated(seq![a, b, c]))]);
}

/// A repeated list with two elements of different shapes has no wire
/// representation: encoding it fails with the data error.
pub proof fn lemma_encode_rejects_mixed_repeated(l: Seq<ProtoVal>, i: int, j: int)
    requires
        0 <= i < l.len(),
        0 <= j < l.len(),
        val_kind(l[i]) != val_kind(l[j]),
    ensures
        !encodable(ProtoVal::Repeated(l)),
{
    assert(ProtoVal::Repeated(l)->Repeated_0 == l);
    if encodable(ProtoVal::Repeated(l)) {
        assert(val_kind(l[i]) == val_kind(l[0]));
        assert(val_kind(l[j]) == val_kind(l[0]));
    }
}

/// A repeated list holding another repeated list has no wire
/// representation: encoding it fails with the data error.
pub proof fn lemma_encode_rejects_nested_repeated(l: Seq<ProtoVal>, i: int)
    requires
        0 <= i < l.len(),
        l[i] is Repeated,
    ensures
        !encodable(ProtoVal::Repeated(l)),
{
    assert(ProtoVal::Repeated(l)->Repeated_0 == l);
    if encodable(ProtoVal::Repeated(l)) {
        assert(!(l[i] is Repeated));
    }
}

/// An empty repeated list is encodable and contributes no bytes at all:
/// the field is omitted entirely.
pub proof fn lemma_encode_empty_repeated(field: u64)
    ensures
        encodable(ProtoVal::Repeated(Seq::empty())),
        field_bytes(field, ProtoVal::Repeated(Seq::empty())) == Seq::<u8>::empty(),
{
    assert(ProtoVal::Repeated(Seq::<ProtoVal>::empty())->Repeated_0 == Seq::<ProtoVal>::empty());
}

/// The value stored under a key, scanning the entries in order.
pub open spec fn map_get(m: Seq<(u64, ProtoVal)>, k: u64) -> Option<ProtoVal>
    decreases m.len(),
{
    if m.len() == 0 {
        None
    } else if m[0].0 == k {
        Some(m[0].1)
    } else {
        map_get(m.drop_first(), k)
    }
}

/// The first entry carrying the key determines `map_get`.
proof fn lemma_map_get_at(m: Seq<(u64, ProtoVal)>, k: u64, i: int)
    requires
        0 <= i < m.len(),
        m[i].0 == k,
        forall|j: int| 0 <= j < i ==> (#[trigger] m[j]).0 != k,
    ensures
        map_get(m, k) == Some(m[i].1),
    decreases i,
{
    if i > 0 {
        let t = m.drop_first();
        assert(m[0].0 != k);
        assert(t[i - 1] == m[i]);
        assert forall|j: int| 0 <= j < i - 1 implies (#[trigger] t[j]).0 != k by {
            assert(t[j] == m[j + 1]);
        }
        lemma_map_get_at(t, k, i - 1);
    }
}

/// A key no entry carries is absent.
proof fn lemma_map_get_none(m: Seq<(u64, ProtoVal)>, k: u64)
    requires
        forall|j: int| 0 <= j < m.len() ==> (#[trigger] m[j]).0 != k,
    ensures
        map_get(m, k) is None,
    decreases m.len(),
{
    if m.len() > 0 {
        let t = m.drop_first();
        assert forall|j: int| 0 <= j < t.len() implies (#[trigger] t[j]).0 != k by {
            assert(t[j] == m[j + 1]);
        }
        lemma_map_get_none(t, k);
    }
}

impl FieldMap {
    /// Look one field up by its number.
    pub fn get(&self, field: u64) -> (r: Option<&ProtoData>)
        ensures
            match r {
                Some(v) => map_get(self.deep(), field) == Some(v.deep()),
                None => map_get(self.deep(), field) is None,
            },
    {
        let ghost dm = self.deep();
        let mut i: usize = 0;
        while i < self.entries.len()
            invariant
                0 <= i <= self.entries@.len(),
                dm == self.deep(),
                dm.len() == self.entries@.len(),
                forall|j: int| 0 <= j < i ==> (#[trigger] dm[j]).0 != field,
            decreases self.entries@.len() - i,
        {
            let entry = &self.entries[i];
            proof {
                assert(dm[i as int] == (entry.key, entry.value.deep()));
            }
            if entry.key == field {
                proof {
                    lemma_map_get_at(dm, field, i as int);
                }
                return Some(&entry.value);
            }
            i = i + 1;
        }
        proof {
            lemma_map_get_none(dm, field);
        }
        None
    }
}

/// Plain insertion changes the stored mapping at exactly the inserted key.
pub proof fn lemma_map_insert_get(m: Seq<(u64, ProtoVal)>, k: u64, v: ProtoVal, x: u64)
    ensures
        map_get(map_insert(m, k, v), x) == if x == k {
            Some(v)
        } else {
            map_get(m, x)
        },
    decreases m.len(),
{
    let r = map_insert(m, k, v);
    if m.len() == 0 {
        assert(r == seq![(k, v)]);
        assert(r[0] == (k, v));
        assert(r.drop_first() =~= Seq::<(u64, ProtoVal)>::empty());
        assert(map_get(r.drop_first(), x) is None);
    } else if k < m[0].0 {
        assert(r == seq![(k, v)] + m);
        assert(r[0] == (k, v));
        assert(r.drop_first() =~= m);
    } else if k == m[0].0 {
        assert(r == seq![(k, v)] + m.drop_first());
        assert(r[0] == (k, v));
        assert(r.drop_first() =~= m.drop_first());
    } else {
        assert(r == seq![m[0]] + map_insert(m.drop_first(), k, v));
        assert(r[0] == m[0]);
        assert(r.drop_first() =~= map_insert(m.drop_first(), k, v));
        lemma_map_insert_get(m.drop_first(), k, v, x);
    }
}

/// Keys below the first entry of a sorted map are absent.
proof fn lemma_map_get_below(m: Seq<(u64, ProtoVal)>, k: u64)
    requires
        map_wf(m),
        m.len() > 0 ==> k < m[0].0,
    ensures
        map_get(m, k) is None,
    decreases m.len(),
{
    if m.len() > 0 {
        let t = m.drop_first();
        assert forall|i: int, j: int| 0 <= i < j < t.len() implies t[i].0 < t[j].0 by {
            assert(t[i] == m[i + 1] && t[j] == m[j + 1]);
        }
        if t.len() > 0 {
            assert(t[0] == m[1]);
            assert(m[0].0 < m[1].0);
        }
        lemma_map_get_below(t, k);
    }
}

/// Field-order normalization: a well-formed map is a canonical function
/// of the key-to-value mapping it stores. Two well-formed maps that store
/// the same mapping are the same sequence of entries, so the bytes a map
/// encodes to cannot depend on the order its fields were inserted in.
pub proof fn lemma_map_canonical(a: Seq<(u64, ProtoVal)>, b: Seq<(u64, ProtoVal)>)
    requires
        map_wf(a),
        map_wf(b),
        forall|x: u64| #[trigger] map_get(a, x) == map_get(b, x),
    ensures
        a == b,
    decreases a.len() + b.len(),
{
    if a.len() == 0 && b.len() == 0 {
        assert(a =~= b);
    } else if a.len() == 0 {
        assert(map_get(b, b[0].0) == Some(b[0].1));
        assert(map_get(a, b[0].0) is None);
    } else if b.len() == 0 {
        assert(map_get(a, a[0].0) == Some(a[0].1));
        assert(map_get(b, a[0].0) is None);
    } else {
        let ta = a.drop_first();
        let tb = b.drop_first();
        assert forall|i: int, j: int| 0 <= i < j < ta.len() implies ta[i].0 < ta[j].0 by {
            assert(ta[i] == a[i + 1] && ta[j] == a[j + 1]);
        }
        assert forall|i: int, j: int| 0 <= i < j < tb.len() implies tb[i].0 < tb[j].0 by {
            assert(tb[i] == b[i + 1] && tb[j] == b[j + 1]);
        }
        assert(a[0].0 == b[0].0) by {
            if a[0].0 < b[0].0 {
                lemma_map_get_below(b, a[0].0);
                assert(map_get(a, a[0].0) == Some(a[0].1));
            } else if b[0].0 < a[0].0 {
                lemma_map_get_below(a, b[0].0);
                assert(map_get(b, b[0].0) == Some(b[0].1));
            }
        }
        assert(a[0].1 == b[0].1) by {
            assert(map_get(a, a[0].0) == Some(a[0].1));
            assert(map_get(b, b[0].0) == Some(b[0].1));
        }
        assert forall|x: u64| #[trigger] map_get(ta, x) == map_get(tb, x) by {
            if x == a[0].0 {
                if ta.len() > 0 {
                    assert(ta[0] == a[1]);
                    assert(x < ta[0].0);
                }
                if tb.len() > 0 {
                    assert(tb[0] == b[1]);
                    assert(x < tb[0].0);
                }
                lemma_map_get_below(ta, x);
                lemma_map_get_below(tb, x);
            } else {
                assert(map_get(a, x) == map_get(ta, x));
                assert(map_get(b, x) == map_get(tb, x));
            }
        }
        lemma_map_canonical(ta, tb);
        assert(a.len() == b.len());
        assert forall|i: int| 0 <= i < a.len() implies a[i] == b[i] by {
            if i > 0 {
                assert(a[i] == ta[i - 1] && b[i] == tb[i - 1]);
            }
        }
        assert(a =~= b);
    }
}

/// Field-order normalization, concretely: inserting a higher-numbered
/// field first and a lower-numbered one second still encodes the lower
/// field's bytes first.
pub proof fn lemma_field_order_normalization(kh: u64, vh: ProtoVal, kl: u64, vl: ProtoVal)
    requires
        kl < kh,
    ensures
        map_insert(map_insert(Seq::empty(), kh, vh), kl, vl) == seq![(kl, vl), (kh, vh)],
        msg_bytes(map_insert(map_insert(Seq::empty(), kh, vh), kl, vl)) == field_bytes(kl, vl)
            + field_bytes(kh, vh),
{
    let m1 = map_insert(Seq::empty(), kh, vh);
    assert(m1 =~= seq![(kh, vh)]);
    let m2 = map_insert(m1, kl, vl);
    assert(m2 =~= seq![(kl, vl), (kh, vh)]);
    let tail = m2.drop_first();
    assert(tail =~= seq![(kh, vh)]);
    assert(tail.drop_first() =~= Seq::<(u64, ProtoVal)>::empty());
    assert(msg_bytes(Seq::<(u64, ProtoVal)>::empty()) == Seq::<u8>::empty());
    assert(msg_bytes(tail) =~= field_bytes(kh, vh));
    assert(msg_bytes(m2) =~= field_bytes(kl, vl) + field_bytes(kh, vh));
}

/// Accumulating a key above every stored key appends its entry at the end.
proof fn lemma_map_accumulate_append(m: Seq<(u64, ProtoVal)>, k: u64, v: ProtoVal)
    requires
        forall|i: int| 0 <= i < m.len() ==> (#[trigger] m[i]).0 < k,
    ensures
        map_accumulate(m, k, v) == m.push((k, v)),
    decreases m.len(),
{
    if m.len() == 0 {
        assert(map_accumulate(m, k, v) =~= m.push((k, v)));
    } else {
        let t = m.drop_first();
        assert forall|i: int| 0 <= i < t.len() implies (#[trigger] t[i]).0 < k by {
            assert(t[i] == m[i + 1]);
        }
        lemma_map_accumulate_append(t, k, v);
        assert(seq![m[0]] + t.push((k, v)) =~= m.push((k, v)));
    }
}

/// The map that `k` occurrences of one field leave behind, accumulated in
/// arrival order from an empty map.
pub open spec fn accumulate_run(f: u64, vs: Seq<ProtoVal>) -> Seq<(u64, ProtoVal)>
    decreases vs.len(),
{
    if vs.len() == 0 {
        Seq::empty()
    } else {
        map_accumulate(accumulate_run(f, vs.drop_last()), f, vs.last())
    }
}

/// Repeated-field accumulation in general: any two or more occurrences of
/// one field, none itself a repeated list, coalesce into a single flat
/// repeated list holding the values in arrival order — never separate
/// entries, never re-wrapped nesting.
pub proof fn lemma_accumulate_run_repeated(f: u64, vs: Seq<ProtoVal>)
    requires
        vs.len() >= 2,
        forall|i: int| 0 <= i < vs.len() ==> !((#[trigger] vs[i]) is Repeated),
    ensures
        accumulate_run(f, vs) == seq![(f, ProtoVal::Repeated(vs))],
    decreases vs.len(),
{
    let prior = vs.drop_last();
    if vs.len() == 2 {
        assert(accumulate_run(f, prior) =~= seq![(f, vs[0])]) by {
            assert(prior.drop_last() =~= Seq::<ProtoVal>::empty());
            assert(accumulate_run(f, Seq::<ProtoVal>::empty()) == Seq::<(u64, ProtoVal)>::empty());
            assert(prior.last() == vs[0]);
            assert(map_accumulate(Seq::empty(), f, vs[0]) =~= seq![(f, vs[0])]);
        }
        assert(!(vs[0] is Repeated));
        assert(merge_occurrence(vs[0], vs.last()) == ProtoVal::Repeated(seq![vs[0], vs[1]]));
        assert(seq![vs[0], vs[1]] =~= vs);
        assert(accumulate_run(f, vs) =~= seq![(f, ProtoVal::Repeated(vs))]);
    } else {
        assert forall|i: int| 0 <= i < prior.len() implies !((#[trigger] prior[i]) is Repeated) by {
            assert(prior[i] == vs[i]);
        }
        lemma_accumulate_run_repeated(f, prior);
        assert(merge_occurrence(ProtoVal::Repeated(prior), vs.last()) == ProtoVal::Repeated(
            prior.push(vs.last()),
        ));
        assert(prior.push(vs.last()) =~= vs);
        assert(accumulate_run(f, vs) =~= seq![(f, ProtoVal::Repeated(vs))]);
    }
}

/// Parsing the encoding of a tag recovers the field number and the wire
/// code, for field numbers small enough that the tag does not wrap.
proof fn lemma_tag_round_trip(field: u64, code: u64, t: Seq<u8>)
    requires
        field < 0x2000000000000000,
        code <= 5,
    ensures
        ({
            let s = tag_bytes(field, code) + t;
            tag_ok(s) && tag_field(s) == field && tag_code(s) == code && uvarint_end(s)
                == tag_bytes(field, code).len() && s.skip(uvarint_end(s)) == t
        }),
{
    let tv = tag_val(field, code);
    assert(tv == field * 8 + code) by {
        vstd::arithmetic::div_mod::lemma_small_mod((field * 8) as nat, 0x10000000000000000);
    }
    crate::varint::lemma_uvarint_round_trip(tv);
    crate::varint::lemma_uvarint_prefix(uvarint_bytes(tv), t);
    let enc = tag_bytes(field, code);
    let s = enc + t;
    assert(tv / 8 == field && tv % 8 == code) by {
        vstd::arithmetic::div_mod::lemma_div_multiples_vanish_fancy(
            field as int,
            code as int,
            8,
        );
        vstd::arithmetic::div_mod::lemma_mod_multiples_vanish(field as int, code as int, 8);
        vstd::arithmetic::div_mod::lemma_small_mod(code as nat, 8);
    }
    assert(enc.skip(enc.len() as int) + t =~= t);
}

/// Every value of `m` is a bare scalar: a varint or a fixed-width integer.
pub open spec fn all_scalars(m: Seq<(u64, ProtoVal)>) -> bool {
    forall|i: int| 0 <= i < m.len() ==> val_kind((#[trigger] m[i]).1) <= 2
}

/// Every field number of `m` fits a wire tag without wrapping.
pub open spec fn all_tag_sized(m: Seq<(u64, ProtoVal)>) -> bool {
    forall|i: int| 0 <= i < m.len() ==> (#[trigger] m[i]).0 < 0x2000000000000000
}

/// The induction behind the scalar round trip: decoding the encoding of a
/// scalar message, with `acc` already gathered and every gathered key
/// below every encoded one, appends exactly the encoded entries.
proof fn lemma_scalar_decode_steps(m: Seq<(u64, ProtoVal)>, acc: Seq<(u64, ProtoVal)>)
    requires
        map_wf(acc + m),
        all_scalars(m),
        all_tag_sized(m),
    ensures
        spec_decode_msg(msg_bytes(m), acc) == Ok::<Seq<(u64, ProtoVal)>, DecodeError>(acc + m),
    decreases m.len(),
{
    if m.len() == 0 {
        assert(msg_bytes(m) =~= Seq::<u8>::empty());
        assert(acc + m =~= acc);
    } else {
        let k0 = m[0].0;
        let v0 = m[0].1;
        let c = val_wire_code(v0);
        let m2 = m.drop_first();
        let payload = match v0 {
            ProtoVal::Varint(x) => uvarint_bytes(x),
            ProtoVal::Fix64(x) => fix64_bytes(x),
            ProtoVal::Fix32(x) => fix32_bytes(x),
            _ => Seq::empty(),
        };
        assert(field_bytes(k0, v0) == tag_bytes(k0, c) + payload);
        let s = msg_bytes(m);
        let t = payload + msg_bytes(m2);
        assert(s =~= tag_bytes(k0, c) + t);
        assert(k0 < 0x2000000000000000 && c <= 5);
        lemma_tag_round_trip(k0, c, t);
        assert(s.len() > 0) by {
            crate::varint::lemma_uvarint_round_trip(tag_val(k0, c));
        }
        let s1 = s.skip(uvarint_end(s));
        assert(s1 == t);
        // The payload parses back to the stored scalar, leaving the rest.
        let consumed: int = match v0 {
            ProtoVal::Varint(x) => {
                crate::varint::lemma_uvarint_round_trip(x);
                crate::varint::lemma_uvarint_prefix(uvarint_bytes(x), msg_bytes(m2));
                assert(uvarint_bytes(x).skip(uvarint_end(uvarint_bytes(x))) =~= Seq::<u8>::empty());
                assert(Seq::<u8>::empty() + msg_bytes(m2) =~= msg_bytes(m2));
                uvarint_end(s1)
            },
            ProtoVal::Fix64(x) => {
                crate::fixint::lemma_fix64_round_trip(x);
                crate::fixint::lemma_fix64_val_prefix(fix64_bytes(x), msg_bytes(m2));
                assert(s1.skip(8) =~= msg_bytes(m2));
                8
            },
            ProtoVal::Fix32(x) => {
                crate::fixint::lemma_fix32_round_trip(x);
                crate::fixint::lemma_fix32_val_prefix(fix32_bytes(x), msg_bytes(m2));
                assert(s1.skip(4) =~= msg_bytes(m2));
                4
            },
            _ => 0,
        };
        assert(s1.skip(consumed) == msg_bytes(m2));
        // The fresh field number lies above every gathered key.
        assert forall|i: int| 0 <= i < acc.len() implies (#[trigger] acc[i]).0 < k0 by {
            assert((acc + m)[i] == acc[i]);
            assert((acc + m)[acc.len() as int] == m[0]);
        }
        lemma_map_accumulate_append(acc, k0, v0);
        let acc2 = acc.push((k0, v0));
        assert(acc2 + m2 =~= acc + m);
        assert forall|i: int| 0 <= i < m2.len() implies val_kind((#[trigger] m2[i]).1) <= 2
            && m2[i].0 < 0x2000000000000000 by {
            assert(m2[i] == m[i + 1]);
        }
        lemma_scalar_decode_steps(m2, acc2);
        assert(spec_decode_msg(s, acc) == spec_decode_msg(msg_bytes(m2), acc2));
    }
}

/// Scalar encode-decode identity: decoding the encoding of a well-formed
/// message whose values are all bare scalars and whose field numbers fit a
/// wire tag yields exactly that message back. (A field number of 2^61 or
/// more wraps in the tag and cannot round-trip.)
pub proof fn lemma_scalar_message_round_trip(m: Seq<(u64, ProtoVal)>)
    requires
        map_wf(m),
        all_scalars(m),
        all_tag_sized(m),
    ensures
        spec_decode_msg(msg_bytes(m), Seq::empty()) == Ok::<Seq<(u64, ProtoVal)>, DecodeError>(m),
{
    assert(Seq::<(u64, ProtoVal)>::empty() + m =~= m);
    lemma_scalar_decode_steps(m, Seq::empty());
}

} // verus!
