//! Properties that relate the encoder, the decoders and the length codec.
use vstd::prelude::*;
use vstd::utf8::{char_is_scalar, char_u32_cast, encode_utf8_decode_utf8, encode_utf8_valid_utf8};

use crate::de::{
    dec_check, dec_message, decodes_message, decodes_to, elem_bytes, elem_kinds, elem_offset,
    elems_check, elems_decode, field_index, fields_decode, lemma_field_index,
    lemma_fields_decode, lemma_first_missing, lemma_tuple_width_prefix, lemma_tuple_width_repeat,
    message_content, no_slots, record_check, record_decodes, repeat, scalar_value, tuple_width,
    walk,
};
use crate::checksum::{checksum_header, CheckSumCalc, CHECKSUM_KEY};
use crate::de::checksum_check;
use crate::error::{Error, KeyError};
use crate::raw::{raw_walk, universal_key_len_of, RawRecord};
use crate::ser::{enc_message_with_checksum, framed_for_checksum, lemma_enc_fields_err_extends};
use crate::uasdls::{bcc, bcc_term, CRC};
use crate::length::{
    be_bytes, be_value, decode_length, encode_length, lemma_be_round_trip, lemma_length_round_trip,
    lemma_pow256_values, valid_universal_key_len,
};
use crate::value::{
    enc_fields, enc_list, enc_message, enc_value, is_written, key_written, scalar_bytes,
    scalar_width, Field, FieldKind, Kind, Message, Scalar, Schema, Value,
};

verus! {

/// `v` is a value of the scalar type `s`.
pub open spec fn is_scalar_of(v: Value, s: Scalar) -> bool {
    match s {
        Scalar::Bool => v is Bool,
        Scalar::U8 => v is U8,
        Scalar::U16 => v is U16,
        Scalar::U32 => v is U32,
        Scalar::U64 => v is U64,
        Scalar::I8 => v is I8,
        Scalar::I16 => v is I16,
        Scalar::I32 => v is I32,
        Scalar::I64 => v is I64,
        Scalar::Char => v is Char,
    }
}

/// A scalar read back from its own bytes is the scalar written.
pub proof fn lemma_scalar_round_trip(v: Value, s: Scalar)
    requires
        is_scalar_of(v, s),
    ensures
        scalar_bytes(v).len() == scalar_width(s),
        scalar_value(s, scalar_bytes(v)) == Ok::<Value, Error>(v),
{
    lemma_pow256_values();
    match v {
        Value::Bool(b) => {
            let x: nat = if b { 1 } else { 0 };
            reveal_with_fuel(be_value, 2);
            assert(scalar_bytes(v).drop_last() =~= Seq::<u8>::empty());
        },
        Value::U8(x) => {
            lemma_be_round_trip(x as nat, 1);
        },
        Value::U16(x) => {
            lemma_be_round_trip(x as nat, 2);
        },
        Value::U32(x) => {
            lemma_be_round_trip(x as nat, 4);
        },
        Value::U64(x) => {
            lemma_be_round_trip(x as nat, 8);
        },
        Value::I8(x) => {
            lemma_be_round_trip((x as u8) as nat, 1);
            assert(((x as u8) as i8) == x) by (bit_vector);
        },
        Value::I16(x) => {
            lemma_be_round_trip((x as u16) as nat, 2);
            assert(((x as u16) as i16) == x) by (bit_vector);
        },
        Value::I32(x) => {
            lemma_be_round_trip((x as u32) as nat, 4);
            assert(((x as u32) as i32) == x) by (bit_vector);
        },
        Value::I64(x) => {
            lemma_be_round_trip((x as u64) as nat, 8);
            assert(((x as u64) as i64) == x) by (bit_vector);
        },
        Value::Char(c) => {
            lemma_be_round_trip((c as u32) as nat, 4);
            char_is_scalar(c);
            char_u32_cast(c, c as u32);
        },
        _ => {},
    }
}

/// `v` is a value that `kind` describes and that survives a round trip: an
/// optional value that is there must not encode to nothing (else it reads back
/// as absent), and record fields follow their descriptions.
pub open spec fn conforms(v: Value, kind: Kind) -> bool
    decreases kind, 0int,
{
    match kind {
        Kind::Scalar(s) => is_scalar_of(v, s),
        Kind::Str => v is Str,
        Kind::Bytes => v is Bytes,
        Kind::Unit => v is Unit,
        Kind::Opt(k) => {
            ||| v is Absent
            ||| {
                &&& v is Present
                &&& conforms(*v->Present_0, *k)
                &&& enc_value(*v->Present_0) is Ok
                &&& enc_value(*v->Present_0)->Ok_0.len() > 0
            }
        },
        Kind::Sequence(s) => v is List && forall|i: int|
            0 <= i < v->List_0@.len() ==> is_scalar_of(#[trigger] v->List_0@[i], s),
        Kind::Tuple(ss) => v is List && v->List_0@.len() == ss@.len() && forall|i: int|
            0 <= i < ss@.len() ==> is_scalar_of(#[trigger] v->List_0@[i], ss@[i]),
        Kind::Record(fks) => v is Record && keys_distinct(fks@) && fields_conform(
            v->Record_0@,
            fks@,
        ),
    }
}

/// No two fields share a key.
pub open spec fn keys_distinct(fks: Seq<FieldKind>) -> bool {
    forall|i: int, j: int| 0 <= i < j < fks.len() ==> fks[i].key != fks[j].key
}

/// Each field has its description's key (within 0..=255) and skip flag, and
/// a value the description's kind describes.
pub open spec fn fields_conform(fs: Seq<Field>, fks: Seq<FieldKind>) -> bool
    decreases fks, 0int,
{
    &&& fs.len() == fks.len()
    &&& fks.len() > 0 ==> {
        let f = fs.last();
        let fk = fks.last();
        &&& fields_conform(fs.drop_last(), fks.drop_last())
        &&& f.key == fk.key
        &&& 0 <= fk.key <= 255
        &&& f.skip_if_absent == fk.skip_if_absent
        &&& conforms(f.value, fk.kind)
    }
}

/// A message that `schema` describes.
pub open spec fn message_conforms(m: Message, schema: Schema) -> bool {
    &&& m.universal_key@ == schema.universal_key@
    &&& valid_universal_key_len(schema.universal_key@.len())
    &&& keys_distinct(schema.fields@)
    &&& fields_conform(m.fields@, schema.fields@)
}

pub proof fn lemma_fields_conform_index(fs: Seq<Field>, fks: Seq<FieldKind>, i: int)
    requires
        fields_conform(fs, fks),
        0 <= i < fks.len(),
    ensures
        fs.len() == fks.len(),
        fs[i].key == fks[i].key,
        0 <= fks[i].key <= 255,
        fs[i].skip_if_absent == fks[i].skip_if_absent,
        conforms(fs[i].value, fks[i].kind),
    decreases fks.len(),
{
    if i < fks.len() - 1 {
        lemma_fields_conform_index(fs.drop_last(), fks.drop_last(), i);
        assert(fs.drop_last()[i] == fs[i]);
        assert(fks.drop_last()[i] == fks[i]);
    }
}

/// The elements of a run of scalars encode back to back and read back.
pub proof fn lemma_list_round_trip(items: Seq<Value>, ss: Seq<Scalar>)
    requires
        items.len() == ss.len(),
        forall|i: int| 0 <= i < ss.len() ==> is_scalar_of(#[trigger] items[i], ss[i]),
    ensures
        enc_list(items) is Ok,
        enc_list(items)->Ok_0.len() == tuple_width(ss),
        elems_check(ss, enc_list(items)->Ok_0) == Ok::<(), Error>(()),
        elems_decode(ss, enc_list(items)->Ok_0, items),
    decreases items.len(),
{
    if items.len() > 0 {
        let n = items.len() - 1;
        let init = items.subrange(0, n);
        let sinit = ss.drop_last();
        assert forall|i: int| 0 <= i < sinit.len() implies is_scalar_of(
            #[trigger] init[i],
            sinit[i],
        ) by {
            assert(is_scalar_of(items[i], ss[i]));
        }
        lemma_list_round_trip(init, sinit);
        let b0 = enc_list(init)->Ok_0;
        lemma_scalar_round_trip(items[n], ss[n]);
        let sb = scalar_bytes(items[n]);
        assert(enc_value(items[n]) == Ok::<Seq<u8>, Error>(sb)) by {
            assert(is_scalar_of(items[n], ss[n]));
        }
        let b = b0 + sb;
        assert(enc_list(items) == Ok::<Seq<u8>, Error>(b));
        assert(ss.subrange(0, n) =~= sinit);
        assert(elem_bytes(ss, b, n) =~= sb);
        assert(b0.subrange(0, tuple_width(sinit) as int) =~= b.subrange(0, tuple_width(sinit) as int));
        lemma_elems_check_prefix(sinit, b0, b);
        assert forall|i: int| 0 <= i < ss.len() implies #[trigger] items[i] == scalar_value(
            ss[i],
            elem_bytes(ss, b, i),
        )->Ok_0 by {
            if i < n {
                lemma_tuple_width_prefix(sinit, i);
                assert(ss.subrange(0, i) =~= sinit.subrange(0, i));
                assert(elem_bytes(ss, b, i) =~= elem_bytes(sinit, b0, i));
                assert(items[i] == init[i]);
            }
        }
    } else {
        assert(enc_list(items) == Ok::<Seq<u8>, Error>(Seq::empty()));
    }
}

/// Checking a run of scalars reads only the bytes the run occupies.
pub proof fn lemma_elems_check_prefix(ss: Seq<Scalar>, b: Seq<u8>, b2: Seq<u8>)
    requires
        tuple_width(ss) <= b.len(),
        tuple_width(ss) <= b2.len(),
        b.subrange(0, tuple_width(ss) as int) == b2.subrange(0, tuple_width(ss) as int),
    ensures
        elems_check(ss, b) == elems_check(ss, b2),
        forall|i: int| 0 <= i < ss.len() ==> elem_bytes(ss, b, i) == elem_bytes(ss, b2, i),
    decreases ss.len(),
{
    let w = tuple_width(ss) as int;
    assert forall|i: int| 0 <= i < ss.len() implies elem_bytes(ss, b, i) == elem_bytes(ss, b2, i) by {
        lemma_tuple_width_prefix(ss, i);
        let o = elem_offset(ss, i) as int;
        let e = o + scalar_width(ss[i]);
        assert(b.subrange(o, e) =~= b.subrange(0, w).subrange(o, e));
        assert(b2.subrange(o, e) =~= b2.subrange(0, w).subrange(o, e));
    }
    if ss.len() > 0 {
        let init = ss.drop_last();
        lemma_tuple_width_prefix(ss, ss.len() - 1);
        assert(ss.subrange(0, ss.len() - 1) =~= init);
        assert(ss.subrange(0, ss.len() as int) =~= ss);
        let wi = tuple_width(init) as int;
        assert(b.subrange(0, wi) =~= b.subrange(0, w).subrange(0, wi));
        assert(b2.subrange(0, wi) =~= b2.subrange(0, w).subrange(0, wi));
        lemma_elems_check_prefix(init, b, b2);
    }
}

/// The content bytes of the first `n` fields of a record.
pub open spec fn prefix_bytes(fs: Seq<Field>, n: int) -> Seq<u8> {
    enc_fields(fs.subrange(0, n), Seq::empty())->Ok_0
}

/// Where the value of field `n` lies in the record's content, if written.
pub open spec fn field_range(fs: Seq<Field>, n: int) -> Option<(int, int)> {
    if is_written(fs[n]) {
        let b = enc_value(fs[n].value)->Ok_0;
        let s = (prefix_bytes(fs, n).len() + 1 + encode_length(b.len()).len()) as int;
        Some((s, s + b.len()))
    } else {
        None
    }
}

/// The records a decoder has noted after the first `n` fields.
pub open spec fn slots_after(fs: Seq<Field>, len: nat, n: int) -> Seq<Option<(int, int)>> {
    Seq::new(len, |j: int| if j < n { field_range(fs, j) } else { None })
}

/// A value that its kind describes encodes, and reads back as itself.
pub proof fn lemma_value_round_trip(kind: Kind, v: Value)
    requires
        conforms(v, kind),
    ensures
        enc_value(v) is Ok,
        enc_value(v)->Ok_0.len() <= usize::MAX ==> {
            &&& dec_check(kind, enc_value(v)->Ok_0) == Ok::<(), Error>(())
            &&& decodes_to(kind, enc_value(v)->Ok_0, v)
        },
    decreases kind, 0int, 0int,
{
    match kind {
        Kind::Scalar(s) => {
            lemma_scalar_round_trip(v, s);
        },
        Kind::Str => {
            let t = v->Str_0;
            encode_utf8_valid_utf8(t@);
            encode_utf8_decode_utf8(t@);
        },
        Kind::Bytes => {},
        Kind::Unit => {},
        Kind::Opt(k) => {
            if v is Present {
                lemma_value_round_trip(*k, *v->Present_0);
            }
        },
        Kind::Sequence(s) => {
            let items = v->List_0@;
            let ss = repeat(s, items.len());
            assert forall|i: int| 0 <= i < ss.len() implies is_scalar_of(
                #[trigger] items[i],
                ss[i],
            ) by {}
            lemma_list_round_trip(items, ss);
            lemma_tuple_width_repeat(s, items.len());
            let b = enc_list(items)->Ok_0;
            let w = scalar_width(s);
            assert(w > 0);
            assert((items.len() * w) % w == 0 && (items.len() * w) / w == items.len()) by {
                vstd::arithmetic::div_mod::lemma_mod_multiples_basic(items.len() as int, w as int);
                vstd::arithmetic::div_mod::lemma_div_multiples_vanish(items.len() as int, w as int);
            }
            assert(elem_kinds(kind, b.len()) == ss);
        },
        Kind::Tuple(ss) => {
            lemma_list_round_trip(v->List_0@, ss@);
        },
        Kind::Record(fks) => {
            lemma_record_round_trip(v->Record_0@, fks@);
        },
    }
}

/// `tks` picks fields of `fks`: field `j` of `tks` is field `map[j]` of
/// `fks`, and no two fields of `tks` share a key.
pub open spec fn picks(tks: Seq<FieldKind>, fks: Seq<FieldKind>, map: Seq<int>) -> bool {
    &&& map.len() == tks.len()
    &&& keys_distinct(tks)
    &&& forall|j: int|
        0 <= j < tks.len() ==> 0 <= #[trigger] map[j] < fks.len() && tks[j] == fks[map[j]]
}

/// The records noted for the picked fields after the first `n` fields.
pub open spec fn picked_slots(fs: Seq<Field>, map: Seq<int>, n: int) -> Seq<Option<(int, int)>> {
    Seq::new(map.len(), |j: int| if map[j] < n { field_range(fs, map[j]) } else { None })
}

/// The picked fields.
pub open spec fn picked_fields(fs: Seq<Field>, map: Seq<int>) -> Seq<Field> {
    Seq::new(map.len(), |j: int| fs[map[j]])
}

/// The identity map on `n` fields.
pub open spec fn all_fields(n: nat) -> Seq<int> {
    Seq::new(n, |j: int| j)
}

/// A record whose fields follow their descriptions encodes, and reads back
/// as itself.
pub proof fn lemma_record_round_trip(fs: Seq<Field>, fks: Seq<FieldKind>)
    requires
        fields_conform(fs, fks),
        keys_distinct(fks),
    ensures
        enc_fields(fs, Seq::empty()) is Ok,
        enc_fields(fs, Seq::empty())->Ok_0.len() <= usize::MAX ==> {
            &&& record_check(fks, enc_fields(fs, Seq::empty())->Ok_0) == Ok::<(), Error>(())
            &&& record_decodes(fks, enc_fields(fs, Seq::empty())->Ok_0, fs)
        },
    decreases fks, 5int, 0int,
{
    let n = fks.len() as int;
    lemma_enc_fields_ok(fs, fks, n);
    assert(fs.subrange(0, n) =~= fs);
    let c = enc_fields(fs, Seq::empty())->Ok_0;
    if c.len() <= usize::MAX {
        let map = all_fields(fks.len());
        assert(picks(fks, fks, map));
        lemma_record_decode(fs, fks, fks, map, c);
        assert(picked_fields(fs, map) =~= fs);
    }
}

/// Decoding the content of a record's fields against a schema that picks
/// some of them gives the picked fields; the content may be followed by
/// records whose keys the picking schema does not know.
pub proof fn lemma_record_decode(
    fs: Seq<Field>,
    fks: Seq<FieldKind>,
    tks: Seq<FieldKind>,
    map: Seq<int>,
    c: Seq<u8>,
)
    requires
        fields_conform(fs, fks),
        keys_distinct(fks),
        picks(tks, fks, map),
        enc_fields(fs, Seq::empty()) is Ok,
        c == enc_fields(fs, Seq::empty())->Ok_0,
        c.len() <= usize::MAX,
    ensures
        record_check(tks, c) == Ok::<(), Error>(()),
        record_decodes(tks, c, picked_fields(fs, map)),
    decreases fks, 4int, 0int,
{
    let n = fks.len() as int;
    assert(fs.subrange(0, n) =~= fs);
    assert(c.subrange(0, c.len() as int) =~= c);
    lemma_walk_fields(fs, fks, tks, map, c, n);
    let slots = picked_slots(fs, map, n);
    assert(walk(tks, c, c.len() as int, slots) == Ok::<Seq<Option<(int, int)>>, Error>(slots));
    lemma_picked_fields_decode(fs, fks, tks, map, c, slots);
}

/// Once every field is walked, no picked field is missing and each reads as
/// the field it picks.
pub proof fn lemma_picked_fields_decode(
    fs: Seq<Field>,
    fks: Seq<FieldKind>,
    tks: Seq<FieldKind>,
    map: Seq<int>,
    c: Seq<u8>,
    slots: Seq<Option<(int, int)>>,
)
    requires
        fields_conform(fs, fks),
        keys_distinct(fks),
        picks(tks, fks, map),
        enc_fields(fs, Seq::empty()) is Ok,
        enc_fields(fs, Seq::empty())->Ok_0.len() <= c.len() <= usize::MAX,
        c.subrange(0, enc_fields(fs, Seq::empty())->Ok_0.len() as int) == enc_fields(
            fs,
            Seq::empty(),
        )->Ok_0,
        slots == picked_slots(fs, map, fks.len() as int),
        walk(tks, c, 0, no_slots(tks.len())) == Ok::<Seq<Option<(int, int)>>, Error>(slots),
    ensures
        record_check(tks, c) == Ok::<(), Error>(()),
        record_decodes(tks, c, picked_fields(fs, map)),
    decreases fks, 3int, 0int,
{
    let n = fks.len() as int;
    let pf = picked_fields(fs, map);
    lemma_first_missing(tks, slots);
    assert forall|i: int| 0 <= i < tks.len() implies !(slots[i] is None && !(tks[i].kind is Opt)) by {
        lemma_fields_conform_index(fs, fks, map[i]);
        if slots[i] is None {
            assert(!is_written(fs[map[i]]));
        }
    }
    assert forall|j: int| 0 <= j < tks.len() implies {
        &&& #[trigger] pf[j].key == tks[j].key
        &&& pf[j].skip_if_absent == tks[j].skip_if_absent
        &&& match slots[j] {
            None => pf[j].value is Absent,
            Some((a, b)) => decodes_to(tks[j].kind, c.subrange(a, b), pf[j].value),
        }
    } by {
        let i = map[j];
        lemma_fields_conform_index(fs, fks, i);
        lemma_enc_fields_ok(fs, fks, i + 1);
        if is_written(fs[i]) {
            lemma_prefix_grows(fs, fks, i + 1, n);
            assert(fs.subrange(0, n) =~= fs);
            let e = enc_fields(fs, Seq::empty())->Ok_0;
            let b = enc_value(fs[i].value)->Ok_0;
            let p = prefix_bytes(fs, i);
            let st = (p.len() + 1 + encode_length(b.len()).len()) as int;
            assert(fs[i + 1 - 1] == fs[i]);
            assert(prefix_bytes(fs, i + 1) =~= p + seq![fs[i].key as u8] + encode_length(b.len()) + b);
            assert(c.subrange(st, st + b.len()) =~= prefix_bytes(fs, i + 1).subrange(st, st + b.len())) by {
                assert forall|x: int| 0 <= x < b.len() implies #[trigger] c[st + x] == prefix_bytes(fs, i + 1)[st + x] by {
                    assert(c[st + x] == e[st + x]);
                    assert(e[st + x] == prefix_bytes(fs, n)[st + x]);
                }
            }
            assert(c.subrange(st, st + b.len()) =~= b);
            lemma_value_round_trip(fks[i].kind, fs[i].value);
        }
    }
    lemma_fields_decode(tks, c, slots, pf);
}

/// The first `n` fields encode, each written one adding its record.
pub proof fn lemma_enc_fields_ok(fs: Seq<Field>, fks: Seq<FieldKind>, n: int)
    requires
        fields_conform(fs, fks),
        keys_distinct(fks),
        0 <= n <= fs.len(),
    ensures
        enc_fields(fs.subrange(0, n), Seq::empty()) is Ok,
        n > 0 && is_written(fs[n - 1]) ==> enc_value(fs[n - 1].value) is Ok,
        n > 0 ==> prefix_bytes(fs, n) == prefix_bytes(fs, n - 1) + if is_written(fs[n - 1]) {
            seq![fs[n - 1].key as u8] + encode_length(enc_value(fs[n - 1].value)->Ok_0.len())
                + enc_value(fs[n - 1].value)->Ok_0
        } else {
            Seq::<u8>::empty()
        },
        forall|k: u8| key_written(fs.subrange(0, n), k) ==> exists|i: int| 0 <= i < n && fks[i].key == k as i32,
    decreases fks, 1int, n,
{
    if n > 0 {
        lemma_enc_fields_ok(fs, fks, n - 1);
        let cur = fs.subrange(0, n);
        let init = fs.subrange(0, n - 1);
        assert(cur.subrange(0, n - 1) =~= init);
        assert(cur[n - 1] == fs[n - 1]);
        lemma_fields_conform_index(fs, fks, n - 1);
        let f = fs[n - 1];
        if is_written(f) {
            lemma_value_round_trip(fks[n - 1].kind, f.value);
            if key_written(init, f.key as u8) {
                let i = choose|i: int| 0 <= i < init.len() && is_written(init[i]) && init[i].key == f.key as u8 as i32;
                lemma_fields_conform_index(fs, fks, i);
                assert(init[i] == fs[i]);
                assert(fks[i].key != fks[n - 1].key);
            }
        }
        assert forall|k: u8| key_written(cur, k) implies exists|i: int| 0 <= i < n && fks[i].key == k as i32 by {
            let i = choose|i: int| 0 <= i < cur.len() && is_written(cur[i]) && cur[i].key == k as i32;
            lemma_fields_conform_index(fs, fks, i);
            assert(cur[i] == fs[i]);
        }
    } else {
        assert(fs.subrange(0, 0) =~= Seq::<Field>::empty());
    }
}

/// The content of the first `n` fields begins the content of the first `m`.
pub proof fn lemma_prefix_grows(fs: Seq<Field>, fks: Seq<FieldKind>, n: int, m: int)
    requires
        fields_conform(fs, fks),
        keys_distinct(fks),
        0 <= n <= m <= fs.len(),
    ensures
        prefix_bytes(fs, n).len() <= prefix_bytes(fs, m).len(),
        prefix_bytes(fs, m).subrange(0, prefix_bytes(fs, n).len() as int) == prefix_bytes(fs, n),
    decreases fks, 2int, m - n,
{
    if n < m {
        lemma_prefix_grows(fs, fks, n, m - 1);
        lemma_enc_fields_ok(fs, fks, m);
        let a = prefix_bytes(fs, n);
        let b = prefix_bytes(fs, m - 1);
        let c = prefix_bytes(fs, m);
        assert(c.subrange(0, b.len() as int) =~= b);
        assert(c.subrange(0, a.len() as int) =~= b.subrange(0, a.len() as int));
    } else {
        assert(prefix_bytes(fs, n).subrange(0, prefix_bytes(fs, n).len() as int) =~= prefix_bytes(fs, n));
    }
}

/// Walking the content of a record's fields against a schema that picks
/// some of them notes each picked field's value, one record after the other.
pub proof fn lemma_walk_fields(
    fs: Seq<Field>,
    fks: Seq<FieldKind>,
    tks: Seq<FieldKind>,
    map: Seq<int>,
    c: Seq<u8>,
    n: int,
)
    requires
        fields_conform(fs, fks),
        keys_distinct(fks),
        picks(tks, fks, map),
        0 <= n <= fs.len(),
        enc_fields(fs, Seq::empty()) is Ok,
        enc_fields(fs, Seq::empty())->Ok_0.len() <= c.len() <= usize::MAX,
        c.subrange(0, enc_fields(fs, Seq::empty())->Ok_0.len() as int) == enc_fields(
            fs,
            Seq::empty(),
        )->Ok_0,
    ensures
        walk(tks, c, 0, no_slots(tks.len())) == walk(
            tks,
            c,
            prefix_bytes(fs, n).len() as int,
            picked_slots(fs, map, n),
        ),
    decreases fks, 3int, n,
{
    if n == 0 {
        assert(fs.subrange(0, 0) =~= Seq::<Field>::empty());
        assert(picked_slots(fs, map, 0) =~= no_slots(tks.len()));
    } else {
        lemma_walk_fields(fs, fks, tks, map, c, n - 1);
        lemma_walk_step(fs, fks, tks, map, c, n - 1);
    }
}

/// The bytes of a record at `p` in `c`: its key, a length field that decodes
/// to its content's length, and its content.
pub proof fn lemma_record_bytes(c: Seq<u8>, q: Seq<u8>, p: Seq<u8>, k: u8, b: Seq<u8>)
    requires
        q == p + seq![k] + encode_length(b.len()) + b,
        q.len() <= c.len(),
        c.subrange(0, q.len() as int) == q,
        c.len() <= usize::MAX,
    ensures
        ({
            let pos = p.len() as int;
            let l = encode_length(b.len());
            let st = pos + 1 + l.len();
            &&& c[pos] == k
            &&& decode_length(c.subrange(pos + 1, c.len() as int)) == Ok::<(usize, usize), Error>(
                (l.len() as usize, b.len() as usize),
            )
            &&& c.subrange(st, st + b.len()) == b
            &&& st + b.len() == q.len()
        }),
{
    let pos = p.len() as int;
    let l = encode_length(b.len());
    let st = pos + 1 + l.len();
    assert(q[pos] == k);
    assert(c[pos] == q[pos]);
    assert(q.len() == st + b.len());
    let rest = c.subrange(st, c.len() as int);
    assert(c.subrange(pos + 1, c.len() as int) =~= l + rest) by {
        assert forall|i: int| 0 <= i < l.len() implies c[pos + 1 + i] == l[i] by {
            assert(c[pos + 1 + i] == q[pos + 1 + i]);
        }
    }
    assert(rest.subrange(0, b.len() as int) =~= b) by {
        assert forall|i: int| 0 <= i < b.len() implies rest[i] == b[i] by {
            assert(c[st + i] == q[st + i]);
        }
    }
    assert((b.len() as usize) as nat == b.len());
    lemma_length_round_trip(b.len() as usize, rest);
    assert(c.subrange(st, st + b.len()) =~= b);
    assert((b.len() as usize) as nat == b.len());
}

/// One field: the walk reads its record, if written, and notes its value
/// for the picked field that has its key.
pub proof fn lemma_walk_step(
    fs: Seq<Field>,
    fks: Seq<FieldKind>,
    tks: Seq<FieldKind>,
    map: Seq<int>,
    c: Seq<u8>,
    j: int,
)
    requires
        fields_conform(fs, fks),
        keys_distinct(fks),
        picks(tks, fks, map),
        0 <= j < fs.len(),
        enc_fields(fs, Seq::empty()) is Ok,
        enc_fields(fs, Seq::empty())->Ok_0.len() <= c.len() <= usize::MAX,
        c.subrange(0, enc_fields(fs, Seq::empty())->Ok_0.len() as int) == enc_fields(
            fs,
            Seq::empty(),
        )->Ok_0,
    ensures
        walk(tks, c, prefix_bytes(fs, j).len() as int, picked_slots(fs, map, j)) == walk(
            tks,
            c,
            prefix_bytes(fs, j + 1).len() as int,
            picked_slots(fs, map, j + 1),
        ),
    decreases fks, 3int, j,
{
    let len = fs.len() as int;
    let n = j + 1;
    assert(fs.subrange(0, len) =~= fs);
    lemma_enc_fields_ok(fs, fks, n);
    lemma_fields_conform_index(fs, fks, j);
    let before = picked_slots(fs, map, j);
    let after = picked_slots(fs, map, n);
    if !is_written(fs[j]) {
        assert(fs[n - 1] == fs[j]);
        assert(prefix_bytes(fs, n) =~= prefix_bytes(fs, j));
        assert(after =~= before);
    } else {
        lemma_prefix_grows(fs, fks, n, len);
        let e = enc_fields(fs, Seq::empty())->Ok_0;
        let p = prefix_bytes(fs, j);
        let b = enc_value(fs[j].value)->Ok_0;
        let l = encode_length(b.len());
        let k = fs[j].key as u8;
        let q = prefix_bytes(fs, n);
        assert(fs[n - 1] == fs[j]);
        assert(q =~= p + seq![k] + l + b);
        assert(c.subrange(0, q.len() as int) =~= q) by {
            assert forall|x: int| 0 <= x < q.len() implies c[x] == q[x] by {
                assert(c[x] == e[x]);
                assert(e[x] == prefix_bytes(fs, len)[x]);
            }
        }
        lemma_record_bytes(c, q, p, k, b);
        let pos = p.len() as int;
        let st = pos + 1 + l.len();
        let en = st + b.len();
        lemma_field_index(tks, k);
        assert(fks[j].key == k as i32);
        lemma_value_round_trip(fks[j].kind, fs[j].value);
        match field_index(tks, k) {
            Some(m) => {
                assert(tks[m] == fks[map[m]]);
                if map[m] != j {
                    assert(fks[map[m]].key == fks[j].key);
                }
                assert(before[m] is None);
                assert forall|x: int| 0 <= x < tks.len() && x != m implies map[x] != j by {
                    if map[x] == j {
                        assert(tks[x].key == tks[m].key);
                    }
                }
                assert(before.update(m, Some((st, en))) =~= after);
            },
            None => {
                assert forall|x: int| 0 <= x < tks.len() implies map[x] != j by {
                    if map[x] == j {
                        assert(tks[x].key == k as i32);
                    }
                }
                assert(before =~= after);
            },
        }
    }
}

/// Encoding a message that `schema` describes, then decoding the bytes
/// against `schema`, gives the message back.
#[verifier::spinoff_prover]
#[verifier::rlimit(40)]
pub proof fn lemma_message_round_trip(m: Message, schema: Schema)
    requires
        message_conforms(m, schema),
    ensures
        enc_message(m, Seq::empty()) is Ok,
        enc_message(m, Seq::empty())->Ok_0.len() <= usize::MAX ==> {
            &&& dec_message(schema, enc_message(m, Seq::empty())->Ok_0) == Ok::<(), Error>(())
            &&& decodes_message(schema, enc_message(m, Seq::empty())->Ok_0, m)
        },
{
    lemma_record_round_trip(m.fields@, schema.fields@);
    let c = enc_fields(m.fields@, Seq::empty())->Ok_0;
    let uk = m.universal_key@;
    let l = encode_length(c.len());
    let buf = uk + l + c;
    assert(enc_message(m, Seq::empty()) == Ok::<Seq<u8>, Error>(buf));
    if buf.len() <= usize::MAX {
        lemma_length_round_trip(c.len() as usize, c);
        assert(buf.subrange(uk.len() as int, buf.len() as int) =~= l + c);
        assert(buf.subrange(0, uk.len() as int) =~= uk);
        assert(message_content(schema, buf) =~= c);
    }
}

/// Decoding the encoding of a message against a narrower schema — one whose
/// fields are some of the message schema's fields, under the same universal
/// key — succeeds and gives just those fields.
#[verifier::spinoff_prover]
#[verifier::rlimit(40)]
pub proof fn lemma_narrow_schema(m: Message, schema: Schema, narrow: Schema, map: Seq<int>)
    requires
        message_conforms(m, schema),
        narrow.universal_key@ == schema.universal_key@,
        picks(narrow.fields@, schema.fields@, map),
    ensures
        enc_message(m, Seq::empty()) is Ok,
        enc_message(m, Seq::empty())->Ok_0.len() <= usize::MAX ==> {
            let buf = enc_message(m, Seq::empty())->Ok_0;
            &&& dec_message(narrow, buf) == Ok::<(), Error>(())
            &&& record_decodes(
                narrow.fields@,
                message_content(narrow, buf),
                picked_fields(m.fields@, map),
            )
        },
{
    lemma_message_round_trip(m, schema);
    let c = enc_fields(m.fields@, Seq::empty())->Ok_0;
    let buf = enc_message(m, Seq::empty())->Ok_0;
    if buf.len() <= usize::MAX {
        assert(message_content(narrow, buf) == message_content(schema, buf));
        assert(message_content(schema, buf) =~= c) by {
            let uk = m.universal_key@;
            let l = encode_length(c.len());
            lemma_length_round_trip(c.len() as usize, c);
            assert(buf.subrange(uk.len() as int, buf.len() as int) =~= l + c);
        }
        lemma_record_decode(m.fields@, schema.fields@, narrow.fields@, map, c);
    }
}

/// Fields none of whose written keys is reserved encode as if nothing were.
pub proof fn lemma_reserved_unused(fs: Seq<Field>, reserved: Seq<u8>)
    requires
        forall|i: int|
            0 <= i < fs.len() && is_written(fs[i]) && 0 <= fs[i].key <= 255 ==> !reserved.contains(
                fs[i].key as u8,
            ),
    ensures
        enc_fields(fs, reserved) == enc_fields(fs, Seq::empty()),
    decreases fs.len(),
{
    if fs.len() > 0 {
        let init = fs.subrange(0, fs.len() - 1);
        assert forall|i: int|
            0 <= i < init.len() && is_written(init[i]) && 0 <= init[i].key <= 255 implies !reserved.contains(
            init[i].key as u8,
        ) by {
            assert(init[i] == fs[i]);
        }
        lemma_reserved_unused(init, reserved);
    }
}

/// A buffer that ends with the trailer's key and length, followed by its own
/// checksum, passes the trailer check.
pub proof fn lemma_trailer_checks<C: CheckSumCalc>(f: Seq<u8>, calc: C)
    requires
        f.len() >= 2,
        f.subrange(f.len() - 2, f.len() as int) == checksum_header(),
    ensures
        checksum_check(f + be_bytes(calc.spec_checksum(f) as nat, 2), calc) == Ok::<(), Error>(()),
{
    let sum = calc.spec_checksum(f);
    let tail = be_bytes(sum as nat, 2);
    let buf = f + tail;
    lemma_pow256_values();
    lemma_be_round_trip(sum as nat, 2);
    let n = buf.len() as int;
    assert(buf.subrange(n - 4, n - 2) =~= f.subrange(f.len() - 2, f.len() as int));
    assert(buf.subrange(n - 2, n) =~= tail);
    assert(buf.subrange(0, n - 2) =~= f);
}

/// The content of a message with a checksum trailer decodes as the message's
/// fields: the trailer is a record of a key the schema does not have.
pub proof fn lemma_trailer_skipped(fs: Seq<Field>, fks: Seq<FieldKind>, tail: Seq<u8>)
    requires
        fields_conform(fs, fks),
        keys_distinct(fks),
        forall|j: int| 0 <= j < fks.len() ==> #[trigger] fks[j].key != CHECKSUM_KEY as i32,
        tail.len() == 2,
        enc_fields(fs, Seq::empty()) is Ok,
        enc_fields(fs, Seq::empty())->Ok_0.len() + 4 <= usize::MAX,
    ensures
        ({
            let content = enc_fields(fs, Seq::empty())->Ok_0 + checksum_header() + tail;
            &&& record_check(fks, content) == Ok::<(), Error>(())
            &&& record_decodes(fks, content, fs)
        }),
{
    let c = enc_fields(fs, Seq::empty())->Ok_0;
    let content = c + checksum_header() + tail;
    let map = all_fields(fks.len());
    assert(picks(fks, fks, map));
    assert(content.subrange(0, c.len() as int) =~= c);
    let len = fks.len() as int;
    lemma_walk_fields(fs, fks, fks, map, content, len);
    assert(fs.subrange(0, len) =~= fs);
    let slots = picked_slots(fs, map, len);
    let pos = c.len() as int;
    assert(content[pos] == CHECKSUM_KEY);
    assert(content.subrange(pos + 1, content.len() as int) =~= seq![2u8] + tail);
    assert(decode_length(content.subrange(pos + 1, content.len() as int)) == Ok::<
        (usize, usize),
        Error,
    >((1, 2)));
    lemma_field_index(fks, CHECKSUM_KEY);
    if let Some(x) = field_index(fks, CHECKSUM_KEY) {
        assert(fks[x].key != CHECKSUM_KEY as i32);
    }
    assert(walk(fks, content, pos, slots) == walk(fks, content, pos + 4, slots));
    assert(walk(fks, content, pos + 4, slots) == Ok::<Seq<Option<(int, int)>>, Error>(slots));
    lemma_picked_fields_decode(fs, fks, fks, map, content, slots);
    assert(picked_fields(fs, map) =~= fs);
}

/// Encoding a message with a checksum trailer, then checking the trailer and
/// decoding against the same schema, gives the message back; the schema must
/// leave the trailer's key to the trailer.
#[verifier::spinoff_prover]
#[verifier::rlimit(40)]
pub proof fn lemma_checksum_round_trip<C: CheckSumCalc>(m: Message, schema: Schema, calc: C)
    requires
        message_conforms(m, schema),
        forall|j: int|
            0 <= j < schema.fields@.len() ==> #[trigger] schema.fields@[j].key != CHECKSUM_KEY as i32,
    ensures
        enc_message_with_checksum(m, calc) is Ok || enc_message_with_checksum(m, calc) == Err::<
            Seq<u8>,
            Error,
        >(Error::ContentLength),
        enc_message_with_checksum(m, calc) is Ok && enc_message_with_checksum(m, calc)->Ok_0.len()
            <= usize::MAX ==> {
            let buf = enc_message_with_checksum(m, calc)->Ok_0;
            &&& checksum_check(buf, calc) == Ok::<(), Error>(())
            &&& dec_message(schema, buf) == Ok::<(), Error>(())
            &&& decodes_message(schema, buf, m)
        },
{
    let fs = m.fields@;
    let fks = schema.fields@;
    lemma_record_round_trip(fs, fks);
    assert forall|i: int|
        0 <= i < fs.len() && is_written(fs[i]) && 0 <= fs[i].key <= 255 implies !seq![CHECKSUM_KEY].contains(
        fs[i].key as u8,
    ) by {
        lemma_fields_conform_index(fs, fks, i);
        assert(fks[i].key != CHECKSUM_KEY as i32);
        if seq![CHECKSUM_KEY].contains(fs[i].key as u8) {
            assert(seq![CHECKSUM_KEY][0] == CHECKSUM_KEY);
        }
    }
    lemma_reserved_unused(fs, seq![CHECKSUM_KEY]);
    let c = enc_fields(fs, Seq::empty())->Ok_0;
    let uk = m.universal_key@;
    if c.len() + 4 <= usize::MAX {
        let f = framed_for_checksum(uk, c);
        let sum = calc.spec_checksum(f);
        let tail = be_bytes(sum as nat, 2);
        let buf = f + tail;
        assert(enc_message_with_checksum(m, calc) == Ok::<Seq<u8>, Error>(buf));
        if buf.len() <= usize::MAX {
            assert(f.subrange(f.len() - 2, f.len() as int) =~= checksum_header());
            lemma_trailer_checks(f, calc);
            lemma_be_bytes_len_two(sum as nat);
            let l = encode_length((c.len() + 4) as nat);
            let content = c + checksum_header() + tail;
            assert(buf =~= uk + l + content);
            lemma_length_round_trip((c.len() + 4) as usize, content);
            assert(buf.subrange(uk.len() as int, buf.len() as int) =~= l + content);
            assert(buf.subrange(0, uk.len() as int) =~= uk);
            assert(message_content(schema, buf) =~= content);
            lemma_trailer_skipped(fs, fks, tail);
        }
    }
}

pub proof fn lemma_be_bytes_len_two(v: nat)
    ensures
        be_bytes(v, 2).len() == 2,
{
    crate::length::lemma_be_bytes_len(v, 2);
}

/// A buffer whose trailer checks out no longer does once its stored checksum
/// changes.
pub proof fn lemma_stored_checksum_change<C: CheckSumCalc>(s: Seq<u8>, t: Seq<u8>, calc: C)
    requires
        checksum_check(s, calc) == Ok::<(), Error>(()),
        t.len() == s.len(),
        t.subrange(0, t.len() - 2) == s.subrange(0, s.len() - 2),
        t.subrange(t.len() - 2, t.len() as int) != s.subrange(s.len() - 2, s.len() as int),
    ensures
        checksum_check(t, calc) is Err,
        checksum_check(t, calc)->Err_0 is ChecksumMismatch,
{
    let n = s.len() as int;
    assert(t.subrange(n - 4, n - 2) =~= s.subrange(0, n - 2).subrange(n - 4, n - 2));
    assert(s.subrange(n - 4, n - 2) =~= s.subrange(0, n - 2).subrange(n - 4, n - 2));
    let a = s.subrange(n - 2, n);
    let b = t.subrange(n - 2, n);
    reveal_with_fuel(be_value, 3);
    assert(a.drop_last().drop_last() =~= Seq::<u8>::empty());
    assert(b.drop_last().drop_last() =~= Seq::<u8>::empty());
    assert(a.drop_last() =~= seq![a[0]]);
    assert(b.drop_last() =~= seq![b[0]]);
    if a[0] == b[0] && a[1] == b[1] {
        assert(a =~= b);
    }
    assert(be_value(a) == a[0] * 256 + a[1]);
    assert(be_value(b) == b[0] * 256 + b[1]);
}

/// Every error of the encoder is a key error.
pub proof fn lemma_value_errors_are_key(v: Value)
    ensures
        enc_value(v) is Err ==> enc_value(v)->Err_0 is Key,
    decreases v, 1int,
{
    match v {
        Value::Present(b) => {
            lemma_value_errors_are_key(*b);
        },
        Value::List(items) => {
            assert(decreases_to!(v => v->List_0));
            assert(decreases_to!(items => items@));
            lemma_list_errors_are_key(items@);
        },
        Value::Record(fields) => {
            assert(decreases_to!(v => v->Record_0));
            assert(decreases_to!(fields => fields@));
            lemma_fields_errors_are_key(fields@, Seq::empty());
        },
        _ => {},
    }
}

pub proof fn lemma_list_errors_are_key(s: Seq<Value>)
    ensures
        enc_list(s) is Err ==> enc_list(s)->Err_0 is Key,
    decreases s, 0int,
{
    if s.len() > 0 {
        lemma_list_errors_are_key(s.subrange(0, s.len() - 1));
        lemma_value_errors_are_key(s[s.len() - 1]);
    }
}

pub proof fn lemma_fields_errors_are_key(fs: Seq<Field>, reserved: Seq<u8>)
    ensures
        enc_fields(fs, reserved) is Err ==> enc_fields(fs, reserved)->Err_0 is Key,
    decreases fs, 0int,
{
    if fs.len() > 0 {
        lemma_fields_errors_are_key(fs.subrange(0, fs.len() - 1), reserved);
        assert(decreases_to!(fs => fs[fs.len() - 1]));
        lemma_value_errors_are_key(fs[fs.len() - 1].value);
    }
}

/// Two written fields of one record with the same key make encoding fail
/// with a key error.
pub proof fn lemma_duplicate_key(fs: Seq<Field>, reserved: Seq<u8>, i: int, j: int)
    requires
        0 <= i < j < fs.len(),
        is_written(fs[i]),
        is_written(fs[j]),
        fs[i].key == fs[j].key,
    ensures
        enc_fields(fs, reserved) is Err,
        enc_fields(fs, reserved)->Err_0 is Key,
{
    let pre = fs.subrange(0, j + 1);
    let init = pre.subrange(0, j);
    assert(init =~= fs.subrange(0, j));
    assert(pre[j] == fs[j]);
    assert(init[i] == fs[i]);
    lemma_fields_errors_are_key(init, reserved);
    lemma_value_errors_are_key(fs[j].value);
    if 0 <= fs[j].key <= 255 {
        assert(key_written(init, fs[j].key as u8));
    }
    assert(enc_fields(pre, reserved) is Err);
    lemma_enc_fields_err_extends(fs, j + 1, reserved);
}

/// Decoding a buffer whose universal key differs from the schema's (of the
/// same length) fails with a key error.
pub proof fn lemma_universal_key_mismatch(m: Message, schema: Schema)
    requires
        valid_universal_key_len(schema.universal_key@.len()),
        m.universal_key@.len() == schema.universal_key@.len(),
        m.universal_key@ != schema.universal_key@,
        enc_message(m, Seq::empty()) is Ok,
        enc_message(m, Seq::empty())->Ok_0.len() <= usize::MAX,
    ensures
        dec_message(schema, enc_message(m, Seq::empty())->Ok_0) == Err::<(), Error>(
            Error::Key(KeyError::UniversalKeyMismatch),
        ),
{
    let c = enc_fields(m.fields@, Seq::empty())->Ok_0;
    let uk = m.universal_key@;
    let l = encode_length(c.len());
    let buf = uk + l + c;
    assert(buf == enc_message(m, Seq::empty())->Ok_0);
    lemma_length_round_trip(c.len() as usize, c);
    assert(buf.subrange(uk.len() as int, buf.len() as int) =~= l + c);
    assert(buf.subrange(0, uk.len() as int) =~= uk);
}

/// Decoding a buffer no longer than the schema's universal key fails with a
/// content length error.
pub proof fn lemma_short_buffer(schema: Schema, buf: Seq<u8>)
    requires
        valid_universal_key_len(schema.universal_key@.len()),
        buf.len() <= schema.universal_key@.len(),
    ensures
        dec_message(schema, buf) == Err::<(), Error>(Error::ContentLength),
{
}

/// An absent field marked to be skipped adds nothing to a record; one not so
/// marked adds its key and a zero length.
pub proof fn lemma_absent_field(fs: Seq<Field>, f: Field, reserved: Seq<u8>)
    requires
        f.value is Absent,
        enc_fields(fs, reserved) is Ok,
    ensures
        f.skip_if_absent ==> enc_fields(fs.push(f), reserved) == enc_fields(fs, reserved),
        !f.skip_if_absent && 0 <= f.key <= 255 && !reserved.contains(f.key as u8) && !key_written(
            fs,
            f.key as u8,
        ) ==> enc_fields(fs.push(f), reserved) == Ok::<Seq<u8>, Error>(
            enc_fields(fs, reserved)->Ok_0 + seq![f.key as u8, 0u8],
        ),
{
    let g = fs.push(f);
    assert(g.subrange(0, g.len() - 1) =~= fs);
    assert(g[g.len() - 1] == f);
    let p = enc_fields(fs, reserved)->Ok_0;
    assert(enc_value(f.value) == Ok::<Seq<u8>, Error>(Seq::empty()));
    assert(encode_length(0) =~= seq![0u8]);
    assert(p + seq![f.key as u8] + encode_length(0) + Seq::<u8>::empty() =~= p + seq![f.key as u8, 0u8]);
}

/// The key and content length of each record that the fields write, in order.
pub open spec fn written_records(fs: Seq<Field>) -> Seq<(u8, nat)>
    decreases fs.len(),
{
    if fs.len() == 0 {
        Seq::empty()
    } else if is_written(fs.last()) {
        written_records(fs.drop_last()).push(
            (fs.last().key as u8, enc_value(fs.last().value)->Ok_0.len()),
        )
    } else {
        written_records(fs.drop_last())
    }
}

/// `recs` are, in order, records with the keys and lengths `wr`.
pub open spec fn records_match(recs: Seq<RawRecord>, wr: Seq<(u8, nat)>) -> bool {
    &&& recs.len() == wr.len()
    &&& forall|i: int|
        0 <= i < recs.len() ==> #[trigger] recs[i].key == wr[i].0 && recs[i].length == wr[i].1
}

/// The content of the first `n` fields begins the content of all of them.
pub proof fn lemma_fields_prefix(fs: Seq<Field>, reserved: Seq<u8>, n: int)
    requires
        enc_fields(fs, reserved) is Ok,
        0 <= n <= fs.len(),
    ensures
        enc_fields(fs.subrange(0, n), reserved) is Ok,
        enc_fields(fs.subrange(0, n), reserved)->Ok_0.len() <= enc_fields(fs, reserved)->Ok_0.len(),
        enc_fields(fs, reserved)->Ok_0.subrange(
            0,
            enc_fields(fs.subrange(0, n), reserved)->Ok_0.len() as int,
        ) == enc_fields(fs.subrange(0, n), reserved)->Ok_0,
    decreases fs.len() - n,
{
    if enc_fields(fs.subrange(0, n), reserved) is Err {
        lemma_enc_fields_err_extends(fs, n, reserved);
    }
    if n < fs.len() {
        lemma_fields_prefix(fs, reserved, n + 1);
        let a = enc_fields(fs.subrange(0, n), reserved)->Ok_0;
        let b = enc_fields(fs.subrange(0, n + 1), reserved)->Ok_0;
        let e = enc_fields(fs, reserved)->Ok_0;
        assert(fs.subrange(0, n + 1).subrange(0, n) =~= fs.subrange(0, n));
        assert(b.subrange(0, a.len() as int) =~= a);
        assert(e.subrange(0, a.len() as int) =~= b.subrange(0, a.len() as int));
    } else {
        assert(fs.subrange(0, n) =~= fs);
        let e = enc_fields(fs, reserved)->Ok_0;
        assert(e.subrange(0, e.len() as int) =~= e);
    }
}

/// The generic parser walks one raw record per written field of `fs`, whose
/// encoding lies in `buf` from `pos0` to its end; the records walked so far
/// are returned.
pub proof fn lemma_raw_walk_fields(fs: Seq<Field>, buf: Seq<u8>, pos0: int, n: int) -> (acc: Seq<
    RawRecord,
>)
    requires
        enc_fields(fs, Seq::empty()) is Ok,
        0 <= pos0 <= buf.len(),
        buf.len() <= usize::MAX,
        buf.subrange(pos0, buf.len() as int) == enc_fields(fs, Seq::empty())->Ok_0,
        0 <= n <= fs.len(),
    ensures
        enc_fields(fs.subrange(0, n), Seq::empty()) is Ok,
        records_match(acc, written_records(fs.subrange(0, n))),
        raw_walk(buf, pos0, Seq::empty()) == raw_walk(
            buf,
            pos0 + enc_fields(fs.subrange(0, n), Seq::empty())->Ok_0.len(),
            acc,
        ),
    decreases n,
{
    lemma_fields_prefix(fs, Seq::empty(), n);
    if n == 0 {
        assert(fs.subrange(0, 0) =~= Seq::<Field>::empty());
        Seq::empty()
    } else {
        let acc = lemma_raw_walk_fields(fs, buf, pos0, n - 1);
        let cur = fs.subrange(0, n);
        let init = fs.subrange(0, n - 1);
        assert(cur.subrange(0, n - 1) =~= init);
        assert(cur.drop_last() =~= init);
        assert(cur[n - 1] == fs[n - 1]);
        let p = enc_fields(init, Seq::empty())->Ok_0;
        let q = enc_fields(cur, Seq::empty())->Ok_0;
        if !is_written(fs[n - 1]) {
            assert(q == p);
            assert(written_records(cur) == written_records(init));
            acc
        } else {
            let f = fs[n - 1];
            let b = enc_value(f.value)->Ok_0;
            let k = f.key as u8;
            assert(q == p + seq![k] + encode_length(b.len()) + b);
            let c = buf.subrange(pos0, buf.len() as int);
            lemma_fields_prefix(fs, Seq::empty(), n);
            assert(c.subrange(0, q.len() as int) == q);
            lemma_record_bytes(c, q, p, k, b);
            let pos = pos0 + p.len();
            let l = encode_length(b.len());
            let st = pos + 1 + l.len();
            assert(buf[pos] == c[p.len() as int]);
            assert(buf.subrange(pos + 1, buf.len() as int) =~= c.subrange(
                p.len() + 1 as int,
                c.len() as int,
            ));
            let rec = RawRecord {
                key: k,
                position: pos as nat,
                start: st as nat,
                length: b.len(),
            };
            assert(raw_walk(buf, pos, acc) == raw_walk(buf, pos0 + q.len(), acc.push(rec)));
            let wr = written_records(init).push((k, b.len()));
            assert(written_records(cur) == wr);
            let out = acc.push(rec);
            assert forall|i: int| 0 <= i < out.len() implies #[trigger] out[i].key == wr[i].0
                && out[i].length == wr[i].1 by {
                if i < acc.len() {
                    assert(acc[i].key == written_records(init)[i].0);
                }
            }
            out
        }
    }
}

/// The generic parser, on the encoding of a message whose universal key
/// length is the first that fits, finds that key, the content length, and
/// one record per written field, with that field's key and content length,
/// in the fields' order.
pub proof fn lemma_generic_parse(m: Message)
    requires
        enc_message(m, Seq::empty()) is Ok,
        enc_message(m, Seq::empty())->Ok_0.len() <= usize::MAX,
        universal_key_len_of(enc_message(m, Seq::empty())->Ok_0) == Some(m.universal_key@.len()),
    ensures
        ({
            let buf = enc_message(m, Seq::empty())->Ok_0;
            let l = m.universal_key@.len();
            let c = enc_fields(m.fields@, Seq::empty())->Ok_0;
            let (lc, n) = decode_length(buf.subrange(l as int, buf.len() as int))->Ok_0;
            &&& buf.subrange(0, l as int) == m.universal_key@
            &&& n == c.len()
            &&& raw_walk(buf, l + lc, Seq::empty()) is Ok
            &&& records_match(raw_walk(buf, l + lc, Seq::empty())->Ok_0, written_records(m.fields@))
        }),
{
    let fs = m.fields@;
    let c = enc_fields(fs, Seq::empty())->Ok_0;
    let uk = m.universal_key@;
    let l = encode_length(c.len());
    let buf = uk + l + c;
    assert(buf == enc_message(m, Seq::empty())->Ok_0);
    lemma_length_round_trip(c.len() as usize, c);
    assert(buf.subrange(uk.len() as int, buf.len() as int) =~= l + c);
    assert(buf.subrange(0, uk.len() as int) =~= uk);
    let pos0 = (uk.len() + l.len()) as int;
    assert(buf.subrange(pos0 as int, buf.len() as int) =~= c);
    let acc = lemma_raw_walk_fields(fs, buf, pos0, fs.len() as int);
    assert(fs.subrange(0, fs.len() as int) =~= fs);
    assert(raw_walk(buf, (pos0 + c.len()) as int, acc) == Ok::<Seq<RawRecord>, Error>(acc));
}

/// The block check's terms summed without wrapping.
pub open spec fn bcc_sum(s: Seq<u8>) -> nat
    decreases s.len(),
{
    if s.len() == 0 {
        0
    } else {
        bcc_sum(s.drop_last()) + bcc_term(s.len() - 1, s.last())
    }
}

pub proof fn lemma_bcc_is_sum(s: Seq<u8>)
    ensures
        bcc(s) as nat == bcc_sum(s) % 0x1_0000,
    decreases s.len(),
{
    if s.len() > 0 {
        lemma_bcc_is_sum(s.drop_last());
        let a = bcc_sum(s.drop_last()) as int;
        let t = bcc_term(s.len() - 1, s.last()) as int;
        vstd::arithmetic::div_mod::lemma_add_mod_noop(a, t, 0x1_0000);
        vstd::arithmetic::div_mod::lemma_mod_twice(a, 0x1_0000);
    }
}

/// Two buffers that differ in the byte at `i` alone have sums that differ by
/// that byte's terms.
pub proof fn lemma_bcc_sum_one_byte(s: Seq<u8>, t: Seq<u8>, i: int)
    requires
        s.len() == t.len(),
        0 <= i < s.len(),
        forall|j: int| 0 <= j < s.len() && j != i ==> s[j] == t[j],
    ensures
        bcc_sum(t) - bcc_sum(s) == bcc_term(i, t[i]) - bcc_term(i, s[i]),
    decreases s.len(),
{
    let n = s.len() - 1;
    if i < n {
        lemma_bcc_sum_one_byte(s.drop_last(), t.drop_last(), i);
        assert(s.last() == t.last());
    } else {
        assert(s.drop_last() =~= t.drop_last());
    }
}

/// Flipping one bit of a byte changes the block check.
pub proof fn lemma_bcc_detects_bit_flip(s: Seq<u8>, t: Seq<u8>, i: int, bit: u8)
    requires
        s.len() == t.len(),
        0 <= i < s.len(),
        bit < 8,
        t[i] == s[i] ^ (1u8 << bit),
        forall|j: int| 0 <= j < s.len() && j != i ==> s[j] == t[j],
    ensures
        bcc(t) != bcc(s),
{
    lemma_bcc_is_sum(s);
    lemma_bcc_is_sum(t);
    lemma_bcc_sum_one_byte(s, t, i);
    let x = s[i];
    let y = t[i];
    assert(y != x) by (bit_vector)
        requires
            y == x ^ (1u8 << bit),
            bit < 8,
    ;
    assert(y > x ==> y - x == (1u8 << bit) && (1u8 << bit) <= 128) by (bit_vector)
        requires
            y == x ^ (1u8 << bit),
            bit < 8,
    ;
    assert(y < x ==> x - y == (1u8 << bit) && (1u8 << bit) <= 128) by (bit_vector)
        requires
            y == x ^ (1u8 << bit),
            bit < 8,
    ;
    let d = bcc_term(i, y) - bcc_term(i, x);
    assert(0 < d < 0x1_0000 || -0x1_0000 < d < 0);
    let a = bcc_sum(s) as int;
    let b = bcc_sum(t) as int;
    assert(b == a + d);
    if a % 0x1_0000 == b % 0x1_0000 {
        vstd::arithmetic::div_mod::lemma_fundamental_div_mod(a, 0x1_0000);
        vstd::arithmetic::div_mod::lemma_fundamental_div_mod(b, 0x1_0000);
        let qa = a / 0x1_0000;
        let qb = b / 0x1_0000;
        assert(d == 0x1_0000 * (qb - qa));
        assert(false) by (nonlinear_arith)
            requires
                d == 0x1_0000 * (qb - qa),
                0 < d < 0x1_0000 || -0x1_0000 < d < 0,
        ;
    }
}

/// With the block check, a buffer whose trailer checks out fails the check
/// once any one of its bits is flipped: in the content the sum changes, in
/// the trailer's key or length the trailer is no longer found, and in the
/// stored sum the stored value changes.
pub proof fn lemma_block_check_detects_bit_flip(s: Seq<u8>, t: Seq<u8>, i: int, bit: u8)
    requires
        checksum_check(s, CRC) == Ok::<(), Error>(()),
        s.len() == t.len(),
        0 <= i < s.len(),
        bit < 8,
        t[i] == s[i] ^ (1u8 << bit),
        forall|j: int| 0 <= j < s.len() && j != i ==> s[j] == t[j],
    ensures
        checksum_check(t, CRC) is Err,
{
    let n = s.len() as int;
    let x = s[i];
    let y = t[i];
    assert(y != x) by (bit_vector)
        requires
            y == x ^ (1u8 << bit),
            bit < 8,
    ;
    if i >= n - 2 {
        assert(t.subrange(0, n - 2) =~= s.subrange(0, n - 2));
        assert(t.subrange(n - 2, n)[i - (n - 2)] != s.subrange(n - 2, n)[i - (n - 2)]);
        lemma_stored_checksum_change(s, t, CRC);
    } else if i >= n - 4 {
        assert(t.subrange(n - 4, n - 2)[i - (n - 4)] != s.subrange(n - 4, n - 2)[i - (n - 4)]);
        assert(t.subrange(n - 4, n - 2) != checksum_header());
    } else {
        assert(t.subrange(n - 4, n - 2) =~= s.subrange(n - 4, n - 2));
        assert(t.subrange(n - 2, n) =~= s.subrange(n - 2, n));
        let ps = s.subrange(0, n - 2);
        let pt = t.subrange(0, n - 2);
        lemma_bcc_detects_bit_flip(ps, pt, i, bit);
    }
}

/// `a` and `b` are the same value: the same variant with equal scalars,
/// strings and byte blobs of equal contents, and the same parts throughout.
pub open spec fn same_value(a: Value, b: Value) -> bool
    decreases a, 1int,
{
    match a {
        Value::Str(x) => b is Str && x@ == b->Str_0@,
        Value::Bytes(x) => b is Bytes && x@ == b->Bytes_0@,
        Value::Present(x) => b is Present && same_value(*x, *b->Present_0),
        Value::List(x) => b is List && same_list(x@, b->List_0@),
        Value::Record(x) => b is Record && same_fields(x@, b->Record_0@),
        _ => a == b,
    }
}

/// The same values, in order.
pub open spec fn same_list(s: Seq<Value>, t: Seq<Value>) -> bool
    decreases s, 0int,
{
    &&& s.len() == t.len()
    &&& s.len() > 0 ==> {
        &&& same_list(s.subrange(0, s.len() - 1), t.subrange(0, t.len() - 1))
        &&& same_value(s[s.len() - 1], t[t.len() - 1])
    }
}

/// The same fields, in order: equal keys and skip flags, and the same values.
pub open spec fn same_fields(fs: Seq<Field>, gs: Seq<Field>) -> bool
    decreases fs, 0int,
{
    &&& fs.len() == gs.len()
    &&& fs.len() > 0 ==> {
        let n = fs.len() - 1;
        &&& same_fields(fs.subrange(0, n), gs.subrange(0, n))
        &&& fs[n].key == gs[n].key
        &&& fs[n].skip_if_absent == gs[n].skip_if_absent
        &&& same_value(fs[n].value, gs[n].value)
    }
}

/// The same universal key and the same fields.
pub open spec fn same_message(a: Message, b: Message) -> bool {
    a.universal_key@ == b.universal_key@ && same_fields(a.fields@, b.fields@)
}

pub proof fn lemma_same_value_refl(v: Value)
    ensures
        same_value(v, v),
    decreases v, 1int,
{
    match v {
        Value::Present(x) => {
            lemma_same_value_refl(*x);
        },
        Value::List(x) => {
            assert(decreases_to!(v => v->List_0));
            assert(decreases_to!(x => x@));
            lemma_same_list_refl(x@);
        },
        Value::Record(x) => {
            assert(decreases_to!(v => v->Record_0));
            assert(decreases_to!(x => x@));
            lemma_same_fields_refl(x@);
        },
        _ => {},
    }
}

pub proof fn lemma_same_list_refl(s: Seq<Value>)
    ensures
        same_list(s, s),
    decreases s, 0int,
{
    if s.len() > 0 {
        lemma_same_list_refl(s.subrange(0, s.len() - 1));
        lemma_same_value_refl(s[s.len() - 1]);
    }
}

pub proof fn lemma_same_fields_refl(fs: Seq<Field>)
    ensures
        same_fields(fs, fs),
    decreases fs, 0int,
{
    if fs.len() > 0 {
        let n = fs.len() - 1;
        lemma_same_fields_refl(fs.subrange(0, n));
        assert(decreases_to!(fs => fs[n]));
        lemma_same_value_refl(fs[n].value);
    }
}

/// Decoding gives one value: two values that the same bytes decode to as
/// the same kind are the same.
pub proof fn lemma_decodes_to_unique(kind: Kind, b: Seq<u8>, v: Value, w: Value)
    requires
        decodes_to(kind, b, v),
        decodes_to(kind, b, w),
    ensures
        same_value(v, w),
    decreases kind, 0int, 0int,
{
    match kind {
        Kind::Scalar(_) => {
            lemma_same_value_refl(v);
        },
        Kind::Opt(k) => {
            if b.len() > 0 {
                lemma_decodes_to_unique(*k, b, *v->Present_0, *w->Present_0);
            }
        },
        Kind::Sequence(_) | Kind::Tuple(_) => {
            let ss = elem_kinds(kind, b.len());
            let x = v->List_0@;
            let y = w->List_0@;
            assert forall|i: int| 0 <= i < x.len() implies x[i] == y[i] by {
                assert(x[i] == scalar_value(ss[i], elem_bytes(ss, b, i))->Ok_0);
                assert(y[i] == scalar_value(ss[i], elem_bytes(ss, b, i))->Ok_0);
            }
            assert(x =~= y);
            lemma_same_list_refl(x);
        },
        Kind::Record(fks) => {
            let slots = walk(fks@, b, 0, no_slots(fks@.len()))->Ok_0;
            assert(record_decodes(fks@, b, v->Record_0@));
            assert(record_decodes(fks@, b, w->Record_0@));
            assert(fields_decode(fks@, b, slots, v->Record_0@));
            assert(fields_decode(fks@, b, slots, w->Record_0@));
            lemma_fields_decode_unique(fks@, b, slots, v->Record_0@, w->Record_0@);
        },
        _ => {},
    }
}

pub proof fn lemma_fields_decode_unique(
    fks: Seq<FieldKind>,
    c: Seq<u8>,
    slots: Seq<Option<(int, int)>>,
    fs: Seq<Field>,
    gs: Seq<Field>,
)
    requires
        fields_decode(fks, c, slots, fs),
        fields_decode(fks, c, slots, gs),
    ensures
        same_fields(fs, gs),
    decreases fks, 0int, 0int,
{
    if fks.len() > 0 {
        let n = fs.len() - 1;
        assert(fs.drop_last() =~= fs.subrange(0, n));
        assert(gs.drop_last() =~= gs.subrange(0, n));
        lemma_fields_decode_unique(fks.drop_last(), c, slots, fs.drop_last(), gs.drop_last());
        assert(fs.last() == fs[n]);
        assert(gs.last() == gs[n]);
        match slots[n] {
            None => {
                assert(fs[n].value is Absent && gs[n].value is Absent);
                assert(fs[n].value == gs[n].value);
            },
            Some((a, b)) => {
                lemma_decodes_to_unique(fks.last().kind, c.subrange(a, b), fs[n].value, gs[n].value);
            },
        }
        assert(same_fields(fs.subrange(0, n), gs.subrange(0, n)));
        assert(fs[n].key == gs[n].key);
        assert(fs[n].skip_if_absent == gs[n].skip_if_absent);
        assert(same_value(fs[n].value, gs[n].value));
    }
}

/// Two messages that the same buffer decodes to against the same schema are
/// the same message.
pub proof fn lemma_decodes_message_unique(schema: Schema, buf: Seq<u8>, m1: Message, m2: Message)
    requires
        decodes_message(schema, buf, m1),
        decodes_message(schema, buf, m2),
    ensures
        same_message(m1, m2),
{
    let fks = schema.fields@;
    let c = message_content(schema, buf);
    lemma_fields_decode_unique(fks, c, walk(fks, c, 0, no_slots(fks.len()))->Ok_0, m1.fields@, m2.fields@);
}

/// What decoding the encoding of a message gives, against the schema that
/// describes the message, is that message.
pub proof fn lemma_decode_of_encode(m: Message, schema: Schema, d: Message)
    requires
        message_conforms(m, schema),
        enc_message(m, Seq::empty()) is Ok,
        enc_message(m, Seq::empty())->Ok_0.len() <= usize::MAX,
        decodes_message(schema, enc_message(m, Seq::empty())->Ok_0, d),
    ensures
        same_message(d, m),
{
    lemma_message_round_trip(m, schema);
    lemma_decodes_message_unique(schema, enc_message(m, Seq::empty())->Ok_0, d, m);
}

/// What decoding a message's encoding with a checksum trailer gives, against
/// the schema that describes the message, is that message.
pub proof fn lemma_decode_of_checked_encode<C: CheckSumCalc>(
    m: Message,
    schema: Schema,
    calc: C,
    d: Message,
)
    requires
        message_conforms(m, schema),
        forall|j: int|
            0 <= j < schema.fields@.len() ==> #[trigger] schema.fields@[j].key != CHECKSUM_KEY as i32,
        enc_message_with_checksum(m, calc) is Ok,
        enc_message_with_checksum(m, calc)->Ok_0.len() <= usize::MAX,
        decodes_message(schema, enc_message_with_checksum(m, calc)->Ok_0, d),
    ensures
        same_message(d, m),
{
    lemma_checksum_round_trip(m, schema, calc);
    lemma_decodes_message_unique(schema, enc_message_with_checksum(m, calc)->Ok_0, d, m);
}

/// What decoding a message's encoding against a narrower schema gives has
/// the narrower schema's universal key and the picked fields of the message.
pub proof fn lemma_decode_narrow(m: Message, schema: Schema, narrow: Schema, map: Seq<int>, d: Message)
    requires
        message_conforms(m, schema),
        narrow.universal_key@ == schema.universal_key@,
        picks(narrow.fields@, schema.fields@, map),
        enc_message(m, Seq::empty()) is Ok,
        enc_message(m, Seq::empty())->Ok_0.len() <= usize::MAX,
        decodes_message(narrow, enc_message(m, Seq::empty())->Ok_0, d),
    ensures
        d.universal_key@ == m.universal_key@,
        same_fields(d.fields@, picked_fields(m.fields@, map)),
{
    lemma_narrow_schema(m, schema, narrow, map);
    let buf = enc_message(m, Seq::empty())->Ok_0;
    let fks = narrow.fields@;
    let c = message_content(narrow, buf);
    lemma_fields_decode_unique(fks, c, walk(fks, c, 0, no_slots(fks.len()))->Ok_0, d.fields@, picked_fields(m.fields@, map));
}

/// How many of the records `wr` have key `k`.
pub open spec fn count_key(wr: Seq<(u8, nat)>, k: u8) -> nat
    decreases wr.len(),
{
    if wr.len() == 0 {
        0
    } else {
        count_key(wr.drop_last(), k) + if wr.last().0 == k {
            1nat
        } else {
            0nat
        }
    }
}

/// Fields none of which has key `k` write no record with key `k`.
pub proof fn lemma_no_record_with_key(fs: Seq<Field>, k: u8)
    requires
        enc_fields(fs, Seq::empty()) is Ok,
        forall|j: int| 0 <= j < fs.len() ==> #[trigger] fs[j].key != k as i32,
    ensures
        count_key(written_records(fs), k) == 0,
    decreases fs.len(),
{
    if fs.len() > 0 {
        let n = fs.len() - 1;
        let init = fs.subrange(0, n);
        assert(fs.drop_last() =~= init);
        assert forall|j: int| 0 <= j < init.len() implies #[trigger] init[j].key != k as i32 by {
            assert(init[j] == fs[j]);
        }
        lemma_no_record_with_key(init, k);
        lemma_written_records_step(fs);
        assert(fs[n].key != k as i32);
    }
}

/// One more field adds its record, when written, to the records of the rest;
/// a written field of fields that encode has a key within 0..=255.
pub proof fn lemma_written_records_step(fs: Seq<Field>)
    requires
        fs.len() > 0,
        enc_fields(fs, Seq::empty()) is Ok,
    ensures
        ({
            let n = fs.len() - 1;
            let wr0 = written_records(fs.subrange(0, n));
            &&& enc_fields(fs.subrange(0, n), Seq::empty()) is Ok
            &&& is_written(fs[n]) ==> 0 <= fs[n].key <= 255
            &&& is_written(fs[n]) ==> written_records(fs) == wr0.push(
                (fs[n].key as u8, enc_value(fs[n].value)->Ok_0.len()),
            )
            &&& !is_written(fs[n]) ==> written_records(fs) == wr0
            &&& forall|k: u8|
                #[trigger] count_key(written_records(fs), k) == count_key(wr0, k) + if is_written(
                    fs[n],
                ) && fs[n].key as u8 == k {
                    1nat
                } else {
                    0nat
                }
        }),
{
    let n = fs.len() - 1;
    let init = fs.subrange(0, n);
    assert(fs.drop_last() =~= init);
    let wr0 = written_records(init);
    if is_written(fs[n]) {
        let x = (fs[n].key as u8, enc_value(fs[n].value)->Ok_0.len());
        assert(wr0.push(x).drop_last() =~= wr0);
    }
}

/// An absent field whose key no other field has: marked to be skipped it
/// writes no record; otherwise it writes exactly one, of length 0.
pub proof fn lemma_absent_field_records(fs: Seq<Field>, i: int)
    requires
        0 <= i < fs.len(),
        fs[i].value is Absent,
        0 <= fs[i].key <= 255,
        forall|j: int| 0 <= j < fs.len() && j != i ==> #[trigger] fs[j].key != fs[i].key,
        enc_fields(fs, Seq::empty()) is Ok,
    ensures
        fs[i].skip_if_absent ==> count_key(written_records(fs), fs[i].key as u8) == 0,
        !fs[i].skip_if_absent ==> count_key(written_records(fs), fs[i].key as u8) == 1,
        forall|j: int|
            0 <= j < written_records(fs).len() && #[trigger] written_records(fs)[j].0
                == fs[i].key as u8 ==> written_records(fs)[j].1 == 0,
    decreases fs.len(),
{
    let n = fs.len() - 1;
    let init = fs.subrange(0, n);
    let k = fs[i].key as u8;
    assert(fs.drop_last() =~= init);
    lemma_written_records_step(fs);
    if i == n {
        assert forall|j: int| 0 <= j < init.len() implies #[trigger] init[j].key != k as i32 by {
            assert(init[j] == fs[j]);
        }
        lemma_no_record_with_key(init, k);
        lemma_no_key_in_records(init, k);
        assert(enc_value(fs[n].value) == Ok::<Seq<u8>, Error>(Seq::empty()));
    } else {
        assert forall|j: int| 0 <= j < init.len() && j != i implies #[trigger] init[j].key
            != init[i].key by {
            assert(init[j] == fs[j]);
        }
        assert(init[i] == fs[i]);
        lemma_absent_field_records(init, i);
        assert(fs[n].key != fs[i].key);
    }
}

/// When no record has key `k`, none of them does.
pub proof fn lemma_no_key_in_records(fs: Seq<Field>, k: u8)
    requires
        count_key(written_records(fs), k) == 0,
    ensures
        forall|j: int|
            0 <= j < written_records(fs).len() ==> #[trigger] written_records(fs)[j].0 != k,
{
    lemma_count_zero(written_records(fs), k);
}

pub proof fn lemma_count_zero(wr: Seq<(u8, nat)>, k: u8)
    requires
        count_key(wr, k) == 0,
    ensures
        forall|j: int| 0 <= j < wr.len() ==> #[trigger] wr[j].0 != k,
    decreases wr.len(),
{
    if wr.len() > 0 {
        lemma_count_zero(wr.drop_last(), k);
        assert forall|j: int| 0 <= j < wr.len() implies #[trigger] wr[j].0 != k by {
            if j < wr.len() - 1 {
                assert(wr.drop_last()[j] == wr[j]);
            }
        }
    }
}

/// The generic parse of a message's encoding, for an absent field whose key
/// no other field has: marked to be skipped, no parsed record has its key;
/// otherwise exactly one does, with length 0.
pub proof fn lemma_absent_field_parsed(m: Message, i: int)
    requires
        enc_message(m, Seq::empty()) is Ok,
        enc_message(m, Seq::empty())->Ok_0.len() <= usize::MAX,
        universal_key_len_of(enc_message(m, Seq::empty())->Ok_0) == Some(m.universal_key@.len()),
        0 <= i < m.fields@.len(),
        m.fields@[i].value is Absent,
        0 <= m.fields@[i].key <= 255,
        forall|j: int|
            0 <= j < m.fields@.len() && j != i ==> #[trigger] m.fields@[j].key
                != m.fields@[i].key,
    ensures
        ({
            let buf = enc_message(m, Seq::empty())->Ok_0;
            let l = m.universal_key@.len();
            let lc = decode_length(buf.subrange(l as int, buf.len() as int))->Ok_0.0;
            let recs = raw_walk(buf, l + lc, Seq::empty())->Ok_0;
            let pairs = recs.map_values(|r: RawRecord| (r.key, r.length));
            let k = m.fields@[i].key as u8;
            &&& raw_walk(buf, l + lc, Seq::empty()) is Ok
            &&& m.fields@[i].skip_if_absent ==> count_key(pairs, k) == 0
            &&& !m.fields@[i].skip_if_absent ==> count_key(pairs, k) == 1
            &&& forall|j: int| 0 <= j < recs.len() && #[trigger] recs[j].key == k ==> recs[j].length == 0
        }),
{
    let fs = m.fields@;
    lemma_generic_parse(m);
    let buf = enc_message(m, Seq::empty())->Ok_0;
    let l = m.universal_key@.len();
    let lc = decode_length(buf.subrange(l as int, buf.len() as int))->Ok_0.0;
    let recs = raw_walk(buf, l + lc, Seq::empty())->Ok_0;
    let pairs = recs.map_values(|r: RawRecord| (r.key, r.length));
    let wr = written_records(fs);
    assert(enc_fields(fs, Seq::empty()) is Ok);
    assert(records_match(recs, wr));
    lemma_absent_field_records(fs, i);
    assert(pairs =~= wr) by {
        assert forall|j: int| 0 <= j < recs.len() implies pairs[j] == wr[j] by {
            assert(recs[j].key == wr[j].0 && recs[j].length == wr[j].1);
        }
    }
    assert forall|j: int| 0 <= j < recs.len() && #[trigger] recs[j].key == fs[i].key as u8 implies recs[j].length == 0 by {
        assert(recs[j].key == wr[j].0 && recs[j].length == wr[j].1);
    }
}

} // verus!
