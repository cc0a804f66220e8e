//! The round-trip laws: decoding an encoded value yields the value back.
//!
//! Not every value survives the trip unchanged, because the format normalizes
//! some framings: an empty sequence is always committed as an empty generic
//! list of element kind `End`, and a homogeneous list of bytes, ints or longs
//! is committed as the corresponding raw array. `round_trippable` describes
//! the values the wire format represents exactly as given; for those, the
//! laws state that encoding succeeds and that decoding the result returns the
//! same value, consuming exactly the encoded bytes.

use vstd::prelude::*;

use crate::bytes::be_u32;
use crate::bytes::be_u64;
use crate::bytes::lemma_signed_round_trip;
use crate::bytes::lemma_u16_be_round_trip;
use crate::bytes::lemma_u32_be_round_trip;
use crate::bytes::lemma_u64_be_round_trip;
use crate::bytes::spec_i32_of_u32;
use crate::bytes::spec_i8_of_u8;
use crate::bytes::spec_u32_of_i32;
use crate::bytes::spec_u8_of_i8;
use crate::bytes::u16_be;
use crate::bytes::u32_be;
use crate::bytes::u64_be;
use crate::error::Error;
use crate::kind::Kind;
use crate::value::valid_str;
use crate::value::ValueModel;
use crate::wire::enc_i32s;
use crate::wire::enc_i64s;
use crate::wire::enc_i8s;
use crate::wire::enc_str;
use crate::wire::i32_bytes;
use crate::wire::id_byte;
use crate::wire::seq_model_len;
use crate::wire::spec_commit_header;
use crate::wire::spec_dec_elems;
use crate::wire::spec_dec_fields;
use crate::wire::spec_dec_payload;
use crate::wire::spec_dec_str;
use crate::wire::spec_decode_root;
use crate::wire::spec_enc_elem;
use crate::wire::spec_enc_elems;
use crate::wire::spec_enc_field;
use crate::wire::spec_enc_fields;
use crate::wire::spec_enc_payload;
use crate::wire::spec_encode_root;
use crate::wire::tail_from;

verus! {

/// The values the wire format represents exactly as given: strings fit their
/// length fields and are valid UTF-8; arrays are nonempty (an empty one is
/// normalized to an empty generic list) and fit the length field; a list is
/// either empty and declared with element kind `End`, or declares the one
/// non-sequence, non-raw-array kind all its elements have; record field names
/// are strings of the same discipline.
pub open spec fn round_trippable(m: ValueModel) -> bool
    decreases m,
{
    match m {
        ValueModel::Byte(_) => true,
        ValueModel::Short(_) => true,
        ValueModel::Int(_) => true,
        ValueModel::Long(_) => true,
        ValueModel::Float(_) => true,
        ValueModel::Double(_) => true,
        ValueModel::String(b) => valid_str(b) && b.len() <= 0xFFFF,
        ValueModel::ByteArray(s) => 0 < s.len() <= 0x7FFFFFFF,
        ValueModel::IntArray(s) => 0 < s.len() <= 0x7FFFFFFF,
        ValueModel::LongArray(s) => 0 < s.len() <= 0x7FFFFFFF,
        ValueModel::List(k, elems) => elems.len() <= 0x7FFFFFFF && (if elems.len() == 0 {
            k == Kind::End
        } else {
            k.spec_list_container() == Kind::List && !k.spec_is_list() && forall|i: int|
                0 <= i < elems.len() ==> (#[trigger] elems[i]).kind_of() == k && round_trippable(
                    elems[i],
                )
        }),
        ValueModel::Compound(fields) => forall|i: int|
            0 <= i < fields.len() ==> valid_str((#[trigger] fields[i]).0) && fields[i].0.len()
                <= 0xFFFF && round_trippable(fields[i].1),
    }
}

/// A bare string reads back as itself, whatever follows it.
proof fn lemma_rt_str(nb: Seq<u8>, tail: Seq<u8>)
    requires
        valid_str(nb),
        nb.len() <= 0xFFFF,
    ensures
        spec_dec_str(enc_str(nb) + tail) == Ok::<(Seq<u8>, nat), Error>((nb, (2 + nb.len()) as nat)),
{
    let data = enc_str(nb) + tail;
    lemma_u16_be_round_trip(nb.len() as u16);
    assert(data.subrange(0, 2) =~= u16_be(nb.len() as u16));
    if nb.len() == 0 {
        assert(nb =~= Seq::<u8>::empty());
    } else {
        assert(data.subrange(2, 2 + nb.len() as int) =~= nb);
    }
}

proof fn lemma_enc_i8s_len(s: Seq<i8>)
    ensures
        enc_i8s(s).len() == s.len(),
    decreases s.len(),
{
    if s.len() > 0 {
        lemma_enc_i8s_len(s.drop_first());
    }
}

proof fn lemma_enc_i8s_at(s: Seq<i8>, i: int)
    requires
        0 <= i < s.len(),
    ensures
        enc_i8s(s).len() == s.len(),
        enc_i8s(s)[i] == spec_u8_of_i8(s[i]),
    decreases i,
{
    lemma_enc_i8s_len(s);
    lemma_enc_i8s_len(s.drop_first());
    if i == 0 {
    } else {
        lemma_enc_i8s_at(s.drop_first(), i - 1);
    }
}

proof fn lemma_enc_i32s_len(s: Seq<i32>)
    ensures
        enc_i32s(s).len() == 4 * s.len(),
    decreases s.len(),
{
    if s.len() > 0 {
        lemma_enc_i32s_len(s.drop_first());
    }
}

proof fn lemma_enc_i32s_at(s: Seq<i32>, i: int)
    requires
        0 <= i < s.len(),
    ensures
        enc_i32s(s).len() == 4 * s.len(),
        enc_i32s(s).subrange(4 * i, 4 * i + 4) =~= u32_be(spec_u32_of_i32(s[i])),
    decreases i,
{
    lemma_enc_i32s_len(s);
    lemma_enc_i32s_len(s.drop_first());
    lemma_u32_be_round_trip(spec_u32_of_i32(s[i]));
    if i == 0 {
        assert(enc_i32s(s).subrange(0, 4) =~= u32_be(spec_u32_of_i32(s[0])));
    } else {
        lemma_enc_i32s_at(s.drop_first(), i - 1);
        assert(enc_i32s(s).subrange(4 * i, 4 * i + 4) =~= enc_i32s(s.drop_first()).subrange(
            4 * (i - 1),
            4 * (i - 1) + 4,
        ));
    }
}

proof fn lemma_enc_i64s_len(s: Seq<i64>)
    ensures
        enc_i64s(s).len() == 8 * s.len(),
    decreases s.len(),
{
    if s.len() > 0 {
        lemma_enc_i64s_len(s.drop_first());
    }
}

proof fn lemma_enc_i64s_at(s: Seq<i64>, i: int)
    requires
        0 <= i < s.len(),
    ensures
        enc_i64s(s).len() == 8 * s.len(),
        enc_i64s(s).subrange(8 * i, 8 * i + 8) =~= u64_be(crate::bytes::spec_u64_of_i64(s[i])),
    decreases i,
{
    lemma_enc_i64s_len(s);
    lemma_enc_i64s_len(s.drop_first());
    lemma_u64_be_round_trip(crate::bytes::spec_u64_of_i64(s[i]));
    if i == 0 {
        assert(enc_i64s(s).subrange(0, 8) =~= u64_be(crate::bytes::spec_u64_of_i64(s[0])));
    } else {
        lemma_enc_i64s_at(s.drop_first(), i - 1);
        assert(enc_i64s(s).subrange(8 * i, 8 * i + 8) =~= enc_i64s(s.drop_first()).subrange(
            8 * (i - 1),
            8 * (i - 1) + 8,
        ));
    }
}

/// A four-byte nonnegative length reads back as itself.
proof fn lemma_rt_len(n: int, tail: Seq<u8>)
    requires
        0 <= n <= 0x7FFFFFFF,
    ensures
        (i32_bytes(n as i32) + tail).subrange(0, 4) =~= i32_bytes(n as i32),
        spec_i32_of_u32(be_u32((i32_bytes(n as i32) + tail).subrange(0, 4))) == n,
{
    lemma_u32_be_round_trip(spec_u32_of_i32(n as i32));
    lemma_signed_round_trip(0, 0, n as i32, 0);
}

/// A non-sequence value's payload reads back as the value, whatever follows.
#[verifier::rlimit(100)]
#[verifier::spinoff_prover]
proof fn lemma_rt_payload(m: ValueModel, rest: Seq<u8>)
    requires
        round_trippable(m),
        !m.is_sequence(),
    ensures
        spec_enc_payload(m) matches Ok(p) && spec_dec_payload(
            spec_enc_payload(m)->Ok_0 + rest,
            m.kind_of(),
        ) == Ok::<(ValueModel, nat), Error>((m, spec_enc_payload(m)->Ok_0.len())),
    decreases m, 0int,
{
    match m {
        ValueModel::Byte(b) => {
            let p = seq![spec_u8_of_i8(b)];
            lemma_signed_round_trip(b, 0, 0, 0);
            assert((p + rest)[0] == spec_u8_of_i8(b));
        },
        ValueModel::Short(v) => {
            let p = u16_be(crate::bytes::spec_u16_of_i16(v));
            lemma_u16_be_round_trip(crate::bytes::spec_u16_of_i16(v));
            lemma_signed_round_trip(0, v, 0, 0);
            assert((p + rest).subrange(0, 2) =~= p);
        },
        ValueModel::Int(v) => {
            let p = u32_be(spec_u32_of_i32(v));
            lemma_u32_be_round_trip(spec_u32_of_i32(v));
            lemma_signed_round_trip(0, 0, v, 0);
            assert((p + rest).subrange(0, 4) =~= p);
        },
        ValueModel::Long(v) => {
            let p = u64_be(crate::bytes::spec_u64_of_i64(v));
            lemma_u64_be_round_trip(crate::bytes::spec_u64_of_i64(v));
            lemma_signed_round_trip(0, 0, 0, v);
            assert((p + rest).subrange(0, 8) =~= p);
        },
        ValueModel::Float(bits) => {
            let p = u32_be(bits);
            lemma_u32_be_round_trip(bits);
            assert((p + rest).subrange(0, 4) =~= p);
        },
        ValueModel::Double(bits) => {
            let p = u64_be(bits);
            lemma_u64_be_round_trip(bits);
            assert((p + rest).subrange(0, 8) =~= p);
        },
        ValueModel::String(sb) => {
            lemma_rt_str(sb, rest);
            assert(enc_str(sb) + rest =~= enc_str(sb) + rest);
        },
        ValueModel::Compound(fields) => {
            lemma_rt_fields(fields, rest);
            let fb = spec_enc_fields(fields)->Ok_0;
            assert((fb + seq![0u8]) + rest =~= fb + seq![0u8] + rest);
        },
        _ => {},
    }
}

/// One unfolding step of the elements reader, from facts about the pieces.
proof fn lemma_dec_elems_step(
    data: Seq<u8>,
    k: Kind,
    m: ValueModel,
    c: nat,
    erest: Seq<ValueModel>,
    crest: nat,
    n: nat,
)
    requires
        n > 0,
        spec_dec_payload(data, k) == Ok::<(ValueModel, nat), Error>((m, c)),
        spec_dec_elems(tail_from(data, c), k, (n - 1) as nat) == Ok::<(Seq<ValueModel>, nat), Error>(
            (erest, crest),
        ),
    ensures
        spec_dec_elems(data, k, n) == Ok::<(Seq<ValueModel>, nat), Error>(
            (seq![m] + erest, (c + crest) as nat),
        ),
{
}

/// A run of bare element payloads reads back as the elements.
#[verifier::rlimit(100)]
#[verifier::spinoff_prover]
proof fn lemma_rt_elems(k: Kind, elems: Seq<ValueModel>, rest: Seq<u8>)
    requires
        forall|i: int|
            0 <= i < elems.len() ==> (#[trigger] elems[i]).kind_of() == k && round_trippable(
                elems[i],
            ) && !elems[i].is_sequence(),
    ensures
        spec_enc_elems(k, elems) matches Ok(eb) && spec_dec_elems(
            spec_enc_elems(k, elems)->Ok_0 + rest,
            k,
            elems.len() as nat,
        ) == Ok::<(Seq<ValueModel>, nat), Error>((elems, spec_enc_elems(k, elems)->Ok_0.len())),
    decreases elems, 2int,
{
    if elems.len() == 0 {
        assert(elems =~= Seq::<ValueModel>::empty());
        assert(spec_enc_elems(k, elems)->Ok_0 + rest =~= rest);
    } else {
        let first = elems[0];
        lemma_rt_elems(k, elems.drop_first(), rest);
        let ebrest = spec_enc_elems(k, elems.drop_first())->Ok_0;
        lemma_rt_payload(first, ebrest + rest);
        let p0 = spec_enc_payload(first)->Ok_0;
        assert(spec_enc_elem(k, first) == spec_enc_payload(first));
        let eb = spec_enc_elems(k, elems)->Ok_0;
        assert(eb == p0 + ebrest);
        let data = eb + rest;
        assert(data =~= p0 + (ebrest + rest));
        assert(tail_from(data, p0.len() as nat) =~= ebrest + rest);
        lemma_dec_elems_step(
            data,
            k,
            first,
            p0.len(),
            elems.drop_first(),
            ebrest.len(),
            elems.len() as nat,
        );
        assert(seq![first] + elems.drop_first() =~= elems);
    }
}

/// What it means for one named field's bytes to read back as written: the
/// tag byte is a known, non-terminator kind; the name follows and reads back;
/// the payload after it reads back as the value, consuming the rest of the
/// field's bytes.
pub open spec fn field_reads_back(nb: Seq<u8>, m: ValueModel, rest: Seq<u8>) -> bool {
    spec_enc_field(nb, m) matches Ok(b) && ({
        let b = spec_enc_field(nb, m)->Ok_0;
        let data = b + rest;
        &&& b.len() > 3 + nb.len()
        &&& data[0] != 0
        &&& Kind::spec_from_id(spec_i8_of_u8(data[0])) matches Some(k2) && spec_dec_str(
            data.skip(1),
        ) == Ok::<(Seq<u8>, nat), Error>((nb, (2 + nb.len()) as nat)) && spec_dec_payload(
            tail_from(data, (3 + nb.len()) as nat),
            k2,
        ) == Ok::<(ValueModel, nat), Error>((m, (b.len() - 3 - nb.len()) as nat))
    })
}

#[verifier::rlimit(100)]
#[verifier::spinoff_prover]
proof fn lemma_rt_field_plain(nb: Seq<u8>, m: ValueModel, rest: Seq<u8>)
    requires
        round_trippable(m),
        valid_str(nb),
        nb.len() <= 0xFFFF,
        !m.is_sequence(),
    ensures
        field_reads_back(nb, m, rest),
    decreases m, 1int,
{
    let k = m.kind_of();
    crate::kind::lemma_kind_id_round_trip(k, 0);
    lemma_rt_payload(m, rest);
    let p = spec_enc_payload(m)->Ok_0;
    let b = spec_enc_field(nb, m)->Ok_0;
    let data = b + rest;
    assert(b == seq![id_byte(k)] + enc_str(nb) + p);
    assert(data[0] == id_byte(k));
    assert(spec_i8_of_u8(id_byte(k)) == k.spec_to_id());
    lemma_rt_str(nb, p + rest);
    assert(data.skip(1) =~= enc_str(nb) + (p + rest));
    assert(tail_from(data, (3 + nb.len()) as nat) =~= p + rest);
}

#[verifier::rlimit(100)]
#[verifier::spinoff_prover]
proof fn lemma_rt_field_empty(nb: Seq<u8>, m: ValueModel, rest: Seq<u8>)
    requires
        round_trippable(m),
        valid_str(nb),
        nb.len() <= 0xFFFF,
        m.is_sequence(),
        seq_model_len(m) == 0,
    ensures
        field_reads_back(nb, m, rest),
{
    let b = spec_enc_field(nb, m)->Ok_0;
    let data = b + rest;
    assert(m matches ValueModel::List(Kind::End, _));
    assert(b == seq![id_byte(Kind::List)] + enc_str(nb) + seq![0u8] + i32_bytes(0));
    crate::kind::lemma_kind_id_round_trip(Kind::List, 0);
    assert(data[0] == id_byte(Kind::List));
    lemma_rt_str(nb, seq![0u8] + i32_bytes(0) + rest);
    assert(data.skip(1) =~= enc_str(nb) + (seq![0u8] + i32_bytes(0) + rest));
    let pd = tail_from(data, (3 + nb.len()) as nat);
    assert(pd =~= seq![0u8] + i32_bytes(0) + rest);
    assert(pd[0] == 0);
    assert(spec_i8_of_u8(0) == 0);
    crate::kind::lemma_kind_id_round_trip(Kind::End, 0);
    assert(pd.subrange(1, 5) =~= i32_bytes(0));
    lemma_rt_len(0, rest);
    assert(i32_bytes(0).subrange(0, 4) =~= i32_bytes(0));
    assert(spec_i32_of_u32(be_u32(pd.subrange(1, 5))) == 0);
    assert(m->List_1 =~= Seq::<ValueModel>::empty());
}

#[verifier::rlimit(100)]
#[verifier::spinoff_prover]
proof fn lemma_rt_field_bytes(nb: Seq<u8>, m: ValueModel, rest: Seq<u8>)
    requires
        round_trippable(m),
        valid_str(nb),
        nb.len() <= 0xFFFF,
        m matches ValueModel::ByteArray(_),
    ensures
        field_reads_back(nb, m, rest),
{
    let s = m->ByteArray_0;
    let n = seq_model_len(m);
    let b = spec_enc_field(nb, m)->Ok_0;
    let data = b + rest;
    lemma_enc_i8s_len(s);
    assert(b == spec_commit_header(nb, n as i32, Kind::I8) + enc_i8s(s));
    crate::kind::lemma_kind_id_round_trip(Kind::I8Array, 0);
    assert(Kind::I8.spec_list_container() == Kind::I8Array);
    assert(b == seq![id_byte(Kind::I8Array)] + enc_str(nb) + i32_bytes(n as i32) + enc_i8s(s));
    assert(data[0] == id_byte(Kind::I8Array));
    lemma_rt_str(nb, i32_bytes(n as i32) + enc_i8s(s) + rest);
    assert(data.skip(1) =~= enc_str(nb) + (i32_bytes(n as i32) + enc_i8s(s) + rest));
    let pd = tail_from(data, (3 + nb.len()) as nat);
    assert(pd =~= i32_bytes(n as i32) + enc_i8s(s) + rest);
    lemma_rt_len(n, enc_i8s(s) + rest);
    assert(pd.subrange(0, 4) =~= i32_bytes(n as i32));
    assert(spec_i32_of_u32(be_u32(pd.subrange(0, 4))) == n);
    assert forall|i: int| 0 <= i < n implies spec_i8_of_u8(pd[4 + i]) == s[i] by {
        lemma_enc_i8s_at(s, i);
        assert(pd[4 + i] == enc_i8s(s)[i]);
        lemma_signed_round_trip(s[i], 0, 0, 0);
    }
    assert(Seq::new(n as nat, |i: int| spec_i8_of_u8(pd[4 + i])) =~= s);
}

#[verifier::rlimit(100)]
#[verifier::spinoff_prover]
proof fn lemma_rt_field_ints(nb: Seq<u8>, m: ValueModel, rest: Seq<u8>)
    requires
        round_trippable(m),
        valid_str(nb),
        nb.len() <= 0xFFFF,
        m matches ValueModel::IntArray(_),
    ensures
        field_reads_back(nb, m, rest),
{
    let s = m->IntArray_0;
    let n = seq_model_len(m);
    let b = spec_enc_field(nb, m)->Ok_0;
    let data = b + rest;
    lemma_enc_i32s_len(s);
    assert(b == spec_commit_header(nb, n as i32, Kind::I32) + enc_i32s(s));
    crate::kind::lemma_kind_id_round_trip(Kind::I32Array, 0);
    assert(b == seq![id_byte(Kind::I32Array)] + enc_str(nb) + i32_bytes(n as i32) + enc_i32s(s));
    assert(data[0] == id_byte(Kind::I32Array));
    lemma_rt_str(nb, i32_bytes(n as i32) + enc_i32s(s) + rest);
    assert(data.skip(1) =~= enc_str(nb) + (i32_bytes(n as i32) + enc_i32s(s) + rest));
    let pd = tail_from(data, (3 + nb.len()) as nat);
    assert(pd =~= i32_bytes(n as i32) + enc_i32s(s) + rest);
    lemma_rt_len(n, enc_i32s(s) + rest);
    assert(pd.subrange(0, 4) =~= i32_bytes(n as i32));
    assert(spec_i32_of_u32(be_u32(pd.subrange(0, 4))) == n);
    assert forall|i: int| 0 <= i < n implies spec_i32_of_u32(
        be_u32(pd.subrange(4 + 4 * i, 4 + 4 * i + 4)),
    ) == s[i] by {
        lemma_enc_i32s_at(s, i);
        assert(pd.subrange(4 + 4 * i, 4 + 4 * i + 4) =~= enc_i32s(s).subrange(4 * i, 4 * i + 4));
        lemma_u32_be_round_trip(spec_u32_of_i32(s[i]));
        lemma_signed_round_trip(0, 0, s[i], 0);
    }
    assert(Seq::new(
        n as nat,
        |i: int| spec_i32_of_u32(be_u32(pd.subrange(4 + 4 * i, 4 + 4 * i + 4))),
    ) =~= s);
}

#[verifier::rlimit(100)]
#[verifier::spinoff_prover]
proof fn lemma_rt_field_longs(nb: Seq<u8>, m: ValueModel, rest: Seq<u8>)
    requires
        round_trippable(m),
        valid_str(nb),
        nb.len() <= 0xFFFF,
        m matches ValueModel::LongArray(_),
    ensures
        field_reads_back(nb, m, rest),
{
    let s = m->LongArray_0;
    let n = seq_model_len(m);
    let b = spec_enc_field(nb, m)->Ok_0;
    let data = b + rest;
    lemma_enc_i64s_len(s);
    assert(b == spec_commit_header(nb, n as i32, Kind::I64) + enc_i64s(s));
    crate::kind::lemma_kind_id_round_trip(Kind::I64Array, 0);
    assert(b == seq![id_byte(Kind::I64Array)] + enc_str(nb) + i32_bytes(n as i32) + enc_i64s(s));
    assert(data[0] == id_byte(Kind::I64Array));
    lemma_rt_str(nb, i32_bytes(n as i32) + enc_i64s(s) + rest);
    assert(data.skip(1) =~= enc_str(nb) + (i32_bytes(n as i32) + enc_i64s(s) + rest));
    let pd = tail_from(data, (3 + nb.len()) as nat);
    assert(pd =~= i32_bytes(n as i32) + enc_i64s(s) + rest);
    lemma_rt_len(n, enc_i64s(s) + rest);
    assert(pd.subrange(0, 4) =~= i32_bytes(n as i32));
    assert(spec_i32_of_u32(be_u32(pd.subrange(0, 4))) == n);
    assert forall|i: int| 0 <= i < n implies crate::bytes::spec_i64_of_u64(
        be_u64(pd.subrange(4 + 8 * i, 4 + 8 * i + 8)),
    ) == s[i] by {
        lemma_enc_i64s_at(s, i);
        assert(pd.subrange(4 + 8 * i, 4 + 8 * i + 8) =~= enc_i64s(s).subrange(8 * i, 8 * i + 8));
        lemma_u64_be_round_trip(crate::bytes::spec_u64_of_i64(s[i]));
        lemma_signed_round_trip(0, 0, 0, s[i]);
    }
    assert(Seq::new(
        n as nat,
        |i: int| crate::bytes::spec_i64_of_u64(be_u64(pd.subrange(4 + 8 * i, 4 + 8 * i + 8))),
    ) =~= s);
}

#[verifier::rlimit(100)]
#[verifier::spinoff_prover]
proof fn lemma_rt_field_list(nb: Seq<u8>, m: ValueModel, rest: Seq<u8>)
    requires
        round_trippable(m),
        valid_str(nb),
        nb.len() <= 0xFFFF,
        m matches ValueModel::List(_, elems) && elems.len() > 0,
    ensures
        field_reads_back(nb, m, rest),
    decreases m, 1int,
{
    let elems = m->List_1;
    let n = seq_model_len(m);
    let b = spec_enc_field(nb, m)->Ok_0;
    let data = b + rest;
    let ek = elems[0].kind_of();
    assert(forall|i: int| 0 <= i < elems.len() ==> !(#[trigger] elems[i]).is_sequence());
    lemma_rt_elems(ek, elems, rest);
    let eb = spec_enc_elems(ek, elems)->Ok_0;
    assert(b == spec_commit_header(nb, n as i32, ek) + eb);
    assert(ek.spec_list_container() == Kind::List);
    assert(b == seq![id_byte(Kind::List)] + enc_str(nb) + seq![id_byte(ek)] + i32_bytes(n as i32)
        + eb);
    crate::kind::lemma_kind_id_round_trip(Kind::List, 0);
    crate::kind::lemma_kind_id_round_trip(ek, 0);
    assert(data[0] == id_byte(Kind::List));
    lemma_rt_str(nb, seq![id_byte(ek)] + i32_bytes(n as i32) + eb + rest);
    assert(data.skip(1) =~= enc_str(nb) + (seq![id_byte(ek)] + i32_bytes(n as i32) + eb + rest));
    let pd = tail_from(data, (3 + nb.len()) as nat);
    assert(pd =~= seq![id_byte(ek)] + i32_bytes(n as i32) + eb + rest);
    assert(pd[0] == id_byte(ek));
    assert(spec_i8_of_u8(id_byte(ek)) == ek.spec_to_id());
    lemma_rt_len(n, eb + rest);
    assert(pd.subrange(1, 5) =~= i32_bytes(n as i32));
    assert(spec_i32_of_u32(be_u32(pd.subrange(1, 5))) == n);
    assert(tail_from(pd, 5nat) =~= eb + rest);
}

/// One named field's bytes: the tag byte, the name, and the payload, each of
/// which reads back as written.
proof fn lemma_rt_field(nb: Seq<u8>, m: ValueModel, rest: Seq<u8>)
    requires
        round_trippable(m),
        valid_str(nb),
        nb.len() <= 0xFFFF,
    ensures
        field_reads_back(nb, m, rest),
    decreases m, 3int,
{
    if !m.is_sequence() {
        lemma_rt_field_plain(nb, m, rest);
    } else if seq_model_len(m) == 0 {
        lemma_rt_field_empty(nb, m, rest);
    } else {
        match m {
            ValueModel::ByteArray(_) => lemma_rt_field_bytes(nb, m, rest),
            ValueModel::IntArray(_) => lemma_rt_field_ints(nb, m, rest),
            ValueModel::LongArray(_) => lemma_rt_field_longs(nb, m, rest),
            _ => lemma_rt_field_list(nb, m, rest),
        }
    }
}

/// One unfolding step of the fields reader, from facts about the pieces.
proof fn lemma_dec_fields_step(
    data: Seq<u8>,
    nb: Seq<u8>,
    m: ValueModel,
    c2: nat,
    frest: Seq<(Seq<u8>, ValueModel)>,
    crest: nat,
)
    requires
        data.len() > 0,
        data[0] != 0,
        Kind::spec_from_id(spec_i8_of_u8(data[0])) is Some,
        spec_dec_str(data.skip(1)) == Ok::<(Seq<u8>, nat), Error>((nb, (2 + nb.len()) as nat)),
        spec_dec_payload(
            tail_from(data, (3 + nb.len()) as nat),
            Kind::spec_from_id(spec_i8_of_u8(data[0]))->Some_0,
        ) == Ok::<(ValueModel, nat), Error>((m, c2)),
        spec_dec_fields(tail_from(data, (3 + nb.len() + c2) as nat)) == Ok::<
            (Seq<(Seq<u8>, ValueModel)>, nat),
            Error,
        >((frest, crest)),
    ensures
        spec_dec_fields(data) == Ok::<(Seq<(Seq<u8>, ValueModel)>, nat), Error>(
            (seq![(nb, m)] + frest, (3 + nb.len() + c2 + crest) as nat),
        ),
{
}

/// The inductive step of the fields law, from its two hypotheses: the first
/// field reads back, and the remaining fields read back.
#[verifier::rlimit(100)]
#[verifier::spinoff_prover]
proof fn lemma_rt_fields_cons(fields: Seq<(Seq<u8>, ValueModel)>, rest: Seq<u8>)
    requires
        fields.len() > 0,
        spec_enc_fields(fields.drop_first()) is Ok,
        spec_dec_fields(spec_enc_fields(fields.drop_first())->Ok_0 + seq![0u8] + rest) == Ok::<
            (Seq<(Seq<u8>, ValueModel)>, nat),
            Error,
        >((fields.drop_first(), (spec_enc_fields(fields.drop_first())->Ok_0.len() + 1) as nat)),
        field_reads_back(
            fields[0].0,
            fields[0].1,
            spec_enc_fields(fields.drop_first())->Ok_0 + seq![0u8] + rest,
        ),
    ensures
        spec_enc_fields(fields) matches Ok(fb) && spec_dec_fields(
            spec_enc_fields(fields)->Ok_0 + seq![0u8] + rest,
        ) == Ok::<(Seq<(Seq<u8>, ValueModel)>, nat), Error>(
            (fields, (spec_enc_fields(fields)->Ok_0.len() + 1) as nat),
        ),
{
    let nb = fields[0].0;
    let m = fields[0].1;
    let fbrest = spec_enc_fields(fields.drop_first())->Ok_0;
    let tail2 = fbrest + seq![0u8] + rest;
    let b0 = spec_enc_field(nb, m)->Ok_0;
    let fb = spec_enc_fields(fields)->Ok_0;
    assert(fb == b0 + fbrest);
    let data = fb + seq![0u8] + rest;
    assert(data =~= b0 + tail2);
    let c2 = (b0.len() - 3 - nb.len()) as nat;
    assert(b0.len() == 3 + nb.len() + c2);
    assert(tail_from(data, (3 + nb.len() + c2) as nat) =~= tail2);
    lemma_dec_fields_step(data, nb, m, c2, fields.drop_first(), (fbrest.len() + 1) as nat);
    assert(seq![(nb, m)] + fields.drop_first() =~= fields);
}

/// A record's encoded fields, followed by the terminator byte, read back as
/// the fields.
#[verifier::rlimit(100)]
#[verifier::spinoff_prover]
proof fn lemma_rt_fields(fields: Seq<(Seq<u8>, ValueModel)>, rest: Seq<u8>)
    requires
        forall|i: int|
            0 <= i < fields.len() ==> valid_str((#[trigger] fields[i]).0) && fields[i].0.len()
                <= 0xFFFF && round_trippable(fields[i].1),
    ensures
        spec_enc_fields(fields) matches Ok(fb) && spec_dec_fields(
            spec_enc_fields(fields)->Ok_0 + seq![0u8] + rest,
        ) == Ok::<(Seq<(Seq<u8>, ValueModel)>, nat), Error>(
            (fields, (spec_enc_fields(fields)->Ok_0.len() + 1) as nat),
        ),
    decreases fields, 4int,
{
    if fields.len() == 0 {
        assert(spec_enc_fields(fields)->Ok_0 + seq![0u8] + rest =~= seq![0u8] + rest);
        assert((seq![0u8] + rest)[0] == 0);
        assert(fields =~= Seq::<(Seq<u8>, ValueModel)>::empty());
    } else {
        lemma_rt_fields(fields.drop_first(), rest);
        lemma_rt_field(
            fields[0].0,
            fields[0].1,
            spec_enc_fields(fields.drop_first())->Ok_0 + seq![0u8] + rest,
        );
        lemma_rt_fields_cons(fields, rest);
    }
}

/// THE ROUND-TRIP LAW: for every round-trippable record and every root name
/// that fits its length field, encoding succeeds and decoding the encoded
/// bytes returns the same record, consuming exactly those bytes.
pub proof fn lemma_round_trip(nb: Seq<u8>, m: ValueModel)
    requires
        m matches ValueModel::Compound(_),
        round_trippable(m),
        valid_str(nb),
        nb.len() <= 0xFFFF,
    ensures
        spec_encode_root(nb, m) matches Ok(b) && spec_decode_root(spec_encode_root(nb, m)->Ok_0)
            == Ok::<(ValueModel, nat), Error>((m, spec_encode_root(nb, m)->Ok_0.len())),
{
    let fields = m->Compound_0;
    lemma_rt_fields(fields, Seq::empty());
    let fb = spec_enc_fields(fields)->Ok_0;
    let b = spec_encode_root(nb, m)->Ok_0;
    assert(b == seq![id_byte(Kind::Compound)] + enc_str(nb) + fb + seq![0u8]);
    crate::kind::lemma_kind_id_round_trip(Kind::Compound, 0);
    assert(b[0] == id_byte(Kind::Compound));
    lemma_rt_str(nb, fb + seq![0u8]);
    assert(b.skip(1) =~= enc_str(nb) + (fb + seq![0u8]));
    assert(tail_from(b, (3 + nb.len()) as nat) =~= fb + seq![0u8]);
    assert(fb + seq![0u8] =~= fb + seq![0u8] + Seq::<u8>::empty());
}

} // verus!

