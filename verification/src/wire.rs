//! The wire format, stated mathematically: what byte string a value encodes
//! to, and what value (or failure) a byte string decodes to. The executable
//! encoder and decoder are proved equal to these functions, and the
//! round-trip laws are proved about them.
//!
//! Decoding is stated over the remaining input suffix; a success carries the
//! number of bytes consumed.

use vstd::prelude::*;

use crate::bytes::be_u16;
use crate::bytes::be_u32;
use crate::bytes::be_u64;
use crate::bytes::spec_i16_of_u16;
use crate::bytes::spec_i32_of_u32;
use crate::bytes::spec_i64_of_u64;
use crate::bytes::spec_i8_of_u8;
use crate::bytes::spec_u16_of_i16;
use crate::bytes::spec_u32_of_i32;
use crate::bytes::spec_u64_of_i64;
use crate::bytes::spec_u8_of_i8;
use crate::bytes::u16_be;
use crate::bytes::u32_be;
use crate::bytes::u64_be;
use crate::error::Error;
use crate::error::Misuse;
use crate::kind::Kind;
use crate::value::utf8_to_chars;
use crate::value::ValueModel;

verus! {

/// A bare string on the wire: a two-byte big-endian length, then the bytes,
/// no terminator.
pub open spec fn enc_str(b: Seq<u8>) -> Seq<u8>
    recommends
        b.len() <= 0xFFFF,
{
    u16_be(b.len() as u16) + b
}

/// The identifier byte a kind travels as.
pub open spec fn id_byte(k: Kind) -> u8 {
    k.spec_to_id() as u8
}

/// A four-byte big-endian signed length.
pub open spec fn i32_bytes(v: i32) -> Seq<u8> {
    u32_be(spec_u32_of_i32(v))
}

// ---------------------------------------------------------------------------
// Encoding.
// ---------------------------------------------------------------------------

/// The bytes of a sequence's committed header: the container tag, the
/// pending name, the element-kind byte where the generic list container
/// carries one, and the declared length.
pub open spec fn spec_commit_header(nb: Seq<u8>, len: i32, ek: Kind) -> Seq<u8> {
    let container = ek.spec_list_container();
    seq![id_byte(container)] + enc_str(nb) + (if container == Kind::List {
        seq![id_byte(ek)]
    } else {
        Seq::empty()
    }) + i32_bytes(len)
}

pub open spec fn enc_i8s(s: Seq<i8>) -> Seq<u8>
    decreases s,
{
    if s.len() == 0 {
        Seq::empty()
    } else {
        seq![spec_u8_of_i8(s[0])] + enc_i8s(s.drop_first())
    }
}

pub open spec fn enc_i32s(s: Seq<i32>) -> Seq<u8>
    decreases s,
{
    if s.len() == 0 {
        Seq::empty()
    } else {
        u32_be(spec_u32_of_i32(s[0])) + enc_i32s(s.drop_first())
    }
}

pub open spec fn enc_i64s(s: Seq<i64>) -> Seq<u8>
    decreases s,
{
    if s.len() == 0 {
        Seq::empty()
    } else {
        u64_be(spec_u64_of_i64(s[0])) + enc_i64s(s.drop_first())
    }
}

/// The number of elements of a sequence value.
pub open spec fn seq_model_len(m: ValueModel) -> int {
    match m {
        ValueModel::ByteArray(s) => s.len() as int,
        ValueModel::List(_, s) => s.len() as int,
        ValueModel::IntArray(s) => s.len() as int,
        ValueModel::LongArray(s) => s.len() as int,
        _ => 0,
    }
}

/// The payload bytes of a non-sequence value: what travels after the tag and
/// name in a named context, or bare as a list element.
pub open spec fn spec_enc_payload(m: ValueModel) -> Result<Seq<u8>, Error>
    decreases m, 0int,
{
    match m {
        ValueModel::Byte(b) => Ok(seq![spec_u8_of_i8(b)]),
        ValueModel::Short(v) => Ok(u16_be(spec_u16_of_i16(v))),
        ValueModel::Int(v) => Ok(u32_be(spec_u32_of_i32(v))),
        ValueModel::Long(v) => Ok(u64_be(spec_u64_of_i64(v))),
        ValueModel::Float(bits) => Ok(u32_be(bits)),
        ValueModel::Double(bits) => Ok(u64_be(bits)),
        ValueModel::String(sb) => if sb.len() > 0xFFFF {
            Err(Error::UnrepresentableType("oversized string"))
        } else {
            Ok(enc_str(sb))
        },
        ValueModel::Compound(fields) => match spec_enc_fields(fields) {
            Ok(b) => Ok(b + seq![0u8]),
            Err(e) => Err(e),
        },
        _ => Err(Error::Misuse(Misuse::NestedPendingList)),
    }
}

/// The failure raised when a sequence must be committed while the enclosing
/// sequence's own framing is still pending: the unresolved immediate-nesting
/// case. An oversized sequence is refused first; otherwise the encoder walks
/// down the chain of first elements and fails at the first commit attempt.
pub open spec fn spec_nested_seq_err(m: ValueModel) -> Error
    decreases m,
{
    if !m.is_sequence() {
        Error::Misuse(Misuse::NestedPendingList)
    } else if seq_model_len(m) > 0x7FFFFFFF {
        Error::UnrepresentableType("oversized list")
    } else if seq_model_len(m) == 0 {
        Error::Misuse(Misuse::NestedPendingList)
    } else {
        match m {
            ValueModel::List(_, elems) => spec_nested_seq_err(elems[0]),
            _ => Error::Misuse(Misuse::NestedPendingList),
        }
    }
}

/// One element of a committed sequence of element kind `k`: an oversized
/// sequence is refused outright; any other sequence-valued element cannot be
/// committed inside a sequence; an element of another kind is a heterogeneity
/// failure naming both kinds; a matching element contributes its bare payload.
pub open spec fn spec_enc_elem(k: Kind, m: ValueModel) -> Result<Seq<u8>, Error>
    decreases m, 1int,
{
    if m.is_sequence() {
        if seq_model_len(m) > 0x7FFFFFFF {
            Err(Error::UnrepresentableType("oversized list"))
        } else if k.spec_is_list() {
            Err(spec_nested_seq_err(m))
        } else {
            Err(Error::HeterogenousList { original: k, new: Kind::List })
        }
    } else if m.kind_of() != k {
        Err(Error::HeterogenousList { original: k, new: m.kind_of() })
    } else {
        spec_enc_payload(m)
    }
}

/// A pending sequence's first element: it commits the sequence's framing, so
/// it decides the container, and it cannot itself be a sequence.
pub open spec fn spec_enc_first(nb: Seq<u8>, len: i32, m: ValueModel) -> Result<Seq<u8>, Error>
    decreases m, 1int,
{
    if m.is_sequence() {
        Err(spec_nested_seq_err(m))
    } else if nb.len() > 0xFFFF {
        Err(Error::UnrepresentableType("oversized string"))
    } else {
        match spec_enc_payload(m) {
            Ok(b) => Ok(spec_commit_header(nb, len, m.kind_of()) + b),
            Err(e) => Err(e),
        }
    }
}

pub open spec fn spec_enc_elems(k: Kind, elems: Seq<ValueModel>) -> Result<Seq<u8>, Error>
    decreases elems, 2int,
{
    if elems.len() == 0 {
        Ok(Seq::empty())
    } else {
        match spec_enc_elem(k, elems[0]) {
            Ok(b) => match spec_enc_elems(k, elems.drop_first()) {
                Ok(rest) => Ok(b + rest),
                Err(e) => Err(e),
            },
            Err(e) => Err(e),
        }
    }
}

/// A sequence value in a named context. An empty sequence is committed with
/// element kind `End` under the generic list container; a nonempty one is
/// committed by its first element's kind, which picks the container.
pub open spec fn spec_enc_sequence(nb: Seq<u8>, m: ValueModel) -> Result<Seq<u8>, Error>
    recommends
        m.is_sequence(),
    decreases m, 2int,
{
    let n = seq_model_len(m);
    if n > 0x7FFFFFFF {
        Err(Error::UnrepresentableType("oversized list"))
    } else if n == 0 {
        if nb.len() > 0xFFFF {
            Err(Error::UnrepresentableType("oversized string"))
        } else {
            Ok(seq![id_byte(Kind::List)] + enc_str(nb) + seq![0u8] + i32_bytes(0))
        }
    } else {
        match m {
            ValueModel::ByteArray(s) => if nb.len() > 0xFFFF {
                Err(Error::UnrepresentableType("oversized string"))
            } else {
                Ok(spec_commit_header(nb, n as i32, Kind::I8) + enc_i8s(s))
            },
            ValueModel::IntArray(s) => if nb.len() > 0xFFFF {
                Err(Error::UnrepresentableType("oversized string"))
            } else {
                Ok(spec_commit_header(nb, n as i32, Kind::I32) + enc_i32s(s))
            },
            ValueModel::LongArray(s) => if nb.len() > 0xFFFF {
                Err(Error::UnrepresentableType("oversized string"))
            } else {
                Ok(spec_commit_header(nb, n as i32, Kind::I64) + enc_i64s(s))
            },
            ValueModel::List(_, elems) => if elems[0].is_sequence() {
                Err(spec_nested_seq_err(elems[0]))
            } else if nb.len() > 0xFFFF {
                Err(Error::UnrepresentableType("oversized string"))
            } else {
                let ek = elems[0].kind_of();
                match spec_enc_elems(ek, elems) {
                    Ok(b) => Ok(spec_commit_header(nb, n as i32, ek) + b),
                    Err(e) => Err(e),
                }
            },
            _ => Err(Error::Misuse(Misuse::NestedPendingList)),
        }
    }
}

/// A named field: the tag byte, the name, then the payload; sequences frame
/// themselves through their committed header instead.
pub open spec fn spec_enc_field(nb: Seq<u8>, m: ValueModel) -> Result<Seq<u8>, Error>
    decreases m, 3int,
{
    if m.is_sequence() {
        spec_enc_sequence(nb, m)
    } else if nb.len() > 0xFFFF {
        Err(Error::UnrepresentableType("oversized string"))
    } else {
        match spec_enc_payload(m) {
            Ok(b) => Ok(seq![id_byte(m.kind_of())] + enc_str(nb) + b),
            Err(e) => Err(e),
        }
    }
}

pub open spec fn spec_enc_fields(fields: Seq<(Seq<u8>, ValueModel)>) -> Result<Seq<u8>, Error>
    decreases fields, 4int,
{
    if fields.len() == 0 {
        Ok(Seq::empty())
    } else {
        match spec_enc_field(fields[0].0, fields[0].1) {
            Ok(b) => match spec_enc_fields(fields.drop_first()) {
                Ok(rest) => Ok(b + rest),
                Err(e) => Err(e),
            },
            Err(e) => Err(e),
        }
    }
}

/// A whole stream: the root must be a record; its header (tag, root name) is
/// written first, then its fields, then the terminator.
pub open spec fn spec_encode_root(nb: Seq<u8>, m: ValueModel) -> Result<Seq<u8>, Error> {
    match m {
        ValueModel::Compound(fields) => if nb.len() > 0xFFFF {
            Err(Error::UnrepresentableType("oversized string"))
        } else {
            match spec_enc_fields(fields) {
                Ok(b) => Ok(seq![id_byte(Kind::Compound)] + enc_str(nb) + b + seq![0u8]),
                Err(e) => Err(e),
            }
        },
        _ => Err(Error::NoRootCompound),
    }
}

// ---------------------------------------------------------------------------
// Decoding.
// ---------------------------------------------------------------------------

/// The input left after consuming `c` bytes. Consumption never exceeds the
/// input, so the clamp only settles the out-of-range case of `skip`.
pub open spec fn tail_from(data: Seq<u8>, c: nat) -> Seq<u8> {
    if c <= data.len() {
        data.skip(c as int)
    } else {
        Seq::empty()
    }
}

/// A bare string read: length, bytes, UTF-8 validation. A declared length of
/// zero yields the empty string with no further reads and no validation.
pub open spec fn spec_dec_str(data: Seq<u8>) -> Result<(Seq<u8>, nat), Error> {
    if data.len() < 2 {
        Err(Error::IncompleteNbtValue)
    } else {
        let n = be_u16(data.subrange(0, 2)) as int;
        if n == 0 {
            Ok((Seq::empty(), 2nat))
        } else if data.len() < 2 + n {
            Err(Error::IncompleteNbtValue)
        } else {
            let b = data.subrange(2, 2 + n);
            if utf8_to_chars(b) is Some {
                Ok((b, (2 + n) as nat))
            } else {
                Err(Error::InvalidUtf8)
            }
        }
    }
}

/// The payload of a value of kind `k`, read from the front of the input.
pub open spec fn spec_dec_payload(data: Seq<u8>, k: Kind) -> Result<(ValueModel, nat), Error>
    decreases data.len(), 0nat, 1int,
{
    match k {
        Kind::End => Err(Error::UnknownTag(0)),
        Kind::I8 => if data.len() < 1 {
            Err(Error::IncompleteNbtValue)
        } else {
            Ok((ValueModel::Byte(spec_i8_of_u8(data[0])), 1nat))
        },
        Kind::I16 => if data.len() < 2 {
            Err(Error::IncompleteNbtValue)
        } else {
            Ok((ValueModel::Short(spec_i16_of_u16(be_u16(data.subrange(0, 2)))), 2nat))
        },
        Kind::I32 => if data.len() < 4 {
            Err(Error::IncompleteNbtValue)
        } else {
            Ok((ValueModel::Int(spec_i32_of_u32(be_u32(data.subrange(0, 4)))), 4nat))
        },
        Kind::I64 => if data.len() < 8 {
            Err(Error::IncompleteNbtValue)
        } else {
            Ok((ValueModel::Long(spec_i64_of_u64(be_u64(data.subrange(0, 8)))), 8nat))
        },
        Kind::F32 => if data.len() < 4 {
            Err(Error::IncompleteNbtValue)
        } else {
            Ok((ValueModel::Float(be_u32(data.subrange(0, 4))), 4nat))
        },
        Kind::F64 => if data.len() < 8 {
            Err(Error::IncompleteNbtValue)
        } else {
            Ok((ValueModel::Double(be_u64(data.subrange(0, 8))), 8nat))
        },
        Kind::String => match spec_dec_str(data) {
            Ok((b, c)) => Ok((ValueModel::String(b), c)),
            Err(e) => Err(e),
        },
        Kind::Compound => match spec_dec_fields(data) {
            Ok((fs, c)) => Ok((ValueModel::Compound(fs), c)),
            Err(e) => Err(e),
        },
        Kind::List => if data.len() < 1 {
            Err(Error::IncompleteNbtValue)
        } else {
            let t = data[0];
            match Kind::spec_from_id(spec_i8_of_u8(t)) {
                None => Err(Error::UnknownTag(t)),
                Some(ek) => if data.len() < 5 {
                    Err(Error::IncompleteNbtValue)
                } else {
                    let n = spec_i32_of_u32(be_u32(data.subrange(1, 5)));
                    if n < 0 {
                        Err(Error::IncompleteNbtValue)
                    } else {
                        match spec_dec_elems(tail_from(data, 5), ek, n as nat) {
                            Ok((es, c)) => Ok((ValueModel::List(ek, es), 5 + c)),
                            Err(e) => Err(e),
                        }
                    }
                },
            }
        },
        Kind::I8Array => if data.len() < 4 {
            Err(Error::IncompleteNbtValue)
        } else {
            let n = spec_i32_of_u32(be_u32(data.subrange(0, 4)));
            if n < 0 {
                Err(Error::IncompleteNbtValue)
            } else if data.len() < 4 + n {
                Err(Error::IncompleteNbtValue)
            } else {
                Ok(
                    (
                        ValueModel::ByteArray(
                            Seq::new(n as nat, |i: int| spec_i8_of_u8(data[4 + i])),
                        ),
                        (4 + n) as nat,
                    ),
                )
            }
        },
        Kind::I32Array => if data.len() < 4 {
            Err(Error::IncompleteNbtValue)
        } else {
            let n = spec_i32_of_u32(be_u32(data.subrange(0, 4)));
            if n < 0 {
                Err(Error::IncompleteNbtValue)
            } else if data.len() < 4 + 4 * n {
                Err(Error::IncompleteNbtValue)
            } else {
                Ok(
                    (
                        ValueModel::IntArray(
                            Seq::new(
                                n as nat,
                                |i: int|
                                    spec_i32_of_u32(
                                        be_u32(data.subrange(4 + 4 * i, 4 + 4 * i + 4)),
                                    ),
                            ),
                        ),
                        (4 + 4 * n) as nat,
                    ),
                )
            }
        },
        Kind::I64Array => if data.len() < 4 {
            Err(Error::IncompleteNbtValue)
        } else {
            let n = spec_i32_of_u32(be_u32(data.subrange(0, 4)));
            if n < 0 {
                Err(Error::IncompleteNbtValue)
            } else if data.len() < 4 + 8 * n {
                Err(Error::IncompleteNbtValue)
            } else {
                Ok(
                    (
                        ValueModel::LongArray(
                            Seq::new(
                                n as nat,
                                |i: int|
                                    spec_i64_of_u64(
                                        be_u64(data.subrange(4 + 8 * i, 4 + 8 * i + 8)),
                                    ),
                            ),
                        ),
                        (4 + 8 * n) as nat,
                    ),
                )
            }
        },
    }
}

/// A declared number of untagged, unnamed payloads of one kind.
pub open spec fn spec_dec_elems(data: Seq<u8>, k: Kind, n: nat) -> Result<
    (Seq<ValueModel>, nat),
    Error,
>
    decreases data.len(), n, 2int,
{
    if n == 0 {
        Ok((Seq::empty(), 0nat))
    } else {
        match spec_dec_payload(data, k) {
            Err(e) => Err(e),
            Ok((m, c)) => match spec_dec_elems(tail_from(data, c), k, (n - 1) as nat) {
                Err(e) => Err(e),
                Ok((rest, c2)) => Ok((seq![m] + rest, c + c2)),
            },
        }
    }
}

/// A record's fields: tag, name, payload, repeated until the terminator tag.
/// The tag byte is checked against the registry only after the field's name
/// has been read, as the name read can itself fail first.
pub open spec fn spec_dec_fields(data: Seq<u8>) -> Result<(Seq<(Seq<u8>, ValueModel)>, nat), Error>
    decreases data.len(), 0nat, 0int,
{
    if data.len() < 1 {
        Err(Error::IncompleteNbtValue)
    } else {
        let t = data[0];
        if t == 0 {
            Ok((Seq::empty(), 1nat))
        } else {
            match spec_dec_str(data.skip(1)) {
                Err(e) => Err(e),
                Ok((nb, c1)) => match Kind::spec_from_id(spec_i8_of_u8(t)) {
                    None => Err(Error::UnknownTag(t)),
                    Some(k) => match spec_dec_payload(tail_from(data, 1 + c1), k) {
                        Err(e) => Err(e),
                        Ok((m, c2)) => match spec_dec_fields(tail_from(data, 1 + c1 + c2)) {
                            Err(e) => Err(e),
                            Ok((rest, c3)) => Ok((seq![(nb, m)] + rest, 1 + c1 + c2 + c3)),
                        },
                    },
                },
            }
        }
    }
}

/// A whole stream: one tag byte that must be the record tag, the root's own
/// name (read and discarded), then the root record's fields.
pub open spec fn spec_decode_root(data: Seq<u8>) -> Result<(ValueModel, nat), Error> {
    if data.len() < 1 {
        Err(Error::IncompleteNbtValue)
    } else if data[0] != id_byte(Kind::Compound) {
        Err(Error::NoRootCompound)
    } else {
        match spec_dec_str(data.skip(1)) {
            Err(e) => Err(e),
            Ok((_nb, c1)) => match spec_dec_fields(tail_from(data, 1 + c1)) {
                Err(e) => Err(e),
                Ok((fs, c2)) => Ok((ValueModel::Compound(fs), 1 + c1 + c2)),
            },
        }
    }
}

} // verus!
