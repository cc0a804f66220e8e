//! The decoder engine: a tag-driven recursive descent over a byte stream,
//! proved to return exactly what the wire specification says the stream
//! decodes to.

use vstd::prelude::*;

use crate::bytes::i16_from_u16;
use crate::bytes::i32_from_u32;
use crate::bytes::i64_from_u64;
use crate::bytes::i8_from_u8;
use crate::bytes::read_u16_be;
use crate::bytes::read_u32_be;
use crate::bytes::read_u64_be;
use crate::error::Error;
use crate::kind::Kind;
use crate::value::field_models;
use crate::value::utf8_bytes;
use crate::value::value_models;
use crate::value::Value;
use crate::value::ValueModel;
use crate::wire::spec_dec_elems;
use crate::wire::spec_dec_fields;
use crate::wire::spec_dec_payload;
use crate::wire::spec_dec_str;
use crate::wire::spec_decode_root;
use crate::wire::tail_from;

verus! {

broadcast use vstd::std_specs::vec::group_vec_axioms;

/// Consuming `c` bytes of the suffix at `pos` leaves the suffix at `pos + c`.
proof fn lemma_tail_align(data: Seq<u8>, pos: int, c: nat)
    requires
        0 <= pos,
        pos + c <= data.len(),
    ensures
        tail_from(data.skip(pos), c) =~= data.skip(pos + c),
{
}

/// How the executable decoder's result must relate to the wire
/// specification's: the same failure, or a value with the specified model.
pub open spec fn decode_result_matches(
    r: Result<Value, Error>,
    s: Result<(ValueModel, nat), Error>,
) -> bool {
    match s {
        Ok(p) => r matches Ok(v) && v@ == p.0,
        Err(e) => r == Err::<Value, Error>(e),
    }
}

/// Read a bare string: two length bytes, that many bytes, UTF-8 validation.
/// Returns the string and the position after it.
#[verifier::loop_isolation(false)]
pub fn read_bare_string(data: &Vec<u8>, pos: usize) -> (r: Result<(String, usize), Error>)
    requires
        pos <= data@.len(),
    ensures
        match r {
            Ok(p) => pos <= p.1 <= data@.len() && spec_dec_str(data@.skip(pos as int)) == Ok::<
                _,
                Error,
            >((utf8_bytes(p.0@), (p.1 - pos) as nat)),
            Err(e) => spec_dec_str(data@.skip(pos as int)) == Err::<(Seq<u8>, nat), Error>(e),
        },
{
    let avail = data.len();
    let ghost suffix = data@.skip(pos as int);
    if avail - pos < 2 {
        return Err(Error::IncompleteNbtValue);
    }
    proof {
        assert(suffix.subrange(0, 2) =~= data@.subrange(pos as int, pos + 2));
    }
    let n = read_u16_be(data, pos) as usize;
    if n == 0 {
        match crate::value::string_from_bytes(Vec::new()) {
            Ok(s) => {
                proof {
                    assert(utf8_bytes(s@) =~= Seq::<u8>::empty());
                }
                Ok((s, pos + 2))
            },
            Err(e) => Err(e),
        }
    } else if avail - (pos + 2) < n {
        Err(Error::IncompleteNbtValue)
    } else {
        let mut raw: Vec<u8> = Vec::new();
        let mut i: usize = 0;
        while i < n
            invariant
                pos + 2 + n <= data@.len(),
                i <= n,
                raw@ =~= data@.subrange(pos + 2, pos + 2 + i),
            decreases n - i,
        {
            raw.push(data[pos + 2 + i]);
            i = i + 1;
        }
        proof {
            assert(raw@ =~= suffix.subrange(2, 2 + n));
        }
        match crate::value::string_from_bytes(raw) {
            Ok(s) => Ok((s, pos + 2 + n)),
            Err(e) => Err(e),
        }
    }
}

/// Decode one payload of the given kind at `pos`; return the value and the
/// position after it.
#[verifier::loop_isolation(false)]
#[verifier::rlimit(60)]
pub fn read_payload(data: &Vec<u8>, pos: usize, k: Kind) -> (r: Result<(Value, usize), Error>)
    requires
        pos <= data@.len(),
    ensures
        match r {
            Ok(p) => pos <= p.1 <= data@.len() && spec_dec_payload(data@.skip(pos as int), k)
                == Ok::<_, Error>((p.0@, (p.1 - pos) as nat)),
            Err(e) => spec_dec_payload(data@.skip(pos as int), k) == Err::<(ValueModel, nat), Error>(
                e,
            ),
        },
    decreases data@.len() - pos, 0nat, 1int,
{
    let avail = data.len();
    let ghost suffix = data@.skip(pos as int);
    match k {
        Kind::End => Err(Error::UnknownTag(0)),
        Kind::I8 => {
            if avail - pos < 1 {
                return Err(Error::IncompleteNbtValue);
            }
            Ok((Value::Byte(i8_from_u8(data[pos])), pos + 1))
        },
        Kind::I16 => {
            if avail - pos < 2 {
                return Err(Error::IncompleteNbtValue);
            }
            proof {
                assert(suffix.subrange(0, 2) =~= data@.subrange(pos as int, pos + 2));
            }
            Ok((Value::Short(i16_from_u16(read_u16_be(data, pos))), pos + 2))
        },
        Kind::I32 => {
            if avail - pos < 4 {
                return Err(Error::IncompleteNbtValue);
            }
            proof {
                assert(suffix.subrange(0, 4) =~= data@.subrange(pos as int, pos + 4));
            }
            Ok((Value::Int(i32_from_u32(read_u32_be(data, pos))), pos + 4))
        },
        Kind::I64 => {
            if avail - pos < 8 {
                return Err(Error::IncompleteNbtValue);
            }
            proof {
                assert(suffix.subrange(0, 8) =~= data@.subrange(pos as int, pos + 8));
            }
            Ok((Value::Long(i64_from_u64(read_u64_be(data, pos))), pos + 8))
        },
        Kind::F32 => {
            if avail - pos < 4 {
                return Err(Error::IncompleteNbtValue);
            }
            proof {
                assert(suffix.subrange(0, 4) =~= data@.subrange(pos as int, pos + 4));
            }
            Ok((Value::Float(read_u32_be(data, pos)), pos + 4))
        },
        Kind::F64 => {
            if avail - pos < 8 {
                return Err(Error::IncompleteNbtValue);
            }
            proof {
                assert(suffix.subrange(0, 8) =~= data@.subrange(pos as int, pos + 8));
            }
            Ok((Value::Double(read_u64_be(data, pos)), pos + 8))
        },
        Kind::String => {
            match read_bare_string(data, pos) {
                Ok((s, p2)) => Ok((Value::String(s), p2)),
                Err(e) => Err(e),
            }
        },
        Kind::Compound => {
            match read_fields(data, pos) {
                Ok((fs, p2)) => Ok((Value::Compound(fs), p2)),
                Err(e) => Err(e),
            }
        },
        Kind::List => {
            if avail - pos < 1 {
                return Err(Error::IncompleteNbtValue);
            }
            let t = data[pos];
            match Kind::from_id(i8_from_u8(t)) {
                None => Err(Error::UnknownTag(t)),
                Some(ek) => {
                    if avail - pos < 5 {
                        return Err(Error::IncompleteNbtValue);
                    }
                    proof {
                        assert(suffix.subrange(1, 5) =~= data@.subrange(pos + 1, pos + 5));
                    }
                    let n = i32_from_u32(read_u32_be(data, pos + 1));
                    if n < 0 {
                        return Err(Error::IncompleteNbtValue);
                    }
                    proof {
                        lemma_tail_align(data@, pos as int, 5nat);
                    }
                    match read_elems(data, pos + 5, ek, n as usize) {
                        Ok((es, p2)) => Ok((Value::List(ek, es), p2)),
                        Err(e) => Err(e),
                    }
                },
            }
        },
        Kind::I8Array => {
            if avail - pos < 4 {
                return Err(Error::IncompleteNbtValue);
            }
            proof {
                assert(suffix.subrange(0, 4) =~= data@.subrange(pos as int, pos + 4));
            }
            let n = i32_from_u32(read_u32_be(data, pos));
            if n < 0 {
                return Err(Error::IncompleteNbtValue);
            }
            let count = n as usize;
            if avail - (pos + 4) < count {
                return Err(Error::IncompleteNbtValue);
            }
            let mut out: Vec<i8> = Vec::new();
            let mut i: usize = 0;
            while i < count
                invariant
                    pos + 4 + count <= data@.len(),
                    i <= count,
                    out@.len() == i,
                    forall|j: int|
                        0 <= j < i ==> out@[j] == crate::bytes::spec_i8_of_u8(
                            data@[pos + 4 + j],
                        ),
                decreases count - i,
            {
                out.push(i8_from_u8(data[pos + 4 + i]));
                i = i + 1;
            }
            proof {
                assert(out@ =~= Seq::new(count as nat, |j: int| crate::bytes::spec_i8_of_u8(
                    suffix[4 + j],
                )));
            }
            Ok((Value::ByteArray(out), pos + 4 + count))
        },
        Kind::I32Array => {
            if avail - pos < 4 {
                return Err(Error::IncompleteNbtValue);
            }
            proof {
                assert(suffix.subrange(0, 4) =~= data@.subrange(pos as int, pos + 4));
            }
            let n = i32_from_u32(read_u32_be(data, pos));
            if n < 0 {
                return Err(Error::IncompleteNbtValue);
            }
            let count = n as usize;
            if (avail - (pos + 4)) / 4 < count {
                return Err(Error::IncompleteNbtValue);
            }
            assert(4 + 4 * count <= avail - pos);
            let mut out: Vec<i32> = Vec::new();
            let mut i: usize = 0;
            while i < count
                invariant
                    pos + 4 + 4 * count <= data@.len(),
                    i <= count,
                    out@.len() == i,
                    forall|j: int|
                        0 <= j < i ==> out@[j] == crate::bytes::spec_i32_of_u32(
                            crate::bytes::be_u32(suffix.subrange(4 + 4 * j, 4 + 4 * j + 4)),
                        ),
                decreases count - i,
            {
                proof {
                    assert(suffix.subrange(4 + 4 * i, 4 + 4 * i + 4) =~= data@.subrange(
                        pos + 4 + 4 * i,
                        pos + 4 + 4 * i + 4,
                    ));
                }
                out.push(i32_from_u32(read_u32_be(data, pos + 4 + 4 * i)));
                i = i + 1;
            }
            proof {
                assert(out@ =~= Seq::new(count as nat, |j: int| crate::bytes::spec_i32_of_u32(
                    crate::bytes::be_u32(suffix.subrange(4 + 4 * j, 4 + 4 * j + 4)),
                )));
            }
            Ok((Value::IntArray(out), pos + 4 + 4 * count))
        },
        Kind::I64Array => {
            if avail - pos < 4 {
                return Err(Error::IncompleteNbtValue);
            }
            proof {
                assert(suffix.subrange(0, 4) =~= data@.subrange(pos as int, pos + 4));
            }
            let n = i32_from_u32(read_u32_be(data, pos));
            if n < 0 {
                return Err(Error::IncompleteNbtValue);
            }
            let count = n as usize;
            if (avail - (pos + 4)) / 8 < count {
                return Err(Error::IncompleteNbtValue);
            }
            assert(4 + 8 * count <= avail - pos);
            let mut out: Vec<i64> = Vec::new();
            let mut i: usize = 0;
            while i < count
                invariant
                    pos + 4 + 8 * count <= data@.len(),
                    i <= count,
                    out@.len() == i,
                    forall|j: int|
                        0 <= j < i ==> out@[j] == crate::bytes::spec_i64_of_u64(
                            crate::bytes::be_u64(suffix.subrange(4 + 8 * j, 4 + 8 * j + 8)),
                        ),
                decreases count - i,
            {
                proof {
                    assert(suffix.subrange(4 + 8 * i, 4 + 8 * i + 8) =~= data@.subrange(
                        pos + 4 + 8 * i,
                        pos + 4 + 8 * i + 8,
                    ));
                }
                out.push(i64_from_u64(read_u64_be(data, pos + 4 + 8 * i)));
                i = i + 1;
            }
            proof {
                assert(out@ =~= Seq::new(count as nat, |j: int| crate::bytes::spec_i64_of_u64(
                    crate::bytes::be_u64(suffix.subrange(4 + 8 * j, 4 + 8 * j + 8)),
                )));
            }
            Ok((Value::LongArray(out), pos + 4 + 8 * count))
        },
    }
}

/// Decode a declared number of untagged payloads of one kind.
pub fn read_elems(data: &Vec<u8>, pos: usize, k: Kind, n: usize) -> (r: Result<
    (Vec<Value>, usize),
    Error,
>)
    requires
        pos <= data@.len(),
    ensures
        match r {
            Ok(p) => pos <= p.1 <= data@.len() && spec_dec_elems(
                data@.skip(pos as int),
                k,
                n as nat,
            ) == Ok::<_, Error>((value_models(p.0@), (p.1 - pos) as nat)),
            Err(e) => spec_dec_elems(data@.skip(pos as int), k, n as nat) == Err::<
                (Seq<ValueModel>, nat),
                Error,
            >(e),
        },
    decreases data@.len() - pos, n, 2int,
{
    if n == 0 {
        let empty: Vec<Value> = Vec::new();
        assert(value_models(empty@) =~= Seq::<ValueModel>::empty());
        return Ok((empty, pos));
    }
    match read_payload(data, pos, k) {
        Err(e) => Err(e),
        Ok((v, p2)) => {
            proof {
                lemma_tail_align(data@, pos as int, (p2 - pos) as nat);
            }
            match read_elems(data, p2, k, n - 1) {
                Err(e) => Err(e),
                Ok((mut rest, p3)) => {
                    let ghost vm = v@;
                    let ghost old_rest = rest@;
                    rest.insert(0, v);
                    proof {
                        assert(rest@.drop_first() =~= old_rest);
                        assert(value_models(rest@) =~= seq![vm] + value_models(old_rest));
                    }
                    Ok((rest, p3))
                },
            }
        },
    }
}

/// Decode a record's fields, repeated until the terminator tag.
pub fn read_fields(data: &Vec<u8>, pos: usize) -> (r: Result<(Vec<(String, Value)>, usize), Error>)
    requires
        pos <= data@.len(),
    ensures
        match r {
            Ok(p) => pos <= p.1 <= data@.len() && spec_dec_fields(data@.skip(pos as int)) == Ok::<
                _,
                Error,
            >((field_models(p.0@), (p.1 - pos) as nat)),
            Err(e) => spec_dec_fields(data@.skip(pos as int)) == Err::<
                (Seq<(Seq<u8>, ValueModel)>, nat),
                Error,
            >(e),
        },
    decreases data@.len() - pos, 0nat, 0int,
{
    let avail = data.len();
    let ghost suffix = data@.skip(pos as int);
    if avail - pos < 1 {
        return Err(Error::IncompleteNbtValue);
    }
    let t = data[pos];
    if t == 0 {
        let empty: Vec<(String, Value)> = Vec::new();
        assert(field_models(empty@) =~= Seq::<(Seq<u8>, ValueModel)>::empty());
        return Ok((empty, pos + 1));
    }
    proof {
        assert(suffix.skip(1) =~= data@.skip(pos + 1));
    }
    match read_bare_string(data, pos + 1) {
        Err(e) => Err(e),
        Ok((name, p2)) => {
            match Kind::from_id(i8_from_u8(t)) {
                None => Err(Error::UnknownTag(t)),
                Some(k) => {
                    proof {
                        lemma_tail_align(data@, pos as int, (p2 - pos) as nat);
                    }
                    match read_payload(data, p2, k) {
                        Err(e) => Err(e),
                        Ok((v, p3)) => {
                            proof {
                                lemma_tail_align(data@, pos as int, (p3 - pos) as nat);
                            }
                            match read_fields(data, p3) {
                                Err(e) => Err(e),
                                Ok((mut rest, p4)) => {
                                    let ghost nm = utf8_bytes(name@);
                                    let ghost vm = v@;
                                    let ghost old_rest = rest@;
                                    rest.insert(0, (name, v));
                                    proof {
                                        assert(rest@.drop_first() =~= old_rest);
                                        assert(field_models(rest@) =~= seq![(nm, vm)]
                                            + field_models(old_rest));
                                    }
                                    Ok((rest, p4))
                                },
                            }
                        },
                    }
                },
            }
        },
    }
}

/// Decode a whole stream: the root must be a record; its name is read and
/// discarded; bytes after the root's terminator are ignored.
pub fn decode(data: &Vec<u8>) -> (r: Result<Value, Error>)
    ensures
        decode_result_matches(r, spec_decode_root(data@)),
{
    let avail = data.len();
    if avail < 1 {
        return Err(Error::IncompleteNbtValue);
    }
    proof {
        assert(data@.skip(0) =~= data@);
    }
    let t = data[0];
    if t != 10 {
        return Err(Error::NoRootCompound);
    }
    proof {
        assert(data@.skip(1) =~= data@.subrange(1, data@.len() as int));
    }
    match read_bare_string(data, 1) {
        Err(e) => Err(e),
        Ok((_name, p2)) => {
            proof {
                lemma_tail_align(data@, 0, p2 as nat);
            }
            match read_fields(data, p2) {
                Err(e) => Err(e),
                Ok((fs, _p3)) => Ok(Value::Compound(fs)),
            }
        },
    }
}

/// Decode objects from their byte stream. Only records can stand at the
/// root, because the format has no bare scalars.
pub struct Decoder {
    pub data: Vec<u8>,
}

impl Decoder {
    /// Create a decoder over a byte stream.
    pub fn new(src: Vec<u8>) -> (r: Decoder)
        ensures
            r.data@ == src@,
    {
        Decoder { data: src }
    }

    /// Decode the stream's root record.
    pub fn decode(&self) -> (r: Result<Value, Error>)
        ensures
            decode_result_matches(r, spec_decode_root(self.data@)),
    {
        decode(&self.data)
    }
}

// ---------------------------------------------------------------------------
// Compressed pass-through variants: decompression is a filter applied to the
// raw byte stream before decoding, unaware of the framing.
// ---------------------------------------------------------------------------

/// What gzip decompression yields on a byte string, or nothing when the input
/// is not a well-formed gzip stream. This names the result of reading a
/// `flate2::read::GzDecoder` to its end, which depends on the bytes alone.
pub uninterp spec fn gunzip_of(data: Seq<u8>) -> Option<Seq<u8>>;

/// What zlib decompression yields on a byte string, or nothing when the input
/// is not a well-formed zlib stream. This names the result of reading a
/// `flate2::read::ZlibDecoder` to its end, which depends on the bytes alone.
pub uninterp spec fn zlib_inflate_of(data: Seq<u8>) -> Option<Seq<u8>>;

/// Relies on `flate2::read::GzDecoder`: reading it to the end yields the
/// decompressed bytes, a function of the compressed bytes alone, and fails
/// exactly on malformed input, an early end of the stream being reported as
/// `std::io::ErrorKind::UnexpectedEof`.
#[verifier::external_body]
fn gunzip(data: &Vec<u8>) -> (r: Result<Vec<u8>, Error>)
    ensures
        match r {
            Ok(b) => gunzip_of(data@) == Some(b@),
            Err(e) => gunzip_of(data@) is None && (e == Error::IncompleteNbtValue || e matches
                Error::Io(_)),
        },
{
    let mut out = Vec::new();
    let mut gz = flate2::read::GzDecoder::new(data.as_slice());
    match std::io::Read::read_to_end(&mut gz, &mut out) {
        Ok(_) => Ok(out),
        Err(e) => if e.kind() == std::io::ErrorKind::UnexpectedEof {
            Err(Error::IncompleteNbtValue)
        } else {
            Err(Error::Io(e.to_string()))
        },
    }
}

/// Relies on `flate2::read::ZlibDecoder`: reading it to the end yields the
/// decompressed bytes, a function of the compressed bytes alone, and fails
/// exactly on malformed input, an early end of the stream being reported as
/// `std::io::ErrorKind::UnexpectedEof`.
#[verifier::external_body]
fn zlib_inflate(data: &Vec<u8>) -> (r: Result<Vec<u8>, Error>)
    ensures
        match r {
            Ok(b) => zlib_inflate_of(data@) == Some(b@),
            Err(e) => zlib_inflate_of(data@) is None && (e == Error::IncompleteNbtValue || e
                matches Error::Io(_)),
        },
{
    let mut out = Vec::new();
    let mut z = flate2::read::ZlibDecoder::new(data.as_slice());
    match std::io::Read::read_to_end(&mut z, &mut out) {
        Ok(_) => Ok(out),
        Err(e) => if e.kind() == std::io::ErrorKind::UnexpectedEof {
            Err(Error::IncompleteNbtValue)
        } else {
            Err(Error::Io(e.to_string()))
        },
    }
}

/// Decode a gzip-compressed stream: decompress, then decode the raw bytes.
pub fn from_gzip(data: &Vec<u8>) -> (r: Result<Value, Error>)
    ensures
        match gunzip_of(data@) {
            Some(raw) => decode_result_matches(r, spec_decode_root(raw)),
            None => r matches Err(e) && (e == Error::IncompleteNbtValue || e matches Error::Io(_)),
        },
{
    match gunzip(data) {
        Ok(raw) => decode(&raw),
        Err(e) => Err(e),
    }
}

/// Decode a zlib-compressed stream: decompress, then decode the raw bytes.
pub fn from_zlib(data: &Vec<u8>) -> (r: Result<Value, Error>)
    ensures
        match zlib_inflate_of(data@) {
            Some(raw) => decode_result_matches(r, spec_decode_root(raw)),
            None => r matches Err(e) && (e == Error::IncompleteNbtValue || e matches Error::Io(_)),
        },
{
    match zlib_inflate(data) {
        Ok(raw) => decode(&raw),
        Err(e) => Err(e),
    }
}

} // verus!
