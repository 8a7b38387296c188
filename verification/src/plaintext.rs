//! Text and other byte strings as points, and points as text again.

use vstd::prelude::*;
use vstd::utf8::{decode_utf8, encode_utf8, valid_utf8};
use crate::bignat::BigNat;
use crate::encoding::{be_nat, fixed_bytes, lemma_fixed_bytes, lemma_fixed_bytes_of_value};
use crate::errors::{DecryptionError, EncryptionError};
use crate::point::{coordinate_bytes, part_start, point_fits, SpherePoint};

verus! {

/// A width at which a byte string can be laid out as three chunks: it is
/// positive, and three chunks of it have a length that the machine can hold.
pub open spec fn mappable(pad: nat) -> bool {
    pad > 0 && 3 * pad <= usize::MAX
}

/// The first `3 * pad` bytes of `data`, with zero bytes behind where `data`
/// is shorter.
pub open spec fn padded_data(data: Seq<u8>, pad: nat) -> Seq<u8> {
    Seq::new(
        3 * pad,
        |i: int|
            if i < data.len() {
                data[i]
            } else {
                0u8
            },
    )
}

/// Chunk `k` (0, 1 or 2) of the padded data.
pub open spec fn chunk(data: Seq<u8>, pad: nat, k: nat) -> Seq<u8>
    recommends
        k < 3,
{
    padded_data(data, pad).subrange(part_start(pad, k), part_start(pad, k) + pad)
}

/// The point that `data` is mapped to at width `pad`: its three chunks, each
/// read as a big-endian number.
pub open spec fn mapped_point(data: Seq<u8>, pad: nat) -> (nat, nat, nat) {
    (be_nat(chunk(data, pad, 0)), be_nat(chunk(data, pad, 1)), be_nat(chunk(data, pad, 2)))
}

/// The three coordinates of a point, each written at width `pad`, one after
/// the other.
pub open spec fn point_bytes(point: (nat, nat, nat), pad: nat) -> Seq<u8>
    recommends
        point_fits(point, pad),
{
    fixed_bytes(point.0, pad) + fixed_bytes(point.1, pad) + fixed_bytes(point.2, pad)
}

/// `bytes` without the zero bytes at its end.
pub open spec fn trim_trailing_zeros(bytes: Seq<u8>) -> Seq<u8>
    decreases bytes.len(),
{
    if bytes.len() > 0 && bytes.last() == 0 {
        trim_trailing_zeros(bytes.drop_last())
    } else {
        bytes
    }
}

/// The point of a byte string, written out again, is the padded string.
pub proof fn lemma_point_bytes_of_mapped(data: Seq<u8>, pad: nat)
    requires
        pad > 0,
    ensures
        point_fits(mapped_point(data, pad), pad),
        point_bytes(mapped_point(data, pad), pad) == padded_data(data, pad),
{
    lemma_fixed_bytes_of_value(chunk(data, pad, 0));
    lemma_fixed_bytes_of_value(chunk(data, pad, 1));
    lemma_fixed_bytes_of_value(chunk(data, pad, 2));
    assert(chunk(data, pad, 0) + chunk(data, pad, 1) + chunk(data, pad, 2) =~= padded_data(
        data,
        pad,
    ));
}

/// Dropping the zero bytes at the end of a padded string gives the string
/// back, where the string is no longer than the padding and does not itself
/// end in a zero byte.
pub proof fn lemma_trim_padded(data: Seq<u8>, pad: nat)
    requires
        data.len() <= 3 * pad,
        data.len() == 0 || data.last() != 0,
    ensures
        trim_trailing_zeros(padded_data(data, pad)) == data,
{
    lemma_trim_prefix(padded_data(data, pad), data.len());
    assert(padded_data(data, pad).subrange(0, data.len() as int) =~= data);
}

/// Where all bytes of `bytes` from `keep` on are zero, trimming `bytes` is
/// trimming its first `keep` bytes.
proof fn lemma_trim_prefix(bytes: Seq<u8>, keep: nat)
    requires
        keep <= bytes.len(),
        forall|i: int| keep <= i < bytes.len() ==> bytes[i] == 0,
    ensures
        trim_trailing_zeros(bytes) == trim_trailing_zeros(bytes.subrange(0, keep as int)),
    decreases bytes.len() - keep,
{
    if keep == bytes.len() {
        assert(bytes.subrange(0, keep as int) =~= bytes);
    } else {
        let shorter = bytes.drop_last();
        lemma_trim_prefix(shorter, keep);
        assert(shorter.subrange(0, keep as int) =~= bytes.subrange(0, keep as int));
    }
}

/// Bytes `from..from + pad_length` of the padded form of `data`.
fn padded_chunk(data: &[u8], pad_length: usize, from: usize) -> (out: Vec<u8>)
    requires
        from + pad_length <= 3 * pad_length <= usize::MAX,
    ensures
        out@ == padded_data(data@, pad_length as nat).subrange(
            from as int,
            from + pad_length,
        ),
{
    let ghost whole = padded_data(data@, pad_length as nat);
    let data_len = data.len();
    let mut out: Vec<u8> = Vec::new();
    let mut i: usize = 0;
    while i < pad_length
        invariant
            i <= pad_length,
            data_len == data@.len(),
            from + pad_length <= 3 * pad_length <= usize::MAX,
            whole == padded_data(data@, pad_length as nat),
            out@ == whole.subrange(from as int, from + i),
        decreases pad_length - i,
    {
        let byte = if from + i < data_len {
            data[from + i]
        } else {
            0u8
        };
        out.push(byte);
        assert(whole.subrange(from as int, from + i).push(byte) =~= whole.subrange(
            from as int,
            from + i + 1,
        ));
        i += 1;
    }
    out
}

/// Maps a byte string to a point: the string is cut off or filled up with
/// zero bytes to three chunks of `pad_length` bytes, and each chunk is read
/// as a big-endian number. Fails where no such chunks can be laid out.
pub fn map_bytes_to_sphere_point(data: &[u8], pad_length: usize) -> (out: Result<
    SpherePoint,
    EncryptionError,
>)
    ensures
        out is Ok <==> mappable(pad_length as nat),
        out matches Err(e) ==> e == EncryptionError::PlaintextMappingFailed,
        out matches Ok(point) ==> point@ == mapped_point(data@, pad_length as nat) && point_fits(
            point@,
            pad_length as nat,
        ),
{
    if pad_length == 0 || pad_length > usize::MAX / 3 {
        return Err(EncryptionError::PlaintextMappingFailed);
    }
    let x = BigNat { bytes: padded_chunk(data, pad_length, 0) };
    let y = BigNat { bytes: padded_chunk(data, pad_length, pad_length) };
    let z = BigNat { bytes: padded_chunk(data, pad_length, 2 * pad_length) };
    proof {
        crate::point::lemma_value_of_width(x.bytes@);
        crate::point::lemma_value_of_width(y.bytes@);
        crate::point::lemma_value_of_width(z.bytes@);
    }
    Ok(SpherePoint { x, y, z })
}

/// Maps a text to a point, by its UTF-8 bytes.
pub fn map_plaintext_to_sphere_point(plaintext: &str, pad_length: usize) -> (out: Result<
    SpherePoint,
    EncryptionError,
>)
    ensures
        out is Ok <==> mappable(pad_length as nat),
        out matches Err(e) ==> e == EncryptionError::PlaintextMappingFailed,
        out matches Ok(point) ==> point@ == mapped_point(
            encode_utf8(plaintext@),
            pad_length as nat,
        ) && point_fits(point@, pad_length as nat),
{
    map_bytes_to_sphere_point(plaintext.as_bytes(), pad_length)
}

/// Calls `String::from_utf8`, which gives the text of the bytes where they
/// are valid UTF-8, and an error where they are not.
#[verifier::external_body]
fn string_from_utf8(bytes: Vec<u8>) -> (text: Option<String>)
    ensures
        text is Some <==> valid_utf8(bytes@),
        text matches Some(s) ==> s@ == decode_utf8(bytes@),
{
    match String::from_utf8(bytes) {
        Ok(text) => Some(text),
        Err(_) => None,
    }
}

/// Reads a point as text: the coordinates are written at width `pad_length`
/// one after the other, the zero bytes at the end are dropped, and the rest
/// is decoded as UTF-8.
pub fn map_sphere_point_to_plaintext(sphere: &SpherePoint, pad_length: usize) -> (out: Result<
    String,
    DecryptionError,
>)
    requires
        point_fits(sphere@, pad_length as nat),
        3 * pad_length <= usize::MAX,
    ensures
        out is Ok <==> valid_utf8(trim_trailing_zeros(point_bytes(sphere@, pad_length as nat))),
        out matches Err(e) ==> e == DecryptionError::PlaintextReconstructionFailed,
        out matches Ok(text) ==> text@ == decode_utf8(
            trim_trailing_zeros(point_bytes(sphere@, pad_length as nat)),
        ),
{
    let mut bytes = coordinate_bytes(&sphere.x, pad_length).unwrap();
    let mut y_bytes = coordinate_bytes(&sphere.y, pad_length).unwrap();
    let mut z_bytes = coordinate_bytes(&sphere.z, pad_length).unwrap();
    proof {
        lemma_fixed_bytes(sphere.x@, pad_length as nat);
        lemma_fixed_bytes(sphere.y@, pad_length as nat);
        lemma_fixed_bytes(sphere.z@, pad_length as nat);
    }
    bytes.append(&mut y_bytes);
    bytes.append(&mut z_bytes);
    let ghost whole = point_bytes(sphere@, pad_length as nat);
    assert(bytes@ == whole);
    let mut keep: usize = bytes.len();
    assert(whole.subrange(0, keep as int) =~= whole);
    while keep > 0 && bytes[keep - 1] == 0
        invariant
            keep <= bytes@.len(),
            bytes@ == whole,
            trim_trailing_zeros(whole) == trim_trailing_zeros(whole.subrange(0, keep as int)),
        decreases keep,
    {
        assert(whole.subrange(0, keep as int).drop_last() =~= whole.subrange(0, keep - 1));
        keep -= 1;
    }
    bytes.truncate(keep);
    match string_from_utf8(bytes) {
        Some(text) => Ok(text),
        None => Err(DecryptionError::PlaintextReconstructionFailed),
    }
}

} // verus!
