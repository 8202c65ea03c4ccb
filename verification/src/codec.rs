//! Compressed MDict blocks: the 8-byte block header, zlib and LZO payloads and
//! the Adler-32 checksum.
use vstd::prelude::*;
use crate::binary::{be_value, read_be};
use crate::text::{decimal_string, decimal_text};
use crate::error::{ErrorView, MdxError, Result};

verus! {

#[verifier::external_type_specification]
#[verifier::external_body]
pub struct ExIoError(std::io::Error);

#[verifier::external_type_specification]
#[verifier::external_body]
pub struct ExLzoError(lzokay::Error);

/// The bytes that a zlib stream decompresses to, or `None` for a stream that
/// `flate2` rejects.
pub uninterp spec fn spec_zlib_decompress(data: Seq<u8>) -> Option<Seq<u8>>;

/// The bytes that an LZO stream decompresses to when at most `capacity` bytes
/// of output are allowed, or `None` for a stream that `lzokay` rejects.
pub uninterp spec fn spec_lzo_decompress(data: Seq<u8>, capacity: nat) -> Option<Seq<u8>>;

/// `flate2::read::ZlibDecoder` read to its end: the decompressed bytes of a
/// zlib stream. The contract names the outcome as a function of the input;
/// nothing more about zlib is claimed.
#[verifier::external_body]
fn zlib_decompress(data: &[u8]) -> (r: core::result::Result<Vec<u8>, std::io::Error>)
    ensures
        r matches Ok(v) ==> spec_zlib_decompress(data@) == Some(v@),
        r is Err ==> spec_zlib_decompress(data@) is None,
{
    let mut decoder = flate2::read::ZlibDecoder::new(data);
    let mut out = Vec::new();
    match std::io::Read::read_to_end(&mut decoder, &mut out) {
        Ok(_) => Ok(out),
        Err(e) => Err(e),
    }
}

/// `lzokay::decompress::decompress` into `dst`: on success the first `n` bytes
/// of `dst` hold the output, which the contract names as a function of the
/// input and of the room in `dst`. The buffer's length never changes; what it
/// holds past the output, or after a failure, is not stated.
///
/// The decoder writes at most 255 bytes for each byte that it has read (a
/// zero byte that extends a match length reads one byte and adds 255), and
/// every check against the room compares a position no further than that. So
/// with room of at least 255 bytes per input byte the outcome does not depend
/// on the room: the last clause says so.
#[verifier::external_body]
fn lzo_decompress(src: &[u8], dst: &mut Vec<u8>) -> (r: core::result::Result<usize, lzokay::Error>)
    ensures
        final(dst)@.len() == old(dst)@.len(),
        r matches Ok(n) ==> n <= old(dst)@.len() && spec_lzo_decompress(src@, old(dst)@.len() as nat)
            == Some(final(dst)@.take(n as int)),
        r is Err ==> spec_lzo_decompress(src@, old(dst)@.len() as nat) is None,
        old(dst)@.len() >= 255 * src@.len() ==> forall|c: nat|
            c >= 255 * src@.len() ==> #[trigger] spec_lzo_decompress(src@, c)
                == spec_lzo_decompress(src@, old(dst)@.len() as nat),
{
    lzokay::decompress::decompress(src, dst.as_mut_slice())
}

/// `Display` of a `std::io::Error`: its message. Nothing is claimed of the
/// text.
#[verifier::external_body]
fn io_error_text(e: &std::io::Error) -> String {
    format!("{e}")
}

/// `Debug` of an `lzokay::Error`: the name of its variant. Nothing is claimed
/// of the text.
#[verifier::external_body]
fn lzo_error_text(e: &lzokay::Error) -> String {
    format!("{e:?}")
}

/// The running `(a, b)` sums of Adler-32.
pub open spec fn adler_sums(data: Seq<u8>) -> (nat, nat)
    decreases data.len(),
{
    if data.len() == 0 {
        (1, 0)
    } else {
        let (a, b) = adler_sums(data.drop_last());
        let a2 = ((a + data.last() as nat) % 65521) as nat;
        (a2, ((b + a2) % 65521) as nat)
    }
}

/// The Adler-32 checksum: `b * 65536 + a`.
pub open spec fn spec_adler32(data: Seq<u8>) -> nat {
    adler_sums(data).1 * 65536 + adler_sums(data).0
}

proof fn lemma_adler_sums_bound(data: Seq<u8>)
    ensures
        adler_sums(data).0 < 65521,
        adler_sums(data).1 < 65521,
    decreases data.len(),
{
    if data.len() > 0 {
        lemma_adler_sums_bound(data.drop_last());
    }
}

/// The Adler-32 checksum of the data.
pub(crate) fn adler32(data: &[u8]) -> (r: u32)
    ensures
        r == spec_adler32(data@),
{
    let mut a: u32 = 1;
    let mut b: u32 = 0;
    let mut i: usize = 0;
    while i < data.len()
        invariant
            i <= data@.len(),
            (a as nat, b as nat) == adler_sums(data@.take(i as int)),
            a < 65521,
            b < 65521,
        decreases data@.len() - i,
    {
        assert(data@.take(i + 1).drop_last() =~= data@.take(i as int));
        assert(data@.take(i + 1).last() == data@[i as int]);
        a = (a + data[i] as u32) % 65521;
        b = (b + a) % 65521;
        i = i + 1;
    }
    assert(data@.take(data@.len() as int) =~= data@);
    assert((b << 16) | a == b * 65536 + a) by (bit_vector)
        requires
            a < 65521,
            b < 65521,
    ;
    (b << 16) | a
}

/// What a compressed block holds: after a type byte, three unused bytes and a
/// big-endian Adler-32 checksum, the payload, stored as is (type 0), as LZO
/// (type 1) or as zlib (type 2). The output must have the expected length
/// unless that is 0, and match the checksum unless that is 0. LZO decodes
/// with room for the expected length.
pub open spec fn spec_decode_block(raw: Seq<u8>, expected_len: nat) -> Option<Seq<u8>> {
    if raw.len() < 8 {
        None
    } else {
        let checksum = be_value(raw.subrange(4, 8));
        let payload = raw.skip(8);
        let out = if raw[0] == 0 {
            Some(payload)
        } else if raw[0] == 2 {
            spec_zlib_decompress(payload)
        } else if raw[0] == 1 {
            spec_lzo_decompress(payload, expected_len)
        } else {
            None
        };
        match out {
            None => None,
            Some(o) => if (expected_len != 0 && o.len() != expected_len) || (checksum != 0
                && spec_adler32(o) != checksum) {
                None
            } else {
                Some(o)
            },
        }
    }
}

/// Why a compressed block does not decode. For a payload that zlib or LZO
/// refuses, the message starts with this text and goes on with the decoder's
/// own description of the failure.
pub open spec fn block_error_message(raw: Seq<u8>, expected_len: nat, label: Seq<char>) -> Seq<char> {
    if raw.len() < 8 {
        label + " is shorter than 8-byte compression header"@
    } else {
        let checksum = be_value(raw.subrange(4, 8));
        let payload = raw.skip(8);
        let out = if raw[0] == 0 {
            Some(payload)
        } else if raw[0] == 2 {
            spec_zlib_decompress(payload)
        } else if raw[0] == 1 {
            spec_lzo_decompress(payload, expected_len)
        } else {
            None
        };
        match out {
            None => if raw[0] == 2 {
                "zlib decode failed for "@ + label + ": "@
            } else if raw[0] == 1 {
                "LZO decode failed for "@ + label + ": "@
            } else {
                "unknown "@ + label + " compression type "@ + decimal_text(raw[0] as nat)
            },
            Some(o) => if expected_len != 0 && o.len() != expected_len {
                label + " decompressed to "@ + decimal_text(o.len()) + " bytes, expected "@
                    + decimal_text(expected_len)
            } else {
                label + " checksum mismatch: expected "@ + decimal_text(checksum) + ", got "@
                    + decimal_text(spec_adler32(o) as nat)
            },
        }
    }
}

/// Whether the message is one of an outside decoder's failure.
pub open spec fn decoder_failed(raw: Seq<u8>, expected_len: nat) -> bool {
    raw.len() >= 8 && ((raw[0] == 2 && spec_zlib_decompress(raw.skip(8)) is None) || (raw[0]
        == 1 && spec_lzo_decompress(
        raw.skip(8),
        expected_len,
    ) is None))
}

/// `a` then `b`.
fn joined(a: &str, b: &str) -> (r: String)
    ensures
        r@ == a@ + b@,
{
    let mut s = String::from_str(a);
    s.append(b);
    s
}

/// Decodes one compressed block whose output is expected to be `expected_len`
/// bytes long (0: any length).
pub(crate) fn decode_compressed_block(raw: &[u8], expected_len: usize, label: &str) -> (r: Result<
    Vec<u8>,
>)
    ensures
        r is Ok <==> spec_decode_block(raw@, expected_len as nat) is Some,
        r matches Ok(v) ==> spec_decode_block(raw@, expected_len as nat) == Some(v@),
        r matches Err(e) ==> e@ matches ErrorView::InvalidFormat(m) && if decoder_failed(
            raw@,
            expected_len as nat,
        ) {
            block_error_message(raw@, expected_len as nat, label@).is_prefix_of(m)
        } else {
            m == block_error_message(raw@, expected_len as nat, label@)
        },
{
    if raw.len() < 8 {
        return Err(MdxError::InvalidFormat(joined(label, " is shorter than 8-byte compression header")));
    }
    let comp_type = raw[0];
    let expected_checksum = read_be(raw, 4, 4);
    let payload = vstd::slice::slice_subrange(raw, 8, raw.len());
    assert(payload@ =~= raw@.skip(8));
    let out: Vec<u8> = if comp_type == 0 {
        vstd::slice::slice_to_vec(payload)
    } else if comp_type == 2 {
        match zlib_decompress(payload) {
            Ok(v) => v,
            Err(e) => {
                let mut m = joined("zlib decode failed for ", label);
                m.append(": ");
                let ghost p = m@;
                m.append(io_error_text(&e).as_str());
                assert(p =~= m@.subrange(0, p.len() as int));
                return Err(MdxError::InvalidFormat(m));
            },
        }
    } else if comp_type == 1 {
        let plen = payload.len();
        // The decoder writes at most 255 bytes per byte it reads, so room for
        // more than that changes nothing: no more is made.
        let room: usize = if plen <= usize::MAX / 255 && expected_len > 255 * plen {
            255 * plen
        } else {
            expected_len
        };
        let mut buf: Vec<u8> = vec![0u8; room];
        let res = lzo_decompress(payload, &mut buf);
        proof {
            if room != expected_len {
                assert(255 * payload@.len() == room);
                assert(spec_lzo_decompress(payload@, expected_len as nat) == spec_lzo_decompress(
                    payload@,
                    room as nat,
                ));
            }
        }
        match res {
            Ok(n) => {
                buf.truncate(n);
                buf
            },
            Err(e) => {
                let mut m = joined("LZO decode failed for ", label);
                m.append(": ");
                let ghost p = m@;
                m.append(lzo_error_text(&e).as_str());
                assert(p =~= m@.subrange(0, p.len() as int));
                return Err(MdxError::InvalidFormat(m));
            },
        }
    } else {
        let mut m = joined("unknown ", label);
        m.append(" compression type ");
        m.append(decimal_string(comp_type as u64).as_str());
        return Err(MdxError::InvalidFormat(m));
    };
    if expected_len != 0 && out.len() != expected_len {
        let mut m = joined(label, " decompressed to ");
        m.append(decimal_string(out.len() as u64).as_str());
        m.append(" bytes, expected ");
        m.append(decimal_string(expected_len as u64).as_str());
        return Err(MdxError::InvalidFormat(m));
    }
    if expected_checksum != 0 {
        let actual = adler32(out.as_slice());
        if actual as u64 != expected_checksum {
            let mut m = joined(label, " checksum mismatch: expected ");
            m.append(decimal_string(expected_checksum).as_str());
            m.append(", got ");
            m.append(decimal_string(actual as u64).as_str());
            return Err(MdxError::InvalidFormat(m));
        }
    }
    Ok(out)
}

} // verus!
