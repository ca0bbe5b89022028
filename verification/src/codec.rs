//! The block compressor, and the frame that each block of a column gets.

use vstd::prelude::*;
use crate::conf::Compression;
use crate::error::Error;
use crate::wire::{be_bytes, put_bytes, put_u32_be};

verus! {

/// `std::io::Error`, which the compressor returns when it fails.
#[verifier::external_type_specification]
#[verifier::external_body]
pub struct ExIoError(std::io::Error);

/// The compression level that every block is packed with.
pub const LZ4_LEVEL: i32 = 9;

/// What the high-compression block mode of LZ4 makes of `src` at `level`.
pub uninterp spec fn lz4_hc_block(src: Seq<u8>, level: int) -> Seq<u8>;

/// `lz4::block::compress` in its high-compression mode, without a size
/// prefix. Where it succeeds, the bytes are those of `lz4_hc_block`; it may
/// fail, when the library cannot take the input or reports an error.
#[verifier::external_body]
pub(crate) fn lz4_compress_hc(src: &[u8], level: i32) -> (r: Result<Vec<u8>, std::io::Error>)
    ensures
        r matches Ok(v) ==> v@ == lz4_hc_block(src@, level as int),
{
    lz4::block::compress(src, Some(lz4::block::CompressionMode::HIGHCOMPRESSION(level)), false)
}

/// The bytes that stand for `data` inside a block.
pub open spec fn packed(data: Seq<u8>, compression: Compression) -> Seq<u8> {
    match compression {
        Compression::Uncompressed => data,
        Compression::LZ4 => lz4_hc_block(data, LZ4_LEVEL as int),
    }
}

/// A block: four zero bytes, then the payload.
pub open spec fn framed(payload: Seq<u8>) -> Seq<u8> {
    be_bytes(0, 4) + payload
}

/// Appends `payload` as one block.
pub fn frame(out: &mut Vec<u8>, payload: &[u8])
    ensures
        final(out)@ == old(out)@ + framed(payload@),
{
    put_u32_be(out, 0);
    put_bytes(out, payload);
    assert(out@ =~= old(out)@ + framed(payload@));
}

/// Appends `data` as one block, packed as `compression` says. Nothing is
/// appended when the compressor fails, which it can only with
/// `Compression::LZ4`.
pub fn compress(out: &mut Vec<u8>, data: &[u8], compression: Compression) -> (r: Result<
    (),
    Error,
>)
    ensures
        match r {
            Ok(()) => final(out)@ == old(out)@ + framed(packed(data@, compression)),
            Err(e) => e == Error::Packaging && compression == Compression::LZ4 && final(out)@
                == old(out)@,
        },
{
    match compression {
        Compression::Uncompressed => {
            frame(out, data);
            Ok(())
        },
        Compression::LZ4 => match lz4_compress_hc(data, LZ4_LEVEL) {
            Ok(bytes) => {
                frame(out, bytes.as_slice());
                Ok(())
            },
            Err(_) => Err(Error::Packaging),
        },
    }
}

} // verus!
