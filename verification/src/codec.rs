//! The page codec applied to tree-store pages: a 4-byte `trv` header whose
//! flags byte marks encryption (bit 7) and names a compression algorithm
//! (low 7 bits), followed by the transformed page. Pages below 128 bytes are
//! never compressed; a page without the header is raw. This codec handles
//! compression; decoding a page whose header marks encryption fails with
//! `EncryptionDisabled`.
use vstd::prelude::*;

use crate::error::Error;

verus! {

/// The compression algorithms a codec header can name.
#[derive(Clone, Copy, PartialEq, Eq, Structural, Debug)]
pub enum Compression {
    /// LZ4 block compression with the uncompressed size prepended.
    Lz4,
}

/// The flags value that names `c`.
pub open spec fn compression_flag(c: Compression) -> u8 {
    match c {
        Compression::Lz4 => 1,
    }
}

impl Compression {
    /// The algorithm a flags value names, if any.
    pub fn from_u8(value: u8) -> (r: Option<Compression>)
        ensures
            value == 1 ==> r == Some(Compression::Lz4),
            value != 1 ==> r is None,
    {
        if value == 1 {
            Some(Compression::Lz4)
        } else {
            None
        }
    }
}

/// What `lz4_flex::block::compress_prepend_size` returns for a payload: a
/// function of the bytes alone.
pub uninterp spec fn lz4_compressed(payload: Seq<u8>) -> Seq<u8>;

/// What `lz4_flex::block::decompress_size_prepended` returns for a block: a
/// function of the bytes alone; `None` models its error.
pub uninterp spec fn lz4_decompressed(block: Seq<u8>) -> Option<Seq<u8>>;

/// Relies on lz4_flex::block::compress_prepend_size: it compresses the bytes
/// with the uncompressed length prepended little-endian, deterministically,
/// and lz4_flex documents decompress_size_prepended as its inverse. The
/// length prefix is a u32, so the inverse holds only of payloads that fit
/// it; larger ones are excluded here.
#[verifier::external_body]
fn lz4_compress(payload: &[u8]) -> (r: Vec<u8>)
    requires payload@.len() <= u32::MAX,
    ensures
        r@ == lz4_compressed(payload@),
        lz4_decompressed(r@) == Some(payload@),
{
    lz4_flex::block::compress_prepend_size(payload)
}

/// Relies on lz4_flex::block::decompress_size_prepended: the result is a
/// function of the block alone, and a malformed block is reported as an
/// error.
#[verifier::external_body]
fn lz4_decompress(block: &[u8]) -> (r: Option<Vec<u8>>)
    ensures
        match r {
            Some(v) => lz4_decompressed(block@) == Some(v@),
            None => lz4_decompressed(block@) is None,
        },
{
    lz4_flex::block::decompress_size_prepended(block).ok()
}

/// Whether a stored page begins with the codec magic `t r v`.
pub open spec fn has_codec_header(p: Seq<u8>) -> bool {
    p.len() >= 4 && p[0] == 116 && p[1] == 114 && p[2] == 118
}

/// The bytes the codec stores for a page: compressed and framed when the
/// codec compresses and the page is at least 128 bytes, else the raw page.
pub open spec fn encoded_page(compression: Option<Compression>, payload: Seq<u8>) -> Seq<u8> {
    if compression == Some(Compression::Lz4) && payload.len() >= 128 {
        seq![116u8, 114u8, 118u8, 1u8] + lz4_compressed(payload)
    } else {
        payload
    }
}

/// What decoding a stored page yields.
pub enum DecodedPage {
    /// The page's plain bytes.
    Plain(Seq<u8>),
    /// The header marks encryption, which this codec does not provide.
    NeedsEncryption,
    /// The header names a compressed body that does not decompress.
    Corrupt,
}

/// The decoding of a stored page: a page without the header is raw; bit 7 of
/// the flags demands encryption; flag value 1 names an LZ4 body; any other
/// flags value passes the body through.
pub open spec fn decoded_page(p: Seq<u8>) -> DecodedPage {
    if !has_codec_header(p) {
        DecodedPage::Plain(p)
    } else if p[3] & 0x80 != 0 {
        DecodedPage::NeedsEncryption
    } else if p[3] & 0x7f == 1 {
        match lz4_decompressed(p.skip(4)) {
            Some(v) => DecodedPage::Plain(v),
            None => DecodedPage::Corrupt,
        }
    } else {
        DecodedPage::Plain(p.skip(4))
    }
}

/// The copy of `payload` from `from` on.
pub fn bytes_suffix(payload: &[u8], from: usize) -> (r: Vec<u8>)
    requires from <= payload@.len(),
    ensures r@ == payload@.skip(from as int),
{
    let mut r: Vec<u8> = Vec::new();
    let mut i: usize = from;
    while i < payload.len()
        invariant
            from <= i <= payload@.len(),
            r@ == payload@.subrange(from as int, i as int),
        decreases payload@.len() - i,
    {
        let b = payload[i];
        r.push(b);
        proof {
            assert(r@ =~= payload@.subrange(from as int, i + 1 as int));
        }
        i = i + 1;
    }
    proof {
        assert(payload@.subrange(from as int, payload@.len() as int) =~= payload@.skip(
            from as int,
        ));
    }
    r
}

/// The copy of all of `payload`.
pub fn bytes_of(payload: &[u8]) -> (r: Vec<u8>)
    ensures r@ == payload@,
{
    let r = bytes_suffix(payload, 0);
    proof {
        assert(payload@.skip(0) =~= payload@);
    }
    r
}

/// The page codec of a tree store, configured with an optional compression
/// algorithm.
#[derive(Debug, Clone)]
pub struct TreeVault {
    pub compression: Option<Compression>,
}

impl TreeVault {
    /// A codec, or nothing when no compression is configured.
    pub fn new_if_needed(compression: Option<Compression>) -> (r: Option<TreeVault>)
        ensures
            match compression {
                Some(c) => r == Some(TreeVault { compression: Some(c) }),
                None => r is None,
            },
    {
        match compression {
            Some(c) => Some(TreeVault { compression: Some(c) }),
            None => None,
        }
    }

    /// Encodes one page: at 128 bytes and above with compression configured,
    /// the framed compressed block; otherwise the raw page. Decoding the
    /// result restores the payload, provided a raw page does not itself begin
    /// with the codec magic. A page must fit the block format's u32 length
    /// prefix.
    pub fn encrypt(&self, payload: &[u8]) -> (r: Vec<u8>)
        requires payload@.len() <= u32::MAX,
        ensures
            r@ == encoded_page(self.compression, payload@),
            ((self.compression == Some(Compression::Lz4) && payload@.len() >= 128)
                || !has_codec_header(payload@)) ==> decoded_page(r@) == DecodedPage::Plain(
                payload@,
            ),
    {
        let compresses = match self.compression {
            Some(Compression::Lz4) => payload.len() >= 128,
            None => false,
        };
        if compresses {
            let block = lz4_compress(payload);
            let mut r: Vec<u8> = Vec::new();
            r.push(116);
            r.push(114);
            r.push(118);
            r.push(1);
            let mut i: usize = 0;
            while i < block.len()
                invariant
                    0 <= i <= block@.len(),
                    r@ == seq![116u8, 114u8, 118u8, 1u8] + block@.take(i as int),
                decreases block@.len() - i,
            {
                let b = block[i];
                r.push(b);
                proof {
                    assert(r@ =~= seq![116u8, 114u8, 118u8, 1u8] + block@.take(i + 1 as int));
                }
                i = i + 1;
            }
            proof {
                assert(block@.take(block@.len() as int) =~= block@);
                assert(r@ =~= seq![116u8, 114u8, 118u8, 1u8] + block@);
                assert(r@.skip(4) =~= block@);
                assert(1u8 & 0x80u8 == 0 && 1u8 & 0x7fu8 == 1) by (bit_vector);
                assert(block@ == lz4_compressed(payload@));
                assert(self.compression == Some(Compression::Lz4));
                assert(payload@.len() >= 128);
                assert(r@ == encoded_page(self.compression, payload@));
            }
            r
        } else {
            let r = bytes_of(payload);
            proof {
                assert(encoded_page(self.compression, payload@) == payload@);
            }
            r
        }
    }

    /// Decodes one stored page per `decoded_page`: raw pages pass through, an
    /// encryption flag is refused, a compressed body is restored, and a
    /// malformed compressed body is a `Database` error.
    pub fn decrypt(&self, payload: &[u8]) -> (r: Result<Vec<u8>, Error>)
        ensures
            match decoded_page(payload@) {
                DecodedPage::Plain(v) => r is Ok && r->Ok_0@ == v,
                DecodedPage::NeedsEncryption => r is Err && r->Err_0 is EncryptionDisabled,
                DecodedPage::Corrupt => r is Err && r->Err_0 is Database,
            },
    {
        if payload.len() >= 4 && payload[0] == 116 && payload[1] == 114 && payload[2] == 118 {
            let header = payload[3];
            let encrypted = header & 0x80 != 0;
            let compression = header & 0x7f;
            if encrypted {
                return Err(Error::EncryptionDisabled);
            }
            let body = bytes_suffix(payload, 4);
            match Compression::from_u8(compression) {
                Some(Compression::Lz4) => {
                    match lz4_decompress(body.as_slice()) {
                        Some(v) => Ok(v),
                        None => {
                            proof {
                                reveal_strlit("the compressed page does not decompress");
                            }
                            Err(Error::Database(
                                <String as vstd::string::StringExecFns>::from_str(
                                    "the compressed page does not decompress",
                                ),
                            ))
                        },
                    }
                },
                None => Ok(body),
            }
        } else {
            Ok(bytes_of(payload))
        }
    }
}

} // verus!
