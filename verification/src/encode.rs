//! Packing serialised curve data for embedding in generated pages: zlib
//! compression, then standard base64.
use vstd::prelude::*;
use crate::error::VectomancyError;

verus! {

/// What `flate2`'s zlib encoder at the default compression level writes
/// for `data` into a `Vec`, or nothing when it reports an error.
pub uninterp spec fn zlib_compressed(data: Seq<u8>) -> Option<Seq<u8>>;

/// The base64 digit of a six-bit value, standard alphabet.
pub open spec fn base64_digit(v: int) -> char {
    if v < 26 {
        (('A' as int) + v) as char
    } else if v < 52 {
        (('a' as int) + v - 26) as char
    } else if v < 62 {
        (('0' as int) + v - 52) as char
    } else if v == 62 {
        '+'
    } else {
        '/'
    }
}

/// Standard base64 of `b` (RFC 4648), padded with `=`: every three bytes
/// become four digits.
pub open spec fn base64_text(b: Seq<u8>) -> Seq<char>
    decreases b.len(),
{
    if b.len() == 0 {
        Seq::empty()
    } else if b.len() == 1 {
        seq![base64_digit(b[0] as int / 4), base64_digit((b[0] as int % 4) * 16), '=', '=']
    } else if b.len() == 2 {
        seq![
            base64_digit(b[0] as int / 4),
            base64_digit((b[0] as int % 4) * 16 + b[1] as int / 16),
            base64_digit((b[1] as int % 16) * 4),
            '=',
        ]
    } else {
        seq![
            base64_digit(b[0] as int / 4),
            base64_digit((b[0] as int % 4) * 16 + b[1] as int / 16),
            base64_digit((b[1] as int % 16) * 4 + b[2] as int / 64),
            base64_digit(b[2] as int % 64),
        ] + base64_text(b.subrange(3, b.len() as int))
    }
}

/// The character code of base64 digit `v`.
proof fn lemma_digit_code(v: int)
    requires
        0 <= v < 64,
    ensures
        base64_digit(v) as int == (if v < 26 {
            65 + v
        } else if v < 52 {
            71 + v
        } else if v < 62 {
            v - 4
        } else if v == 62 {
            43
        } else {
            47
        }),
        base64_digit(v) != '=',
{
}

/// Distinct six-bit values have distinct digits.
proof fn lemma_digit_injective(u: int, v: int)
    requires
        0 <= u < 64,
        0 <= v < 64,
        base64_digit(u) == base64_digit(v),
    ensures
        u == v,
{
    lemma_digit_code(u);
    lemma_digit_code(v);
}

/// Base64 text has four digits per started group of three bytes.
proof fn lemma_base64_len(b: Seq<u8>)
    ensures
        base64_text(b).len() == 4 * ((b.len() + 2) / 3),
    decreases b.len(),
{
    if b.len() >= 3 {
        lemma_base64_len(b.subrange(3, b.len() as int));
    }
}

/// Base64 text is lossless: different bytes never give the same text, so
/// the bytes can always be read back from it.
pub proof fn law_base64_lossless(a: Seq<u8>, b: Seq<u8>)
    requires
        base64_text(a) == base64_text(b),
    ensures
        a == b,
    decreases a.len(),
{
    lemma_base64_len(a);
    lemma_base64_len(b);
    let ta = base64_text(a);
    let tb = base64_text(b);
    if a.len() == 0 {
        assert(b.len() == 0);
        assert(a =~= b);
    } else if b.len() == 0 {
        assert(false);
    } else {
        let x = a[0] as int;
        let x2 = b[0] as int;
        assert(ta[0] == base64_digit(x / 4));
        assert(tb[0] == base64_digit(x2 / 4));
        lemma_digit_injective(x / 4, x2 / 4);
        if a.len() >= 2 {
            lemma_digit_code((a[1] as int % 16) * 4 + if a.len() >= 3 { a[2] as int / 64 } else { 0 });
        }
        if b.len() >= 2 {
            lemma_digit_code((b[1] as int % 16) * 4 + if b.len() >= 3 { b[2] as int / 64 } else { 0 });
        }
        if a.len() >= 3 {
            lemma_digit_code(a[2] as int % 64);
        }
        if b.len() >= 3 {
            lemma_digit_code(b[2] as int % 64);
        }
        if a.len() == 1 {
            assert(b.len() == 1);
            lemma_digit_injective((x % 4) * 16, (x2 % 4) * 16);
            assert(a =~= b);
        } else if a.len() == 2 {
            assert(b.len() == 2);
            let y = a[1] as int;
            let y2 = b[1] as int;
            lemma_digit_injective((x % 4) * 16 + y / 16, (x2 % 4) * 16 + y2 / 16);
            lemma_digit_injective((y % 16) * 4, (y2 % 16) * 4);
            assert(a =~= b);
        } else {
            assert(b.len() >= 3);
            let y = a[1] as int;
            let y2 = b[1] as int;
            let z = a[2] as int;
            let z2 = b[2] as int;
            assert(ta[1] == base64_digit((x % 4) * 16 + y / 16));
            assert(tb[1] == base64_digit((x2 % 4) * 16 + y2 / 16));
            assert(ta[2] == base64_digit((y % 16) * 4 + z / 64));
            assert(tb[2] == base64_digit((y2 % 16) * 4 + z2 / 64));
            assert(ta[3] == base64_digit(z % 64));
            assert(tb[3] == base64_digit(z2 % 64));
            lemma_digit_injective((x % 4) * 16 + y / 16, (x2 % 4) * 16 + y2 / 16);
            lemma_digit_injective((y % 16) * 4 + z / 64, (y2 % 16) * 4 + z2 / 64);
            lemma_digit_injective(z % 64, z2 % 64);
            let ra = a.subrange(3, a.len() as int);
            let rb = b.subrange(3, b.len() as int);
            assert(base64_text(ra) =~= ta.subrange(4, ta.len() as int));
            assert(base64_text(rb) =~= tb.subrange(4, tb.len() as int));
            law_base64_lossless(ra, rb);
            assert(a =~= seq![a[0], a[1], a[2]] + ra);
            assert(b =~= seq![b[0], b[1], b[2]] + rb);
        }
    }
}

/// Why compressing failed: writing into the encoder, or finishing it.
pub enum CompressFault {
    Write(String),
    Finish(String),
}

/// Compresses `data` with `flate2::write::ZlibEncoder` at
/// `Compression::default()` into a `Vec`: `write_all`, then `finish`. The
/// contract ties the outcome to `zlib_compressed` of the data: the bytes
/// of a success, or nothing when either step fails, which it reports with
/// the error's text.
#[verifier::external_body]
fn call_zlib_compress(data: &[u8]) -> (r: Result<Vec<u8>, CompressFault>)
    ensures
        match r {
            Ok(v) => zlib_compressed(data@) == Some(v@),
            Err(_) => zlib_compressed(data@) is None,
        },
{
    let mut encoder = flate2::write::ZlibEncoder::new(Vec::new(), flate2::Compression::default());
    match std::io::Write::write_all(&mut encoder, data) {
        Ok(()) => {},
        Err(e) => return Err(CompressFault::Write(e.to_string())),
    }
    encoder.finish().map_err(|e| CompressFault::Finish(e.to_string()))
}

/// Encodes `data` with `base64::engine::general_purpose::STANDARD`: the
/// standard alphabet, padded. Its `encode` panics when the encoded length
/// overflows `usize`, hence the bound.
#[verifier::external_body]
fn call_base64_encode(data: &Vec<u8>) -> (r: String)
    requires
        4 * ((data@.len() + 2) / 3) <= usize::MAX,
    ensures
        r@ == base64_text(data@),
{
    base64::Engine::encode(&base64::engine::general_purpose::STANDARD, data)
}

/// Compressed bytes can be written in base64 within `usize`.
pub open spec fn fits_base64(z: Seq<u8>) -> bool {
    4 * ((z.len() + 2) / 3) <= usize::MAX
}

/// The message for compressed data too long to write in base64.
pub open spec fn too_long_message() -> Seq<char> {
    "encoded data too long"@
}

/// Compresses serialised data with zlib and writes it in base64: the text
/// is the base64 of the zlib bytes of the UTF-8 of `json`. It fails with
/// the encoder's message when compression fails, and when the base64 text
/// would not fit in memory.
pub fn encode_zlib_base64(json: &str) -> (r: Result<String, String>)
    ensures
        match zlib_compressed(vstd::utf8::encode_utf8(json@)) {
            Some(z) => if fits_base64(z) {
                r matches Ok(s) && s@ == base64_text(z)
            } else {
                r matches Err(e) && e@ == too_long_message()
            },
            None => r is Err,
        },
{
    let bytes = json.as_bytes();
    let compressed = match call_zlib_compress(bytes) {
        Ok(v) => v,
        Err(CompressFault::Write(e)) => return Err(e),
        Err(CompressFault::Finish(e)) => return Err(e),
    };
    if ((compressed.len() as u128) + 2) / 3 * 4 > usize::MAX as u128 {
        return Err(String::from_str("encoded data too long"));
    }
    Ok(call_base64_encode(&compressed))
}

/// A message reporting a failed compression: the encoder's text after
/// `Compression error: ` (writing failed) or `Compression finish error: `
/// (finishing failed).
pub open spec fn compression_message(e: Seq<char>) -> bool {
    ||| "Compression error: "@.is_prefix_of(e)
    ||| "Compression finish error: "@.is_prefix_of(e)
}

/// `prefix` followed by `e` as a new string.
fn prefixed(prefix: &str, e: &String) -> (m: String)
    ensures
        m@ == prefix@ + e@,
        prefix@.is_prefix_of(m@),
{
    let mut m = String::from_str(prefix);
    m.append(e.as_str());
    assert(m@.subrange(0, prefix@.len() as int) =~= prefix@);
    m
}

/// Compresses serialised curve data with zlib and writes it in base64,
/// reporting a failure as invalid input: the encoder's message after
/// `Compression error: ` or `Compression finish error: `, or that the text
/// would not fit in memory.
pub fn encode_math_data(json: &str) -> (r: Result<String, VectomancyError>)
    ensures
        match zlib_compressed(vstd::utf8::encode_utf8(json@)) {
            Some(z) => if fits_base64(z) {
                r matches Ok(s) && s@ == base64_text(z)
            } else {
                r matches Err(VectomancyError::InvalidInput(e)) && e@ == too_long_message()
            },
            None => r matches Err(VectomancyError::InvalidInput(e)) && compression_message(e@),
        },
{
    let bytes = json.as_bytes();
    let compressed = match call_zlib_compress(bytes) {
        Ok(v) => v,
        Err(CompressFault::Write(e)) => {
            return Err(VectomancyError::InvalidInput(prefixed("Compression error: ", &e)));
        },
        Err(CompressFault::Finish(e)) => {
            return Err(VectomancyError::InvalidInput(prefixed("Compression finish error: ", &e)));
        },
    };
    if ((compressed.len() as u128) + 2) / 3 * 4 > usize::MAX as u128 {
        return Err(VectomancyError::InvalidInput(String::from_str("encoded data too long")));
    }
    Ok(call_base64_encode(&compressed))
}

} // verus!
