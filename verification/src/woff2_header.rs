//! Reading the WOFF2 header and directories that precede the compressed
//! font-data stream.
use vstd::prelude::*;

verus! {

/// Why a UIntBase128 value could not be read.
#[derive(Clone, Copy, Debug, PartialEq, Eq, Structural)]
pub enum Base128Fault {
    Truncated,
    LeadingZero,
    Overflow,
    TooLong,
}

/// The message reported for a UIntBase128 fault.
pub open spec fn base128_message(f: Base128Fault) -> Seq<char> {
    match f {
        Base128Fault::Truncated => "Truncated base 128"@,
        Base128Fault::LeadingZero => "Leading zero in base 128"@,
        Base128Fault::Overflow => "Overflow in base 128"@,
        Base128Fault::TooLong => "More than 5 bytes in base 128"@,
    }
}

/// Reading a UIntBase128 from `data` at `off`, after `i` bytes holding the
/// value `acc`: the outcome and the offset reached.
pub open spec fn base128_from(data: Seq<u8>, off: int, i: int, acc: int) -> (Result<int, Base128Fault>, int)
    decreases 5 - i,
{
    if i >= 5 {
        (Err(Base128Fault::TooLong), off)
    } else if off >= data.len() {
        (Err(Base128Fault::Truncated), off)
    } else if i == 0 && data[off] == 0x80 {
        (Err(Base128Fault::LeadingZero), off + 1)
    } else if acc >= 0x200_0000 {
        (Err(Base128Fault::Overflow), off + 1)
    } else {
        let next = acc * 128 + data[off] % 128;
        if data[off] < 128 {
            (Ok(next), off + 1)
        } else {
            base128_from(data, off + 1, i + 1, next)
        }
    }
}

/// Reading a UIntBase128 (at most five bytes, seven value bits each, high
/// bit set on every byte but the last) from `data` at `off`.
pub open spec fn base128_at(data: Seq<u8>, off: int) -> (Result<int, Base128Fault>, int) {
    base128_from(data, off, 0, 0)
}

/// Why a 255UInt16 value could not be read.
#[derive(Clone, Copy, Debug, PartialEq, Eq, Structural)]
pub enum U255Fault {
    Truncated,
    TruncatedWord,
    TruncatedByte1,
    TruncatedByte2,
}

/// The message reported for a 255UInt16 fault.
pub open spec fn u255_message(f: U255Fault) -> Seq<char> {
    match f {
        U255Fault::Truncated => "Truncated 255_u16"@,
        U255Fault::TruncatedWord => "Truncated 255_u16 word"@,
        U255Fault::TruncatedByte1 => "Truncated 255_u16 byte 1"@,
        U255Fault::TruncatedByte2 => "Truncated 255_u16 byte 2"@,
    }
}

/// Reading a 255UInt16 from `data` at `off`: the outcome and the offset
/// reached. Code 253 is followed by a big-endian word, 255 by a byte plus
/// 253, 254 by a byte plus 506; any other byte is the value itself.
pub open spec fn u255_at(data: Seq<u8>, off: int) -> (Result<int, U255Fault>, int) {
    if off >= data.len() {
        (Err(U255Fault::Truncated), off)
    } else {
        let code = data[off];
        let o = off + 1;
        if code == 253 {
            if o + 2 > data.len() {
                (Err(U255Fault::TruncatedWord), o)
            } else {
                (Ok(data[o] * 256 + data[o + 1]), o + 2)
            }
        } else if code == 255 {
            if o >= data.len() {
                (Err(U255Fault::TruncatedByte1), o)
            } else {
                (Ok(data[o] + 253), o + 1)
            }
        } else if code == 254 {
            if o >= data.len() {
                (Err(U255Fault::TruncatedByte2), o)
            } else {
                (Ok(data[o] + 506), o + 1)
            }
        } else {
            (Ok(code as int), o)
        }
    }
}

/// Reads a UIntBase128 at `*offset`, advancing `*offset` past the bytes
/// consumed (also when the value is refused).
pub fn get_base_128(data: &[u8], offset: &mut usize) -> (r: Result<u32, String>)
    ensures
        ({
            let (res, end) = base128_at(data@, *old(offset) as int);
            &&& *final(offset) as int == end
            &&& match res {
                Ok(v) => r matches Ok(x) && x as int == v,
                Err(f) => r matches Err(e) && e@ == base128_message(f),
            }
        }),
{
    let ghost off0 = *offset as int;
    let mut accum: u32 = 0;
    let mut i: usize = 0;
    while i < 5
        invariant
            i <= 5,
            accum < 0x1_0000_0000,
            i == 0 ==> accum == 0,
            base128_from(data@, *offset as int, i as int, accum as int) == base128_at(data@, off0),
            off0 == *old(offset) as int,
        decreases 5 - i,
    {
        if *offset >= data.len() {
            return Err(String::from_str("Truncated base 128"));
        }
        let byte = data[*offset];
        *offset = *offset + 1;
        if i == 0 && byte == 0x80 {
            return Err(String::from_str("Leading zero in base 128"));
        }
        if accum >> 25 != 0 {
            assert(accum >> 25 != 0 ==> accum >= 0x200_0000) by (bit_vector);
            return Err(String::from_str("Overflow in base 128"));
        }
        assert(accum >> 25 == 0 ==> accum < 0x200_0000) by (bit_vector);
        assert(accum < 0x200_0000 ==> (accum << 7) | ((byte & 0x7F) as u32) == accum * 128 + byte % 128)
            by (bit_vector);
        assert(byte & 0x7F == byte % 128) by (bit_vector);
        assert((byte & 0x80 == 0) == (byte < 128)) by (bit_vector);
        accum = (accum << 7) | ((byte & 0x7F) as u32);
        if byte & 0x80 == 0 {
            return Ok(accum);
        }
        i = i + 1;
    }
    Err(String::from_str("More than 5 bytes in base 128"))
}

/// Reads a 255UInt16 at `*offset`, advancing `*offset` past the bytes
/// consumed (also when the value is refused).
pub fn get_255_u16(data: &[u8], offset: &mut usize) -> (r: Result<u16, String>)
    ensures
        ({
            let (res, end) = u255_at(data@, *old(offset) as int);
            &&& *final(offset) as int == end
            &&& match res {
                Ok(v) => r matches Ok(x) && x as int == v,
                Err(f) => r matches Err(e) && e@ == u255_message(f),
            }
        }),
{
    if *offset >= data.len() {
        return Err(String::from_str("Truncated 255_u16"));
    }
    let code = data[*offset];
    *offset = *offset + 1;
    if code == 253 {
        if data.len() - *offset < 2 {
            return Err(String::from_str("Truncated 255_u16 word"));
        }
        let val: u16 = (data[*offset] as u16) * 256 + data[*offset + 1] as u16;
        *offset = *offset + 2;
        Ok(val)
    } else if code == 255 {
        if *offset >= data.len() {
            return Err(String::from_str("Truncated 255_u16 byte 1"));
        }
        let val: u16 = data[*offset] as u16 + 253;
        *offset = *offset + 1;
        Ok(val)
    } else if code == 254 {
        if *offset >= data.len() {
            return Err(String::from_str("Truncated 255_u16 byte 2"));
        }
        let val: u16 = data[*offset] as u16 + 506;
        *offset = *offset + 1;
        Ok(val)
    } else {
        Ok(code as u16)
    }
}


/// The message of a refused UIntBase128 read.
pub open spec fn b128_result_msg(r: Result<int, Base128Fault>) -> Seq<char> {
    match r {
        Err(f) => base128_message(f),
        Ok(_) => Seq::empty(),
    }
}

/// The message of a refused 255UInt16 read.
pub open spec fn u255_result_msg(r: Result<int, U255Fault>) -> Seq<char> {
    match r {
        Err(f) => u255_message(f),
        Ok(_) => Seq::empty(),
    }
}

/// The table tag implied by a known-table index (`glyf` is 10, `loca` 11);
/// other indices are not needed to place the stream and read as zeros.
pub open spec fn known_tag(table_ref: int) -> (u8, u8, u8, u8) {
    if table_ref == 10 {
        (0x67, 0x6C, 0x79, 0x66)
    } else if table_ref == 11 {
        (0x6C, 0x6F, 0x63, 0x61)
    } else {
        (0, 0, 0, 0)
    }
}

/// `tag` is `glyf` or `loca`.
pub open spec fn is_glyf_or_loca(tag: (u8, u8, u8, u8)) -> bool {
    tag == (0x67u8, 0x6Cu8, 0x79u8, 0x66u8) || tag == (0x6Cu8, 0x6Fu8, 0x63u8, 0x61u8)
}

/// One table-directory entry at `off`: flags byte, optional explicit tag,
/// `origLength`, and `transformLength` unless the transform is the null one.
/// Gives the offset after the entry, or the message of the refusal.
pub open spec fn table_entry(data: Seq<u8>, off: int) -> Result<int, Seq<char>> {
    if off >= data.len() {
        Err("Truncated table directory"@)
    } else {
        let flags = data[off];
        let version = (flags / 64) * 64;
        let table_ref = flags % 64;
        let o1 = off + 1;
        if table_ref == 63 && o1 + 4 > data.len() {
            Err("Truncated table directory tag"@)
        } else {
            let tag = if table_ref == 63 {
                (data[o1], data[o1 + 1], data[o1 + 2], data[o1 + 3])
            } else {
                known_tag(table_ref as int)
            };
            let o2 = if table_ref == 63 { o1 + 4 } else { o1 };
            let (orig, o3) = base128_at(data, o2);
            if orig is Err {
                Err(b128_result_msg(orig))
            } else {
                let null_transform = if is_glyf_or_loca(tag) { version == 0xC0 } else { version == 0 };
                if null_transform {
                    Ok(o3)
                } else {
                    let (transformed, o4) = base128_at(data, o3);
                    if transformed is Err {
                        Err(b128_result_msg(transformed))
                    } else {
                        Ok(o4)
                    }
                }
            }
        }
    }
}

/// `n` table-directory entries starting at `off`.
pub open spec fn table_directory(data: Seq<u8>, off: int, n: nat) -> Result<int, Seq<char>>
    decreases n,
{
    if n == 0 {
        Ok(off)
    } else {
        match table_entry(data, off) {
            Ok(o) => table_directory(data, o, (n - 1) as nat),
            Err(e) => Err(e),
        }
    }
}

/// `n` 255UInt16 table indices starting at `off`.
pub open spec fn u255_run(data: Seq<u8>, off: int, n: nat) -> Result<int, Seq<char>>
    decreases n,
{
    if n == 0 {
        Ok(off)
    } else {
        let (r, o) = u255_at(data, off);
        if r is Err {
            Err(u255_result_msg(r))
        } else {
            u255_run(data, o, (n - 1) as nat)
        }
    }
}

/// `n` collection font entries starting at `off`: table count, flavor,
/// table indices.
pub open spec fn font_entries(data: Seq<u8>, off: int, n: nat) -> Result<int, Seq<char>>
    decreases n,
{
    if n == 0 {
        Ok(off)
    } else {
        let (r, o) = u255_at(data, off);
        match r {
            Err(_) => Err(u255_result_msg(r)),
            Ok(num_tables) => if o + 4 > data.len() {
                Err("Truncated font entry flavor"@)
            } else {
                match u255_run(data, o + 4, num_tables as nat) {
                    Ok(o2) => font_entries(data, o2, (n - 1) as nat),
                    Err(e) => Err(e),
                }
            },
        }
    }
}

/// The collection directory at `off`: version, font count, font entries.
pub open spec fn collection_directory(data: Seq<u8>, off: int) -> Result<int, Seq<char>> {
    if off + 4 > data.len() {
        Err("Truncated collection header version"@)
    } else {
        let (r, o) = u255_at(data, off + 4);
        match r {
            Err(_) => Err(u255_result_msg(r)),
            Ok(num_fonts) => font_entries(data, o, num_fonts as nat),
        }
    }
}

/// The big-endian 16-bit value at `off`.
pub open spec fn be_u16(data: Seq<u8>, off: int) -> int {
    data[off] * 256 + data[off + 1]
}

/// The big-endian 32-bit value at `off`.
pub open spec fn be_u32(data: Seq<u8>, off: int) -> int {
    ((data[off] * 256 + data[off + 1]) * 256 + data[off + 2]) * 256 + data[off + 3]
}

/// The data starts with the WOFF2 signature `wOF2`.
pub open spec fn has_woff2_signature(data: Seq<u8>) -> bool {
    data.len() >= 4 && data[0] == 0x77 && data[1] == 0x4F && data[2] == 0x46 && data[3] == 0x32
}

/// The header's flavor is `ttcf`: the file holds a font collection.
pub open spec fn has_collection_flavor(data: Seq<u8>) -> bool {
    data[4] == 0x74 && data[5] == 0x74 && data[6] == 0x63 && data[7] == 0x66
}

/// Where the compressed font-data stream of a WOFF2 file starts and ends:
/// right after the 48-byte header, the table directory and (for a
/// collection) the collection directory, for `totalCompressedSize` bytes.
pub open spec fn stream_bounds(data: Seq<u8>) -> Result<(int, int), Seq<char>> {
    if data.len() < 48 {
        Err("Truncated header"@)
    } else if !has_woff2_signature(data) {
        Err("Invalid magic word"@)
    } else {
        let total = be_u32(data, 20);
        match table_directory(data, 48, be_u16(data, 12) as nat) {
            Err(e) => Err(e),
            Ok(o) => if has_collection_flavor(data) {
                match collection_directory(data, o) {
                    Ok(o2) => Ok((o2, o2 + total)),
                    Err(e) => Err(e),
                }
            } else {
                Ok((o, o + total))
            },
        }
    }
}

/// Locates the compressed font-data stream of a WOFF2 file: where it
/// starts, and its `totalCompressedSize`.
pub fn compressed_stream_extent(font_bytes: &[u8]) -> (r: Result<(usize, u32), String>)
    ensures
        match stream_bounds(font_bytes@) {
            Ok((s, e)) => r matches Ok((a, t)) && a as int == s && a + t == e,
            Err(m) => r matches Err(e) && e@ == m,
        },
{
    let ghost data = font_bytes@;
    let len = font_bytes.len();
    if len < 48 {
        return Err(String::from_str("Truncated header"));
    }
    if !(font_bytes[0] == 0x77 && font_bytes[1] == 0x4F && font_bytes[2] == 0x46 && font_bytes[3] == 0x32) {
        return Err(String::from_str("Invalid magic word"));
    }
    let collection = font_bytes[4] == 0x74 && font_bytes[5] == 0x74 && font_bytes[6] == 0x63
        && font_bytes[7] == 0x66;
    let num_tables: u16 = (font_bytes[12] as u16) * 256 + font_bytes[13] as u16;
    let total_compressed_size: u32 = (((font_bytes[20] as u32) * 256 + font_bytes[21] as u32) * 256
        + font_bytes[22] as u32) * 256 + font_bytes[23] as u32;
    let mut offset: usize = 48;
    let mut t: u16 = 0;
    while t < num_tables
        invariant
            data == font_bytes@,
            len == data.len(),
            t <= num_tables,
            num_tables as int == be_u16(data, 12),
            data.len() >= 48,
            has_woff2_signature(data),
            collection == has_collection_flavor(data),
            total_compressed_size as int == be_u32(data, 20),
            offset <= len,
            table_directory(data, offset as int, (num_tables - t) as nat) == table_directory(
                data,
                48,
                be_u16(data, 12) as nat,
            ),
        decreases num_tables - t,
    {
        if offset >= len {
            return Err(String::from_str("Truncated table directory"));
        }
        let flags = font_bytes[offset];
        offset = offset + 1;
        let version = flags & 0xC0;
        let table_ref = flags & 0x3f;
        assert(flags & 0xC0 == (flags / 64) * 64) by (bit_vector);
        assert(flags & 0x3f == flags % 64) by (bit_vector);
        let mut tag: (u8, u8, u8, u8) = (0, 0, 0, 0);
        if table_ref == 0x3f {
            if len - offset < 4 {
                return Err(String::from_str("Truncated table directory tag"));
            }
            tag = (font_bytes[offset], font_bytes[offset + 1], font_bytes[offset + 2], font_bytes[offset + 3]);
            offset = offset + 4;
        } else {
            if table_ref == 10 {
                tag = (0x67, 0x6C, 0x79, 0x66);
            } else if table_ref == 11 {
                tag = (0x6C, 0x6F, 0x63, 0x61);
            }
        }
        let ghost b1 = offset as int;
        let orig = get_base_128(font_bytes, &mut offset);
        if let Err(e) = orig {
            return Err(e);
        }
        proof {
            lemma_base128_offset_bounded(data, b1, 0, 0);
        }
        let glyf_or_loca = (tag.0 == 0x67 && tag.1 == 0x6C && tag.2 == 0x79 && tag.3 == 0x66)
            || (tag.0 == 0x6C && tag.1 == 0x6F && tag.2 == 0x63 && tag.3 == 0x61);
        let is_null_transform = if glyf_or_loca { version == 0xC0 } else { version == 0 };
        if !is_null_transform {
            let ghost b2 = offset as int;
            let transformed = get_base_128(font_bytes, &mut offset);
            if let Err(e) = transformed {
                return Err(e);
            }
            proof {
                lemma_base128_offset_bounded(data, b2, 0, 0);
            }
        }
        t = t + 1;
    }
    let ghost after_tables = offset as int;
    if collection {
        if len - offset < 4 {
            return Err(String::from_str("Truncated collection header version"));
        }
        offset = offset + 4;
        let num_fonts = match get_255_u16(font_bytes, &mut offset) {
            Ok(v) => v,
            Err(e) => {
                return Err(e);
            },
        };
        proof {
            lemma_u255_offset_bounded(data, after_tables + 4);
        }
        let mut f: u16 = 0;
        while f < num_fonts
            invariant
                data == font_bytes@,
                len == data.len(),
                f <= num_fonts,
                data.len() >= 48,
                has_woff2_signature(data),
                collection,
                has_collection_flavor(data),
                total_compressed_size as int == be_u32(data, 20),
                table_directory(data, 48, be_u16(data, 12) as nat) == Ok::<int, Seq<char>>(after_tables),
                offset <= len,
                collection_directory(data, after_tables) == font_entries(
                    data,
                    offset as int,
                    (num_fonts - f) as nat,
                ),
            decreases num_fonts - f,
        {
            let ghost font_start = offset as int;
            let nt = match get_255_u16(font_bytes, &mut offset) {
                Ok(v) => v,
                Err(e) => {
                    return Err(e);
                },
            };
            proof {
                lemma_u255_offset_bounded(data, font_start);
            }
            if len - offset < 4 {
                return Err(String::from_str("Truncated font entry flavor"));
            }
            offset = offset + 4;
            let ghost run_start = offset as int;
            let mut k: u16 = 0;
            while k < nt
                invariant
                    data == font_bytes@,
                    len == data.len(),
                    k <= nt,
                    data.len() >= 48,
                    has_woff2_signature(data),
                    collection,
                    has_collection_flavor(data),
                    total_compressed_size as int == be_u32(data, 20),
                    table_directory(data, 48, be_u16(data, 12) as nat) == Ok::<int, Seq<char>>(after_tables),
                    offset <= len,
                    f < num_fonts,
                    u255_at(data, font_start) == (Ok::<int, U255Fault>(nt as int), run_start - 4),
                    run_start + 0 <= len,
                    collection_directory(data, after_tables) == font_entries(data, font_start, (num_fonts - f) as nat),
                    u255_run(data, offset as int, (nt - k) as nat) == u255_run(data, run_start, nt as nat),
                decreases nt - k,
            {
                let ghost before = offset as int;
                let idx = get_255_u16(font_bytes, &mut offset);
                if let Err(e) = idx {
                    return Err(e);
                }
                proof {
                    lemma_u255_offset_bounded(data, before);
                }
                k = k + 1;
            }
            f = f + 1;
        }
    }
    Ok((offset, total_compressed_size))
}

/// The end of the compressed stream, where it can be located, fits in
/// `usize`.
pub open spec fn stream_end_fits(data: Seq<u8>) -> bool {
    stream_bounds(data) matches Ok((_, e)) ==> e <= usize::MAX
}

/// Whether the end of the compressed stream, where it can be located, fits
/// in `usize`.
pub fn stream_end_in_range(font_bytes: &[u8]) -> (b: bool)
    ensures
        b == stream_end_fits(font_bytes@),
{
    match compressed_stream_extent(font_bytes) {
        Ok((start, total)) => (total as usize) <= usize::MAX - start,
        Err(_) => true,
    }
}

/// Locates the compressed font-data stream of a WOFF2 file: its start and
/// end offsets.
pub fn find_compressed_stream_bounds(font_bytes: &[u8]) -> (r: Result<(usize, usize), String>)
    requires
        stream_end_fits(font_bytes@),
    ensures
        match stream_bounds(font_bytes@) {
            Ok((s, e)) => r matches Ok((a, b)) && a as int == s && b as int == e,
            Err(m) => r matches Err(e) && e@ == m,
        },
{
    match compressed_stream_extent(font_bytes) {
        Ok((start, total)) => Ok((start, start + total as usize)),
        Err(e) => Err(e),
    }
}

/// Reading a UIntBase128 never moves past the end of the data.
pub proof fn lemma_base128_offset_bounded(data: Seq<u8>, off: int, i: int, acc: int)
    requires
        0 <= off <= data.len(),
    ensures
        off <= base128_from(data, off, i, acc).1 <= data.len(),
    decreases 5 - i,
{
    if i < 5 && off < data.len() && !(i == 0 && data[off] == 0x80) && acc < 0x200_0000
        && data[off] >= 128 {
        lemma_base128_offset_bounded(data, off + 1, i + 1, acc * 128 + data[off] % 128);
    }
}

/// Reading a 255UInt16 never moves past the end of the data.
pub proof fn lemma_u255_offset_bounded(data: Seq<u8>, off: int)
    requires
        0 <= off <= data.len(),
    ensures
        off <= u255_at(data, off).1 <= data.len(),
{
}

/// A table-directory entry that is read ends after it starts, within the
/// data.
proof fn lemma_table_entry_bounded(data: Seq<u8>, off: int)
    requires
        0 <= off <= data.len(),
    ensures
        table_entry(data, off) matches Ok(o) ==> off < o <= data.len(),
{
    if off < data.len() {
        let flags = data[off];
        let table_ref = flags % 64;
        let o1 = off + 1;
        if !(table_ref == 63 && o1 + 4 > data.len()) {
            let o2 = if table_ref == 63 { o1 + 4 } else { o1 };
            lemma_base128_offset_bounded(data, o2, 0, 0);
            let o3 = base128_at(data, o2).1;
            lemma_base128_offset_bounded(data, o3, 0, 0);
        }
    }
}

/// A table directory that is read ends within the data.
proof fn lemma_table_directory_bounded(data: Seq<u8>, off: int, n: nat)
    requires
        0 <= off <= data.len(),
    ensures
        table_directory(data, off, n) matches Ok(o) ==> off <= o <= data.len(),
    decreases n,
{
    if n > 0 {
        lemma_table_entry_bounded(data, off);
        if let Ok(o) = table_entry(data, off) {
            lemma_table_directory_bounded(data, o, (n - 1) as nat);
        }
    }
}

/// A run of table indices that is read ends within the data.
proof fn lemma_u255_run_bounded(data: Seq<u8>, off: int, n: nat)
    requires
        0 <= off <= data.len(),
    ensures
        u255_run(data, off, n) matches Ok(o) ==> off <= o <= data.len(),
    decreases n,
{
    if n > 0 {
        lemma_u255_offset_bounded(data, off);
        lemma_u255_run_bounded(data, u255_at(data, off).1, (n - 1) as nat);
    }
}

/// Collection font entries that are read end within the data.
proof fn lemma_font_entries_bounded(data: Seq<u8>, off: int, n: nat)
    requires
        0 <= off <= data.len(),
    ensures
        font_entries(data, off, n) matches Ok(o) ==> off <= o <= data.len(),
    decreases n,
{
    if n > 0 {
        lemma_u255_offset_bounded(data, off);
        let (r, o) = u255_at(data, off);
        if let Ok(num_tables) = r {
            if o + 4 <= data.len() {
                lemma_u255_run_bounded(data, o + 4, num_tables as nat);
                if let Ok(o2) = u255_run(data, o + 4, num_tables as nat) {
                    lemma_font_entries_bounded(data, o2, (n - 1) as nat);
                }
            }
        }
    }
}

/// The compressed stream of a WOFF2 file starts after the 48-byte header
/// and within the file, and spans `totalCompressedSize` bytes.
pub proof fn law_stream_starts_within_file(data: Seq<u8>)
    ensures
        stream_bounds(data) matches Ok((s, e)) ==> 48 <= s <= data.len() && e == s + be_u32(data, 20),
{
    if data.len() >= 48 && has_woff2_signature(data) {
        lemma_table_directory_bounded(data, 48, be_u16(data, 12) as nat);
        if let Ok(o) = table_directory(data, 48, be_u16(data, 12) as nat) {
            if has_collection_flavor(data) && o + 4 <= data.len() {
                lemma_u255_offset_bounded(data, o + 4);
                let (r, o1) = u255_at(data, o + 4);
                if let Ok(num_fonts) = r {
                    lemma_font_entries_bounded(data, o1, num_fonts as nat);
                }
            }
        }
    }
}

/// The length of a table-directory entry of a known table (index below
/// 63, no explicit tag): the flags byte, then `origLength`, then a
/// `transformLength` exactly when the table is transformed. For `glyf`
/// (index 10) and `loca` (index 11) transform version 0 means transformed
/// and only version 3 is the null transform; for every other table version
/// 0 is the null transform and any other version is transformed.
pub proof fn law_table_entry_transform_length(data: Seq<u8>, off: int)
    requires
        0 <= off < data.len(),
        data[off] % 64 < 63,
    ensures
        ({
            let t = data[off] % 64;
            let v = data[off] / 64;
            let first = base128_at(data, off + 1);
            let second = base128_at(data, first.1);
            let transformed = if t == 10 || t == 11 { v != 3 } else { v != 0 };
            &&& first.0 is Ok && !transformed ==> table_entry(data, off) == Ok::<int, Seq<char>>(first.1)
            &&& first.0 is Ok && second.0 is Ok && transformed ==> table_entry(data, off) == Ok::<int, Seq<char>>(
                second.1,
            )
        }),
{
    let t = data[off] % 64;
    assert(is_glyf_or_loca(known_tag(t as int)) <==> (t == 10 || t == 11));
}

} // verus!
