//! Preparing font-file bytes for a font parser or a WOFF2 decoder, and
//! preparing text for glyph layout.
use vstd::prelude::*;
use crate::woff2_header::{compressed_stream_extent, has_woff2_signature, stream_bounds, law_stream_starts_within_file};

verus! {

/// Whether the data starts with the WOFF2 signature `wOF2`.
pub fn is_woff2(bytes: &[u8]) -> (r: bool)
    ensures
        r == has_woff2_signature(bytes@),
{
    bytes.len() >= 4 && bytes[0] == 0x77 && bytes[1] == 0x4F && bytes[2] == 0x46 && bytes[3] == 0x32
}

/// The bytes handed to the WOFF2 decoder: the file cut to one byte past the
/// end of the compressed stream (padded with a zero byte when the stream
/// reaches the end of the file); the whole file when the stream cannot be
/// located.
pub open spec fn woff2_trimmed(data: Seq<u8>) -> Seq<u8> {
    match stream_bounds(data) {
        Ok((_, end)) => if end < data.len() {
            data.subrange(0, end + 1)
        } else {
            data.subrange(0, end).push(0u8)
        },
        Err(_) => data,
    }
}

/// The inputs on which trimming would slice past the end of the file.
pub open spec fn woff2_stream_overruns(data: Seq<u8>) -> bool {
    &&& has_woff2_signature(data)
    &&& stream_bounds(data) matches Ok((_, end)) && end > data.len()
}

/// Whether the compressed stream of a WOFF2 file is said to end past the
/// end of the file.
pub fn stream_overruns(font_bytes: &[u8]) -> (b: bool)
    ensures
        b == woff2_stream_overruns(font_bytes@),
{
    if !is_woff2(font_bytes) {
        return false;
    }
    proof {
        law_stream_starts_within_file(font_bytes@);
    }
    match compressed_stream_extent(font_bytes) {
        Ok((start, total)) => total as usize > font_bytes.len() - start,
        Err(_) => false,
    }
}

/// Font bytes sorted for decoding: a font for a TrueType/OpenType parser,
/// or the input of a WOFF2 decoder.
#[derive(Debug, Clone, PartialEq, Eq)]
pub enum FontData {
    Sfnt(Vec<u8>),
    Woff2(Vec<u8>),
}

/// Copies `data[lo..hi]`.
pub fn copy_range(data: &[u8], lo: usize, hi: usize) -> (r: Vec<u8>)
    requires
        lo <= hi <= data@.len(),
    ensures
        r@ == data@.subrange(lo as int, hi as int),
{
    let mut r: Vec<u8> = Vec::new();
    let mut k = lo;
    while k < hi
        invariant
            lo <= k <= hi,
            hi <= data@.len(),
            r@ == data@.subrange(lo as int, k as int),
        decreases hi - k,
    {
        r.push(data[k]);
        k = k + 1;
        assert(r@ =~= data@.subrange(lo as int, k as int));
    }
    r
}

/// Sorts font bytes for decoding: a WOFF2 file is cut to one byte past
/// its compressed stream (padded with a zero byte when the stream reaches
/// the end of the file, whole when the stream cannot be located), for the
/// WOFF2 decoder; any other bytes are passed through.
pub fn prepare_font_bytes(font_bytes: &[u8]) -> (r: FontData)
    requires
        !woff2_stream_overruns(font_bytes@),
    ensures
        if has_woff2_signature(font_bytes@) {
            r matches FontData::Woff2(v) && v@ == woff2_trimmed(font_bytes@)
        } else {
            r matches FontData::Sfnt(v) && v@ == font_bytes@
        },
{
    let len = font_bytes.len();
    proof {
        assert(font_bytes@.subrange(0, len as int) =~= font_bytes@);
    }
    if is_woff2(font_bytes) {
        let clean_bytes = match compressed_stream_extent(font_bytes) {
            Ok((start, total)) => {
                let end = start + total as usize;
                if end < len {
                    copy_range(font_bytes, 0, end + 1)
                } else {
                    let mut cb = copy_range(font_bytes, 0, end);
                    cb.push(0);
                    cb
                }
            },
            Err(_) => copy_range(font_bytes, 0, len),
        };
        FontData::Woff2(clean_bytes)
    } else {
        FontData::Sfnt(copy_range(font_bytes, 0, len))
    }
}

/// Replaces every two-character escape `\` `c` by `rep`, scanning left to
/// right without overlaps.
pub open spec fn unescape(s: Seq<char>, c: char, rep: char) -> Seq<char>
    decreases s.len(),
{
    if s.len() == 0 {
        s
    } else if s.len() >= 2 && s[0] == '\\' && s[1] == c {
        seq![rep] + unescape(s.subrange(2, s.len() as int), c, rep)
    } else {
        seq![s[0]] + unescape(s.subrange(1, s.len() as int), c, rep)
    }
}

/// The text as laid out: literal `\n` and `\r` escapes become line feed and
/// carriage return.
pub open spec fn layout_text(s: Seq<char>) -> Seq<char> {
    unescape(unescape(s, 'n', '\n'), 'r', '\r')
}

/// One pass of `unescape` over a character vector.
pub fn unescape_chars(s: &Vec<char>, c: char, rep: char) -> (r: Vec<char>)
    ensures
        r@ == unescape(s@, c, rep),
{
    let n = s.len();
    let mut r: Vec<char> = Vec::new();
    let mut i: usize = 0;
    proof {
        assert(s@.subrange(0, n as int) =~= s@);
        assert(r@ + unescape(s@, c, rep) =~= unescape(s@, c, rep));
    }
    while i < n
        invariant
            n == s@.len(),
            i <= n,
            r@ + unescape(s@.subrange(i as int, n as int), c, rep) == unescape(s@, c, rep),
        decreases n - i,
    {
        let ghost rest = s@.subrange(i as int, n as int);
        if i + 1 < n && s[i] == '\\' && s[i + 1] == c {
            proof {
                assert(rest.subrange(2, rest.len() as int) =~= s@.subrange(i + 2, n as int));
                assert(r@.push(rep) + unescape(s@.subrange(i + 2, n as int), c, rep) =~= r@ + unescape(rest, c, rep));
            }
            r.push(rep);
            i = i + 2;
        } else {
            proof {
                assert(rest.subrange(1, rest.len() as int) =~= s@.subrange(i + 1, n as int));
                assert(r@.push(s@[i as int]) + unescape(s@.subrange(i + 1, n as int), c, rep) =~= r@ + unescape(rest, c, rep));
            }
            r.push(s[i]);
            i = i + 1;
        }
    }
    proof {
        assert(s@.subrange(n as int, n as int) =~= Seq::<char>::empty());
        assert(r@ + Seq::<char>::empty() =~= r@);
    }
    r
}

/// Text without a backslash is laid out as it is.
pub proof fn law_unescape_keeps_plain_text(s: Seq<char>, c: char, rep: char)
    requires
        !s.contains('\\'),
    ensures
        unescape(s, c, rep) == s,
        layout_text(s) == s,
    decreases s.len(),
{
    if s.len() > 0 {
        let rest = s.subrange(1, s.len() as int);
        assert(!rest.contains('\\')) by {
            if rest.contains('\\') {
                let k = choose|k: int| 0 <= k < rest.len() && rest[k] == '\\';
                assert(s[k + 1] == '\\');
            }
        }
        assert(s[0] != '\\') by {
            if s[0] == '\\' {
                assert(s.contains('\\'));
            }
        }
        law_unescape_keeps_plain_text(rest, c, rep);
        assert(seq![s[0]] + rest =~= s);
        law_unescape_keeps_plain_text(rest, 'n', '\n');
        law_unescape_keeps_plain_text(rest, 'r', '\r');
    }
}

/// Unescaping works piece by piece: cutting the text anywhere but right
/// after a backslash, the result for the whole is the result for the first
/// piece followed by the result for the second. So every escape is
/// replaced, wherever it stands, not only the first.
pub proof fn law_unescape_concat(s1: Seq<char>, s2: Seq<char>, c: char, rep: char)
    requires
        s1.len() == 0 || s1.last() != '\\',
    ensures
        unescape(s1 + s2, c, rep) == unescape(s1, c, rep) + unescape(s2, c, rep),
    decreases s1.len(),
{
    let s = s1 + s2;
    if s1.len() == 0 {
        assert(s =~= s2);
        assert(unescape(s1, c, rep) + unescape(s2, c, rep) =~= unescape(s2, c, rep));
    } else if s1.len() >= 2 && s1[0] == '\\' && s1[1] == c {
        let t1 = s1.subrange(2, s1.len() as int);
        assert(s.subrange(2, s.len() as int) =~= t1 + s2);
        if t1.len() > 0 {
            assert(t1.last() == s1.last());
        }
        law_unescape_concat(t1, s2, c, rep);
        assert(unescape(s, c, rep) =~= unescape(s1, c, rep) + unescape(s2, c, rep));
    } else {
        let t1 = s1.subrange(1, s1.len() as int);
        assert(s.subrange(1, s.len() as int) =~= t1 + s2);
        if s1.len() == 1 {
            assert(s1[0] == s1.last());
            assert(t1 =~= Seq::<char>::empty());
        } else {
            assert(t1.last() == s1.last());
        }
        law_unescape_concat(t1, s2, c, rep);
        assert(unescape(s, c, rep) =~= unescape(s1, c, rep) + unescape(s2, c, rep));
    }
}

/// An escape alone becomes the replacement, and any other single
/// character stays as it is.
pub proof fn law_unescape_pieces(c: char, rep: char, x: char)
    ensures
        unescape(seq!['\\', c], c, rep) == seq![rep],
        unescape(seq![x], c, rep) == seq![x],
{
    let e = seq!['\\', c];
    let one = seq![x];
    let none = Seq::<char>::empty();
    assert(e.len() == 2 && e[0] == '\\' && e[1] == c);
    assert(e.subrange(2, 2) =~= none);
    assert(one.subrange(1, 1) =~= none);
    assert(unescape(none, c, rep) == none);
    if x == '\\' {
        assert(one.len() < 2);
    }
    assert(unescape(e, c, rep) == seq![rep] + unescape(none, c, rep));
    assert(unescape(one, c, rep) == seq![x] + unescape(none, c, rep));
    assert(seq![rep] + none =~= seq![rep]);
    assert(seq![x] + none =~= seq![x]);
}

/// A backslash that is not followed by the escape letter stays, and
/// scanning goes on from the character after it.
pub proof fn law_unescape_lone_backslash(x: char, s2: Seq<char>, c: char, rep: char)
    requires
        x != c,
    ensures
        unescape(seq!['\\', x] + s2, c, rep) == seq!['\\'] + unescape(seq![x] + s2, c, rep),
{
    let s = seq!['\\', x] + s2;
    assert(s[0] == '\\' && s[1] == x);
    assert(s.subrange(1, s.len() as int) =~= seq![x] + s2);
}

/// The characters of `text` as laid out, with `\n` and `\r` escapes resolved.
pub fn unescape_line_breaks(text: &Vec<char>) -> (r: Vec<char>)
    ensures
        r@ == layout_text(text@),
{
    let once = unescape_chars(text, 'n', '\n');
    unescape_chars(&once, 'r', '\r')
}

/// How the layout treats a character.
#[derive(Clone, Copy, Debug, PartialEq, Eq, Structural)]
pub enum CharRole {
    /// Ends the line: the pen returns to the left margin one line lower.
    LineBreak,
    /// Takes no space and draws nothing.
    Skip,
    /// Drawn from the font's glyph.
    Glyph,
}

/// Unicode control characters (general category Cc).
pub open spec fn is_control(c: char) -> bool {
    (c as u32) <= 0x1F || (0x7F <= (c as u32) && (c as u32) <= 0x9F)
}

/// The role of a character: line feed, vertical tab, form feed and the
/// Unicode line and paragraph separators break the line; carriage return
/// and the other control characters are skipped.
pub open spec fn char_role_spec(c: char) -> CharRole {
    if c == '\n' || c == '\x0b' || c == '\x0c' || c == '\u{2028}' || c == '\u{2029}' {
        CharRole::LineBreak
    } else if c == '\r' || is_control(c) {
        CharRole::Skip
    } else {
        CharRole::Glyph
    }
}

/// The role of `c` in the layout.
pub fn char_role(c: char) -> (r: CharRole)
    ensures
        r == char_role_spec(c),
{
    if c == '\n' || c == '\x0b' || c == '\x0c' || c == '\u{2028}' || c == '\u{2029}' {
        return CharRole::LineBreak;
    }
    if c == '\r' {
        return CharRole::Skip;
    }
    let code = c as u32;
    if code <= 0x1F || (0x7F <= code && code <= 0x9F) {
        CharRole::Skip
    } else {
        CharRole::Glyph
    }
}

/// The glyph drawn for `c`, given the font's glyph ids of `c`, of the
/// tofu block `⬚` and of `?` (id 0 when the font has none): a character
/// other than a space whose glyph is missing is drawn as the tofu block,
/// or as `?` when that is missing too.
pub open spec fn drawn_glyph(c: char, own: u16, tofu: u16, question: u16) -> u16 {
    if own == 0 && c != ' ' {
        if tofu == 0 {
            question
        } else {
            tofu
        }
    } else {
        own
    }
}

/// Picks the glyph drawn for `c`.
pub fn pick_glyph(c: char, own: u16, tofu: u16, question: u16) -> (r: u16)
    ensures
        r == drawn_glyph(c, own, tofu, question),
{
    if own == 0 && c != ' ' {
        if tofu == 0 {
            question
        } else {
            tofu
        }
    } else {
        own
    }
}

} // verus!
