//! Resolving command-line and configuration settings, and naming the files
//! that a run writes.
use vstd::prelude::*;
use crate::cli::{CliMode, CliOutputFormat, format_of_cli, mode_of_cli};
use crate::config::{Mode, OutputFormat};
use crate::text::{decimal, push_char, push_decimal};

verus! {

/// Threads to run with: the requested count, else the configured one, else
/// one; zero asks for every available thread, and any other count is
/// capped at what is available.
pub open spec fn thread_count(requested: Option<usize>, configured: Option<usize>, available: usize) -> usize {
    let n = match requested {
        Some(v) => v,
        None => match configured {
            Some(v) => v,
            None => 1,
        },
    };
    if n == 0 || n > available {
        available
    } else {
        n
    }
}

/// Resolves the worker thread count.
pub fn resolve_thread_count(requested: Option<usize>, configured: Option<usize>, available: usize) -> (r: usize)
    requires
        available >= 1,
    ensures
        r == thread_count(requested, configured, available),
        1 <= r <= available,
{
    let n = match requested {
        Some(v) => v,
        None => match configured {
            Some(v) => v,
            None => 1,
        },
    };
    if n == 0 || n > available {
        available
    } else {
        n
    }
}

/// The format chosen on the command line, else the configured one, else
/// `fallback`.
pub open spec fn chosen_format(cli: Option<CliOutputFormat>, configured: Option<OutputFormat>, fallback: OutputFormat) -> OutputFormat {
    match cli {
        Some(f) => format_of_cli(f),
        None => match configured {
            Some(f) => f,
            None => fallback,
        },
    }
}

/// Resolves the output format.
pub fn resolve_output_format(cli: Option<CliOutputFormat>, configured: Option<OutputFormat>, fallback: OutputFormat) -> (r: OutputFormat)
    ensures
        r == chosen_format(cli, configured, fallback),
{
    match cli {
        Some(f) => OutputFormat::from(f),
        None => match configured {
            Some(f) => f,
            None => fallback,
        },
    }
}

/// The mode chosen on the command line, else the configured one, else
/// `fallback`.
pub open spec fn chosen_mode(cli: Option<CliMode>, configured: Option<Mode>, fallback: Mode) -> Mode {
    match cli {
        Some(m) => mode_of_cli(m),
        None => match configured {
            Some(m) => m,
            None => fallback,
        },
    }
}

/// Resolves the fitting mode.
pub fn resolve_mode(cli: Option<CliMode>, configured: Option<Mode>, fallback: Mode) -> (r: Mode)
    ensures
        r == chosen_mode(cli, configured, fallback),
{
    match cli {
        Some(m) => Mode::from(m),
        None => match configured {
            Some(m) => m,
            None => fallback,
        },
    }
}

/// The file extension written for each output format.
pub open spec fn format_extension(format: OutputFormat) -> Seq<char> {
    match format {
        OutputFormat::Png => "png"@,
        OutputFormat::Jpg => "jpg"@,
        OutputFormat::Webp => "webp"@,
        OutputFormat::Python => "py"@,
        OutputFormat::Html => "html"@,
        OutputFormat::Json => "json"@,
        OutputFormat::Desmos => "html"@,
    }
}

/// The file extension for `format`.
pub fn output_extension(format: OutputFormat) -> (r: String)
    ensures
        r@ == format_extension(format),
{
    match format {
        OutputFormat::Png => String::from_str("png"),
        OutputFormat::Jpg => String::from_str("jpg"),
        OutputFormat::Webp => String::from_str("webp"),
        OutputFormat::Python => String::from_str("py"),
        OutputFormat::Html => String::from_str("html"),
        OutputFormat::Json => String::from_str("json"),
        OutputFormat::Desmos => String::from_str("html"),
    }
}

/// `c` with an ASCII capital letter turned into its small letter.
pub open spec fn ascii_lower_char(c: char) -> char {
    if 'A' <= c <= 'Z' {
        ((c as int) + 32) as char
    } else {
        c
    }
}

/// `s` with ASCII capitals turned into small letters.
pub open spec fn ascii_lower(s: Seq<char>) -> Seq<char> {
    s.map_values(|c: char| ascii_lower_char(c))
}

/// The characters of `s` with ASCII capitals turned into small letters.
pub fn lowercase_chars(s: &str) -> (r: Vec<char>)
    ensures
        r@ == ascii_lower(s@),
{
    let n = s.unicode_len();
    let mut r: Vec<char> = Vec::new();
    let mut i: usize = 0;
    while i < n
        invariant
            n == s@.len(),
            i <= n,
            r@ == ascii_lower(s@).subrange(0, i as int),
        decreases n - i,
    {
        let c = s.get_char(i);
        let l = if 'A' <= c && c <= 'Z' {
            ((c as u32) + 32) as u8 as char
        } else {
            c
        };
        r.push(l);
        i = i + 1;
        assert(r@ =~= ascii_lower(s@).subrange(0, i as int));
    }
    assert(ascii_lower(s@).subrange(0, n as int) =~= ascii_lower(s@));
    r
}

/// Whether the characters `s` spell `lit`.
pub fn chars_are(s: &Vec<char>, lit: &str) -> (b: bool)
    ensures
        b == (s@ == lit@),
{
    let n = lit.unicode_len();
    if s.len() != n {
        return false;
    }
    let mut i: usize = 0;
    while i < n
        invariant
            n == lit@.len(),
            n == s@.len(),
            i <= n,
            s@.subrange(0, i as int) == lit@.subrange(0, i as int),
        decreases n - i,
    {
        if s[i] != lit.get_char(i) {
            return false;
        }
        i = i + 1;
        assert(s@.subrange(0, i as int) =~= lit@.subrange(0, i as int));
    }
    assert(s@ =~= s@.subrange(0, n as int));
    assert(lit@ =~= lit@.subrange(0, n as int));
    true
}

/// The raster and vector extensions accepted as inputs, in small letters.
pub open spec fn supported_input_extension(ext: Seq<char>) -> bool {
    ext == "png"@ || ext == "jpg"@ || ext == "jpeg"@ || ext == "svg"@
}

/// Whether a file with extension `ext` is taken as an input image, in
/// any mix of capital and small letters. (No character outside ASCII
/// lowercases to a letter of these names, so comparing after ASCII
/// lowercasing agrees with full Unicode lowercasing.)
pub fn is_supported_input_extension(ext: &str) -> (b: bool)
    ensures
        b == supported_input_extension(ascii_lower(ext@)),
{
    let lower = lowercase_chars(ext);
    chars_are(&lower, "png") || chars_are(&lower, "jpg") || chars_are(&lower, "jpeg") || chars_are(&lower, "svg")
}

/// The output format of the `text` subcommand for an output file
/// extension (compared in small letters); JSON when there is none or it is
/// not known.
pub open spec fn text_format_for(ext: Option<Seq<char>>) -> OutputFormat {
    match ext {
        Some(e) => {
            let l = ascii_lower(e);
            if l == "py"@ {
                OutputFormat::Python
            } else if l == "html"@ {
                OutputFormat::Html
            } else if l == "json"@ {
                OutputFormat::Json
            } else if l == "desmos"@ {
                OutputFormat::Desmos
            } else {
                OutputFormat::Json
            }
        },
        None => OutputFormat::Json,
    }
}

/// The view of an optional string slice.
pub open spec fn opt_str(s: Option<&str>) -> Option<Seq<char>> {
    match s {
        Some(t) => Some(t@),
        None => None,
    }
}

/// Picks the output format of the `text` subcommand from the output file's
/// extension.
pub fn text_output_format(ext: Option<&str>) -> (r: OutputFormat)
    ensures
        r == text_format_for(opt_str(ext)),
{
    match ext {
        Some(e) => {
            let l = lowercase_chars(e);
            if chars_are(&l, "py") {
                OutputFormat::Python
            } else if chars_are(&l, "html") {
                OutputFormat::Html
            } else if chars_are(&l, "json") {
                OutputFormat::Json
            } else if chars_are(&l, "desmos") {
                OutputFormat::Desmos
            } else {
                OutputFormat::Json
            }
        },
        None => OutputFormat::Json,
    }
}

/// The name of the file written for an input whose file stem is `stem`.
pub open spec fn output_name(stem: Seq<char>, ext: Seq<char>) -> Seq<char> {
    stem + "_vectomancy."@ + ext
}

/// Names the output file of an input: `<stem>_vectomancy.<ext>`.
pub fn output_file_name(stem: &str, ext: &str) -> (r: String)
    ensures
        r@ == output_name(stem@, ext@),
{
    let mut r = String::from_str(stem);
    r.append("_vectomancy.");
    r.append(ext);
    r
}

/// `digits` padded on the left with zeros to at least `width` characters.
pub open spec fn zero_padded(digits: Seq<char>, width: nat) -> Seq<char> {
    if digits.len() < width {
        Seq::new((width - digits.len()) as nat, |i: int| '0') + digits
    } else {
        digits
    }
}

/// The name of the file written for video frame `index`.
pub open spec fn frame_name(index: u64, ext: Seq<char>) -> Seq<char> {
    "frame_"@ + zero_padded(decimal(index as nat), 4) + "."@ + ext
}

/// Names the output file of a video frame: `frame_<index>.<ext>`, the
/// index written with at least four digits.
pub fn frame_file_name(index: u64, ext: &str) -> (r: String)
    ensures
        r@ == frame_name(index, ext@),
{
    let mut digits = String::new();
    push_decimal(&mut digits, index);
    let ghost d = decimal(index as nat);
    assert(digits@ =~= d);
    let mut r = String::from_str("frame_");
    let ghost head = r@;
    let len = digits.as_str().unicode_len();
    let mut k: usize = len;
    while k < 4
        invariant
            len == d.len(),
            len <= k <= 4 || (len > 4 && k == len),
            r@ == head + Seq::new((k - len) as nat, |i: int| '0'),
        decreases 4 - k,
    {
        push_char(&mut r, '0');
        k = k + 1;
        assert(r@ =~= head + Seq::new((k - len) as nat, |i: int| '0'));
    }
    assert(r@ + d =~= head + zero_padded(d, 4));
    r.append(digits.as_str());
    r.append(".");
    r.append(ext);
    assert(r@ =~= frame_name(index, ext@));
    r
}

/// GPU power preference.
#[derive(Clone, Copy, Debug, PartialEq, Eq, Structural)]
pub enum GpuPower {
    HighPerformance,
    LowPower,
    NoPreference,
}

/// The power preference named by `s` (in any mix of capital and small
/// letters); high performance unless it names another.
pub open spec fn gpu_power_named(s: Seq<char>) -> GpuPower {
    let l = ascii_lower(s);
    if l == "lowpower"@ {
        GpuPower::LowPower
    } else if l == "none"@ {
        GpuPower::NoPreference
    } else {
        GpuPower::HighPerformance
    }
}

/// Reads a GPU power preference.
pub fn parse_gpu_power(s: &str) -> (r: GpuPower)
    ensures
        r == gpu_power_named(s@),
{
    let l = lowercase_chars(s);
    if chars_are(&l, "lowpower") {
        GpuPower::LowPower
    } else if chars_are(&l, "none") {
        GpuPower::NoPreference
    } else {
        GpuPower::HighPerformance
    }
}

} // verus!
