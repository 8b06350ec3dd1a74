//! Pieces of SVG markup: gradient identifiers, stroke colours, path data
//! and compact number text.
use vstd::prelude::*;
use crate::text::{dec_digit, decimal, push_decimal};

verus! {

/// The identifier of gradient number `idx`.
pub open spec fn gradient_id(idx: nat) -> Seq<char> {
    "vecto-grad-"@ + decimal(idx)
}

/// The identifier of gradient number `idx`: `vecto-grad-<idx>`.
pub fn escape_id(idx: usize) -> (r: String)
    ensures
        r@ == gradient_id(idx as nat),
{
    let mut r = String::from_str("vecto-grad-");
    push_decimal(&mut r, idx as u64);
    r
}

/// Takes the next gradient identifier and advances the counter.
pub fn take_gradient_id(next_grad_id: &mut usize) -> (r: String)
    requires
        *old(next_grad_id) < usize::MAX,
    ensures
        r@ == gradient_id(*old(next_grad_id) as nat),
        *final(next_grad_id) == *old(next_grad_id) + 1,
{
    let id = escape_id(*next_grad_id);
    *next_grad_id = *next_grad_id + 1;
    id
}

/// A reference to the gradient with identifier `id`.
pub open spec fn url_of(id: Seq<char>) -> Seq<char> {
    "url(#"@ + id + ")"@
}

/// The stroke value that refers to the gradient with identifier `id`.
pub fn gradient_url(id: &String) -> (r: String)
    ensures
        r@ == url_of(id@),
{
    let mut r = String::from_str("url(#");
    r.append(id.as_str());
    r.append(")");
    r
}

/// The stroke of a path without a colour.
pub open spec fn default_stroke() -> Seq<char> {
    "#000000"@
}

/// The stroke value of a solid colour.
pub open spec fn rgb_text(r: u8, g: u8, b: u8) -> Seq<char> {
    "rgb("@ + decimal(r as nat) + ", "@ + decimal(g as nat) + ", "@ + decimal(b as nat) + ")"@
}

/// Writes a solid colour as `rgb(r, g, b)`.
pub fn solid_stroke(r: u8, g: u8, b: u8) -> (s: String)
    ensures
        s@ == rgb_text(r, g, b),
{
    let mut s = String::from_str("rgb(");
    push_decimal(&mut s, r as u64);
    s.append(", ");
    push_decimal(&mut s, g as u64);
    s.append(", ");
    push_decimal(&mut s, b as u64);
    s.append(")");
    s
}

/// Writes the stroke of a path without a colour.
pub fn black_stroke() -> (s: String)
    ensures
        s@ == default_stroke(),
{
    String::from_str("#000000")
}

/// The path data through points given as text: `M x y` for the first,
/// then ` L x y` for each further point.
pub open spec fn path_data_prefix(pts: Seq<(Seq<char>, Seq<char>)>, n: int) -> Seq<char>
    decreases n,
{
    if n <= 0 {
        Seq::empty()
    } else if n == 1 {
        "M "@ + pts[0].0 + " "@ + pts[0].1
    } else {
        path_data_prefix(pts, n - 1) + " L "@ + pts[n - 1].0 + " "@ + pts[n - 1].1
    }
}

/// The views of coordinate texts.
pub open spec fn coordinate_texts(pts: Seq<(String, String)>) -> Seq<(Seq<char>, Seq<char>)> {
    pts.map_values(|p: (String, String)| (p.0@, p.1@))
}

/// Writes the path data through points whose coordinates are given as
/// text.
pub fn polyline_path(points: &Vec<(String, String)>) -> (d: String)
    ensures
        d@ == path_data_prefix(coordinate_texts(points@), points@.len() as int),
{
    let ghost pts = coordinate_texts(points@);
    let n = points.len();
    let mut d = String::new();
    let mut i: usize = 0;
    while i < n
        invariant
            n == points@.len(),
            pts == coordinate_texts(points@),
            i <= n,
            d@ == path_data_prefix(pts, i as int),
        decreases n - i,
    {
        let p = &points[i];
        assert(p.0@ == pts[i as int].0 && p.1@ == pts[i as int].1);
        if i == 0 {
            d.append("M ");
        } else {
            d.append(" L ");
        }
        d.append(p.0.as_str());
        d.append(" ");
        d.append(p.1.as_str());
        i = i + 1;
        assert(d@ =~= path_data_prefix(pts, i as int));
    }
    d
}

/// `s` without its trailing zeros.
pub open spec fn without_trailing_zeros(s: Seq<char>) -> Seq<char>
    decreases s.len(),
{
    if s.len() > 0 && s.last() == '0' {
        without_trailing_zeros(s.drop_last())
    } else {
        s
    }
}

/// Number text made compact: when it has a decimal point, its trailing
/// zeros go, and then the point too if nothing follows it.
pub open spec fn compact_number(s: Seq<char>) -> Seq<char> {
    if s.contains('.') {
        let t = without_trailing_zeros(s);
        if t.len() > 0 && t.last() == '.' {
            t.drop_last()
        } else {
            t
        }
    } else {
        s
    }
}

/// Drops the trailing zeros of a number's fraction, and the decimal point
/// when no digit is left after it.
pub fn trim_fraction_zeros(s: &str) -> (r: String)
    ensures
        r@ == compact_number(s@),
{
    let n = s.unicode_len();
    let mut has_point = false;
    let mut i: usize = 0;
    while i < n
        invariant
            n == s@.len(),
            i <= n,
            has_point == s@.subrange(0, i as int).contains('.'),
        decreases n - i,
    {
        let ghost pre = s@.subrange(0, i as int);
        let c = s.get_char(i);
        if c == '.' {
            has_point = true;
        }
        i = i + 1;
        proof {
            let post = s@.subrange(0, i as int);
            assert(post == pre.push(c));
            if post.contains('.') && c != '.' {
                let k = choose|k: int| 0 <= k < post.len() && post[k] == '.';
                assert(pre[k] == '.');
            }
            if pre.contains('.') {
                let k = choose|k: int| 0 <= k < pre.len() && pre[k] == '.';
                assert(post[k] == '.');
            }
            if c == '.' {
                assert(post[i - 1] == '.');
            }
        }
    }
    assert(s@.subrange(0, n as int) =~= s@);
    if !has_point {
        return String::from_str(s);
    }
    let mut end: usize = n;
    while end > 0 && s.get_char(end - 1) == '0'
        invariant
            n == s@.len(),
            end <= n,
            without_trailing_zeros(s@.subrange(0, end as int)) == without_trailing_zeros(s@),
        decreases end,
    {
        let ghost pre = s@.subrange(0, end as int);
        assert(pre.drop_last() =~= s@.subrange(0, end - 1));
        end = end - 1;
    }
    let ghost t = s@.subrange(0, end as int);
    assert(without_trailing_zeros(t) == t);
    if end > 0 && s.get_char(end - 1) == '.' {
        end = end - 1;
        assert(t.drop_last() =~= s@.subrange(0, end as int));
    }
    String::from_str(s.substring_char(0, end))
}

/// Decimal notation has at least one digit, and at least two from ten on.
pub proof fn lemma_decimal_len(n: nat)
    ensures
        decimal(n).len() >= 1,
        n >= 10 ==> decimal(n).len() >= 2,
    decreases n,
{
    if n >= 10 {
        lemma_decimal_len(n / 10);
    }
}

/// Decimal notation names one number only.
pub proof fn lemma_decimal_injective(a: nat, b: nat)
    requires
        decimal(a) == decimal(b),
    ensures
        a == b,
    decreases a,
{
    lemma_decimal_len(a);
    lemma_decimal_len(b);
    if a < 10 && b < 10 {
        assert(decimal(a)[0] == dec_digit(a as int));
        assert(decimal(b)[0] == dec_digit(b as int));
    } else if a >= 10 && b >= 10 {
        let da = decimal(a);
        let db = decimal(b);
        assert(da.last() == dec_digit((a % 10) as int));
        assert(db.last() == dec_digit((b % 10) as int));
        assert(da.drop_last() == decimal(a / 10));
        assert(db.drop_last() == decimal(b / 10));
        lemma_decimal_injective(a / 10, b / 10);
    } else {
        assert(decimal(a).len() != decimal(b).len());
    }
}

/// Distinct gradient numbers give distinct identifiers, so gradients taken
/// one after another never share an identifier.
pub proof fn law_gradient_ids_distinct(a: nat, b: nat)
    requires
        a != b,
    ensures
        gradient_id(a) != gradient_id(b),
{
    if gradient_id(a) == gradient_id(b) {
        let p = "vecto-grad-"@;
        assert(gradient_id(a).subrange(p.len() as int, gradient_id(a).len() as int) =~= decimal(a));
        assert(gradient_id(b).subrange(p.len() as int, gradient_id(b).len() as int) =~= decimal(b));
        lemma_decimal_injective(a, b);
    }
}

} // verus!
