//! Writing fitted curves as equation text: polynomials in a spline's
//! parameter, and sums of sines or cosines for Fourier strokes.
use vstd::prelude::*;
use crate::text::{decimal, push_char, push_decimal};

verus! {

/// A number as the equation writer reads it: whether it is zero, whether
/// its sign is negative, whether its magnitude is one, and its text and
/// the text of its magnitude (zero written `0`).
pub struct Number {
    pub zero: bool,
    pub negative: bool,
    pub unit: bool,
    pub text: String,
    pub magnitude: String,
}

impl Number {
    /// The fields agree: a number is zero when its magnitude reads `0`, a
    /// unit when it reads `1`, and its text is its magnitude, after a minus
    /// when it is negative and not zero.
    pub open spec fn wf(self) -> bool {
        &&& self.zero == (self.magnitude@ == "0"@)
        &&& self.unit == (self.magnitude@ == "1"@)
        &&& self.text@ == (if self.negative && !self.zero {
            seq!['-'] + self.magnitude@
        } else {
            self.magnitude@
        })
    }

    /// The number with sign `negative` and magnitude text `magnitude`.
    pub fn new(negative: bool, magnitude: String) -> (n: Number)
        ensures
            n.wf(),
            n.negative == negative,
            n.magnitude@ == magnitude@,
    {
        proof {
            reveal_strlit("0");
            reveal_strlit("1");
        }
        let m = magnitude.as_str();
        let single = m.unicode_len() == 1;
        let zero = single && m.get_char(0) == '0';
        let unit = single && m.get_char(0) == '1';
        proof {
            assert("0"@ =~= seq!['0']);
            assert("1"@ =~= seq!['1']);
            if single {
                assert(m@ =~= seq![m@[0]]);
            }
            assert(zero == (m@ == "0"@));
            assert(unit == (m@ == "1"@));
        }
        let mut text = String::new();
        if negative && !zero {
            push_char(&mut text, '-');
        }
        text.append(m);
        assert(text@ =~= (if negative && !zero { seq!['-'] + m@ } else { m@ }));
        Number { zero, negative, unit, text, magnitude }
    }
}

/// One Fourier term: amplitude, frequency and phase.
pub struct FourierTermText {
    pub amplitude: Number,
    pub frequency: Number,
    pub phase: Number,
}

/// `body`, with a leading minus when `negative`.
pub open spec fn signed(negative: bool, body: Seq<char>) -> Seq<char> {
    if negative {
        seq!['-'] + body
    } else {
        body
    }
}

/// How a term continues the expression: ` - ` and the term without its
/// minus when it has one, else ` + ` and the term.
pub open spec fn connect(t: Seq<char>) -> Seq<char> {
    if t.len() > 0 && t[0] == '-' {
        " - "@ + t.drop_first()
    } else {
        " + "@ + t
    }
}

/// The first `n` terms joined.
pub open spec fn join_prefix(ts: Seq<Seq<char>>, n: int) -> Seq<char>
    decreases n,
{
    if n <= 1 {
        ts[0]
    } else {
        join_prefix(ts, n - 1) + connect(ts[n - 1])
    }
}

/// The terms joined into one expression; `0` when there are none.
pub open spec fn joined(ts: Seq<Seq<char>>) -> Seq<char> {
    if ts.len() == 0 {
        "0"@
    } else {
        join_prefix(ts, ts.len() as int)
    }
}

/// The views of a list of strings.
pub open spec fn texts(ss: Seq<String>) -> Seq<Seq<char>> {
    ss.map_values(|s: String| s@)
}

/// The variable raised to `power`: nothing for power zero, the variable
/// itself for power one, else `Math.pow(v, p)` for JavaScript or `v^p`.
pub open spec fn power_text(var: Seq<char>, power: nat, javascript: bool) -> Seq<char> {
    if power == 0 {
        Seq::empty()
    } else if power == 1 {
        var
    } else if javascript {
        "Math.pow("@ + var + ", "@ + decimal(power) + ")"@
    } else {
        var + "^"@ + decimal(power)
    }
}

/// A coefficient's text joined to the variable's: `1` when both are empty.
pub open spec fn poly_body(coefficient: Seq<char>, variable: Seq<char>) -> Seq<char> {
    if coefficient.len() == 0 && variable.len() == 0 {
        "1"@
    } else if coefficient.len() == 0 {
        variable
    } else if variable.len() == 0 {
        coefficient
    } else {
        coefficient + "*"@ + variable
    }
}

/// The term of coefficient `c` at `power`: a unit coefficient is left out
/// before a power of the variable.
pub open spec fn poly_term(c: Number, power: nat, var: Seq<char>, javascript: bool) -> Seq<char> {
    let coefficient = if power == 0 || !c.unit {
        c.magnitude@
    } else {
        Seq::empty()
    };
    signed(c.negative, poly_body(coefficient, power_text(var, power, javascript)))
}

/// The terms of the non-zero coefficients among the first `n`, in order of
/// power.
pub open spec fn poly_terms(cs: Seq<Number>, n: int, var: Seq<char>, javascript: bool) -> Seq<Seq<char>>
    decreases n,
{
    if n <= 0 {
        Seq::empty()
    } else {
        let rest = poly_terms(cs, n - 1, var, javascript);
        if cs[n - 1].zero {
            rest
        } else {
            rest.push(poly_term(cs[n - 1], (n - 1) as nat, var, javascript))
        }
    }
}

/// The polynomial with coefficients `cs` (lowest power first) in `var`.
pub open spec fn polynomial_text(cs: Seq<Number>, var: Seq<char>, javascript: bool) -> Seq<char> {
    joined(poly_terms(cs, cs.len() as int, var, javascript))
}

/// Appends `t` to `s`.
fn push_text(s: &mut String, t: &String)
    ensures
        final(s)@ == old(s)@ + t@,
{
    s.append(t.as_str());
}

/// Joins terms into one expression: each after the first continues it
/// with ` - ` when it starts with a minus, else with ` + `.
pub fn join_terms(terms: &Vec<String>) -> (r: String)
    ensures
        r@ == joined(texts(terms@)),
{
    let ghost ts = texts(terms@);
    let n = terms.len();
    if n == 0 {
        return String::from_str("0");
    }
    let mut r = terms[0].clone();
    let mut i: usize = 1;
    while i < n
        invariant
            n == terms@.len(),
            n == ts.len(),
            ts == texts(terms@),
            1 <= i <= n,
            r@ == join_prefix(ts, i as int),
        decreases n - i,
    {
        let t = terms[i].as_str();
        let len = t.unicode_len();
        assert(t@ == ts[i as int]);
        if len > 0 && t.get_char(0) == '-' {
            r.append(" - ");
            r.append(t.substring_char(1, len));
            assert(t@.subrange(1, len as int) =~= t@.drop_first());
        } else {
            r.append(" + ");
            r.append(t);
        }
        i = i + 1;
        assert(r@ =~= join_prefix(ts, i as int));
    }
    r
}

/// The term of coefficient `c` at `power` of `var`.
pub fn polynomial_term(c: &Number, power: usize, var: &str, javascript: bool) -> (r: String)
    ensures
        r@ == poly_term(*c, power as nat, var@, javascript),
{
    let coefficient = if power == 0 || !c.unit {
        c.magnitude.clone()
    } else {
        String::new()
    };
    let mut variable = String::new();
    if power == 1 {
        variable.append(var);
    } else if power > 1 {
        if javascript {
            variable.append("Math.pow(");
            variable.append(var);
            variable.append(", ");
            push_decimal(&mut variable, power as u64);
            variable.append(")");
        } else {
            variable.append(var);
            variable.append("^");
            push_decimal(&mut variable, power as u64);
        }
    }
    assert(variable@ =~= power_text(var@, power as nat, javascript));
    let clen = coefficient.as_str().unicode_len();
    let vlen = variable.as_str().unicode_len();
    let mut r = String::new();
    if c.negative {
        push_char(&mut r, '-');
    }
    if clen == 0 && vlen == 0 {
        r.append("1");
    } else if clen == 0 {
        push_text(&mut r, &variable);
    } else if vlen == 0 {
        push_text(&mut r, &coefficient);
    } else {
        push_text(&mut r, &coefficient);
        r.append("*");
        push_text(&mut r, &variable);
    }
    assert(r@ =~= poly_term(*c, power as nat, var@, javascript));
    r
}

/// Writes the polynomial with coefficients `coefficients` (lowest power
/// first) in `var`: zero coefficients are left out, a unit coefficient is
/// not written before a power of the variable, and signs join the terms.
pub fn fmt_polynomial(coefficients: &Vec<Number>, var: &str, javascript: bool) -> (r: String)
    ensures
        r@ == polynomial_text(coefficients@, var@, javascript),
{
    let ghost cs = coefficients@;
    let n = coefficients.len();
    let mut terms: Vec<String> = Vec::new();
    let mut p: usize = 0;
    while p < n
        invariant
            n == cs.len(),
            cs == coefficients@,
            p <= n,
            texts(terms@) == poly_terms(cs, p as int, var@, javascript),
        decreases n - p,
    {
        let c = &coefficients[p];
        if !c.zero {
            let t = polynomial_term(c, p, var, javascript);
            terms.push(t);
        }
        p = p + 1;
        assert(texts(terms@) =~= poly_terms(cs, p as int, var@, javascript));
    }
    join_terms(&terms)
}

/// The argument of a Fourier term: the frequency times `t` (`t` and `-t`
/// for frequencies one and minus one, nothing for zero), then the phase
/// added or subtracted when it is not zero; the phase alone when the
/// frequency is zero.
pub open spec fn fourier_argument(frequency: Number, phase: Number) -> Seq<char> {
    let ft = if frequency.zero {
        Seq::empty()
    } else if frequency.unit && !frequency.negative {
        "t"@
    } else if frequency.unit && frequency.negative {
        "-t"@
    } else {
        frequency.text@ + "*t"@
    };
    if ft.len() == 0 {
        phase.text@
    } else if phase.zero {
        ft
    } else if phase.negative {
        ft + " - "@ + phase.magnitude@
    } else {
        ft + " + "@ + phase.text@
    }
}

/// What follows the multiple of `t` in a Fourier argument: nothing for a
/// zero phase, else ` + ` and the phase, or ` - ` and its magnitude when it
/// is negative.
pub open spec fn phase_suffix(phase: Number) -> Seq<char> {
    if phase.zero {
        Seq::empty()
    } else if phase.negative {
        " - "@ + phase.magnitude@
    } else {
        " + "@ + phase.text@
    }
}

/// The multiple of `t` for a non-zero frequency: its sign, its magnitude
/// and `*` unless the magnitude is one, then `t`.
pub open spec fn t_multiple(frequency: Number) -> Seq<char> {
    (if frequency.negative { "-"@ } else { Seq::empty() }) + (if frequency.unit {
        Seq::empty()
    } else {
        frequency.magnitude@ + "*"@
    }) + "t"@
}

/// The argument of a Fourier term is the phase alone when the frequency is
/// zero. Otherwise it is a multiple of `t` (a text ending in `t`) followed
/// by the phase suffix, whatever the frequency is: a non-zero phase is
/// always written, after ` + `, or after ` - ` as its magnitude. For a
/// well-formed frequency that multiple is its sign, its magnitude and `*`
/// unless that is one, and `t`.
pub proof fn law_fourier_argument_shape(frequency: Number, phase: Number)
    ensures
        frequency.zero ==> fourier_argument(frequency, phase) == phase.text@,
        !frequency.zero ==> {
            let arg = fourier_argument(frequency, phase);
            let n = arg.len() - phase_suffix(phase).len();
            &&& n >= 1
            &&& arg[n - 1] == 't'
            &&& arg.subrange(n, arg.len() as int) == phase_suffix(phase)
            &&& frequency.wf() ==> arg.subrange(0, n) == t_multiple(frequency)
        },
{
    reveal_strlit("-");
    reveal_strlit("*");
    reveal_strlit("t");
    reveal_strlit("-t");
    reveal_strlit("*t");
    if !frequency.zero {
        let ft = if frequency.unit && !frequency.negative {
            "t"@
        } else if frequency.unit && frequency.negative {
            "-t"@
        } else {
            frequency.text@ + "*t"@
        };
        let arg = fourier_argument(frequency, phase);
        let suffix = phase_suffix(phase);
        assert(ft.len() >= 1 && ft[ft.len() - 1] == 't');
        assert(arg =~= ft + suffix);
        assert(arg.subrange(ft.len() as int, arg.len() as int) =~= suffix);
        assert(arg[ft.len() - 1] == ft[ft.len() - 1]);
        assert(arg.subrange(0, ft.len() as int) =~= ft);
        if frequency.wf() {
            assert(ft =~= t_multiple(frequency));
        }
    }
}

/// Writes the argument of a Fourier term.
pub fn fmt_fourier_argument(frequency: &Number, phase: &Number) -> (r: String)
    ensures
        r@ == fourier_argument(*frequency, *phase),
{
    let mut ft = String::new();
    if frequency.zero {
    } else if frequency.unit && !frequency.negative {
        ft.append("t");
    } else if frequency.unit && frequency.negative {
        ft.append("-t");
    } else {
        push_text(&mut ft, &frequency.text);
        ft.append("*t");
    }
    let flen = ft.as_str().unicode_len();
    if flen == 0 {
        phase.text.clone()
    } else if phase.zero {
        ft
    } else if phase.negative {
        ft.append(" - ");
        push_text(&mut ft, &phase.magnitude);
        ft
    } else {
        ft.append(" + ");
        push_text(&mut ft, &phase.text);
        ft
    }
}

/// The term of a Fourier component with function `function` (`cos` or
/// `sin`): the call, times the amplitude's magnitude unless that is one,
/// with the amplitude's sign.
pub open spec fn fourier_term(term: FourierTermText, function: Seq<char>, javascript: bool) -> Seq<char> {
    let arg = fourier_argument(term.frequency, term.phase);
    let call = if javascript {
        "Math."@ + function + "("@ + arg + ")"@
    } else {
        "\\"@ + function + "("@ + arg + ")"@
    };
    let body = if term.amplitude.unit {
        call
    } else {
        term.amplitude.magnitude@ + "*"@ + call
    };
    signed(term.amplitude.negative, body)
}

/// The terms of the first `n` components whose amplitude is not zero.
pub open spec fn fourier_terms(ts: Seq<FourierTermText>, n: int, function: Seq<char>, javascript: bool) -> Seq<Seq<char>>
    decreases n,
{
    if n <= 0 {
        Seq::empty()
    } else {
        let rest = fourier_terms(ts, n - 1, function, javascript);
        if ts[n - 1].amplitude.zero {
            rest
        } else {
            rest.push(fourier_term(ts[n - 1], function, javascript))
        }
    }
}

/// The Fourier sum of the components `ts` with function `function`.
pub open spec fn fourier_text(ts: Seq<FourierTermText>, function: Seq<char>, javascript: bool) -> Seq<char> {
    joined(fourier_terms(ts, ts.len() as int, function, javascript))
}

/// Writes one Fourier term.
pub fn fourier_term_text(term: &FourierTermText, function: &str, javascript: bool) -> (r: String)
    ensures
        r@ == fourier_term(*term, function@, javascript),
{
    let arg = fmt_fourier_argument(&term.frequency, &term.phase);
    let mut call = String::new();
    if javascript {
        call.append("Math.");
    } else {
        call.append("\\");
    }
    call.append(function);
    call.append("(");
    push_text(&mut call, &arg);
    call.append(")");
    let mut r = String::new();
    if term.amplitude.negative {
        push_char(&mut r, '-');
    }
    if !term.amplitude.unit {
        push_text(&mut r, &term.amplitude.magnitude);
        r.append("*");
    }
    push_text(&mut r, &call);
    assert(r@ =~= fourier_term(*term, function@, javascript));
    r
}

/// Writes the Fourier sum of `terms` with `function` (`cos` for x, `sin`
/// for y): components of zero amplitude are left out, a unit amplitude is
/// not written, and signs join the terms.
pub fn fmt_fourier_expression(terms: &Vec<FourierTermText>, function: &str, javascript: bool) -> (r: String)
    ensures
        r@ == fourier_text(terms@, function@, javascript),
{
    let ghost ts = terms@;
    let n = terms.len();
    let mut parts: Vec<String> = Vec::new();
    let mut k: usize = 0;
    while k < n
        invariant
            n == ts.len(),
            ts == terms@,
            k <= n,
            texts(parts@) == fourier_terms(ts, k as int, function@, javascript),
        decreases n - k,
    {
        let term = &terms[k];
        if !term.amplitude.zero {
            let t = fourier_term_text(term, function, javascript);
            parts.push(t);
        }
        k = k + 1;
        assert(texts(parts@) =~= fourier_terms(ts, k as int, function@, javascript));
    }
    join_terms(&parts)
}

/// The parameter of a spline segment that starts at `start`: `t`, or `t`
/// shifted back by the start.
pub open spec fn spline_variable_text(start: Number) -> Seq<char> {
    if start.zero {
        "t"@
    } else if start.negative {
        "(t+"@ + start.magnitude@ + ")"@
    } else {
        "(t-"@ + start.text@ + ")"@
    }
}

/// Writes the parameter of a spline segment that starts at `start`.
pub fn spline_variable(start: &Number) -> (r: String)
    ensures
        r@ == spline_variable_text(*start),
{
    if start.zero {
        String::from_str("t")
    } else if start.negative {
        let mut r = String::from_str("(t+");
        push_text(&mut r, &start.magnitude);
        r.append(")");
        r
    } else {
        let mut r = String::from_str("(t-");
        push_text(&mut r, &start.text);
        r.append(")");
        r
    }
}

/// A zero coefficient adds nothing: appending one as the next power leaves
/// the polynomial's text unchanged, and with only zero coefficients the
/// text is `0`.
pub proof fn law_zero_coefficients_omitted(cs: Seq<Number>, z: Number, var: Seq<char>, javascript: bool)
    requires
        z.zero,
    ensures
        polynomial_text(cs.push(z), var, javascript) == polynomial_text(cs, var, javascript),
        (forall|i: int| 0 <= i < cs.len() ==> (#[trigger] cs[i]).zero) ==> polynomial_text(cs, var, javascript) == "0"@,
{
    let ext = cs.push(z);
    lemma_poly_terms_prefix(ext, cs, cs.len() as int, var, javascript);
    if forall|i: int| 0 <= i < cs.len() ==> (#[trigger] cs[i]).zero {
        lemma_poly_terms_all_zero(cs, cs.len() as int, var, javascript);
    }
}

/// The terms of the first `n` coefficients depend on those alone.
proof fn lemma_poly_terms_prefix(a: Seq<Number>, b: Seq<Number>, n: int, var: Seq<char>, javascript: bool)
    requires
        0 <= n <= a.len(),
        n <= b.len(),
        forall|i: int| 0 <= i < n ==> a[i] == b[i],
    ensures
        poly_terms(a, n, var, javascript) == poly_terms(b, n, var, javascript),
    decreases n,
{
    if n > 0 {
        lemma_poly_terms_prefix(a, b, n - 1, var, javascript);
    }
}

/// Only zero coefficients give no terms.
proof fn lemma_poly_terms_all_zero(cs: Seq<Number>, n: int, var: Seq<char>, javascript: bool)
    requires
        n <= cs.len(),
        forall|i: int| 0 <= i < n ==> (#[trigger] cs[i]).zero,
    ensures
        poly_terms(cs, n, var, javascript).len() == 0,
    decreases n,
{
    if n > 0 {
        lemma_poly_terms_all_zero(cs, n - 1, var, javascript);
    }
}

/// A component of zero amplitude adds nothing to a Fourier sum, and a sum
/// of such components is `0`.
pub proof fn law_zero_amplitudes_omitted(ts: Seq<FourierTermText>, z: FourierTermText, function: Seq<char>, javascript: bool)
    requires
        z.amplitude.zero,
    ensures
        fourier_text(ts.push(z), function, javascript) == fourier_text(ts, function, javascript),
        (forall|i: int| 0 <= i < ts.len() ==> (#[trigger] ts[i]).amplitude.zero) ==> fourier_text(ts, function, javascript)
            == "0"@,
{
    let ext = ts.push(z);
    lemma_fourier_terms_prefix(ext, ts, ts.len() as int, function, javascript);
    if forall|i: int| 0 <= i < ts.len() ==> (#[trigger] ts[i]).amplitude.zero {
        lemma_fourier_terms_all_zero(ts, ts.len() as int, function, javascript);
    }
}

/// The terms of the first `n` components depend on those alone.
proof fn lemma_fourier_terms_prefix(
    a: Seq<FourierTermText>,
    b: Seq<FourierTermText>,
    n: int,
    function: Seq<char>,
    javascript: bool,
)
    requires
        0 <= n <= a.len(),
        n <= b.len(),
        forall|i: int| 0 <= i < n ==> a[i] == b[i],
    ensures
        fourier_terms(a, n, function, javascript) == fourier_terms(b, n, function, javascript),
    decreases n,
{
    if n > 0 {
        lemma_fourier_terms_prefix(a, b, n - 1, function, javascript);
    }
}

/// Only zero amplitudes give no terms.
proof fn lemma_fourier_terms_all_zero(ts: Seq<FourierTermText>, n: int, function: Seq<char>, javascript: bool)
    requires
        n <= ts.len(),
        forall|i: int| 0 <= i < n ==> (#[trigger] ts[i]).amplitude.zero,
    ensures
        fourier_terms(ts, n, function, javascript).len() == 0,
    decreases n,
{
    if n > 0 {
        lemma_fourier_terms_all_zero(ts, n - 1, function, javascript);
    }
}

} // verus!
