//! The grammar of a property value in a text scene (`.tscn`).
//!
//! Every parser here looks at a byte buffer `s` from a position `p` and
//! answers with a [`Scan`]: how far the value reaches, or why it could not be
//! read. The buffer may stop in the middle of a value; a parser then answers
//! `NeedMore` instead of guessing, so that a caller can read more bytes and
//! try again from the same position (see `lemma_value_prefix_stable`).
//!
//! Each executable parser is proved equal to the `spec_` function of the same
//! name, which is the grammar written as a recursive definition.
use vstd::prelude::*;

verus! {

/// The answer of a parser that starts at some position of a buffer.
#[derive(Debug, Clone, Copy, PartialEq, Eq, Structural)]
pub enum Scan {
    /// The value ends right before this index.
    Done(usize),
    /// Not this syntax; an enclosing alternative may try another one.
    Mismatch,
    /// Malformed syntax that no enclosing alternative recovers from.
    Fatal,
    /// An inline `Object(...)` value, which no enclosing alternative recovers from.
    InlineObject,
    /// The buffer ended before the value could be decided.
    NeedMore,
}

/// The byte that ends the data handed to the value parser once the input is exhausted.
pub const SENTINEL: u8 = 0;

/// The bytes of an ASCII string literal.
pub open spec fn ascii(t: Seq<char>) -> Seq<u8> {
    t.map_values(|c: char| c as u8)
}

/// Classes of bytes that runs of input are made of.
#[derive(Debug, Clone, Copy, PartialEq, Eq, Structural)]
pub enum Class {
    /// space, tab, carriage return, line feed
    Ws,
    /// `0`..=`9`
    Digit,
    /// letters and `_`: the first byte of an identifier
    IdentHead,
    /// letters, digits and `_`: the other bytes of an identifier
    IdentTail,
    /// what a packed array payload is made of: digits, whitespace and `,+-.eE`
    Payload,
}

pub open spec fn spec_is_ws(b: u8) -> bool {
    b == 0x20 || b == 0x09 || b == 0x0d || b == 0x0a
}

pub open spec fn spec_is_digit(b: u8) -> bool {
    0x30 <= b <= 0x39
}

pub open spec fn spec_is_alpha(b: u8) -> bool {
    (0x41 <= b <= 0x5a) || (0x61 <= b <= 0x7a)
}

pub open spec fn spec_in_class(c: Class, b: u8) -> bool {
    match c {
        Class::Ws => spec_is_ws(b),
        Class::Digit => spec_is_digit(b),
        Class::IdentHead => spec_is_alpha(b) || b == '_' as u8,
        Class::IdentTail => spec_is_alpha(b) || spec_is_digit(b) || b == '_' as u8,
        Class::Payload => spec_is_digit(b) || spec_is_ws(b) || b == ',' as u8 || b == '+' as u8
            || b == '-' as u8 || b == '.' as u8 || b == 'e' as u8 || b == 'E' as u8,
    }
}

/// A byte that may follow a complete value.
pub open spec fn spec_is_terminator(b: u8) -> bool {
    b == SENTINEL || spec_is_ws(b) || b == '#' as u8 || b == ',' as u8 || b == ':' as u8
        || b == ')' as u8 || b == ']' as u8 || b == '}' as u8
}

/// Whether `b` is whitespace.
pub fn is_ws(b: u8) -> (r: bool)
    ensures
        r == spec_is_ws(b),
{
    b == 0x20 || b == 0x09 || b == 0x0d || b == 0x0a
}

/// Whether `b` belongs to class `c`.
pub fn in_class(c: Class, b: u8) -> (r: bool)
    ensures
        r == spec_in_class(c, b),
{
    let digit = 0x30 <= b && b <= 0x39;
    let alpha = (0x41 <= b && b <= 0x5a) || (0x61 <= b && b <= 0x7a);
    match c {
        Class::Ws => is_ws(b),
        Class::Digit => digit,
        Class::IdentHead => alpha || b == '_' as u8,
        Class::IdentTail => alpha || digit || b == '_' as u8,
        Class::Payload => digit || is_ws(b) || b == ',' as u8 || b == '+' as u8 || b == '-' as u8
            || b == '.' as u8 || b == 'e' as u8 || b == 'E' as u8,
    }
}

/// Whether `b` may follow a complete value.
pub fn is_terminator(b: u8) -> (r: bool)
    ensures
        r == spec_is_terminator(b),
{
    b == SENTINEL || is_ws(b) || b == '#' as u8 || b == ',' as u8 || b == ':' as u8 || b == ')' as u8
        || b == ']' as u8 || b == '}' as u8
}

// ---------------------------------------------------------------------------
// Building blocks
// ---------------------------------------------------------------------------

/// A parse from `p` that succeeds ends between `p` and the end of the buffer.
pub open spec fn bounded(r: Scan, p: int, s: Seq<u8>) -> bool {
    r matches Scan::Done(q) ==> p <= q <= s.len()
}

/// `q` lies after `p` and inside the buffer: the positions of a parse only move forward.
pub open spec fn adv(s: Seq<u8>, p: int, q: usize) -> bool {
    p < q && q <= s.len()
}

/// The byte `c`.
pub open spec fn spec_byte(s: Seq<u8>, p: int, c: u8) -> Scan {
    if p >= s.len() {
        Scan::NeedMore
    } else if s[p] == c {
        Scan::Done((p + 1) as usize)
    } else {
        Scan::Mismatch
    }
}

/// One of the bytes `c1`, `c2`.
pub open spec fn spec_one_of(s: Seq<u8>, p: int, c1: u8, c2: u8) -> Scan {
    if p >= s.len() {
        Scan::NeedMore
    } else if s[p] == c1 || s[p] == c2 {
        Scan::Done((p + 1) as usize)
    } else {
        Scan::Mismatch
    }
}

/// An optional part: a mismatch consumes nothing.
pub open spec fn spec_opt(r: Scan, p: int) -> Scan {
    if r is Mismatch {
        Scan::Done(p as usize)
    } else {
        r
    }
}

/// The first of two alternatives that does not mismatch.
pub open spec fn spec_alt(a: Scan, b: Scan) -> Scan {
    if a is Mismatch {
        b
    } else {
        a
    }
}

/// A part after which a mismatch can no longer be recovered from.
pub open spec fn spec_cut(r: Scan) -> Scan {
    if r is Mismatch {
        Scan::Fatal
    } else {
        r
    }
}

/// The literal bytes `t`.
pub open spec fn spec_tag(s: Seq<u8>, p: int, t: Seq<u8>) -> Scan {
    let m = if s.len() - p < t.len() {
        s.len() - p
    } else {
        t.len() as int
    };
    if s.subrange(p, p + m) != t.subrange(0, m) {
        Scan::Mismatch
    } else if s.len() - p >= t.len() {
        Scan::Done((p + t.len()) as usize)
    } else {
        Scan::NeedMore
    }
}

/// A (possibly empty) run of bytes of class `c`; the run must end inside the buffer.
pub open spec fn spec_take_while(s: Seq<u8>, p: int, c: Class) -> Scan
    decreases s.len() - p,
{
    if p >= s.len() {
        Scan::NeedMore
    } else if spec_in_class(c, s[p]) {
        spec_take_while(s, p + 1, c)
    } else {
        Scan::Done(p as usize)
    }
}

/// A non-empty run of bytes of class `c`; the run must end inside the buffer.
pub open spec fn spec_take_while1(s: Seq<u8>, p: int, c: Class) -> Scan {
    match spec_take_while(s, p, c) {
        Scan::Done(q) => if q as int == p {
            Scan::Mismatch
        } else {
            Scan::Done(q)
        },
        r => r,
    }
}

/// Insignificant whitespace.
pub open spec fn spec_ws(s: Seq<u8>, p: int) -> Scan {
    spec_take_while(s, p, Class::Ws)
}

/// The byte `c` at `p`.
pub fn byte(s: &[u8], p: usize, c: u8) -> (r: Scan)
    requires
        p <= s@.len(),
    ensures
        bounded(r, p as int, s@),
        r == spec_byte(s@, p as int, c),
{
    if p >= s.len() {
        Scan::NeedMore
    } else if s[p] == c {
        Scan::Done(p + 1)
    } else {
        Scan::Mismatch
    }
}

/// The byte `c1` or the byte `c2` at `p`.
pub fn one_of(s: &[u8], p: usize, c1: u8, c2: u8) -> (r: Scan)
    requires
        p <= s@.len(),
    ensures
        bounded(r, p as int, s@),
        r == spec_one_of(s@, p as int, c1, c2),
{
    if p >= s.len() {
        Scan::NeedMore
    } else if s[p] == c1 || s[p] == c2 {
        Scan::Done(p + 1)
    } else {
        Scan::Mismatch
    }
}

/// An optional part starting at `p`: a mismatch is an empty match.
pub fn opt(r: Scan, p: usize) -> (o: Scan)
    ensures
        o == spec_opt(r, p as int),
{
    match r {
        Scan::Mismatch => Scan::Done(p),
        _ => r,
    }
}

/// The bytes `t` at `p`.
pub fn tag(s: &[u8], p: usize, t: &[u8]) -> (r: Scan)
    requires
        p <= s@.len(),
    ensures
        bounded(r, p as int, s@),
        r == spec_tag(s@, p as int, t@),
{
    let avail = s.len() - p;
    let m = if avail < t.len() {
        avail
    } else {
        t.len()
    };
    let mut k: usize = 0;
    while k < m
        invariant
            k <= m,
            m <= t@.len(),
            p + m <= s@.len(),
            s@.len() <= usize::MAX,
            m == (if s@.len() - p < t@.len() {
                s@.len() - p
            } else {
                t@.len() as int
            }),
            s@.subrange(p as int, p + k) =~= t@.subrange(0, k as int),
        decreases m - k,
    {
        if s[p + k] != t[k] {
            assert(s@.subrange(p as int, p + m)[k as int] != t@.subrange(0, m as int)[k as int]);
            return Scan::Mismatch;
        }
        k = k + 1;
        assert(s@.subrange(p as int, p + k) =~= t@.subrange(0, k as int));
    }
    if avail >= t.len() {
        Scan::Done(p + t.len())
    } else {
        Scan::NeedMore
    }
}

/// A run, possibly empty, of bytes of class `c` from `p`.
pub fn take_while(s: &[u8], p: usize, c: Class) -> (r: Scan)
    requires
        p <= s@.len(),
    ensures
        bounded(r, p as int, s@),
        r == spec_take_while(s@, p as int, c),
{
    let mut i = p;
    while i < s.len()
        invariant
            p <= i <= s@.len(),
            spec_take_while(s@, i as int, c) == spec_take_while(s@, p as int, c),
        decreases s@.len() - i,
    {
        if !in_class(c, s[i]) {
            return Scan::Done(i);
        }
        i = i + 1;
    }
    Scan::NeedMore
}

/// A run of at least one byte of class `c` from `p`.
pub fn take_while1(s: &[u8], p: usize, c: Class) -> (r: Scan)
    requires
        p <= s@.len(),
    ensures
        bounded(r, p as int, s@),
        r == spec_take_while1(s@, p as int, c),
{
    match take_while(s, p, c) {
        Scan::Done(q) => if q == p {
            Scan::Mismatch
        } else {
            Scan::Done(q)
        },
        r => r,
    }
}

/// Optional whitespace from `p`.
pub fn ws(s: &[u8], p: usize) -> (r: Scan)
    requires
        p <= s@.len(),
    ensures
        bounded(r, p as int, s@),
        r == spec_ws(s@, p as int),
{
    take_while(s, p, Class::Ws)
}

/// Whether `s[a..b]` holds exactly the bytes `t`.
pub fn range_is(s: &[u8], a: usize, b: usize, t: &[u8]) -> (r: bool)
    requires
        a <= b <= s@.len(),
    ensures
        r == (s@.subrange(a as int, b as int) == t@),
{
    if b - a != t.len() {
        return false;
    }
    let mut k: usize = 0;
    while k < t.len()
        invariant
            a + t@.len() == b,
            b <= s@.len(),
            k <= t@.len(),
            s@.subrange(a as int, a + k) =~= t@.subrange(0, k as int),
        decreases t@.len() - k,
    {
        if s[a + k] != t[k] {
            assert(s@.subrange(a as int, b as int)[k as int] != t@[k as int]);
            return false;
        }
        k = k + 1;
        assert(s@.subrange(a as int, a + k) =~= t@.subrange(0, k as int));
    }
    assert(s@.subrange(a as int, b as int) =~= t@);
    true
}


// ---------------------------------------------------------------------------
// Leaf values: strings, numbers, identifiers and the payloads scanned in one pass
// ---------------------------------------------------------------------------

/// The rest of a quoted string after its opening quote: up to and including the closing quote.
/// A backslash escapes the byte after it; the sentinel may not occur unescaped.
pub open spec fn spec_quoted_body(s: Seq<u8>, r: int) -> Scan
    decreases s.len() - r,
{
    if r >= s.len() {
        Scan::NeedMore
    } else if s[r] == '"' as u8 {
        Scan::Done((r + 1) as usize)
    } else if s[r] == '\\' as u8 {
        if s.len() - r < 2 {
            Scan::NeedMore
        } else {
            spec_quoted_body(s, r + 2)
        }
    } else if s[r] == SENTINEL {
        Scan::Mismatch
    } else {
        spec_quoted_body(s, r + 1)
    }
}

/// `"..."`
pub open spec fn spec_quoted_string(s: Seq<u8>, p: int) -> Scan {
    match spec_byte(s, p, '"' as u8) {
        Scan::Done(q) => spec_quoted_body(s, q as int),
        r => r,
    }
}

/// `"String"`, `&"StringName"`, `^"NodePath"`.
pub open spec fn spec_quoted_variant(s: Seq<u8>, p: int) -> Scan {
    match spec_opt(spec_one_of(s, p, '&' as u8, '^' as u8), p) {
        Scan::Done(q) => spec_quoted_string(s, q as int),
        r => r,
    }
}

/// The `.` and digits after the integer part of a mantissa, if any.
pub open spec fn spec_fraction(s: Seq<u8>, j: int) -> Scan {
    match spec_byte(s, j, '.' as u8) {
        Scan::Done(k) => spec_opt(spec_take_while1(s, k as int, Class::Digit), k as int),
        Scan::Mismatch => Scan::Done(j as usize),
        r => r,
    }
}

/// `12`, `12.`, `12.5` or `.5`.
pub open spec fn spec_mantissa(s: Seq<u8>, p: int) -> Scan {
    spec_alt(
        match spec_take_while1(s, p, Class::Digit) {
            Scan::Done(j) => spec_fraction(s, j as int),
            r => r,
        },
        match spec_byte(s, p, '.' as u8) {
            Scan::Done(k) => spec_take_while1(s, k as int, Class::Digit),
            r => r,
        },
    )
}

/// `e5`, `E-5`: once the `e` is there, digits are mandatory.
pub open spec fn spec_exponent(s: Seq<u8>, p: int) -> Scan {
    match spec_one_of(s, p, 'e' as u8, 'E' as u8) {
        Scan::Done(q) => match spec_opt(spec_one_of(s, q as int, '+' as u8, '-' as u8), q as int) {
            Scan::Done(r) => spec_cut(spec_take_while1(s, r as int, Class::Digit)),
            e => e,
        },
        e => e,
    }
}

/// A decimal floating point literal with optional sign and exponent.
pub open spec fn spec_float(s: Seq<u8>, p: int) -> Scan {
    match spec_opt(spec_one_of(s, p, '+' as u8, '-' as u8), p) {
        Scan::Done(q) => match spec_mantissa(s, q as int) {
            Scan::Done(r) => spec_opt(spec_exponent(s, r as int), r as int),
            e => e,
        },
        e => e,
    }
}

/// An optionally signed `inf`, `nan` or decimal number.
pub open spec fn spec_number(s: Seq<u8>, p: int) -> Scan {
    match spec_opt(spec_one_of(s, p, '+' as u8, '-' as u8), p) {
        Scan::Done(q) => spec_alt(
            spec_tag(s, q as int, ascii("inf"@)),
            spec_alt(spec_tag(s, q as int, ascii("nan"@)), spec_float(s, q as int)),
        ),
        r => r,
    }
}

/// An identifier: a letter or `_`, then letters, digits and `_`.
pub open spec fn spec_ident(s: Seq<u8>, p: int) -> Scan {
    match spec_take_while1(s, p, Class::IdentHead) {
        Scan::Done(j) => spec_take_while(s, j as int, Class::IdentTail),
        r => r,
    }
}

/// Names that are complete values on their own.
pub open spec fn spec_is_keyword(name: Seq<u8>) -> bool {
    name == ascii("null"@) || name == ascii("true"@) || name == ascii("false"@) || name
        == ascii("inf"@) || name == ascii("nan"@) || name == ascii("inf_neg"@)
}

/// Constructors whose payload is a flat run of numbers or one base64 string.
pub open spec fn spec_is_packed_name(name: Seq<u8>) -> bool {
    name == ascii("PackedByteArray"@) || name == ascii("PackedInt32Array"@) || name == ascii(
        "PackedInt64Array"@,
    ) || name == ascii("PackedFloat32Array"@) || name == ascii("PackedFloat64Array"@) || name
        == ascii("PackedVector2Array"@) || name == ascii("PackedVector3Array"@) || name == ascii(
        "PackedVector4Array"@,
    ) || name == ascii("PackedColorArray"@)
}

/// The payload of a packed array after its `(`, up to and including the `)`.
/// It is only checked lexically: it holds numbers, separators, `inf_neg`, `inf`, `nan`
/// and quoted strings, and never a `(`.
pub open spec fn spec_packed_body(s: Seq<u8>, r: int) -> Scan
    decreases s.len() - r,
{
    if r >= s.len() {
        Scan::NeedMore
    } else if s[r] == ')' as u8 {
        Scan::Done((r + 1) as usize)
    } else if s[r] == '"' as u8 {
        match spec_quoted_string(s, r) {
            Scan::Done(q) => if adv(s, r, q) {
                spec_packed_body(s, q as int)
            } else {
                Scan::Mismatch
            },
            e => e,
        }
    } else if s[r] == 'i' as u8 || s[r] == 'n' as u8 {
        match spec_alt(
            spec_tag(s, r, ascii("inf_neg"@)),
            spec_alt(spec_tag(s, r, ascii("inf"@)), spec_tag(s, r, ascii("nan"@))),
        ) {
            Scan::Done(q) => if adv(s, r, q) {
                spec_packed_body(s, q as int)
            } else {
                Scan::Mismatch
            },
            e => e,
        }
    } else if spec_in_class(Class::Payload, s[r]) {
        match spec_take_while(s, r, Class::Payload) {
            Scan::Done(q) => if adv(s, r, q) {
                spec_packed_body(s, q as int)
            } else {
                Scan::Mismatch
            },
            e => e,
        }
    } else {
        Scan::Mismatch
    }
}

/// `(...)` of a packed array.
pub open spec fn spec_packed_array(s: Seq<u8>, p: int) -> Scan {
    match spec_byte(s, p, '(' as u8) {
        Scan::Done(q) => spec_packed_body(s, q as int),
        r => r,
    }
}

/// The rest of the type arguments of a typed container after the opening `[`,
/// taken verbatim, `depth` brackets deep.
pub open spec fn spec_type_arguments_body(s: Seq<u8>, r: int, depth: nat) -> Scan
    decreases s.len() - r,
{
    if r >= s.len() {
        Scan::NeedMore
    } else if s[r] == '"' as u8 {
        match spec_quoted_string(s, r) {
            Scan::Done(q) => if adv(s, r, q) {
                spec_type_arguments_body(s, q as int, depth)
            } else {
                Scan::Mismatch
            },
            e => e,
        }
    } else if s[r] == '[' as u8 {
        spec_type_arguments_body(s, r + 1, depth + 1)
    } else if s[r] == ']' as u8 {
        if depth <= 1 {
            Scan::Done((r + 1) as usize)
        } else {
            spec_type_arguments_body(s, r + 1, (depth - 1) as nat)
        }
    } else if s[r] == SENTINEL {
        Scan::Mismatch
    } else {
        spec_type_arguments_body(s, r + 1, depth)
    }
}

/// `[...]` of a typed container such as `Array[int]`.
pub open spec fn spec_type_arguments(s: Seq<u8>, p: int) -> Scan {
    match spec_byte(s, p, '[' as u8) {
        Scan::Done(q) => spec_type_arguments_body(s, q as int, 1),
        r => r,
    }
}

/// `.RED` or `.A . B`: a chain of `.`-separated identifiers. Ends after the last identifier.
pub open spec fn spec_constant_path(s: Seq<u8>, p: int) -> Scan
    decreases s.len() - p,
{
    match spec_byte(s, p, '.' as u8) {
        Scan::Done(a) => match spec_ws(s, a as int) {
            Scan::Done(b) => match spec_ident(s, b as int) {
                Scan::Done(c) => match spec_ws(s, c as int) {
                    Scan::Done(d) => if d as int >= s.len() {
                        Scan::NeedMore
                    } else if s[d as int] == '.' as u8 {
                        if adv(s, p, d) {
                            spec_constant_path(s, d as int)
                        } else {
                            Scan::Mismatch
                        }
                    } else {
                        Scan::Done(c)
                    },
                    e => e,
                },
                e => e,
            },
            e => e,
        },
        e => e,
    }
}

/// `"..."` at `p`, with backslash escapes.
pub fn quoted_string(s: &[u8], p: usize) -> (r: Scan)
    requires
        p <= s@.len(),
    ensures
        bounded(r, p as int, s@),
        r == spec_quoted_string(s@, p as int),
{
    match byte(s, p, '"' as u8) {
        Scan::Done(q) => {
            let mut r = q;
            while r < s.len()
                invariant
                    p <= q <= r <= s@.len(),
                    spec_quoted_body(s@, r as int) == spec_quoted_body(s@, q as int),
                    spec_quoted_string(s@, p as int) == spec_quoted_body(s@, q as int),
                decreases s@.len() - r,
            {
                let b = s[r];
                if b == '"' as u8 {
                    return Scan::Done(r + 1);
                } else if b == '\\' as u8 {
                    if s.len() - r < 2 {
                        return Scan::NeedMore;
                    }
                    r = r + 2;
                } else if b == SENTINEL {
                    return Scan::Mismatch;
                } else {
                    r = r + 1;
                }
            }
            Scan::NeedMore
        },
        r => r,
    }
}

/// `"String"`, `&"StringName"` or `^"NodePath"` at `p`.
pub fn quoted_variant(s: &[u8], p: usize) -> (r: Scan)
    requires
        p <= s@.len(),
    ensures
        bounded(r, p as int, s@),
        r == spec_quoted_variant(s@, p as int),
{
    match opt(one_of(s, p, '&' as u8, '^' as u8), p) {
        Scan::Done(q) => quoted_string(s, q),
        r => r,
    }
}

fn fraction(s: &[u8], j: usize) -> (r: Scan)
    requires
        j <= s@.len(),
    ensures
        bounded(r, j as int, s@),
        r == spec_fraction(s@, j as int),
{
    match byte(s, j, '.' as u8) {
        Scan::Done(k) => opt(take_while1(s, k, Class::Digit), k),
        Scan::Mismatch => Scan::Done(j),
        r => r,
    }
}

fn mantissa(s: &[u8], p: usize) -> (r: Scan)
    requires
        p <= s@.len(),
    ensures
        bounded(r, p as int, s@),
        r == spec_mantissa(s@, p as int),
{
    let first = match take_while1(s, p, Class::Digit) {
        Scan::Done(j) => fraction(s, j),
        r => r,
    };
    if first != Scan::Mismatch {
        return first;
    }
    match byte(s, p, '.' as u8) {
        Scan::Done(k) => take_while1(s, k, Class::Digit),
        r => r,
    }
}

fn exponent(s: &[u8], p: usize) -> (r: Scan)
    requires
        p <= s@.len(),
    ensures
        bounded(r, p as int, s@),
        r == spec_exponent(s@, p as int),
{
    match one_of(s, p, 'e' as u8, 'E' as u8) {
        Scan::Done(q) => match opt(one_of(s, q, '+' as u8, '-' as u8), q) {
            Scan::Done(r) => match take_while1(s, r, Class::Digit) {
                Scan::Mismatch => Scan::Fatal,
                x => x,
            },
            e => e,
        },
        e => e,
    }
}

/// A decimal floating point literal at `p`, with optional sign and exponent.
pub fn float(s: &[u8], p: usize) -> (r: Scan)
    requires
        p <= s@.len(),
    ensures
        bounded(r, p as int, s@),
        r == spec_float(s@, p as int),
{
    match opt(one_of(s, p, '+' as u8, '-' as u8), p) {
        Scan::Done(q) => match mantissa(s, q) {
            Scan::Done(r) => opt(exponent(s, r), r),
            e => e,
        },
        e => e,
    }
}

/// An optionally signed `inf`, `nan` or decimal number at `p`.
pub fn number(s: &[u8], p: usize) -> (r: Scan)
    requires
        p <= s@.len(),
    ensures
        bounded(r, p as int, s@),
        r == spec_number(s@, p as int),
{
    match opt(one_of(s, p, '+' as u8, '-' as u8), p) {
        Scan::Done(q) => {
            let inf: [u8; 3] = ['i' as u8, 'n' as u8, 'f' as u8];
            let nan: [u8; 3] = ['n' as u8, 'a' as u8, 'n' as u8];
            proof {
                reveal_strlit("inf");
                reveal_strlit("nan");
                assert(inf@ =~= ascii("inf"@));
                assert(nan@ =~= ascii("nan"@));
            }
            let a = tag(s, q, &inf);
            if a != Scan::Mismatch {
                return a;
            }
            let b = tag(s, q, &nan);
            if b != Scan::Mismatch {
                return b;
            }
            float(s, q)
        },
        r => r,
    }
}

/// An identifier at `p`: a letter or `_`, then letters, digits and `_`.
pub fn ident(s: &[u8], p: usize) -> (r: Scan)
    requires
        p <= s@.len(),
    ensures
        bounded(r, p as int, s@),
        r == spec_ident(s@, p as int),
{
    match take_while1(s, p, Class::IdentHead) {
        Scan::Done(j) => take_while(s, j, Class::IdentTail),
        r => r,
    }
}

/// Whether the bytes from `a` to `b` are a name that is a complete value on its own.
pub fn is_keyword(s: &[u8], a: usize, b: usize) -> (r: bool)
    requires
        a <= b <= s@.len(),
    ensures
        r == spec_is_keyword(s@.subrange(a as int, b as int)),
{
    let k1: [u8; 4] = ['n' as u8, 'u' as u8, 'l' as u8, 'l' as u8];
    let k2: [u8; 4] = ['t' as u8, 'r' as u8, 'u' as u8, 'e' as u8];
    let k3: [u8; 5] = ['f' as u8, 'a' as u8, 'l' as u8, 's' as u8, 'e' as u8];
    let k4: [u8; 3] = ['i' as u8, 'n' as u8, 'f' as u8];
    let k5: [u8; 3] = ['n' as u8, 'a' as u8, 'n' as u8];
    let k6: [u8; 7] = ['i' as u8, 'n' as u8, 'f' as u8, '_' as u8, 'n' as u8, 'e' as u8, 'g' as u8];
    proof {
        reveal_strlit("null");
        reveal_strlit("true");
        reveal_strlit("false");
        reveal_strlit("inf");
        reveal_strlit("nan");
        reveal_strlit("inf_neg");
        assert(k1@ =~= ascii("null"@));
        assert(k2@ =~= ascii("true"@));
        assert(k3@ =~= ascii("false"@));
        assert(k4@ =~= ascii("inf"@));
        assert(k5@ =~= ascii("nan"@));
        assert(k6@ =~= ascii("inf_neg"@));
    }
    range_is(s, a, b, &k1) || range_is(s, a, b, &k2) || range_is(s, a, b, &k3) || range_is(
        s,
        a,
        b,
        &k4,
    ) || range_is(s, a, b, &k5) || range_is(s, a, b, &k6)
}

/// Whether the bytes from `a` to `b` are the name `Object`.
pub fn is_object_name(s: &[u8], a: usize, b: usize) -> (r: bool)
    requires
        a <= b <= s@.len(),
    ensures
        r == (s@.subrange(a as int, b as int) == ascii("Object"@)),
{
    let k: [u8; 6] = ['O' as u8, 'b' as u8, 'j' as u8, 'e' as u8, 'c' as u8, 't' as u8];
    proof {
        reveal_strlit("Object");
        assert(k@ =~= ascii("Object"@));
    }
    range_is(s, a, b, &k)
}

/// Whether `s[a..b]` is `Packed<kind>Array` for one of the packed kinds.
pub fn is_packed_name(s: &[u8], a: usize, b: usize) -> (r: bool)
    requires
        a <= b <= s@.len(),
    ensures
        r == spec_is_packed_name(s@.subrange(a as int, b as int)),
{
    let prefix: [u8; 6] = ['P' as u8, 'a' as u8, 'c' as u8, 'k' as u8, 'e' as u8, 'd' as u8];
    let k1: [u8; 15] = [
        'P' as u8, 'a' as u8, 'c' as u8, 'k' as u8, 'e' as u8, 'd' as u8, 'B' as u8, 'y' as u8,
        't' as u8, 'e' as u8, 'A' as u8, 'r' as u8, 'r' as u8, 'a' as u8, 'y' as u8,
    ];
    let k2: [u8; 16] = [
        'P' as u8, 'a' as u8, 'c' as u8, 'k' as u8, 'e' as u8, 'd' as u8, 'I' as u8, 'n' as u8,
        't' as u8, '3' as u8, '2' as u8, 'A' as u8, 'r' as u8, 'r' as u8, 'a' as u8, 'y' as u8,
    ];
    let k3: [u8; 16] = [
        'P' as u8, 'a' as u8, 'c' as u8, 'k' as u8, 'e' as u8, 'd' as u8, 'I' as u8, 'n' as u8,
        't' as u8, '6' as u8, '4' as u8, 'A' as u8, 'r' as u8, 'r' as u8, 'a' as u8, 'y' as u8,
    ];
    let k4: [u8; 18] = [
        'P' as u8, 'a' as u8, 'c' as u8, 'k' as u8, 'e' as u8, 'd' as u8, 'F' as u8, 'l' as u8,
        'o' as u8, 'a' as u8, 't' as u8, '3' as u8, '2' as u8, 'A' as u8, 'r' as u8, 'r' as u8,
        'a' as u8, 'y' as u8,
    ];
    let k5: [u8; 18] = [
        'P' as u8, 'a' as u8, 'c' as u8, 'k' as u8, 'e' as u8, 'd' as u8, 'F' as u8, 'l' as u8,
        'o' as u8, 'a' as u8, 't' as u8, '6' as u8, '4' as u8, 'A' as u8, 'r' as u8, 'r' as u8,
        'a' as u8, 'y' as u8,
    ];
    let k6: [u8; 18] = [
        'P' as u8, 'a' as u8, 'c' as u8, 'k' as u8, 'e' as u8, 'd' as u8, 'V' as u8, 'e' as u8,
        'c' as u8, 't' as u8, 'o' as u8, 'r' as u8, '2' as u8, 'A' as u8, 'r' as u8, 'r' as u8,
        'a' as u8, 'y' as u8,
    ];
    let k7: [u8; 18] = [
        'P' as u8, 'a' as u8, 'c' as u8, 'k' as u8, 'e' as u8, 'd' as u8, 'V' as u8, 'e' as u8,
        'c' as u8, 't' as u8, 'o' as u8, 'r' as u8, '3' as u8, 'A' as u8, 'r' as u8, 'r' as u8,
        'a' as u8, 'y' as u8,
    ];
    let k8: [u8; 18] = [
        'P' as u8, 'a' as u8, 'c' as u8, 'k' as u8, 'e' as u8, 'd' as u8, 'V' as u8, 'e' as u8,
        'c' as u8, 't' as u8, 'o' as u8, 'r' as u8, '4' as u8, 'A' as u8, 'r' as u8, 'r' as u8,
        'a' as u8, 'y' as u8,
    ];
    let k9: [u8; 16] = [
        'P' as u8, 'a' as u8, 'c' as u8, 'k' as u8, 'e' as u8, 'd' as u8, 'C' as u8, 'o' as u8,
        'l' as u8, 'o' as u8, 'r' as u8, 'A' as u8, 'r' as u8, 'r' as u8, 'a' as u8, 'y' as u8,
    ];
    proof {
        reveal_strlit("PackedByteArray");
        reveal_strlit("PackedInt32Array");
        reveal_strlit("PackedInt64Array");
        reveal_strlit("PackedFloat32Array");
        reveal_strlit("PackedFloat64Array");
        reveal_strlit("PackedVector2Array");
        reveal_strlit("PackedVector3Array");
        reveal_strlit("PackedVector4Array");
        reveal_strlit("PackedColorArray");
        assert(k1@ =~= ascii("PackedByteArray"@));
        assert(k2@ =~= ascii("PackedInt32Array"@));
        assert(k3@ =~= ascii("PackedInt64Array"@));
        assert(k4@ =~= ascii("PackedFloat32Array"@));
        assert(k5@ =~= ascii("PackedFloat64Array"@));
        assert(k6@ =~= ascii("PackedVector2Array"@));
        assert(k7@ =~= ascii("PackedVector3Array"@));
        assert(k8@ =~= ascii("PackedVector4Array"@));
        assert(k9@ =~= ascii("PackedColorArray"@));
    }
    let _ = prefix;
    range_is(s, a, b, &k1) || range_is(s, a, b, &k2) || range_is(s, a, b, &k3) || range_is(
        s,
        a,
        b,
        &k4,
    ) || range_is(s, a, b, &k5) || range_is(s, a, b, &k6) || range_is(s, a, b, &k7) || range_is(
        s,
        a,
        b,
        &k8,
    ) || range_is(s, a, b, &k9)
}

/// `(...)` of a packed array at `p`.
pub fn packed_array(s: &[u8], p: usize) -> (r: Scan)
    requires
        p <= s@.len(),
    ensures
        bounded(r, p as int, s@),
        r == spec_packed_array(s@, p as int),
{
    let q = match byte(s, p, '(' as u8) {
        Scan::Done(q) => q,
        r => {
            return r;
        },
    };
    let inf_neg: [u8; 7] = [
        'i' as u8, 'n' as u8, 'f' as u8, '_' as u8, 'n' as u8, 'e' as u8, 'g' as u8,
    ];
    let inf: [u8; 3] = ['i' as u8, 'n' as u8, 'f' as u8];
    let nan: [u8; 3] = ['n' as u8, 'a' as u8, 'n' as u8];
    proof {
        reveal_strlit("inf_neg");
        reveal_strlit("inf");
        reveal_strlit("nan");
        assert(inf_neg@ =~= ascii("inf_neg"@));
        assert(inf@ =~= ascii("inf"@));
        assert(nan@ =~= ascii("nan"@));
    }
    let mut r = q;
    while r < s.len()
        invariant
            p <= q <= r <= s@.len(),
            spec_packed_array(s@, p as int) == spec_packed_body(s@, q as int),
            inf_neg@ == ascii("inf_neg"@),
            inf@ == ascii("inf"@),
            nan@ == ascii("nan"@),
            spec_packed_body(s@, r as int) == spec_packed_body(s@, q as int),
        decreases s@.len() - r,
    {
        let b = s[r];
        let next = if b == ')' as u8 {
            return Scan::Done(r + 1);
        } else if b == '"' as u8 {
            quoted_string(s, r)
        } else if b == 'i' as u8 || b == 'n' as u8 {
            let t1 = tag(s, r, &inf_neg);
            if t1 != Scan::Mismatch {
                t1
            } else {
                let t2 = tag(s, r, &inf);
                if t2 != Scan::Mismatch {
                    t2
                } else {
                    tag(s, r, &nan)
                }
            }
        } else if in_class(Class::Payload, b) {
            take_while(s, r, Class::Payload)
        } else {
            return Scan::Mismatch;
        };
        match next {
            Scan::Done(n) => {
                if !(r < n && n <= s.len()) {
                    return Scan::Mismatch;
                }
                r = n;
            },
            e => {
                return e;
            },
        }
    }
    Scan::NeedMore
}

/// `[...]` of a typed container at `p`, such as the `[int]` of `Array[int]`.
pub fn type_arguments(s: &[u8], p: usize) -> (r: Scan)
    requires
        p <= s@.len(),
    ensures
        bounded(r, p as int, s@),
        r == spec_type_arguments(s@, p as int),
{
    let q = match byte(s, p, '[' as u8) {
        Scan::Done(q) => q,
        r => {
            return r;
        },
    };
    let mut r = q;
    let mut depth: usize = 1;
    let _len = s.len();
    while r < s.len()
        invariant
            p <= q <= r <= s@.len(),
            spec_type_arguments(s@, p as int) == spec_type_arguments_body(s@, q as int, 1),
            1 <= depth <= r - q + 1,
            1 <= q,
            s@.len() <= usize::MAX,
            spec_type_arguments_body(s@, r as int, depth as nat) == spec_type_arguments_body(
                s@,
                q as int,
                1,
            ),
        decreases s@.len() - r,
    {
        let b = s[r];
        if b == '"' as u8 {
            match quoted_string(s, r) {
                Scan::Done(n) => {
                    if !(r < n && n <= s.len()) {
                        return Scan::Mismatch;
                    }
                    r = n;
                },
                e => {
                    return e;
                },
            }
        } else if b == '[' as u8 {
            depth = depth + 1;
            r = r + 1;
        } else if b == ']' as u8 {
            if depth <= 1 {
                return Scan::Done(r + 1);
            }
            depth = depth - 1;
            r = r + 1;
        } else if b == SENTINEL {
            return Scan::Mismatch;
        } else {
            r = r + 1;
        }
    }
    Scan::NeedMore
}

/// A chain of `.`-separated identifiers at `p`, such as `.RED`.
pub fn constant_path(s: &[u8], p: usize) -> (r: Scan)
    requires
        p <= s@.len(),
    ensures
        bounded(r, p as int, s@),
        r == spec_constant_path(s@, p as int),
{
    let mut probe = p;
    loop
        invariant
            p <= probe <= s@.len(),
            spec_constant_path(s@, probe as int) == spec_constant_path(s@, p as int),
        decreases s@.len() - probe,
    {
        let a = match byte(s, probe, '.' as u8) {
            Scan::Done(a) => a,
            e => {
                return e;
            },
        };
        let b = match ws(s, a) {
            Scan::Done(b) => b,
            e => {
                return e;
            },
        };
        let c = match ident(s, b) {
            Scan::Done(c) => c,
            e => {
                return e;
            },
        };
        let d = match ws(s, c) {
            Scan::Done(d) => d,
            e => {
                return e;
            },
        };
        if d >= s.len() {
            return Scan::NeedMore;
        } else if s[d] == '.' as u8 {
            if !(probe < d && d <= s.len()) {
                return Scan::Mismatch;
            }
            probe = d;
        } else {
            return Scan::Done(c);
        }
    }
}


// ---------------------------------------------------------------------------
// Nested values
// ---------------------------------------------------------------------------

/// `,` between list items, with whitespace around it.
pub open spec fn spec_comma(s: Seq<u8>, p: int) -> Scan {
    match spec_ws(s, p) {
        Scan::Done(a) => match spec_byte(s, a as int, ',' as u8) {
            Scan::Done(b) => spec_ws(s, b as int),
            e => e,
        },
        e => e,
    }
}

/// The end of a bracketed list: an optional trailing comma, whitespace and the closing byte `c`.
pub open spec fn spec_close(s: Seq<u8>, p: int, c: u8) -> Scan {
    let trailing = match spec_ws(s, p) {
        Scan::Done(a) => spec_byte(s, a as int, ',' as u8),
        e => e,
    };
    match spec_opt(trailing, p) {
        Scan::Done(q) => match spec_ws(s, q as int) {
            Scan::Done(r) => spec_byte(s, r as int, c),
            e => e,
        },
        e => e,
    }
}

/// Any value: a quoted string, an array, a dictionary, a number, or a value
/// that starts with an identifier.
pub open spec fn spec_variant(s: Seq<u8>, p: int) -> Scan
    decreases s.len() - p, 2int,
{
    spec_alt(
        spec_quoted_variant(s, p),
        spec_alt(
            spec_array(s, p),
            spec_alt(spec_dictionary(s, p), spec_alt(spec_number(s, p), spec_named(s, p))),
        ),
    )
}

/// Zero or more values separated by commas.
pub open spec fn spec_values(s: Seq<u8>, p: int) -> Scan
    decreases s.len() - p, 3int,
{
    match spec_variant(s, p) {
        Scan::Mismatch => Scan::Done(p as usize),
        Scan::Done(q) => if adv(s, p, q) {
            spec_more_values(s, q as int)
        } else {
            Scan::Mismatch
        },
        e => e,
    }
}

/// The `, value` items that follow the first item of a list of values.
pub open spec fn spec_more_values(s: Seq<u8>, i: int) -> Scan
    decreases s.len() - i, 3int,
{
    match spec_comma(s, i) {
        Scan::Mismatch => Scan::Done(i as usize),
        Scan::Done(j) => if adv(s, i, j) {
            match spec_variant(s, j as int) {
                Scan::Mismatch => Scan::Done(i as usize),
                Scan::Done(k) => if adv(s, i, k) {
                    spec_more_values(s, k as int)
                } else {
                    Scan::Mismatch
                },
                e => e,
            }
        } else {
            Scan::Mismatch
        },
        e => e,
    }
}

/// `[a, b, ...]`
pub open spec fn spec_array(s: Seq<u8>, p: int) -> Scan
    decreases s.len() - p, 1int,
{
    match spec_byte(s, p, '[' as u8) {
        Scan::Done(a) => match spec_ws(s, a as int) {
            Scan::Done(b) => if adv(s, p, b) {
                match spec_values(s, b as int) {
                    Scan::Done(c) => spec_close(s, c as int, ']' as u8),
                    e => e,
                }
            } else {
                Scan::Mismatch
            },
            e => e,
        },
        e => e,
    }
}

/// `(a, b, ...)`: the arguments of a constructor.
pub open spec fn spec_call(s: Seq<u8>, p: int) -> Scan
    decreases s.len() - p, 1int,
{
    match spec_byte(s, p, '(' as u8) {
        Scan::Done(a) => match spec_ws(s, a as int) {
            Scan::Done(b) => if adv(s, p, b) {
                match spec_values(s, b as int) {
                    Scan::Done(c) => spec_close(s, c as int, ')' as u8),
                    e => e,
                }
            } else {
                Scan::Mismatch
            },
            e => e,
        },
        e => e,
    }
}

/// `key: value` inside a dictionary.
pub open spec fn spec_entry(s: Seq<u8>, p: int) -> Scan
    decreases s.len() - p, 3int,
{
    match spec_variant(s, p) {
        Scan::Done(a) => match spec_ws(s, a as int) {
            Scan::Done(b) => match spec_byte(s, b as int, ':' as u8) {
                Scan::Done(c) => match spec_ws(s, c as int) {
                    Scan::Done(d) => if adv(s, p, d) {
                        spec_variant(s, d as int)
                    } else {
                        Scan::Mismatch
                    },
                    e => e,
                },
                e => e,
            },
            e => e,
        },
        e => e,
    }
}

/// Zero or more dictionary entries separated by commas.
pub open spec fn spec_entries(s: Seq<u8>, p: int) -> Scan
    decreases s.len() - p, 4int,
{
    match spec_entry(s, p) {
        Scan::Mismatch => Scan::Done(p as usize),
        Scan::Done(q) => if adv(s, p, q) {
            spec_more_entries(s, q as int)
        } else {
            Scan::Mismatch
        },
        e => e,
    }
}

/// The `, key: value` items that follow the first entry of a dictionary.
pub open spec fn spec_more_entries(s: Seq<u8>, i: int) -> Scan
    decreases s.len() - i, 4int,
{
    match spec_comma(s, i) {
        Scan::Mismatch => Scan::Done(i as usize),
        Scan::Done(j) => if adv(s, i, j) {
            match spec_entry(s, j as int) {
                Scan::Mismatch => Scan::Done(i as usize),
                Scan::Done(k) => if adv(s, i, k) {
                    spec_more_entries(s, k as int)
                } else {
                    Scan::Mismatch
                },
                e => e,
            }
        } else {
            Scan::Mismatch
        },
        e => e,
    }
}

/// `{k: v, ...}`
pub open spec fn spec_dictionary(s: Seq<u8>, p: int) -> Scan
    decreases s.len() - p, 1int,
{
    match spec_byte(s, p, '{' as u8) {
        Scan::Done(a) => match spec_ws(s, a as int) {
            Scan::Done(b) => if adv(s, p, b) {
                match spec_entries(s, b as int) {
                    Scan::Done(c) => spec_close(s, c as int, '}' as u8),
                    e => e,
                }
            } else {
                Scan::Mismatch
            },
            e => e,
        },
        e => e,
    }
}

/// A value that starts with an identifier: a keyword (`null`, `true`, `inf`, ...),
/// a constructor call (`Vector2(1, 2)`), a packed array, a typed container
/// (`Array[int]([1])`) or a constant (`Color.RED`). The identifier `Object`
/// followed by `(` is an inline object.
pub open spec fn spec_named(s: Seq<u8>, p: int) -> Scan
    decreases s.len() - p, 1int,
{
    match spec_ident(s, p) {
        Scan::Done(a) => {
            let name = s.subrange(p, a as int);
            if spec_is_keyword(name) {
                Scan::Done(a)
            } else {
                match spec_ws(s, a as int) {
                    Scan::Done(b) => if b as int >= s.len() {
                        Scan::NeedMore
                    } else if s[b as int] == '(' as u8 {
                        if name == ascii("Object"@) {
                            Scan::InlineObject
                        } else if spec_is_packed_name(name) {
                            spec_packed_array(s, b as int)
                        } else if adv(s, p, b) {
                            spec_call(s, b as int)
                        } else {
                            Scan::Mismatch
                        }
                    } else if s[b as int] == '[' as u8 {
                        match spec_type_arguments(s, b as int) {
                            Scan::Done(c) => match spec_ws(s, c as int) {
                                Scan::Done(d) => if adv(s, p, d) {
                                    spec_call(s, d as int)
                                } else {
                                    Scan::Mismatch
                                },
                                e => e,
                            },
                            e => e,
                        }
                    } else if s[b as int] == '.' as u8 {
                        spec_constant_path(s, b as int)
                    } else {
                        Scan::Mismatch
                    },
                    e => e,
                }
            }
        },
        e => e,
    }
}

/// A complete value at the start of the buffer: leading whitespace, the value,
/// and a terminator after it, which is not part of the value.
pub open spec fn spec_value_at_cursor(s: Seq<u8>) -> Scan {
    match spec_ws(s, 0) {
        Scan::Done(q) => match spec_variant(s, q as int) {
            Scan::Done(r) => if r as int >= s.len() {
                Scan::NeedMore
            } else if spec_is_terminator(s[r as int]) {
                Scan::Done(r)
            } else {
                Scan::Mismatch
            },
            e => e,
        },
        e => e,
    }
}

/// `,` between list items at `p`, with whitespace around it.
pub fn comma(s: &[u8], p: usize) -> (r: Scan)
    requires
        p <= s@.len(),
    ensures
        bounded(r, p as int, s@),
        r == spec_comma(s@, p as int),
{
    match ws(s, p) {
        Scan::Done(a) => match byte(s, a, ',' as u8) {
            Scan::Done(b) => ws(s, b),
            e => e,
        },
        e => e,
    }
}

/// The end of a bracketed list at `p`: an optional trailing comma, whitespace and the byte `c`.
pub fn close(s: &[u8], p: usize, c: u8) -> (r: Scan)
    requires
        p <= s@.len(),
    ensures
        bounded(r, p as int, s@),
        r == spec_close(s@, p as int, c),
{
    let trailing = match ws(s, p) {
        Scan::Done(a) => byte(s, a, ',' as u8),
        e => e,
    };
    match opt(trailing, p) {
        Scan::Done(q) => match ws(s, q) {
            Scan::Done(r) => byte(s, r, c),
            e => e,
        },
        e => e,
    }
}

/// Any value at `p`.
pub fn variant(s: &[u8], p: usize) -> (r: Scan)
    requires
        p <= s@.len(),
    ensures
        bounded(r, p as int, s@),
        r == spec_variant(s@, p as int),
    decreases s@.len() - p, 2int,
{
    let a = quoted_variant(s, p);
    if a != Scan::Mismatch {
        return a;
    }
    let b = array(s, p);
    if b != Scan::Mismatch {
        return b;
    }
    let c = dictionary(s, p);
    if c != Scan::Mismatch {
        return c;
    }
    let d = number(s, p);
    if d != Scan::Mismatch {
        return d;
    }
    named(s, p)
}

/// Zero or more values separated by commas, from `p`.
pub fn values(s: &[u8], p: usize) -> (r: Scan)
    requires
        p <= s@.len(),
    ensures
        bounded(r, p as int, s@),
        r == spec_values(s@, p as int),
    decreases s@.len() - p, 3int,
{
    let mut i = match variant(s, p) {
        Scan::Mismatch => {
            return Scan::Done(p);
        },
        Scan::Done(q) => {
            if !(p < q && q <= s.len()) {
                return Scan::Mismatch;
            }
            q
        },
        e => {
            return e;
        },
    };
    loop
        invariant
            p < i <= s@.len(),
            spec_more_values(s@, i as int) == spec_values(s@, p as int),
        decreases s@.len() - i,
    {
        let j = match comma(s, i) {
            Scan::Mismatch => {
                return Scan::Done(i);
            },
            Scan::Done(j) => j,
            e => {
                return e;
            },
        };
        if !(i < j && j <= s.len()) {
            return Scan::Mismatch;
        }
        match variant(s, j) {
            Scan::Mismatch => {
                return Scan::Done(i);
            },
            Scan::Done(k) => {
                if !(i < k && k <= s.len()) {
                    return Scan::Mismatch;
                }
                i = k;
            },
            e => {
                return e;
            },
        }
    }
}

/// `[a, b, ...]` at `p`.
pub fn array(s: &[u8], p: usize) -> (r: Scan)
    requires
        p <= s@.len(),
    ensures
        bounded(r, p as int, s@),
        r == spec_array(s@, p as int),
    decreases s@.len() - p, 1int,
{
    match byte(s, p, '[' as u8) {
        Scan::Done(a) => match ws(s, a) {
            Scan::Done(b) => if p < b && b <= s.len() {
                match values(s, b) {
                    Scan::Done(c) => close(s, c, ']' as u8),
                    e => e,
                }
            } else {
                Scan::Mismatch
            },
            e => e,
        },
        e => e,
    }
}

/// `(a, b, ...)` at `p`: the arguments of a constructor.
pub fn call(s: &[u8], p: usize) -> (r: Scan)
    requires
        p <= s@.len(),
    ensures
        bounded(r, p as int, s@),
        r == spec_call(s@, p as int),
    decreases s@.len() - p, 1int,
{
    match byte(s, p, '(' as u8) {
        Scan::Done(a) => match ws(s, a) {
            Scan::Done(b) => if p < b && b <= s.len() {
                match values(s, b) {
                    Scan::Done(c) => close(s, c, ')' as u8),
                    e => e,
                }
            } else {
                Scan::Mismatch
            },
            e => e,
        },
        e => e,
    }
}

/// `key: value` at `p`, inside a dictionary.
pub fn entry(s: &[u8], p: usize) -> (r: Scan)
    requires
        p <= s@.len(),
    ensures
        bounded(r, p as int, s@),
        r == spec_entry(s@, p as int),
    decreases s@.len() - p, 3int,
{
    match variant(s, p) {
        Scan::Done(a) => match ws(s, a) {
            Scan::Done(b) => match byte(s, b, ':' as u8) {
                Scan::Done(c) => match ws(s, c) {
                    Scan::Done(d) => if p < d && d <= s.len() {
                        variant(s, d)
                    } else {
                        Scan::Mismatch
                    },
                    e => e,
                },
                e => e,
            },
            e => e,
        },
        e => e,
    }
}

/// Zero or more dictionary entries separated by commas, from `p`.
pub fn entries(s: &[u8], p: usize) -> (r: Scan)
    requires
        p <= s@.len(),
    ensures
        bounded(r, p as int, s@),
        r == spec_entries(s@, p as int),
    decreases s@.len() - p, 4int,
{
    let mut i = match entry(s, p) {
        Scan::Mismatch => {
            return Scan::Done(p);
        },
        Scan::Done(q) => {
            if !(p < q && q <= s.len()) {
                return Scan::Mismatch;
            }
            q
        },
        e => {
            return e;
        },
    };
    loop
        invariant
            p < i <= s@.len(),
            spec_more_entries(s@, i as int) == spec_entries(s@, p as int),
        decreases s@.len() - i,
    {
        let j = match comma(s, i) {
            Scan::Mismatch => {
                return Scan::Done(i);
            },
            Scan::Done(j) => j,
            e => {
                return e;
            },
        };
        if !(i < j && j <= s.len()) {
            return Scan::Mismatch;
        }
        match entry(s, j) {
            Scan::Mismatch => {
                return Scan::Done(i);
            },
            Scan::Done(k) => {
                if !(i < k && k <= s.len()) {
                    return Scan::Mismatch;
                }
                i = k;
            },
            e => {
                return e;
            },
        }
    }
}

/// `{k: v, ...}` at `p`.
pub fn dictionary(s: &[u8], p: usize) -> (r: Scan)
    requires
        p <= s@.len(),
    ensures
        bounded(r, p as int, s@),
        r == spec_dictionary(s@, p as int),
    decreases s@.len() - p, 1int,
{
    match byte(s, p, '{' as u8) {
        Scan::Done(a) => match ws(s, a) {
            Scan::Done(b) => if p < b && b <= s.len() {
                match entries(s, b) {
                    Scan::Done(c) => close(s, c, '}' as u8),
                    e => e,
                }
            } else {
                Scan::Mismatch
            },
            e => e,
        },
        e => e,
    }
}

/// A value at `p` that starts with an identifier (see `spec_named`).
pub fn named(s: &[u8], p: usize) -> (r: Scan)
    requires
        p <= s@.len(),
    ensures
        bounded(r, p as int, s@),
        r == spec_named(s@, p as int),
    decreases s@.len() - p, 1int,
{
    let a = match ident(s, p) {
        Scan::Done(a) => a,
        e => {
            return e;
        },
    };
    if is_keyword(s, p, a) {
        return Scan::Done(a);
    }
    let b = match ws(s, a) {
        Scan::Done(b) => b,
        e => {
            return e;
        },
    };
    if b >= s.len() {
        Scan::NeedMore
    } else if s[b] == '(' as u8 {
        if is_object_name(s, p, a) {
            Scan::InlineObject
        } else if is_packed_name(s, p, a) {
            packed_array(s, b)
        } else if p < b && b <= s.len() {
            call(s, b)
        } else {
            Scan::Mismatch
        }
    } else if s[b] == '[' as u8 {
        match type_arguments(s, b) {
            Scan::Done(c) => match ws(s, c) {
                Scan::Done(d) => if p < d && d <= s.len() {
                    call(s, d)
                } else {
                    Scan::Mismatch
                },
                e => e,
            },
            e => e,
        }
    } else if s[b] == '.' as u8 {
        constant_path(s, b)
    } else {
        Scan::Mismatch
    }
}

/// Reads the value that starts at the beginning of `s`.
pub fn value_at_cursor(s: &[u8]) -> (r: Scan)
    ensures
        r == spec_value_at_cursor(s@),
        r matches Scan::Done(q) ==> q < s@.len() && spec_is_terminator(s@[q as int]),
{
    match ws(s, 0) {
        Scan::Done(q) => match variant(s, q) {
            Scan::Done(r) => if r >= s.len() {
                Scan::NeedMore
            } else if is_terminator(s[r]) {
                Scan::Done(r)
            } else {
                Scan::Mismatch
            },
            e => e,
        },
        e => e,
    }
}


// ---------------------------------------------------------------------------
// Reading more input never changes a decided answer
// ---------------------------------------------------------------------------

/// `r` is an answer computed on the prefix `s` at `p`, and `r2` the answer on a longer
/// buffer: the prefix answer stays inside the prefix, and once it is decided
/// (anything but `NeedMore`) the longer buffer gives the same answer.
pub open spec fn stable(s: Seq<u8>, p: int, r: Scan, r2: Scan) -> bool {
    &&& bounded(r, p, s)
    &&& (r !is NeedMore ==> r2 == r)
}

proof fn lemma_byte(s: Seq<u8>, t: Seq<u8>, p: int, c: u8)
    requires
        0 <= p <= s.len(),
        (s + t).len() <= usize::MAX,
    ensures
        stable(s, p, spec_byte(s, p, c), spec_byte(s + t, p, c)),
{
    if p < s.len() {
        assert((s + t)[p] == s[p]);
    }
}

proof fn lemma_one_of(s: Seq<u8>, t: Seq<u8>, p: int, c1: u8, c2: u8)
    requires
        0 <= p <= s.len(),
        (s + t).len() <= usize::MAX,
    ensures
        stable(s, p, spec_one_of(s, p, c1, c2), spec_one_of(s + t, p, c1, c2)),
{
    if p < s.len() {
        assert((s + t)[p] == s[p]);
    }
}

proof fn lemma_tag(s: Seq<u8>, t: Seq<u8>, p: int, w: Seq<u8>)
    requires
        0 <= p <= s.len(),
        (s + t).len() <= usize::MAX,
    ensures
        stable(s, p, spec_tag(s, p, w), spec_tag(s + t, p, w)),
{
    let u = s + t;
    let m = if s.len() - p < w.len() {
        s.len() - p
    } else {
        w.len() as int
    };
    let m2 = if u.len() - p < w.len() {
        u.len() - p
    } else {
        w.len() as int
    };
    assert(m <= m2);
    assert(s.subrange(p, p + m) =~= u.subrange(p, p + m));
    if s.subrange(p, p + m) != w.subrange(0, m) {
        assert(!(s.subrange(p, p + m) =~= w.subrange(0, m)));
        let k = choose|k: int| 0 <= k < m && s.subrange(p, p + m)[k] != w.subrange(0, m)[k];
        assert(s.subrange(p, p + m)[k] == u[p + k]);
        assert(u.subrange(p, p + m2)[k] != w.subrange(0, m2)[k]);
    } else if s.len() - p >= w.len() {
        assert(m == m2);
        assert(u.subrange(p, p + m2) =~= s.subrange(p, p + m));
    }
}

proof fn lemma_take_while(s: Seq<u8>, t: Seq<u8>, p: int, c: Class)
    requires
        0 <= p <= s.len(),
        (s + t).len() <= usize::MAX,
    ensures
        stable(s, p, spec_take_while(s, p, c), spec_take_while(s + t, p, c)),
    decreases s.len() - p,
{
    if p < s.len() {
        assert((s + t)[p] == s[p]);
        if spec_in_class(c, s[p]) {
            lemma_take_while(s, t, p + 1, c);
        }
    }
}

proof fn lemma_take_while1(s: Seq<u8>, t: Seq<u8>, p: int, c: Class)
    requires
        0 <= p <= s.len(),
        (s + t).len() <= usize::MAX,
    ensures
        stable(s, p, spec_take_while1(s, p, c), spec_take_while1(s + t, p, c)),
{
    lemma_take_while(s, t, p, c);
}

proof fn lemma_ws(s: Seq<u8>, t: Seq<u8>, p: int)
    requires
        0 <= p <= s.len(),
        (s + t).len() <= usize::MAX,
    ensures
        stable(s, p, spec_ws(s, p), spec_ws(s + t, p)),
{
    lemma_take_while(s, t, p, Class::Ws);
}

proof fn lemma_quoted_body(s: Seq<u8>, t: Seq<u8>, r: int)
    requires
        0 <= r <= s.len(),
        (s + t).len() <= usize::MAX,
    ensures
        stable(s, r, spec_quoted_body(s, r), spec_quoted_body(s + t, r)),
    decreases s.len() - r,
{
    if r < s.len() {
        assert((s + t)[r] == s[r]);
        if s[r] == '"' as u8 {
        } else if s[r] == '\\' as u8 {
            if s.len() - r >= 2 {
                lemma_quoted_body(s, t, r + 2);
            }
        } else if s[r] != SENTINEL {
            lemma_quoted_body(s, t, r + 1);
        }
    }
}

proof fn lemma_quoted_string(s: Seq<u8>, t: Seq<u8>, p: int)
    requires
        0 <= p <= s.len(),
        (s + t).len() <= usize::MAX,
    ensures
        stable(s, p, spec_quoted_string(s, p), spec_quoted_string(s + t, p)),
{
    lemma_byte(s, t, p, '"' as u8);
    if let Scan::Done(q) = spec_byte(s, p, '"' as u8) {
        lemma_quoted_body(s, t, q as int);
    }
}

proof fn lemma_quoted_variant(s: Seq<u8>, t: Seq<u8>, p: int)
    requires
        0 <= p <= s.len(),
        (s + t).len() <= usize::MAX,
    ensures
        stable(s, p, spec_quoted_variant(s, p), spec_quoted_variant(s + t, p)),
{
    lemma_one_of(s, t, p, '&' as u8, '^' as u8);
    if let Scan::Done(q) = spec_opt(spec_one_of(s, p, '&' as u8, '^' as u8), p) {
        lemma_quoted_string(s, t, q as int);
    }
}

proof fn lemma_fraction(s: Seq<u8>, t: Seq<u8>, p: int)
    requires
        0 <= p <= s.len(),
        (s + t).len() <= usize::MAX,
    ensures
        stable(s, p, spec_fraction(s, p), spec_fraction(s + t, p)),
{
    lemma_byte(s, t, p, '.' as u8);
    if let Scan::Done(k) = spec_byte(s, p, '.' as u8) {
        lemma_take_while1(s, t, k as int, Class::Digit);
    }
}

proof fn lemma_mantissa(s: Seq<u8>, t: Seq<u8>, p: int)
    requires
        0 <= p <= s.len(),
        (s + t).len() <= usize::MAX,
    ensures
        stable(s, p, spec_mantissa(s, p), spec_mantissa(s + t, p)),
{
    lemma_take_while1(s, t, p, Class::Digit);
    if let Scan::Done(j) = spec_take_while1(s, p, Class::Digit) {
        lemma_fraction(s, t, j as int);
    }
    lemma_byte(s, t, p, '.' as u8);
    if let Scan::Done(k) = spec_byte(s, p, '.' as u8) {
        lemma_take_while1(s, t, k as int, Class::Digit);
    }
}

proof fn lemma_exponent(s: Seq<u8>, t: Seq<u8>, p: int)
    requires
        0 <= p <= s.len(),
        (s + t).len() <= usize::MAX,
    ensures
        stable(s, p, spec_exponent(s, p), spec_exponent(s + t, p)),
{
    lemma_one_of(s, t, p, 'e' as u8, 'E' as u8);
    if let Scan::Done(q) = spec_one_of(s, p, 'e' as u8, 'E' as u8) {
        lemma_one_of(s, t, q as int, '+' as u8, '-' as u8);
        if let Scan::Done(r) = spec_opt(spec_one_of(s, q as int, '+' as u8, '-' as u8), q as int) {
            lemma_take_while1(s, t, r as int, Class::Digit);
        }
    }
}

proof fn lemma_float(s: Seq<u8>, t: Seq<u8>, p: int)
    requires
        0 <= p <= s.len(),
        (s + t).len() <= usize::MAX,
    ensures
        stable(s, p, spec_float(s, p), spec_float(s + t, p)),
{
    lemma_one_of(s, t, p, '+' as u8, '-' as u8);
    if let Scan::Done(q) = spec_opt(spec_one_of(s, p, '+' as u8, '-' as u8), p) {
        lemma_mantissa(s, t, q as int);
        if let Scan::Done(r) = spec_mantissa(s, q as int) {
            lemma_exponent(s, t, r as int);
        }
    }
}

proof fn lemma_number(s: Seq<u8>, t: Seq<u8>, p: int)
    requires
        0 <= p <= s.len(),
        (s + t).len() <= usize::MAX,
    ensures
        stable(s, p, spec_number(s, p), spec_number(s + t, p)),
{
    lemma_one_of(s, t, p, '+' as u8, '-' as u8);
    if let Scan::Done(q) = spec_opt(spec_one_of(s, p, '+' as u8, '-' as u8), p) {
        lemma_tag(s, t, q as int, ascii("inf"@));
        lemma_tag(s, t, q as int, ascii("nan"@));
        lemma_float(s, t, q as int);
    }
}

proof fn lemma_ident(s: Seq<u8>, t: Seq<u8>, p: int)
    requires
        0 <= p <= s.len(),
        (s + t).len() <= usize::MAX,
    ensures
        stable(s, p, spec_ident(s, p), spec_ident(s + t, p)),
{
    lemma_take_while1(s, t, p, Class::IdentHead);
    if let Scan::Done(j) = spec_take_while1(s, p, Class::IdentHead) {
        lemma_take_while(s, t, j as int, Class::IdentTail);
    }
}

proof fn lemma_packed_body(s: Seq<u8>, t: Seq<u8>, r: int)
    requires
        0 <= r <= s.len(),
        (s + t).len() <= usize::MAX,
    ensures
        stable(s, r, spec_packed_body(s, r), spec_packed_body(s + t, r)),
    decreases s.len() - r,
{
    if r < s.len() {
        assert((s + t)[r] == s[r]);
        if s[r] == ')' as u8 {
        } else if s[r] == '"' as u8 {
            lemma_quoted_string(s, t, r);
            if let Scan::Done(q) = spec_quoted_string(s, r) {
                if adv(s, r, q) {
                    lemma_packed_body(s, t, q as int);
                }
            }
        } else if s[r] == 'i' as u8 || s[r] == 'n' as u8 {
            lemma_tag(s, t, r, ascii("inf_neg"@));
            lemma_tag(s, t, r, ascii("inf"@));
            lemma_tag(s, t, r, ascii("nan"@));
            let a = spec_alt(
                spec_tag(s, r, ascii("inf_neg"@)),
                spec_alt(spec_tag(s, r, ascii("inf"@)), spec_tag(s, r, ascii("nan"@))),
            );
            if let Scan::Done(q) = a {
                if adv(s, r, q) {
                    lemma_packed_body(s, t, q as int);
                }
            }
        } else if spec_in_class(Class::Payload, s[r]) {
            lemma_take_while(s, t, r, Class::Payload);
            if let Scan::Done(q) = spec_take_while(s, r, Class::Payload) {
                if adv(s, r, q) {
                    lemma_packed_body(s, t, q as int);
                }
            }
        }
    }
}

proof fn lemma_packed_array(s: Seq<u8>, t: Seq<u8>, p: int)
    requires
        0 <= p <= s.len(),
        (s + t).len() <= usize::MAX,
    ensures
        stable(s, p, spec_packed_array(s, p), spec_packed_array(s + t, p)),
{
    lemma_byte(s, t, p, '(' as u8);
    if let Scan::Done(q) = spec_byte(s, p, '(' as u8) {
        lemma_packed_body(s, t, q as int);
    }
}

proof fn lemma_type_arguments_body(s: Seq<u8>, t: Seq<u8>, r: int, depth: nat)
    requires
        0 <= r <= s.len(),
        (s + t).len() <= usize::MAX,
    ensures
        stable(s, r, spec_type_arguments_body(s, r, depth), spec_type_arguments_body(s + t, r, depth)),
    decreases s.len() - r,
{
    if r < s.len() {
        assert((s + t)[r] == s[r]);
        if s[r] == '"' as u8 {
            lemma_quoted_string(s, t, r);
            if let Scan::Done(q) = spec_quoted_string(s, r) {
                if adv(s, r, q) {
                    lemma_type_arguments_body(s, t, q as int, depth);
                }
            }
        } else if s[r] == '[' as u8 {
            lemma_type_arguments_body(s, t, r + 1, depth + 1);
        } else if s[r] == ']' as u8 {
            if depth > 1 {
                lemma_type_arguments_body(s, t, r + 1, (depth - 1) as nat);
            }
        } else if s[r] != SENTINEL {
            lemma_type_arguments_body(s, t, r + 1, depth);
        }
    }
}

proof fn lemma_type_arguments(s: Seq<u8>, t: Seq<u8>, p: int)
    requires
        0 <= p <= s.len(),
        (s + t).len() <= usize::MAX,
    ensures
        stable(s, p, spec_type_arguments(s, p), spec_type_arguments(s + t, p)),
{
    lemma_byte(s, t, p, '[' as u8);
    if let Scan::Done(q) = spec_byte(s, p, '[' as u8) {
        lemma_type_arguments_body(s, t, q as int, 1);
    }
}

proof fn lemma_constant_path(s: Seq<u8>, t: Seq<u8>, p: int)
    requires
        0 <= p <= s.len(),
        (s + t).len() <= usize::MAX,
    ensures
        stable(s, p, spec_constant_path(s, p), spec_constant_path(s + t, p)),
    decreases s.len() - p,
{
    lemma_byte(s, t, p, '.' as u8);
    if let Scan::Done(a) = spec_byte(s, p, '.' as u8) {
        lemma_ws(s, t, a as int);
        if let Scan::Done(b) = spec_ws(s, a as int) {
            lemma_ident(s, t, b as int);
            if let Scan::Done(c) = spec_ident(s, b as int) {
                lemma_ws(s, t, c as int);
                if let Scan::Done(d) = spec_ws(s, c as int) {
                    if (d as int) < s.len() {
                        assert((s + t)[d as int] == s[d as int]);
                        if s[d as int] == '.' as u8 && adv(s, p, d) {
                            lemma_constant_path(s, t, d as int);
                        }
                    }
                }
            }
        }
    }
}

proof fn lemma_comma(s: Seq<u8>, t: Seq<u8>, p: int)
    requires
        0 <= p <= s.len(),
        (s + t).len() <= usize::MAX,
    ensures
        stable(s, p, spec_comma(s, p), spec_comma(s + t, p)),
{
    lemma_ws(s, t, p);
    if let Scan::Done(a) = spec_ws(s, p) {
        lemma_byte(s, t, a as int, ',' as u8);
        if let Scan::Done(b) = spec_byte(s, a as int, ',' as u8) {
            lemma_ws(s, t, b as int);
        }
    }
}

proof fn lemma_close(s: Seq<u8>, t: Seq<u8>, p: int, c: u8)
    requires
        0 <= p <= s.len(),
        (s + t).len() <= usize::MAX,
    ensures
        stable(s, p, spec_close(s, p, c), spec_close(s + t, p, c)),
{
    lemma_ws(s, t, p);
    if let Scan::Done(a) = spec_ws(s, p) {
        lemma_byte(s, t, a as int, ',' as u8);
    }
    let trailing = match spec_ws(s, p) {
        Scan::Done(a) => spec_byte(s, a as int, ',' as u8),
        e => e,
    };
    if let Scan::Done(q) = spec_opt(trailing, p) {
        lemma_ws(s, t, q as int);
        if let Scan::Done(r) = spec_ws(s, q as int) {
            lemma_byte(s, t, r as int, c);
        }
    }
}

proof fn lemma_variant(s: Seq<u8>, t: Seq<u8>, p: int)
    requires
        0 <= p <= s.len(),
        (s + t).len() <= usize::MAX,
    ensures
        stable(s, p, spec_variant(s, p), spec_variant(s + t, p)),
    decreases s.len() - p, 2int,
{
    lemma_quoted_variant(s, t, p);
    lemma_array(s, t, p);
    lemma_dictionary(s, t, p);
    lemma_number(s, t, p);
    lemma_named(s, t, p);
}

proof fn lemma_values(s: Seq<u8>, t: Seq<u8>, p: int)
    requires
        0 <= p <= s.len(),
        (s + t).len() <= usize::MAX,
    ensures
        stable(s, p, spec_values(s, p), spec_values(s + t, p)),
    decreases s.len() - p, 3int,
{
    lemma_variant(s, t, p);
    if let Scan::Done(q) = spec_variant(s, p) {
        if adv(s, p, q) {
            lemma_more_values(s, t, q as int);
        }
    }
}

proof fn lemma_more_values(s: Seq<u8>, t: Seq<u8>, i: int)
    requires
        0 <= i <= s.len(),
        (s + t).len() <= usize::MAX,
    ensures
        stable(s, i, spec_more_values(s, i), spec_more_values(s + t, i)),
    decreases s.len() - i, 3int,
{
    lemma_comma(s, t, i);
    if let Scan::Done(j) = spec_comma(s, i) {
        if adv(s, i, j) {
            lemma_variant(s, t, j as int);
            if let Scan::Done(k) = spec_variant(s, j as int) {
                if adv(s, i, k) {
                    lemma_more_values(s, t, k as int);
                }
            }
        }
    }
}

proof fn lemma_array(s: Seq<u8>, t: Seq<u8>, p: int)
    requires
        0 <= p <= s.len(),
        (s + t).len() <= usize::MAX,
    ensures
        stable(s, p, spec_array(s, p), spec_array(s + t, p)),
    decreases s.len() - p, 1int,
{
    lemma_byte(s, t, p, '[' as u8);
    if let Scan::Done(a) = spec_byte(s, p, '[' as u8) {
        lemma_ws(s, t, a as int);
        if let Scan::Done(b) = spec_ws(s, a as int) {
            if adv(s, p, b) {
                lemma_values(s, t, b as int);
                if let Scan::Done(c) = spec_values(s, b as int) {
                    lemma_close(s, t, c as int, ']' as u8);
                }
            }
        }
    }
}

proof fn lemma_call(s: Seq<u8>, t: Seq<u8>, p: int)
    requires
        0 <= p <= s.len(),
        (s + t).len() <= usize::MAX,
    ensures
        stable(s, p, spec_call(s, p), spec_call(s + t, p)),
    decreases s.len() - p, 1int,
{
    lemma_byte(s, t, p, '(' as u8);
    if let Scan::Done(a) = spec_byte(s, p, '(' as u8) {
        lemma_ws(s, t, a as int);
        if let Scan::Done(b) = spec_ws(s, a as int) {
            if adv(s, p, b) {
                lemma_values(s, t, b as int);
                if let Scan::Done(c) = spec_values(s, b as int) {
                    lemma_close(s, t, c as int, ')' as u8);
                }
            }
        }
    }
}

proof fn lemma_entry(s: Seq<u8>, t: Seq<u8>, p: int)
    requires
        0 <= p <= s.len(),
        (s + t).len() <= usize::MAX,
    ensures
        stable(s, p, spec_entry(s, p), spec_entry(s + t, p)),
    decreases s.len() - p, 3int,
{
    lemma_variant(s, t, p);
    if let Scan::Done(a) = spec_variant(s, p) {
        lemma_ws(s, t, a as int);
        if let Scan::Done(b) = spec_ws(s, a as int) {
            lemma_byte(s, t, b as int, ':' as u8);
            if let Scan::Done(c) = spec_byte(s, b as int, ':' as u8) {
                lemma_ws(s, t, c as int);
                if let Scan::Done(d) = spec_ws(s, c as int) {
                    if adv(s, p, d) {
                        lemma_variant(s, t, d as int);
                    }
                }
            }
        }
    }
}

proof fn lemma_entries(s: Seq<u8>, t: Seq<u8>, p: int)
    requires
        0 <= p <= s.len(),
        (s + t).len() <= usize::MAX,
    ensures
        stable(s, p, spec_entries(s, p), spec_entries(s + t, p)),
    decreases s.len() - p, 4int,
{
    lemma_entry(s, t, p);
    if let Scan::Done(q) = spec_entry(s, p) {
        if adv(s, p, q) {
            lemma_more_entries(s, t, q as int);
        }
    }
}

proof fn lemma_more_entries(s: Seq<u8>, t: Seq<u8>, i: int)
    requires
        0 <= i <= s.len(),
        (s + t).len() <= usize::MAX,
    ensures
        stable(s, i, spec_more_entries(s, i), spec_more_entries(s + t, i)),
    decreases s.len() - i, 4int,
{
    lemma_comma(s, t, i);
    if let Scan::Done(j) = spec_comma(s, i) {
        if adv(s, i, j) {
            lemma_entry(s, t, j as int);
            if let Scan::Done(k) = spec_entry(s, j as int) {
                if adv(s, i, k) {
                    lemma_more_entries(s, t, k as int);
                }
            }
        }
    }
}

proof fn lemma_dictionary(s: Seq<u8>, t: Seq<u8>, p: int)
    requires
        0 <= p <= s.len(),
        (s + t).len() <= usize::MAX,
    ensures
        stable(s, p, spec_dictionary(s, p), spec_dictionary(s + t, p)),
    decreases s.len() - p, 1int,
{
    lemma_byte(s, t, p, '{' as u8);
    if let Scan::Done(a) = spec_byte(s, p, '{' as u8) {
        lemma_ws(s, t, a as int);
        if let Scan::Done(b) = spec_ws(s, a as int) {
            if adv(s, p, b) {
                lemma_entries(s, t, b as int);
                if let Scan::Done(c) = spec_entries(s, b as int) {
                    lemma_close(s, t, c as int, '}' as u8);
                }
            }
        }
    }
}

proof fn lemma_named(s: Seq<u8>, t: Seq<u8>, p: int)
    requires
        0 <= p <= s.len(),
        (s + t).len() <= usize::MAX,
    ensures
        stable(s, p, spec_named(s, p), spec_named(s + t, p)),
    decreases s.len() - p, 1int,
{
    let u = s + t;
    lemma_ident(s, t, p);
    if let Scan::Done(a) = spec_ident(s, p) {
        assert(u.subrange(p, a as int) =~= s.subrange(p, a as int));
        lemma_ws(s, t, a as int);
        if let Scan::Done(b) = spec_ws(s, a as int) {
            if (b as int) < s.len() {
                assert(u[b as int] == s[b as int]);
                if s[b as int] == '(' as u8 {
                    lemma_packed_array(s, t, b as int);
                    if adv(s, p, b) {
                        lemma_call(s, t, b as int);
                    }
                } else if s[b as int] == '[' as u8 {
                    lemma_type_arguments(s, t, b as int);
                    if let Scan::Done(c) = spec_type_arguments(s, b as int) {
                        lemma_ws(s, t, c as int);
                        if let Scan::Done(d) = spec_ws(s, c as int) {
                            if adv(s, p, d) {
                                lemma_call(s, t, d as int);
                            }
                        }
                    }
                } else if s[b as int] == '.' as u8 {
                    lemma_constant_path(s, t, b as int);
                }
            }
        }
    }
}

/// A value read from a buffer that has been decided (anything but `NeedMore`)
/// is decided the same way once more bytes are appended to the buffer. This is
/// what lets a reader refill its buffer and simply start over on `NeedMore`.
pub proof fn lemma_value_prefix_stable(s: Seq<u8>, t: Seq<u8>)
    requires
        (s + t).len() <= usize::MAX,
    ensures
        spec_value_at_cursor(s) !is NeedMore ==> spec_value_at_cursor(s + t)
            == spec_value_at_cursor(s),
{
    let u = s + t;
    lemma_ws(s, t, 0);
    if let Scan::Done(q) = spec_ws(s, 0) {
        lemma_variant(s, t, q as int);
        if let Scan::Done(r) = spec_variant(s, q as int) {
            if (r as int) < s.len() {
                assert(u[r as int] == s[r as int]);
            }
        }
    }
}

/// A run of bytes of class `c` from `p` that ends at `q`, inside the buffer.
proof fn lemma_take_while_run(s: Seq<u8>, p: int, q: int, c: Class)
    requires
        0 <= p <= q < s.len(),
        forall|i: int| p <= i < q ==> spec_in_class(c, #[trigger] s[i]),
        !spec_in_class(c, s[q]),
    ensures
        spec_take_while(s, p, c) == Scan::Done(q as usize),
    decreases q - p,
{
    if p < q {
        lemma_take_while_run(s, p + 1, q, c);
    }
}

/// A word of letters that is a keyword, followed by a terminator, is read as
/// a complete value when neither a number nor any other value starts it.
#[verifier::spinoff_prover]
#[verifier::rlimit(50)]
proof fn lemma_letter_keyword_value(w: Seq<u8>, t: u8)
    requires
        1 <= w.len() <= 8,
        forall|i: int| 0 <= i < w.len() ==> spec_is_alpha(#[trigger] w[i]),
        w[0] != 'i' as u8,
        w[0] != 'n' as u8 || w.len() < 2 || w[1] != 'a' as u8,
        spec_is_keyword(w),
        spec_is_terminator(t),
    ensures
        spec_value_at_cursor(w + seq![t]) == Scan::Done(w.len() as usize),
{
    let s = w + seq![t];
    let n = w.len() as int;
    assert(s[0] == w[0]);
    assert(s[n] == t);
    assert(spec_is_alpha(w[0]));
    // whitespace before the value: none
    assert(spec_ws(s, 0) == Scan::Done(0usize));
    // not a quoted value, an array or a dictionary
    assert(spec_quoted_variant(s, 0) is Mismatch);
    assert(spec_array(s, 0) is Mismatch);
    assert(spec_dictionary(s, 0) is Mismatch);
    // not a number
    reveal_strlit("inf");
    reveal_strlit("nan");
    let inf = ascii("inf"@);
    let nan = ascii("nan"@);
    assert(inf[0] == 'i' as u8);
    assert(nan[0] == 'n' as u8 && nan[1] == 'a' as u8);
    let mi = if s.len() < inf.len() { s.len() as int } else { inf.len() as int };
    assert(s.subrange(0, mi)[0] != inf.subrange(0, mi)[0]);
    assert(spec_tag(s, 0, inf) is Mismatch);
    let mn = if s.len() < nan.len() { s.len() as int } else { nan.len() as int };
    if w[0] != 'n' as u8 {
        assert(s.subrange(0, mn)[0] != nan.subrange(0, mn)[0]);
    } else {
        assert(s.subrange(0, mn)[1] != nan.subrange(0, mn)[1]);
    }
    assert(spec_tag(s, 0, nan) is Mismatch);
    assert(!spec_is_digit(s[0]));
    assert(spec_take_while(s, 0, Class::Digit) == Scan::Done(0usize));
    assert(spec_mantissa(s, 0) is Mismatch);
    assert(spec_float(s, 0) is Mismatch);
    assert(spec_number(s, 0) is Mismatch);
    // a name: the whole word
    assert(!spec_in_class(Class::IdentTail, t));
    assert forall|i: int| 0 <= i < n implies spec_in_class(Class::IdentHead, #[trigger] s[i]) by {
        assert(s[i] == w[i]);
        assert(spec_is_alpha(w[i]));
    }
    assert(!spec_in_class(Class::IdentHead, t));
    lemma_take_while_run(s, 0, n, Class::IdentHead);
    lemma_take_while_run(s, n, n, Class::IdentTail);
    assert(spec_ident(s, 0) == Scan::Done(n as usize));
    assert(s.subrange(0, n) =~= w);
    assert(spec_named(s, 0) == Scan::Done(n as usize));
    assert(spec_variant(s, 0) == Scan::Done(n as usize));
}

/// Law: `null`, `true` and `false` are complete values: each, followed by
/// any byte that may end a value, is read up to its last letter.
#[verifier::spinoff_prover]
#[verifier::rlimit(50)]
pub proof fn lemma_keywords_are_values(t: u8)
    requires
        spec_is_terminator(t),
    ensures
        spec_value_at_cursor(seq!['n' as u8, 'u' as u8, 'l' as u8, 'l' as u8, t]) == Scan::Done(4usize),
        spec_value_at_cursor(seq!['t' as u8, 'r' as u8, 'u' as u8, 'e' as u8, t]) == Scan::Done(4usize),
        spec_value_at_cursor(seq!['f' as u8, 'a' as u8, 'l' as u8, 's' as u8, 'e' as u8, t]) == Scan::Done(5usize),
{
    reveal_strlit("null");
    reveal_strlit("true");
    reveal_strlit("false");
    let k1 = seq!['n' as u8, 'u' as u8, 'l' as u8, 'l' as u8];
    let k2 = seq!['t' as u8, 'r' as u8, 'u' as u8, 'e' as u8];
    let k3 = seq!['f' as u8, 'a' as u8, 'l' as u8, 's' as u8, 'e' as u8];
    assert(k1 =~= ascii("null"@));
    assert(k2 =~= ascii("true"@));
    assert(k3 =~= ascii("false"@));
    lemma_letter_keyword_value(k1, t);
    lemma_letter_keyword_value(k2, t);
    lemma_letter_keyword_value(k3, t);
    assert(k1 + seq![t] =~= seq!['n' as u8, 'u' as u8, 'l' as u8, 'l' as u8, t]);
    assert(k2 + seq![t] =~= seq!['t' as u8, 'r' as u8, 'u' as u8, 'e' as u8, t]);
    assert(k3 + seq![t] =~= seq!['f' as u8, 'a' as u8, 'l' as u8, 's' as u8, 'e' as u8, t]);
}

} // verus!
