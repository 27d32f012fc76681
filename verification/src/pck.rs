//! Checks a Godot resource pack (`.pck`) before it is loaded: its header, the
//! paths in its directory, and every text scene (`.tscn`) it holds.
//!
//! The pack is given as its bytes. A reading position may lie past the end of
//! the bytes, as a file position may after a seek; a read there gets nothing.
//! A read of a fixed width near the end gets the bytes that are left, and the
//! value is read little-endian with the missing high bytes zero.
use vstd::prelude::*;

use crate::scene_grammar::{ascii, spec_value_at_cursor, value_at_cursor, Scan, SENTINEL};

verus! {

// ---------------------------------------------------------------------------
// Reading
// ---------------------------------------------------------------------------

/// The magic number at the start of a pack, read little-endian (`GDPC`).
pub const PACK_MAGIC: u32 = 0x43504447;

/// A value of the scene grammar may use at most this many bytes.
pub const MAX_VARIANT_SIZE: usize = 536870912;

/// The largest position a seek may reach.
pub const MAX_SEEK: u64 = 0x7fff_ffff_ffff_ffff;

pub open spec fn pow256(k: nat) -> nat
    decreases k,
{
    if k == 0 {
        1
    } else {
        256 * pow256((k - 1) as nat)
    }
}

/// The little-endian number that the bytes `b` hold.
pub open spec fn le_value(b: Seq<u8>) -> nat
    decreases b.len(),
{
    if b.len() == 0 {
        0
    } else {
        b[0] as nat + 256 * le_value(b.drop_first())
    }
}

/// The bytes that a read of `n` bytes at `pos` gets: those before the end of the data.
pub open spec fn read_span(s: Seq<u8>, pos: int, n: int) -> Seq<u8> {
    if pos >= s.len() {
        Seq::empty()
    } else if s.len() - pos < n {
        s.subrange(pos, s.len() as int)
    } else {
        s.subrange(pos, pos + n)
    }
}

/// The value of a read of `n` bytes at `pos`.
pub open spec fn read_value(s: Seq<u8>, pos: int, n: int) -> nat {
    le_value(read_span(s, pos, n))
}

/// The position after a read of `n` bytes at `pos`.
pub open spec fn after_read(s: Seq<u8>, pos: int, n: int) -> int {
    pos + read_span(s, pos, n).len()
}

/// The index of the first byte `d` at or after `i`, or the end of the data.
pub open spec fn find_byte(s: Seq<u8>, i: int, d: u8) -> int
    decreases s.len() - i,
{
    if i >= s.len() {
        s.len() as int
    } else if s[i] == d {
        i
    } else {
        find_byte(s, i + 1, d)
    }
}

/// Where a read up to and including the next byte `d` stops: after that byte,
/// or at the end of the data.
pub open spec fn until_end(s: Seq<u8>, pos: int, d: u8) -> int {
    if pos >= s.len() {
        pos
    } else if find_byte(s, pos, d) < s.len() {
        find_byte(s, pos, d) + 1
    } else {
        s.len() as int
    }
}

/// The bytes from `a` to `b`, empty where `a` is past the end.
pub open spec fn span(s: Seq<u8>, a: int, b: int) -> Seq<u8> {
    if a >= s.len() {
        Seq::empty()
    } else {
        s.subrange(a, b)
    }
}

/// The first byte above space (32) at or after `i`, or the end of the data.
pub open spec fn skip_blank(s: Seq<u8>, i: int) -> int
    decreases s.len() - i,
{
    if i >= s.len() {
        s.len() as int
    } else if s[i] > 32 {
        i
    } else {
        skip_blank(s, i + 1)
    }
}

proof fn lemma_pow256_8()
    ensures
        pow256(8) == 0x1_0000_0000_0000_0000,
{
    reveal_with_fuel(pow256, 9);
}

pub(crate) proof fn lemma_pow256_mono(a: nat, b: nat)
    requires
        a <= b,
    ensures
        pow256(a) <= pow256(b),
    decreases b,
{
    if a < b {
        lemma_pow256_mono(a, (b - 1) as nat);
    }
}

proof fn lemma_le_value_step(b: Seq<u8>, i: int)
    requires
        0 <= i < b.len(),
    ensures
        le_value(b.subrange(i, b.len() as int)) == b[i] as nat + 256 * le_value(
            b.subrange(i + 1, b.len() as int),
        ),
{
    assert(b.subrange(i, b.len() as int).drop_first() =~= b.subrange(i + 1, b.len() as int));
}

/// Reads `width` (at most 8) bytes at `pos`.
pub fn read_le(s: &[u8], pos: u64, width: u64) -> (r: (u64, u64))
    requires
        width <= 8,
    ensures
        r.0 == read_value(s@, pos as int, width as int),
        r.1 == after_read(s@, pos as int, width as int),
        r.0 < pow256(read_span(s@, pos as int, width as int).len()),
{
    let len = s.len() as u64;
    if pos >= len {
        return (0, pos);
    }
    let k = if len - pos < width {
        len - pos
    } else {
        width
    };
    let b = vstd::slice::slice_subrange(s, pos as usize, (pos + k) as usize);
    assert(b@ =~= read_span(s@, pos as int, width as int));
    let mut i = k as usize;
    let mut v: u64 = 0;
    proof {
        assert(b@.subrange(k as int, k as int) =~= Seq::<u8>::empty());
        lemma_pow256_8();
    }
    while i > 0
        invariant
            i <= k <= 8,
            b@.len() == k,
            v == le_value(b@.subrange(i as int, k as int)),
            v < pow256((k - i) as nat),
            pow256(8) == 0x1_0000_0000_0000_0000,
        decreases i,
    {
        proof {
            lemma_le_value_step(b@.subrange(0, k as int), (i - 1) as int);
            assert(b@.subrange(0, k as int) =~= b@);
            assert(b@.subrange((i - 1) as int, k as int) =~= b@.subrange(0, k as int).subrange(
                (i - 1) as int,
                k as int,
            ));
            assert(b@.subrange(i as int, k as int) =~= b@.subrange(0, k as int).subrange(
                i as int,
                k as int,
            ));
            lemma_pow256_mono((k - i + 1) as nat, 8);
        }
        v = (b[i - 1] as u64) + 256 * v;
        i = i - 1;
    }
    assert(b@.subrange(0, k as int) =~= b@);
    (v, pos + k)
}

/// Reads up to and including the next byte `d`; returns the position after it.
pub fn read_until(s: &[u8], pos: u64, d: u8) -> (e: u64)
    ensures
        e == until_end(s@, pos as int, d),
        pos < s@.len() ==> pos < e <= s@.len(),
        pos >= s@.len() ==> e == pos,
{
    let len = s.len() as u64;
    if pos >= len {
        return pos;
    }
    let mut i = pos;
    while i < len
        invariant
            pos <= i <= len,
            len == s@.len(),
            find_byte(s@, i as int, d) == find_byte(s@, pos as int, d),
        decreases len - i,
    {
        if s[i as usize] == d {
            return i + 1;
        }
        i = i + 1;
    }
    len
}

/// The first byte above space at or after `pos`, or the end of the data.
pub fn skip_blanks(s: &[u8], pos: u64) -> (e: u64)
    ensures
        e == skip_blank(s@, pos as int) || (pos > s@.len() && e == pos),
        pos <= s@.len() ==> e == skip_blank(s@, pos as int),
        e >= s@.len() ==> skip_blank(s@, pos as int) == s@.len(),
{
    let len = s.len() as u64;
    if pos >= len {
        return pos;
    }
    let mut i = pos;
    while i < len
        invariant
            pos <= i <= len,
            len == s@.len(),
            skip_blank(s@, i as int) == skip_blank(s@, pos as int),
        decreases len - i,
    {
        if s[i as usize] > 32 {
            return i;
        }
        i = i + 1;
    }
    len
}


// ---------------------------------------------------------------------------
// Text
// ---------------------------------------------------------------------------

/// Whether `bytes` is well-formed UTF-8, as `std::str::from_utf8` decides it.
pub uninterp spec fn utf8_valid(bytes: Seq<u8>) -> bool;

/// Calls `std::str::from_utf8`; trusted to accept exactly the byte strings that
/// `utf8_valid` names, among them every ASCII string (bytes below 128 are
/// one-byte characters). Nothing more is claimed of `utf8_valid`.
#[verifier::external_body]
pub(crate) fn is_utf8(bytes: &[u8]) -> (r: bool)
    ensures
        r == utf8_valid(bytes@),
        (forall|i: int| 0 <= i < bytes@.len() ==> bytes@[i] < 128) ==> r,
{
    std::str::from_utf8(bytes).is_ok()
}

pub open spec fn starts_with(a: Seq<u8>, b: Seq<u8>) -> bool {
    b.len() <= a.len() && a.subrange(0, b.len() as int) == b
}

pub open spec fn ends_with(a: Seq<u8>, b: Seq<u8>) -> bool {
    b.len() <= a.len() && a.subrange(a.len() - b.len(), a.len() as int) == b
}

pub open spec fn ascii_lower(b: u8) -> u8 {
    if 0x41 <= b <= 0x5a {
        (b + 32) as u8
    } else {
        b
    }
}

/// `a` with ASCII capitals made small.
pub open spec fn lower(a: Seq<u8>) -> Seq<u8> {
    a.map_values(|b: u8| ascii_lower(b))
}

/// Two dots in a row somewhere in `a`.
pub open spec fn contains_dotdot(a: Seq<u8>) -> bool {
    exists|i: int| 0 <= i < a.len() - 1 && #[trigger] a[i] == '.' as u8 && a[i + 1] == '.' as u8
}

/// The index of the first NUL byte of `a` at or after `i`, or its length.
pub open spec fn nul_index(a: Seq<u8>, i: int) -> int
    decreases a.len() - i,
{
    if i >= a.len() {
        a.len() as int
    } else if a[i] == 0 {
        i
    } else {
        nul_index(a, i + 1)
    }
}

/// `a` up to its first NUL byte.
pub open spec fn before_nul(a: Seq<u8>) -> Seq<u8> {
    a.subrange(0, nul_index(a, 0))
}

/// Whether the bytes of `a` from `start` are those of `b`.
pub fn range_eq(a: &[u8], start: usize, b: &[u8]) -> (r: bool)
    requires
        start + b@.len() <= a@.len(),
    ensures
        r == (a@.subrange(start as int, start + b@.len()) == b@),
{
    let alen = a.len();
    let mut k: usize = 0;
    while k < b.len()
        invariant
            alen == a@.len(),
            start + b@.len() <= a@.len(),
            k <= b@.len(),
            a@.subrange(start as int, start + k) =~= b@.subrange(0, k as int),
        decreases b@.len() - k,
    {
        if a[start + k] != b[k] {
            assert(a@.subrange(start as int, start + b@.len())[k as int] != b@[k as int]);
            return false;
        }
        k = k + 1;
        assert(a@.subrange(start as int, start + k) =~= b@.subrange(0, k as int));
    }
    assert(b@.subrange(0, b@.len() as int) =~= b@);
    true
}

/// Whether `a` starts with `b`.
pub fn bytes_starts_with(a: &[u8], b: &[u8]) -> (r: bool)
    ensures
        r == starts_with(a@, b@),
{
    if b.len() > a.len() {
        return false;
    }
    range_eq(a, 0, b)
}

/// Whether `a` ends with `b`.
pub fn bytes_ends_with(a: &[u8], b: &[u8]) -> (r: bool)
    ensures
        r == ends_with(a@, b@),
{
    if b.len() > a.len() {
        return false;
    }
    range_eq(a, a.len() - b.len(), b)
}

/// Whether `a` with ASCII capitals made small ends with `b`.
pub fn lower_ends_with(a: &[u8], b: &[u8]) -> (r: bool)
    ensures
        r == ends_with(lower(a@), b@),
{
    if b.len() > a.len() {
        return false;
    }
    let alen = a.len();
    let start = a.len() - b.len();
    let mut k: usize = 0;
    while k < b.len()
        invariant
            alen == a@.len(),
            start + b@.len() == a@.len(),
            k <= b@.len(),
            lower(a@).subrange(start as int, start + k) =~= b@.subrange(0, k as int),
        decreases b@.len() - k,
    {
        let c = a[start + k];
        let l = if 0x41 <= c && c <= 0x5a {
            c + 32
        } else {
            c
        };
        if l != b[k] {
            assert(lower(a@).subrange(start as int, a@.len() as int)[k as int] != b@[k as int]);
            return false;
        }
        k = k + 1;
        assert(lower(a@).subrange(start as int, start + k) =~= b@.subrange(0, k as int));
    }
    assert(b@.subrange(0, b@.len() as int) =~= b@);
    true
}

/// Whether `a` has two dots in a row.
pub fn has_dotdot(a: &[u8]) -> (r: bool)
    ensures
        r == contains_dotdot(a@),
{
    if a.len() < 2 {
        return false;
    }
    let alen = a.len();
    let mut i: usize = 0;
    while i + 1 < a.len()
        invariant
            alen == a@.len(),
            a@.len() >= 2,
            i + 1 <= a@.len(),
            forall|j: int| 0 <= j < i ==> !(#[trigger] a@[j] == '.' as u8 && a@[j + 1] == '.' as u8),
        decreases a@.len() - i,
    {
        if a[i] == '.' as u8 && a[i + 1] == '.' as u8 {
            return true;
        }
        i = i + 1;
    }
    false
}

/// A copy of `a` up to its first NUL byte.
pub fn copy_before_nul(a: &[u8]) -> (r: Vec<u8>)
    ensures
        r@ == before_nul(a@),
{
    let mut i: usize = 0;
    while i < a.len() && a[i] != 0
        invariant
            i <= a@.len(),
            nul_index(a@, i as int) == nul_index(a@, 0),
        decreases a@.len() - i,
    {
        i = i + 1;
    }
    vstd::slice::slice_to_vec(vstd::slice::slice_subrange(a, 0, i))
}

// ---------------------------------------------------------------------------
// Scenes
// ---------------------------------------------------------------------------

/// What a `[...]` header of a scene introduces.
#[derive(Debug, Clone, Copy, PartialEq, Eq, Structural)]
pub enum ObjectKind {
    Node,
    SubResource,
}

/// Why the header of an object was refused.
#[derive(Debug, Clone, Copy, PartialEq, Eq, Structural)]
pub enum HeaderError {
    /// `[connection ...]`
    ConnectionType,
    /// `[ext_resource ...]`
    ExtResourceType,
    /// any other word
    UnknownResourceType,
    /// the word is not text
    GenericError,
}

/// Why the body of an object was refused.
#[derive(Debug, Clone, Copy, PartialEq, Eq, Structural)]
pub enum ObjectError {
    /// a property name with a quote in it that is not a quoted name, or no ` = ` after it
    BadKey,
    /// a property value that is not a value of the scene grammar
    BadValue,
    /// a property value with an inline `Object(...)`
    InlineObjectValue,
    /// a sub resource of a type that is not allowed
    BadResource,
    /// a malformed sub resource type
    GenericError,
    /// the data ended inside the object
    Truncated,
}

/// Whether `name` is one of the allowed resource types.
pub open spec fn allowed(whitelist: Seq<Seq<u8>>, name: Seq<u8>) -> bool {
    exists|i: int| 0 <= i < whitelist.len() && whitelist[i] == name
}

/// The allowed resource type names as byte strings.
pub open spec fn names(whitelist: Seq<Vec<u8>>) -> Seq<Seq<u8>> {
    whitelist.map_values(|v: Vec<u8>| v@)
}

/// The header word of an object, up to and including its space, and where it ends.
pub open spec fn spec_parse_header(s: Seq<u8>, pos: int) -> (Result<ObjectKind, HeaderError>, int) {
    let e = until_end(s, pos, ' ' as u8);
    let word = span(s, pos, e);
    let r = if !utf8_valid(word) {
        Err(HeaderError::GenericError)
    } else if word == ascii("sub_resource "@) {
        Ok(ObjectKind::SubResource)
    } else if word == ascii("node "@) {
        Ok(ObjectKind::Node)
    } else if word == ascii("ext_resource "@) {
        Err(HeaderError::ExtResourceType)
    } else if word == ascii("connection "@) {
        Err(HeaderError::ConnectionType)
    } else {
        Err(HeaderError::UnknownResourceType)
    };
    (r, e)
}

/// A quote that is not escaped by a backslash right before it.
pub open spec fn has_bare_quote(key: Seq<u8>) -> bool {
    exists|i: int| 0 <= i < key.len() - 1 && key[i + 1] == '"' as u8 && #[trigger] key[i] != '\\' as u8
}

/// A key written as a quoted string: it starts and ends with a quote, and the last quote is not escaped.
pub open spec fn is_quoted_key(key: Seq<u8>) -> bool {
    &&& key.len() >= 1
    &&& key[0] == '"' as u8
    &&& key[key.len() - 1] == '"' as u8
    &&& !(key.len() >= 2 && key[key.len() - 2] == '\\' as u8)
}

/// The bytes the value parser sees at `pos`: the rest of the data followed by the
/// sentinel, or only the next `MAX_VARIANT_SIZE` bytes where more than that is left.
pub open spec fn value_window(s: Seq<u8>, pos: int) -> Seq<u8> {
    let padded = s.push(SENTINEL);
    let c = if pos > s.len() {
        s.len() as int
    } else {
        pos
    };
    let end = if c + MAX_VARIANT_SIZE < padded.len() {
        c + MAX_VARIANT_SIZE
    } else {
        padded.len() as int
    };
    padded.subrange(c, end)
}

/// A property value at `pos`, and where the value ends.
pub open spec fn spec_parse_variant(s: Seq<u8>, pos: int) -> Result<int, ObjectError> {
    let c = if pos > s.len() {
        s.len() as int
    } else {
        pos
    };
    match spec_value_at_cursor(value_window(s, pos)) {
        Scan::Done(r) => Ok(c + r),
        Scan::InlineObject => Err(ObjectError::InlineObjectValue),
        _ => Err(ObjectError::BadValue),
    }
}

/// A property `key = value` at `pos`, and where the value ends.
pub open spec fn spec_parse_value(s: Seq<u8>, pos: int) -> Result<int, ObjectError> {
    let e = until_end(s, pos, '=' as u8);
    let read = span(s, pos, e);
    if read.len() < 2 {
        Err(ObjectError::BadKey)
    } else {
        let key = read.subrange(0, read.len() - 2);
        if has_bare_quote(key) && !is_quoted_key(key) {
            Err(ObjectError::BadKey)
        } else if read_value(s, e, 1) != ' ' as nat {
            Err(ObjectError::BadKey)
        } else {
            spec_parse_variant(s, after_read(s, e, 1))
        }
    }
}

/// The properties of an object from `pos` on. They end before the next `[`, or at the
/// first property that starts after `limit`.
pub open spec fn spec_properties(s: Seq<u8>, pos: int, limit: int) -> Result<int, ObjectError>
    decreases s.len() - pos,
{
    let i = skip_blank(s, pos);
    if i >= s.len() {
        Err(ObjectError::Truncated)
    } else if s[i] == '[' as u8 {
        Ok(i)
    } else if i > limit {
        Ok(i)
    } else {
        match spec_parse_value(s, i) {
            Ok(j) => if pos < j <= s.len() {
                spec_properties(s, j, limit)
            } else {
                Err(ObjectError::GenericError)
            },
            Err(e) => Err(e),
        }
    }
}

/// The body of an object whose header word has been read: the rest of the header up to
/// `]`, then its properties. A sub resource must have an allowed type.
pub open spec fn spec_parse_object(
    s: Seq<u8>,
    pos: int,
    kind: ObjectKind,
    limit: int,
    whitelist: Seq<Seq<u8>>,
) -> Result<int, ObjectError> {
    match kind {
        ObjectKind::Node => spec_properties(s, until_end(s, pos, ']' as u8), limit),
        ObjectKind::SubResource => {
            let e1 = until_end(s, pos, '"' as u8);
            let e2 = until_end(s, e1, '"' as u8);
            let name = span(s, e1, e2);
            if span(s, pos, e1) != ascii("type=\""@) {
                Err(ObjectError::GenericError)
            } else if !utf8_valid(name) {
                Err(ObjectError::GenericError)
            } else if name.len() == 0 || name[name.len() - 1] >= 0x80 {
                Err(ObjectError::Truncated)
            } else if !allowed(whitelist, name.drop_last()) {
                Err(ObjectError::BadResource)
            } else {
                spec_properties(s, until_end(s, e2, ']' as u8), limit)
            }
        },
    }
}

/// Reads the header word of an object at `pos` (see `spec_parse_header`); gives the
/// kind or why it is refused, and where the word ends.
pub fn parse_header(s: &[u8], pos: u64) -> (r: (Result<ObjectKind, HeaderError>, u64))
    ensures
        (r.0, r.1 as int) == spec_parse_header(s@, pos as int),
{
    let e = read_until(s, pos, ' ' as u8);
    let word: &[u8] = if pos >= s.len() as u64 {
        assert(span(s@, pos as int, e as int) =~= Seq::<u8>::empty());
        vstd::slice::slice_subrange(s, 0, 0)
    } else {
        vstd::slice::slice_subrange(s, pos as usize, e as usize)
    };
    assert(word@ =~= span(s@, pos as int, e as int));
    let k_sub: [u8; 13] = [
        's' as u8, 'u' as u8, 'b' as u8, '_' as u8, 'r' as u8, 'e' as u8, 's' as u8, 'o' as u8,
        'u' as u8, 'r' as u8, 'c' as u8, 'e' as u8, ' ' as u8,
    ];
    let k_node: [u8; 5] = ['n' as u8, 'o' as u8, 'd' as u8, 'e' as u8, ' ' as u8];
    let k_ext: [u8; 13] = [
        'e' as u8, 'x' as u8, 't' as u8, '_' as u8, 'r' as u8, 'e' as u8, 's' as u8, 'o' as u8,
        'u' as u8, 'r' as u8, 'c' as u8, 'e' as u8, ' ' as u8,
    ];
    let k_conn: [u8; 11] = [
        'c' as u8, 'o' as u8, 'n' as u8, 'n' as u8, 'e' as u8, 'c' as u8, 't' as u8, 'i' as u8,
        'o' as u8, 'n' as u8, ' ' as u8,
    ];
    proof {
        reveal_strlit("sub_resource ");
        reveal_strlit("node ");
        reveal_strlit("ext_resource ");
        reveal_strlit("connection ");
        assert(k_sub@ =~= ascii("sub_resource "@));
        assert(k_node@ =~= ascii("node "@));
        assert(k_ext@ =~= ascii("ext_resource "@));
        assert(k_conn@ =~= ascii("connection "@));
    }
    let r = if !is_utf8(word) {
        Err(HeaderError::GenericError)
    } else if word.len() == 13 && range_eq(word, 0, &k_sub) {
        Ok(ObjectKind::SubResource)
    } else if word.len() == 5 && range_eq(word, 0, &k_node) {
        Ok(ObjectKind::Node)
    } else if word.len() == 13 && range_eq(word, 0, &k_ext) {
        Err(HeaderError::ExtResourceType)
    } else if word.len() == 11 && range_eq(word, 0, &k_conn) {
        Err(HeaderError::ConnectionType)
    } else {
        Err(HeaderError::UnknownResourceType)
    };
    proof {
        assert(word@.subrange(0, word@.len() as int) =~= word@);
    }
    (r, e)
}

fn key_has_bare_quote(key: &[u8]) -> (r: bool)
    ensures
        r == has_bare_quote(key@),
{
    if key.len() < 2 {
        return false;
    }
    let klen = key.len();
    let mut i: usize = 0;
    while i + 1 < key.len()
        invariant
            klen == key@.len(),
            key@.len() >= 2,
            i + 1 <= key@.len(),
            forall|j: int|
                0 <= j < i ==> !(key@[j + 1] == '"' as u8 && #[trigger] key@[j] != '\\' as u8),
        decreases key@.len() - i,
    {
        if key[i + 1] == '"' as u8 && key[i] != '\\' as u8 {
            return true;
        }
        i = i + 1;
    }
    false
}

fn key_is_quoted(key: &[u8]) -> (r: bool)
    ensures
        r == is_quoted_key(key@),
{
    key.len() >= 1 && key[0] == '"' as u8 && key[key.len() - 1] == '"' as u8 && !(key.len() >= 2
        && key[key.len() - 2] == '\\' as u8)
}

/// Reads a property value at `pos`. `padded` is the data followed by the sentinel.
pub fn parse_variant(s: &[u8], padded: &[u8], pos: u64) -> (r: Result<u64, ObjectError>)
    requires
        padded@ == s@.push(SENTINEL),
    ensures
        r matches Ok(j) ==> spec_parse_variant(s@, pos as int) == Ok::<int, ObjectError>(j as int),
        r matches Err(e) ==> spec_parse_variant(s@, pos as int) == Err::<int, ObjectError>(e),
        r matches Ok(j) ==> j <= s@.len(),
{
    let len = s.len();
    let c: usize = if pos > len as u64 {
        len
    } else {
        pos as usize
    };
    let end: usize = if len - c >= MAX_VARIANT_SIZE {
        c + MAX_VARIANT_SIZE
    } else {
        padded.len()
    };
    let window = vstd::slice::slice_subrange(padded, c, end);
    assert(window@ =~= value_window(s@, pos as int));
    match value_at_cursor(window) {
        Scan::Done(r) => Ok(c as u64 + r as u64),
        Scan::InlineObject => Err(ObjectError::InlineObjectValue),
        _ => Err(ObjectError::BadValue),
    }
}

/// Reads a property `key = value` at `pos`; gives where the value ends (see
/// `spec_parse_value`). `padded` is `s` with the sentinel after it.
pub fn parse_value(s: &[u8], padded: &[u8], pos: u64) -> (r: Result<u64, ObjectError>)
    requires
        padded@ == s@.push(SENTINEL),
    ensures
        r matches Ok(j) ==> spec_parse_value(s@, pos as int) == Ok::<int, ObjectError>(j as int),
        r matches Err(e) ==> spec_parse_value(s@, pos as int) == Err::<int, ObjectError>(e),
        r matches Ok(j) ==> j <= s@.len(),
{
    let e = read_until(s, pos, '=' as u8);
    let read: &[u8] = if pos >= s.len() as u64 {
        vstd::slice::slice_subrange(s, 0, 0)
    } else {
        vstd::slice::slice_subrange(s, pos as usize, e as usize)
    };
    assert(read@ =~= span(s@, pos as int, e as int));
    if read.len() < 2 {
        return Err(ObjectError::BadKey);
    }
    let key = vstd::slice::slice_subrange(read, 0, read.len() - 2);
    if key_has_bare_quote(key) && !key_is_quoted(key) {
        return Err(ObjectError::BadKey);
    }
    let (next, p) = read_le(s, e, 1);
    if next != ' ' as u64 {
        return Err(ObjectError::BadKey);
    }
    parse_variant(s, padded, p)
}

/// Reads the properties of an object from `pos` on (see `spec_properties`); gives where
/// they end.
pub fn properties(s: &[u8], padded: &[u8], pos: u64, limit: u64) -> (r: Result<u64, ObjectError>)
    requires
        padded@ == s@.push(SENTINEL),
    ensures
        r matches Ok(j) ==> spec_properties(s@, pos as int, limit as int) == Ok::<int, ObjectError>(
            j as int,
        ),
        r matches Err(e) ==> spec_properties(s@, pos as int, limit as int) == Err::<
            int,
            ObjectError,
        >(e),
        r matches Ok(j) ==> j <= s@.len(),
{
    let len = s.len() as u64;
    let mut p = pos;
    loop
        invariant
            len == s@.len(),
            padded@ == s@.push(SENTINEL),
            spec_properties(s@, p as int, limit as int) == spec_properties(
                s@,
                pos as int,
                limit as int,
            ),
        decreases s@.len() - p,
    {
        let i = skip_blanks(s, p);
        if i >= len {
            return Err(ObjectError::Truncated);
        }
        if s[i as usize] == '[' as u8 {
            return Ok(i);
        }
        if i > limit {
            return Ok(i);
        }
        match parse_value(s, padded, i) {
            Ok(j) => {
                if !(p < j && j <= len) {
                    return Err(ObjectError::GenericError);
                }
                p = j;
            },
            Err(e) => {
                return Err(e);
            },
        }
    }
}

/// Whether `s[a..b]` is one of the allowed names.
fn is_allowed(whitelist: &Vec<Vec<u8>>, s: &[u8], a: usize, b: usize) -> (r: bool)
    requires
        a <= b <= s@.len(),
    ensures
        r == allowed(names(whitelist@), s@.subrange(a as int, b as int)),
{
    let mut i: usize = 0;
    while i < whitelist.len()
        invariant
            a <= b <= s@.len(),
            i <= whitelist@.len(),
            forall|j: int| 0 <= j < i ==> whitelist@[j]@ != s@.subrange(a as int, b as int),
        decreases whitelist@.len() - i,
    {
        let w: &Vec<u8> = &whitelist[i];
        if w.len() == b - a && range_eq(s, a, w.as_slice()) {
            assert(names(whitelist@)[i as int] == w@);
            return true;
        }
        i = i + 1;
    }
    proof {
        if allowed(names(whitelist@), s@.subrange(a as int, b as int)) {
            let j = choose|j: int|
                0 <= j < names(whitelist@).len() && names(whitelist@)[j] == s@.subrange(
                    a as int,
                    b as int,
                );
            assert(whitelist@[j]@ == names(whitelist@)[j]);
        }
    }
    false
}

fn sub_resource(
    s: &[u8],
    padded: &[u8],
    pos: u64,
    limit: u64,
    whitelist: &Vec<Vec<u8>>,
) -> (r: Result<u64, ObjectError>)
    requires
        padded@ == s@.push(SENTINEL),
    ensures
        r matches Ok(j) ==> spec_parse_object(s@, pos as int, ObjectKind::SubResource, limit as int, names(whitelist@))
            == Ok::<int, ObjectError>(j as int),
        r matches Err(e) ==> spec_parse_object(s@, pos as int, ObjectKind::SubResource, limit as int, names(whitelist@))
            == Err::<int, ObjectError>(e),
        r matches Ok(j) ==> j <= s@.len(),
{
    let len = s.len() as u64;
    let e1 = read_until(s, pos, '"' as u8);
    let e2 = read_until(s, e1, '"' as u8);
    let head: &[u8] = if pos >= len {
        vstd::slice::slice_subrange(s, 0, 0)
    } else {
        vstd::slice::slice_subrange(s, pos as usize, e1 as usize)
    };
    assert(head@ =~= span(s@, pos as int, e1 as int));
    let k_type: [u8; 6] = ['t' as u8, 'y' as u8, 'p' as u8, 'e' as u8, '=' as u8, '"' as u8];
    proof {
        reveal_strlit("type=\"");
        assert(k_type@ =~= ascii("type=\""@));
        assert(head@.subrange(0, head@.len() as int) =~= head@);
    }
    if !(head.len() == 6 && range_eq(head, 0, &k_type)) {
        return Err(ObjectError::GenericError);
    }
    let name: &[u8] = if e1 >= len {
        vstd::slice::slice_subrange(s, 0, 0)
    } else {
        vstd::slice::slice_subrange(s, e1 as usize, e2 as usize)
    };
    assert(name@ =~= span(s@, e1 as int, e2 as int));
    if !is_utf8(name) {
        return Err(ObjectError::GenericError);
    }
    if name.len() == 0 || name[name.len() - 1] >= 0x80 {
        return Err(ObjectError::Truncated);
    }
    proof {
        assert(name@.drop_last() =~= s@.subrange(e1 as int, e2 - 1));
    }
    if !is_allowed(whitelist, s, e1 as usize, (e2 - 1) as usize) {
        return Err(ObjectError::BadResource);
    }
    properties(s, padded, read_until(s, e2, ']' as u8), limit)
}

/// Reads the body of an object whose header word has been read (see
/// `spec_parse_object`); gives where it ends.
pub fn parse_object(
    s: &[u8],
    padded: &[u8],
    pos: u64,
    kind: ObjectKind,
    limit: u64,
    whitelist: &Vec<Vec<u8>>,
) -> (r: Result<u64, ObjectError>)
    requires
        padded@ == s@.push(SENTINEL),
    ensures
        r matches Ok(j) ==> spec_parse_object(s@, pos as int, kind, limit as int, names(whitelist@))
            == Ok::<int, ObjectError>(j as int),
        r matches Err(e) ==> spec_parse_object(s@, pos as int, kind, limit as int, names(whitelist@))
            == Err::<int, ObjectError>(e),
        r matches Ok(j) ==> j <= s@.len(),
{
    match kind {
        ObjectKind::Node => properties(s, padded, read_until(s, pos, ']' as u8), limit),
        ObjectKind::SubResource => sub_resource(s, padded, pos, limit, whitelist),
    }
}


/// Why a scene was refused.
#[derive(Debug, Clone, Copy, PartialEq, Eq, Structural)]
pub enum SceneError {
    /// the scene's first bytes cannot be reached or read
    Io,
    /// the scene does not start with `[gd_scene format=3]` or `[gd_scene format=4]`
    InvalidHeader,
    /// a byte that neither is whitespace nor starts an object, and the position after it
    UnexpectedByte(u8, u64),
    /// an object header that is refused
    Header(HeaderError),
    /// an object body that is refused
    Object(ObjectError),
    /// the data ended before the scene did
    Truncated,
}

/// The objects of a scene from `pos` until `end`, where the scene ends.
pub open spec fn spec_scene_body(s: Seq<u8>, pos: int, end: int, whitelist: Seq<Seq<u8>>) -> Result<
    (),
    SceneError,
>
    decreases s.len() - pos,
{
    if pos >= end {
        Ok(())
    } else if pos >= s.len() {
        Err(SceneError::Truncated)
    } else if s[pos] <= 32 {
        spec_scene_body(s, pos + 1, end, whitelist)
    } else if s[pos] != '[' as u8 {
        Err(SceneError::UnexpectedByte(s[pos], (pos + 1) as u64))
    } else {
        let (header, h) = spec_parse_header(s, pos + 1);
        match header {
            Ok(kind) => match spec_parse_object(s, h, kind, end, whitelist) {
                Ok(j) => if pos < j <= s.len() {
                    spec_scene_body(s, j, end, whitelist)
                } else {
                    Err(SceneError::Object(ObjectError::GenericError))
                },
                Err(e) => Err(SceneError::Object(e)),
            },
            Err(e) => Err(SceneError::Header(e)),
        }
    }
}

/// A text scene of `size` bytes at `offset`.
pub open spec fn spec_check_tscn(s: Seq<u8>, offset: u64, size: u64, whitelist: Seq<Seq<u8>>) -> Result<
    (),
    SceneError,
> {
    if offset > MAX_SEEK || offset + 19 > s.len() {
        Err(SceneError::Io)
    } else {
        let header = s.subrange(offset as int, offset + 19);
        if header != ascii("[gd_scene format=4]"@) && header != ascii("[gd_scene format=3]"@) {
            Err(SceneError::InvalidHeader)
        } else {
            spec_scene_body(s, offset + 19, offset.wrapping_add(size) as int, whitelist)
        }
    }
}

fn scene_body(s: &[u8], padded: &[u8], pos: u64, end: u64, whitelist: &Vec<Vec<u8>>) -> (r: Result<
    (),
    SceneError,
>)
    requires
        padded@ == s@.push(SENTINEL),
        pos <= s@.len(),
    ensures
        r == spec_scene_body(s@, pos as int, end as int, names(whitelist@)),
{
    let len = s.len() as u64;
    let mut p = pos;
    loop
        invariant
            len == s@.len(),
            p <= len,
            padded@ == s@.push(SENTINEL),
            spec_scene_body(s@, p as int, end as int, names(whitelist@)) == spec_scene_body(
                s@,
                pos as int,
                end as int,
                names(whitelist@),
            ),
        decreases s@.len() - p,
    {
        if p >= end {
            return Ok(());
        }
        if p >= len {
            return Err(SceneError::Truncated);
        }
        let b = s[p as usize];
        if b <= 32 {
            p = p + 1;
        } else if b != '[' as u8 {
            return Err(SceneError::UnexpectedByte(b, p + 1));
        } else {
            let (header, h) = parse_header(s, p + 1);
            match header {
                Ok(kind) => match parse_object(s, padded, h, kind, end, whitelist) {
                    Ok(j) => {
                        if !(p < j && j <= len) {
                            return Err(SceneError::Object(ObjectError::GenericError));
                        }
                        p = j;
                    },
                    Err(e) => {
                        return Err(SceneError::Object(e));
                    },
                },
                Err(e) => {
                    return Err(SceneError::Header(e));
                },
            }
        }
    }
}

/// Checks the text scene of `size` bytes at `offset` in the pack `s`
/// (`padded` is the pack followed by the sentinel byte).
#[verifier::spinoff_prover]
#[verifier::rlimit(60)]
pub fn check_tscn(s: &[u8], padded: &[u8], offset: u64, size: u64, whitelist: &Vec<Vec<u8>>) -> (r:
    Result<(), SceneError>)
    requires
        padded@ == s@.push(SENTINEL),
    ensures
        r == spec_check_tscn(s@, offset, size, names(whitelist@)),
{
    let len = s.len() as u64;
    if offset > MAX_SEEK || offset + 19 > len {
        return Err(SceneError::Io);
    }
    let k4: [u8; 19] = [
        '[' as u8, 'g' as u8, 'd' as u8, '_' as u8, 's' as u8, 'c' as u8, 'e' as u8, 'n' as u8,
        'e' as u8, ' ' as u8, 'f' as u8, 'o' as u8, 'r' as u8, 'm' as u8, 'a' as u8, 't' as u8,
        '=' as u8, '4' as u8, ']' as u8,
    ];
    let k3: [u8; 19] = [
        '[' as u8, 'g' as u8, 'd' as u8, '_' as u8, 's' as u8, 'c' as u8, 'e' as u8, 'n' as u8,
        'e' as u8, ' ' as u8, 'f' as u8, 'o' as u8, 'r' as u8, 'm' as u8, 'a' as u8, 't' as u8,
        '=' as u8, '3' as u8, ']' as u8,
    ];
    proof {
        reveal_strlit("[gd_scene format=4]");
        reveal_strlit("[gd_scene format=3]");
        assert(k4@ =~= ascii("[gd_scene format=4]"@));
        assert(k3@ =~= ascii("[gd_scene format=3]"@));
    }
    if !range_eq(s, offset as usize, &k4) && !range_eq(s, offset as usize, &k3) {
        return Err(SceneError::InvalidHeader);
    }
    scene_body(s, padded, offset + 19, offset.wrapping_add(size), whitelist)
}

/// The first line of a scene in the text format of Godot 4, `[gd_scene
/// format=N]`, for the format digit `d`.
pub open spec fn scene_header_bytes(d: u8) -> Seq<u8> {
    seq![
        '[' as u8, 'g' as u8, 'd' as u8, '_' as u8, 's' as u8, 'c' as u8, 'e' as u8, 'n' as u8,
        'e' as u8, ' ' as u8, 'f' as u8, 'o' as u8, 'r' as u8, 'm' as u8, 'a' as u8, 't' as u8,
        '=' as u8, d, ']' as u8,
    ]
}

/// Law: a scene that can be read is refused for its header exactly when its
/// first 19 bytes are neither `[gd_scene format=3]` nor `[gd_scene format=4]`;
/// with either header, what decides is the scene's body after it.
pub proof fn lemma_scene_header(s: Seq<u8>, offset: u64, size: u64, whitelist: Seq<Seq<u8>>)
    requires
        offset <= MAX_SEEK,
        offset + 19 <= s.len(),
    ensures
        (spec_check_tscn(s, offset, size, whitelist) == Err::<(), SceneError>(SceneError::InvalidHeader)) <==> (
        s.subrange(offset as int, offset + 19) != scene_header_bytes('3' as u8) && s.subrange(
            offset as int,
            offset + 19,
        ) != scene_header_bytes('4' as u8)),
        s.subrange(offset as int, offset + 19) == scene_header_bytes('3' as u8) || s.subrange(
            offset as int,
            offset + 19,
        ) == scene_header_bytes('4' as u8) ==> spec_check_tscn(s, offset, size, whitelist) == spec_scene_body(
            s,
            offset + 19,
            offset.wrapping_add(size) as int,
            whitelist,
        ),
{
    reveal_strlit("[gd_scene format=4]");
    reveal_strlit("[gd_scene format=3]");
    assert(ascii("[gd_scene format=4]"@) =~= scene_header_bytes('4' as u8));
    assert(ascii("[gd_scene format=3]"@) =~= scene_header_bytes('3' as u8));
    lemma_scene_body_not_invalid_header(s, offset + 19, offset.wrapping_add(size) as int, whitelist);
}

/// A scene's body is never refused for its header.
proof fn lemma_scene_body_not_invalid_header(s: Seq<u8>, pos: int, end: int, whitelist: Seq<Seq<u8>>)
    ensures
        spec_scene_body(s, pos, end, whitelist) != Err::<(), SceneError>(SceneError::InvalidHeader),
    decreases s.len() - pos,
{
    if pos < end && pos < s.len() {
        if s[pos] <= 32 {
            lemma_scene_body_not_invalid_header(s, pos + 1, end, whitelist);
        } else if s[pos] == '[' as u8 {
            let (header, h) = spec_parse_header(s, pos + 1);
            match header {
                Ok(kind) => match spec_parse_object(s, h, kind, end, whitelist) {
                    Ok(j) => if pos < j <= s.len() {
                        lemma_scene_body_not_invalid_header(s, j, end, whitelist);
                    },
                    Err(e) => {},
                },
                Err(e) => {},
            }
        }
    }
}

// ---------------------------------------------------------------------------
// The pack
// ---------------------------------------------------------------------------

/// A text scene found in the directory of a pack.
#[derive(Debug)]
pub struct PckEntry {
    pub path: Vec<u8>,
    pub absolute_offset: u64,
    pub size: u64,
}

pub open spec fn entry_view(e: PckEntry) -> (Seq<u8>, u64, u64) {
    (e.path@, e.absolute_offset, e.size)
}

pub open spec fn opt_entry_view(e: Option<PckEntry>) -> Option<(Seq<u8>, u64, u64)> {
    match e {
        Some(x) => Some(entry_view(x)),
        None => None,
    }
}

/// Why a pack was refused.
#[derive(Debug)]
pub enum PckError {
    /// a seek or a read of a fixed number of bytes failed
    Io,
    /// the pack does not start with the magic number; what it starts with
    BadMagic(u32),
    /// a version field that differs: what was found, what was expected
    VersionMismatch(u32, u32),
    /// a path in the directory is not UTF-8
    PathNotUtf8,
    /// a path outside the content's own directory, or one with `..`
    UnwantedPath(Vec<u8>),
    /// a file type that may not be shipped
    BadExtension(Vec<u8>),
    /// a file type that is not supported
    UnsupportedExtension(Vec<u8>),
    /// a text scene that was refused, and why
    Scene(Vec<u8>, SceneError),
}

/// [`PckError`] with its paths as byte sequences.
pub enum SpecPckError {
    Io,
    BadMagic(u32),
    VersionMismatch(u32, u32),
    PathNotUtf8,
    UnwantedPath(Seq<u8>),
    BadExtension(Seq<u8>),
    UnsupportedExtension(Seq<u8>),
    Scene(Seq<u8>, SceneError),
}

impl View for PckError {
    type V = SpecPckError;

    open spec fn view(&self) -> SpecPckError {
        match self {
            PckError::Io => SpecPckError::Io,
            PckError::BadMagic(m) => SpecPckError::BadMagic(*m),
            PckError::VersionMismatch(a, b) => SpecPckError::VersionMismatch(*a, *b),
            PckError::PathNotUtf8 => SpecPckError::PathNotUtf8,
            PckError::UnwantedPath(p) => SpecPckError::UnwantedPath(p@),
            PckError::BadExtension(p) => SpecPckError::BadExtension(p@),
            PckError::UnsupportedExtension(p) => SpecPckError::UnsupportedExtension(p@),
            PckError::Scene(p, e) => SpecPckError::Scene(p@, *e),
        }
    }
}

/// The directory every path of the content must lie in.
pub open spec fn content_prefix(object_type: Seq<u8>, uuid: Seq<u8>) -> Seq<u8> {
    ascii("_loaded_content/"@) + object_type + ascii("/"@) + uuid + ascii("/"@)
}

/// File types that may not be shipped: resources and scripts.
pub open spec fn bad_extension(path: Seq<u8>) -> bool {
    let l = lower(path);
    ends_with(l, ascii(".res"@)) || ends_with(l, ascii(".tres"@)) || ends_with(l, ascii(".gd"@))
        || ends_with(l, ascii(".gdc"@)) || ends_with(l, ascii(".remap"@)) || ends_with(
        l,
        ascii(".import"@),
    )
}

/// File types that are not supported: binary scenes.
pub open spec fn unsupported_extension(path: Seq<u8>) -> bool {
    let l = lower(path);
    ends_with(l, ascii(".scn"@)) || ends_with(l, ascii(".escn"@))
}

/// One entry of the directory at `pos`: the text scene it describes, if it is one,
/// and the position of the next entry. `base` is where the files' data starts.
#[verifier::opaque]
pub open spec fn spec_dir_entry(s: Seq<u8>, pos: int, base: u64, prefix: Seq<u8>) -> Result<
    (Option<(Seq<u8>, u64, u64)>, int),
    SpecPckError,
> {
    let hint = read_value(s, pos, 4);
    let p1 = after_read(s, pos, 4);
    if hint > 0 && p1 + hint > s.len() {
        Err(SpecPckError::Io)
    } else {
        let raw = if hint == 0 {
            Seq::empty()
        } else {
            s.subrange(p1, p1 + hint)
        };
        let p2 = p1 + hint;
        let path = before_nul(raw);
        if !utf8_valid(raw) {
            Err(SpecPckError::PathNotUtf8)
        } else if contains_dotdot(path) || !starts_with(path, prefix) {
            Err(SpecPckError::UnwantedPath(path))
        } else if bad_extension(path) {
            Err(SpecPckError::BadExtension(path))
        } else if unsupported_extension(path) {
            Err(SpecPckError::UnsupportedExtension(path))
        } else {
            let offset = read_value(s, p2, 8) as u64;
            let p3 = after_read(s, p2, 8);
            let size = read_value(s, p3, 8) as u64;
            let p4 = after_read(s, p3, 8);
            if p4 + 20 > MAX_SEEK {
                Err(SpecPckError::Io)
            } else if ends_with(path, ascii(".tscn"@)) {
                Ok((Some((path, base.wrapping_add(offset), size)), p4 + 20))
            } else {
                Ok((None, p4 + 20))
            }
        }
    }
}

pub open spec fn with_entry<T>(e: Option<T>, rest: Seq<T>) -> Seq<T> {
    match e {
        Some(x) => seq![x] + rest,
        None => rest,
    }
}

/// `count` directory entries from `pos`: the text scenes among them, and where they end.
pub open spec fn spec_directory(s: Seq<u8>, pos: int, count: nat, base: u64, prefix: Seq<u8>) -> Result<
    (Seq<(Seq<u8>, u64, u64)>, int),
    SpecPckError,
>
    decreases count,
{
    if count == 0 {
        Ok((Seq::empty(), pos))
    } else {
        match spec_dir_entry(s, pos, base, prefix) {
            Ok((e, p)) => match spec_directory(s, p, (count - 1) as nat, base, prefix) {
                Ok((rest, q)) => Ok((with_entry(e, rest), q)),
                Err(x) => Err(x),
            },
            Err(x) => Err(x),
        }
    }
}

/// The text scenes in order; the first one refused decides.
pub open spec fn spec_check_scenes(
    s: Seq<u8>,
    scenes: Seq<(Seq<u8>, u64, u64)>,
    whitelist: Seq<Seq<u8>>,
) -> Result<(), SpecPckError>
    decreases scenes.len(),
{
    if scenes.len() == 0 {
        Ok(())
    } else {
        match spec_check_tscn(s, scenes[0].1, scenes[0].2, whitelist) {
            Ok(()) => spec_check_scenes(s, scenes.drop_first(), whitelist),
            Err(e) => Err(SpecPckError::Scene(scenes[0].0, e)),
        }
    }
}

/// A pack is good when it has the expected magic number and versions, every path
/// of its directory lies in the content's own directory and has an allowed type,
/// and every text scene in it passes the scene checks.
pub open spec fn spec_is_pck_good(
    s: Seq<u8>,
    object_type: Seq<u8>,
    uuid: Seq<u8>,
    whitelist: Seq<Seq<u8>>,
) -> Result<(), SpecPckError> {
    let magic = read_value(s, 0, 4);
    let p0 = after_read(s, 0, 4);
    let v1 = read_value(s, p0, 4);
    let p1 = after_read(s, p0, 4);
    let v2 = read_value(s, p1, 4);
    let p2 = after_read(s, p1, 4);
    let v3 = read_value(s, p2, 4);
    let p3 = after_read(s, p2, 4);
    let base = read_value(s, p3 + 8, 8);
    let p4 = after_read(s, p3 + 8, 8);
    let dir = read_value(s, p4, 8);
    if magic != PACK_MAGIC {
        Err(SpecPckError::BadMagic(magic as u32))
    } else if v1 != 3 {
        Err(SpecPckError::VersionMismatch(v1 as u32, 3))
    } else if v2 != 4 {
        Err(SpecPckError::VersionMismatch(v2 as u32, 4))
    } else if v3 != 6 {
        Err(SpecPckError::VersionMismatch(v3 as u32, 6))
    } else if dir > MAX_SEEK {
        Err(SpecPckError::Io)
    } else {
        let count = read_value(s, dir as int, 4);
        match spec_directory(
            s,
            after_read(s, dir as int, 4),
            count,
            base as u64,
            content_prefix(object_type, uuid),
        ) {
            Ok((scenes, _)) => spec_check_scenes(s, scenes, whitelist),
            Err(e) => Err(e),
        }
    }
}

fn concat(a: &[u8], b: &[u8]) -> (r: Vec<u8>)
    ensures
        r@ == a@ + b@,
{
    let mut v = vstd::slice::slice_to_vec(a);
    let mut w = vstd::slice::slice_to_vec(b);
    v.append(&mut w);
    v
}

fn dir_entry(s: &[u8], pos: u64, base: u64, prefix: &[u8]) -> (r: Result<
    (Option<PckEntry>, u64),
    PckError,
>)
    requires
        pos <= MAX_SEEK + 4,
    ensures
        match r {
            Ok((e, q)) => {
                &&& spec_dir_entry(s@, pos as int, base, prefix@) == Ok::<_, SpecPckError>(
                    (opt_entry_view(e), q as int),
                )
                &&& q <= MAX_SEEK
            },
            Err(x) => spec_dir_entry(s@, pos as int, base, prefix@) == Err::<
                (Option<(Seq<u8>, u64, u64)>, int),
                SpecPckError,
            >(x@),
        },
{
    reveal(spec_dir_entry);
    let len = s.len() as u64;
    let (hint, p1) = read_le(s, pos, 4);
    proof {
        lemma_pow256_mono(read_span(s@, pos as int, 4).len(), 4);
        reveal_with_fuel(pow256, 5);
    }
    if hint > 0 && p1 + hint > len {
        return Err(PckError::Io);
    }
    let raw: &[u8] = if hint == 0 {
        vstd::slice::slice_subrange(s, 0, 0)
    } else {
        vstd::slice::slice_subrange(s, p1 as usize, (p1 + hint) as usize)
    };
    assert(raw@ =~= (if hint == 0 {
        Seq::empty()
    } else {
        s@.subrange(p1 as int, p1 + hint)
    }));
    let p2 = p1 + hint;
    let path = copy_before_nul(raw);
    if !is_utf8(raw) {
        return Err(PckError::PathNotUtf8);
    }
    if has_dotdot(path.as_slice()) || !bytes_starts_with(path.as_slice(), prefix) {
        return Err(PckError::UnwantedPath(path));
    }
    let e_res: [u8; 4] = ['.' as u8, 'r' as u8, 'e' as u8, 's' as u8];
    let e_tres: [u8; 5] = ['.' as u8, 't' as u8, 'r' as u8, 'e' as u8, 's' as u8];
    let e_gd: [u8; 3] = ['.' as u8, 'g' as u8, 'd' as u8];
    let e_gdc: [u8; 4] = ['.' as u8, 'g' as u8, 'd' as u8, 'c' as u8];
    let e_remap: [u8; 6] = ['.' as u8, 'r' as u8, 'e' as u8, 'm' as u8, 'a' as u8, 'p' as u8];
    let e_import: [u8; 7] = [
        '.' as u8, 'i' as u8, 'm' as u8, 'p' as u8, 'o' as u8, 'r' as u8, 't' as u8,
    ];
    let e_scn: [u8; 4] = ['.' as u8, 's' as u8, 'c' as u8, 'n' as u8];
    let e_escn: [u8; 5] = ['.' as u8, 'e' as u8, 's' as u8, 'c' as u8, 'n' as u8];
    let e_tscn: [u8; 5] = ['.' as u8, 't' as u8, 's' as u8, 'c' as u8, 'n' as u8];
    proof {
        reveal_strlit(".res");
        reveal_strlit(".tres");
        reveal_strlit(".gd");
        reveal_strlit(".gdc");
        reveal_strlit(".remap");
        reveal_strlit(".import");
        reveal_strlit(".scn");
        reveal_strlit(".escn");
        reveal_strlit(".tscn");
        assert(e_res@ =~= ascii(".res"@));
        assert(e_tres@ =~= ascii(".tres"@));
        assert(e_gd@ =~= ascii(".gd"@));
        assert(e_gdc@ =~= ascii(".gdc"@));
        assert(e_remap@ =~= ascii(".remap"@));
        assert(e_import@ =~= ascii(".import"@));
        assert(e_scn@ =~= ascii(".scn"@));
        assert(e_escn@ =~= ascii(".escn"@));
        assert(e_tscn@ =~= ascii(".tscn"@));
    }
    let p = path.as_slice();
    if lower_ends_with(p, &e_res) || lower_ends_with(p, &e_tres) || lower_ends_with(p, &e_gd)
        || lower_ends_with(p, &e_gdc) || lower_ends_with(p, &e_remap) || lower_ends_with(
        p,
        &e_import,
    ) {
        return Err(PckError::BadExtension(path));
    }
    if lower_ends_with(p, &e_scn) || lower_ends_with(p, &e_escn) {
        return Err(PckError::UnsupportedExtension(path));
    }
    let (offset, p3) = read_le(s, p2, 8);
    let (size, p4) = read_le(s, p3, 8);
    if p4 > MAX_SEEK - 20 {
        return Err(PckError::Io);
    }
    if bytes_ends_with(p, &e_tscn) {
        Ok((Some(PckEntry { path, absolute_offset: base.wrapping_add(offset), size }), p4 + 20))
    } else {
        Ok((None, p4 + 20))
    }
}

pub open spec fn scene_entries_view(v: Seq<PckEntry>) -> Seq<(Seq<u8>, u64, u64)> {
    v.map_values(|e: PckEntry| entry_view(e))
}


/// The entries `acc` found so far in front of what the rest of the directory gives.
pub open spec fn after_entries(
    acc: Seq<(Seq<u8>, u64, u64)>,
    r: Result<(Seq<(Seq<u8>, u64, u64)>, int), SpecPckError>,
) -> Result<(Seq<(Seq<u8>, u64, u64)>, int), SpecPckError> {
    match r {
        Ok((rest, q)) => Ok((acc + rest, q)),
        Err(e) => Err(e),
    }
}

fn check_scenes(s: &[u8], padded: &[u8], scenes: &Vec<PckEntry>, whitelist: &Vec<Vec<u8>>) -> (r:
    Result<(), PckError>)
    requires
        padded@ == s@.push(SENTINEL),
    ensures
        match r {
            Ok(()) => spec_check_scenes(s@, scene_entries_view(scenes@), names(whitelist@)) is Ok,
            Err(x) => spec_check_scenes(s@, scene_entries_view(scenes@), names(whitelist@)) == Err::<
                (),
                SpecPckError,
            >(x@),
        },
{
    let ghost all = scene_entries_view(scenes@);
    let mut i: usize = 0;
    assert(all.subrange(0, all.len() as int) =~= all);
    while i < scenes.len()
        invariant
            i <= scenes@.len(),
            all == scene_entries_view(scenes@),
            padded@ == s@.push(SENTINEL),
            spec_check_scenes(s@, all.subrange(i as int, all.len() as int), names(whitelist@))
                == spec_check_scenes(s@, all, names(whitelist@)),
        decreases scenes@.len() - i,
    {
        let e = &scenes[i];
        let ghost rest = all.subrange(i as int, all.len() as int);
        assert(rest[0] == entry_view(scenes@[i as int]));
        assert(rest.drop_first() =~= all.subrange(i + 1, all.len() as int));
        match check_tscn(s, padded, e.absolute_offset, e.size, whitelist) {
            Ok(()) => {},
            Err(x) => {
                let path = vstd::slice::slice_to_vec(e.path.as_slice());
                return Err(PckError::Scene(path, x));
            },
        }
        i = i + 1;
    }
    assert(all.subrange(i as int, all.len() as int) =~= Seq::<(Seq<u8>, u64, u64)>::empty());
    Ok(())
}

fn directory(s: &[u8], start: u64, count: u64, base: u64, prefix: &[u8]) -> (r: Result<
    Vec<PckEntry>,
    PckError,
>)
    requires
        start <= MAX_SEEK + 4,
    ensures
        match r {
            Ok(v) => spec_directory(s@, start as int, count as nat, base, prefix@) matches Ok(
                (sc, _),
            ) && sc == scene_entries_view(v@),
            Err(x) => spec_directory(s@, start as int, count as nat, base, prefix@) == Err::<
                (Seq<(Seq<u8>, u64, u64)>, int),
                SpecPckError,
            >(x@),
        },
{
    let ghost total = spec_directory(s@, start as int, count as nat, base, prefix@);
    let mut scenes: Vec<PckEntry> = Vec::new();
    let mut p = start;
    let mut k: u64 = 0;
    assert(scene_entries_view(scenes@) =~= Seq::<(Seq<u8>, u64, u64)>::empty());
    assert(after_entries(Seq::empty(), total) == total);
    while k < count
        invariant
            k <= count,
            p <= MAX_SEEK + 4,
            total == spec_directory(s@, start as int, count as nat, base, prefix@),
            total == after_entries(
                scene_entries_view(scenes@),
                spec_directory(s@, p as int, (count - k) as nat, base, prefix@),
            ),
        decreases count - k,
    {
        match dir_entry(s, p, base, prefix) {
            Ok((e, q)) => {
                let ghost old_view = scene_entries_view(scenes@);
                let ghost ev = opt_entry_view(e);
                match e {
                    Some(x) => {
                        scenes.push(x);
                    },
                    None => {},
                }
                proof {
                    assert(scene_entries_view(scenes@) =~= old_view + with_entry(ev, Seq::empty()));
                    match spec_directory(s@, q as int, (count - k - 1) as nat, base, prefix@) {
                        Ok((rest, _)) => {
                            assert(old_view + with_entry(ev, rest) =~= scene_entries_view(scenes@)
                                + rest);
                        },
                        Err(_) => {},
                    }
                }
                p = q;
            },
            Err(x) => {
                return Err(x);
            },
        }
        k = k + 1;
    }
    proof {
        assert(scene_entries_view(scenes@) + Seq::<(Seq<u8>, u64, u64)>::empty() =~= scene_entries_view(scenes@));
    }
    Ok(scenes)
}

/// Checks a pack given as its bytes. `object_type` and `uuid` name the directory
/// `_loaded_content/<object_type>/<uuid>/` that every file of the pack must lie in;
/// `whitelist` holds the resource types that a scene may hold as sub resources.
#[verifier::spinoff_prover]
#[verifier::rlimit(60)]
pub fn is_pck_good(pck: &[u8], object_type: &[u8], uuid: &[u8], whitelist: &Vec<Vec<u8>>) -> (r:
    Result<(), PckError>)
    ensures
        r is Ok <==> spec_is_pck_good(pck@, object_type@, uuid@, names(whitelist@)) is Ok,
        r matches Err(e) ==> spec_is_pck_good(pck@, object_type@, uuid@, names(whitelist@))
            == Err::<(), SpecPckError>(e@),
{
    let s = pck;
    let mut padded = vstd::slice::slice_to_vec(s);
    padded.push(SENTINEL);
    let (magic, p0) = read_le(s, 0, 4);
    let (v1, p1) = read_le(s, p0, 4);
    let (v2, p2) = read_le(s, p1, 4);
    let (v3, p3) = read_le(s, p2, 4);
    let (base, p4) = read_le(s, p3 + 8, 8);
    let (dir, _p5) = read_le(s, p4, 8);
    proof {
        lemma_pow256_mono(read_span(s@, 0, 4).len(), 4);
        lemma_pow256_mono(read_span(s@, p0 as int, 4).len(), 4);
        lemma_pow256_mono(read_span(s@, p1 as int, 4).len(), 4);
        lemma_pow256_mono(read_span(s@, p2 as int, 4).len(), 4);
        reveal_with_fuel(pow256, 5);
    }
    if magic != PACK_MAGIC as u64 {
        return Err(PckError::BadMagic(magic as u32));
    }
    if v1 != 3 {
        return Err(PckError::VersionMismatch(v1 as u32, 3));
    }
    if v2 != 4 {
        return Err(PckError::VersionMismatch(v2 as u32, 4));
    }
    if v3 != 6 {
        return Err(PckError::VersionMismatch(v3 as u32, 6));
    }
    if dir > MAX_SEEK {
        return Err(PckError::Io);
    }
    let (count, start) = read_le(s, dir, 4);
    proof {
        lemma_pow256_mono(read_span(s@, dir as int, 4).len(), 4);
    }
    let lit_dir: [u8; 16] = [
        '_' as u8, 'l' as u8, 'o' as u8, 'a' as u8, 'd' as u8, 'e' as u8, 'd' as u8, '_' as u8,
        'c' as u8, 'o' as u8, 'n' as u8, 't' as u8, 'e' as u8, 'n' as u8, 't' as u8, '/' as u8,
    ];
    let slash: [u8; 1] = ['/' as u8];
    proof {
        reveal_strlit("_loaded_content/");
        reveal_strlit("/");
        assert(lit_dir@ =~= ascii("_loaded_content/"@));
        assert(slash@ =~= ascii("/"@));
    }
    let a = concat(&lit_dir, object_type);
    let b = concat(a.as_slice(), &slash);
    let c = concat(b.as_slice(), uuid);
    let prefix = concat(c.as_slice(), &slash);
    assert(prefix@ =~= content_prefix(object_type@, uuid@));
    let scenes = match directory(s, start, count, base, prefix.as_slice()) {
        Ok(v) => v,
        Err(x) => {
            return Err(x);
        },
    };
    check_scenes(s, padded.as_slice(), &scenes, whitelist)
}

} // verus!
