//! The keys and records of a size-weighted LRU cache of downloaded packs:
//! packs are keyed by UUIDs that scripts pass as strings, and a saved cache
//! is loaded back from a dictionary, entry by entry, until the first entry
//! that is not well-formed.
use vstd::prelude::*;

verus! {

/// A cached pack: when it was cached (UTC seconds) and its size in KiB.
#[derive(Clone, Copy, Debug)]
pub struct Pack {
    pub cache_time_utc: i32,
    pub size_kb: i32,
}

/// The 16 bytes of the UUID that `uuid::Uuid::try_parse` reads from a
/// string, or nothing when it refuses the string.
pub uninterp spec fn uuid_try_parse(s: Seq<char>) -> Option<Seq<u8>>;

pub open spec fn opt_bytes(r: Option<[u8; 16]>) -> Option<Seq<u8>> {
    match r {
        Some(b) => Some(b@),
        None => None,
    }
}

/// Calls `uuid::Uuid::try_parse` and gives the UUID's bytes (`as_bytes`);
/// trusted to give what `uuid_try_parse` names.
#[verifier::external_body]
fn try_parse_uuid(s: &str) -> (r: Option<[u8; 16]>)
    ensures
        opt_bytes(r) == uuid_try_parse(s@),
{
    match uuid::Uuid::try_parse(s) {
        Ok(u) => Some(*u.as_bytes()),
        Err(_) => None,
    }
}

/// The key a script's UUID string names; none when it is not a UUID (the
/// script's call then only reports an error).
pub fn cache_key(uuid: &str) -> (r: Option<[u8; 16]>)
    ensures
        opt_bytes(r) == uuid_try_parse(uuid@),
{
    try_parse_uuid(uuid)
}

/// The entry `push_front` inserts: the key and the pack; none when the
/// string is not a UUID.
pub fn push_front_entry(uuid: &str, cache_time_utc: i32, size_kb: i32) -> (r: Option<([u8; 16], Pack)>)
    ensures
        match uuid_try_parse(uuid@) {
            Some(k) => r matches Some((key, pack)) && key@ == k && pack.cache_time_utc == cache_time_utc
                && pack.size_kb == size_kb,
            None => r is None,
        },
{
    match try_parse_uuid(uuid) {
        Some(key) => Some((key, Pack { cache_time_utc, size_kb })),
        None => None,
    }
}

/// The weight of a pack in the cache: its size as a `u32` (a negative size
/// wraps around).
pub fn pack_weight(pack: &Pack) -> (r: u32)
    ensures
        r == pack.size_kb as u32,
{
    pack.size_kb as u32
}

/// A field of a saved pack as the script's dictionary holds it.
#[derive(Clone, Copy, Debug)]
pub enum FieldValue {
    Missing,
    NotInt,
    Int(i64),
}

/// A saved entry: its key if it is a string, and its value's two fields if
/// the value is a dictionary.
pub struct LoadEntry {
    pub key: Option<String>,
    pub value: Option<(FieldValue, FieldValue)>,
}

/// Why loading stopped at an entry.
#[derive(PartialEq, Eq, Structural, Debug, Clone, Copy)]
pub enum LoadError {
    KeyNotString,
    InvalidUuid,
    ValueNotDictionary,
    MissingCacheTime,
    MissingSize,
    CacheTimeNotInt,
    SizeNotInt,
}

pub open spec fn as_i32(f: FieldValue) -> Option<i32> {
    match f {
        FieldValue::Int(x) => if i32::MIN <= x <= i32::MAX {
            Some(x as i32)
        } else {
            None
        },
        _ => None,
    }
}

/// What one entry gives: the key and pack to insert, or why it is refused.
/// The checks come in this order: the key is a string, the string is a
/// UUID, the value is a dictionary, it has both fields, and each is an
/// integer that fits an `i32`.
pub open spec fn spec_load_entry(key: Option<Seq<char>>, value: Option<(FieldValue, FieldValue)>) -> Result<(Seq<u8>, Pack), LoadError> {
    match key {
        None => Err(LoadError::KeyNotString),
        Some(k) => match uuid_try_parse(k) {
            None => Err(LoadError::InvalidUuid),
            Some(bytes) => match value {
                None => Err(LoadError::ValueNotDictionary),
                Some((time, size)) => if time is Missing {
                    Err(LoadError::MissingCacheTime)
                } else if size is Missing {
                    Err(LoadError::MissingSize)
                } else {
                    match (as_i32(time), as_i32(size)) {
                        (None, _) => Err(LoadError::CacheTimeNotInt),
                        (Some(_), None) => Err(LoadError::SizeNotInt),
                        (Some(t), Some(s)) => Ok((bytes, Pack { cache_time_utc: t, size_kb: s })),
                    }
                },
            },
        },
    }
}

pub open spec fn entry_key(e: LoadEntry) -> Option<Seq<char>> {
    match e.key {
        Some(s) => Some(s@),
        None => None,
    }
}

/// The entries loaded, in order, up to the first refused one, and why it was refused.
pub open spec fn spec_load(entries: Seq<LoadEntry>) -> (Seq<(Seq<u8>, Pack)>, Option<LoadError>)
    decreases entries.len(),
{
    if entries.len() == 0 {
        (Seq::empty(), None)
    } else {
        let (done, err) = spec_load(entries.drop_last());
        if err is Some {
            (done, err)
        } else {
            match spec_load_entry(entry_key(entries.last()), entries.last().value) {
                Ok(x) => (done.push(x), None),
                Err(e) => (done, Some(e)),
            }
        }
    }
}

pub open spec fn loaded_view(v: Seq<([u8; 16], Pack)>) -> Seq<(Seq<u8>, Pack)> {
    v.map_values(|x: ([u8; 16], Pack)| (x.0@, x.1))
}

fn field_i32(f: FieldValue) -> (r: Option<i32>)
    ensures
        r == as_i32(f),
{
    match f {
        FieldValue::Int(x) => if i32::MIN as i64 <= x && x <= i32::MAX as i64 {
            Some(x as i32)
        } else {
            None
        },
        _ => None,
    }
}

fn load_entry(e: &LoadEntry) -> (r: Result<([u8; 16], Pack), LoadError>)
    ensures
        match spec_load_entry(entry_key(*e), e.value) {
            Ok((k, p)) => r matches Ok((key, pack)) && key@ == k && pack == p,
            Err(err) => r == Err::<([u8; 16], Pack), LoadError>(err),
        },
{
    let key = match &e.key {
        Some(k) => k,
        None => {
            return Err(LoadError::KeyNotString);
        },
    };
    let bytes = match try_parse_uuid(key.as_str()) {
        Some(b) => b,
        None => {
            return Err(LoadError::InvalidUuid);
        },
    };
    let (time, size) = match e.value {
        Some(v) => v,
        None => {
            return Err(LoadError::ValueNotDictionary);
        },
    };
    if let FieldValue::Missing = time {
        return Err(LoadError::MissingCacheTime);
    }
    if let FieldValue::Missing = size {
        return Err(LoadError::MissingSize);
    }
    let t = match field_i32(time) {
        Some(t) => t,
        None => {
            return Err(LoadError::CacheTimeNotInt);
        },
    };
    let s = match field_i32(size) {
        Some(s) => s,
        None => {
            return Err(LoadError::SizeNotInt);
        },
    };
    Ok((bytes, Pack { cache_time_utc: t, size_kb: s }))
}

/// Reads a saved cache's entries in order: gives the entries to insert, up
/// to the first that is refused, and why that one was refused.
pub fn load(entries: &Vec<LoadEntry>) -> (r: (Vec<([u8; 16], Pack)>, Option<LoadError>))
    ensures
        spec_load(entries@) == (loaded_view(r.0@), r.1),
{
    let mut done: Vec<([u8; 16], Pack)> = Vec::new();
    let mut i: usize = 0;
    while i < entries.len()
        invariant
            i <= entries.len(),
            spec_load(entries@.take(i as int)) == (loaded_view(done@), None::<LoadError>),
        decreases entries.len() - i,
    {
        assert(entries@.take(i + 1).drop_last() =~= entries@.take(i as int));
        assert(entries@.take(i + 1).last() == entries@[i as int]);
        match load_entry(&entries[i]) {
            Ok(x) => {
                let ghost before = loaded_view(done@);
                done.push(x);
                assert(loaded_view(done@) =~= before.push((x.0@, x.1)));
            },
            Err(e) => {
                proof {
                    lemma_load_stops(entries@, i as int + 1);
                }
                return (done, Some(e));
            },
        }
        i = i + 1;
    }
    assert(entries@.take(entries.len() as int) =~= entries@);
    (done, None)
}

/// The lowercase hex digit of a number below 16.
pub open spec fn hex_digit(n: int) -> char {
    if n < 10 {
        (48 + n) as char
    } else {
        (87 + n) as char
    }
}

/// Bytes as lowercase hex, two digits each, the high half first.
pub open spec fn hex_bytes(bs: Seq<u8>) -> Seq<char>
    decreases bs.len(),
{
    if bs.len() == 0 {
        Seq::empty()
    } else {
        seq![hex_digit(bs[0] as int / 16), hex_digit(bs[0] as int % 16)] + hex_bytes(bs.drop_first())
    }
}

/// The hyphenated lowercase text of the UUID of these 16 bytes: 32 hex
/// digits in groups of 8, 4, 4, 4 and 12, joined by hyphens.
pub open spec fn uuid_text(b: Seq<u8>) -> Seq<char> {
    hex_bytes(b.subrange(0, 4)) + seq!['-'] + hex_bytes(b.subrange(4, 6)) + seq!['-'] + hex_bytes(
        b.subrange(6, 8),
    ) + seq!['-'] + hex_bytes(b.subrange(8, 10)) + seq!['-'] + hex_bytes(b.subrange(10, 16))
}

/// Calls `uuid::Uuid::from_bytes` and `to_string`; trusted to give
/// `uuid_text` of the bytes (`Display` writes the lowercase hyphenated form),
/// which `Uuid::try_parse` reads back (it takes the hyphenated form).
#[verifier::external_body]
fn uuid_to_string(key: &[u8; 16]) -> (r: String)
    ensures
        r@ == uuid_text(key@),
        uuid_try_parse(r@) == Some(key@),
{
    uuid::Uuid::from_bytes(*key).to_string()
}

/// The saved form of the cache's entries, in order: each key as its UUID's
/// text, each pack as its two fields. Loading them gives every entry back.
pub fn save_entries(entries: &Vec<([u8; 16], Pack)>) -> (r: Vec<LoadEntry>)
    ensures
        r@.len() == entries@.len(),
        forall|i: int|
            0 <= i < entries@.len() ==> entry_key(#[trigger] r@[i]) == Some(uuid_text(entries@[i].0@))
                && r@[i].value == Some(
                (FieldValue::Int(entries@[i].1.cache_time_utc as i64), FieldValue::Int(entries@[i].1.size_kb as i64)),
            ),
        spec_load(r@) == (loaded_view(entries@), None::<LoadError>),
{
    let mut out: Vec<LoadEntry> = Vec::new();
    let mut i: usize = 0;
    while i < entries.len()
        invariant
            i <= entries.len(),
            out@.len() == i,
            forall|j: int|
                0 <= j < i ==> entry_key(#[trigger] out@[j]) == Some(uuid_text(entries@[j].0@))
                    && uuid_try_parse(uuid_text(entries@[j].0@)) == Some(entries@[j].0@)
                    && out@[j].value == Some(
                    (FieldValue::Int(entries@[j].1.cache_time_utc as i64), FieldValue::Int(entries@[j].1.size_kb as i64)),
                ),
            spec_load(out@) == (loaded_view(entries@.take(i as int)), None::<LoadError>),
        decreases entries.len() - i,
    {
        let (key, pack) = entries[i];
        let text = uuid_to_string(&key);
        let entry = LoadEntry {
            key: Some(text),
            value: Some((FieldValue::Int(pack.cache_time_utc as i64), FieldValue::Int(pack.size_kb as i64))),
        };
        let ghost before = out@;
        out.push(entry);
        proof {
            assert(out@.drop_last() =~= before);
            assert(entries@.take(i + 1).drop_last() =~= entries@.take(i as int));
            assert(loaded_view(entries@.take(i + 1)) =~= loaded_view(entries@.take(i as int)).push((key@, pack)));
        }
        i = i + 1;
    }
    assert(entries@.take(entries.len() as int) =~= entries@);
    out
}

/// Once an entry is refused, the later entries change nothing.
proof fn lemma_load_stops(entries: Seq<LoadEntry>, n: int)
    requires
        0 <= n <= entries.len(),
        spec_load(entries.take(n)).1 is Some,
    ensures
        spec_load(entries) == spec_load(entries.take(n)),
    decreases entries.len() - n,
{
    if n < entries.len() {
        assert(entries.take(n + 1).drop_last() =~= entries.take(n));
        lemma_load_stops(entries, n + 1);
    } else {
        assert(entries.take(n) =~= entries);
    }
}

} // verus!
