//! The client's cache of processed videos, addressed by a short hash of
//! their source.

use vstd::prelude::*;
use sha2::Digest;
use crate::checkpoint::{ends_with, ends_with_str};
use crate::config::{home_dir, path_exists};
use crate::paths::{join_path, path_join};
use crate::text::{push_str_chars, str_chars, string_from_chars};
use crate::paths::sub_chars;

verus! {

/// The SHA-256 digest of `bytes`.
pub uninterp spec fn sha256(bytes: Seq<u8>) -> Seq<u8>;

/// Calls `sha2::Sha256::digest`. Trusted: the digest is `sha256` of the
/// bytes and has 32 bytes, as the algorithm's output size fixes.
#[verifier::external_body]
fn sha256_digest(bytes: &[u8]) -> (d: Vec<u8>)
    ensures
        d@ == sha256(bytes@),
        d@.len() == 32,
{
    sha2::Sha256::digest(bytes).to_vec()
}

/// A lowercase hexadecimal digit.
pub open spec fn hex_char(n: nat) -> char {
    if n < 10 {
        ((n + 48) as u32) as char
    } else {
        ((n + 87) as u32) as char
    }
}

/// The two hexadecimal digits of a byte.
pub open spec fn hex_byte(b: u8) -> Seq<char> {
    seq![hex_char((b / 16) as nat), hex_char((b % 16) as nat)]
}

/// The first four bytes of a digest in hexadecimal: eight characters.
pub open spec fn short_hex(d: Seq<u8>) -> Seq<char> {
    hex_byte(d[0]) + hex_byte(d[1]) + hex_byte(d[2]) + hex_byte(d[3])
}

/// The cache key of a source: the first eight hexadecimal digits of the
/// SHA-256 of its UTF-8 bytes.
pub open spec fn source_hash(source: Seq<char>) -> Seq<char> {
    short_hex(sha256(vstd::utf8::encode_utf8(source)))
}

pub(crate) fn hex_digit(n: u8) -> (c: char)
    requires
        n < 16,
    ensures
        c == hex_char(n as nat),
{
    if n < 10 {
        (n + 48) as char
    } else {
        (n + 87) as char
    }
}

fn push_hex_byte(s: &mut String, b: u8)
    ensures
        final(s)@ == old(s)@ + hex_byte(b),
{
    s.push(hex_digit(b / 16));
    s.push(hex_digit(b % 16));
    assert(final(s)@ =~= old(s)@ + hex_byte(b));
}

/// The cache key of a source.
pub fn hash_source(source: &str) -> (h: String)
    ensures
        h@ == source_hash(source@),
{
    let bytes = source.as_bytes();
    let d = sha256_digest(bytes);
    let mut h = String::new();
    push_hex_byte(&mut h, d[0]);
    push_hex_byte(&mut h, d[1]);
    push_hex_byte(&mut h, d[2]);
    push_hex_byte(&mut h, d[3]);
    assert(h@ =~= short_hex(d@));
    h
}

/// An ASCII hexadecimal digit, either case.
pub open spec fn is_hex(c: char) -> bool {
    ('0' <= c <= '9') || ('a' <= c <= 'f') || ('A' <= c <= 'F')
}

/// Text that names a cache entry: eight hexadecimal digits.
pub open spec fn is_cache_hash(s: Seq<char>) -> bool {
    s.len() == 8 && forall|i: int| 0 <= i < 8 ==> is_hex(#[trigger] s[i])
}

/// Whether `input` names a cache entry.
pub fn looks_like_hash(input: &str) -> (b: bool)
    ensures
        b == is_cache_hash(input@),
{
    let cs = str_chars(input);
    if cs.len() != 8 {
        return false;
    }
    let mut i: usize = 0;
    while i < 8
        invariant
            i <= 8,
            cs@ == input@,
            cs@.len() == 8,
            forall|j: int| 0 <= j < i ==> is_hex(#[trigger] cs@[j]),
        decreases 8 - i,
    {
        let c = cs[i];
        if !(('0' <= c && c <= '9') || ('a' <= c && c <= 'f') || ('A' <= c && c <= 'F')) {
            return false;
        }
        i = i + 1;
    }
    true
}

/// Every cache key names a cache entry, so a key handed out can be used to
/// find the entry again.
pub proof fn lemma_hash_names_entry(source: Seq<char>)
    ensures
        is_cache_hash(source_hash(source)),
{
    let h = source_hash(source);
    assert forall|i: int| 0 <= i < 8 implies is_hex(#[trigger] h[i]) by {
        let d = sha256(vstd::utf8::encode_utf8(source));
        let b = d[i / 2];
        let n: nat = if i % 2 == 0 {
            (b / 16) as nat
        } else {
            (b % 16) as nat
        };
        assert(h[i] == hex_char(n));
        assert(n < 16);
    }
}

/// `<home>/.vid-to-text/cache`.
pub open spec fn cache_dir_in(home: Seq<char>) -> Seq<char> {
    path_join(path_join(home, ".vid-to-text"@), "cache"@)
}

/// The timeline file of the cache entry `hash` under `home`.
pub open spec fn cache_entry_in(home: Seq<char>, hash: Seq<char>) -> Seq<char> {
    path_join(path_join(cache_dir_in(home), hash), "timeline.json"@)
}

fn cache_entry_path(home: &str, hash: &str) -> (p: String)
    ensures
        p@ == cache_entry_in(home@, hash@),
{
    let a = join_path(home, ".vid-to-text");
    let b = join_path(a.as_str(), "cache");
    let c = join_path(b.as_str(), hash);
    join_path(c.as_str(), "timeline.json")
}

pub open spec fn opt_text(o: Option<String>) -> Option<Seq<char>> {
    match o {
        Some(s) => Some(s@),
        None => None,
    }
}

/// The cache hit of a source, given the home directory and whether the
/// entry's timeline exists there.
pub open spec fn cache_hit_of(source: Seq<char>, home: Option<Seq<char>>, exists: bool) -> Option<
    Seq<char>,
> {
    match home {
        Some(h) => if exists {
            Some(cache_entry_in(h, source_hash(source)))
        } else {
            None
        },
        None => None,
    }
}

/// Decides a cache lookup from what the disk answered: the entry of the
/// source's key under `home` when its timeline `exists`, else nothing.
pub fn cache_hit(source: &str, home: Option<String>, exists: bool) -> (r: Option<String>)
    ensures
        opt_text(r) == cache_hit_of(source@, opt_text(home), exists),
{
    match home {
        Some(h) => {
            if exists {
                let hash = hash_source(source);
                Some(cache_entry_path(h.as_str(), hash.as_str()))
            } else {
                None
            }
        },
        None => None,
    }
}

/// The cached timeline of a source, when there is one; only an entry under
/// the home directory for the source's key is ever returned. Whether the
/// home directory is known and the entry exists is read from the
/// environment and the disk; [`cache_hit`] decides from those answers.
pub fn cache_lookup(source: &str) -> (r: Option<String>)
    ensures
        r matches Some(p) ==> exists|h: Seq<char>| p@ == cache_entry_in(h, source_hash(source@)),
{
    let home = home_dir();
    let exists = match &home {
        Some(h) => {
            let hash = hash_source(source);
            let p = cache_entry_path(h.as_str(), hash.as_str());
            path_exists(p.as_str())
        },
        None => false,
    };
    cache_hit(source, home, exists)
}

/// What an input given on the command line may resolve to: a cache entry
/// when it reads as a hash, else the file it names.
pub open spec fn resolution_allowed(input: Seq<char>, r: Result<Seq<char>, Seq<char>>) -> bool {
    if is_cache_hash(input) {
        match r {
            Ok(p) => exists|h: Seq<char>| p == cache_entry_in(h, input),
            Err(m) => m == "could not determine home directory"@ || m
                == "no cached video found with hash: "@ + input,
        }
    } else {
        match r {
            Ok(p) => p == input,
            Err(m) => m == "file not found: "@ + input,
        }
    }
}

pub open spec fn result_views(r: Result<String, String>) -> Result<Seq<char>, Seq<char>> {
    match r {
        Ok(p) => Ok(p@),
        Err(m) => Err(m@),
    }
}

/// How an input resolves once the home directory is known (for a hash) and
/// whether the file it points at exists: a hash resolves to its cache entry
/// under `home`, any other input to itself.
pub open spec fn resolution_of(input: Seq<char>, home: Option<Seq<char>>, exists: bool) -> Result<
    Seq<char>,
    Seq<char>,
> {
    if is_cache_hash(input) {
        match home {
            None => Err("could not determine home directory"@),
            Some(h) => if exists {
                Ok(cache_entry_in(h, input))
            } else {
                Err("no cached video found with hash: "@ + input)
            },
        }
    } else if exists {
        Ok(input)
    } else {
        Err("file not found: "@ + input)
    }
}

/// Decides what an input resolves to from what the environment and the disk
/// answered (see [`resolution_of`]).
pub fn resolution(input: &str, home: Option<String>, exists: bool) -> (r: Result<String, String>)
    ensures
        result_views(r) == resolution_of(input@, opt_text(home), exists),
{
    if looks_like_hash(input) {
        match home {
            None => Err("could not determine home directory".to_owned()),
            Some(h) => {
                if exists {
                    Ok(cache_entry_path(h.as_str(), input))
                } else {
                    let mut m = String::new();
                    push_str_chars(&mut m, "no cached video found with hash: ");
                    push_str_chars(&mut m, input);
                    Err(m)
                }
            },
        }
    } else if exists {
        Ok(input.to_owned())
    } else {
        let mut m = String::new();
        push_str_chars(&mut m, "file not found: ");
        push_str_chars(&mut m, input);
        Err(m)
    }
}

/// Resolves a cache hash or a file path to a timeline file. Which one exists
/// is read from disk, so the outcome is stated for whichever way that went;
/// [`resolution`] decides from the answers.
pub fn resolve_input(input: &str) -> (r: Result<String, String>)
    ensures
        resolution_allowed(input@, result_views(r)),
{
    if looks_like_hash(input) {
        let home = home_dir();
        let exists = match &home {
            Some(h) => {
                let p = cache_entry_path(h.as_str(), input);
                path_exists(p.as_str())
            },
            None => false,
        };
        resolution(input, home, exists)
    } else {
        let exists = path_exists(input);
        resolution(input, None, exists)
    }
}

/// `s` with every trailing repetition of `suffix` removed, as
/// `trim_end_matches` does.
pub open spec fn strip_suffixes(s: Seq<char>, suffix: Seq<char>) -> Seq<char>
    decreases s.len(),
{
    if suffix.len() > 0 && ends_with(s, suffix) {
        strip_suffixes(s.subrange(0, s.len() - suffix.len()), suffix)
    } else {
        s
    }
}

/// `s` with every trailing repetition of `suffix` removed.
pub fn strip_suffixes_of(s: &str, suffix: &str) -> (r: String)
    ensures
        r@ == strip_suffixes(s@, suffix@),
{
    let mut cur = s.to_owned();
    let k = str_chars(suffix).len();
    if k == 0 {
        return cur;
    }
    loop
        invariant
            k == suffix@.len(),
            k > 0,
            strip_suffixes(cur@, suffix@) == strip_suffixes(s@, suffix@),
        decreases cur@.len(),
    {
        if !ends_with_str(cur.as_str(), suffix) {
            return cur;
        }
        let cs = str_chars(cur.as_str());
        let t = sub_chars(cs.as_slice(), 0, cs.len() - k);
        cur = string_from_chars(t.as_slice());
    }
}

/// The title a cache entry records for a timeline's source.
pub fn cache_title(source: &str) -> (t: String)
    ensures
        t@ == strip_suffixes(source@, ".mp4"@),
{
    strip_suffixes_of(source, ".mp4")
}

} // verus!
