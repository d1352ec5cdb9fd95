//! What the user configures.

use crate::pack::Key;
use vstd::prelude::*;

verus! {

/// The byte `/`, which separates the parts of a path.
pub const SEPARATOR: u8 = 47;

/// The options of the tool.
pub struct Config {
    /// Credentials of the remote store.
    pub app_key_id: String,
    pub app_key: String,
    pub bucket_id: String,
    pub bucket_name: String,
    /// The key of the cipher: 32 bytes in hexadecimal.
    pub key: String,
    /// The roots to back up.
    pub includes: Vec<Vec<u8>>,
    /// Paths that are skipped, with all that lies below them.
    pub excludes: Vec<Vec<u8>>,
    /// Whether rows stay whose paths were not seen in a session.
    pub keep_deleted_files: bool,
    /// Size of the worker pool, if it is not to be that of the machine.
    pub num_threads: Option<usize>,
    /// Level handed to the compressor.
    pub compression_level: i32,
    /// Bytes of blocks from which on an archive is sealed, and below which it is small.
    pub min_archive_len: u64,
    /// Bytes of blobs below which a tail of patchsets is small.
    pub max_manifest_len: u64,
    /// Number of small archives above which they are collected.
    pub small_archives_upper_limit: usize,
    /// Number of small archives down to which they are collected.
    pub small_archives_lower_limit: usize,
    /// Number of small patchsets above which they are collected.
    pub small_patchsets_limit: usize,
}

/// The value of a hexadecimal digit, or `None` for any other character.
pub open spec fn hex_value(c: char) -> Option<u8> {
    let n = c as u32;
    if 48 <= n <= 57 {
        Some((n - 48) as u8)
    } else if 65 <= n <= 70 {
        Some((n - 55) as u8)
    } else if 97 <= n <= 102 {
        Some((n - 87) as u8)
    } else {
        None
    }
}

/// Whether a text is 64 hexadecimal digits.
pub open spec fn is_hex_key(text: Seq<char>) -> bool {
    text.len() == 64 && forall|i: int| 0 <= i < 64 ==> hex_value(#[trigger] text[i]) is Some
}

/// The byte that the two digits at `2 * i` and `2 * i + 1` of a text stand for.
pub open spec fn hex_byte(text: Seq<char>, i: int) -> u8 {
    (hex_value(text[2 * i]).unwrap() * 16 + hex_value(text[2 * i + 1]).unwrap()) as u8
}

/// Calls `hex::decode_to_slice` with room for 32 bytes. It takes a text of 64
/// hexadecimal digits, upper or lower case, and gives the byte that each pair of
/// digits stands for, the first digit counting sixteenfold.
#[verifier::external_body]
fn decode_key(text: &str) -> (r: Option<Key>)
    ensures
        r is Some <==> is_hex_key(text@),
        r matches Some(key) ==> forall|i: int| 0 <= i < 32 ==>
            #[trigger] key@[i] == hex_byte(text@, i),
{
    let mut key = [0u8; 32];
    match hex::decode_to_slice(text, &mut key) {
        Ok(()) => Some(key),
        Err(_) => None,
    }
}

/// `base` without the separators at its end, but for one that it begins with.
pub open spec fn without_trailing(base: Seq<u8>) -> Seq<u8>
    decreases base.len(),
{
    if base.len() > 1 && base.last() == SEPARATOR {
        without_trailing(base.drop_last())
    } else {
        base
    }
}

/// Whether `path` begins with the bytes of `base` and goes on, if it goes on, with a
/// new part.
pub open spec fn begins_with_parts(path: Seq<u8>, base: Seq<u8>) -> bool {
    base.len() == 0 || (base.is_prefix_of(path) && (path.len() == base.len() || base.last()
        == SEPARATOR || path[base.len() as int] == SEPARATOR))
}

/// Whether `path` is `base` or lies below it: `path` begins with the bytes of `base`,
/// separators at the end of `base` aside, and what follows, if anything, is a new
/// part of the path. Every path lies below the empty path.
pub open spec fn lies_under(path: Seq<u8>, base: Seq<u8>) -> bool {
    begins_with_parts(path, without_trailing(base))
}

/// Whether `path` is `base` or lies below it.
pub fn path_lies_under(path: &[u8], base: &[u8]) -> (r: bool)
    ensures
        r == lies_under(path@, base@),
{
    let mut n = base.len();
    proof {
        assert(base@.take(n as int) =~= base@);
    }
    while n > 1 && base[n - 1] == SEPARATOR
        invariant
            n <= base@.len(),
            without_trailing(base@.take(n as int)) == without_trailing(base@),
        decreases n,
    {
        proof {
            assert(base@.take(n as int).drop_last() =~= base@.take(n - 1));
            assert(base@.take(n as int).last() == base@[n - 1]);
        }
        n -= 1;
    }
    let ghost b = base@.take(n as int);
    proof {
        if n > 1 {
            assert(b.last() == base@[n - 1]);
        }
        assert(without_trailing(b) == b);
    }
    if n == 0 {
        return true;
    }
    if n > path.len() {
        return false;
    }
    let mut i: usize = 0;
    while i < n
        invariant
            0 < n <= base@.len(),
            n <= path@.len(),
            b == base@.take(n as int),
            without_trailing(base@) == b,
            i <= n,
            forall|j: int| 0 <= j < i ==> path@[j] == b[j],
        decreases n - i,
    {
        if path[i] != base[i] {
            assert(path@.subrange(0, n as int)[i as int] != b[i as int]);
            return false;
        }
        i += 1;
    }
    assert(path@.subrange(0, n as int) =~= b);
    assert(b.last() == base@[n - 1]);
    path.len() == n || base[n - 1] == SEPARATOR || path[n] == SEPARATOR
}

/// Some path of `bases` is `path` or lies above it.
pub open spec fn covered(bases: Seq<Vec<u8>>, path: Seq<u8>) -> bool {
    exists|i: int| 0 <= i < bases.len() && lies_under(path, #[trigger] bases[i]@)
}

impl Config {
    /// Whether rows stay whose paths were not seen, unless configured: they do not.
    pub fn def_keep_deleted_files() -> (r: bool)
        ensures
            r == false,
    {
        false
    }

    /// The compression level, unless configured.
    pub fn def_compression_level() -> (r: i32)
        ensures
            r == 17,
    {
        17
    }

    /// The length from which on an archive is sealed, unless configured.
    pub fn def_min_archive_len() -> (r: u64)
        ensures
            r == 50_000_000,
    {
        50_000_000
    }

    /// The length below which a tail of patchsets is small, unless configured.
    pub fn def_max_manifest_len() -> (r: u64)
        ensures
            r == 10_000_000,
    {
        10_000_000
    }

    /// The number of small archives above which they are collected, unless configured.
    pub fn def_small_archives_upper_limit() -> (r: usize)
        ensures
            r == 10,
    {
        10
    }

    /// The number of small archives down to which they are collected, unless configured.
    pub fn def_small_archives_lower_limit() -> (r: usize)
        ensures
            r == 5,
    {
        5
    }

    /// The number of small patchsets above which they are collected, unless configured.
    pub fn def_small_patchsets_limit() -> (r: usize)
        ensures
            r == 25,
    {
        25
    }

    /// The key of the cipher, if the configured text is 64 hexadecimal digits.
    pub fn key(&self) -> (r: Option<Key>)
        ensures
            r is Some <==> is_hex_key(self.key@),
            r matches Some(key) ==> forall|i: int|
                0 <= i < 32 ==> #[trigger] key@[i] == hex_byte(self.key@, i),
    {
        decode_key(self.key.as_str())
    }

    /// The configured exclude that covers `path`, if one does: the first in the list.
    pub fn exclude_of(&self, path: &[u8]) -> (r: Option<usize>)
        ensures
            r is Some <==> covered(self.excludes@, path@),
            r matches Some(i) ==>
                i < self.excludes@.len() && lies_under(path@, self.excludes@[i as int]@)
                && forall|j: int| 0 <= j < i ==> !lies_under(path@, #[trigger] self.excludes@[j]@),
    {
        let mut i: usize = 0;
        while i < self.excludes.len()
            invariant
                i <= self.excludes@.len(),
                forall|j: int| 0 <= j < i ==> !lies_under(path@, #[trigger] self.excludes@[j]@),
            decreases self.excludes@.len() - i,
        {
            if path_lies_under(path, self.excludes[i].as_slice()) {
                return Some(i);
            }
            i += 1;
        }
        None
    }
}

} // verus!
