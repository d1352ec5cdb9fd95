//! The names of the blobs on the remote store: `archive_` or `manifest_`, followed by
//! the id of the row in decimal.

use crate::bytes::append_bytes;
use vstd::prelude::*;
use vstd::slice::slice_subrange;

verus! {

/// The bytes of `archive_`.
pub open spec fn archive_prefix() -> Seq<u8> {
    seq![97u8, 114, 99, 104, 105, 118, 101, 95]
}

/// The bytes of `manifest_`.
pub open spec fn manifest_prefix() -> Seq<u8> {
    seq![109u8, 97, 110, 105, 102, 101, 115, 116, 95]
}

/// The prefix of the names of archives.
pub fn archive_prefix_bytes() -> (r: Vec<u8>)
    ensures
        r@ == archive_prefix(),
{
    let r = vec![97u8, 114, 99, 104, 105, 118, 101, 95];
    assert(r@ =~= archive_prefix());
    r
}

/// The prefix of the names of patchsets.
pub fn manifest_prefix_bytes() -> (r: Vec<u8>)
    ensures
        r@ == manifest_prefix(),
{
    let r = vec![109u8, 97, 110, 105, 102, 101, 115, 116, 95];
    assert(r@ =~= manifest_prefix());
    r
}

/// The decimal digits of a natural number, without leading zeros.
pub open spec fn digits(n: nat) -> Seq<u8>
    decreases n,
{
    if n < 10 {
        seq![(48 + n) as u8]
    } else {
        digits(n / 10).push((48 + n % 10) as u8)
    }
}

/// A number in decimal, with `-` before a negative one.
pub open spec fn decimal(n: int) -> Seq<u8> {
    if n < 0 {
        seq![45u8] + digits((-n) as nat)
    } else {
        digits(n as nat)
    }
}

/// Every byte is a decimal digit.
pub open spec fn all_digits(s: Seq<u8>) -> bool {
    forall|i: int| 0 <= i < s.len() ==> 48 <= #[trigger] s[i] <= 57
}

/// The number that a run of decimal digits stands for.
pub open spec fn digits_value(s: Seq<u8>) -> nat
    decreases s.len(),
{
    if s.len() == 0 {
        0
    } else {
        (digits_value(s.drop_last()) * 10 + (s.last() - 48)) as nat
    }
}

/// The number that a text stands for: decimal digits, at least one, after an optional
/// sign. `None` for any other text.
pub open spec fn parsed(s: Seq<u8>) -> Option<int> {
    if s.len() > 0 && s[0] == 45 {
        if s.len() > 1 && all_digits(s.skip(1)) {
            Some(-(digits_value(s.skip(1)) as int))
        } else {
            None
        }
    } else if s.len() > 0 && s[0] == 43 {
        if s.len() > 1 && all_digits(s.skip(1)) {
            Some(digits_value(s.skip(1)) as int)
        } else {
            None
        }
    } else if s.len() > 0 && all_digits(s) {
        Some(digits_value(s) as int)
    } else {
        None
    }
}

/// The id that a text stands for: the number it stands for, if that is an id.
pub open spec fn parsed_id(s: Seq<u8>) -> Option<i64> {
    match parsed(s) {
        Some(n) => if i64::MIN <= n <= i64::MAX {
            Some(n as i64)
        } else {
            None
        },
        None => None,
    }
}

/// `s` without every copy of `prefix` that it begins with.
pub open spec fn trimmed(s: Seq<u8>, prefix: Seq<u8>) -> Seq<u8>
    decreases s.len(),
{
    if prefix.len() > 0 && prefix.is_prefix_of(s) {
        trimmed(s.skip(prefix.len() as int), prefix)
    } else {
        s
    }
}

/// The id in the name of a blob: the number that follows the prefix.
pub open spec fn name_id(name: Seq<u8>, prefix: Seq<u8>) -> Option<i64> {
    parsed_id(trimmed(name, prefix))
}

/// The digits of a number are digits, and stand for the number.
pub proof fn lemma_digits(n: nat)
    ensures
        all_digits(digits(n)),
        digits(n).len() > 0,
        digits_value(digits(n)) == n,
    decreases n,
{
    if n >= 10 {
        lemma_digits(n / 10);
        let d = digits(n / 10);
        assert(digits(n).drop_last() =~= d);
        assert(digits(n).last() == (48 + n % 10) as u8);
        assert(digits_value(digits(n)) == digits_value(d) * 10 + n % 10);
    } else {
        assert(digits(n).drop_last() =~= Seq::<u8>::empty());
        assert(digits_value(Seq::<u8>::empty()) == 0);
        assert(digits(n).last() == (48 + n) as u8);
        assert(digits_value(digits(n)) == 0 * 10 + n);
    }
}

/// A number in decimal stands for the number.
pub proof fn lemma_decimal_parses(n: int)
    ensures
        parsed(decimal(n)) == Some(n),
{
    if n < 0 {
        lemma_digits((-n) as nat);
        assert(decimal(n).skip(1) =~= digits((-n) as nat));
    } else {
        lemma_digits(n as nat);
    }
}

/// More digits do not make a number smaller.
pub proof fn lemma_digits_value_grows(s: Seq<u8>, k: int)
    requires
        0 <= k <= s.len(),
        all_digits(s),
    ensures
        digits_value(s.take(k)) <= digits_value(s),
    decreases s.len() - k,
{
    if k < s.len() {
        lemma_digits_value_grows(s, k + 1);
        assert(s.take(k + 1).drop_last() =~= s.take(k));
    } else {
        assert(s.take(k) =~= s);
    }
}

/// The digits of `n` in decimal.
fn digits_of(n: u64) -> (r: Vec<u8>)
    ensures
        r@ == digits(n as nat),
    decreases n,
{
    if n < 10 {
        let r = vec![(48 + n) as u8];
        assert(r@ =~= digits(n as nat));
        r
    } else {
        let mut r = digits_of(n / 10);
        r.push((48 + n % 10) as u8);
        r
    }
}

/// `id` in decimal.
pub fn decimal_of(id: i64) -> (r: Vec<u8>)
    ensures
        r@ == decimal(id as int),
{
    if id < 0 {
        let magnitude: u64 = if id == i64::MIN {
            0x8000_0000_0000_0000
        } else {
            (-id) as u64
        };
        let mut r = vec![45u8];
        let d = digits_of(magnitude);
        append_bytes(&mut r, d.as_slice());
        assert(r@ =~= decimal(id as int));
        r
    } else {
        digits_of(id as u64)
    }
}

/// The name of the blob of the archive with the given id.
pub fn archive_name(archive_id: i64) -> (r: Vec<u8>)
    ensures
        r@ == archive_prefix() + decimal(archive_id as int),
{
    let mut r = archive_prefix_bytes();
    let d = decimal_of(archive_id);
    append_bytes(&mut r, d.as_slice());
    r
}

/// The name of the blob of the patchset with the given id.
pub fn patchset_name(patchset_id: i64) -> (r: Vec<u8>)
    ensures
        r@ == manifest_prefix() + decimal(patchset_id as int),
{
    let mut r = manifest_prefix_bytes();
    let d = decimal_of(patchset_id);
    append_bytes(&mut r, d.as_slice());
    r
}

/// Whether `s` begins with `prefix`.
fn starts_with(s: &[u8], prefix: &[u8]) -> (r: bool)
    ensures
        r == prefix@.is_prefix_of(s@),
{
    if prefix.len() > s.len() {
        return false;
    }
    let mut i: usize = 0;
    while i < prefix.len()
        invariant
            prefix@.len() <= s@.len(),
            i <= prefix@.len(),
            forall|j: int| 0 <= j < i ==> s@[j] == prefix@[j],
        decreases prefix@.len() - i,
    {
        if s[i] != prefix[i] {
            assert(s@.subrange(0, prefix@.len() as int)[i as int] != prefix@[i as int]);
            return false;
        }
        i += 1;
    }
    assert(s@.subrange(0, prefix@.len() as int) =~= prefix@);
    true
}

/// The value of a run of digits, or `None` if a byte is no digit or the value is above
/// `limit`.
fn value_of(s: &[u8], limit: u64) -> (r: Option<u64>)
    requires
        limit <= 0x8000_0000_0000_0000,
    ensures
        r is Some <==> all_digits(s@) && digits_value(s@) <= limit,
        r matches Some(v) ==> v == digits_value(s@),
{
    let mut acc: u64 = 0;
    let mut i: usize = 0;
    proof {
        assert(s@.take(0) =~= Seq::<u8>::empty());
    }
    while i < s.len()
        invariant
            i <= s@.len(),
            limit <= 0x8000_0000_0000_0000,
            all_digits(s@.take(i as int)),
            acc == digits_value(s@.take(i as int)),
            acc <= limit,
        decreases s@.len() - i,
    {
        let b = s[i];
        proof {
            assert(s@.take(i + 1).drop_last() =~= s@.take(i as int));
            assert(s@.take(i + 1).last() == b);
        }
        if b < 48 || b > 57 {
            assert(!all_digits(s@));
            return None;
        }
        let next: u128 = acc as u128 * 10 + (b - 48) as u128;
        proof {
            assert forall|j: int| 0 <= j < i + 1 implies 48 <= #[trigger] s@.take(i
                + 1)[j] <= 57 by {
                if j < i {
                    assert(s@.take(i as int)[j] == s@[j]);
                }
            }
        }
        if next > limit as u128 {
            proof {
                if all_digits(s@) {
                    lemma_digits_value_grows(s@, i + 1);
                }
            }
            return None;
        }
        acc = next as u64;
        i += 1;
    }
    proof {
        assert(s@.take(s@.len() as int) =~= s@);
    }
    Some(acc)
}

/// The id that a text stands for.
pub fn parse_id(s: &[u8]) -> (r: Option<i64>)
    ensures
        r == parsed_id(s@),
{
    if s.len() == 0 {
        return None;
    }
    if s[0] == 45 {
        if s.len() == 1 {
            return None;
        }
        let rest = slice_subrange(s, 1, s.len());
        assert(rest@ =~= s@.skip(1));
        match value_of(rest, 0x8000_0000_0000_0000) {
            Some(v) => {
                if v == 0x8000_0000_0000_0000 {
                    Some(i64::MIN)
                } else {
                    Some(-(v as i64))
                }
            },
            None => None,
        }
    } else if s[0] == 43 {
        if s.len() == 1 {
            return None;
        }
        let rest = slice_subrange(s, 1, s.len());
        assert(rest@ =~= s@.skip(1));
        match value_of(rest, 0x7FFF_FFFF_FFFF_FFFF) {
            Some(v) => Some(v as i64),
            None => None,
        }
    } else {
        match value_of(s, 0x7FFF_FFFF_FFFF_FFFF) {
            Some(v) => Some(v as i64),
            None => None,
        }
    }
}

/// The id in the name of a blob: the number that follows the prefix, however often the
/// prefix is repeated. `None` if no id follows.
pub fn parse_name(name: &[u8], prefix: &[u8]) -> (r: Option<i64>)
    ensures
        r == name_id(name@, prefix@),
{
    let mut start: usize = 0;
    proof {
        assert(name@.skip(0) =~= name@);
    }
    while prefix.len() > 0 && starts_with(slice_subrange(name, start, name.len()), prefix)
        invariant
            start <= name@.len(),
            trimmed(name@.skip(start as int), prefix@) == trimmed(name@, prefix@),
        decreases name@.len() - start,
    {
        proof {
            assert(name@.skip(start as int).skip(prefix@.len() as int) =~= name@.skip(
                start + prefix@.len(),
            ));
        }
        start += prefix.len();
    }
    parse_id(slice_subrange(name, start, name.len()))
}

/// The name of an archive's blob tells the archive's id.
pub proof fn lemma_archive_name_parses(id: i64)
    ensures
        name_id(archive_prefix() + decimal(id as int), archive_prefix()) == Some(id),
{
    let name = archive_prefix() + decimal(id as int);
    let d = decimal(id as int);
    lemma_decimal_parses(id as int);
    assert(name.skip(8) =~= d);
    assert(archive_prefix().is_prefix_of(name)) by {
        assert(name.subrange(0, 8) =~= archive_prefix());
    }
    lemma_digits((if id < 0 { -(id as int) } else { id as int }) as nat);
    assert(d[0] == 45 || 48 <= d[0] <= 57);
    assert(!archive_prefix().is_prefix_of(d)) by {
        if archive_prefix().is_prefix_of(d) {
            assert(d.subrange(0, 8)[0] == archive_prefix()[0]);
        }
    }
    assert(trimmed(d, archive_prefix()) == d);
    assert(trimmed(name, archive_prefix()) == d);
}

/// The name of a patchset's blob tells the patchset's id.
pub proof fn lemma_patchset_name_parses(id: i64)
    ensures
        name_id(manifest_prefix() + decimal(id as int), manifest_prefix()) == Some(id),
{
    let name = manifest_prefix() + decimal(id as int);
    let d = decimal(id as int);
    lemma_decimal_parses(id as int);
    assert(name.skip(9) =~= d);
    assert(manifest_prefix().is_prefix_of(name)) by {
        assert(name.subrange(0, 9) =~= manifest_prefix());
    }
    lemma_digits((if id < 0 { -(id as int) } else { id as int }) as nat);
    assert(d[0] == 45 || 48 <= d[0] <= 57);
    assert(!manifest_prefix().is_prefix_of(d)) by {
        if manifest_prefix().is_prefix_of(d) {
            assert(d.subrange(0, 9)[0] == manifest_prefix()[0]);
        }
    }
    assert(trimmed(d, manifest_prefix()) == d);
    assert(trimmed(name, manifest_prefix()) == d);
}

} // verus!
