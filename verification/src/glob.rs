//! Matching paths against a pattern with wildcards.
//!
//! Pattern and path are read as characters in UTF-8, up to their first zero byte, and
//! whatever the bytes are: bytes that are no valid UTF-8 make characters too. In a
//! pattern `*` stands for any run of characters, the empty one too, and `?` for any one
//! character. A set in square brackets stands for one character out of it: `[abc]`
//! names its members, `[a-z]` a range of them, and a `^` behind the opening bracket
//! turns the set into the characters that are not in it. A `]` that comes first in a
//! set is a member of it. A set that is not closed matches nothing. Every other
//! character stands for itself.

use vstd::prelude::*;

verus! {

/// The byte `*`.
pub const STAR_BYTE: u8 = 42;

/// The character `*`.
pub const STAR: u32 = 42;

/// The character `?`.
pub const ANY_ONE: u32 = 63;

/// The character `[`, which opens a set.
pub const SET_OPEN: u32 = 91;

/// The character `]`, which closes a set.
pub const SET_CLOSE: u32 = 93;

/// The character `^`, which inverts a set.
pub const INVERT: u32 = 94;

/// The character `-`, which joins the ends of a range.
pub const RANGE: u32 = 45;

/// Whether a range begins at the position `i` of a set: a `-` stands there, behind a
/// member `prior` that is not itself the end of a range, and before a character that does
/// not close the set.
pub open spec fn range_at(p: Seq<u32>, i: int, prior: Option<u32>) -> bool {
    p[i] == RANGE && prior is Some && i + 1 < p.len() && p[i + 1] != SET_CLOSE
}

/// The position behind the `]` that closes the set whose members go on at `i`, if the
/// set is closed. `prior` is the member before `i`, if one stands there that can begin
/// a range.
pub open spec fn members_end(p: Seq<u32>, i: int, prior: Option<u32>) -> Option<int>
    decreases p.len() - i,
{
    if i < 0 || i >= p.len() {
        None
    } else if p[i] == SET_CLOSE {
        Some(i + 1)
    } else if range_at(p, i, prior) {
        members_end(p, i + 2, None)
    } else {
        members_end(p, i + 1, Some(p[i]))
    }
}

/// Whether `c` is among the members of a set that go on at `i`.
pub open spec fn members_hold(p: Seq<u32>, i: int, prior: Option<u32>, c: u32) -> bool
    decreases p.len() - i,
{
    if i < 0 || i >= p.len() || p[i] == SET_CLOSE {
        false
    } else if range_at(p, i, prior) {
        (prior.unwrap() <= c && c <= p[i + 1]) || members_hold(p, i + 2, None, c)
    } else {
        c == p[i] || members_hold(p, i + 1, Some(p[i]), c)
    }
}

/// Whether the set that opens at `i` is inverted.
pub open spec fn set_inverted(p: Seq<u32>, i: int) -> bool {
    i + 1 < p.len() && p[i + 1] == INVERT
}

/// Where the members of the set that opens at `i` begin.
pub open spec fn set_begin(p: Seq<u32>, i: int) -> int {
    if set_inverted(p, i) {
        i + 2
    } else {
        i + 1
    }
}

/// Whether the set that opens at `i` has `]` as its first member.
pub open spec fn set_holds_close(p: Seq<u32>, i: int) -> bool {
    set_begin(p, i) < p.len() && p[set_begin(p, i)] == SET_CLOSE
}

/// The position behind the set that opens at `i`, if the set is closed.
pub open spec fn set_end(p: Seq<u32>, i: int) -> Option<int> {
    if set_holds_close(p, i) {
        members_end(p, set_begin(p, i) + 1, None)
    } else {
        members_end(p, set_begin(p, i), None)
    }
}

/// Whether the set that opens at `i` stands for the character `c`.
pub open spec fn set_takes(p: Seq<u32>, i: int, c: u32) -> bool {
    let named = if set_holds_close(p, i) {
        c == SET_CLOSE || members_hold(p, set_begin(p, i) + 1, None, c)
    } else {
        members_hold(p, set_begin(p, i), None, c)
    };
    named != set_inverted(p, i)
}

/// Whether the text from `j` matches the pattern from `i`.
pub open spec fn matches_from(p: Seq<u32>, t: Seq<u32>, i: int, j: int) -> bool
    decreases p.len() - i, t.len() - j,
{
    if i < 0 || j < 0 {
        false
    } else if i >= p.len() {
        j >= t.len()
    } else if p[i] == STAR {
        matches_from(p, t, i + 1, j) || (j < t.len() && matches_from(p, t, i, j + 1))
    } else if j >= t.len() {
        false
    } else if p[i] == ANY_ONE {
        matches_from(p, t, i + 1, j + 1)
    } else if p[i] == SET_OPEN {
        match set_end(p, i) {
            Some(e) => i < e <= p.len() && set_takes(p, i, t[j]) && matches_from(p, t, e, j + 1),
            None => false,
        }
    } else {
        p[i] == t[j] && matches_from(p, t, i + 1, j + 1)
    }
}

/// Whether the byte `b` goes on a character that a byte before it began.
pub open spec fn goes_on(b: u8) -> bool {
    b & 0xC0 == 0x80
}

/// What the first byte of a character of more than one byte gives to its value.
pub open spec fn lead_value(b: u8) -> u32 {
    if b < 0xE0 {
        (b - 0xC0) as u32
    } else if b < 0xF0 {
        (b - 0xE0) as u32
    } else if b < 0xF8 {
        (b - 0xF0) as u32
    } else if b < 0xFC {
        (b - 0xF8) as u32
    } else if b < 0xFE {
        (b - 0xFC) as u32
    } else {
        0
    }
}

/// The value `c` with the low six bits of the byte `b` behind it, as far as 32 bits
/// hold it.
pub open spec fn with_six_bits(c: u32, b: u8) -> u32 {
    ((c * 64 + (b & 0x3F)) % 0x1_0000_0000) as u32
}

/// The position behind the bytes from `i` on that go on a character.
pub open spec fn tail_end(s: Seq<u8>, i: int) -> int
    decreases s.len() - i,
{
    if 0 <= i < s.len() && goes_on(s[i]) {
        tail_end(s, i + 1)
    } else {
        i
    }
}

/// The value `c` with the bits of the bytes from `i` on that go on a character.
pub open spec fn tail_value(s: Seq<u8>, i: int, c: u32) -> u32
    decreases s.len() - i,
{
    if 0 <= i < s.len() && goes_on(s[i]) {
        tail_value(s, i + 1, with_six_bits(c, s[i]))
    } else {
        c
    }
}

/// The character that begins at `i`. A byte below `0xC0` is a character of its own.
/// Any other byte begins a character that takes all the bytes behind it which go on a
/// character; a value that is below `0x80` or one half of a surrogate pair is read as
/// `0xFFFD`.
pub open spec fn char_at(s: Seq<u8>, i: int) -> u32 {
    if s[i] < 0xC0 {
        s[i] as u32
    } else {
        let c = tail_value(s, i + 1, lead_value(s[i]));
        if c < 0x80 || c & 0xFFFF_F800 == 0xD800 {
            0xFFFD
        } else {
            c
        }
    }
}

/// The position behind the character that begins at `i`.
pub open spec fn char_end(s: Seq<u8>, i: int) -> int {
    if s[i] < 0xC0 {
        i + 1
    } else {
        tail_end(s, i + 1)
    }
}

/// The characters of `s` from `i` up to its end or its first zero byte.
pub open spec fn chars_from(s: Seq<u8>, i: int) -> Seq<u32>
    decreases s.len() - i,
{
    if i < 0 || i >= s.len() || s[i] == 0 || char_end(s, i) <= i || char_end(s, i) > s.len() {
        Seq::empty()
    } else {
        seq![char_at(s, i)] + chars_from(s, char_end(s, i))
    }
}

/// The characters of `s`.
pub open spec fn chars(s: Seq<u8>) -> Seq<u32> {
    chars_from(s, 0)
}

/// Whether `text` matches `pattern`.
pub open spec fn glob_matches(pattern: Seq<u8>, text: Seq<u8>) -> bool {
    matches_from(chars(pattern), chars(text), 0, 0)
}

/// A character ends behind where it begins, and within the bytes.
pub proof fn lemma_char_end(s: Seq<u8>, i: int)
    requires
        0 <= i < s.len(),
    ensures
        i < char_end(s, i) <= s.len(),
{
    lemma_tail_end(s, i + 1);
}

proof fn lemma_tail_end(s: Seq<u8>, i: int)
    requires
        0 <= i <= s.len(),
    ensures
        i <= tail_end(s, i) <= s.len(),
    decreases s.len() - i,
{
    if i < s.len() && goes_on(s[i]) {
        lemma_tail_end(s, i + 1);
    }
}

/// Reads the character that begins at `i`, and tells where it ends.
pub fn read_char(s: &[u8], i: usize) -> (r: (u32, usize))
    requires
        i < s@.len(),
    ensures
        r.0 == char_at(s@, i as int),
        r.1 == char_end(s@, i as int),
        i < r.1 <= s@.len(),
{
    let b = s[i];
    if b < 0xC0 {
        return (b as u32, i + 1);
    }
    let mut c: u32 = if b < 0xE0 {
        (b - 0xC0) as u32
    } else if b < 0xF0 {
        (b - 0xE0) as u32
    } else if b < 0xF8 {
        (b - 0xF0) as u32
    } else if b < 0xFC {
        (b - 0xF8) as u32
    } else if b < 0xFE {
        (b - 0xFC) as u32
    } else {
        0
    };
    let mut k: usize = i + 1;
    while k < s.len() && s[k] & 0xC0 == 0x80
        invariant
            i < k <= s@.len(),
            tail_value(s@, i + 1, lead_value(s@[i as int])) == tail_value(s@, k as int, c),
            tail_end(s@, i + 1) == tail_end(s@, k as int),
        decreases s@.len() - k,
    {
        let low: u64 = (s[k] & 0x3F) as u64;
        let wide: u64 = (c as u64 * 64 + low) % 0x1_0000_0000;
        c = wide as u32;
        k += 1;
    }
    if c < 0x80 || c & 0xFFFF_F800 == 0xD800 {
        (0xFFFD, k)
    } else {
        (c, k)
    }
}

/// The characters of `s`.
pub fn read_chars(s: &[u8]) -> (out: Vec<u32>)
    ensures
        out@ == chars(s@),
{
    let mut out: Vec<u32> = Vec::new();
    let mut i: usize = 0;
    while i < s.len() && s[i] != 0
        invariant
            i <= s@.len(),
            chars(s@) == out@ + chars_from(s@, i as int),
        decreases s@.len() - i,
    {
        let (c, end) = read_char(s, i);
        proof {
            assert(out@.push(c) + chars_from(s@, end as int) =~= out@ + chars_from(s@, i as int));
        }
        out.push(c);
        i = end;
    }
    proof {
        assert(out@ + chars_from(s@, i as int) =~= out@);
    }
    out
}

/// Whether a path passes a filter: every path passes where there is no filter.
pub open spec fn passes(filter: Option<Seq<u8>>, path: Seq<u8>) -> bool {
    match filter {
        Some(pattern) => glob_matches(pattern, path),
        None => true,
    }
}

/// A set that is closed ends behind its opening bracket and within the pattern.
pub proof fn lemma_set_end(p: Seq<u32>, i: int)
    requires
        0 <= i,
    ensures
        set_end(p, i) matches Some(e) ==> i < e <= p.len(),
{
    lemma_members_end(p, set_begin(p, i), None);
    lemma_members_end(p, set_begin(p, i) + 1, None);
}

proof fn lemma_members_end(p: Seq<u32>, i: int, prior: Option<u32>)
    ensures
        members_end(p, i, prior) matches Some(e) ==> i < e <= p.len(),
    decreases p.len() - i,
{
    if 0 <= i < p.len() && p[i] != SET_CLOSE {
        if range_at(p, i, prior) {
            lemma_members_end(p, i + 2, None);
        } else {
            lemma_members_end(p, i + 1, Some(p[i]));
        }
    }
}

/// The position behind the set that opens at `i`, if the set is closed.
pub fn find_set_end(pattern: &[u32], i: usize) -> (r: Option<usize>)
    requires
        i < pattern@.len(),
    ensures
        match r {
            Some(e) => set_end(pattern@, i as int) == Some(e as int) && i < e <= pattern@.len(),
            None => set_end(pattern@, i as int) is None,
        },
{
    let m = pattern.len();
    let mut k: usize = i + 1;
    if k < m && pattern[k] == INVERT {
        k += 1;
    }
    if k < m && pattern[k] == SET_CLOSE {
        k += 1;
    }
    let mut prior: Option<u32> = None;
    while k < m && pattern[k] != SET_CLOSE
        invariant
            i < k,
            m == pattern@.len(),
            set_end(pattern@, i as int) == members_end(pattern@, k as int, prior),
        decreases m - k,
    {
        if pattern[k] == RANGE && prior.is_some() && k + 1 < m && pattern[k + 1] != SET_CLOSE {
            prior = None;
            k += 2;
        } else {
            prior = Some(pattern[k]);
            k += 1;
        }
    }
    if k < m {
        Some(k + 1)
    } else {
        None
    }
}

/// Whether the set that opens at `i` stands for the byte `c`.
pub fn set_has(pattern: &[u32], i: usize, c: u32) -> (r: bool)
    requires
        i < pattern@.len(),
    ensures
        r == set_takes(pattern@, i as int, c),
{
    let m = pattern.len();
    let mut k: usize = i + 1;
    let mut inverted = false;
    if k < m && pattern[k] == INVERT {
        inverted = true;
        k += 1;
    }
    let mut named = false;
    if k < m && pattern[k] == SET_CLOSE {
        named = c == SET_CLOSE;
        k += 1;
    }
    let mut prior: Option<u32> = None;
    while k < m && pattern[k] != SET_CLOSE
        invariant
            i < k,
            m == pattern@.len(),
            inverted == set_inverted(pattern@, i as int),
            set_takes(pattern@, i as int, c) == ((named || members_hold(
                pattern@,
                k as int,
                prior,
                c,
            )) != inverted),
        decreases m - k,
    {
        let b = pattern[k];
        match prior {
            Some(low) if b == RANGE && k + 1 < m && pattern[k + 1] != SET_CLOSE => {
                if low <= c && c <= pattern[k + 1] {
                    named = true;
                }
                prior = None;
                k += 2;
            },
            _ => {
                if c == b {
                    named = true;
                }
                prior = Some(b);
                k += 1;
            },
        }
    }
    named != inverted
}

/// A row of `len` entries that are all false.
fn blank_row(len: usize) -> (row: Vec<bool>)
    ensures
        row@.len() == len,
        forall|x: int| 0 <= x < len ==> !row@[x],
{
    let mut row: Vec<bool> = Vec::new();
    let mut j: usize = 0;
    while j < len
        invariant
            j <= len,
            row@.len() == j,
            forall|x: int| 0 <= x < j ==> !row@[x],
        decreases len - j,
    {
        row.push(false);
        j += 1;
    }
    row
}

/// Whether `rows` and `ends` hold, for every position of the pattern from `i` on,
/// whether the text from each of its positions matches the pattern from there. What
/// belongs to the position `q` stands at `m - 1 - q`: in `rows` an entry for each byte
/// of the text, in `ends` the entry for the end of the text.
pub open spec fn rows_filled(
    rows: Seq<Vec<bool>>,
    ends: Seq<bool>,
    p: Seq<u32>,
    t: Seq<u32>,
    i: int,
) -> bool {
    &&& rows.len() == p.len() - i
    &&& ends.len() == p.len() - i
    &&& forall|q: int| i <= q < p.len() ==> (#[trigger] rows[p.len() - 1 - q])@.len() == t.len()
    &&& forall|q: int|
        i <= q < p.len() ==> #[trigger] ends[p.len() - 1 - q] == matches_from(
            p,
            t,
            q,
            t.len() as int,
        )
    &&& forall|q: int, j: int|
        i <= q < p.len() && 0 <= j < t.len() ==> #[trigger] rows[p.len() - 1 - q]@[j]
            == matches_from(p, t, q, j)
}

/// The entry for the position `j` of the text in what belongs to the position `q` of
/// the pattern.
fn entry(rows: &Vec<Vec<bool>>, ends: &Vec<bool>, pattern: &[u32], text: &[u32], q: usize, j: usize,
    Ghost(i): Ghost<int>) -> (r: bool)
    requires
        rows_filled(rows@, ends@, pattern@, text@, i),
        0 <= i <= q <= pattern@.len(),
        j <= text@.len(),
    ensures
        r == matches_from(pattern@, text@, q as int, j as int),
{
    if q == pattern.len() {
        return j == text.len();
    }
    let at = pattern.len() - 1 - q;
    if j == text.len() {
        ends[at]
    } else {
        assert(rows@[pattern@.len() - 1 - q]@.len() == text@.len());
        rows[at][j]
    }
}

/// Whether `text` matches `pattern`.
pub fn glob_match(pattern: &[u8], text: &[u8]) -> (r: bool)
    ensures
        r == glob_matches(pattern@, text@),
{
    let p = read_chars(pattern);
    let t = read_chars(text);
    chars_match(p.as_slice(), t.as_slice())
}

/// Whether the characters `text` match the characters `pattern`.
pub fn chars_match(pattern: &[u32], text: &[u32]) -> (r: bool)
    ensures
        r == matches_from(pattern@, text@, 0, 0),
{
    let n = text.len();
    let m = pattern.len();
    let mut rows: Vec<Vec<bool>> = Vec::new();
    let mut ends: Vec<bool> = Vec::new();
    let mut i: usize = m;
    while i > 0
        invariant
            i <= m,
            n == text@.len(),
            m == pattern@.len(),
            rows_filled(rows@, ends@, pattern@, text@, i as int),
        decreases i,
    {
        i -= 1;
        let p = pattern[i];
        let end: Option<usize> = if p == SET_OPEN {
            find_set_end(pattern, i)
        } else {
            None
        };
        let last = p == STAR && entry(&rows, &ends, pattern, text, i + 1, n, Ghost(i + 1));
        assert(last == matches_from(pattern@, text@, i as int, n as int));
        let mut row = blank_row(n);
        let mut j: usize = n;
        while j > 0
            invariant
                j <= n,
                i < m,
                n == text@.len(),
                m == pattern@.len(),
                p == pattern@[i as int],
                row@.len() == n,
                rows_filled(rows@, ends@, pattern@, text@, i + 1),
                p == SET_OPEN ==> match end {
                    Some(e) => set_end(pattern@, i as int) == Some(e as int) && i < e <= m,
                    None => set_end(pattern@, i as int) is None,
                },
                last == matches_from(pattern@, text@, i as int, n as int),
                forall|x: int| j <= x < n ==> row@[x] == matches_from(pattern@, text@, i as int, x),
            decreases j,
        {
            j -= 1;
            let value = if p == STAR {
                let right = if j + 1 == n {
                    last
                } else {
                    row[j + 1]
                };
                entry(&rows, &ends, pattern, text, i + 1, j, Ghost(i + 1)) || right
            } else if p == ANY_ONE {
                entry(&rows, &ends, pattern, text, i + 1, j + 1, Ghost(i + 1))
            } else if p == SET_OPEN {
                match end {
                    Some(e) => set_has(pattern, i, text[j]) && entry(
                        &rows,
                        &ends,
                        pattern,
                        text,
                        e,
                        j + 1,
                        Ghost(i + 1),
                    ),
                    None => false,
                }
            } else {
                p == text[j] && entry(&rows, &ends, pattern, text, i + 1, j + 1, Ghost(i + 1))
            };
            assert(value == matches_from(pattern@, text@, i as int, j as int));
            row[j] = value;
        }
        let ghost above = rows@;
        let ghost above_ends = ends@;
        rows.push(row);
        ends.push(last);
        proof {
            assert forall|q: int| i <= q < m implies #[trigger] ends@[m - 1 - q] == matches_from(
                pattern@,
                text@,
                q,
                n as int,
            ) by {
                if q > i {
                    assert(ends@[m - 1 - q] == above_ends[m - 1 - q]);
                }
            }
            assert forall|q: int| i <= q < m implies (#[trigger] rows@[m - 1 - q])@.len() == n by {
                if q > i {
                    assert(rows@[m - 1 - q] == above[m - 1 - q]);
                }
            }
            assert forall|q: int, x: int| i <= q < m && 0 <= x < n implies #[trigger] rows@[m - 1
                - q]@[x] == matches_from(pattern@, text@, q, x) by {
                if q > i {
                    assert(rows@[m - 1 - q] == above[m - 1 - q]);
                }
            }
        }
    }
    entry(&rows, &ends, pattern, text, 0, 0, Ghost(0))
}

/// Whether a path passes a filter.
pub fn passes_filter(filter: Option<&[u8]>, path: &[u8]) -> (r: bool)
    ensures
        r == passes(
            match filter {
                Some(f) => Some(f@),
                None => None,
            },
            path@,
        ),
{
    match filter {
        Some(pattern) => glob_match(pattern, path),
        None => true,
    }
}

} // verus!
