//! What the talk with the remote store needs from the library: how a request is
//! authorized, how an upload is vouched for, and when a failed upload is tried again.

use crate::bytes::append_bytes;
use crate::config::Config;
use crate::plan::Blob;
use aws_lc_rs::digest::SHA1_FOR_LEGACY_USE_ONLY;
use base64::Engine;
use vstd::prelude::*;

verus! {

/// How often an upload is tried before it is given up.
pub const MAX_ATTEMPTS: u32 = 5;

/// The seconds to wait after the given number of failures: one after the first, and
/// twice as many after each further one.
pub open spec fn delay_after(failures: nat) -> nat
    decreases failures,
{
    if failures <= 1 {
        1
    } else {
        2 * delay_after((failures - 1) as nat)
    }
}

/// Counts the failures of one upload.
pub struct Backoff {
    failures: u32,
    delay: u64,
}

impl View for Backoff {
    type V = nat;

    /// How often the upload has failed.
    closed spec fn view(&self) -> nat {
        self.failures as nat
    }
}

impl Backoff {
    /// The count is consistent, and the upload was not given up.
    pub closed spec fn wf(&self) -> bool {
        self.failures < 5 && self.delay == delay_after((self.failures + 1) as nat)
    }

    /// The count before the first attempt.
    pub fn new() -> (r: Backoff)
        ensures
            r.wf(),
            r@ == 0,
    {
        assert(delay_after(1) == 1);
        Backoff { failures: 0, delay: 1 }
    }

    /// Notes that an attempt has failed. Returns the seconds to wait before the next
    /// attempt, or `None` if this was the fifth failure and the upload is given up.
    pub fn failed(&mut self) -> (r: Option<u64>)
        requires
            old(self).wf(),
        ensures
            r is None <==> old(self)@ + 1 == MAX_ATTEMPTS,
            r matches Some(seconds) ==> final(self).wf() && final(self)@ == old(self)@ + 1
                && seconds == delay_after(final(self)@),
    {
        proof {
            assert(delay_after(1) == 1);
            assert(delay_after(2) == 2) by {
                reveal_with_fuel(delay_after, 3);
            }
            assert(delay_after(3) == 4) by {
                reveal_with_fuel(delay_after, 4);
            }
            assert(delay_after(4) == 8) by {
                reveal_with_fuel(delay_after, 5);
            }
            assert(delay_after(5) == 16) by {
                reveal_with_fuel(delay_after, 6);
            }
        }
        if self.failures + 1 == MAX_ATTEMPTS {
            return None;
        }
        let seconds = self.delay;
        self.failures = self.failures + 1;
        self.delay = self.delay * 2;
        Some(seconds)
    }
}

/// The standard base64 text of `data`, with padding, as bytes.
pub uninterp spec fn base64_standard(data: Seq<u8>) -> Seq<u8>;

/// The SHA-1 digest of `data`.
pub uninterp spec fn sha1_digest(data: Seq<u8>) -> Seq<u8>;

/// Calls `encode` of base64's `STANDARD` engine, and gives the bytes of the text.
#[verifier::external_body]
fn base64_encode(data: &[u8]) -> (r: Vec<u8>)
    requires
        data@.len() <= 0x3FFF_FFFF,
    ensures
        r@ == base64_standard(data@),
{
    base64::engine::general_purpose::STANDARD.encode(data).into_bytes()
}

/// Calls `aws_lc_rs::digest::digest` with SHA-1 and gives the 20 bytes of the digest.
#[verifier::external_body]
fn sha1(data: &[u8]) -> (r: Vec<u8>)
    ensures
        r@ == sha1_digest(data@),
        r@.len() == 20,
{
    aws_lc_rs::digest::digest(&SHA1_FOR_LEGACY_USE_ONLY, data).as_ref().to_vec()
}

/// The hexadecimal digit of a number below 16, in lower case.
pub open spec fn hex_digit(d: int) -> u8 {
    if d < 10 {
        (48 + d) as u8
    } else {
        (87 + d) as u8
    }
}

/// Bytes in hexadecimal: two digits for each, the higher first, in lower case.
pub open spec fn hex_text(data: Seq<u8>) -> Seq<u8> {
    Seq::new(
        2 * data.len(),
        |i: int|
            if i % 2 == 0 {
                hex_digit(data[i / 2] as int / 16)
            } else {
                hex_digit(data[i / 2] as int % 16)
            },
    )
}

/// The hexadecimal digit of a number below 16, in lower case.
fn digit_of(d: u8) -> (r: u8)
    requires
        d < 16,
    ensures
        r == hex_digit(d as int),
{
    if d < 10 {
        48 + d
    } else {
        87 + d
    }
}

/// Bytes in hexadecimal.
pub fn hex_encode(data: &[u8]) -> (r: Vec<u8>)
    ensures
        r@ == hex_text(data@),
{
    let mut out: Vec<u8> = Vec::new();
    let mut i: usize = 0;
    while i < data.len()
        invariant
            i <= data@.len(),
            out@.len() == 2 * i,
            forall|k: int| 0 <= k < 2 * i ==> out@[k] == hex_text(data@)[k],
        decreases data@.len() - i,
    {
        let b = data[i];
        out.push(digit_of(b / 16));
        out.push(digit_of(b % 16));
        i += 1;
    }
    assert(out@ =~= hex_text(data@));
    out
}

/// The bytes of `Basic `, with which the authorization of an account begins.
pub open spec fn basic_prefix() -> Seq<u8> {
    seq![66u8, 97, 115, 105, 99, 32]
}

/// The byte `:`, which stands between the id of a key and the key.
pub const COLON: u8 = 58;

/// What authorizes the account of `config` to the remote store: `Basic `, followed by
/// the id of the application key and the key, with a colon between them, in base64.
pub open spec fn authorization_of(config: Config) -> Seq<u8> {
    basic_prefix() + base64_standard(
        vstd::utf8::encode_utf8(config.app_key_id@) + seq![COLON]
            + vstd::utf8::encode_utf8(config.app_key@),
    )
}

/// The value of the header that authorizes the account of `config` to the remote
/// store. `None` if the key and its id are too long to be sent.
pub fn basic_authorization(config: &Config) -> (r: Option<Vec<u8>>)
    ensures
        r is Some <==> vstd::utf8::encode_utf8(config.app_key_id@).len() + 1
            + vstd::utf8::encode_utf8(config.app_key@).len() <= 0x3FFF_FFFF,
        r matches Some(value) ==> value@ == authorization_of(*config),
{
    let id = config.app_key_id.as_str().as_bytes();
    let key = config.app_key.as_str().as_bytes();
    if id.len() >= 0x3FFF_FFFF || key.len() > 0x3FFF_FFFF - 1 - id.len() {
        return None;
    }
    let mut credentials: Vec<u8> = Vec::new();
    append_bytes(&mut credentials, id);
    credentials.push(COLON);
    append_bytes(&mut credentials, key);
    let encoded = base64_encode(credentials.as_slice());
    let mut value = vec![66u8, 97, 115, 105, 99, 32];
    append_bytes(&mut value, encoded.as_slice());
    proof {
        assert(credentials@ =~= vstd::utf8::encode_utf8(config.app_key_id@) + seq![COLON]
            + vstd::utf8::encode_utf8(config.app_key@));
        assert(value@ =~= authorization_of(*config));
    }
    Some(value)
}

/// What vouches for the content of an upload: its SHA-1 digest in hexadecimal.
pub fn content_sha1(content: &[u8]) -> (r: Vec<u8>)
    ensures
        r@ == hex_text(sha1_digest(content@)),
        r@.len() == 40,
{
    let digest = sha1(content);
    hex_encode(digest.as_slice())
}

/// The blobs listed so far, and where the listing goes on.
pub struct Pages {
    blobs: Vec<Blob>,
    next: Option<Vec<u8>>,
    done: bool,
}

/// What a listing holds.
pub struct PagesView {
    /// The blobs of the pages taken so far, in their order.
    pub blobs: Seq<Blob>,
    /// The name from which the next page is to begin, if the store gave one.
    pub next: Option<Seq<u8>>,
    /// Whether the last page was taken.
    pub done: bool,
}

impl View for Pages {
    type V = PagesView;

    closed spec fn view(&self) -> PagesView {
        PagesView {
            blobs: self.blobs@,
            next: match self.next {
                Some(n) => Some(n@),
                None => None,
            },
            done: self.done,
        }
    }
}

impl Pages {
    /// A listing before its first page: it begins at the first name.
    pub fn new() -> (r: Pages)
        ensures
            r@ == (PagesView { blobs: Seq::empty(), next: None, done: false }),
    {
        Pages { blobs: Vec::new(), next: None, done: false }
    }

    /// The name from which the next page is to begin: `None` for the first page, and
    /// for none once the last page was taken.
    pub fn next_start(&self) -> (r: Option<&Vec<u8>>)
        ensures
            match r {
                Some(n) => self@.next == Some(n@),
                None => self@.next is None,
            },
    {
        match &self.next {
            Some(n) => Some(n),
            None => None,
        }
    }

    /// Whether the last page was taken.
    pub fn is_done(&self) -> (r: bool)
        ensures
            r == self@.done,
    {
        self.done
    }

    /// Takes a page: its blobs follow those listed so far. The listing goes on from the
    /// name that the store gave for the next page, and is done if it gave none.
    /// Returns whether another page is to be asked for.
    pub fn take(&mut self, page: Vec<Blob>, next: Option<Vec<u8>>) -> (more: bool)
        ensures
            more == next is Some,
            final(self)@ == (PagesView {
                blobs: old(self)@.blobs + page@,
                next: match next {
                    Some(n) => Some(n@),
                    None => None,
                },
                done: next is None,
            }),
    {
        let mut page = page;
        self.blobs.append(&mut page);
        let more = next.is_some();
        self.next = next;
        self.done = !more;
        more
    }

    /// All blobs that were listed.
    pub fn into_blobs(self) -> (r: Vec<Blob>)
        ensures
            r@ == self@.blobs,
    {
        self.blobs
    }
}

} // verus!
