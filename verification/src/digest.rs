//! Content digests: SHA-256 over a file's bytes, rendered as lowercase hex.

use sha2::Digest;
use sha2::Sha256;
use vstd::prelude::*;

verus! {

/// An incremental `sha2::Sha256` hasher. That type is an alias of a generic
/// type bounded by traits of its crate, which cannot be declared here, so the
/// hasher is held in a struct whose inside is not looked into.
#[verifier::external_body]
pub struct Sha256State {
    inner: Sha256,
}

/// The SHA-256 digest of a byte string.
pub uninterp spec fn sha256(data: Seq<u8>) -> Seq<u8>;

/// The bytes that a hasher has been given since it was created, in order.
/// The hasher keeps them only as its running state; this is what that state
/// stands for.
pub uninterp spec fn absorbed(state: Sha256State) -> Seq<u8>;

/// `sha2::Digest::new` for `Sha256`: a hasher that has been given no bytes.
#[verifier::external_body]
fn sha256_new() -> (state: Sha256State)
    ensures
        absorbed(state) == Seq::<u8>::empty(),
{
    Sha256State { inner: Sha256::new() }
}

/// `sha2::Digest::update` for `Sha256`: the hasher has been given `chunk`
/// after everything it was given before.
#[verifier::external_body]
fn sha256_update(state: &mut Sha256State, chunk: &[u8])
    ensures
        absorbed(*final(state)) == absorbed(*old(state)) + chunk@,
{
    state.inner.update(chunk);
}

/// `sha2::Digest::finalize` for `Sha256`: the SHA-256 digest of all the bytes
/// the hasher was given, in the order it was given them.
#[verifier::external_body]
fn sha256_finalize(state: Sha256State) -> (out: Vec<u8>)
    ensures
        out@ == sha256(absorbed(state)),
{
    state.inner.finalize().to_vec()
}

/// `String::push` of std: the character is appended at the end.
pub assume_specification[ String::push ](text: &mut String, c: char)
    ensures
        final(text)@ == old(text)@.push(c),
;

/// The lowercase hexadecimal digit for a value below 16.
pub open spec fn hex_digit(n: int) -> char {
    if n < 10 {
        (0x30 + n) as char
    } else {
        (0x61 + n - 10) as char
    }
}

/// The lowercase hexadecimal rendering of a byte string: two digits per byte,
/// the high half first.
pub open spec fn hex_lower(bytes: Seq<u8>) -> Seq<char> {
    Seq::new(
        2 * bytes.len(),
        |i: int| if i % 2 == 0 {
            hex_digit(bytes[i / 2] as int / 16)
        } else {
            hex_digit(bytes[i / 2] as int % 16)
        },
    )
}

/// The digest string of a file's content: lowercase hex of its SHA-256.
pub open spec fn content_digest(content: Seq<u8>) -> Seq<char> {
    hex_lower(sha256(content))
}

fn hex_digit_of(n: u8) -> (c: char)
    requires
        n < 16,
    ensures
        c == hex_digit(n as int),
{
    if n < 10 {
        (0x30u8 + n) as char
    } else {
        (0x61u8 + (n - 10)) as char
    }
}

/// Renders `bytes` as lowercase hexadecimal.
pub fn to_hex_lower(bytes: &Vec<u8>) -> (text: String)
    ensures
        text@ == hex_lower(bytes@),
{
    let mut text = String::new();
    let mut i: usize = 0;
    while i < bytes.len()
        invariant
            i <= bytes.len(),
            text@ == hex_lower(bytes@.take(i as int)),
        decreases bytes.len() - i,
    {
        let b: u8 = bytes[i];
        let hi = hex_digit_of(b / 16);
        let lo = hex_digit_of(b % 16);
        let ghost before = text@;
        text.push(hi);
        text.push(lo);
        proof {
            let prev = bytes@.take(i as int);
            let next = bytes@.take(i as int + 1);
            assert(text@ == before.push(hi).push(lo));
            assert(text@ =~= hex_lower(next));
        }
        i = i + 1;
    }
    proof {
        assert(bytes@.take(i as int) =~= bytes@);
    }
    text
}

/// Different values below 16 have different digits.
proof fn lemma_hex_digit_injective(m: int, n: int)
    requires
        0 <= m < 16,
        0 <= n < 16,
        hex_digit(m) == hex_digit(n),
    ensures
        m == n,
{
    assert(hex_digit(m) as int == if m < 10 { 0x30 + m } else { 0x61 + m - 10 });
    assert(hex_digit(n) as int == if n < 10 { 0x30 + n } else { 0x61 + n - 10 });
}

/// Byte strings with the same hexadecimal rendering are equal.
pub proof fn lemma_hex_lower_injective(a: Seq<u8>, b: Seq<u8>)
    requires
        hex_lower(a) == hex_lower(b),
    ensures
        a == b,
{
    assert(hex_lower(a).len() == 2 * a.len());
    assert(hex_lower(b).len() == 2 * b.len());
    assert forall|i: int| 0 <= i < a.len() implies a[i] == b[i] by {
        assert(hex_lower(a)[2 * i] == hex_digit(a[i] as int / 16));
        assert(hex_lower(b)[2 * i] == hex_digit(b[i] as int / 16));
        assert(hex_lower(a)[2 * i + 1] == hex_digit(a[i] as int % 16));
        assert(hex_lower(b)[2 * i + 1] == hex_digit(b[i] as int % 16));
        lemma_hex_digit_injective(a[i] as int / 16, b[i] as int / 16);
        lemma_hex_digit_injective(a[i] as int % 16, b[i] as int % 16);
    }
    assert(a =~= b);
}

/// How far the hashing of one file has come.
#[derive(Clone, Copy, Debug, PartialEq, Eq, Structural)]
pub enum Progress {
    /// More of the file is to be read.
    Reading,
    /// The end of the file was reached.
    Complete,
    /// A read failed; the file has no digest.
    Failed,
}

/// The hashing of one file, fed read by read.
pub struct FileDigest {
    state: Sha256State,
    progress: Progress,
}

impl FileDigest {
    /// The bytes taken so far, in order.
    pub closed spec fn content(&self) -> Seq<u8> {
        absorbed(self.state)
    }

    /// How far the hashing has come.
    pub closed spec fn progress(&self) -> Progress {
        self.progress
    }

    /// Starts the hashing of a file: nothing has been read yet.
    pub fn new() -> (digest: FileDigest)
        ensures
            digest.content() == Seq::<u8>::empty(),
            digest.progress() is Reading,
    {
        FileDigest { state: sha256_new(), progress: Progress::Reading }
    }

    /// Takes the outcome of one read and tells whether to read on. `None`
    /// says that the read failed, which ends the hashing without a digest;
    /// an empty chunk says that the file has ended, which completes it; any
    /// other chunk is taken as the next bytes of the content. Once the
    /// hashing has ended, nothing changes.
    pub fn feed(&mut self, read: Option<&[u8]>) -> (more: bool)
        ensures
            more == (final(self).progress() is Reading),
            !(old(self).progress() is Reading) ==> final(self).progress() == old(self).progress()
                && final(self).content() == old(self).content(),
            old(self).progress() is Reading ==> match read {
                None => final(self).progress() is Failed && final(self).content() == old(self).content(),
                Some(chunk) => if chunk@.len() == 0 {
                    final(self).progress() is Complete && final(self).content() == old(self).content()
                } else {
                    final(self).progress() is Reading && final(self).content() == old(self).content() + chunk@
                },
            },
    {
        match self.progress {
            Progress::Reading => {},
            _ => {
                return false;
            },
        }
        match read {
            None => {
                self.progress = Progress::Failed;
                false
            },
            Some(chunk) => {
                if chunk.len() == 0 {
                    self.progress = Progress::Complete;
                    false
                } else {
                    sha256_update(&mut self.state, chunk);
                    true
                }
            },
        }
    }

    /// Ends the hashing. A file read to its end has the digest of the bytes
    /// taken: the lowercase hex of their SHA-256. A file whose read failed,
    /// or that was not read to its end, has none.
    pub fn finish(self) -> (digest: Option<String>)
        ensures
            match digest {
                Some(text) => self.progress() is Complete && text@ == content_digest(
                    self.content(),
                ),
                None => !(self.progress() is Complete),
            },
    {
        match self.progress {
            Progress::Complete => {
                let bytes = sha256_finalize(self.state);
                Some(to_hex_lower(&bytes))
            },
            _ => None,
        }
    }
}

} // verus!
