//! SHA-256 of content that comes in pieces, in hexadecimal.

use sha2::Digest;
use vstd::prelude::*;

verus! {

/// A SHA-256 computation under way: a `sha2::Sha256`, of which Verus sees nothing but the names below.
#[verifier::external_body]
pub struct Sha256Stream {
    inner: sha2::Sha256,
}

/// The bytes that have gone into a SHA-256 computation.
pub uninterp spec fn absorbed(stream: Sha256Stream) -> Seq<u8>;

/// The SHA-256 digest of some bytes.
pub uninterp spec fn sha256(bytes: Seq<u8>) -> Seq<u8>;

/// `sha2::Sha256::new` begins a computation that no bytes have gone into.
#[verifier::external_body]
fn begin() -> (stream: Sha256Stream)
    ensures
        absorbed(stream) == Seq::<u8>::empty(),
{
    Sha256Stream { inner: sha2::Sha256::new() }
}

/// `sha2::Sha256::update` takes in more bytes, after those that have gone in before.
#[verifier::external_body]
fn update(stream: &mut Sha256Stream, bytes: &[u8])
    ensures
        absorbed(*final(stream)) == absorbed(*old(stream)) + bytes@,
{
    stream.inner.update(bytes)
}

/// `sha2::Sha256::finalize` gives the digest of all that went in: 32 bytes, a function of those bytes
/// alone.
#[verifier::external_body]
fn finalize(stream: Sha256Stream) -> (digest: Vec<u8>)
    ensures
        digest@ == sha256(absorbed(stream)),
        digest@.len() == 32,
{
    stream.inner.finalize().to_vec()
}

/// The hexadecimal digit `d`, for `d` in `0..16`.
pub open spec fn hex_digit(d: int) -> char {
    if d < 10 {
        (48 + d) as char
    } else {
        (87 + d) as char
    }
}

/// Some bytes in hexadecimal: two lower-case digits each.
pub open spec fn hex_text(bytes: Seq<u8>) -> Seq<char> {
    Seq::new(bytes.len() * 2, |i: int| hex_digit(if i % 2 == 0 { bytes[i / 2] as int / 16 } else { bytes[i / 2] as int % 16 }))
}

fn push_hex_digit(out: &mut String, d: u8)
    requires
        d < 16,
    ensures
        final(out)@ == old(out)@.push(hex_digit(d as int)),
{
    let code: u8 = if d < 10 {
        48 + d
    } else {
        87 + d
    };
    out.push(code as char);
}

/// Some bytes in hexadecimal.
pub fn hex_encode(bytes: &[u8]) -> (out: String)
    ensures
        out@ == hex_text(bytes@),
{
    let mut out = String::new();
    let mut i: usize = 0;
    while i < bytes.len()
        invariant
            i <= bytes@.len(),
            out@ == hex_text(bytes@.take(i as int)),
        decreases bytes@.len() - i,
    {
        let b: u8 = bytes[i];
        assert(b >> 4 == b / 16 && b & 0xf == b % 16) by (bit_vector);
        push_hex_digit(&mut out, b >> 4);
        push_hex_digit(&mut out, b & 0xf);
        i = i + 1;
        assert(out@ =~= hex_text(bytes@.take(i as int)));
    }
    assert(bytes@.take(i as int) =~= bytes@);
    out
}

/// The SHA-256 of content that comes in pieces.
pub struct ContentHash {
    stream: Sha256Stream,
}

impl View for ContentHash {
    type V = Seq<u8>;

    /// The content so far.
    closed spec fn view(&self) -> Seq<u8> {
        absorbed(self.stream)
    }
}

impl ContentHash {
    /// Begins with no content.
    pub fn new() -> (h: ContentHash)
        ensures
            h@ == Seq::<u8>::empty(),
    {
        ContentHash { stream: begin() }
    }

    /// Takes in the next piece.
    pub fn chunk(&mut self, bytes: &[u8])
        ensures
            final(self)@ == old(self)@ + bytes@,
    {
        update(&mut self.stream, bytes);
    }

    /// The digest of all the content, in hexadecimal.
    pub fn finish(self) -> (hex: String)
        ensures
            hex@ == hex_text(sha256(self@)),
            hex@.len() == 64,
    {
        let digest = finalize(self.stream);
        hex_encode(digest.as_slice())
    }
}

/// Different bytes have different hexadecimal texts.
pub proof fn law_hex_tells_bytes_apart(a: Seq<u8>, b: Seq<u8>)
    requires
        hex_text(a) == hex_text(b),
    ensures
        a == b,
{
    assert(hex_text(a).len() == a.len() * 2);
    assert(hex_text(b).len() == b.len() * 2);
    assert forall|i: int| 0 <= i < a.len() implies a[i] == b[i] by {
        let high = hex_text(a)[2 * i];
        let low = hex_text(a)[2 * i + 1];
        assert(high == hex_text(b)[2 * i]);
        assert(low == hex_text(b)[2 * i + 1]);
        assert((2 * i) / 2 == i && (2 * i + 1) / 2 == i);
    }
    assert(a =~= b);
}

/// The content of a file, however it is cut into pieces.
pub open spec fn content_of(pieces: Seq<Seq<u8>>) -> Seq<u8>
    decreases pieces.len(),
{
    if pieces.len() == 0 {
        Seq::empty()
    } else {
        content_of(pieces.drop_last()) + pieces.last()
    }
}

/// Cutting a piece in two changes nothing: the content is the same, and so is its digest.
pub proof fn law_pieces_do_not_matter(before: Seq<Seq<u8>>, a: Seq<u8>, b: Seq<u8>)
    ensures
        content_of(before.push(a).push(b)) == content_of(before.push(a + b)),
        sha256(content_of(before.push(a).push(b))) == sha256(content_of(before.push(a + b))),
{
    reveal_with_fuel(content_of, 3);
    assert(before.push(a).push(b).drop_last() =~= before.push(a));
    assert(before.push(a).drop_last() =~= before);
    assert(before.push(a + b).drop_last() =~= before);
    assert(content_of(before.push(a).push(b)) =~= content_of(before.push(a + b)));
}

/// The value of a hexadecimal digit, of which letters are in lower case, and 16 for anything else.
pub open spec fn hex_value(c: char) -> int {
    if '0' <= c <= '9' {
        c as int - '0' as int
    } else if 'a' <= c <= 'f' {
        c as int - 'a' as int + 10
    } else {
        16
    }
}

/// Whether `hex` is the hexadecimal text of `bytes`.
pub open spec fn is_hex_of(hex: Seq<char>, bytes: Seq<u8>) -> bool {
    &&& hex.len() == 2 * bytes.len()
    &&& forall|i: int|
        0 <= i < bytes.len() ==> {
            let high = hex_value(hex[2 * i]);
            let low = hex_value(hex[2 * i + 1]);
            high < 16 && low < 16 && 16 * high + low == #[trigger] bytes[i]
        }
}

/// The hexadecimal text of some bytes has two digits for each, the first counting sixteen times, and the
/// letters among them are in lower case.
pub proof fn law_hex_reads_back(bytes: &[u8], out: String)
    requires
        call_ensures(hex_encode, (bytes,), out),
    ensures
        is_hex_of(out@, bytes@),
{
    lemma_hex_reads_back(bytes@);
}

proof fn lemma_hex_reads_back(bytes: Seq<u8>)
    ensures
        is_hex_of(hex_text(bytes), bytes),
{
    let hex = hex_text(bytes);
    assert forall|i: int| 0 <= i < bytes.len() implies {
        let high = hex_value(hex[2 * i]);
        let low = hex_value(hex[2 * i + 1]);
        high < 16 && low < 16 && 16 * high + low == #[trigger] bytes[i]
    } by {
        assert((2 * i) / 2 == i && (2 * i + 1) / 2 == i);
        assert((2 * i) % 2 == 0 && (2 * i + 1) % 2 == 1);
        assert(hex[2 * i] == hex_digit(bytes[i] as int / 16));
        assert(hex[2 * i + 1] == hex_digit(bytes[i] as int % 16));
    }
}

/// Content begins with nothing, takes each piece after what came before, and has the digest of all of it, in
/// 64 hexadecimal digits.
pub proof fn law_digest_is_of_all_the_content(
    begun: ContentHash,
    h: &mut ContentHash,
    piece: &[u8],
    done: ContentHash,
    hex: String,
)
    requires
        call_ensures(ContentHash::new, (), begun),
        call_ensures(ContentHash::chunk, (h, piece), ()),
        call_ensures(ContentHash::finish, (done,), hex),
    ensures
        begun@.len() == 0,
        final(h)@ == old(h)@ + piece@,
        is_hex_of(hex@, sha256(done@)),
        hex@.len() == 64,
{
    lemma_hex_reads_back(sha256(done@));
}

} // verus!
