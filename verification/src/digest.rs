//! Content fingerprints.
//!
//! A file's fingerprint is the upper-case hex encoding of the SHA-256
//! digest of its full byte content. The digest is computed by `ring`
//! behind a streaming context that absorbs the content in bounded
//! chunks; the hex encoding is done by `data_encoding`. Both calls stand
//! behind trusted wrappers; everything around them — feeding the chunks,
//! finishing, encoding, and the properties of the encoding — is
//! verified.

use vstd::prelude::*;

verus! {

/// The SHA-256 digest of a byte sequence. The name stands for the
/// result of the hash, which depends on the bytes alone; the algorithm
/// itself is not restated here.
pub uninterp spec fn sha256_of(bytes: Seq<u8>) -> Seq<u8>;

/// The bytes a digest context has absorbed so far.
pub uninterp spec fn absorbed(c: ring::digest::Context) -> Seq<u8>;

#[verifier::external_type_specification]
#[verifier::external_body]
pub struct ExDigestContext(ring::digest::Context);

/// The longest input SHA-256 is defined for: its length in bits must
/// fit in 64 bits, so `ring` refuses anything longer than this many
/// bytes.
pub const SHA256_MAX_INPUT_LEN: u64 = 0x1fff_ffff_ffff_ffff;

/// Relies on ring::digest::Context::new: a fresh context has absorbed
/// nothing.
#[verifier::external_body]
fn sha256_context_new() -> (c: ring::digest::Context)
    ensures
        absorbed(c) == Seq::<u8>::empty(),
{
    ring::digest::Context::new(&ring::digest::SHA256)
}

/// Relies on ring::digest::Context::update: the context absorbs exactly
/// the given bytes, after everything it had absorbed before.
#[verifier::external_body]
fn sha256_context_update(c: &mut ring::digest::Context, data: &[u8])
    ensures
        absorbed(*final(c)) == absorbed(*old(c)) + data@,
{
    c.update(data)
}

/// Relies on ring::digest::Context::finish: the 32-byte SHA-256 digest
/// of everything the context absorbed. `finish` fails on inputs whose
/// bit length overflows 64 bits, so those are excluded here.
#[verifier::external_body]
fn sha256_context_finish(c: ring::digest::Context) -> (r: Vec<u8>)
    requires
        absorbed(c).len() <= SHA256_MAX_INPUT_LEN,
    ensures
        r@ == sha256_of(absorbed(c)),
        r@.len() == 32,
{
    c.finish().as_ref().to_vec()
}

/// The upper-case hex digit of a value below sixteen.
pub open spec fn hex_digit(n: u8) -> char
    recommends
        n < 16,
{
    if n < 10 {
        (('0' as u8) + n) as char
    } else {
        (('A' as u8) + (n - 10)) as char
    }
}

/// The upper-case hex encoding of a byte sequence: each byte becomes
/// two digits, high nibble first.
pub open spec fn hex_upper_of(bytes: Seq<u8>) -> Seq<char>
    decreases bytes.len(),
{
    if bytes.len() == 0 {
        Seq::empty()
    } else {
        seq![hex_digit(bytes.first() / 16), hex_digit(bytes.first() % 16)] + hex_upper_of(
            bytes.drop_first(),
        )
    }
}

/// Relies on data_encoding::HEXUPPER.encode: the symbols are the
/// upper-case hex digits and each byte is encoded as its two digits,
/// high nibble first. Encoding asserts that the input is no longer
/// than `usize::MAX / 512`, so longer inputs are excluded here.
#[verifier::external_body]
fn hex_upper_encode(data: &[u8]) -> (r: String)
    requires
        data@.len() <= usize::MAX / 512,
    ensures
        r@ == hex_upper_of(data@),
{
    data_encoding::HEXUPPER.encode(data)
}

/// A single file's content streamed through SHA-256 in bounded chunks,
/// without ever holding the whole content in memory.
pub struct Sha256Stream {
    ctx: ring::digest::Context,
    fed: Ghost<Seq<u8>>,
}

impl Sha256Stream {
    /// The bytes this stream has been fed so far.
    pub closed spec fn bytes_fed(&self) -> Seq<u8> {
        self.fed@
    }

    pub closed spec fn wf(&self) -> bool {
        self.fed@ == absorbed(self.ctx)
    }

    /// A stream that has digested nothing yet.
    pub fn new() -> (s: Sha256Stream)
        ensures
            s.wf(),
            s.bytes_fed() == Seq::<u8>::empty(),
    {
        Sha256Stream { ctx: sha256_context_new(), fed: Ghost(Seq::empty()) }
    }

    /// Feed the next chunk of the content.
    pub fn update(&mut self, data: &[u8])
        requires
            old(self).wf(),
        ensures
            final(self).wf(),
            final(self).bytes_fed() == old(self).bytes_fed() + data@,
    {
        sha256_context_update(&mut self.ctx, data);
        proof {
            self.fed@ = self.fed@ + data@;
        }
    }

    /// The fingerprint bytes: the SHA-256 digest of everything fed.
    pub fn finish(self) -> (r: Vec<u8>)
        requires
            self.wf(),
            self.bytes_fed().len() <= SHA256_MAX_INPUT_LEN,
        ensures
            r@ == sha256_of(self.bytes_fed()),
            r@.len() == 32,
    {
        sha256_context_finish(self.ctx)
    }
}

/// The content that a sequence of chunks carries: their bytes, in order,
/// with the chunk boundaries forgotten.
pub open spec fn chunk_bytes(chunks: Seq<Vec<u8>>) -> Seq<u8>
    decreases chunks.len(),
{
    if chunks.len() == 0 {
        Seq::empty()
    } else {
        chunk_bytes(chunks.drop_last()) + chunks.last()@
    }
}

/// The SHA-256 digest of a whole content presented as successive
/// chunks. However the content is cut into chunks, the digest is that
/// of the chunks' bytes in order.
pub fn sha256_digest(chunks: &Vec<Vec<u8>>) -> (r: Vec<u8>)
    requires
        chunk_bytes(chunks@).len() <= SHA256_MAX_INPUT_LEN,
    ensures
        r@ == sha256_of(chunk_bytes(chunks@)),
        r@.len() == 32,
{
    let mut stream = Sha256Stream::new();
    let n = chunks.len();
    let mut i: usize = 0;
    while i < n
        invariant
            n == chunks@.len(),
            i <= n,
            stream.wf(),
            stream.bytes_fed() == chunk_bytes(chunks@.take(i as int)),
        decreases n - i,
    {
        stream.update(chunks[i].as_slice());
        proof {
            assert(chunks@.take(i + 1).drop_last() =~= chunks@.take(i as int));
            assert(chunks@.take(i + 1).last() == chunks@[i as int]);
        }
        i = i + 1;
    }
    proof {
        assert(chunks@.take(n as int) =~= chunks@);
    }
    stream.finish()
}

/// The fingerprint of a whole content presented as successive chunks:
/// the upper-case hex encoding of its SHA-256 digest.
pub fn fingerprint_of_chunks(chunks: &Vec<Vec<u8>>) -> (r: String)
    requires
        chunk_bytes(chunks@).len() <= SHA256_MAX_INPUT_LEN,
    ensures
        r@ == hex_upper_of(sha256_of(chunk_bytes(chunks@))),
{
    let digest = sha256_digest(chunks);
    hex_fingerprint(&digest)
}

/// The hex fingerprint string of already-computed digest bytes.
pub fn hex_fingerprint(digest: &Vec<u8>) -> (r: String)
    requires
        digest@.len() <= usize::MAX / 512,
    ensures
        r@ == hex_upper_of(digest@),
{
    hex_upper_encode(digest.as_slice())
}

/// Determinism of the fingerprint: two chunkings that carry the same
/// bytes yield the same fingerprint, whatever the paths of the files
/// they came from — the fingerprint depends on the content alone.
pub proof fn lemma_fingerprint_deterministic(c1: Seq<Vec<u8>>, c2: Seq<Vec<u8>>)
    requires
        chunk_bytes(c1) == chunk_bytes(c2),
    ensures
        hex_upper_of(sha256_of(chunk_bytes(c1))) == hex_upper_of(sha256_of(chunk_bytes(c2))),
{
}

/// Hex encoding doubles the length.
proof fn lemma_hex_upper_len(bytes: Seq<u8>)
    ensures
        hex_upper_of(bytes).len() == 2 * bytes.len(),
    decreases bytes.len(),
{
    if bytes.len() > 0 {
        lemma_hex_upper_len(bytes.drop_first());
    }
}

/// Distinct values below sixteen have distinct hex digits.
proof fn lemma_hex_digit_injective(x: u8, y: u8)
    requires
        x < 16,
        y < 16,
        hex_digit(x) == hex_digit(y),
    ensures
        x == y,
{
    assert(hex_digit(x) as u32 == hex_digit(y) as u32);
}

/// The hex encoding is injective: equal fingerprint strings can only
/// come from equal digests.
pub proof fn lemma_hex_upper_injective(a: Seq<u8>, b: Seq<u8>)
    requires
        hex_upper_of(a) == hex_upper_of(b),
    ensures
        a == b,
    decreases a.len(),
{
    lemma_hex_upper_len(a);
    lemma_hex_upper_len(b);
    if a.len() == 0 {
        assert(a =~= b);
    } else {
        assert(hex_upper_of(a)[0] == hex_digit(a.first() / 16));
        assert(hex_upper_of(a)[1] == hex_digit(a.first() % 16));
        assert(hex_upper_of(b)[0] == hex_digit(b.first() / 16));
        assert(hex_upper_of(b)[1] == hex_digit(b.first() % 16));
        lemma_hex_digit_injective(a.first() / 16, b.first() / 16);
        lemma_hex_digit_injective(a.first() % 16, b.first() % 16);
        assert(a.first() == b.first());
        assert forall|i: int| 0 <= i < hex_upper_of(a.drop_first()).len() implies hex_upper_of(
            a.drop_first(),
        )[i] == hex_upper_of(b.drop_first())[i] by {
            assert(hex_upper_of(a)[i + 2] == hex_upper_of(a.drop_first())[i]);
            assert(hex_upper_of(b)[i + 2] == hex_upper_of(b.drop_first())[i]);
        }
        assert(hex_upper_of(a.drop_first()) =~= hex_upper_of(b.drop_first()));
        lemma_hex_upper_injective(a.drop_first(), b.drop_first());
        assert forall|i: int| 0 <= i < a.len() implies a[i] == b[i] by {
            if i > 0 {
                assert(a[i] == a.drop_first()[i - 1]);
                assert(b[i] == b.drop_first()[i - 1]);
            }
        }
        assert(a =~= b);
    }
}

/// No false duplicates beyond the hash itself: contents whose SHA-256
/// digests differ never share a fingerprint string — the hex encoding
/// introduces no collisions of its own. That two distinct contents have
/// distinct digests is the collision resistance of SHA-256, assumed of
/// the hash and not restated here.
pub proof fn lemma_no_false_duplicates(x: Seq<u8>, y: Seq<u8>)
    requires
        sha256_of(x) != sha256_of(y),
    ensures
        hex_upper_of(sha256_of(x)) != hex_upper_of(sha256_of(y)),
{
    if hex_upper_of(sha256_of(x)) == hex_upper_of(sha256_of(y)) {
        lemma_hex_upper_injective(sha256_of(x), sha256_of(y));
    }
}

}
