use vstd::prelude::*;
use sha2::Digest;
use sha2::Sha256;

verus! {

/// The running SHA-256 state. Verus refuses to declare `sha2::Sha256` itself
/// (an alias over several layers of generic wrappers), so it is held opaquely.
#[verifier::external_body]
pub struct Sha256State {
    inner: Sha256,
}

/// Files larger than this many bytes are hashed through a read-only memory
/// map; smaller ones are streamed through a buffer of `READ_BUFFER_SIZE`.
pub const MMAP_THRESHOLD: u64 = 524288000;

pub const READ_BUFFER_SIZE: usize = 8192;

/// Whether a file of `len` bytes is hashed through a memory map rather than
/// through the streaming buffer.
pub fn use_mapped_read(len: u64) -> (r: bool)
    ensures
        r == (len > MMAP_THRESHOLD),
{
    len > MMAP_THRESHOLD
}

/// The SHA-256 digest of a byte sequence.
pub uninterp spec fn sha256_of(data: Seq<u8>) -> Seq<u8>;

/// Lowercase hexadecimal digit for a value below 16.
pub open spec fn hex_digit(v: u8) -> char {
    if v < 10 {
        (('0' as u8) + v) as char
    } else {
        (('a' as u8) + (v - 10)) as char
    }
}

/// Two lowercase hexadecimal digits per byte, high nibble first.
pub open spec fn hex_lower(b: Seq<u8>) -> Seq<char>
    decreases b.len(),
{
    if b.len() == 0 {
        Seq::empty()
    } else {
        hex_lower(b.drop_last()) + seq![hex_digit(b.last() / 16), hex_digit(b.last() % 16)]
    }
}

/// The content identity of a byte sequence: its SHA-256 digest in lowercase hex.
pub open spec fn content_digest(data: Seq<u8>) -> Seq<char> {
    hex_lower(sha256_of(data))
}

pub open spec fn is_lower_hex(c: char) -> bool {
    ('0' <= c && c <= '9') || ('a' <= c && c <= 'f')
}

/// The bytes of the chunks, one after another.
pub open spec fn flatten(chunks: Seq<Seq<u8>>) -> Seq<u8>
    decreases chunks.len(),
{
    if chunks.len() == 0 {
        Seq::empty()
    } else {
        flatten(chunks.drop_last()) + chunks.last()
    }
}

/// Relies on hex::encode: two lowercase hexadecimal digits per byte, in order.
#[verifier::external_body]
fn hex_encode(b: &[u8]) -> (r: String)
    ensures
        r@ == hex_lower(b@),
{
    hex::encode(b)
}

/// Relies on sha2::Sha256::digest: the SHA-256 digest of the bytes, 32 bytes long.
#[verifier::external_body]
fn sha256_bytes(data: &[u8]) -> (r: Vec<u8>)
    ensures
        r@ == sha256_of(data@),
        r@.len() == 32,
{
    Sha256::digest(data).to_vec()
}

/// Incremental SHA-256 over the bytes fed so far.
pub struct ContentHasher {
    state: Sha256State,
    fed: Ghost<Seq<u8>>,
}

/// Relies on sha2::Sha256::new: a hasher that has seen no bytes.
#[verifier::external_body]
fn sha256_start() -> (r: ContentHasher)
    ensures
        r.fed() == Seq::<u8>::empty(),
{
    ContentHasher { state: Sha256State { inner: Sha256::new() }, fed: Ghost(Seq::empty()) }
}

/// Relies on sha2::Sha256::update: the chunk is appended to the bytes hashed.
#[verifier::external_body]
fn sha256_absorb(h: &mut ContentHasher, chunk: &[u8])
    ensures
        final(h).fed() == old(h).fed() + chunk@,
{
    h.state.inner.update(chunk);
}

/// Relies on sha2::Sha256::finalize: the digest of every byte fed, 32 bytes long.
#[verifier::external_body]
fn sha256_finish(h: ContentHasher) -> (r: Vec<u8>)
    ensures
        r@ == sha256_of(h.fed()),
        r@.len() == 32,
{
    h.state.inner.finalize().to_vec()
}

impl ContentHasher {
    /// The bytes fed so far, in order.
    pub closed spec fn fed(&self) -> Seq<u8> {
        self.fed@
    }

    pub fn new() -> (r: ContentHasher)
        ensures
            r.fed() == Seq::<u8>::empty(),
    {
        sha256_start()
    }

    /// Feeds the next chunk of the content.
    pub fn update(&mut self, chunk: &[u8])
        ensures
            final(self).fed() == old(self).fed() + chunk@,
    {
        sha256_absorb(self, chunk)
    }

    /// The content identity of every byte fed, as 64 lowercase hex digits.
    pub fn finish(self) -> (r: String)
        ensures
            r@ == content_digest(self.fed()),
            r@.len() == 64,
    {
        let bytes = sha256_finish(self);
        proof {
            lemma_hex_lower_shape(bytes@);
        }
        hex_encode(bytes.as_slice())
    }
}

/// The content identity of `data` in one call, as the memory-mapped read does.
pub fn digest_bytes(data: &[u8]) -> (r: String)
    ensures
        r@ == content_digest(data@),
        r@.len() == 64,
{
    let bytes = sha256_bytes(data);
    proof {
        lemma_hex_lower_shape(bytes@);
    }
    hex_encode(bytes.as_slice())
}

/// The content identity of the chunks fed one after another, as the
/// streaming read does.
pub fn digest_chunks(chunks: &Vec<Vec<u8>>) -> (r: String)
    ensures
        r@ == content_digest(flatten(chunks@.map_values(|c: Vec<u8>| c@))),
        r@.len() == 64,
{
    let mut h = ContentHasher::new();
    let ghost views = chunks@.map_values(|c: Vec<u8>| c@);
    let mut i: usize = 0;
    while i < chunks.len()
        invariant
            i <= chunks.len(),
            views == chunks@.map_values(|c: Vec<u8>| c@),
            h.fed() == flatten(views.subrange(0, i as int)),
        decreases chunks.len() - i,
    {
        proof {
            assert(views.subrange(0, i + 1).drop_last() =~= views.subrange(0, i as int));
        }
        h.update(chunks[i].as_slice());
        i = i + 1;
    }
    assert(views.subrange(0, chunks.len() as int) =~= views);
    h.finish()
}

/// A hex rendering has two digits per byte, each a lowercase hex digit.
pub proof fn lemma_hex_lower_shape(b: Seq<u8>)
    ensures
        hex_lower(b).len() == 2 * b.len(),
        forall|i: int| 0 <= i < hex_lower(b).len() ==> is_lower_hex(#[trigger] hex_lower(b)[i]),
    decreases b.len(),
{
    if b.len() > 0 {
        lemma_hex_lower_shape(b.drop_last());
        let v = b.last();
        assert(v / 16 < 16 && v % 16 < 16);
        let hi = hex_digit(v / 16);
        let lo = hex_digit(v % 16);
        assert(is_lower_hex(hi) && is_lower_hex(lo)) by {
            assert(forall|x: u8| x < 16 ==> #[trigger] is_lower_hex(hex_digit(x))) by {
                assert forall|x: u8| x < 16 implies #[trigger] is_lower_hex(hex_digit(x)) by {
                    if x < 10 {
                        assert(('0' as u8) + x <= 57);
                    } else {
                        assert(('a' as u8) + (x - 10) <= 102);
                    }
                }
            }
        }
        let prev = hex_lower(b.drop_last());
        assert forall|i: int| 0 <= i < hex_lower(b).len() implies is_lower_hex(#[trigger] hex_lower(b)[i]) by {
            if i < prev.len() {
                assert(hex_lower(b)[i] == prev[i]);
            }
        }
    }
}

/// The identity depends on the content alone: whichever way the same bytes
/// are read, whole or in any chunking, the identity is the same string of
/// lowercase hex digits.
pub proof fn lemma_identity_independent_of_read(data: Seq<u8>, chunks: Seq<Seq<u8>>)
    requires
        flatten(chunks) == data,
    ensures
        content_digest(flatten(chunks)) == content_digest(data),
        forall|i: int|
            0 <= i < content_digest(data).len() ==> is_lower_hex(#[trigger] content_digest(data)[i]),
{
    lemma_hex_lower_shape(sha256_of(data));
}

} // verus!
