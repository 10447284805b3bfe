use vstd::prelude::*;

verus! {

#[verifier::external_type_specification]
#[verifier::external_body]
pub struct ExContext(ring::digest::Context);

/// The bytes that a SHA-256 context has been fed, in order.
pub uninterp spec fn absorbed(c: ring::digest::Context) -> Seq<u8>;

/// The SHA-256 digest of a byte sequence.
pub uninterp spec fn sha256_of(data: Seq<u8>) -> Seq<u8>;

/// Inputs of this many bytes or more are too long for SHA-256 (2^61).
pub const MAX_HASHED_LEN: u64 = 0x2000_0000_0000_0000;

/// Size of the reusable buffer in which content is fed to the digest.
pub const CHUNK_LEN: usize = 1024;

/// Relies on `ring::digest::Context::new(&SHA256)`: a fresh SHA-256 context
/// that has been fed nothing.
#[verifier::external_body]
fn context_new() -> (r: ring::digest::Context)
    ensures
        absorbed(r) == Seq::<u8>::empty(),
{
    ring::digest::Context::new(&ring::digest::SHA256)
}

/// Relies on `ring::digest::Context::update`: `data` is appended to what the
/// context has been fed; it never panics.
#[verifier::external_body]
fn context_update(c: &mut ring::digest::Context, data: &[u8])
    ensures
        absorbed(*final(c)) == absorbed(*old(c)) + data@,
{
    c.update(data)
}

/// Relies on `ring::digest::Context::finish`: the SHA-256 digest, 32 bytes, of
/// all that was fed; it panics only on 2^61 bytes or more.
#[verifier::external_body]
fn context_finish(c: ring::digest::Context) -> (r: Vec<u8>)
    requires
        absorbed(c).len() < MAX_HASHED_LEN,
    ensures
        r@ == sha256_of(absorbed(c)),
        r@.len() == 32,
{
    c.finish().as_ref().to_vec()
}

/// The upper-case hexadecimal digit of `n`, for `n < 16`.
pub open spec fn hex_digit(n: int) -> char {
    seq!['0', '1', '2', '3', '4', '5', '6', '7', '8', '9', 'A', 'B', 'C', 'D', 'E', 'F'][n]
}

/// Upper-case hexadecimal text of a byte sequence, two digits per byte, high
/// digit first.
pub open spec fn hex_upper(b: Seq<u8>) -> Seq<char>
    decreases b.len(),
{
    if b.len() == 0 {
        Seq::empty()
    } else {
        hex_upper(b.drop_last()) + seq![hex_digit(b.last() as int / 16), hex_digit(b.last() as int % 16)]
    }
}

/// The digest text of a content: upper-case hex of its SHA-256.
pub open spec fn digest_text(content: Seq<u8>) -> Seq<char> {
    hex_upper(sha256_of(content))
}

/// Relies on `data_encoding::HEXUPPER.encode`: base16 with the symbols
/// `0-9A-F`, two per byte, high nibble first.
#[verifier::external_body]
fn hex_encode(b: &[u8]) -> (r: String)
    ensures
        r@ == hex_upper(b@),
{
    data_encoding::HEXUPPER.encode(b)
}

/// A SHA-256 computation fed one chunk at a time.
pub struct DigestStream {
    ctx: ring::digest::Context,
    fed_len: u64,
}

impl View for DigestStream {
    type V = Seq<u8>;

    /// The bytes fed so far.
    closed spec fn view(&self) -> Seq<u8> {
        absorbed(self.ctx)
    }
}

impl DigestStream {
    /// The byte count kept beside the context is right, up to `u64::MAX`.
    pub closed spec fn wf(&self) -> bool {
        self.fed_len as int == if absorbed(self.ctx).len() > u64::MAX {
            u64::MAX as int
        } else {
            absorbed(self.ctx).len() as int
        }
    }

    /// A stream that has been fed nothing.
    pub fn new() -> (r: DigestStream)
        ensures
            r.wf(),
            r@ == Seq::<u8>::empty(),
    {
        DigestStream { ctx: context_new(), fed_len: 0 }
    }

    /// Feeds the next chunk of content.
    pub fn update(&mut self, chunk: &[u8])
        requires
            old(self).wf(),
        ensures
            final(self).wf(),
            final(self)@ == old(self)@ + chunk@,
    {
        context_update(&mut self.ctx, chunk);
        let n = chunk.len() as u64;
        self.fed_len = if self.fed_len > u64::MAX - n {
            u64::MAX
        } else {
            self.fed_len + n
        };
    }

    /// The upper-case hex digest of all that was fed; `None` when that is
    /// too long for SHA-256.
    pub fn finish_hex(self) -> (r: Option<String>)
        requires
            self.wf(),
        ensures
            self@.len() < MAX_HASHED_LEN ==> r is Some && r.unwrap()@ == digest_text(self@),
            self@.len() >= MAX_HASHED_LEN ==> r is None,
    {
        if self.fed_len >= MAX_HASHED_LEN {
            return None;
        }
        let raw = context_finish(self.ctx);
        Some(hex_encode(raw.as_slice()))
    }
}

/// The upper-case hex SHA-256 of `data`, fed to the digest in chunks of
/// `CHUNK_LEN` bytes.
pub fn digest_hex(data: &[u8]) -> (r: String)
    requires
        data@.len() < MAX_HASHED_LEN,
    ensures
        r@ == digest_text(data@),
{
    let mut stream = DigestStream::new();
    let mut start: usize = 0;
    while start < data.len()
        invariant
            start <= data@.len(),
            stream.wf(),
            stream@ == data@.subrange(0, start as int),
        decreases data@.len() - start,
    {
        let end = if data.len() - start > CHUNK_LEN {
            start + CHUNK_LEN
        } else {
            data.len()
        };
        let chunk = vstd::slice::slice_subrange(data, start, end);
        stream.update(chunk);
        assert(stream@ =~= data@.subrange(0, end as int));
        start = end;
    }
    assert(data@.subrange(0, data@.len() as int) =~= data@);
    match stream.finish_hex() {
        Some(text) => text,
        None => String::new(),
    }
}

/// Equal contents have equal digests, whatever chunks they were fed in.
pub proof fn lemma_equal_content_equal_digest(a: Seq<Seq<u8>>, b: Seq<Seq<u8>>)
    requires
        a.flatten() == b.flatten(),
    ensures
        digest_text(a.flatten()) == digest_text(b.flatten()),
{
}

} // verus!
