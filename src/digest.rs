use vstd::prelude::*;

verus! {

/// The CRC-64/ECMA-182 checksum of a byte sequence, as the `crc` crate computes it.
pub uninterp spec fn crc64_of(bytes: Seq<u8>) -> u64;

/// Relies on `crc::Crc::<u64>::checksum` with the `CRC_64_ECMA_182` catalog entry:
/// the checksum of `bytes` in one call.
#[verifier::external_body]
fn crc64_checksum(bytes: &[u8]) -> (r: u64)
    ensures
        r == crc64_of(bytes@),
{
    crc::Crc::<u64>::new(&crc::CRC_64_ECMA_182).checksum(bytes)
}

/// Relies on `crc::Crc::<u64>::digest_with_initial`, `Digest::update` and
/// `Digest::finalize` with the `CRC_64_ECMA_182` catalog entry. For that entry
/// (`refin` and `refout` false, width 64, `xorout` zero) the initial value and the
/// finalized value are the raw register, and `update` folds the bytes into it one
/// after another, so resuming from the checksum of a prefix gives the checksum of
/// the prefix followed by `bytes`.
#[verifier::external_body]
fn crc64_resume(state: u64, bytes: &[u8]) -> (r: u64)
    ensures
        forall|prefix: Seq<u8>| #[trigger] crc64_of(prefix) == state ==> r == crc64_of(prefix + bytes@),
{
    let crc = crc::Crc::<u64>::new(&crc::CRC_64_ECMA_182);
    let mut digest = crc.digest_with_initial(state);
    digest.update(bytes);
    digest.finalize()
}

/// A running content digest, fed a file's bytes chunk by chunk so that memory use is
/// bounded by the chunk size rather than by the file size.
pub struct ContentHasher {
    state: u64,
    fed: Ghost<Seq<u8>>,
}

impl ContentHasher {
    /// The bytes fed so far.
    pub closed spec fn fed(&self) -> Seq<u8> {
        self.fed@
    }

    pub closed spec fn wf(&self) -> bool {
        self.state == crc64_of(self.fed@)
    }

    /// A digest of no bytes yet.
    pub fn new() -> (h: ContentHasher)
        ensures
            h.wf(),
            h.fed() == Seq::<u8>::empty(),
    {
        let empty: Vec<u8> = Vec::new();
        let state = crc64_checksum(empty.as_slice());
        ContentHasher { state, fed: Ghost(empty@) }
    }

    /// Folds the next chunk of the content into the digest.
    pub fn update(&mut self, chunk: &[u8])
        requires
            old(self).wf(),
        ensures
            final(self).wf(),
            final(self).fed() == old(self).fed() + chunk@,
    {
        let ghost prefix = self.fed@;
        let next = crc64_resume(self.state, chunk);
        assert(crc64_of(prefix) == self.state);
        self.state = next;
        self.fed = Ghost(prefix + chunk@);
    }

    /// The digest of everything fed so far.
    pub fn finish(&self) -> (r: u64)
        requires
            self.wf(),
        ensures
            r == crc64_of(self.fed()),
    {
        self.state
    }
}

} // verus!
