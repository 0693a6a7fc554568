//! MD5, computed by the `md-5` crate.

use crate::md5_mb_neon::rfc1321_digest;
use md5::{Digest, Md5};
use vstd::prelude::*;

verus! {

/// A 16-byte MD5 digest.
pub type Md5Digest = [u8; 16];

/// The MD5 digest of a message, as the array of its bytes.
#[verifier::opaque]
pub open spec fn md5_digest(data: Seq<u8>) -> [u8; 16] {
    let d = rfc1321_digest(data);
    [
        d[0], d[1], d[2], d[3], d[4], d[5], d[6], d[7],
        d[8], d[9], d[10], d[11], d[12], d[13], d[14], d[15],
    ]
}

/// The array holds the digest.
pub proof fn lemma_md5_digest(data: Seq<u8>)
    ensures
        md5_digest(data)@ == rfc1321_digest(data),
{
    reveal(md5_digest);
    reveal(rfc1321_digest);
    assert(md5_digest(data)@ =~= rfc1321_digest(data));
}

/// What `Md5::finalize` returns for a hasher that is first handed `rest`.
pub uninterp spec fn md5_resumed(hasher: Md5, rest: Seq<u8>) -> [u8; 16];

/// The hasher of the `md-5` crate.
#[verifier::external_type_specification]
#[verifier::external_body]
pub struct ExMd5(Md5);

/// `Md5::digest`. Its result is the MD5 of RFC 1321.
#[verifier::external_body]
fn md5_one_shot(data: &[u8]) -> (h: [u8; 16])
    ensures
        h@ == rfc1321_digest(data@),
{
    Md5::digest(data).into()
}

/// `Md5::new`. A fresh hasher that is handed some bytes ends in the MD5 of RFC
/// 1321 of them.
#[verifier::external_body]
fn md5_new() -> (h: Md5)
    ensures
        forall|rest: Seq<u8>| (#[trigger] md5_resumed(h, rest))@ == rfc1321_digest(rest),
{
    Md5::new()
}

/// `Md5::update`. Handing over `data` and then `rest` is handing over both in
/// one piece.
#[verifier::external_body]
fn md5_update(h: &mut Md5, data: &[u8])
    ensures
        forall|rest: Seq<u8>| #[trigger]
            md5_resumed(*final(h), rest) == md5_resumed(*old(h), data@ + rest),
{
    h.update(data);
}

/// `Md5::finalize`. The digest of what the hasher was handed.
#[verifier::external_body]
fn md5_finalize(h: Md5) -> (r: [u8; 16])
    ensures
        r == md5_resumed(h, Seq::empty()),
{
    h.finalize().into()
}

/// The MD5 digest of `data` in one step.
pub fn digest(data: &[u8]) -> (h: Md5Digest)
    ensures
        h == md5_digest(data@),
        h@ == rfc1321_digest(data@),
{
    let h: Md5Digest = md5_one_shot(data);
    proof {
        lemma_md5_digest(data@);
        assert(h =~= md5_digest(data@));
    }
    h
}

/// An MD5 computation that takes its message in pieces. Its view is the message
/// so far.
pub struct Md5Ctx {
    hasher: Md5,
    message: Ghost<Seq<u8>>,
}

impl View for Md5Ctx {
    type V = Seq<u8>;

    closed spec fn view(&self) -> Seq<u8> {
        self.message@
    }
}

impl Md5Ctx {
    /// The hasher was handed exactly the message.
    pub closed spec fn wf(&self) -> bool {
        forall|rest: Seq<u8>| #[trigger]
            md5_resumed(self.hasher, rest) == md5_digest(self.message@ + rest)
    }

    /// Start with the empty message.
    pub fn new() -> (ctx: Self)
        ensures
            ctx.wf(),
            ctx@ == Seq::<u8>::empty(),
    {
        let hasher = md5_new();
        let ctx = Md5Ctx { hasher, message: Ghost(Seq::empty()) };
        proof {
            assert forall|rest: Seq<u8>| #[trigger] md5_resumed(ctx.hasher, rest) == md5_digest(
                ctx.message@ + rest,
            ) by {
                assert(ctx.message@ + rest =~= rest);
                lemma_md5_digest(rest);
                assert(md5_resumed(ctx.hasher, rest) =~= md5_digest(rest));
            }
        }
        ctx
    }

    /// Append `data` to the message.
    pub fn update(&mut self, data: &[u8])
        requires
            old(self).wf(),
        ensures
            final(self).wf(),
            final(self)@ == old(self)@ + data@,
    {
        md5_update(&mut self.hasher, data);
        self.message = Ghost(self.message@ + data@);
        proof {
            assert forall|rest: Seq<u8>| #[trigger] md5_resumed(self.hasher, rest) == md5_digest(
                self.message@ + rest,
            ) by {
                assert(old(self).message@ + (data@ + rest) =~= self.message@ + rest);
                assert(md5_resumed(old(self).hasher, data@ + rest) == md5_digest(
                    old(self).message@ + (data@ + rest),
                ));
            }
        }
    }

    /// The digest of the message.
    pub fn finalize(self) -> (h: Md5Digest)
        requires
            self.wf(),
        ensures
            h == md5_digest(self@),
            h@ == rfc1321_digest(self@),
    {
        proof {
            lemma_md5_digest(self@);
            assert(self.message@ + Seq::<u8>::empty() =~= self.message@);
        }
        md5_finalize(self.hasher)
    }
}

} // verus!
