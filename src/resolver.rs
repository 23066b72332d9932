//! Bulk member resolution: the missing members of a guild are asked for in
//! chunks, each tagged with a random nonce; answers come back as member
//! chunk events, and whatever has not come back when the time is up is
//! given up.

use rand::distributions::Alphanumeric;
use rand::Rng;
use vstd::prelude::*;

use crate::ids::UserId;
use crate::mention::is_alnum;

verus! {

/// At most this many ids go in one request.
pub const MEMBER_CHUNK_SIZE: usize = 100;

/// Time allowed for each chunk of a request.
pub const MEMBER_CHUNK_TIMEOUT_SECS: u64 = 30;

/// Characters in a nonce.
pub const NONCE_LENGTH: usize = 32;

/// The number of chunks that `n` ids take.
pub open spec fn chunk_count(n: nat) -> nat {
    ((n + 99) / 100) as nat
}

/// Chunk `j` of `ids`: the ids from `100 * j` on, at most a hundred.
pub open spec fn chunk_at(ids: Seq<UserId>, j: int) -> Seq<UserId> {
    let start = 100 * j;
    let end = if start + 100 <= ids.len() {
        start + 100
    } else {
        ids.len() as int
    };
    ids.subrange(start, end)
}

/// Relies on `rand::thread_rng` sampling `Alphanumeric`: `len` characters,
/// each an ASCII letter or digit.
#[verifier::external_body]
fn random_alphanumeric(len: usize) -> (r: String)
    ensures
        r@.len() == len,
        forall|i: int| 0 <= i < r@.len() ==> is_alnum(#[trigger] r@[i]),
{
    rand::thread_rng().sample_iter(&Alphanumeric).take(len).map(char::from).collect()
}

/// A nonce: `NONCE_LENGTH` ASCII letters and digits.
pub open spec fn nonce_shaped(n: Seq<char>) -> bool {
    n.len() == NONCE_LENGTH && forall|i: int| 0 <= i < n.len() ==> is_alnum(#[trigger] n[i])
}

/// The nonces of `reqs` are pairwise distinct.
pub open spec fn nonces_distinct(reqs: Seq<MemberChunkRequest>) -> bool {
    forall|i: int, j: int|
        0 <= i < reqs.len() && 0 <= j < reqs.len() && i != j ==> (#[trigger] reqs[i]).nonce@ != (
        #[trigger] reqs[j]).nonce@
}

/// A fresh random nonce.
pub fn new_nonce() -> (r: String)
    ensures
        r@.len() == NONCE_LENGTH,
        forall|i: int| 0 <= i < r@.len() ==> is_alnum(#[trigger] r@[i]),
{
    random_alphanumeric(NONCE_LENGTH)
}

/// `user_ids` cut into consecutive chunks of a hundred, the last one
/// possibly shorter.
pub fn chunk_user_ids(user_ids: &Vec<UserId>) -> (r: Vec<Vec<UserId>>)
    ensures
        r@.len() == chunk_count(user_ids@.len()),
        forall|j: int| 0 <= j < r@.len() ==> (#[trigger] r@[j])@ == chunk_at(user_ids@, j),
{
    let n = user_ids.len();
    let mut out: Vec<Vec<UserId>> = Vec::new();
    let mut start: usize = 0;
    while start < n
        invariant
            n == user_ids@.len(),
            start <= n,
            start < n ==> start == 100 * out@.len(),
            out@.len() == chunk_count(start as nat),
            forall|j: int| 0 <= j < out@.len() ==> (#[trigger] out@[j])@ == chunk_at(user_ids@, j),
        decreases n - start,
    {
        let end = if n - start >= MEMBER_CHUNK_SIZE {
            start + MEMBER_CHUNK_SIZE
        } else {
            n
        };
        let mut chunk: Vec<UserId> = Vec::new();
        let mut i = start;
        while i < end
            invariant
                start <= i <= end,
                end <= n,
                n == user_ids@.len(),
                chunk@ == user_ids@.subrange(start as int, i as int),
            decreases end - i,
        {
            chunk.push(user_ids[i]);
            i = i + 1;
        }
        let ghost j = out@.len() as int;
        assert(chunk@ == chunk_at(user_ids@, j));
        out.push(chunk);
        proof {
            if end < n {
                assert(end == 100 * (j + 1));
                assert((100 * (j + 1) + 99) / 100 == j + 1) by (nonlinear_arith)
                    requires
                        j >= 0,
                ;
            } else {
                assert((n + 99) / 100 == j + 1) by (nonlinear_arith)
                    requires
                        start == 100 * j,
                        start < n,
                        n <= start + 100,
                ;
            }
        }
        start = end;
    }
    out
}

/// Seconds to wait for the answers to `chunks` chunks, saturating.
pub fn bulk_timeout_secs(chunks: usize) -> (r: u64)
    ensures
        r == (if chunks * MEMBER_CHUNK_TIMEOUT_SECS > u64::MAX {
            u64::MAX as int
        } else {
            chunks * MEMBER_CHUNK_TIMEOUT_SECS
        }),
{
    if chunks as u64 > u64::MAX / MEMBER_CHUNK_TIMEOUT_SECS {
        assert(chunks * MEMBER_CHUNK_TIMEOUT_SECS > u64::MAX) by (nonlinear_arith)
            requires
                chunks > u64::MAX / 30,
        ;
        u64::MAX
    } else {
        assert(chunks * MEMBER_CHUNK_TIMEOUT_SECS <= u64::MAX) by (nonlinear_arith)
            requires
                chunks <= u64::MAX / 30,
        ;
        chunks as u64 * MEMBER_CHUNK_TIMEOUT_SECS
    }
}

/// One chunk of a member request, ready to send.
pub struct MemberChunkRequest {
    pub nonce: String,
    pub user_ids: Vec<UserId>,
}

/// The chunked requests for `user_ids`, each with a fresh nonce.
pub fn plan_member_requests(user_ids: &Vec<UserId>) -> (r: Vec<MemberChunkRequest>)
    ensures
        r@.len() == chunk_count(user_ids@.len()),
        forall|j: int| 0 <= j < r@.len() ==> (#[trigger] r@[j]).user_ids@ == chunk_at(user_ids@, j)
            && nonce_shaped(r@[j].nonce@),
{
    let chunks = chunk_user_ids(user_ids);
    let mut chunks = chunks;
    let ghost all = chunks@;
    let mut out: Vec<MemberChunkRequest> = Vec::new();
    let mut k: usize = 0;
    while chunks.len() > 0
        invariant
            all.len() == chunk_count(user_ids@.len()),
            forall|j: int| 0 <= j < all.len() ==> (#[trigger] all[j])@ == chunk_at(user_ids@, j),
            out@.len() + chunks@.len() == all.len(),
            chunks@ == all.subrange(out@.len() as int, all.len() as int),
            forall|j: int| 0 <= j < out@.len() ==> (#[trigger] out@[j]).user_ids@ == chunk_at(user_ids@, j)
                && nonce_shaped(out@[j].nonce@),
        decreases chunks@.len(),
    {
        let ghost j = out@.len() as int;
        let ids = chunks.remove(0);
        assert(ids == all[j]);
        out.push(MemberChunkRequest { nonce: new_nonce(), user_ids: ids });
        assert(chunks@ =~= all.subrange(out@.len() as int, all.len() as int));
    }
    out
}

/// How a member request stands: the chunks still awaited and the ids not
/// found so far.
pub struct MemberRequestProgress {
    outstanding: usize,
    not_found: Vec<UserId>,
}

impl MemberRequestProgress {
    pub closed spec fn outstanding(&self) -> nat {
        self.outstanding as nat
    }

    pub closed spec fn not_found(&self) -> Seq<UserId> {
        self.not_found@
    }

    /// A request whose `sent` chunks were all sent.
    pub fn new(sent: usize) -> (r: Self)
        ensures
            r.outstanding() == sent,
            r.not_found() == Seq::<UserId>::empty(),
    {
        MemberRequestProgress { outstanding: sent, not_found: Vec::new() }
    }

    /// One chunk answered with the ids it did not find.
    pub fn receive(&mut self, not_found: Vec<UserId>)
        ensures
            final(self).outstanding() == (if old(self).outstanding() > 0 {
                old(self).outstanding() - 1
            } else {
                0
            }),
            final(self).not_found() == old(self).not_found() + not_found@,
    {
        if self.outstanding > 0 {
            self.outstanding = self.outstanding - 1;
        }
        let mut not_found = not_found;
        self.not_found.append(&mut not_found);
    }

    /// Whether every chunk has been answered.
    pub fn is_done(&self) -> (r: bool)
        ensures
            r == (self.outstanding() == 0),
    {
        self.outstanding == 0
    }

    /// The ids not found by the chunks that answered.
    pub fn finish(self) -> (r: Vec<UserId>)
        ensures
            r@ == self.not_found(),
    {
        self.not_found
    }
}

} // verus!
