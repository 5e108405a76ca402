//! The verifying service: registration, challenges and verification of
//! responses, each challenge single-use and filed under its own token.

use crate::bignat::{be_value, canonical, mod_pow, BigNat};
use crate::store::{issued_since, AttemptView, ChallengeAttempt, Commitment, SessionStore, StoreView};
use crate::number_theory::is_prime;
use crate::zkp::{accepts, lemma_other_response_rejected, response, valid_group, GroupView, ZKP};
use rand::distributions::{Alphanumeric, DistString};
use vstd::prelude::*;

verus! {

/// Length of challenge tokens and session identifiers.
pub const TOKEN_LEN: usize = 24;

/// Why a request was refused.
#[derive(Debug, Clone, Copy, PartialEq, Eq, Structural)]
pub enum AuthError {
    /// Empty or malformed cryptographic material.
    InvalidArgument,
    /// Unknown identity, or unknown, expired or already used token.
    NotFound,
    /// The response did not pass verification.
    PermissionDenied,
    /// The drawn token is already held by a pending challenge.
    AlreadyExists,
}

/// What a challenge request returns: the token under which the challenge
/// is filed and the challenge `c` as big-endian bytes.
pub struct ChallengeResponse {
    pub token: String,
    pub c: Vec<u8>,
}

/// An ASCII letter or digit.
pub open spec fn is_alphanumeric(c: char) -> bool {
    ('0' <= c && c <= '9') || ('a' <= c && c <= 'z') || ('A' <= c && c <= 'Z')
}

/// A string of `TOKEN_LEN` ASCII letters and digits.
pub open spec fn is_token(t: Seq<char>) -> bool {
    t.len() == TOKEN_LEN && forall|i: int| 0 <= i < t.len() ==> is_alphanumeric(#[trigger] t[i])
}

/// Relies on rand's `Alphanumeric` distribution and `DistString::sample_string`
/// over `thread_rng` (a cryptographically secure generator): `len`
/// characters, each from `A-Z`, `a-z` and `0-9`.
#[verifier::external_body]
fn random_alphanumeric(len: usize) -> (r: String)
    ensures
        r@.len() == len,
        forall|i: int| 0 <= i < r@.len() ==> is_alphanumeric(#[trigger] r@[i]),
{
    Alphanumeric.sample_string(&mut rand::thread_rng(), len)
}

/// A fresh unguessable token, for a challenge or a session.
pub fn generate_token() -> (r: String)
    ensures
        is_token(r@),
{
    random_alphanumeric(TOKEN_LEN)
}

/// The outcome of a registration with public values `y1`, `y2`.
pub open spec fn register_result(y1: Seq<u8>, y2: Seq<u8>) -> Result<(), AuthError> {
    if y1.len() == 0 || y2.len() == 0 {
        Err(AuthError::InvalidArgument)
    } else {
        Ok(())
    }
}

/// The checks of a challenge request that do not depend on the token.
pub open spec fn challenge_precheck(v: StoreView, did: Seq<char>, r1: Seq<u8>, r2: Seq<u8>) -> Result<(), AuthError> {
    if r1.len() == 0 || r2.len() == 0 {
        Err(AuthError::InvalidArgument)
    } else if !v.users.contains_key(did) {
        Err(AuthError::NotFound)
    } else {
        Ok(())
    }
}

/// The outcome of a challenge request filed under `token`.
pub open spec fn challenge_result(v: StoreView, did: Seq<char>, r1: Seq<u8>, r2: Seq<u8>, token: Seq<char>) -> Result<(), AuthError> {
    if challenge_precheck(v, did, r1, r2) is Err {
        challenge_precheck(v, did, r1, r2)
    } else if v.attempts.contains_key(token) {
        Err(AuthError::AlreadyExists)
    } else {
        Ok(())
    }
}

/// The store after a granted challenge request.
pub open spec fn challenge_store(
    v: StoreView,
    did: Seq<char>,
    r1: Seq<u8>,
    r2: Seq<u8>,
    c: nat,
    token: Seq<char>,
    now: nat,
) -> StoreView {
    StoreView {
        users: v.users,
        attempts: v.attempts.insert(
            token,
            AttemptView { did, r1: be_value(r1), r2: be_value(r2), c, issued_at: now },
        ),
    }
}

/// The outcome of answering the challenge filed under `token` with `s`.
pub open spec fn verify_result(g: GroupView, v: StoreView, token: Seq<char>, s: Seq<u8>) -> Result<(), AuthError> {
    if token.len() == 0 || s.len() == 0 {
        Err(AuthError::InvalidArgument)
    } else if !v.attempts.contains_key(token) {
        Err(AuthError::NotFound)
    } else {
        let a = v.attempts[token];
        let u = v.users[a.did];
        if accepts(g, a.r1, a.r2, u.y1, u.y2, a.c, be_value(s)) {
            Ok(())
        } else {
            Err(AuthError::PermissionDenied)
        }
    }
}

/// The store after answering the challenge filed under `token`: the
/// challenge is consumed, whatever the verdict.
pub open spec fn verify_store(v: StoreView, token: Seq<char>, s: Seq<u8>) -> StoreView {
    if token.len() == 0 || s.len() == 0 || !v.attempts.contains_key(token) {
        v
    } else {
        StoreView { users: v.users, attempts: v.attempts.remove(token) }
    }
}

/// A challenge answers once: after its token has been used, with any
/// response, the same token is unknown, whatever the second response.
pub proof fn lemma_token_single_use(g: GroupView, v: StoreView, token: Seq<char>, s1: Seq<u8>, s2: Seq<u8>)
    requires
        v.attempts.contains_key(token),
        token.len() > 0,
        s1.len() > 0,
        s2.len() > 0,
    ensures
        verify_result(g, verify_store(v, token, s1), token, s2) == Err::<(), AuthError>(AuthError::NotFound),
{
}

/// Two challenges granted one after the other hold different tokens: the
/// second is never filed under the token of the first, which is pending.
pub proof fn lemma_successive_tokens_differ(
    v: StoreView,
    did1: Seq<char>,
    r1a: Seq<u8>,
    r2a: Seq<u8>,
    c1: nat,
    t1: Seq<char>,
    now1: nat,
    did2: Seq<char>,
    r1b: Seq<u8>,
    r2b: Seq<u8>,
    t2: Seq<char>,
)
    requires
        challenge_result(v, did1, r1a, r2a, t1) is Ok,
        challenge_result(challenge_store(v, did1, r1a, r2a, c1, t1, now1), did2, r1b, r2b, t2) is Ok,
    ensures
        t1 != t2,
{
}

/// A challenge request as values: who asks, with which commitment, and the
/// challenge, token and time it is filed with.
pub struct ChallengeRequest {
    pub did: Seq<char>,
    pub r1: Seq<u8>,
    pub r2: Seq<u8>,
    pub c: nat,
    pub token: Seq<char>,
    pub now: nat,
}

/// The store after the requests `reqs`, each granted, in order.
pub open spec fn after_challenges(v: StoreView, reqs: Seq<ChallengeRequest>) -> StoreView
    decreases reqs.len(),
{
    if reqs.len() == 0 {
        v
    } else {
        let r = reqs.last();
        challenge_store(after_challenges(v, reqs.drop_last()), r.did, r.r1, r.r2, r.c, r.token, r.now)
    }
}

/// Each of the requests `reqs`, made in order from the store `v`, is granted.
pub open spec fn all_granted(v: StoreView, reqs: Seq<ChallengeRequest>) -> bool
    decreases reqs.len(),
{
    if reqs.len() == 0 {
        true
    } else {
        let r = reqs.last();
        &&& all_granted(v, reqs.drop_last())
        &&& challenge_result(after_challenges(v, reqs.drop_last()), r.did, r.r1, r.r2, r.token) is Ok
    }
}

proof fn lemma_granted_tokens_pending(v: StoreView, reqs: Seq<ChallengeRequest>, i: int)
    requires
        0 <= i < reqs.len(),
    ensures
        after_challenges(v, reqs).attempts.contains_key(reqs[i].token),
    decreases reqs.len(),
{
    if i < reqs.len() - 1 {
        lemma_granted_tokens_pending(v, reqs.drop_last(), i);
    }
}

/// Challenges granted one after the other, with no challenge consumed in
/// between, hold pairwise distinct tokens: a request is never filed under
/// the token of a pending challenge.
pub proof fn lemma_granted_tokens_distinct(v: StoreView, reqs: Seq<ChallengeRequest>, i: int, j: int)
    requires
        all_granted(v, reqs),
        0 <= i < j < reqs.len(),
    ensures
        reqs[i].token != reqs[j].token,
    decreases reqs.len(),
{
    if j < reqs.len() - 1 {
        lemma_granted_tokens_distinct(v, reqs.drop_last(), i, j);
    } else {
        let prefix = reqs.drop_last();
        lemma_granted_tokens_pending(v, prefix, i);
    }
}

/// A tampered response is refused: when the pending challenge under
/// `token` was made with nonce `k` by the holder of secret `x`, a response
/// that differs modulo `q` from the honest one gets `PermissionDenied`,
/// where `alpha` has prime order `q` modulo `p`.
pub proof fn lemma_tampered_response_denied(
    g: GroupView,
    v: StoreView,
    token: Seq<char>,
    s: Seq<u8>,
    x: nat,
    k: nat,
)
    requires
        valid_group(g),
        is_prime(g.q),
        (g.alpha as int) % (g.p as int) != 1,
        token.len() > 0,
        s.len() > 0,
        v.attempts.contains_key(token),
        v.attempts[token].r1 == mod_pow(g.alpha, k, g.p),
        v.attempts[token].r2 == mod_pow(g.beta, k, g.p),
        v.users[v.attempts[token].did] == (Commitment { y1: mod_pow(g.alpha, x, g.p), y2: mod_pow(g.beta, x, g.p) }),
        be_value(s) % g.q != response(k, v.attempts[token].c, x, g.q),
    ensures
        verify_result(g, v, token, s) == Err::<(), AuthError>(AuthError::PermissionDenied),
{
    lemma_other_response_rejected(g, x, k, v.attempts[token].c, be_value(s));
}

/// The verifying service: fixed protocol parameters and the session store.
pub struct AuthImpl {
    pub zkp: ZKP,
    pub store: SessionStore,
}

impl AuthImpl {
    /// A service with no registered identity and no pending challenge.
    pub fn new(zkp: ZKP) -> (r: AuthImpl)
        ensures
            r.store.wf(),
            r.zkp@ == zkp@,
            r.store@.users == Map::<Seq<char>, Commitment>::empty(),
            r.store@.attempts == Map::<Seq<char>, AttemptView>::empty(),
    {
        AuthImpl { zkp, store: SessionStore::new() }
    }

    /// Registers (or replaces) the public commitment `(y1, y2)` of `did`;
    /// refused when either value is empty.
    pub fn register(&mut self, did: String, y1: &[u8], y2: &[u8]) -> (r: Result<(), AuthError>)
        requires
            old(self).store.wf(),
        ensures
            final(self).store.wf(),
            final(self).zkp@ == old(self).zkp@,
            r == register_result(y1@, y2@),
            r is Ok ==> final(self).store@ == (StoreView {
                users: old(self).store@.users.insert(
                    did@,
                    Commitment { y1: be_value(y1@), y2: be_value(y2@) },
                ),
                attempts: old(self).store@.attempts,
            }),
            r is Err ==> final(self).store@ == old(self).store@,
    {
        if y1.len() == 0 || y2.len() == 0 {
            return Err(AuthError::InvalidArgument);
        }
        let v1 = BigNat::from_bytes_be(y1);
        let v2 = BigNat::from_bytes_be(y2);
        self.store.register(did, v1, v2);
        proof {
            assert(final(self).store@ =~= (StoreView {
                users: old(self).store@.users.insert(
                    did@,
                    Commitment { y1: be_value(y1@), y2: be_value(y2@) },
                ),
                attempts: old(self).store@.attempts,
            }));
        }
        Ok(())
    }

    /// Files a challenge `c` for the commitment `(r1, r2)` of `did` under
    /// `token`, issued at time `now`. Refused when `r1` or `r2` is empty,
    /// when `did` is not registered, or when `token` is already pending; a
    /// pending challenge is never replaced.
    pub fn create_challenge_with(
        &mut self,
        did: &String,
        r1: &[u8],
        r2: &[u8],
        c: BigNat,
        token: String,
        now: u64,
    ) -> (r: Result<ChallengeResponse, AuthError>)
        requires
            old(self).store.wf(),
        ensures
            final(self).store.wf(),
            final(self).zkp@ == old(self).zkp@,
            match r {
                Ok(resp) => {
                    &&& challenge_result(old(self).store@, did@, r1@, r2@, token@) is Ok
                    &&& resp.token@ == token@
                    &&& be_value(resp.c@) == c@
                    &&& canonical(resp.c@)
                    &&& final(self).store@ == challenge_store(
                        old(self).store@,
                        did@,
                        r1@,
                        r2@,
                        c@,
                        token@,
                        now as nat,
                    )
                },
                Err(e) => {
                    &&& challenge_result(old(self).store@, did@, r1@, r2@, token@) == Err::<(), AuthError>(e)
                    &&& final(self).store@ == old(self).store@
                },
            },
    {
        if r1.len() == 0 || r2.len() == 0 {
            return Err(AuthError::InvalidArgument);
        }
        if !self.store.is_registered(did) {
            return Err(AuthError::NotFound);
        }
        if self.store.has_attempt(&token) {
            return Err(AuthError::AlreadyExists);
        }
        let c_bytes = c.to_bytes_be();
        let attempt = ChallengeAttempt {
            token: token.clone(),
            did: did.clone(),
            r1: BigNat::from_bytes_be(r1),
            r2: BigNat::from_bytes_be(r2),
            c,
            issued_at: now,
        };
        self.store.insert_attempt(attempt);
        proof {
            assert(final(self).store@ =~= challenge_store(
                old(self).store@,
                did@,
                r1@,
                r2@,
                c@,
                token@,
                now as nat,
            ));
        }
        Ok(ChallengeResponse { token, c: c_bytes })
    }

    /// Draws a challenge `c` in `[0, q)` and a fresh token, then files the
    /// challenge as `create_challenge_with` does.
    pub fn create_challenge(&mut self, did: &String, r1: &[u8], r2: &[u8], now: u64) -> (r: Result<
        ChallengeResponse,
        AuthError,
    >)
        requires
            old(self).store.wf(),
        ensures
            final(self).store.wf(),
            final(self).zkp@ == old(self).zkp@,
            match r {
                Ok(resp) => {
                    &&& is_token(resp.token@)
                    &&& be_value(resp.c@) < old(self).zkp@.q
                    &&& canonical(resp.c@)
                    &&& challenge_result(old(self).store@, did@, r1@, r2@, resp.token@) is Ok
                    &&& final(self).store@ == challenge_store(
                        old(self).store@,
                        did@,
                        r1@,
                        r2@,
                        be_value(resp.c@),
                        resp.token@,
                        now as nat,
                    )
                },
                Err(e) => {
                    &&& final(self).store@ == old(self).store@
                    &&& (challenge_precheck(old(self).store@, did@, r1@, r2@) == Err::<(), AuthError>(e)
                        || (challenge_precheck(old(self).store@, did@, r1@, r2@) is Ok && e == AuthError::AlreadyExists))
                    &&& (e == AuthError::AlreadyExists ==> exists|t: Seq<char>|
                        is_token(t) && #[trigger] old(self).store@.attempts.contains_key(t))
                },
            },
    {
        let c = ZKP::generate_random_number_less_than(self.zkp.order());
        let token = generate_token();
        let ghost tok = token@;
        let r = self.create_challenge_with(did, r1, r2, c, token, now);
        proof {
            if r matches Err(AuthError::AlreadyExists) {
                assert(is_token(tok) && old(self).store@.attempts.contains_key(tok));
            }
        }
        r
    }

    /// Drops the pending challenges issued before `cutoff`, so that a stale
    /// challenge can no longer be answered.
    pub fn expire_challenges(&mut self, cutoff: u64)
        requires
            old(self).store.wf(),
        ensures
            final(self).store.wf(),
            final(self).zkp@ == old(self).zkp@,
            final(self).store@.users == old(self).store@.users,
            final(self).store@.attempts == issued_since(old(self).store@.attempts, cutoff as nat),
    {
        self.store.expire_before(cutoff);
    }

    /// Checks the response `s` to the challenge filed under `token` and
    /// consumes the challenge, whatever the verdict. Refused with
    /// `InvalidArgument` when `token` or `s` is empty, with `NotFound` when
    /// no challenge is pending under `token`, and with `PermissionDenied`
    /// when the two-generator check fails.
    pub fn check_solution(&mut self, token: &String, s: &[u8]) -> (r: Result<(), AuthError>)
        requires
            old(self).store.wf(),
        ensures
            final(self).store.wf(),
            final(self).zkp@ == old(self).zkp@,
            r == verify_result(old(self).zkp@, old(self).store@, token@, s@),
            final(self).store@ == verify_store(old(self).store@, token@, s@),
    {
        if token.as_str().is_empty() || s.len() == 0 {
            proof {
                assert(token@.len() == 0 || s@.len() == 0);
            }
            return Err(AuthError::InvalidArgument);
        }
        let attempt = match self.store.take_attempt(token) {
            Some(a) => a,
            None => return Err(AuthError::NotFound),
        };
        let user = match self.store.lookup(&attempt.did) {
            Some(u) => u,
            None => {
                proof {
                    assert(old(self).store@.attempts.contains_key(token@));
                }
                return Err(AuthError::NotFound);
            },
        };
        let sv = BigNat::from_bytes_be(s);
        let ok = self.zkp.verify_solution(&attempt.r1, &attempt.r2, &user.y1, &user.y2, &attempt.c, &sv);
        proof {
            assert(final(self).store@ =~= verify_store(old(self).store@, token@, s@));
        }
        if ok {
            Ok(())
        } else {
            Err(AuthError::PermissionDenied)
        }
    }

    /// Checks the response `s` to the challenge filed under `token` as
    /// `check_solution` does and, when it passes, returns a fresh session
    /// identifier.
    pub fn verify_authentication(&mut self, token: &String, s: &[u8]) -> (r: Result<String, AuthError>)
        requires
            old(self).store.wf(),
        ensures
            final(self).store.wf(),
            final(self).zkp@ == old(self).zkp@,
            final(self).store@ == verify_store(old(self).store@, token@, s@),
            match r {
                Ok(session) => verify_result(old(self).zkp@, old(self).store@, token@, s@) is Ok && is_token(session@),
                Err(e) => verify_result(old(self).zkp@, old(self).store@, token@, s@) == Err::<(), AuthError>(e),
            },
    {
        match self.check_solution(token, s) {
            Ok(()) => Ok(generate_token()),
            Err(e) => Err(e),
        }
    }
}

} // verus!
