//! The verifier's bookkeeping: the public commitment of each identity and
//! one independent record per pending challenge, filed under its token.

use crate::bignat::BigNat;
use crate::keyed::{
    distinct_keys, keyed_map, lemma_keyed_map_domain, lemma_keyed_map_get, lemma_keyed_map_push,
    lemma_keyed_map_remove, Keyed,
};
use vstd::prelude::*;

verus! {

/// A registered public commitment `(y1, y2) = (alpha^x, beta^x)`.
pub struct Commitment {
    pub y1: nat,
    pub y2: nat,
}

/// An identity with its public commitment.
pub struct UserInformation {
    pub did: String,
    pub y1: BigNat,
    pub y2: BigNat,
}

impl View for UserInformation {
    type V = Commitment;

    open spec fn view(&self) -> Commitment {
        Commitment { y1: self.y1@, y2: self.y2@ }
    }
}

impl Keyed for UserInformation {
    open spec fn key(&self) -> Seq<char> {
        self.did@
    }
}

/// A pending challenge as numbers: who asked, the prover's commitment
/// `(r1, r2)`, the challenge `c` and when it was issued.
pub struct AttemptView {
    pub did: Seq<char>,
    pub r1: nat,
    pub r2: nat,
    pub c: nat,
    pub issued_at: nat,
}

/// One pending challenge, filed under its token.
pub struct ChallengeAttempt {
    pub token: String,
    pub did: String,
    pub r1: BigNat,
    pub r2: BigNat,
    pub c: BigNat,
    pub issued_at: u64,
}

impl View for ChallengeAttempt {
    type V = AttemptView;

    open spec fn view(&self) -> AttemptView {
        AttemptView {
            did: self.did@,
            r1: self.r1@,
            r2: self.r2@,
            c: self.c@,
            issued_at: self.issued_at as nat,
        }
    }
}

impl ChallengeAttempt {
    /// A copy of the record.
    pub fn duplicate(&self) -> (r: ChallengeAttempt)
        ensures
            r@ == self@,
            r.token@ == self.token@,
    {
        ChallengeAttempt {
            token: self.token.clone(),
            did: self.did.clone(),
            r1: self.r1.clone(),
            r2: self.r2.clone(),
            c: self.c.clone(),
            issued_at: self.issued_at,
        }
    }
}

impl Keyed for ChallengeAttempt {
    open spec fn key(&self) -> Seq<char> {
        self.token@
    }
}

/// The store as maps: identity to commitment, token to pending challenge.
pub struct StoreView {
    pub users: Map<Seq<char>, Commitment>,
    pub attempts: Map<Seq<char>, AttemptView>,
}

impl StoreView {
    /// Every pending challenge belongs to a registered identity.
    pub open spec fn consistent(&self) -> bool {
        forall|t: Seq<char>| #[trigger]
            self.attempts.contains_key(t) ==> self.users.contains_key(self.attempts[t].did)
    }
}

/// The pending challenges issued at `cutoff` or later.
pub open spec fn issued_since(m: Map<Seq<char>, AttemptView>, cutoff: nat) -> Map<Seq<char>, AttemptView> {
    Map::new(|t: Seq<char>| m.contains_key(t) && m[t].issued_at >= cutoff, |t: Seq<char>| m[t])
}

/// Commitments by identity and pending challenges by token.
pub struct SessionStore {
    users: Vec<UserInformation>,
    attempts: Vec<ChallengeAttempt>,
}

impl View for SessionStore {
    type V = StoreView;

    closed spec fn view(&self) -> StoreView {
        StoreView { users: keyed_map(self.users@), attempts: keyed_map(self.attempts@) }
    }
}

impl SessionStore {
    /// Keys are unique in both tables and every pending challenge belongs to
    /// a registered identity.
    pub closed spec fn wf(&self) -> bool {
        &&& distinct_keys(self.users@)
        &&& distinct_keys(self.attempts@)
        &&& self@.consistent()
    }

    /// An empty store.
    pub fn new() -> (r: SessionStore)
        ensures
            r.wf(),
            r@.users == Map::<Seq<char>, Commitment>::empty(),
            r@.attempts == Map::<Seq<char>, AttemptView>::empty(),
    {
        let r = SessionStore { users: Vec::new(), attempts: Vec::new() };
        assert(r@.attempts =~= Map::<Seq<char>, AttemptView>::empty());
        r
    }

    fn find_user(&self, did: &String) -> (r: Option<usize>)
        ensures
            match r {
                Some(i) => i < self.users@.len() && self.users@[i as int].did@ == did@,
                None => !self@.users.contains_key(did@),
            },
    {
        let n = self.users.len();
        let mut i: usize = 0;
        while i < n
            invariant
                n == self.users@.len(),
                i <= n,
                forall|j: int| 0 <= j < i ==> #[trigger] self.users@[j].did@ != did@,
            decreases n - i,
        {
            if self.users[i].did == *did {
                return Some(i);
            }
            i = i + 1;
        }
        proof {
            lemma_keyed_map_domain(self.users@, did@);
            if self@.users.contains_key(did@) {
                let j = choose|j: int| 0 <= j < self.users@.len() && #[trigger] self.users@[j].key() == did@;
                assert(self.users@[j].did@ == did@);
            }
        }
        None
    }

    fn find_attempt(&self, token: &String) -> (r: Option<usize>)
        ensures
            match r {
                Some(i) => i < self.attempts@.len() && self.attempts@[i as int].token@ == token@,
                None => !self@.attempts.contains_key(token@),
            },
    {
        let n = self.attempts.len();
        let mut i: usize = 0;
        while i < n
            invariant
                n == self.attempts@.len(),
                i <= n,
                forall|j: int| 0 <= j < i ==> #[trigger] self.attempts@[j].token@ != token@,
            decreases n - i,
        {
            if self.attempts[i].token == *token {
                return Some(i);
            }
            i = i + 1;
        }
        proof {
            lemma_keyed_map_domain(self.attempts@, token@);
            if self@.attempts.contains_key(token@) {
                let j = choose|j: int|
                    0 <= j < self.attempts@.len() && #[trigger] self.attempts@[j].key() == token@;
                assert(self.attempts@[j].token@ == token@);
            }
        }
        None
    }

    /// Whether `did` has a registered commitment.
    pub fn is_registered(&self, did: &String) -> (r: bool)
        requires
            self.wf(),
        ensures
            r == self@.users.contains_key(did@),
    {
        match self.find_user(did) {
            Some(i) => {
                proof {
                    lemma_keyed_map_get(self.users@, i as int);
                }
                true
            },
            None => false,
        }
    }

    /// Whether a challenge is pending under `token`.
    pub fn has_attempt(&self, token: &String) -> (r: bool)
        requires
            self.wf(),
        ensures
            r == self@.attempts.contains_key(token@),
    {
        match self.find_attempt(token) {
            Some(i) => {
                proof {
                    lemma_keyed_map_get(self.attempts@, i as int);
                }
                true
            },
            None => false,
        }
    }

    /// The registered record of `did`, if any.
    pub fn lookup(&self, did: &String) -> (r: Option<&UserInformation>)
        requires
            self.wf(),
        ensures
            match r {
                Some(u) => self@.users.contains_key(did@) && self@.users[did@] == u@,
                None => !self@.users.contains_key(did@),
            },
    {
        match self.find_user(did) {
            Some(i) => {
                proof {
                    lemma_keyed_map_get(self.users@, i as int);
                }
                Some(&self.users[i])
            },
            None => None,
        }
    }

    /// Stores the commitment of `did`, replacing any earlier one; pending
    /// challenges are kept.
    pub fn register(&mut self, did: String, y1: BigNat, y2: BigNat)
        requires
            old(self).wf(),
        ensures
            final(self).wf(),
            final(self)@.users == old(self)@.users.insert(did@, Commitment { y1: y1@, y2: y2@ }),
            final(self)@.attempts == old(self)@.attempts,
    {
        let ghost old_users = self@.users;
        let ghost old_view = self@;
        assert(old_view.consistent());
        let found = self.find_user(&did);
        match found {
            Some(i) => {
                proof {
                    lemma_keyed_map_get(self.users@, i as int);
                    lemma_keyed_map_remove(self.users@, i as int);
                }
                self.users.remove(i);
            },
            None => {},
        }
        let ghost mid_users = keyed_map(self.users@);
        assert(mid_users == old_users.remove(did@));
        let u = UserInformation { did, y1, y2 };
        proof {
            lemma_keyed_map_push(self.users@, u);
        }
        self.users.push(u);
        proof {
            assert(self@.users =~= old_users.insert(u.did@, u@));
            assert(self@.consistent()) by {
                assert forall|t: Seq<char>| #[trigger] self@.attempts.contains_key(t) implies self@.users.contains_key(
                    self@.attempts[t].did,
                ) by {
                    assert(old_view.attempts.contains_key(t));
                    assert(old_users.contains_key(self@.attempts[t].did));
                }
            }
        }
    }

    /// Files a new pending challenge under its token.
    pub fn insert_attempt(&mut self, a: ChallengeAttempt)
        requires
            old(self).wf(),
            !old(self)@.attempts.contains_key(a.token@),
            old(self)@.users.contains_key(a.did@),
        ensures
            final(self).wf(),
            final(self)@.users == old(self)@.users,
            final(self)@.attempts == old(self)@.attempts.insert(a.token@, a@),
    {
        proof {
            lemma_keyed_map_push(self.attempts@, a);
        }
        let ghost old_view = self@;
        self.attempts.push(a);
        proof {
            assert(self@.consistent()) by {
                assert forall|t: Seq<char>| #[trigger] self@.attempts.contains_key(t) implies self@.users.contains_key(
                    self@.attempts[t].did,
                ) by {
                    if t != a.token@ {
                        assert(old_view.attempts.contains_key(t));
                    }
                }
            }
        }
    }

    /// Removes and returns the pending challenge filed under `token`.
    pub fn take_attempt(&mut self, token: &String) -> (r: Option<ChallengeAttempt>)
        requires
            old(self).wf(),
        ensures
            final(self).wf(),
            old(self)@.consistent(),
            final(self)@.users == old(self)@.users,
            match r {
                Some(a) => {
                    &&& old(self)@.attempts.contains_key(token@)
                    &&& old(self)@.attempts[token@] == a@
                    &&& a.token@ == token@
                    &&& final(self)@.attempts == old(self)@.attempts.remove(token@)
                },
                None => {
                    &&& !old(self)@.attempts.contains_key(token@)
                    &&& final(self)@.attempts == old(self)@.attempts
                },
            },
    {
        let ghost old_view = self@;
        match self.find_attempt(token) {
            Some(i) => {
                proof {
                    lemma_keyed_map_get(self.attempts@, i as int);
                    lemma_keyed_map_remove(self.attempts@, i as int);
                }
                let a = self.attempts.remove(i);
                proof {
                    assert(self@.consistent()) by {
                        assert forall|t: Seq<char>| #[trigger] self@.attempts.contains_key(t) implies self@.users.contains_key(
                            self@.attempts[t].did,
                        ) by {
                            assert(old_view.attempts.contains_key(t));
                        }
                    }
                }
                Some(a)
            },
            None => None,
        }
    }

    /// Drops the pending challenges issued before `cutoff`; their tokens
    /// are then unknown.
    pub fn expire_before(&mut self, cutoff: u64)
        requires
            old(self).wf(),
        ensures
            final(self).wf(),
            final(self)@.users == old(self)@.users,
            final(self)@.attempts == issued_since(old(self)@.attempts, cutoff as nat),
    {
        let ghost a = self.attempts@;
        let ghost old_view = self@;
        let mut kept: Vec<ChallengeAttempt> = Vec::new();
        let n = self.attempts.len();
        let mut i: usize = 0;
        proof {
            assert(a.subrange(0, 0) =~= Seq::<ChallengeAttempt>::empty());
            assert(keyed_map(kept@) =~= issued_since(keyed_map(a.subrange(0, 0)), cutoff as nat));
        }
        while i < n
            invariant
                n == a.len(),
                a == self.attempts@,
                distinct_keys(a),
                i <= n,
                distinct_keys(kept@),
                keyed_map(kept@) == issued_since(keyed_map(a.subrange(0, i as int)), cutoff as nat),
            decreases n - i,
        {
            let ghost prefix = a.subrange(0, i as int);
            let ghost next = a.subrange(0, i + 1);
            proof {
                assert(next.drop_last() =~= prefix);
                assert(next.last() == a[i as int]);
                assert(!keyed_map(prefix).contains_key(a[i as int].key())) by {
                    lemma_keyed_map_domain(prefix, a[i as int].key());
                    if exists|j: int| 0 <= j < prefix.len() && #[trigger] prefix[j].key() == a[i as int].key() {
                        let j = choose|j: int| 0 <= j < prefix.len() && #[trigger] prefix[j].key() == a[i as int].key();
                        assert(prefix[j] == a[j]);
                    }
                }
            }
            if self.attempts[i].issued_at >= cutoff {
                let copy = self.attempts[i].duplicate();
                proof {
                    lemma_keyed_map_push(kept@, copy);
                }
                kept.push(copy);
                proof {
                    assert(keyed_map(kept@) =~= issued_since(keyed_map(next), cutoff as nat));
                }
            } else {
                proof {
                    assert(keyed_map(kept@) =~= issued_since(keyed_map(next), cutoff as nat));
                }
            }
            i = i + 1;
        }
        proof {
            assert(a.subrange(0, n as int) =~= a);
        }
        self.attempts = kept;
        proof {
            assert(self@.consistent()) by {
                assert forall|t: Seq<char>| #[trigger] self@.attempts.contains_key(t) implies self@.users.contains_key(
                    self@.attempts[t].did,
                ) by {
                    assert(old_view.attempts.contains_key(t));
                }
            }
        }
    }
}

} // verus!
