//! The identity store: accounts and their registered public-key credentials.
//!
//! In the running service this data lives in the persistence collaborator;
//! the broker only ever reads it through the lookup below. The store here is
//! the in-memory model of that collaborator: plain values, one invariant —
//! a credential's key material maps to at most one account.

use crate::auth::parse_credential_key;
use crate::auth::parsed_key;
use crate::errors::HovelError;
use vstd::prelude::*;

verus! {

/// An account: a human or agent known to the system.
pub struct Account {
    pub id: u64,
    pub name: String,
    pub email: String,
}

/// One registered credential: key material owned by exactly one account.
pub struct Credential {
    pub key: Vec<u8>,
    pub account_id: u64,
}

/// Accounts plus the credential table keyed by public-key material.
pub struct IdentityStore {
    accounts: Vec<Account>,
    credentials: Vec<Credential>,
    next_account_id: u64,
}

impl IdentityStore {
    /// The registered credentials, as (key material, owning account) pairs.
    pub closed spec fn creds(self) -> Seq<(Seq<u8>, u64)> {
        self.credentials@.map(|i: int, c: Credential| (c.key@, c.account_id))
    }

    /// The stored accounts, in creation order, as (id, display name, contact
    /// address) triples.
    pub closed spec fn accounts_view(self) -> Seq<(u64, Seq<char>, Seq<char>)> {
        self.accounts@.map(|i: int, a: Account| (a.id, a.name@, a.email@))
    }

    /// The ids of the accounts, in creation order.
    pub open spec fn account_ids(self) -> Seq<u64> {
        self.accounts_view().map(|i: int, t: (u64, Seq<char>, Seq<char>)| t.0)
    }

    /// Whether `key` is registered key material.
    pub open spec fn has_credential(self, key: Seq<u8>) -> bool {
        exists|i: int| 0 <= i < self.creds().len() && self.creds()[i].0 == key
    }

    /// The account owning registered key material `key`.
    pub open spec fn account_of(self, key: Seq<u8>) -> u64 {
        let i = choose|i: int| 0 <= i < self.creds().len() && self.creds()[i].0 == key;
        self.creds()[i].1
    }

    /// Whether an account with id `id` exists.
    pub open spec fn has_account(self, id: u64) -> bool {
        exists|i: int| 0 <= i < self.account_ids().len() && self.account_ids()[i] == id
    }

    /// No id is left for another account.
    pub closed spec fn at_capacity(self) -> bool {
        self.next_account_id == u64::MAX
    }

    /// Key material maps to at most one account; every credential's owner is
    /// an existing account; account ids are unique and below the id counter.
    pub closed spec fn wf(self) -> bool {
        &&& forall|i: int, j: int|
            0 <= i < j < self.creds().len() ==> self.creds()[i].0 != self.creds()[j].0
        &&& forall|i: int|
            0 <= i < self.creds().len() ==> self.has_account((#[trigger] self.creds()[i]).1)
        &&& forall|i: int, j: int|
            0 <= i < j < self.account_ids().len()
                ==> self.account_ids()[i] != self.account_ids()[j]
        &&& forall|i: int|
            0 <= i < self.account_ids().len()
                ==> #[trigger] self.account_ids()[i] < self.next_account_id
    }

    /// Distinct registered keys sit at distinct indices, so any index holding
    /// `key` owns the account `account_of(key)` names.
    proof fn lemma_account_at_index(self, key: Seq<u8>, i: int)
        requires
            self.wf(),
            0 <= i < self.creds().len(),
            self.creds()[i].0 == key,
        ensures
            self.has_credential(key),
            self.account_of(key) == self.creds()[i].1,
    {
        let j = choose|j: int| 0 <= j < self.creds().len() && self.creds()[j].0 == key;
        if i < j {
            assert(self.creds()[i].0 != self.creds()[j].0);
        } else if j < i {
            assert(self.creds()[j].0 != self.creds()[i].0);
        }
    }

    /// An empty store.
    pub fn new() -> (s: IdentityStore)
        ensures
            s.wf(),
            s.creds() == Seq::<(Seq<u8>, u64)>::empty(),
            s.accounts_view() == Seq::<(u64, Seq<char>, Seq<char>)>::empty(),
            s.account_ids() == Seq::<u64>::empty(),
            !s.at_capacity(),
    {
        let s = IdentityStore { accounts: Vec::new(), credentials: Vec::new(), next_account_id: 1 };
        proof {
            assert(s.creds() =~= Seq::<(Seq<u8>, u64)>::empty());
            assert(s.accounts_view() =~= Seq::<(u64, Seq<char>, Seq<char>)>::empty());
            assert(s.account_ids() =~= Seq::<u64>::empty());
        }
        s
    }

    /// Creates an account with a fresh id, stores it with exactly the given
    /// display name and contact address — owning no credentials yet — and
    /// returns the id; fails only when the id space is exhausted.
    pub fn create_account(&mut self, name: String, email: String) -> (r: Result<u64, HovelError>)
        requires
            old(self).wf(),
        ensures
            final(self).wf(),
            match r {
                Ok(id) => {
                    &&& !old(self).has_account(id)
                    &&& final(self).has_account(id)
                    &&& !old(self).at_capacity()
                    &&& final(self).accounts_view() == old(self).accounts_view().push(
                        (id, name@, email@),
                    )
                    &&& final(self).account_ids() == old(self).account_ids().push(id)
                    &&& final(self).creds() == old(self).creds()
                    &&& forall|i: int|
                        0 <= i < final(self).creds().len()
                            ==> (#[trigger] final(self).creds()[i]).1 != id
                },
                Err(e) => {
                    &&& old(self).at_capacity()
                    &&& final(self).accounts_view() == old(self).accounts_view()
                    &&& final(self).account_ids() == old(self).account_ids()
                    &&& final(self).creds() == old(self).creds()
                    &&& e is InternalServerError
                },
            },
    {
        let ghost pre = *self;
        if self.next_account_id == u64::MAX {
            return Err(HovelError::InternalServerError("account id space exhausted".to_owned()));
        }
        let id = self.next_account_id;
        self.next_account_id = self.next_account_id + 1;
        let ghost gname = name@;
        let ghost gemail = email@;
        self.accounts.push(Account { id, name, email });
        proof {
            assert(self.accounts_view() =~= pre.accounts_view().push((id, gname, gemail)));
            assert(self.account_ids() =~= pre.account_ids().push(id));
            assert(self.creds() =~= pre.creds());
            assert(!pre.has_account(id)) by {
                if pre.has_account(id) {
                    let j = choose|j: int|
                        0 <= j < pre.account_ids().len() && pre.account_ids()[j] == id;
                    assert(pre.account_ids()[j] < id);
                }
            }
            assert forall|i: int, j: int|
                0 <= i < j < self.account_ids().len() implies self.account_ids()[i]
                != self.account_ids()[j] by {
                if j < pre.account_ids().len() {
                    assert(pre.account_ids()[i] != pre.account_ids()[j]);
                } else {
                    assert(pre.account_ids()[i] < id);
                }
            }
            assert(self.account_ids()[pre.account_ids().len() as int] == id);
            assert forall|i: int|
                0 <= i < self.creds().len() implies self.has_account(
                (#[trigger] self.creds()[i]).1,
            ) by {
                assert(pre.has_account(pre.creds()[i].1));
                let j = choose|j: int|
                    0 <= j < pre.account_ids().len() && pre.account_ids()[j] == pre.creds()[i].1;
                assert(self.account_ids()[j] == pre.account_ids()[j]);
            }
            assert forall|i: int|
                0 <= i < self.creds().len() implies (#[trigger] self.creds()[i]).1 != id by {
                assert(pre.has_account(pre.creds()[i].1));
            }
        }
        Ok(id)
    }

    /// Whether an account with this id exists.
    pub fn account_exists(&self, id: u64) -> (b: bool)
        ensures
            b == self.has_account(id),
    {
        let mut i: usize = 0;
        while i < self.accounts.len()
            invariant
                0 <= i <= self.accounts@.len(),
                forall|j: int| 0 <= j < i ==> self.account_ids()[j] != id,
                self.accounts@.len() == self.account_ids().len(),
            decreases self.accounts@.len() - i,
        {
            if self.accounts[i].id == id {
                proof {
                    assert(self.account_ids()[i as int] == id);
                }
                return true;
            }
            i = i + 1;
        }
        false
    }

    /// Index of the credential holding `key`, when one is registered.
    fn find_credential(&self, key: &[u8]) -> (r: Option<usize>)
        ensures
            match r {
                Some(i) => 0 <= i < self.creds().len() && self.creds()[i as int].0 == key@,
                None => !self.has_credential(key@),
            },
    {
        let mut i: usize = 0;
        while i < self.credentials.len()
            invariant
                0 <= i <= self.credentials@.len(),
                forall|j: int| 0 <= j < i ==> self.creds()[j].0 != key@,
                self.credentials@.len() == self.creds().len(),
            decreases self.credentials@.len() - i,
        {
            if bytes_eq(self.credentials[i].key.as_slice(), key) {
                proof {
                    assert(self.creds()[i as int].0 == key@);
                }
                return Some(i);
            }
            i = i + 1;
        }
        None
    }

    /// Looks an account up by already-parsed key material: the sole
    /// authentication primitive.
    pub fn lookup_by_credential(&self, key: &[u8]) -> (r: Option<u64>)
        requires
            self.wf(),
        ensures
            match r {
                Some(id) => self.has_credential(key@) && id == self.account_of(key@),
                None => !self.has_credential(key@),
            },
    {
        match self.find_credential(key) {
            Some(i) => {
                proof {
                    self.lemma_account_at_index(key@, i as int);
                }
                Some(self.credentials[i].account_id)
            },
            None => None,
        }
    }

    /// Registers a raw credential to an account. The stored key is the parsed
    /// key material only — never the algorithm tag or the comment. Fails on a
    /// malformed credential or a duplicate key (`BadRequest`), or on an
    /// unknown account (`NotFound`).
    pub fn add_credential(&mut self, account_id: u64, raw: &[u8]) -> (r: Result<(), HovelError>)
        requires
            old(self).wf(),
        ensures
            final(self).wf(),
            final(self).accounts_view() == old(self).accounts_view(),
            final(self).account_ids() == old(self).account_ids(),
            match r {
                Ok(()) => {
                    &&& parsed_key(raw@) is Some
                    &&& old(self).has_account(account_id)
                    &&& !old(self).has_credential(parsed_key(raw@)->Some_0)
                    &&& final(self).creds() == old(self).creds().push(
                        (parsed_key(raw@)->Some_0, account_id),
                    )
                },
                Err(e) => {
                    &&& final(self).creds() == old(self).creds()
                    &&& match e {
                        HovelError::BadRequest => parsed_key(raw@) is None || old(
                            self,
                        ).has_credential(parsed_key(raw@)->Some_0),
                        HovelError::NotFound => parsed_key(raw@) is Some && !old(
                            self,
                        ).has_credential(parsed_key(raw@)->Some_0) && !old(self).has_account(
                            account_id,
                        ),
                        _ => false,
                    }
                },
            },
    {
        let key = match parse_credential_key(raw) {
            Some(key) => key,
            None => {
                return Err(HovelError::BadRequest);
            },
        };
        if self.find_credential(key.as_slice()).is_some() {
            return Err(HovelError::BadRequest);
        }
        if !self.account_exists(account_id) {
            return Err(HovelError::NotFound);
        }
        let ghost pre = *self;
        let ghost k = key@;
        self.credentials.push(Credential { key, account_id });
        proof {
            assert(self.creds() =~= pre.creds().push((k, account_id)));
            assert forall|i: int, j: int|
                0 <= i < j < self.creds().len() implies self.creds()[i].0
                != self.creds()[j].0 by {
                if j < pre.creds().len() {
                    assert(pre.creds()[i].0 != pre.creds()[j].0);
                } else {
                    assert(!pre.has_credential(k));
                    assert(pre.creds()[i].0 != k);
                }
            }
            assert(self.accounts_view() =~= pre.accounts_view());
            assert forall|i: int|
                0 <= i < self.creds().len() implies self.has_account(
                (#[trigger] self.creds()[i]).1,
            ) by {
                let owner = if i < pre.creds().len() {
                    pre.creds()[i].1
                } else {
                    account_id
                };
                assert(pre.has_account(owner));
                let j = choose|j: int|
                    0 <= j < pre.account_ids().len() && pre.account_ids()[j] == owner;
                assert(self.account_ids()[j] == pre.account_ids()[j]);
            }
        }
        Ok(())
    }

    /// The stored attributes (display name, contact address) of the account
    /// with this id, when one exists.
    pub fn account_attributes(&self, id: u64) -> (r: Option<(String, String)>)
        requires
            self.wf(),
        ensures
            match r {
                Some(t) => exists|i: int|
                    0 <= i < self.accounts_view().len() && #[trigger] self.accounts_view()[i] == (
                        id,
                        t.0@,
                        t.1@,
                    ),
                None => !self.has_account(id),
            },
    {
        let mut i: usize = 0;
        while i < self.accounts.len()
            invariant
                0 <= i <= self.accounts@.len(),
                forall|j: int| 0 <= j < i ==> self.account_ids()[j] != id,
                self.accounts@.len() == self.accounts_view().len(),
            decreases self.accounts@.len() - i,
        {
            let a = &self.accounts[i];
            if a.id == id {
                let t = (a.name.clone(), a.email.clone());
                proof {
                    assert(self.accounts_view()[i as int] == (id, t.0@, t.1@));
                }
                return Some(t);
            }
            i = i + 1;
        }
        None
    }

    /// The key material of every credential the account owns — exactly those,
    /// each once, in registration order.
    pub fn credentials_of(&self, account_id: u64) -> (r: Vec<Vec<u8>>)
        requires
            self.wf(),
        ensures
            forall|j: int|
                0 <= j < r@.len() ==> self.has_credential((#[trigger] r@[j])@) && self.account_of(
                    r@[j]@,
                ) == account_id,
            forall|i: int|
                0 <= i < self.creds().len() && (#[trigger] self.creds()[i]).1 == account_id
                    ==> exists|j: int| 0 <= j < r@.len() && (#[trigger] r@[j])@ == self.creds()[i].0,
            forall|j1: int, j2: int| 0 <= j1 < j2 < r@.len() ==> r@[j1]@ != r@[j2]@,
    {
        let mut r: Vec<Vec<u8>> = Vec::new();
        let ghost mut keys: Seq<Seq<u8>> = Seq::empty();
        let mut i: usize = 0;
        while i < self.credentials.len()
            invariant
                self.wf(),
                0 <= i <= self.credentials@.len(),
                self.credentials@.len() == self.creds().len(),
                r@.len() == keys.len(),
                forall|j: int| 0 <= j < r@.len() ==> (#[trigger] r@[j])@ == keys[j],
                collected_members(self.creds(), account_id, keys, i as int),
                collected_covers(self.creds(), account_id, keys, i as int),
                distinct_keys(keys),
            decreases self.credentials@.len() - i,
        {
            let c = &self.credentials[i];
            if c.account_id == account_id {
                proof {
                    lemma_collect_step_members(self.creds(), account_id, keys, i as int);
                    lemma_collect_step_covers(self.creds(), account_id, keys, i as int);
                    lemma_collect_step_distinct(self.creds(), account_id, keys, i as int);
                    keys = keys.push(self.creds()[i as int].0);
                }
                let ghost r_old = r@;
                let k = clone_key(&c.key);
                r.push(k);
                proof {
                    assert forall|j: int| 0 <= j < r@.len() implies (#[trigger] r@[j])@
                        == keys[j] by {
                        if j < r_old.len() {
                            assert(r@[j] == r_old[j]);
                        }
                    }
                }
            } else {
                proof {
                    assert(self.creds()[i as int].1 != account_id);
                    lemma_collect_skip_members(self.creds(), account_id, keys, i as int);
                    lemma_collect_skip_covers(self.creds(), account_id, keys, i as int);
                }
            }
            i = i + 1;
        }
        proof {
            assert forall|j: int|
                0 <= j < r@.len() implies self.has_credential((#[trigger] r@[j])@)
                && self.account_of(r@[j]@) == account_id by {
                let i0 = choose|i0: int|
                    0 <= i0 < i && (#[trigger] self.creds()[i0]).0 == keys[j]
                        && self.creds()[i0].1 == account_id;
                self.lemma_account_at_index(keys[j], i0);
            }
            assert forall|i0: int|
                0 <= i0 < self.creds().len() && (#[trigger] self.creds()[i0]).1
                == account_id implies exists|j: int|
                0 <= j < r@.len() && (#[trigger] r@[j])@ == self.creds()[i0].0 by {
                let j = choose|j: int| 0 <= j < keys.len() && #[trigger] keys[j] == self.creds()[i0].0;
                assert((r@[j])@ == self.creds()[i0].0);
            }
        }
        r
    }
}

/// Every collected key is owned by the account, among the first `i`
/// credentials.
spec fn collected_members(
    creds: Seq<(Seq<u8>, u64)>,
    account_id: u64,
    keys: Seq<Seq<u8>>,
    i: int,
) -> bool {
    forall|j: int|
        #![trigger keys[j]]
        0 <= j < keys.len() ==> exists|i0: int|
            0 <= i0 < i && (#[trigger] creds[i0]).0 == keys[j] && creds[i0].1 == account_id
}

/// Every key the account owns among the first `i` credentials is collected.
spec fn collected_covers(
    creds: Seq<(Seq<u8>, u64)>,
    account_id: u64,
    keys: Seq<Seq<u8>>,
    i: int,
) -> bool {
    forall|i0: int|
        0 <= i0 < i && (#[trigger] creds[i0]).1 == account_id ==> exists|j: int|
            0 <= j < keys.len() && #[trigger] keys[j] == creds[i0].0
}

/// No key is collected twice.
spec fn distinct_keys(keys: Seq<Seq<u8>>) -> bool {
    forall|j1: int, j2: int|
        #![trigger keys[j1], keys[j2]]
        0 <= j1 < j2 < keys.len() ==> keys[j1] != keys[j2]
}

/// Collecting the key at index `i` — one the account owns — keeps every
/// collected key an owned one.
proof fn lemma_collect_step_members(
    creds: Seq<(Seq<u8>, u64)>,
    account_id: u64,
    keys: Seq<Seq<u8>>,
    i: int,
)
    requires
        0 <= i < creds.len(),
        creds[i].1 == account_id,
        collected_members(creds, account_id, keys, i),
    ensures
        collected_members(creds, account_id, keys.push(creds[i].0), i + 1),
{
    let t = keys.push(creds[i].0);
    assert forall|j: int|
        #![trigger t[j]]
        0 <= j < t.len() implies exists|i0: int|
        0 <= i0 < i + 1 && (#[trigger] creds[i0]).0 == t[j] && creds[i0].1 == account_id by {
        if j < keys.len() {
            assert(t[j] == keys[j]);
            let i0 = choose|i0: int|
                0 <= i0 < i && (#[trigger] creds[i0]).0 == keys[j] && creds[i0].1 == account_id;
            assert(creds[i0].0 == t[j] && creds[i0].1 == account_id);
        } else {
            assert(t[j] == creds[i].0);
            assert(creds[i].0 == t[j] && creds[i].1 == account_id);
        }
    }
}

/// Collecting the key at index `i` keeps every owned key collected.
proof fn lemma_collect_step_covers(
    creds: Seq<(Seq<u8>, u64)>,
    account_id: u64,
    keys: Seq<Seq<u8>>,
    i: int,
)
    requires
        0 <= i < creds.len(),
        collected_covers(creds, account_id, keys, i),
    ensures
        collected_covers(creds, account_id, keys.push(creds[i].0), i + 1),
{
    let t = keys.push(creds[i].0);
    assert forall|i0: int|
        0 <= i0 < i + 1 && (#[trigger] creds[i0]).1 == account_id implies exists|j: int|
        0 <= j < t.len() && #[trigger] t[j] == creds[i0].0 by {
        if i0 < i {
            let j = choose|j: int| 0 <= j < keys.len() && #[trigger] keys[j] == creds[i0].0;
            assert(t[j] == creds[i0].0);
        } else {
            assert(t[t.len() - 1] == creds[i0].0);
        }
    }
}

/// Collecting the key at index `i` introduces no duplicate, given that
/// registered keys never repeat and the collected ones come from earlier
/// indices.
proof fn lemma_collect_step_distinct(
    creds: Seq<(Seq<u8>, u64)>,
    account_id: u64,
    keys: Seq<Seq<u8>>,
    i: int,
)
    requires
        0 <= i < creds.len(),
        forall|a: int, b: int| 0 <= a < b < creds.len() ==> creds[a].0 != creds[b].0,
        collected_members(creds, account_id, keys, i),
        distinct_keys(keys),
    ensures
        distinct_keys(keys.push(creds[i].0)),
{
    let t = keys.push(creds[i].0);
    assert forall|j1: int, j2: int|
        #![trigger t[j1], t[j2]]
        0 <= j1 < j2 < t.len() implies t[j1] != t[j2] by {
        assert(t[j1] == keys[j1]);
        if j2 < keys.len() {
            assert(t[j2] == keys[j2]);
        } else {
            assert(t[j2] == creds[i].0);
            let i0 = choose|i0: int|
                0 <= i0 < i && (#[trigger] creds[i0]).0 == keys[j1] && creds[i0].1 == account_id;
            assert(creds[i0].0 != creds[i].0);
        }
    }
}

/// Skipping the key at index `i` keeps every collected key an owned one.
proof fn lemma_collect_skip_members(
    creds: Seq<(Seq<u8>, u64)>,
    account_id: u64,
    keys: Seq<Seq<u8>>,
    i: int,
)
    requires
        0 <= i < creds.len(),
        creds[i].1 != account_id,
        collected_members(creds, account_id, keys, i),
    ensures
        collected_members(creds, account_id, keys, i + 1),
{
    // Nothing was collected at `i` itself; naming the skipped entry also
    // gives the witness search below a term to start from.
    assert(creds[i].1 != account_id);
    assert forall|j: int|
        #![trigger keys[j]]
        0 <= j < keys.len() implies exists|i0: int|
        0 <= i0 < i + 1 && (#[trigger] creds[i0]).0 == keys[j] && creds[i0].1 == account_id by {
        let i0 = choose|i0: int|
            0 <= i0 < i && (#[trigger] creds[i0]).0 == keys[j] && creds[i0].1 == account_id;
        assert(0 <= i0 < i + 1 && creds[i0].0 == keys[j] && creds[i0].1 == account_id);
    }
}

/// Skipping the key at index `i` — one the account does not own — keeps every
/// owned key collected.
proof fn lemma_collect_skip_covers(
    creds: Seq<(Seq<u8>, u64)>,
    account_id: u64,
    keys: Seq<Seq<u8>>,
    i: int,
)
    requires
        0 <= i < creds.len(),
        creds[i].1 != account_id,
        collected_covers(creds, account_id, keys, i),
    ensures
        collected_covers(creds, account_id, keys, i + 1),
{
    assert forall|i0: int|
        0 <= i0 < i + 1 && (#[trigger] creds[i0]).1 == account_id implies exists|j: int|
        0 <= j < keys.len() && #[trigger] keys[j] == creds[i0].0 by {
        assert(i0 < i);
    }
}

/// Byte-for-byte copy of stored key material.
fn clone_key(src: &Vec<u8>) -> (r: Vec<u8>)
    ensures
        r@ == src@,
{
    let mut r: Vec<u8> = Vec::new();
    let mut i: usize = 0;
    while i < src.len()
        invariant
            0 <= i <= src@.len(),
            r@ == src@.take(i as int),
        decreases src@.len() - i,
    {
        r.push(src[i]);
        proof {
            assert(r@ =~= src@.take(i as int + 1));
        }
        i = i + 1;
    }
    proof {
        assert(src@.take(src@.len() as int) =~= src@);
    }
    r
}

/// Byte-for-byte equality of two byte strings.
pub fn bytes_eq(a: &[u8], b: &[u8]) -> (r: bool)
    ensures
        r == (a@ == b@),
{
    if a.len() != b.len() {
        return false;
    }
    let mut i: usize = 0;
    while i < a.len()
        invariant
            a@.len() == b@.len(),
            0 <= i <= a@.len(),
            forall|j: int| 0 <= j < i ==> a@[j] == b@[j],
        decreases a@.len() - i,
    {
        if a[i] != b[i] {
            return false;
        }
        i = i + 1;
    }
    proof {
        assert(a@ =~= b@);
    }
    true
}

} // verus!
