//! Credential parsing and the authentication decision.
//!
//! A raw credential is the textual two/three-field public-key encoding
//! `algorithm-tag base64-key [comment]`. Only the base64 key material — the
//! second whitespace-separated field — is ever stored or looked up; the tag
//! and any trailing comment are stripped, and surrounding whitespace is
//! tolerated.

use crate::identity::IdentityStore;
use vstd::prelude::*;

verus! {

/// ASCII whitespace separating the fields of a textual credential.
pub open spec fn is_space(b: u8) -> bool {
    b == 32 || b == 9 || b == 13 || b == 10
}

/// `s` without its leading whitespace.
pub open spec fn skip_spaces(s: Seq<u8>) -> Seq<u8>
    decreases s.len(),
{
    if s.len() > 0 && is_space(s[0]) {
        skip_spaces(s.drop_first())
    } else {
        s
    }
}

/// The leading run of non-whitespace bytes of `s`.
pub open spec fn take_field(s: Seq<u8>) -> Seq<u8>
    decreases s.len(),
{
    if s.len() > 0 && !is_space(s[0]) {
        seq![s[0]] + take_field(s.drop_first())
    } else {
        Seq::empty()
    }
}

/// `s` without its leading run of non-whitespace bytes.
pub open spec fn drop_field(s: Seq<u8>) -> Seq<u8>
    decreases s.len(),
{
    if s.len() > 0 && !is_space(s[0]) {
        drop_field(s.drop_first())
    } else {
        s
    }
}

/// The lookup key of a raw credential: its second whitespace-separated field,
/// exactly; `None` when no second field exists.
pub open spec fn parsed_key(s: Seq<u8>) -> Option<Seq<u8>> {
    let key = take_field(skip_spaces(drop_field(skip_spaces(s))));
    if key.len() == 0 {
        None
    } else {
        Some(key)
    }
}

fn is_space_byte(b: u8) -> (r: bool)
    ensures
        r == is_space(b),
{
    b == 32 || b == 9 || b == 13 || b == 10
}

/// First index at or after `from` holding a non-whitespace byte.
fn scan_spaces(raw: &[u8], from: usize) -> (r: usize)
    requires
        from <= raw@.len(),
    ensures
        from <= r <= raw@.len(),
        skip_spaces(raw@.skip(from as int)) == raw@.skip(r as int),
{
    let mut i = from;
    while i < raw.len() && is_space_byte(raw[i])
        invariant
            from <= i <= raw@.len(),
            skip_spaces(raw@.skip(from as int)) == skip_spaces(raw@.skip(i as int)),
        decreases raw@.len() - i,
    {
        proof {
            assert(raw@.skip(i as int)[0] == raw@[i as int]);
            assert(raw@.skip(i as int).drop_first() =~= raw@.skip(i as int + 1));
        }
        i = i + 1;
    }
    proof {
        if i == raw@.len() {
            assert(raw@.skip(i as int) =~= Seq::<u8>::empty());
        }
    }
    i
}

/// First index at or after `from` holding a whitespace byte (or the length).
fn scan_field(raw: &[u8], from: usize) -> (r: usize)
    requires
        from <= raw@.len(),
    ensures
        from <= r <= raw@.len(),
        drop_field(raw@.skip(from as int)) == raw@.skip(r as int),
{
    let mut i = from;
    while i < raw.len() && !is_space_byte(raw[i])
        invariant
            from <= i <= raw@.len(),
            drop_field(raw@.skip(from as int)) == drop_field(raw@.skip(i as int)),
        decreases raw@.len() - i,
    {
        proof {
            assert(raw@.skip(i as int)[0] == raw@[i as int]);
            assert(raw@.skip(i as int).drop_first() =~= raw@.skip(i as int + 1));
        }
        i = i + 1;
    }
    proof {
        if i == raw@.len() {
            assert(raw@.skip(i as int) =~= Seq::<u8>::empty());
        }
    }
    i
}

/// Extracts the lookup key — the second whitespace-separated field — of a raw
/// credential; `None` when the credential is malformed (no second field).
pub fn parse_credential_key(raw: &[u8]) -> (r: Option<Vec<u8>>)
    ensures
        match r {
            Some(k) => parsed_key(raw@) == Some(k@),
            None => parsed_key(raw@) is None,
        },
{
    proof {
        assert(raw@.skip(0) =~= raw@);
    }
    let start_tag = scan_spaces(raw, 0);
    let after_tag = scan_field(raw, start_tag);
    let start_key = scan_spaces(raw, after_tag);
    let mut j = start_key;
    let mut key: Vec<u8> = Vec::new();
    while j < raw.len() && !is_space_byte(raw[j])
        invariant
            start_key <= j <= raw@.len(),
            key@ + take_field(raw@.skip(j as int)) == take_field(raw@.skip(start_key as int)),
            raw@.skip(start_key as int) == skip_spaces(drop_field(skip_spaces(raw@))),
        decreases raw@.len() - j,
    {
        key.push(raw[j]);
        proof {
            assert(raw@.skip(j as int)[0] == raw@[j as int]);
            assert(raw@.skip(j as int).drop_first() =~= raw@.skip(j as int + 1));
            assert(key@ + take_field(raw@.skip(j as int + 1)) =~= take_field(
                raw@.skip(start_key as int),
            ));
        }
        j = j + 1;
    }
    proof {
        if j == raw@.len() {
            assert(raw@.skip(j as int) =~= Seq::<u8>::empty());
        }
        assert(take_field(raw@.skip(j as int)) =~= Seq::<u8>::empty());
        assert(key@ =~= take_field(raw@.skip(start_key as int)));
    }
    if key.len() == 0 {
        None
    } else {
        Some(key)
    }
}

proof fn lemma_skip_spaces_all_space(ws: Seq<u8>, s: Seq<u8>)
    requires
        forall|i: int| 0 <= i < ws.len() ==> is_space(#[trigger] ws[i]),
    ensures
        skip_spaces(ws + s) == skip_spaces(s),
    decreases ws.len(),
{
    if ws.len() == 0 {
        assert(ws + s =~= s);
    } else {
        assert(is_space(ws[0]));
        assert((ws + s)[0] == ws[0]);
        assert((ws + s).drop_first() =~= ws.drop_first() + s);
        assert forall|i: int| 0 <= i < ws.drop_first().len() implies is_space(
            #[trigger] ws.drop_first()[i],
        ) by {
            assert(ws.drop_first()[i] == ws[i + 1]);
        }
        lemma_skip_spaces_all_space(ws.drop_first(), s);
    }
}

proof fn lemma_drop_field_concat(f: Seq<u8>, s: Seq<u8>)
    requires
        forall|i: int| 0 <= i < f.len() ==> !is_space(#[trigger] f[i]),
        s.len() > 0 ==> is_space(s[0]),
    ensures
        drop_field(f + s) == s,
    decreases f.len(),
{
    if f.len() == 0 {
        assert(f + s =~= s);
    } else {
        assert(!is_space(f[0]));
        assert((f + s)[0] == f[0]);
        assert((f + s).drop_first() =~= f.drop_first() + s);
        assert forall|i: int| 0 <= i < f.drop_first().len() implies !is_space(
            #[trigger] f.drop_first()[i],
        ) by {
            assert(f.drop_first()[i] == f[i + 1]);
        }
        lemma_drop_field_concat(f.drop_first(), s);
    }
}

proof fn lemma_take_field_concat(f: Seq<u8>, s: Seq<u8>)
    requires
        forall|i: int| 0 <= i < f.len() ==> !is_space(#[trigger] f[i]),
        s.len() > 0 ==> is_space(s[0]),
    ensures
        take_field(f + s) == f,
    decreases f.len(),
{
    if f.len() == 0 {
        assert(f + s =~= s);
        assert(take_field(s) =~= f);
    } else {
        assert(!is_space(f[0]));
        assert((f + s)[0] == f[0]);
        assert((f + s).drop_first() =~= f.drop_first() + s);
        assert forall|i: int| 0 <= i < f.drop_first().len() implies !is_space(
            #[trigger] f.drop_first()[i],
        ) by {
            assert(f.drop_first()[i] == f[i + 1]);
        }
        lemma_take_field_concat(f.drop_first(), s);
        assert(take_field(f + s) =~= seq![f[0]] + f.drop_first());
        assert(seq![f[0]] + f.drop_first() =~= f);
    }
}

/// For every credential of the form `tag key [comment]` — a non-empty tag, a
/// non-empty key, any surrounding whitespace, the comment absent or separated
/// by whitespace — the parser extracts exactly the middle field.
pub proof fn lemma_parser_extracts_middle_field(
    ws1: Seq<u8>,
    tag: Seq<u8>,
    ws2: Seq<u8>,
    key: Seq<u8>,
    rest: Seq<u8>,
)
    requires
        forall|i: int| 0 <= i < ws1.len() ==> is_space(#[trigger] ws1[i]),
        tag.len() > 0,
        forall|i: int| 0 <= i < tag.len() ==> !is_space(#[trigger] tag[i]),
        ws2.len() > 0,
        forall|i: int| 0 <= i < ws2.len() ==> is_space(#[trigger] ws2[i]),
        key.len() > 0,
        forall|i: int| 0 <= i < key.len() ==> !is_space(#[trigger] key[i]),
        rest.len() > 0 ==> is_space(rest[0]),
    ensures
        parsed_key(ws1 + tag + ws2 + key + rest) == Some(key),
{
    let w = ws1 + tag + ws2 + key + rest;
    let x1 = tag + (ws2 + (key + rest));
    let x2 = ws2 + (key + rest);
    let x3 = key + rest;
    assert(w =~= ws1 + x1);
    lemma_skip_spaces_all_space(ws1, x1);
    assert(x1[0] == tag[0]);
    assert(!is_space(x1[0]));
    assert(skip_spaces(x1) == x1);
    assert(x2[0] == ws2[0]);
    lemma_drop_field_concat(tag, x2);
    lemma_skip_spaces_all_space(ws2, x3);
    assert(x3[0] == key[0]);
    assert(skip_spaces(x3) == x3);
    lemma_take_field_concat(key, rest);
}

/// The outcome of one authentication attempt.
#[derive(Clone, Copy, Debug, PartialEq, Eq, Structural)]
pub enum AuthDecision {
    /// The credential's key material is registered: the connection is in.
    Accept,
    /// Malformed or unregistered: rejected, indistinguishably, so that the
    /// outcome never leaks which of the two it was.
    Reject,
    /// The method itself (a password) is never acceptable.
    Unsupported,
}

/// The one decision both handshake phases make for a raw public-key
/// credential: accept exactly when its parsed key material is registered.
pub open spec fn decision_for(store: IdentityStore, raw: Seq<u8>) -> AuthDecision {
    match parsed_key(raw) {
        Some(k) => if store.has_credential(k) {
            AuthDecision::Accept
        } else {
            AuthDecision::Reject
        },
        None => AuthDecision::Reject,
    }
}

/// Decides one public-key authentication attempt. Stateless: reads through
/// the store and mutates nothing.
pub fn authenticate(store: &IdentityStore, raw: &[u8]) -> (d: AuthDecision)
    requires
        store.wf(),
    ensures
        d == decision_for(*store, raw@),
{
    match parse_credential_key(raw) {
        Some(key) => match store.lookup_by_credential(key.as_slice()) {
            Some(_) => AuthDecision::Accept,
            None => AuthDecision::Reject,
        },
        None => AuthDecision::Reject,
    }
}

/// The "offered" phase of the two-phase handshake. The account hint the
/// transport passes along is ignored: lookup is by key material alone.
pub fn authenticate_offered(store: &IdentityStore, _account_hint: &str, raw: &[u8]) -> (d:
    AuthDecision)
    requires
        store.wf(),
    ensures
        d == decision_for(*store, raw@),
{
    authenticate(store, raw)
}

/// The "final" phase of the handshake: the identical lookup and the identical
/// decision as the offered phase, for every credential.
pub fn authenticate_final(store: &IdentityStore, _account_hint: &str, raw: &[u8]) -> (d:
    AuthDecision)
    requires
        store.wf(),
    ensures
        d == decision_for(*store, raw@),
{
    authenticate(store, raw)
}

/// Password authentication is unsupported by fixed policy: the broker is
/// public-key-only.
pub fn authenticate_password(_account_hint: &str, _password: &str) -> (d: AuthDecision)
    ensures
        d == AuthDecision::Unsupported,
{
    AuthDecision::Unsupported
}

/// Authentication is a pure function of the store and the raw credential: a
/// credential whose parsed key material is registered is accepted, and every
/// other credential — unregistered or malformed, indistinguishably — is
/// rejected. Both handshake phases return this same decision, so repeating an
/// attempt with the same input repeats its outcome.
pub proof fn lemma_authentication_decision(store: IdentityStore, raw: Seq<u8>)
    ensures
        (parsed_key(raw) matches Some(k) && store.has_credential(k)) ==> decision_for(store, raw)
            == AuthDecision::Accept,
        !(parsed_key(raw) matches Some(k) && store.has_credential(k)) ==> decision_for(store, raw)
            == AuthDecision::Reject,
{
}

} // verus!
