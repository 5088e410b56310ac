//! Optional single-user authentication.
//!
//! One credential pair guards the web interface. A login is answered with a
//! signed, stateless session cookie, `<expiry>.<HMAC-SHA256(secret, expiry)>`,
//! which every later request is checked against. The signing secret is random
//! and kept in the store, so sessions survive restarts.

use hmac::{Hmac, Mac};
use sha2::Sha256;
use vstd::prelude::*;
use vstd::string::*;

use crate::{hex, num, text};

verus! {

/// How long a session cookie stays valid, in seconds: thirty days.
pub const SESSION_TTL: u64 = 2_592_000;

/// Name of the session cookie.
pub const COOKIE_NAME: &'static str = "dockdoe_session";

/// Number of bytes in a session secret.
pub const SECRET_LEN: usize = 32;

// ---------------------------------------------------------------------------
// The outside calls
// ---------------------------------------------------------------------------

/// The HMAC-SHA256 tag of a message under a key, as the `hmac` and `sha2`
/// crates compute it.
pub uninterp spec fn hmac_sha256(key: Seq<u8>, message: Seq<u8>) -> Seq<u8>;

/// `hmac::Mac::finalize` of an `Hmac<Sha256>` keyed with `key` that was fed
/// `message`. The tag is the one that [`hmac_sha256`] names, and has 32 bytes.
/// HMAC takes a key of any length, so making the instance does not fail.
#[verifier::external_body]
fn mac_tag(key: &[u8], message: &[u8]) -> (tag: Vec<u8>)
    ensures
        tag@ == hmac_sha256(key@, message@),
        tag@.len() == 32,
{
    let mut mac = Hmac::<Sha256>::new_from_slice(key).expect("HMAC accepts any key length");
    mac.update(message);
    mac.finalize().into_bytes().to_vec()
}

/// `hmac::Mac::verify_slice` of an `Hmac<Sha256>` keyed with `key` that was fed
/// `message`. It accepts a tag exactly when it equals the full tag that
/// [`hmac_sha256`] names; the comparison takes constant time.
#[verifier::external_body]
fn mac_matches(key: &[u8], message: &[u8], tag: &[u8]) -> (r: bool)
    ensures
        r == (tag@ == hmac_sha256(key@, message@)),
{
    let mut mac = Hmac::<Sha256>::new_from_slice(key).expect("HMAC accepts any key length");
    mac.update(message);
    mac.verify_slice(tag).is_ok()
}

/// `getrandom::Error`, which is only carried.
#[verifier::external_type_specification]
#[verifier::external_body]
pub struct ExRandomError(getrandom::Error);

/// `getrandom::fill` on a buffer of `n` bytes. On success all `n` bytes were
/// filled; which bytes they are is left to chance, and so is success. The bound
/// on `n` keeps the buffer allocatable.
#[verifier::external_body]
fn random_bytes(n: usize) -> (r: Result<Vec<u8>, getrandom::Error>)
    requires
        n <= 0x1_0000,
    ensures
        r matches Ok(bytes) ==> bytes@.len() == n,
{
    let mut buf = vec![0u8; n];
    getrandom::fill(&mut buf)?;
    Ok(buf)
}

// ---------------------------------------------------------------------------
// What tokens, cookies and credentials are
// ---------------------------------------------------------------------------

/// The token that carries an expiry and a tag.
pub open spec fn token_of(expiry: nat, tag: Seq<u8>) -> Seq<char> {
    num::dec(expiry).push('.') + hex::hex(tag)
}

/// The tag of a session that ends at `expiry`.
pub open spec fn session_tag(secret: Seq<u8>, expiry: nat) -> Seq<u8> {
    hmac_sha256(secret, vstd::utf8::encode_utf8(num::dec(expiry)))
}

/// The signed token of a session that ends at `expiry`.
pub open spec fn session_token(secret: Seq<u8>, expiry: nat) -> Seq<char> {
    token_of(expiry, session_tag(secret, expiry))
}

/// What a token claims, if it has the form of one and ends after `now`: its
/// expiry as written, and its tag.
pub open spec fn claim_of(token: Seq<char>, now: int) -> Option<(Seq<char>, Seq<u8>)> {
    match text::cut_first(token, '.') {
        None => None,
        Some((expiry, sig)) => match (num::parsed(expiry, u64::MAX as int), hex::unhex(sig)) {
            (Some(end), Some(tag)) => if now < end {
                Some((expiry, tag))
            } else {
                None
            },
            _ => None,
        },
    }
}

/// Whether `token` is signed with `secret` and ends after `now`.
pub open spec fn token_accepted(secret: Seq<u8>, token: Seq<char>, now: int) -> bool {
    match claim_of(token, now) {
        None => false,
        Some((expiry, tag)) => tag == hmac_sha256(secret, vstd::utf8::encode_utf8(expiry)),
    }
}

/// The bytes that stand for a credential pair: the two fields, a zero between.
pub open spec fn credential_message(user: Seq<char>, password: Seq<char>) -> Seq<u8> {
    vstd::utf8::encode_utf8(user).push(0) + vstd::utf8::encode_utf8(password)
}

/// Whether a submitted pair has the tag of the configured pair.
pub open spec fn credentials_accepted(
    secret: Seq<u8>,
    configured: (Seq<char>, Seq<char>),
    submitted: (Seq<char>, Seq<char>),
) -> bool {
    hmac_sha256(secret, credential_message(submitted.0, submitted.1)) == hmac_sha256(
        secret,
        credential_message(configured.0, configured.1),
    )
}

/// A `Set-Cookie` value that carries `token` for `max_age` seconds.
pub open spec fn cookie_text(token: Seq<char>, max_age: nat, secure: bool) -> Seq<char> {
    let base = COOKIE_NAME@.push('=') + token + "; HttpOnly; SameSite=Lax; Path=/; Max-Age="@
        + num::dec(max_age);
    if secure {
        base + "; Secure"@
    } else {
        base
    }
}

/// The value of the first of `parts` that names `name`.
pub open spec fn first_value(parts: Seq<Seq<char>>, name: Seq<char>) -> Option<Seq<char>>
    decreases parts.len(),
{
    if parts.len() == 0 {
        None
    } else {
        match text::cut_first(text::trimmed(parts[0]), '=') {
            Some((k, v)) => if k == name {
                Some(v)
            } else {
                first_value(parts.skip(1), name)
            },
            None => first_value(parts.skip(1), name),
        }
    }
}

/// The value of `name` in a `Cookie` header.
pub open spec fn cookie_lookup(header: Seq<char>, name: Seq<char>) -> Option<Seq<char>> {
    first_value(text::pieces(header, ';'), name)
}

// ---------------------------------------------------------------------------
// Secrets and the authentication state
// ---------------------------------------------------------------------------

/// The operating system's random source is unavailable.
#[derive(Clone, Copy, Debug, PartialEq, Eq, Structural)]
pub struct RandomUnavailable;

/// Fresh random bytes for use as the session secret.
///
/// Which bytes come back, and whether any do, is up to the operating system;
/// that a secret has [`SECRET_LEN`] of them is not. [`secret_from`] says what
/// each outcome of the draw is answered with.
pub fn generate_secret() -> (r: Result<Vec<u8>, RandomUnavailable>)
    ensures
        r matches Ok(secret) ==> secret@.len() == SECRET_LEN,
{
    secret_from(random_bytes(SECRET_LEN))
}

/// The session secret that a draw of random bytes amounts to: the bytes as they
/// were drawn, and no secret exactly when the draw failed.
pub fn secret_from(drawn: Result<Vec<u8>, getrandom::Error>) -> (r: Result<
    Vec<u8>,
    RandomUnavailable,
>)
    ensures
        match drawn {
            Ok(bytes) => r == Ok::<Vec<u8>, RandomUnavailable>(bytes),
            Err(_) => r == Err::<Vec<u8>, RandomUnavailable>(RandomUnavailable),
        },
{
    match drawn {
        Ok(bytes) => Ok(bytes),
        Err(_) => Err(RandomUnavailable),
    }
}

/// Authentication state; present only when both credentials are configured.
#[derive(Clone)]
pub struct Auth {
    user: String,
    password: String,
    secret: Vec<u8>,
    secure_cookie: bool,
}

impl Auth {
    /// The configured user name.
    pub closed spec fn user(&self) -> Seq<char> {
        self.user@
    }

    /// The configured password.
    pub closed spec fn password(&self) -> Seq<char> {
        self.password@
    }

    /// The signing secret.
    pub closed spec fn secret(&self) -> Seq<u8> {
        self.secret@
    }

    /// Whether cookies are marked `Secure`.
    pub closed spec fn secure_cookie(&self) -> bool {
        self.secure_cookie
    }

    /// The state for one credential pair.
    pub fn new(user: String, password: String, secret: Vec<u8>, secure_cookie: bool) -> (r: Self)
        ensures
            r.user() == user@,
            r.password() == password@,
            r.secret() == secret@,
            r.secure_cookie() == secure_cookie,
    {
        Self { user, password, secret, secure_cookie }
    }

    /// Whether the submitted credentials have the tag of the configured pair.
    pub fn credentials_valid(&self, user: &str, password: &str) -> (r: bool)
        ensures
            r == credentials_accepted(
                self.secret(),
                (self.user(), self.password()),
                (user@, password@),
            ),
    {
        let expected = self.credential_tag(self.user.as_str(), self.password.as_str());
        let message = credential_bytes(user, password);
        mac_matches(self.secret.as_slice(), message.as_slice(), expected.as_slice())
    }

    /// `Set-Cookie` value for a fresh session that lasts [`SESSION_TTL`].
    pub fn issue_cookie(&self, now_unix: u64) -> (r: String)
        requires
            now_unix + SESSION_TTL <= u64::MAX,
        ensures
            r@ == cookie_text(
                session_token(self.secret(), (now_unix + SESSION_TTL) as nat),
                SESSION_TTL as nat,
                self.secure_cookie(),
            ),
            session_tag(self.secret(), (now_unix + SESSION_TTL) as nat).len() == 32,
    {
        let expiry: u64 = now_unix + SESSION_TTL;
        let token = self.sign(expiry);
        self.cookie(token.as_str(), SESSION_TTL)
    }

    /// `Set-Cookie` value that ends the session at once.
    pub fn clear_cookie(&self) -> (r: String)
        ensures
            r@ == cookie_text(Seq::empty(), 0, self.secure_cookie()),
    {
        proof {
            reveal_strlit("");
            assert(""@ =~= Seq::empty());
        }
        self.cookie("", 0)
    }

    /// Whether `token` is a correctly signed session token that has not ended.
    pub fn token_valid(&self, token: &str, now_unix: u64) -> (r: bool)
        ensures
            r == token_accepted(self.secret(), token@, now_unix as int),
    {
        match token_claim(token, now_unix) {
            Some((expiry, tag)) => mac_matches(
                self.secret.as_slice(),
                expiry.as_bytes(),
                tag.as_slice(),
            ),
            None => false,
        }
    }

    /// The signed token of a session that ends at `expiry`.
    pub fn sign(&self, expiry: u64) -> (r: String)
        ensures
            r@ == session_token(self.secret(), expiry as nat),
            session_tag(self.secret(), expiry as nat).len() == 32,
    {
        let stamp = num::decimal(expiry);
        let tag = mac_tag(self.secret.as_slice(), stamp.as_str().as_bytes());
        token_text(expiry, tag.as_slice())
    }

    fn cookie(&self, token: &str, max_age: u64) -> (r: String)
        ensures
            r@ == cookie_text(token@, max_age as nat, self.secure_cookie()),
    {
        let mut c = COOKIE_NAME.to_owned();
        c.push('=');
        c.append(token);
        c.append("; HttpOnly; SameSite=Lax; Path=/; Max-Age=");
        let age = num::decimal(max_age);
        c.append(age.as_str());
        if self.secure_cookie {
            c.append("; Secure");
        }
        c
    }

    fn credential_tag(&self, user: &str, password: &str) -> (tag: Vec<u8>)
        ensures
            tag@ == hmac_sha256(self.secret(), credential_message(user@, password@)),
    {
        let message = credential_bytes(user, password);
        mac_tag(self.secret.as_slice(), message.as_slice())
    }
}

/// The token that carries an expiry and a tag.
pub fn token_text(expiry: u64, tag: &[u8]) -> (r: String)
    ensures
        r@ == token_of(expiry as nat, tag@),
{
    let mut out = num::decimal(expiry);
    out.push('.');
    let sig = hex::encode_hex(tag);
    out.append(sig.as_str());
    out
}

/// What a token claims, if it has the form of one and ends after `now_unix`: its
/// expiry as written, and its tag, which is yet to be checked.
pub fn token_claim<'a>(token: &'a str, now_unix: u64) -> (r: Option<(&'a str, Vec<u8>)>)
    ensures
        match r {
            Some((expiry, tag)) => claim_of(token@, now_unix as int) == Some((expiry@, tag@)),
            None => claim_of(token@, now_unix as int) is None,
        },
{
    let (expiry_str, sig) = match text::split_once(token, '.') {
        Some(parts) => parts,
        None => {
            return None;
        },
    };
    let expiry: u64 = match num::parse_u64(expiry_str) {
        Some(n) => n,
        None => {
            return None;
        },
    };
    if expiry <= now_unix {
        return None;
    }
    match hex::decode_hex(sig) {
        Ok(tag) => Some((expiry_str, tag)),
        Err(_) => None,
    }
}

/// The bytes that stand for a credential pair.
fn credential_bytes(user: &str, password: &str) -> (r: Vec<u8>)
    ensures
        r@ == credential_message(user@, password@),
{
    let mut out = user.as_bytes_vec();
    out.push(0);
    let mut rest = password.as_bytes_vec();
    out.append(&mut rest);
    out
}

/// The value of `name` in a `Cookie` header, if present.
pub fn cookie_value<'a>(header: &'a str, name: &str) -> (r: Option<&'a str>)
    ensures
        text::opt_slice_view(r) == cookie_lookup(header@, name@),
{
    let parts = text::split(header, ';');
    let ghost all = text::slice_views(parts@);
    let mut i: usize = 0;
    proof {
        assert(all.skip(0) =~= all);
    }
    while i < parts.len()
        invariant
            i <= parts.len(),
            all == text::slice_views(parts@),
            first_value(all.skip(i as int), name@) == cookie_lookup(header@, name@),
        decreases parts.len() - i,
    {
        let kv = text::trim(parts[i]);
        proof {
            assert(all.skip(i as int)[0] == parts[i as int]@);
            assert(all.skip(i as int).skip(1) =~= all.skip(i + 1));
        }
        if let Some((k, v)) = text::split_once(kv, '=') {
            if text::same(k, name) {
                return Some(v);
            }
        }
        i += 1;
    }
    None
}

// ---------------------------------------------------------------------------
// Laws
// ---------------------------------------------------------------------------

/// A signed token is accepted until its expiry, and never from then on.
pub proof fn law_signed_token_lasts_until_expiry(secret: Seq<u8>, expiry: u64, now: int)
    ensures
        token_accepted(secret, session_token(secret, expiry as nat), now) == (now < expiry),
{
    let stamp = num::dec(expiry as nat);
    let tag = hmac_sha256(secret, vstd::utf8::encode_utf8(stamp));
    num::lemma_dec(expiry as nat);
    num::lemma_parse_dec(expiry as nat, u64::MAX as int);
    assert(!stamp.contains('.')) by {
        if stamp.contains('.') {
            let i = choose|i: int| 0 <= i < stamp.len() && stamp[i] == '.';
            assert(num::is_digit(stamp[i]));
        }
    }
    text::lemma_cut_first_at(stamp, '.', hex::hex(tag));
    hex::lemma_unhex_hex(tag);
}

/// A token whose signature is not the tag of its expiry is never accepted.
pub proof fn law_tampered_token_is_rejected(
    secret: Seq<u8>,
    expiry: Seq<char>,
    sig: Seq<char>,
    now: int,
)
    requires
        !expiry.contains('.'),
        hex::unhex(sig) != Some(hmac_sha256(secret, vstd::utf8::encode_utf8(expiry))),
    ensures
        !token_accepted(secret, expiry.push('.') + sig, now),
{
    text::lemma_cut_first_at(expiry, '.', sig);
}

/// A token holds no separator and no white space.
proof fn lemma_token_chars(secret: Seq<u8>, expiry: nat)
    ensures
        session_token(secret, expiry).len() > 0,
        forall|i: int|
            0 <= i < session_token(secret, expiry).len() ==> #[trigger] session_token(
                secret,
                expiry,
            )[i] != ';' && !text::is_space(session_token(secret, expiry)[i]),
{
    let token = session_token(secret, expiry);
    let stamp = num::dec(expiry);
    let tag = hmac_sha256(secret, vstd::utf8::encode_utf8(stamp));
    let sig = hex::hex(tag);
    num::lemma_dec(expiry);
    hex::lemma_hex_chars(tag);
    assert forall|i: int| 0 <= i < token.len() implies #[trigger] token[i] != ';'
        && !text::is_space(token[i]) by {
        if i < stamp.len() {
            assert(token[i] == stamp[i]);
            assert(num::is_digit(stamp[i]));
        } else if i == stamp.len() {
            assert(token[i] == '.');
        } else {
            assert(token[i] == sig[i - stamp.len() - 1]);
            assert(hex::hex_value(sig[i - stamp.len() - 1]) is Some);
        }
    }
}

/// Reading the session cookie back out of what a login set gives the token.
pub proof fn law_issued_cookie_carries_its_token(
    secret: Seq<u8>,
    expiry: nat,
    max_age: nat,
    secure: bool,
)
    ensures
        cookie_lookup(
            cookie_text(session_token(secret, expiry), max_age, secure),
            COOKIE_NAME@,
        ) == Some(session_token(secret, expiry)),
{
    let token = session_token(secret, expiry);
    let name = COOKIE_NAME@;
    let head = name.push('=') + token;
    reveal_strlit("dockdoe_session");
    reveal_strlit("; HttpOnly; SameSite=Lax; Path=/; Max-Age=");
    lemma_token_chars(secret, expiry);
    assert forall|i: int| 0 <= i < head.len() implies #[trigger] head[i] != ';' by {
        if i > name.len() {
            assert(head[i] == token[i - name.len() - 1]);
        }
    }
    let whole = cookie_text(token, max_age, secure);
    let rest = whole.skip(head.len() as int + 1);
    assert(whole =~= head.push(';') + rest);
    text::lemma_pieces_at(head, ';', rest);
    assert(head.last() == token.last());
    text::lemma_trimmed_id(head);
    assert(!name.contains('='));
    text::lemma_cut_first_at(name, '=', token);
}

/// A cookie header that holds the session cookie alone gives its value back, if
/// that holds no separator or white space.
pub proof fn lemma_plain_cookie(token: Seq<char>)
    requires
        forall|i: int|
            0 <= i < token.len() ==> #[trigger] token[i] != ';' && !text::is_space(token[i]),
    ensures
        cookie_lookup(COOKIE_NAME@.push('=') + token, COOKIE_NAME@) == Some(token),
{
    let name = COOKIE_NAME@;
    let header = name.push('=') + token;
    reveal_strlit("dockdoe_session");
    assert forall|i: int| 0 <= i < header.len() implies #[trigger] header[i] != ';' by {
        if i > name.len() {
            assert(header[i] == token[i - name.len() - 1]);
        }
    }
    text::lemma_pieces_none(header, ';');
    assert(!text::is_space(header.last())) by {
        if token.len() > 0 {
            assert(header.last() == token.last());
        } else {
            assert(header.last() == '=');
        }
    }
    text::lemma_trimmed_id(header);
    assert(!name.contains('='));
    text::lemma_cut_first_at(name, '=', token);
}

/// A cookie header that holds a session's token alone gives the token back.
pub proof fn lemma_returned_cookie(secret: Seq<u8>, expiry: nat)
    ensures
        cookie_lookup(
            COOKIE_NAME@.push('=') + session_token(secret, expiry),
            COOKIE_NAME@,
        ) == Some(session_token(secret, expiry)),
{
    lemma_token_chars(secret, expiry);
    lemma_plain_cookie(session_token(secret, expiry));
}

/// The configured pair is always accepted.
pub proof fn law_configured_credentials_are_accepted(secret: Seq<u8>, pair: (Seq<char>, Seq<char>))
    ensures
        credentials_accepted(secret, pair, pair),
{
}

/// A credential message is the encoding of the pair with a zero between.
proof fn lemma_credential_message(user: Seq<char>, password: Seq<char>)
    ensures
        credential_message(user, password) == vstd::utf8::encode_utf8(user.push('\0') + password),
{
    let zero = seq!['\0'];
    text::lemma_encode_concat(user.push('\0'), password);
    text::lemma_encode_concat(user, zero);
    assert(user + zero =~= user.push('\0'));
    assert(vstd::utf8::is_ascii_chars(zero));
    vstd::utf8::is_ascii_chars_encode_utf8(zero);
    assert(vstd::utf8::encode_utf8(zero) =~= seq![0u8]);
    assert(vstd::utf8::encode_utf8(user) + seq![0u8] =~= vstd::utf8::encode_utf8(user).push(0));
}

/// The separator keeps field boundaries apart: different pairs are fed to the
/// tag as different messages, as long as neither user name holds a NUL.
pub proof fn law_credential_fields_do_not_run_together(
    user1: Seq<char>,
    password1: Seq<char>,
    user2: Seq<char>,
    password2: Seq<char>,
)
    requires
        !user1.contains('\0'),
        !user2.contains('\0'),
        credential_message(user1, password1) == credential_message(user2, password2),
    ensures
        user1 == user2,
        password1 == password2,
{
    lemma_credential_message(user1, password1);
    lemma_credential_message(user2, password2);
    let s1 = user1.push('\0') + password1;
    let s2 = user2.push('\0') + password2;
    vstd::utf8::encode_utf8_decode_utf8(s1);
    vstd::utf8::encode_utf8_decode_utf8(s2);
    text::lemma_cut_first_at(user1, '\0', password1);
    text::lemma_cut_first_at(user2, '\0', password2);
}

/// A session lasts for thirty days.
pub proof fn law_sessions_last_thirty_days()
    ensures
        SESSION_TTL == 30 * 24 * 60 * 60,
{
}

/// A cookie carries the token under the name of the session, is out of reach of
/// scripts, is not sent along from other sites, holds for the whole server and
/// for the given time; and it is kept to secure connections exactly on request.
pub proof fn law_cookies_are_restricted(token: Seq<char>, max_age: nat)
    ensures
        cookie_text(token, max_age, false) == "dockdoe_session="@ + token
            + "; HttpOnly; SameSite=Lax; Path=/; Max-Age="@ + num::dec(max_age),
        cookie_text(token, max_age, true) == cookie_text(token, max_age, false) + "; Secure"@,
{
    reveal_strlit("dockdoe_session");
    reveal_strlit("dockdoe_session=");
    assert(COOKIE_NAME@.push('=') =~= "dockdoe_session="@);
}

/// Cookies are looked through in their order: the first of the given name gives
/// its value, and what has another name, or none, is passed over.
pub proof fn law_cookies_are_found_by_name(first: Seq<char>, rest: Seq<char>, name: Seq<char>)
    requires
        !first.contains(';'),
    ensures
        cookie_lookup(first.push(';') + rest, name) == (match text::cut_first(
            text::trimmed(first),
            '=',
        ) {
            Some((k, v)) => if k == name {
                Some(v)
            } else {
                cookie_lookup(rest, name)
            },
            None => cookie_lookup(rest, name),
        }),
        cookie_lookup(first, name) == (match text::cut_first(text::trimmed(first), '=') {
            Some((k, v)) => if k == name {
                Some(v)
            } else {
                None
            },
            None => None,
        }),
{
    text::lemma_pieces_at(first, ';', rest);
    text::lemma_pieces_none(first, ';');
    let all = text::pieces(first.push(';') + rest, ';');
    assert(all[0] == first);
    assert(all.skip(1) =~= text::pieces(rest, ';'));
    reveal_with_fuel(first_value, 2);
    assert(seq![first].skip(1) =~= Seq::<Seq<char>>::empty());
}

/// Whether a pair is accepted rests on both of its fields: it is, exactly if the
/// tag of the submitted fields is that of the configured ones.
pub proof fn law_both_fields_count(
    secret: Seq<u8>,
    configured: (Seq<char>, Seq<char>),
    submitted: (Seq<char>, Seq<char>),
)
    ensures
        credentials_accepted(secret, configured, submitted) == (hmac_sha256(
            secret,
            vstd::utf8::encode_utf8(submitted.0.push('\0') + submitted.1),
        ) == hmac_sha256(
            secret,
            vstd::utf8::encode_utf8(configured.0.push('\0') + configured.1),
        )),
{
    lemma_credential_message(configured.0, configured.1);
    lemma_credential_message(submitted.0, submitted.1);
}

/// A token is accepted exactly if it is an expiry after now, a dot, and the tag of
/// that expiry in hexadecimal digits.
pub proof fn law_accepted_tokens_are_signed(
    secret: Seq<u8>,
    expiry: Seq<char>,
    sig: Seq<char>,
    now: int,
)
    requires
        !expiry.contains('.'),
    ensures
        token_accepted(secret, expiry.push('.') + sig, now) == (num::parsed(
            expiry,
            u64::MAX as int,
        ) matches Some(end) && now < end && hex::unhex(sig) == Some(
            hmac_sha256(secret, vstd::utf8::encode_utf8(expiry)),
        )),
        !token_accepted(secret, expiry, now),
{
    text::lemma_cut_first_at(expiry, '.', sig);
    text::law_cuts_split_at_the_character(expiry, '.');
    if let Some((a, b)) = text::cut_first(expiry, '.') {
        assert((a.push('.') + b)[a.len() as int] == '.');
        assert(expiry.contains('.'));
    }
}

} // verus!
