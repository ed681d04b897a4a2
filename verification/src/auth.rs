//! Token sessions and password credentials.
//!
//! A session is stored under the SHA-256 digest of its token, never under the
//! token itself; a credential holds a random hex salt and the hex SHA-256
//! digest of salt and password. Tokens are 32 random bytes, base64url encoded
//! without padding. Times are milliseconds, handed in by the caller.
use vstd::prelude::*;
use sha2::Digest;
use crate::graph::CapbitError;
use crate::keys::{get64, read64};
use crate::labels::str_equal;
use crate::hex::{encode, hex_encoding};
use crate::text::str_from_utf8;
use vstd::utf8::{
    encode_utf8, encode_utf8_decode_utf8, encode_utf8_valid_utf8, is_ascii_chars, is_ascii_chars_encode_utf8,
};

verus! {

// -- outside calls ------------------------------------------------------------------

/// The SHA-256 digest of `data`.
pub uninterp spec fn sha256(data: Seq<u8>) -> Seq<u8>;

/// Calls `sha2::Sha256::digest`. Claimed: the result is the SHA-256 digest of
/// `data` (named `sha256`) and is 32 bytes long.
#[verifier::external_body]
fn sha256_digest(data: &[u8]) -> (d: Vec<u8>)
    ensures
        d@ == sha256(data@),
        d@.len() == 32,
{
    sha2::Sha256::digest(data).to_vec()
}

/// Calls `getrandom::getrandom` on a buffer of `n` bytes. Claimed: on success
/// the result holds `n` bytes; nothing is claimed of their values, and the
/// call may fail (`None`) when the system's random source does.
#[verifier::external_body]
fn random_bytes(n: usize) -> (r: Option<Vec<u8>>)
    ensures
        r matches Some(v) ==> v@.len() == n,
{
    let mut v = vec![0u8; n];
    match getrandom::getrandom(&mut v) {
        Ok(()) => Some(v),
        Err(_) => None,
    }
}

// -- text encodings -------------------------------------------------------------------

/// Characters of ASCII bytes.
pub open spec fn ascii_chars(b: Seq<u8>) -> Seq<char> {
    b.map_values(|x: u8| x as char)
}

/// ASCII bytes as a string.
pub(crate) fn ascii_text(b: &[u8]) -> (s: String)
    requires
        forall|i: int| 0 <= i < b@.len() ==> b@[i] < 128,
    ensures
        s@ == ascii_chars(b@),
{
    let ghost c = ascii_chars(b@);
    proof {
        assert(is_ascii_chars(c)) by {
            assert forall|i: int| 0 <= i < c.len() implies '\0' <= #[trigger] c[i] <= '\u{7f}' by {
                assert(b@[i] < 128);
            }
        }
        is_ascii_chars_encode_utf8(c);
        assert(encode_utf8(c) =~= b@);
        encode_utf8_valid_utf8(c);
    }
    match str_from_utf8(b) {
        Ok(t) => {
            proof {
                encode_utf8_decode_utf8(t@);
                encode_utf8_decode_utf8(c);
            }
            String::from_str(t)
        },
        Err(_) => {
            proof {
                assert(false);
            }
            String::new()
        },
    }
}

/// The base64url symbol (RFC 4648, section 5) of a 6-bit value, as an ASCII code.
pub open spec fn b64_code(v: u8) -> u8 {
    if v < 26 {
        (65 + v) as u8
    } else if v < 52 {
        (71 + v) as u8
    } else if v < 62 {
        (v - 4) as u8
    } else if v == 62 {
        45
    } else {
        95
    }
}

/// Byte `i` of `s`, or 0 past its end.
pub open spec fn byte_or_zero(s: Seq<u8>, i: int) -> u8 {
    if 0 <= i < s.len() {
        s[i]
    } else {
        0
    }
}

/// The `j`-th 6-bit group of `s`, read most significant bit first, with
/// zero bits past the end.
pub open spec fn sextet(s: Seq<u8>, j: int) -> u8 {
    let g = j / 4;
    let b0 = byte_or_zero(s, 3 * g);
    let b1 = byte_or_zero(s, 3 * g + 1);
    let b2 = byte_or_zero(s, 3 * g + 2);
    if j % 4 == 0 {
        b0 >> 2u8
    } else if j % 4 == 1 {
        ((b0 & 3u8) << 4u8) | (b1 >> 4u8)
    } else if j % 4 == 2 {
        ((b1 & 15u8) << 2u8) | (b2 >> 6u8)
    } else {
        b2 & 63u8
    }
}

/// Base64url encoding of `s` without padding: one symbol per 6 bits, the
/// last group filled with zero bits.
pub open spec fn base64url(s: Seq<u8>) -> Seq<char> {
    Seq::new(((4 * s.len() + 2) / 3) as nat, |j: int| b64_code(sextet(s, j)) as char)
}

proof fn lemma_sextets(b0: u8, b1: u8, b2: u8)
    ensures
        b0 >> 2u8 < 64,
        ((b0 & 3u8) << 4u8) | (b1 >> 4u8) < 64,
        ((b1 & 15u8) << 2u8) | (b2 >> 6u8) < 64,
        b2 & 63u8 < 64,
{
    assert(b0 >> 2u8 < 64) by (bit_vector);
    assert(((b0 & 3u8) << 4u8) | (b1 >> 4u8) < 64) by (bit_vector);
    assert(((b1 & 15u8) << 2u8) | (b2 >> 6u8) < 64) by (bit_vector);
    assert(b2 & 63u8 < 64) by (bit_vector);
}

fn b64_symbol(v: u8) -> (c: u8)
    requires
        v < 64,
    ensures
        c == b64_code(v),
        c < 128,
{
    if v < 26 {
        65 + v
    } else if v < 52 {
        71 + v
    } else if v < 62 {
        v - 4
    } else if v == 62 {
        45
    } else {
        95
    }
}

/// The four symbols of group `g` of `s` are read from bytes `3g`, `3g+1` and
/// `3g+2`.
proof fn lemma_group(s: Seq<u8>, g: int)
    requires
        g >= 0,
    ensures
        sextet(s, 4 * g) == byte_or_zero(s, 3 * g) >> 2u8,
        sextet(s, 4 * g + 1) == ((byte_or_zero(s, 3 * g) & 3u8) << 4u8) | (byte_or_zero(s, 3 * g + 1) >> 4u8),
        sextet(s, 4 * g + 2) == ((byte_or_zero(s, 3 * g + 1) & 15u8) << 2u8) | (byte_or_zero(s, 3 * g + 2)
            >> 6u8),
        sextet(s, 4 * g + 3) == byte_or_zero(s, 3 * g + 2) & 63u8,
{
    assert((4 * g) / 4 == g && (4 * g) % 4 == 0) by (nonlinear_arith)
        requires
            g >= 0,
    ;
    assert((4 * g + 1) / 4 == g && (4 * g + 1) % 4 == 1) by (nonlinear_arith)
        requires
            g >= 0,
    ;
    assert((4 * g + 2) / 4 == g && (4 * g + 2) % 4 == 2) by (nonlinear_arith)
        requires
            g >= 0,
    ;
    assert((4 * g + 3) / 4 == g && (4 * g + 3) % 4 == 3) by (nonlinear_arith)
        requires
            g >= 0,
    ;
}

/// Base64url encoding without padding.
pub fn base64url_encode(data: &[u8]) -> (s: String)
    requires
        data@.len() <= usize::MAX / 4,
    ensures
        s@ == base64url(data@),
{
    let n = data.len();
    let ghost want = Seq::new(((4 * n + 2) / 3) as nat, |j: int| b64_code(sextet(data@, j)));
    let mut out: Vec<u8> = Vec::new();
    let mut i: usize = 0;
    while i < n
        invariant
            n == data@.len(),
            n <= usize::MAX / 4,
            i <= n,
            i % 3 == 0 || i == n,
            out@.len() == (4 * i + 2) / 3,
            forall|j: int| 0 <= j < out@.len() ==> out@[j] == want[j] && out@[j] < 128,
            want == Seq::new(((4 * n + 2) / 3) as nat, |j: int| b64_code(sextet(data@, j))),
        decreases n - i,
    {
        let g: usize = i / 3;
        assert(i == 3 * g);
        let b0 = data[i];
        let b1 = if i + 1 < n { data[i + 1] } else { 0 };
        let b2 = if i + 2 < n { data[i + 2] } else { 0 };
        let ghost base: int = 4 * g;
        let ghost before = out@;
        proof {
            lemma_sextets(b0, b1, b2);
            lemma_group(data@, g as int);
            assert(byte_or_zero(data@, 3 * g) == b0);
            assert(byte_or_zero(data@, 3 * g + 1) == b1);
            assert(byte_or_zero(data@, 3 * g + 2) == b2);
            assert(before.len() == base);
        }
        let c0 = b64_symbol(b0 >> 2);
        let c1 = b64_symbol(((b0 & 3) << 4) | (b1 >> 4));
        let c2 = b64_symbol(((b1 & 15) << 2) | (b2 >> 6));
        let c3 = b64_symbol(b2 & 63);
        out.push(c0);
        out.push(c1);
        if i + 1 < n {
            out.push(c2);
        }
        if i + 2 < n {
            out.push(c3);
        }
        proof {
            let tail = if i + 2 < n {
                seq![c0, c1, c2, c3]
            } else if i + 1 < n {
                seq![c0, c1, c2]
            } else {
                seq![c0, c1]
            };
            assert(out@ =~= before + tail);
            let m: int = tail.len() as int;
            assert((4 * n + 2) / 3 >= base + m);
            assert forall|j: int| 0 <= j < out@.len() implies out@[j] == want[j] && out@[j] < 128 by {
                if j < base {
                    assert(out@[j] == before[j]);
                } else {
                    assert(out@[j] == tail[j - base]);
                    if j == base {
                        assert(j == 4 * g);
                    } else if j == base + 1 {
                        assert(j == 4 * g + 1);
                    } else if j == base + 2 {
                        assert(j == 4 * g + 2);
                    } else {
                        assert(j == 4 * g + 3);
                    }
                }
            }
        }
        i = if i + 3 <= n { i + 3 } else { n };
    }
    assert(out@ =~= want);
    let s = ascii_text(out.as_slice());
    assert(s@ =~= base64url(data@));
    s
}

// -- digests as ordered keys ------------------------------------------------------------

/// A 32-byte digest as four big-endian words. Ordering digests by these
/// words orders them as their bytes (and their hex text) are ordered.
pub type Key4 = (u64, u64, u64, u64);

/// Strict lexicographic order on digest keys.
pub open spec fn key4_lt(a: Key4, b: Key4) -> bool {
    ||| a.0 < b.0
    ||| (a.0 == b.0 && a.1 < b.1)
    ||| (a.0 == b.0 && a.1 == b.1 && a.2 < b.2)
    ||| (a.0 == b.0 && a.1 == b.1 && a.2 == b.2 && a.3 < b.3)
}

fn key4_less(a: Key4, b: Key4) -> (r: bool)
    ensures
        r == key4_lt(a, b),
{
    a.0 < b.0 || (a.0 == b.0 && a.1 < b.1) || (a.0 == b.0 && a.1 == b.1 && a.2 < b.2) || (a.0 == b.0 && a.1
        == b.1 && a.2 == b.2 && a.3 < b.3)
}

fn key4_same(a: Key4, b: Key4) -> (r: bool)
    ensures
        r == (a == b),
{
    a.0 == b.0 && a.1 == b.1 && a.2 == b.2 && a.3 == b.3
}

/// The key of a 32-byte digest.
pub open spec fn digest_key(d: Seq<u8>) -> Key4 {
    (read64(d, 0), read64(d, 8), read64(d, 16), read64(d, 24))
}

/// The key a token's session is stored under: its SHA-256 digest.
pub open spec fn token_key(token: Seq<char>) -> Key4 {
    digest_key(sha256(encode_utf8(token)))
}

/// Hashes a token for storage.
fn hash_token(token: &str) -> (k: Key4)
    ensures
        k == token_key(token@),
{
    let d = sha256_digest(token.as_bytes());
    let b = d.as_slice();
    (get64(b, 0), get64(b, 8), get64(b, 16), get64(b, 24))
}

// -- sessions ---------------------------------------------------------------------------

/// A session as stored: (token key, entity, created at, expires at; 0 = never).
pub type SessionRow = (Key4, Seq<char>, u64, u64);

/// Rows strictly ascending by key.
pub open spec fn sorted4(s: Seq<SessionRow>) -> bool {
    forall|i: int, j: int| 0 <= i < j < s.len() ==> key4_lt(#[trigger] s[i].0, #[trigger] s[j].0)
}

/// The session stored under `k`: (entity, created at, expires at).
pub open spec fn session_at(s: Seq<SessionRow>, k: Key4) -> Option<(Seq<char>, u64, u64)> {
    if exists|i: int| 0 <= i < s.len() && #[trigger] s[i].0 == k {
        let i = choose|i: int| 0 <= i < s.len() && #[trigger] s[i].0 == k;
        Some((s[i].1, s[i].2, s[i].3))
    } else {
        None
    }
}

proof fn lemma_session_at(s: Seq<SessionRow>, i: int)
    requires
        sorted4(s),
        0 <= i < s.len(),
    ensures
        session_at(s, s[i].0) == Some((s[i].1, s[i].2, s[i].3)),
{
    let k = s[i].0;
    assert(exists|j: int| 0 <= j < s.len() && #[trigger] s[j].0 == k);
    let c = choose|j: int| 0 <= j < s.len() && #[trigger] s[j].0 == k;
    if c < i {
        assert(key4_lt(s[c].0, s[i].0));
    } else if i < c {
        assert(key4_lt(s[i].0, s[c].0));
    }
}

/// Is the session with expiry `expires_at` live at `now`?
pub open spec fn live(expires_at: u64, now: u64) -> bool {
    expires_at == 0 || expires_at >= now
}

/// The expiry of a session created at `now` with lifetime `ttl_secs`.
pub open spec fn expiry(ttl_secs: Option<u64>, now: u64) -> u64 {
    match ttl_secs {
        Some(t) => (now + t * 1000) as u64,
        None => 0,
    }
}

/// Can a session be created at `now` with lifetime `ttl_secs` without the
/// expiry overflowing?
pub open spec fn ttl_fits(ttl_secs: Option<u64>, now: u64) -> bool {
    match ttl_secs {
        Some(t) => now + t * 1000 <= u64::MAX,
        None => true,
    }
}

/// What `list_sessions` reports of one session.
#[derive(Debug, Clone)]
pub struct SessionInfo {
    pub entity_id: String,
    pub created_at: u64,
    pub expires_at: u64,
}

struct Session {
    key: Key4,
    entity_id: String,
    created_at: u64,
    expires_at: u64,
}

impl Session {
    spec fn row(self) -> SessionRow {
        (self.key, self.entity_id@, self.created_at, self.expires_at)
    }
}

struct Credential {
    entity_id: String,
    salt: String,
    hash: String,
}

/// Sessions and credentials. Sessions are kept ascending by token digest.
pub struct AuthStore {
    sessions: Vec<Session>,
    credentials: Vec<Credential>,
}

/// The contents of an `AuthStore`.
pub struct AuthView {
    /// Sessions, ascending by key.
    pub sessions: Seq<SessionRow>,
    /// Credentials: (entity, salt, hex digest of salt and password).
    pub credentials: Seq<(Seq<char>, Seq<char>, Seq<char>)>,
}

impl View for AuthStore {
    type V = AuthView;

    closed spec fn view(&self) -> AuthView {
        AuthView {
            sessions: self.sessions@.map_values(|r: Session| r.row()),
            credentials: self.credentials@.map_values(|c: Credential| (c.entity_id@, c.salt@, c.hash@)),
        }
    }
}

impl AuthView {
    pub open spec fn session(self, k: Key4) -> Option<(Seq<char>, u64, u64)> {
        session_at(self.sessions, k)
    }

    /// The credential of `entity`: (salt, hex digest).
    pub open spec fn credential(self, entity: Seq<char>) -> Option<(Seq<char>, Seq<char>)> {
        if exists|i: int| 0 <= i < self.credentials.len() && #[trigger] self.credentials[i].0 == entity {
            let i = choose|i: int| 0 <= i < self.credentials.len() && #[trigger] self.credentials[i].0 == entity;
            Some((self.credentials[i].1, self.credentials[i].2))
        } else {
            None
        }
    }

    /// Live sessions of `entity` at `now`, ascending by token digest.
    pub open spec fn sessions_of(self, entity: Seq<char>, now: u64) -> Seq<SessionRow> {
        self.sessions.filter(session_of(entity, now))
    }

    /// `o` with the session under `k` set to `v`, and nothing else changed.
    pub open spec fn puts_session(self, o: AuthView, k: Key4, v: (Seq<char>, u64, u64)) -> bool {
        &&& forall|k2: Key4| #[trigger] self.session(k2) == if k2 == k {
            Some(v)
        } else {
            o.session(k2)
        }
        &&& self.credentials == o.credentials
    }
}

impl AuthStore {
    /// Sessions ascending by key; one credential per entity.
    pub closed spec fn wf(&self) -> bool {
        &&& sorted4(self@.sessions)
        &&& forall|i: int, j: int|
            0 <= i < j < self@.credentials.len() ==> #[trigger] self@.credentials[i].0
                != #[trigger] self@.credentials[j].0
    }

    pub fn new() -> (s: Self)
        ensures
            s.wf(),
            s@.sessions.len() == 0,
            s@.credentials.len() == 0,
    {
        let s = AuthStore { sessions: Vec::new(), credentials: Vec::new() };
        assert(s@.sessions =~= Seq::<SessionRow>::empty());
        assert(s@.credentials =~= Seq::<(Seq<char>, Seq<char>, Seq<char>)>::empty());
        s
    }

    /// Position of the first session whose key is not below `k`.
    fn find(&self, k: Key4) -> (i: usize)
        requires
            self.wf(),
        ensures
            i <= self@.sessions.len(),
            forall|j: int| 0 <= j < i ==> key4_lt(#[trigger] self@.sessions[j].0, k),
            i < self@.sessions.len() ==> !key4_lt(self@.sessions[i as int].0, k),
    {
        let mut i: usize = 0;
        while i < self.sessions.len()
            invariant
                i <= self.sessions@.len(),
                forall|j: int| 0 <= j < i ==> key4_lt(#[trigger] self@.sessions[j].0, k),
            decreases self.sessions@.len() - i,
        {
            if !key4_less(self.sessions[i].key, k) {
                return i;
            }
            i = i + 1;
        }
        i
    }

    /// Store a session under `k`, replacing any session stored there.
    fn put_session(&mut self, k: Key4, entity_id: &str, created_at: u64, expires_at: u64)
        requires
            old(self).wf(),
        ensures
            final(self).wf(),
            final(self)@.puts_session(old(self)@, k, (entity_id@, created_at, expires_at)),
    {
        let ghost o = self@.sessions;
        let ghost oc = self@.credentials;
        let i = self.find(k);
        let row = Session { key: k, entity_id: String::from_str(entity_id), created_at, expires_at };
        let ghost r = row.row();
        if i < self.sessions.len() && key4_same(self.sessions[i].key, k) {
            self.sessions.set(i, row);
            proof {
                let s = self@.sessions;
                assert(s =~= o.update(i as int, r));
                assert(sorted4(s)) by {
                    assert forall|a: int, b: int| 0 <= a < b < s.len() implies key4_lt(
                        #[trigger] s[a].0,
                        #[trigger] s[b].0,
                    ) by {
                        assert(key4_lt(o[a].0, o[b].0));
                    }
                }
                assert forall|k2: Key4| #[trigger] session_at(s, k2) == if k2 == k {
                    Some((entity_id@, created_at, expires_at))
                } else {
                    session_at(o, k2)
                } by {
                    lemma_session_at(s, i as int);
                    if k2 != k {
                        if exists|j: int| 0 <= j < o.len() && #[trigger] o[j].0 == k2 {
                            let c = choose|j: int| 0 <= j < o.len() && #[trigger] o[j].0 == k2;
                            lemma_session_at(o, c);
                            lemma_session_at(s, c);
                        } else {
                            assert forall|j: int| 0 <= j < s.len() implies #[trigger] s[j].0 != k2 by {
                                if j != i {
                                    assert(o[j].0 != k2);
                                }
                            }
                        }
                    }
                }
            }
        } else {
            self.sessions.insert(i, row);
            proof {
                let s = self@.sessions;
                assert(s =~= o.insert(i as int, r));
                if i < o.len() {
                    assert(key4_lt(k, o[i as int].0));
                }
                assert(sorted4(s)) by {
                    assert forall|a: int, b: int| 0 <= a < b < s.len() implies key4_lt(
                        #[trigger] s[a].0,
                        #[trigger] s[b].0,
                    ) by {
                        if b < i {
                            assert(key4_lt(o[a].0, o[b].0));
                        } else if b == i {
                        } else if a < i {
                            assert(key4_lt(o[a].0, o[b - 1].0));
                        } else if a == i {
                            if b - 1 > i {
                                assert(key4_lt(o[i as int].0, o[b - 1].0));
                            }
                        } else {
                            assert(key4_lt(o[a - 1].0, o[b - 1].0));
                        }
                    }
                }
                assert forall|j: int| 0 <= j < o.len() implies #[trigger] o[j].0 != k by {
                    if j > i {
                        assert(key4_lt(o[i as int].0, o[j].0));
                    }
                }
                assert forall|k2: Key4| #[trigger] session_at(s, k2) == if k2 == k {
                    Some((entity_id@, created_at, expires_at))
                } else {
                    session_at(o, k2)
                } by {
                    lemma_session_at(s, i as int);
                    if k2 != k {
                        if exists|j: int| 0 <= j < o.len() && #[trigger] o[j].0 == k2 {
                            let c = choose|j: int| 0 <= j < o.len() && #[trigger] o[j].0 == k2;
                            lemma_session_at(o, c);
                            if c < i {
                                lemma_session_at(s, c);
                            } else {
                                lemma_session_at(s, c + 1);
                            }
                        } else {
                            assert forall|j: int| 0 <= j < s.len() implies #[trigger] s[j].0 != k2 by {
                                if j < i {
                                    assert(o[j].0 != k2);
                                } else if j > i {
                                    assert(o[j - 1].0 != k2);
                                }
                            }
                        }
                    }
                }
            }
        }
        assert(self@.credentials =~= oc);
    }
}


/// No row before `i` has key `k`, and row `i` (if any) is not below `k` and
/// differs from it: then no row has key `k`.
proof fn lemma_key_absent(s: Seq<SessionRow>, k: Key4, i: int)
    requires
        sorted4(s),
        0 <= i <= s.len(),
        forall|j: int| 0 <= j < i ==> key4_lt(#[trigger] s[j].0, k),
        i < s.len() ==> s[i].0 != k && !key4_lt(s[i].0, k),
    ensures
        forall|j: int| 0 <= j < s.len() ==> #[trigger] s[j].0 != k,
        session_at(s, k) is None,
{
    assert forall|j: int| 0 <= j < s.len() implies #[trigger] s[j].0 != k by {
        if j < i {
            assert(key4_lt(s[j].0, k));
        } else if j > i {
            assert(key4_lt(s[i].0, s[j].0));
        }
    }
}

/// `salt` and `password` hashed for storage: the hex SHA-256 digest of the
/// salt's bytes followed by the password's.
pub open spec fn password_digest(salt: Seq<char>, password: Seq<char>) -> Seq<char> {
    hex_encoding(sha256(encode_utf8(salt) + encode_utf8(password)))
}

fn concat_bytes(a: &[u8], b: &[u8]) -> (v: Vec<u8>)
    ensures
        v@ == a@ + b@,
{
    let mut v: Vec<u8> = Vec::new();
    let mut i: usize = 0;
    while i < a.len()
        invariant
            i <= a@.len(),
            v@ == a@.take(i as int),
        decreases a@.len() - i,
    {
        v.push(a[i]);
        assert(a@.take(i + 1) =~= a@.take(i as int).push(a@[i as int]));
        i = i + 1;
    }
    assert(a@.take(i as int) =~= a@);
    let mut j: usize = 0;
    while j < b.len()
        invariant
            j <= b@.len(),
            v@ == a@ + b@.take(j as int),
        decreases b@.len() - j,
    {
        v.push(b[j]);
        assert(a@ + b@.take(j + 1) =~= (a@ + b@.take(j as int)).push(b@[j as int]));
        j = j + 1;
    }
    assert(b@.take(j as int) =~= b@);
    v
}

/// Hashes a password with its salt for storage.
pub fn hash_password(salt: &str, password: &str) -> (h: String)
    ensures
        h@ == password_digest(salt@, password@),
{
    let bytes = concat_bytes(salt.as_bytes(), password.as_bytes());
    let d = sha256_digest(bytes.as_slice());
    encode(d.as_slice())
}

/// A fresh token: 32 random bytes, base64url encoded without padding.
pub fn generate_token() -> (r: Result<String, CapbitError>)
    ensures
        r matches Ok(t) ==> exists|b: Seq<u8>| b.len() == 32 && t@ == #[trigger] base64url(b),
        r matches Err(e) ==> e.message@ == "Failed to generate random bytes"@,
{
    match random_bytes(32) {
        Some(b) => Ok(base64url_encode(b.as_slice())),
        None => Err(CapbitError { message: String::from_str("Failed to generate random bytes") }),
    }
}

/// A fresh salt: 16 random bytes, hex encoded.
fn generate_salt() -> (r: Option<String>)
    ensures
        r matches Some(t) ==> exists|b: Seq<u8>| b.len() == 16 && t@ == #[trigger] hex_encoding(b),
{
    match random_bytes(16) {
        Some(b) => Some(encode(b.as_slice())),
        None => None,
    }
}

impl AuthView {
    /// `o` with the credential of `entity` set to `v`, and nothing else changed.
    pub open spec fn puts_credential(self, o: AuthView, entity: Seq<char>, v: (Seq<char>, Seq<char>)) -> bool {
        &&& forall|e2: Seq<char>| #[trigger] self.credential(e2) == if e2 == entity {
            Some(v)
        } else {
            o.credential(e2)
        }
        &&& self.sessions == o.sessions
    }

    /// Does `password` match the credential of `entity`?
    pub open spec fn password_matches(self, entity: Seq<char>, password: Seq<char>) -> bool {
        match self.credential(entity) {
            Some((salt, h)) => h == password_digest(salt, password),
            None => false,
        }
    }
}

/// What `list_sessions` reports of a session row.
pub open spec fn info_of(r: SessionRow) -> (Seq<char>, u64, u64) {
    (r.1, r.2, r.3)
}

/// The view of a reported session.
pub open spec fn info_view(x: SessionInfo) -> (Seq<char>, u64, u64) {
    (x.entity_id@, x.created_at, x.expires_at)
}

impl AuthStore {
    /// Stores a session for `token` for `entity_id`, created at `now` and
    /// expiring `ttl_secs` seconds later (never when `None`). A session
    /// already stored for the same token is replaced.
    pub fn create_session_with_token(&mut self, entity_id: &str, ttl_secs: Option<u64>, now: u64, token: &str)
        requires
            old(self).wf(),
            ttl_fits(ttl_secs, now),
        ensures
            final(self).wf(),
            final(self)@.puts_session(old(self)@, token_key(token@), (entity_id@, now, expiry(ttl_secs, now))),
    {
        let k = hash_token(token);
        let expires: u64 = match ttl_secs {
            Some(t) => now + t * 1000,
            None => 0,
        };
        self.put_session(k, entity_id, now, expires);
    }

    /// Creates a session for `entity_id` with a fresh token, and returns the
    /// token. Only the token's digest is stored.
    pub fn create_session(&mut self, entity_id: &str, ttl_secs: Option<u64>, now: u64) -> (r: Result<
        String,
        CapbitError,
    >)
        requires
            old(self).wf(),
            ttl_fits(ttl_secs, now),
        ensures
            final(self).wf(),
            r matches Ok(t) ==> final(self)@.puts_session(
                old(self)@,
                token_key(t@),
                (entity_id@, now, expiry(ttl_secs, now)),
            ) && exists|b: Seq<u8>| b.len() == 32 && t@ == #[trigger] base64url(b),
            r matches Err(e) ==> final(self)@ == old(self)@ && e.message@ == "Failed to generate random bytes"@,
    {
        let token = match generate_token() {
            Ok(t) => t,
            Err(e) => {
                return Err(e);
            },
        };
        self.create_session_with_token(entity_id, ttl_secs, now, token.as_str());
        Ok(token)
    }

    /// The entity of the session of `token`: "Invalid token" when there is
    /// none, "Token expired" when it expired before `now`.
    pub fn validate_session(&self, token: &str, now: u64) -> (r: Result<String, CapbitError>)
        requires
            self.wf(),
        ensures
            match self@.session(token_key(token@)) {
                None => r matches Err(e) && e.message@ == "Invalid token"@,
                Some((ent, c, x)) => if x > 0 && x < now {
                    r matches Err(e) && e.message@ == "Token expired"@
                } else {
                    r matches Ok(s) && s@ == ent
                },
            },
    {
        let k = hash_token(token);
        let i = self.find(k);
        if i < self.sessions.len() && key4_same(self.sessions[i].key, k) {
            proof {
                lemma_session_at(self@.sessions, i as int);
            }
            let x = self.sessions[i].expires_at;
            if x > 0 && x < now {
                return Err(CapbitError { message: String::from_str("Token expired") });
            }
            Ok(self.sessions[i].entity_id.clone())
        } else {
            proof {
                lemma_key_absent(self@.sessions, k, i as int);
            }
            Err(CapbitError { message: String::from_str("Invalid token") })
        }
    }

    /// Removes the session of `token`; whether there was one.
    pub fn revoke_session(&mut self, token: &str) -> (had: bool)
        requires
            old(self).wf(),
        ensures
            final(self).wf(),
            had == old(self)@.session(token_key(token@)) is Some,
            forall|k2: Key4| #[trigger] final(self)@.session(k2) == if k2 == token_key(token@) {
                None
            } else {
                old(self)@.session(k2)
            },
            final(self)@.credentials == old(self)@.credentials,
    {
        let ghost o = self@.sessions;
        let ghost oc = self@.credentials;
        let k = hash_token(token);
        let i = self.find(k);
        if i < self.sessions.len() && key4_same(self.sessions[i].key, k) {
            proof {
                lemma_session_at(o, i as int);
            }
            let _ = self.sessions.remove(i);
            proof {
                let s = self@.sessions;
                assert(s =~= o.remove(i as int));
                assert(sorted4(s)) by {
                    assert forall|a: int, b: int| 0 <= a < b < s.len() implies key4_lt(
                        #[trigger] s[a].0,
                        #[trigger] s[b].0,
                    ) by {
                        if b < i {
                            assert(key4_lt(o[a].0, o[b].0));
                        } else if a < i {
                            assert(key4_lt(o[a].0, o[b + 1].0));
                        } else {
                            assert(key4_lt(o[a + 1].0, o[b + 1].0));
                        }
                    }
                }
                assert forall|k2: Key4| #[trigger] session_at(s, k2) == if k2 == k {
                    None
                } else {
                    session_at(o, k2)
                } by {
                    if k2 == k {
                        assert forall|j: int| 0 <= j < s.len() implies #[trigger] s[j].0 != k2 by {
                            if j < i {
                                assert(key4_lt(o[j].0, o[i as int].0));
                            } else {
                                assert(key4_lt(o[i as int].0, o[j + 1].0));
                            }
                        }
                    } else if exists|j: int| 0 <= j < o.len() && #[trigger] o[j].0 == k2 {
                        let c = choose|j: int| 0 <= j < o.len() && #[trigger] o[j].0 == k2;
                        lemma_session_at(o, c);
                        if c < i {
                            lemma_session_at(s, c);
                        } else {
                            lemma_session_at(s, c - 1);
                        }
                    } else {
                        assert forall|j: int| 0 <= j < s.len() implies #[trigger] s[j].0 != k2 by {
                            if j < i {
                                assert(o[j].0 != k2);
                            } else {
                                assert(o[j + 1].0 != k2);
                            }
                        }
                    }
                }
            }
            assert(self@.credentials =~= oc);
            true
        } else {
            proof {
                lemma_key_absent(o, k, i as int);
            }
            false
        }
    }

    /// The live sessions of `entity_id` at `now` (those that never expire or
    /// expire at `now` or later), ascending by token digest.
    pub fn list_sessions(&self, entity_id: &str, now: u64) -> (r: Vec<SessionInfo>)
        requires
            self.wf(),
        ensures
            r@.map_values(|x: SessionInfo| info_view(x)) == self@.sessions_of(entity_id@, now).map_values(
                |x: SessionRow| info_of(x),
            ),
    {
        let ghost rows = self@.sessions;
        let ghost p = session_of(entity_id@, now);
        let ghost fv = |x: SessionInfo| info_view(x);
        let ghost fr = |x: SessionRow| info_of(x);
        let mut out: Vec<SessionInfo> = Vec::new();
        let mut i: usize = 0;
        while i < self.sessions.len()
            invariant
                i <= rows.len(),
                rows == self@.sessions,
                rows.len() == self.sessions@.len(),
                p == session_of(entity_id@, now),
                fv == (|x: SessionInfo| info_view(x)),
                fr == (|x: SessionRow| info_of(x)),
                out@.map_values(fv) == rows.take(i as int).filter(p).map_values(fr),
            decreases rows.len() - i,
        {
            let row = &self.sessions[i];
            proof {
                assert(rows[i as int] == row.row());
                assert(rows.take(i + 1) =~= rows.take(i as int).push(rows[i as int]));
                rows.take(i as int).lemma_filter_push(rows[i as int], p);
            }
            let x = row.expires_at;
            if str_equal(row.entity_id.as_str(), entity_id) && (x == 0 || x >= now) {
                let info = SessionInfo {
                    entity_id: row.entity_id.clone(),
                    created_at: row.created_at,
                    expires_at: x,
                };
                let ghost before = out@;
                out.push(info);
                proof {
                    assert(out@.map_values(fv) =~= before.map_values(fv).push(fv(info)));
                    assert(rows.take(i + 1).filter(p) == rows.take(i as int).filter(p).push(rows[i as int]));
                    assert(rows.take(i + 1).filter(p).map_values(fr) =~= rows.take(i as int).filter(p).map_values(
                        fr,
                    ).push(fr(rows[i as int])));
                }
            } else {
                proof {
                    assert(rows.take(i + 1).filter(p) == rows.take(i as int).filter(p));
                }
            }
            i = i + 1;
        }
        proof {
            assert(rows.take(i as int) =~= rows);
        }
        out
    }
}


fn copy_session(x: &Session) -> (r: Session)
    ensures
        r.row() == x.row(),
{
    Session { key: x.key, entity_id: x.entity_id.clone(), created_at: x.created_at, expires_at: x.expires_at }
}

/// Rows of `entity`.
pub open spec fn owned_by(entity: Seq<char>) -> spec_fn(SessionRow) -> bool {
    |r: SessionRow| r.1 == entity
}

/// Rows of anyone but `entity`.
pub open spec fn not_owned_by(entity: Seq<char>) -> spec_fn(SessionRow) -> bool {
    |r: SessionRow| r.1 != entity
}

/// A filter and its complement split the rows between them.
proof fn lemma_filter_split(s: Seq<SessionRow>, e: Seq<char>)
    ensures
        s.filter(owned_by(e)).len() + s.filter(not_owned_by(e)).len() == s.len(),
    decreases s.len(),
{
    broadcast use vstd::seq_lib::group_filter_ensures;

    if s.len() == 0 {
        assert(s.filter(owned_by(e)).len() == 0);
        assert(s.filter(not_owned_by(e)).len() == 0);
    } else {
        let t = s.drop_last();
        assert(s == t.push(s.last()));
        lemma_filter_split(t, e);
        t.lemma_filter_push(s.last(), owned_by(e));
        t.lemma_filter_push(s.last(), not_owned_by(e));
    }
}

/// Keeping the rows of everyone but `e` ends exactly `e`'s sessions: every
/// other session is still found under its key, and the count removed is
/// the number of `e`'s rows.
proof fn lemma_revoked_rows(o: Seq<SessionRow>, n: Seq<SessionRow>, e: Seq<char>)
    requires
        sorted4(o),
        sorted4(n),
        n == o.filter(not_owned_by(e)),
    ensures
        o.len() - n.len() == o.filter(owned_by(e)).len(),
        forall|k: Key4| #[trigger] session_at(n, k) == match session_at(o, k) {
            Some(v) => if v.0 == e {
                None
            } else {
                Some(v)
            },
            None => None,
        },
{
    broadcast use vstd::seq_lib::group_filter_ensures, vstd::seq::Seq::lemma_filter_contains_rev;

    lemma_filter_split(o, e);
    assert forall|k: Key4| #[trigger] session_at(n, k) == match session_at(o, k) {
        Some(v) => if v.0 == e {
            None
        } else {
            Some(v)
        },
        None => None,
    } by {
        if exists|j: int| 0 <= j < n.len() && #[trigger] n[j].0 == k {
            let j = choose|j: int| 0 <= j < n.len() && #[trigger] n[j].0 == k;
            lemma_session_at(n, j);
            assert(n.contains(n[j]));
            assert(o.contains(n[j]));
            let i = choose|i: int| 0 <= i < o.len() && o[i] == n[j];
            lemma_session_at(o, i);
            assert(not_owned_by(e)(n[j]));
        } else {
            if exists|i: int| 0 <= i < o.len() && #[trigger] o[i].0 == k {
                let i = choose|i: int| 0 <= i < o.len() && #[trigger] o[i].0 == k;
                lemma_session_at(o, i);
                if o[i].1 != e {
                    o.lemma_filter_contains(not_owned_by(e), i);
                    let j = choose|j: int| 0 <= j < n.len() && n[j] == o[i];
                    assert(n[j].0 == k);
                }
            }
        }
    }
}

/// Rows of `entity` live at `now`.
pub open spec fn session_of(entity: Seq<char>, now: u64) -> spec_fn(SessionRow) -> bool {
    |r: SessionRow| r.1 == entity && live(r.3, now)
}

/// Filtering by `p` first changes nothing for a filter `q` that implies `p`.
proof fn lemma_filter_within(s: Seq<SessionRow>, p: spec_fn(SessionRow) -> bool, q: spec_fn(SessionRow) -> bool)
    requires
        forall|x: SessionRow| #[trigger] q(x) ==> p(x),
    ensures
        s.filter(p).filter(q) == s.filter(q),
    decreases s.len(),
{
    broadcast use vstd::seq_lib::group_filter_ensures;

    if s.len() == 0 {
        assert(s.filter(p).len() == 0);
        assert(s.filter(p).filter(q).len() == 0);
        assert(s.filter(q).len() == 0);
        assert(s.filter(p).filter(q) =~= s.filter(q));
    } else {
        let t = s.drop_last();
        let x = s.last();
        assert(s == t.push(x));
        lemma_filter_within(t, p, q);
        t.lemma_filter_push(x, p);
        t.lemma_filter_push(x, q);
        if p(x) {
            t.filter(p).lemma_filter_push(x, q);
        }
    }
}

/// A store none of whose rows belongs to `e` holds no session of `e`, live
/// or not.
proof fn lemma_none_left(v: AuthView, e: Seq<char>, now: u64)
    requires
        forall|i: int| 0 <= i < v.sessions.len() ==> (#[trigger] v.sessions[i]).1 != e,
    ensures
        v.sessions_of(e, now).len() == 0,
{
    broadcast use vstd::seq_lib::group_filter_ensures, vstd::seq::Seq::lemma_filter_contains_rev;

    if v.sessions_of(e, now).len() > 0 {
        let x = v.sessions_of(e, now)[0];
        assert(x.1 == e);
        assert(v.sessions_of(e, now).contains(x));
        assert(v.sessions.contains(x));
        let i = choose|i: int| 0 <= i < v.sessions.len() && v.sessions[i] == x;
        assert(v.sessions[i].1 != e);
    }
}

impl AuthStore {
    /// Removes every session of `entity_id`; how many there were.
    pub fn revoke_all_sessions(&mut self, entity_id: &str) -> (n: u64)
        requires
            old(self).wf(),
        ensures
            final(self).wf(),
            final(self)@.sessions == old(self)@.sessions.filter(not_owned_by(entity_id@)),
            n == old(self)@.sessions.filter(owned_by(entity_id@)).len(),
            forall|k: Key4| #[trigger] final(self)@.session(k) == match old(self)@.session(k) {
                Some(v) => if v.0 == entity_id@ {
                    None
                } else {
                    Some(v)
                },
                None => None,
            },
            n == old(self)@.sessions.len() - final(self)@.sessions.len(),
            final(self)@.credentials == old(self)@.credentials,
            forall|now: u64| #[trigger] final(self)@.sessions_of(entity_id@, now).len() == 0,
            forall|e2: Seq<char>, now: u64|
                e2 != entity_id@ ==> #[trigger] final(self)@.sessions_of(e2, now) == old(self)@.sessions_of(e2, now),
    {
        let ghost o = self@.sessions;
        let ghost oc = self@.credentials;
        let ghost p = not_owned_by(entity_id@);
        let mut kept: Vec<Session> = Vec::new();
        let mut i: usize = 0;
        while i < self.sessions.len()
            invariant
                self.wf(),
                o == self@.sessions,
                o.len() == self.sessions@.len(),
                i <= o.len(),
                p == not_owned_by(entity_id@),
                kept@.map_values(|r: Session| r.row()) == o.take(i as int).filter(p),
                sorted4(kept@.map_values(|r: Session| r.row())),
                i < o.len() ==> forall|j: int|
                    0 <= j < kept@.len() ==> key4_lt(#[trigger] kept@[j].row().0, o[i as int].0),
                kept@.len() <= i,
            decreases o.len() - i,
        {
            let row = &self.sessions[i];
            proof {
                assert(o[i as int] == row.row());
                assert(o.take(i + 1) =~= o.take(i as int).push(o[i as int]));
                o.take(i as int).lemma_filter_push(o[i as int], p);
            }
            if !str_equal(row.entity_id.as_str(), entity_id) {
                let c = copy_session(row);
                let ghost before = kept@;
                kept.push(c);
                proof {
                    let kv = kept@.map_values(|r: Session| r.row());
                    assert(kv =~= before.map_values(|r: Session| r.row()).push(o[i as int]));
                    assert forall|a: int, b: int| 0 <= a < b < kv.len() implies key4_lt(
                        #[trigger] kv[a].0,
                        #[trigger] kv[b].0,
                    ) by {
                        if b == kv.len() - 1 {
                            assert(key4_lt(before[a].row().0, o[i as int].0));
                        } else {
                            assert(key4_lt(before.map_values(|r: Session| r.row())[a].0, before.map_values(
                                |r: Session| r.row(),
                            )[b].0));
                        }
                    }
                }
            }
            proof {
                if i + 1 < o.len() {
                    assert(key4_lt(o[i as int].0, o[i + 1].0));
                    assert forall|j: int| 0 <= j < kept@.len() implies key4_lt(
                        #[trigger] kept@[j].row().0,
                        o[i + 1].0,
                    ) by {
                        if j < kept@.len() - 1 || kept@[j].row() != o[i as int] {
                            if j < kept@.len() - 1 || !p(o[i as int]) {
                                assert(key4_lt(kept@[j].row().0, o[i as int].0) || kept@[j].row() == o[i as int]);
                            }
                        }
                    }
                }
            }
            i = i + 1;
        }
        proof {
            assert(o.take(i as int) =~= o);
        }
        let removed = self.sessions.len() - kept.len();
        self.sessions = kept;
        assert(self@.credentials =~= oc);
        proof {
            assert forall|j: int| 0 <= j < self@.sessions.len() implies (#[trigger] self@.sessions[j]).1
                != entity_id@ by {
                o.lemma_filter_pred(p, j);
            }
            lemma_revoked_rows(o, self@.sessions, entity_id@);
            assert forall|now: u64| #[trigger] self@.sessions_of(entity_id@, now).len() == 0 by {
                lemma_none_left(self@, entity_id@, now);
            }
            assert forall|e2: Seq<char>, now: u64| e2 != entity_id@ implies #[trigger] self@.sessions_of(e2, now)
                == o.filter(session_of(e2, now)) by {
                lemma_filter_within(o, p, session_of(e2, now));
            }
        }
        removed as u64
    }
}


impl AuthStore {
    /// Position of the credential of `entity_id`, if any.
    fn find_credential(&self, entity_id: &str) -> (r: Option<usize>)
        requires
            self.wf(),
        ensures
            r matches Some(i) ==> i < self@.credentials.len() && self@.credentials[i as int].0 == entity_id@
                && self@.credential(entity_id@) == Some(
                (self@.credentials[i as int].1, self@.credentials[i as int].2),
            ),
            r is None ==> forall|j: int|
                0 <= j < self@.credentials.len() ==> #[trigger] self@.credentials[j].0 != entity_id@,
            r is None ==> self@.credential(entity_id@) is None,
    {
        let ghost cs = self@.credentials;
        let mut i: usize = 0;
        while i < self.credentials.len()
            invariant
                self.wf(),
                cs == self@.credentials,
                cs.len() == self.credentials@.len(),
                i <= cs.len(),
                forall|j: int| 0 <= j < i ==> #[trigger] cs[j].0 != entity_id@,
            decreases cs.len() - i,
        {
            if str_equal(self.credentials[i].entity_id.as_str(), entity_id) {
                proof {
                    assert(cs[i as int].0 == entity_id@);
                    let c = choose|j: int| 0 <= j < cs.len() && #[trigger] cs[j].0 == entity_id@;
                    if c != i {
                        if c < i {
                            assert(cs[c].0 != entity_id@);
                        } else {
                            assert(cs[i as int].0 != cs[c].0);
                        }
                    }
                }
                return Some(i);
            }
            i = i + 1;
        }
        None
    }

    /// Stores the credential of `entity_id`: `salt` and the digest of salt
    /// and `password`, replacing any earlier credential.
    pub fn set_password_with_salt(&mut self, entity_id: &str, password: &str, salt: &str)
        requires
            old(self).wf(),
        ensures
            final(self).wf(),
            final(self)@.puts_credential(old(self)@, entity_id@, (salt@, password_digest(salt@, password@))),
    {
        let ghost o = self@.credentials;
        let ghost os = self@.sessions;
        let h = hash_password(salt, password);
        let c = Credential {
            entity_id: String::from_str(entity_id),
            salt: String::from_str(salt),
            hash: h,
        };
        let ghost cv = (entity_id@, salt@, password_digest(salt@, password@));
        let ghost mut w: int = 0;
        match self.find_credential(entity_id) {
            Some(i) => {
                self.credentials.set(i, c);
                proof {
                    w = i as int;
                    let s = self@.credentials;
                    assert(s =~= o.update(i as int, cv));
                    assert forall|a: int, b: int| 0 <= a < b < s.len() implies #[trigger] s[a].0 != #[trigger] s[b].0 by {
                        assert(o[a].0 != o[b].0);
                    }
                }
            },
            None => {
                self.credentials.push(c);
                proof {
                    w = o.len() as int;
                    let s = self@.credentials;
                    assert(s =~= o.push(cv));
                    assert forall|a: int, b: int| 0 <= a < b < s.len() implies #[trigger] s[a].0 != #[trigger] s[b].0 by {
                        if b < o.len() {
                            assert(o[a].0 != o[b].0);
                        } else {
                            assert(o[a].0 != entity_id@);
                        }
                    }
                }
            },
        }
        proof {
            let s = self@.credentials;
            assert(0 <= w < s.len() && s[w] == cv);
            assert(self@.sessions =~= os);
            assert forall|e2: Seq<char>| #[trigger] self@.credential(e2) == if e2 == entity_id@ {
                Some((salt@, password_digest(salt@, password@)))
            } else {
                AuthView { sessions: os, credentials: o }.credential(e2)
            } by {
                let ov = AuthView { sessions: os, credentials: o };
                if exists|j: int| 0 <= j < s.len() && #[trigger] s[j].0 == e2 {
                    let c1 = choose|j: int| 0 <= j < s.len() && #[trigger] s[j].0 == e2;
                    if e2 == entity_id@ {
                        if c1 < o.len() && o[c1].0 == e2 && s[c1] != cv {
                            assert(false);
                        }
                    } else {
                        assert(o[c1] == s[c1]);
                        let c2 = choose|j: int| 0 <= j < o.len() && #[trigger] o[j].0 == e2;
                        if c2 != c1 {
                            assert(s[c2].0 == e2);
                        }
                    }
                } else if e2 != entity_id@ {
                    assert forall|j: int| 0 <= j < o.len() implies #[trigger] o[j].0 != e2 by {
                        assert(s[j].0 != e2 || s[j] != o[j]);
                    }
                } else {
                    assert(s[w].0 == e2);
                }
            }
        }
    }

    /// Sets the password of `entity_id` under a fresh random salt.
    pub fn set_password(&mut self, entity_id: &str, password: &str) -> (r: Result<(), CapbitError>)
        requires
            old(self).wf(),
        ensures
            final(self).wf(),
            r is Ok ==> exists|b: Seq<u8>|
                b.len() == 16 && final(self)@.puts_credential(
                    old(self)@,
                    entity_id@,
                    (#[trigger] hex_encoding(b), password_digest(hex_encoding(b), password@)),
                ),
            r matches Err(e) ==> final(self)@ == old(self)@ && e.message@ == "Failed to generate random bytes"@,
    {
        match generate_salt() {
            Some(salt) => {
                self.set_password_with_salt(entity_id, password, salt.as_str());
                Ok(())
            },
            None => Err(CapbitError { message: String::from_str("Failed to generate random bytes") }),
        }
    }

    /// Does `password` match the stored credential of `entity_id`? `false`
    /// when there is none.
    pub fn verify_password(&self, entity_id: &str, password: &str) -> (ok: bool)
        requires
            self.wf(),
        ensures
            ok == self@.password_matches(entity_id@, password@),
    {
        match self.find_credential(entity_id) {
            Some(i) => {
                let h = hash_password(self.credentials[i].salt.as_str(), password);
                str_equal(h.as_str(), self.credentials[i].hash.as_str())
            },
            None => false,
        }
    }

    /// Checks the password and opens a session that never expires; "Invalid
    /// credentials" when the password does not match.
    pub fn login(&mut self, entity_id: &str, password: &str, now: u64) -> (r: Result<String, CapbitError>)
        requires
            old(self).wf(),
        ensures
            final(self).wf(),
            !old(self)@.password_matches(entity_id@, password@) ==> final(self)@ == old(self)@ && (r matches Err(
                e,
            ) && e.message@ == "Invalid credentials"@),
            old(self)@.password_matches(entity_id@, password@) ==> {
                &&& r matches Ok(t) ==> final(self)@.puts_session(old(self)@, token_key(t@), (entity_id@, now, 0))
                &&& r matches Err(e) ==> final(self)@ == old(self)@ && e.message@
                    == "Failed to generate random bytes"@
            },
    {
        if !self.verify_password(entity_id, password) {
            return Err(CapbitError { message: String::from_str("Invalid credentials") });
        }
        self.create_session(entity_id, None, now)
    }
}

} // verus!
