use vstd::prelude::*;
use vstd::hash_map::StringHashMap;

use crate::password::{bcrypt_verify_result, verify_password};
use crate::text::{
    chars_of, find_char, is_first_index, has_char, lemma_first_index_unique,
    prefix_of, split_chars, split_on, starts_with, string_of_range, views_of,
};

verus! {

/// A lowercase hexadecimal digit.
pub open spec fn is_lower_hex(c: char) -> bool {
    ('0' <= c <= '9') || ('a' <= c <= 'f')
}

/// The hyphenated lowercase text of a version-4 UUID: 36 characters, `-` at
/// positions 8, 13, 18 and 23, hexadecimal digits elsewhere, the version
/// digit `4` at position 14 and a variant digit among `8`, `9`, `a`, `b` at
/// position 19.
pub open spec fn is_uuid_v4_text(s: Seq<char>) -> bool {
    &&& s.len() == 36
    &&& forall|i: int| 0 <= i < 36 ==> if i == 8 || i == 13 || i == 18 || i == 23 {
        s[i] == '-'
    } else {
        is_lower_hex(#[trigger] s[i])
    }
    &&& s[14] == '4'
    &&& (s[19] == '8' || s[19] == '9' || s[19] == 'a' || s[19] == 'b')
}

/// The lowercase hexadecimal digit of a value below sixteen.
pub open spec fn hex_digit(n: u8) -> char {
    if n == 0 { '0' } else if n == 1 { '1' } else if n == 2 { '2' } else if n == 3 { '3' }
    else if n == 4 { '4' } else if n == 5 { '5' } else if n == 6 { '6' } else if n == 7 { '7' }
    else if n == 8 { '8' } else if n == 9 { '9' } else if n == 10 { 'a' } else if n == 11 { 'b' }
    else if n == 12 { 'c' } else if n == 13 { 'd' } else if n == 14 { 'e' } else { 'f' }
}

/// Bytes in lowercase hexadecimal, two digits per byte, high half first.
pub open spec fn hex_of(bytes: Seq<u8>) -> Seq<char>
    decreases bytes.len(),
{
    if bytes.len() == 0 {
        Seq::empty()
    } else {
        hex_of(bytes.drop_last()) + seq![hex_digit(bytes.last() / 16), hex_digit(bytes.last() % 16)]
    }
}

/// Sixteen random bytes made a version-4 UUID: the high half of byte 6
/// becomes the version `4`, the two high bits of byte 8 become `10`.
pub open spec fn v4_bytes(random: Seq<u8>) -> Seq<u8> {
    random.update(6, (random[6] & 0x0f) | 0x40).update(8, (random[8] & 0x3f) | 0x80)
}

/// The hyphenated lowercase text of the sixteen bytes of a UUID: groups of
/// 4, 2, 2, 2 and 6 bytes in hexadecimal, joined by `-`.
pub open spec fn uuid_text(u: Seq<u8>) -> Seq<char> {
    hex_of(u.subrange(0, 4)) + seq!['-'] + hex_of(u.subrange(4, 6)) + seq!['-']
        + hex_of(u.subrange(6, 8)) + seq!['-'] + hex_of(u.subrange(8, 10)) + seq!['-']
        + hex_of(u.subrange(10, 16))
}

/// Calls `uuid::Builder::from_random_bytes(random).into_uuid()` and formats
/// the UUID with `to_string`. Claimed, as the source reads: the version and
/// variant bits are set (`v4_bytes`) and the text is the hyphenated
/// lowercase form (`uuid_text`). Nothing is drawn here; no call panics.
#[verifier::external_body]
fn uuid_v4_text_of(random: [u8; 16]) -> (t: String)
    ensures
        t@ == uuid_text(v4_bytes(random@)),
{
    uuid::Builder::from_random_bytes(random).into_uuid().to_string()
}

/// Every hexadecimal digit is a lowercase hexadecimal character.
proof fn lemma_hex_digit(n: u8)
    requires
        n < 16,
    ensures
        is_lower_hex(hex_digit(n)),
{
}

/// The hexadecimal text of some bytes: two digits per byte, each one a
/// lowercase hexadecimal character, the first being the high half of the
/// first byte.
proof fn lemma_hex_of(bytes: Seq<u8>)
    ensures
        hex_of(bytes).len() == 2 * bytes.len(),
        forall|i: int| 0 <= i < hex_of(bytes).len() ==> is_lower_hex(#[trigger] hex_of(bytes)[i]),
        bytes.len() > 0 ==> hex_of(bytes)[0] == hex_digit(bytes[0] / 16),
    decreases bytes.len(),
{
    if bytes.len() > 0 {
        let init = bytes.drop_last();
        lemma_hex_of(init);
        let b = bytes.last();
        lemma_hex_digit(b / 16);
        lemma_hex_digit(b % 16);
        let h = hex_of(bytes);
        assert(h == hex_of(init) + seq![hex_digit(b / 16), hex_digit(b % 16)]);
        assert forall|i: int| 0 <= i < h.len() implies is_lower_hex(#[trigger] h[i]) by {
            if i < hex_of(init).len() {
                assert(h[i] == hex_of(init)[i]);
            }
        }
        if init.len() > 0 {
            assert(init[0] == bytes[0]);
        }
    }
}

/// The version and variant digits that `v4_bytes` leaves.
proof fn lemma_v4_nibbles(a: u8, b: u8)
    ensures
        ((a & 0x0f) | 0x40) / 16 == 4,
        8 <= ((b & 0x3f) | 0x80) / 16 <= 11,
{
    assert(((a & 0x0f) | 0x40) / 16 == 4) by (bit_vector);
    assert(8 <= ((b & 0x3f) | 0x80) / 16 <= 11) by (bit_vector);
}

/// The text of any sixteen random bytes made a version-4 UUID has the shape
/// of a version-4 UUID.
pub proof fn lemma_uuid_text_is_v4(random: Seq<u8>)
    requires
        random.len() == 16,
    ensures
        is_uuid_v4_text(uuid_text(v4_bytes(random))),
{
    let u = v4_bytes(random);
    let a = hex_of(u.subrange(0, 4));
    let b = hex_of(u.subrange(4, 6));
    let c = hex_of(u.subrange(6, 8));
    let d = hex_of(u.subrange(8, 10));
    let e = hex_of(u.subrange(10, 16));
    lemma_hex_of(u.subrange(0, 4));
    lemma_hex_of(u.subrange(4, 6));
    lemma_hex_of(u.subrange(6, 8));
    lemma_hex_of(u.subrange(8, 10));
    lemma_hex_of(u.subrange(10, 16));
    lemma_v4_nibbles(random[6], random[8]);
    let h = seq!['-'];
    let t = uuid_text(u);
    assert(t == a + h + b + h + c + h + d + h + e);
    assert(t.len() == 36);
    assert forall|i: int| 0 <= i < 36 implies if i == 8 || i == 13 || i == 18 || i == 23 {
        t[i] == '-'
    } else {
        is_lower_hex(#[trigger] t[i])
    } by {
        if i < 8 {
            assert(t[i] == a[i]);
        } else if i == 8 {
        } else if i < 13 {
            assert(t[i] == b[i - 9]);
        } else if i == 13 {
        } else if i < 18 {
            assert(t[i] == c[i - 14]);
        } else if i == 18 {
        } else if i < 23 {
            assert(t[i] == d[i - 19]);
        } else if i == 23 {
        } else {
            assert(t[i] == e[i - 24]);
        }
    }
    assert(t[14] == c[0]);
    assert(u.subrange(6, 8)[0] == (random[6] & 0x0f) | 0x40);
    assert(t[19] == d[0]);
    assert(u.subrange(8, 10)[0] == (random[8] & 0x3f) | 0x80);
}

/// `Bearer ` (with its trailing space), the prefix of a bearer authorization header.
pub open spec fn bearer_prefix() -> Seq<char> {
    seq!['B', 'e', 'a', 'r', 'e', 'r', ' ']
}

/// `token`, the query parameter that may carry a session token.
pub open spec fn token_key() -> Seq<char> {
    seq!['t', 'o', 'k', 'e', 'n']
}

/// The token of an `Authorization` header value: what follows `Bearer `.
pub open spec fn spec_bearer_token(authorization: Option<Seq<char>>) -> Option<Seq<char>> {
    match authorization {
        Some(v) => if starts_with(v, bearer_prefix()) {
            Some(v.skip(7))
        } else {
            None
        },
        None => None,
    }
}

/// The value of a `key=value` query pair whose key is `token`; a pair
/// splits at its first `=`, and one without `=` has no value.
pub open spec fn token_of_pair(pair: Seq<char>) -> Option<Seq<char>> {
    if has_char(pair, '=') {
        let i = choose|i: int| is_first_index(pair, '=', i);
        if pair.take(i) == token_key() {
            Some(pair.skip(i + 1))
        } else {
            None
        }
    } else {
        None
    }
}

/// The first token value among the query pairs, from the left.
pub open spec fn first_token(pairs: Seq<Seq<char>>) -> Option<Seq<char>>
    decreases pairs.len(),
{
    if pairs.len() == 0 {
        None
    } else {
        match token_of_pair(pairs[0]) {
            Some(v) => Some(v),
            None => first_token(pairs.drop_first()),
        }
    }
}

/// The session token carried by a query string (the pairs are separated by `&`).
pub open spec fn spec_token_from_query(query: Option<Seq<char>>) -> Option<Seq<char>> {
    match query {
        Some(q) => first_token(split_on(q, '&')),
        None => None,
    }
}

/// The token a request presents: the bearer token, else the one in its query string.
pub open spec fn request_token(authorization: Option<Seq<char>>, query: Option<Seq<char>>) -> Option<Seq<char>> {
    match spec_bearer_token(authorization) {
        Some(t) => Some(t),
        None => spec_token_from_query(query),
    }
}

/// The view of an optional string slice.
pub open spec fn opt_view(s: Option<&str>) -> Option<Seq<char>> {
    match s {
        Some(v) => Some(v@),
        None => None,
    }
}

/// The token of an `Authorization` header value, if it is a bearer token.
pub fn bearer_token(authorization: Option<&str>) -> (t: Option<String>)
    ensures
        match t {
            Some(s) => spec_bearer_token(opt_view(authorization)) == Some(s@),
            None => spec_bearer_token(opt_view(authorization)) is None,
        },
{
    match authorization {
        None => None,
        Some(v) => {
            let chars = chars_of(v);
            let prefix: Vec<char> = vec!['B', 'e', 'a', 'r', 'e', 'r', ' '];
            assert(prefix@ =~= bearer_prefix());
            assert(prefix@.take(7) =~= prefix@);
            if prefix_of(&prefix, 7, &chars) {
                let s = string_of_range(&chars, 7, chars.len());
                assert(s@ =~= v@.skip(7));
                Some(s)
            } else {
                None
            }
        },
    }
}

/// The value of a query pair if its key is `token`.
fn token_value(pair: &Vec<char>) -> (t: Option<String>)
    ensures
        match t {
            Some(s) => token_of_pair(pair@) == Some(s@),
            None => token_of_pair(pair@) is None,
        },
{
    match find_char(pair, '=') {
        None => None,
        Some(i) => {
            proof {
                let j = choose|j: int| is_first_index(pair@, '=', j);
                lemma_first_index_unique(pair@, '=', i as int, j);
            }
            let key: Vec<char> = vec!['t', 'o', 'k', 'e', 'n'];
            assert(key@ =~= token_key());
            assert(key@.take(5) =~= key@);
            let is_token = i == 5 && prefix_of(&key, 5, pair);
            proof {
                if pair@.take(i as int) == token_key() {
                    assert(pair@.take(5) =~= pair@.take(i as int));
                }
                if is_token {
                    assert(pair@.take(i as int) =~= pair@.take(5));
                }
            }
            if is_token {
                Some(string_of_range(pair, i + 1, pair.len()))
            } else {
                None
            }
        },
    }
}

/// The session token carried by a query string, if any.
pub fn token_from_query(query: Option<&str>) -> (t: Option<String>)
    ensures
        match t {
            Some(s) => spec_token_from_query(opt_view(query)) == Some(s@),
            None => spec_token_from_query(opt_view(query)) is None,
        },
{
    match query {
        None => None,
        Some(q) => {
            let chars = chars_of(q);
            let pairs = split_chars(&chars, '&');
            let ghost all = split_on(q@, '&');
            let mut i: usize = 0;
            assert(all.skip(0) =~= all);
            while i < pairs.len()
                invariant
                    i <= pairs@.len(),
                    views_of(pairs@) == all,
                    all == split_on(q@, '&'),
                    opt_view(query) == Some(q@),
                    first_token(all) == first_token(all.skip(i as int)),
                decreases pairs@.len() - i,
            {
                let ghost rest = all.skip(i as int);
                assert(rest[0] == pairs@[i as int]@);
                assert(rest.drop_first() =~= all.skip(i + 1));
                match token_value(&pairs[i]) {
                    Some(v) => {
                        assert(rest.len() > 0);
                        assert(first_token(rest) == Some(v@));
                        return Some(v);
                    },
                    None => {},
                }
                i = i + 1;
            }
            assert(all.skip(i as int).len() == 0);
            None
        },
    }
}

/// What a login answers: the new session token and the user name.
pub struct LoginResponse {
    pub token: String,
    pub username: String,
}

/// What the login logic reads of an administrator account.
pub struct AdminUser {
    pub username: String,
    pub password_hash: String,
}

/// The sessions of the administration console: session token to user name.
pub struct AdminAuth {
    sessions: StringHashMap<String>,
}

impl AdminAuth {
    /// The open sessions, token to user name.
    pub closed spec fn sessions(&self) -> Map<Seq<char>, Seq<char>> {
        self.sessions@.map_values(|u: String| u@)
    }

    /// No session is open.
    pub fn new() -> (a: Self)
        ensures
            a.sessions() == Map::<Seq<char>, Seq<char>>::empty(),
    {
        let a = AdminAuth { sessions: StringHashMap::new() };
        assert(a.sessions() =~= Map::<Seq<char>, Seq<char>>::empty());
        a
    }

    /// Opens a session for `username` under the token made of sixteen random
    /// bytes (a version-4 UUID in text) and returns the token.
    pub fn create_session(&mut self, username: &str, random: [u8; 16]) -> (token: String)
        ensures
            token@ == uuid_text(v4_bytes(random@)),
            is_uuid_v4_text(token@),
            final(self).sessions() == old(self).sessions().insert(token@, username@),
    {
        let token = uuid_v4_text_of(random);
        proof {
            lemma_uuid_text_is_v4(random@);
        }
        let name = String::from_str(username);
        self.sessions.insert(token.clone(), name);
        assert(self.sessions() =~= old(self).sessions().insert(token@, username@));
        token
    }

    /// The user name of the session that `token` opened, if it is open.
    pub fn validate(&self, token: &str) -> (user: Option<String>)
        ensures
            match user {
                Some(u) => self.sessions().contains_key(token@) && u@ == self.sessions()[token@],
                None => !self.sessions().contains_key(token@),
            },
    {
        match self.sessions.get(token) {
            Some(u) => Some(u.clone()),
            None => None,
        }
    }

    /// Closes the session of `token`, if it is open.
    pub fn revoke(&mut self, token: &str)
        ensures
            final(self).sessions() == old(self).sessions().remove(token@),
    {
        self.sessions.remove(token);
        assert(self.sessions() =~= old(self).sessions().remove(token@));
    }

    /// Whether a request may reach the protected routes: it presents a token
    /// (bearer header first, else the `token` query parameter) of an open session.
    pub fn authorize(&self, authorization: Option<&str>, query: Option<&str>) -> (ok: bool)
        ensures
            ok == match request_token(opt_view(authorization), opt_view(query)) {
                Some(t) => self.sessions().contains_key(t),
                None => false,
            },
    {
        let token = match bearer_token(authorization) {
            Some(t) => Some(t),
            None => token_from_query(query),
        };
        match token {
            None => false,
            Some(t) => self.validate(t.as_str()).is_some(),
        }
    }

    /// Logs an administrator in: `None` (unauthorized) when the account is
    /// unknown or the password does not match its hash; otherwise a session
    /// is opened for the account's name under the token made of `random`.
    pub fn login(&mut self, user: Option<AdminUser>, password: &str, random: [u8; 16]) -> (r: Option<LoginResponse>)
        ensures
            match user {
                None => r is None && final(self).sessions() == old(self).sessions(),
                Some(u) => if bcrypt_verify_result(password@, u.password_hash@) == Some(true) {
                    r matches Some(resp) && resp.username@ == u.username@
                        && resp.token@ == uuid_text(v4_bytes(random@)) && is_uuid_v4_text(resp.token@)
                        && final(self).sessions() == old(self).sessions().insert(resp.token@, u.username@)
                } else {
                    r is None && final(self).sessions() == old(self).sessions()
                },
            },
    {
        match user {
            None => None,
            Some(u) => {
                if !verify_password(password, u.password_hash.as_str()) {
                    return None;
                }
                let token = self.create_session(u.username.as_str(), random);
                Some(LoginResponse { token, username: u.username })
            },
        }
    }

    /// Logs out: closes the session of the bearer token, if the header carries one.
    pub fn logout(&mut self, authorization: Option<&str>)
        ensures
            final(self).sessions() == match spec_bearer_token(opt_view(authorization)) {
                Some(t) => old(self).sessions().remove(t),
                None => old(self).sessions(),
            },
    {
        match bearer_token(authorization) {
            Some(t) => self.revoke(t.as_str()),
            None => {},
        }
    }

    /// The session behind the bearer token: `None` (unauthorized) without a
    /// bearer token or when its session is not open.
    pub fn me(&self, authorization: Option<&str>) -> (r: Option<LoginResponse>)
        ensures
            match spec_bearer_token(opt_view(authorization)) {
                Some(t) => if self.sessions().contains_key(t) {
                    r matches Some(resp) && resp.token@ == t && resp.username@ == self.sessions()[t]
                } else {
                    r is None
                },
                None => r is None,
            },
    {
        let token = match bearer_token(authorization) {
            Some(t) => t,
            None => return None,
        };
        match self.validate(token.as_str()) {
            Some(username) => Some(LoginResponse { token, username }),
            None => None,
        }
    }
}

impl Default for AdminAuth {
    fn default() -> (a: Self)
        ensures
            a.sessions() == Map::<Seq<char>, Seq<char>>::empty(),
    {
        Self::new()
    }
}

/// A session opened by `create_session` is found by `validate` under its
/// token, with the user name it was opened for.
pub proof fn lemma_created_session_validates(before: AdminAuth, after: AdminAuth, token: Seq<char>, username: Seq<char>)
    requires
        after.sessions() == before.sessions().insert(token, username),
    ensures
        after.sessions().contains_key(token),
        after.sessions()[token] == username,
{
}

/// Revoking a token closes its session and leaves every other session as it was.
pub proof fn lemma_revoke_closes_only_that_session(before: AdminAuth, after: AdminAuth, token: Seq<char>, other: Seq<char>)
    requires
        after.sessions() == before.sessions().remove(token),
        other != token,
    ensures
        !after.sessions().contains_key(token),
        after.sessions().contains_key(other) == before.sessions().contains_key(other),
        before.sessions().contains_key(other) ==> after.sessions()[other] == before.sessions()[other],
{
}

/// The token a login hands out authorizes requests that present it as a
/// bearer token, until it is revoked.
pub proof fn lemma_login_token_authorizes(after: AdminAuth, token: Seq<char>, query: Option<Seq<char>>)
    requires
        after.sessions().contains_key(token),
    ensures
        request_token(Some(bearer_prefix() + token), query) == Some(token),
        spec_bearer_token(Some(bearer_prefix() + token)) == Some(token),
{
    let h = bearer_prefix() + token;
    assert(h.take(7) =~= bearer_prefix());
    assert(h.skip(7) =~= token);
}

/// A change to the open sessions, as `create_session` and `revoke` make it.
pub enum SessionOp {
    /// A session opened under `token` for `user`.
    Create { token: Seq<char>, user: Seq<char> },
    /// The session of `token` closed.
    Revoke { token: Seq<char> },
}

/// The sessions after one change.
pub open spec fn apply_session_op(m: Map<Seq<char>, Seq<char>>, op: SessionOp) -> Map<Seq<char>, Seq<char>> {
    match op {
        SessionOp::Create { token, user } => m.insert(token, user),
        SessionOp::Revoke { token } => m.remove(token),
    }
}

/// The sessions after the changes, in order.
pub open spec fn apply_session_ops(m: Map<Seq<char>, Seq<char>>, ops: Seq<SessionOp>) -> Map<Seq<char>, Seq<char>>
    decreases ops.len(),
{
    if ops.len() == 0 {
        m
    } else {
        apply_session_op(apply_session_ops(m, ops.drop_last()), ops.last())
    }
}

/// The change concerns the session of `token`.
pub open spec fn touches(op: SessionOp, token: Seq<char>) -> bool {
    match op {
        SessionOp::Create { token: t, .. } => t == token,
        SessionOp::Revoke { token: t } => t == token,
    }
}

/// A session stays open, for the same user, through any sequence of session
/// openings and closings that does not concern its token: `validate` keeps
/// finding it until it is revoked (or a new session happens to draw the same
/// token, which the random tokens make unlikely but do not exclude).
pub proof fn lemma_session_stays_open(m: Map<Seq<char>, Seq<char>>, token: Seq<char>, ops: Seq<SessionOp>)
    requires
        m.contains_key(token),
        forall|i: int| 0 <= i < ops.len() ==> !touches(#[trigger] ops[i], token),
    ensures
        apply_session_ops(m, ops).contains_key(token),
        apply_session_ops(m, ops)[token] == m[token],
    decreases ops.len(),
{
    if ops.len() > 0 {
        let init = ops.drop_last();
        assert forall|i: int| 0 <= i < init.len() implies !touches(#[trigger] init[i], token) by {
            assert(init[i] == ops[i]);
        }
        lemma_session_stays_open(m, token, init);
        assert(!touches(ops[ops.len() - 1], token));
    }
}

/// A text without the separator splits into itself alone.
proof fn lemma_split_without_separator(s: Seq<char>, sep: char)
    requires
        !has_char(s, sep),
    ensures
        split_on(s, sep) == seq![s],
    decreases s.len(),
{
    if s.len() > 0 {
        let init = s.drop_last();
        assert(!has_char(init, sep)) by {
            if has_char(init, sep) {
                let i = choose|i: int| 0 <= i < init.len() && init[i] == sep;
                assert(s[i] == sep);
            }
        }
        lemma_split_without_separator(init, sep);
        assert(s.last() != sep) by {
            assert(s[s.len() - 1] == s.last());
        }
        assert(init.push(s.last()) =~= s);
        assert(seq![init].update(0, init.push(s.last())) =~= seq![s]);
    } else {
        assert(s =~= Seq::<char>::empty());
    }
}

/// A query made of a single `token=<value>` pair, the value holding no `&`,
/// carries that value as its session token.
pub proof fn lemma_query_token_pair(value: Seq<char>)
    requires
        !has_char(value, '&'),
    ensures
        spec_token_from_query(Some(token_key() + seq!['='] + value)) == Some(value),
{
    let q = token_key() + seq!['='] + value;
    assert(!has_char(q, '&')) by {
        if has_char(q, '&') {
            let i = choose|i: int| 0 <= i < q.len() && q[i] == '&';
            if i >= 6 {
                assert(value[i - 6] == q[i]);
            }
        }
    }
    lemma_split_without_separator(q, '&');
    assert(is_first_index(q, '=', 5));
    assert(has_char(q, '='));
    let j = choose|j: int| is_first_index(q, '=', j);
    lemma_first_index_unique(q, '=', 5, j);
    assert(q.take(5) =~= token_key());
    assert(q.skip(6) =~= value);
    assert(seq![q].drop_first() =~= Seq::<Seq<char>>::empty());
}

} // verus!
