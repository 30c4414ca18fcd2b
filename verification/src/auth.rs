//! The pure parts of the OAuth2 exchange with Google: the client settings,
//! the authorization code and state in the browser's redirect request, the
//! reply to that request, and the choice of the token to revoke.

use vstd::prelude::*;
use vstd::string::StringExecFns;
use crate::decimal::{decimal_of, decimal_text};
use crate::text::{nth_word, same_text, words};
use crate::upstream::{parse_url, url_parse};

verus! {

/// Google's authorization endpoint.
pub const GOOGLE_AUTH_URL: &'static str = "https://accounts.google.com/o/oauth2/v2/auth";

/// Google's token endpoint.
pub const GOOGLE_TOKEN_URL: &'static str = "https://www.googleapis.com/oauth2/v3/token";

/// Google's token revocation endpoint (RFC 7009).
pub const GOOGLE_REVOCATION_URL: &'static str = "https://oauth2.googleapis.com/revoke";

/// The scope asked for: full access to the mailbox.
pub const GMAIL_SCOPE: &'static str = "https://mail.google.com/";

/// The client id used for the authorization.
pub const AUTHORIZING_CLIENT_ID: &'static str =
    "1029342291235-httptjo81jen9k1ftv4enscrdr58l4d8.apps.googleusercontent.com";

/// The client id used to revoke the token.
pub const REVOKING_CLIENT_ID: &'static str =
    "1029342291235-h8tafdrogur0od1pjl96bs0dkrkql29q.apps.googleusercontent.com";

/// Where Google sends the browser back to: the local redirect server.
pub const LOCAL_REDIRECT_URL: &'static str = "http://localhost:8080";

/// The address that the local redirect server listens on.
pub const LOCAL_LISTEN_ADDRESS: &'static str = "127.0.0.1:8080";

/// The redirect URL registered for the revoking client.
pub const README_REDIRECT_URL: &'static str =
    "https://github.com/radical-bike-lobby/switrs-courier/blob/main/README.md";

/// The origin that the path of the redirect request is resolved against.
pub const REDIRECT_ORIGIN: &'static str = "http://localhost";

/// What the browser shows once the code has arrived.
pub const REDIRECT_REPLY_MESSAGE: &'static str = "Go back to your terminal :)";

/// The settings of an OAuth2 client of Google's endpoints.
pub struct OAuthClientConfig {
    pub client_id: String,
    pub client_secret: String,
    pub auth_url: String,
    pub token_url: String,
    pub redirect_url: String,
    pub revocation_url: String,
}

/// A client of Google's endpoints with the given id, secret and redirect URL.
pub open spec fn google_client(
    c: OAuthClientConfig,
    client_id: Seq<char>,
    client_secret: Seq<char>,
    redirect_url: Seq<char>,
) -> bool {
    &&& c.client_id@ == client_id
    &&& c.client_secret@ == client_secret
    &&& c.auth_url@ == GOOGLE_AUTH_URL@
    &&& c.token_url@ == GOOGLE_TOKEN_URL@
    &&& c.redirect_url@ == redirect_url
    &&& c.revocation_url@ == GOOGLE_REVOCATION_URL@
}

/// The client that asks for the authorization, redirecting to the local
/// server.
pub fn authorizing_client(client_secret: &str) -> (c: OAuthClientConfig)
    ensures
        google_client(c, AUTHORIZING_CLIENT_ID@, client_secret@, LOCAL_REDIRECT_URL@),
{
    OAuthClientConfig {
        client_id: AUTHORIZING_CLIENT_ID.to_owned(),
        client_secret: client_secret.to_owned(),
        auth_url: GOOGLE_AUTH_URL.to_owned(),
        token_url: GOOGLE_TOKEN_URL.to_owned(),
        redirect_url: LOCAL_REDIRECT_URL.to_owned(),
        revocation_url: GOOGLE_REVOCATION_URL.to_owned(),
    }
}

/// The client that revokes the token.
pub fn revoking_client(client_secret: &str) -> (c: OAuthClientConfig)
    ensures
        google_client(c, REVOKING_CLIENT_ID@, client_secret@, README_REDIRECT_URL@),
{
    OAuthClientConfig {
        client_id: REVOKING_CLIENT_ID.to_owned(),
        client_secret: client_secret.to_owned(),
        auth_url: GOOGLE_AUTH_URL.to_owned(),
        token_url: GOOGLE_TOKEN_URL.to_owned(),
        redirect_url: README_REDIRECT_URL.to_owned(),
        revocation_url: GOOGLE_REVOCATION_URL.to_owned(),
    }
}

// ------------------------------------------------------------ the redirect

/// The value of the first pair whose key is `key`.
pub open spec fn first_value(pairs: Seq<(Seq<char>, Seq<char>)>, key: Seq<char>) -> Option<Seq<char>>
    decreases pairs.len(),
{
    if pairs.len() == 0 {
        None
    } else if pairs[0].0 == key {
        Some(pairs[0].1)
    } else {
        first_value(pairs.drop_first(), key)
    }
}

/// The value of the first pair whose key is `key`.
pub fn query_value(pairs: &Vec<(String, String)>, key: &str) -> (r: Option<String>)
    ensures
        r.deep_view() == first_value(pairs.deep_view(), key@),
{
    let ghost pv = pairs.deep_view();
    let mut i: usize = 0;
    assert(pv.skip(0) =~= pv);
    while i < pairs.len()
        invariant
            i <= pairs.len(),
            pv == pairs.deep_view(),
            first_value(pv, key@) == first_value(pv.skip(i as int), key@),
        decreases pairs.len() - i,
    {
        assert(pv.skip(i as int)[0] == pv[i as int]);
        assert(pv[i as int] == pairs@[i as int].deep_view());
        assert(pv.skip(i as int).drop_first() =~= pv.skip(i + 1));
        if same_text(pairs[i].0.as_str(), key) {
            return Some(pairs[i].1.clone());
        }
        i = i + 1;
    }
    assert(pv.skip(i as int).len() == 0);
    None
}

/// The authorization code and the state among the decoded query pairs of the
/// redirect: the first `code` and the first `state`, when both are there.
pub open spec fn code_and_state(pairs: Seq<(Seq<char>, Seq<char>)>) -> Option<(Seq<char>, Seq<char>)> {
    match (first_value(pairs, "code"@), first_value(pairs, "state"@)) {
        (Some(code), Some(state)) => Some((code, state)),
        _ => None,
    }
}

proof fn lemma_first_value_push(pairs: Seq<(Seq<char>, Seq<char>)>, x: (Seq<char>, Seq<char>), key: Seq<char>)
    requires
        x.0 != key,
    ensures
        first_value(pairs.push(x), key) == first_value(pairs, key),
    decreases pairs.len(),
{
    if pairs.len() == 0 {
        assert(pairs.push(x).drop_first() =~= Seq::<(Seq<char>, Seq<char>)>::empty());
    } else {
        assert(pairs.push(x)[0] == pairs[0]);
        assert(pairs.push(x).drop_first() =~= pairs.drop_first().push(x));
        lemma_first_value_push(pairs.drop_first(), x, key);
    }
}

proof fn lemma_first_value_at(pairs: Seq<(Seq<char>, Seq<char>)>, key: Seq<char>, i: int)
    requires
        0 <= i < pairs.len(),
        pairs[i].0 == key,
        forall|j: int| 0 <= j < i ==> #[trigger] pairs[j].0 != key,
    ensures
        first_value(pairs, key) == Some(pairs[i].1),
    decreases i,
{
    if i > 0 {
        assert(pairs[0].0 != key);
        assert forall|j: int| 0 <= j < i - 1 implies #[trigger] pairs.drop_first()[j].0 != key by {
            assert(pairs.drop_first()[j] == pairs[j + 1]);
        }
        lemma_first_value_at(pairs.drop_first(), key, i - 1);
    }
}

proof fn lemma_first_value_absent(pairs: Seq<(Seq<char>, Seq<char>)>, key: Seq<char>)
    requires
        forall|j: int| 0 <= j < pairs.len() ==> #[trigger] pairs[j].0 != key,
    ensures
        first_value(pairs, key) is None,
    decreases pairs.len(),
{
    if pairs.len() > 0 {
        assert(pairs[0].0 != key);
        assert forall|j: int| 0 <= j < pairs.len() - 1 implies #[trigger] pairs.drop_first()[j].0 != key by {
            assert(pairs.drop_first()[j] == pairs[j + 1]);
        }
        lemma_first_value_absent(pairs.drop_first(), key);
    }
}

/// Query pairs whose key is neither `code` nor `state` change nothing of
/// what is read, wherever they stand: added after the others or before them.
pub proof fn law_other_pairs_ignored(pairs: Seq<(Seq<char>, Seq<char>)>, k: Seq<char>, v: Seq<char>)
    requires
        k != "code"@,
        k != "state"@,
    ensures
        code_and_state(pairs.push((k, v))) == code_and_state(pairs),
        code_and_state(seq![(k, v)] + pairs) == code_and_state(pairs),
{
    lemma_first_value_push(pairs, (k, v), "code"@);
    lemma_first_value_push(pairs, (k, v), "state"@);
    let front = seq![(k, v)] + pairs;
    assert(front[0] == (k, v));
    assert(front.drop_first() =~= pairs);
}

/// The code and the state read are the values of the first `code` pair and
/// the first `state` pair, whatever else the query holds.
pub proof fn law_first_code_and_state(pairs: Seq<(Seq<char>, Seq<char>)>, i: int, j: int)
    requires
        0 <= i < pairs.len(),
        0 <= j < pairs.len(),
        pairs[i].0 == "code"@,
        pairs[j].0 == "state"@,
        forall|t: int| 0 <= t < i ==> #[trigger] pairs[t].0 != "code"@,
        forall|t: int| 0 <= t < j ==> #[trigger] pairs[t].0 != "state"@,
    ensures
        code_and_state(pairs) == Some((pairs[i].1, pairs[j].1)),
{
    lemma_first_value_at(pairs, "code"@, i);
    lemma_first_value_at(pairs, "state"@, j);
}

/// Without a `code` pair, or without a `state` pair, nothing is read.
pub proof fn law_code_and_state_needed(pairs: Seq<(Seq<char>, Seq<char>)>)
    ensures
        (forall|t: int| 0 <= t < pairs.len() ==> #[trigger] pairs[t].0 != "code"@) ==> code_and_state(pairs) is None,
        (forall|t: int| 0 <= t < pairs.len() ==> #[trigger] pairs[t].0 != "state"@) ==> code_and_state(pairs) is None,
{
    if forall|t: int| 0 <= t < pairs.len() ==> #[trigger] pairs[t].0 != "code"@ {
        lemma_first_value_absent(pairs, "code"@);
    }
    if forall|t: int| 0 <= t < pairs.len() ==> #[trigger] pairs[t].0 != "state"@ {
        lemma_first_value_absent(pairs, "state"@);
    }
}

/// The authorization code and the state among the query pairs.
pub fn authorization_from_pairs(pairs: &Vec<(String, String)>) -> (r: Option<(String, String)>)
    ensures
        r.deep_view() == code_and_state(pairs.deep_view()),
{
    let code = query_value(pairs, "code");
    let state = query_value(pairs, "state");
    match (code, state) {
        (Some(code), Some(state)) => Some((code, state)),
        _ => None,
    }
}

/// The authorization code and the state in the request line of the
/// browser's redirect, such as `GET /?state=xyz&code=abc HTTP/1.1`: the
/// second word of the line is resolved against `http://localhost`, and the
/// first `code` and `state` of its query are taken.
pub open spec fn redirect_authorization(request_line: Seq<char>) -> Option<(Seq<char>, Seq<char>)> {
    let w = words(request_line);
    if w.len() < 2 {
        None
    } else {
        match url_parse(REDIRECT_ORIGIN@ + w[1]) {
            Some(u) => code_and_state(u.1),
            None => None,
        }
    }
}

/// Reads the authorization code and the state from the request line of the
/// browser's redirect.
pub fn parse_redirect(request_line: &str) -> (r: Option<(String, String)>)
    ensures
        r.deep_view() == redirect_authorization(request_line@),
{
    let target = match nth_word(request_line, 1) {
        Some(t) => t,
        None => return None,
    };
    let mut url_text = REDIRECT_ORIGIN.to_owned();
    url_text.append(target.as_str());
    match parse_url(url_text.as_str()) {
        Some(u) => authorization_from_pairs(&u.query_pairs),
        None => None,
    }
}

/// The HTTP response that ends the redirect: status 200, a
/// `content-length` header with the byte length (`str::len`) of `message`, and the
/// message as body.
pub open spec fn ok_response(message: Seq<char>, byte_len: nat) -> Seq<char> {
    "HTTP/1.1 200 OK\r\ncontent-length: "@ + decimal_text(byte_len) + "\r\n\r\n"@ + message
}

/// The HTTP response that ends the redirect.
pub fn redirect_reply(message: &str) -> (r: String)
    ensures
        r@ == ok_response(message@, message.len() as nat),
{
    let mut r = "HTTP/1.1 200 OK\r\ncontent-length: ".to_owned();
    r.append(decimal_of(message.len()).as_str());
    r.append("\r\n\r\n");
    r.append(message);
    r
}

// ------------------------------------------------------------ revocation

/// The token to revoke, and which kind it is.
pub enum RevocableToken {
    AccessToken(String),
    RefreshToken(String),
}

/// The token to revoke: the refresh token when there is one, else the access
/// token.
pub fn token_to_revoke(access_token: String, refresh_token: Option<String>) -> (t: RevocableToken)
    ensures
        t == (match refresh_token {
            Some(r) => RevocableToken::RefreshToken(r),
            None => RevocableToken::AccessToken(access_token),
        }),
{
    match refresh_token {
        Some(r) => RevocableToken::RefreshToken(r),
        None => RevocableToken::AccessToken(access_token),
    }
}

} // verus!
