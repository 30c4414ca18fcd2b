use switrs_courier::auth::{
    authorizing_client, parse_redirect, redirect_reply, revoking_client, token_to_revoke,
    RevocableToken, GOOGLE_AUTH_URL, GOOGLE_REVOCATION_URL, GOOGLE_TOKEN_URL, LOCAL_REDIRECT_URL,
    README_REDIRECT_URL, REDIRECT_REPLY_MESSAGE,
};

#[test]
fn redirect_code_and_state() {
    let r = parse_redirect("GET /?state=s%20t&code=4%2F0AX-y&scope=x HTTP/1.1\r\n");
    assert_eq!(r, Some(("4/0AX-y".to_string(), "s t".to_string())));
    let r = parse_redirect("GET /?code=a&code=b&state=c HTTP/1.1");
    assert_eq!(r, Some(("a".to_string(), "c".to_string())));
}

#[test]
fn redirect_without_code() {
    assert_eq!(parse_redirect("GET /?state=abc HTTP/1.1"), None);
    assert_eq!(parse_redirect("GET"), None);
    assert_eq!(parse_redirect(""), None);
}

#[test]
fn reply_to_redirect() {
    assert_eq!(
        redirect_reply(REDIRECT_REPLY_MESSAGE),
        "HTTP/1.1 200 OK\r\ncontent-length: 27\r\n\r\nGo back to your terminal :)"
    );
    assert_eq!(redirect_reply("é"), "HTTP/1.1 200 OK\r\ncontent-length: 2\r\n\r\né");
}

#[test]
fn client_settings() {
    let c = authorizing_client("s3cret");
    assert_eq!(c.client_secret, "s3cret");
    assert!(c.client_id.starts_with("1029342291235-httptjo81jen9k1ftv4enscrdr58l4d8"));
    assert_eq!(c.redirect_url, LOCAL_REDIRECT_URL);
    assert_eq!(c.auth_url, GOOGLE_AUTH_URL);
    assert_eq!(c.token_url, GOOGLE_TOKEN_URL);
    assert_eq!(c.revocation_url, GOOGLE_REVOCATION_URL);
    let r = revoking_client("s3cret");
    assert!(r.client_id.starts_with("1029342291235-h8tafdrogur0od1pjl96bs0dkrkql29q"));
    assert_eq!(r.redirect_url, README_REDIRECT_URL);
}

#[test]
fn revoke_refresh_token_first() {
    match token_to_revoke("acc".to_string(), Some("ref".to_string())) {
        RevocableToken::RefreshToken(t) => assert_eq!(t, "ref"),
        RevocableToken::AccessToken(_) => panic!("expected the refresh token"),
    }
    match token_to_revoke("acc".to_string(), None) {
        RevocableToken::AccessToken(t) => assert_eq!(t, "acc"),
        RevocableToken::RefreshToken(_) => panic!("expected the access token"),
    }
}
