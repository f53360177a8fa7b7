use detrudr::config::DashboardAuth;
use detrudr::dashboard::{
    delete_cookie_header, first_forwarded_for_ip, generate_token, handle_login, handle_request,
    html_header, json_header, redirect_response, refuse_locked_out, respond_auth,
    session_cookie_header, start_session, unauthorized_json_response, vetted_client_ip, Answer,
    Reply,
};
use detrudr::forms::{
    decode_bytes, extract_session_cookie, parse_cookie_header, parse_form_body, percent_decode,
};
use detrudr::limiter::{LoginAttempt, LOCKOUT_DURATION};
use detrudr::session::{Sessions, SESSION_NANOS};
use detrudr::table::Table;

const TEMPLATE: &str = "<p class=\"{{error_hidden}}\">{{error}}</p>";
const NOW: u64 = 5_000_000_000;

fn pair(name: &str, value: &str) -> (String, String) {
    (name.to_owned(), value.to_owned())
}

fn auth() -> DashboardAuth {
    DashboardAuth { email: "admin@example.com".to_owned(), password: "hello world".to_owned() }
}

fn reply_of(answer: Answer) -> Reply {
    match answer {
        Answer::Reply(reply) => reply,
        _ => panic!("not a reply"),
    }
}

#[test]
fn parses_cookie_header() {
    let cookies = parse_cookie_header("session=abc123; other=val");
    assert_eq!(cookies.get("session"), Some(&"abc123".to_owned()));
}

#[test]
fn parses_form_body() {
    let form = parse_form_body("email=admin%40example.com&password=hello+world");
    assert_eq!(form.get("email"), Some(&"admin@example.com".to_owned()));
    assert_eq!(form.get("password"), Some(&"hello world".to_owned()));
}

#[test]
fn client_ip_ignores_forwarded_for_from_untrusted_peer() {
    let trusted: Vec<String> = Vec::new();
    let forwarded = first_forwarded_for_ip(Some("198.51.100.20"));
    let ip = vetted_client_ip(Some("203.0.113.10"), forwarded.as_deref(), &trusted);

    assert_eq!(ip, "203.0.113.10");
}

#[test]
fn client_ip_uses_forwarded_for_from_trusted_proxy() {
    let trusted = vec!["127.0.0.1".to_owned()];
    let forwarded = first_forwarded_for_ip(Some("198.51.100.20, 203.0.113.10"));
    let ip = vetted_client_ip(Some("127.0.0.1"), forwarded.as_deref(), &trusted);

    assert_eq!(ip, "198.51.100.20");
}

#[test]
fn generate_token_is_32_chars() {
    let token = generate_token(&[0x5a; 16]);
    assert_eq!(token.len(), 32);
}

#[test]
fn a_token_spells_its_bytes() {
    let mut random = [0x5a; 16];
    random[..4].copy_from_slice(&[0x00, 0x0f, 0xa5, 0xff]);
    assert_eq!(generate_token(&random), "000fa5ff5a5a5a5a5a5a5a5a5a5a5a5a");
}

#[test]
fn a_trusted_proxy_without_a_forwarded_address_is_the_client() {
    let trusted = vec!["127.0.0.1".to_owned()];
    assert_eq!(vetted_client_ip(Some("127.0.0.1"), None, &trusted), "127.0.0.1");
    assert_eq!(vetted_client_ip(None, Some("198.51.100.20"), &trusted), "");
}

#[test]
fn the_first_forwarded_address_is_taken() {
    assert_eq!(first_forwarded_for_ip(None), None);
    assert_eq!(first_forwarded_for_ip(Some("")), None);
    assert_eq!(first_forwarded_for_ip(Some(" \t, 1.2.3.4")), None);
    assert_eq!(first_forwarded_for_ip(Some(" ::1 ,1.2.3.4")), Some("::1".to_owned()));
}

#[test]
fn percent_escapes_are_decoded() {
    assert_eq!(percent_decode("plain"), "plain");
    assert_eq!(percent_decode("a+b%20c"), "a b c");
    assert_eq!(percent_decode("%7E%7e"), "~~");
    assert_eq!(percent_decode("%C3%A9"), "\u{e9}");
    assert_eq!(percent_decode("\u{e9}"), "\u{e9}");
    assert_eq!(decode_bytes(b"%ff"), vec![0xff]);
}

#[test]
fn broken_escapes_lose_their_digits() {
    assert_eq!(percent_decode("%zz"), "%");
    assert_eq!(percent_decode("a%zzb"), "a%b");
    assert_eq!(percent_decode("%4"), "%");
    assert_eq!(percent_decode("%"), "%");
    assert_eq!(decode_bytes(b"%+f"), vec![0x0f]);
    assert_eq!(decode_bytes(b"%-f"), b"%".to_vec());
}

#[test]
fn bytes_that_are_no_text_are_replaced() {
    assert_eq!(percent_decode("a%ffb"), "a\u{fffd}b");
}

#[test]
fn later_fields_replace_earlier_ones() {
    let form = parse_form_body("a=1&b&a=2&=empty&c=x=y");
    assert_eq!(form.get("a"), Some(&"2".to_owned()));
    assert_eq!(form.get("b"), None);
    assert_eq!(form.get(""), Some(&"empty".to_owned()));
    assert_eq!(form.get("c"), Some(&"x=y".to_owned()));
    assert_eq!(form.len(), 3);
}

#[test]
fn cookies_are_trimmed_and_decoded() {
    let cookies = parse_cookie_header("  a = x%20y ;nothing; b=; a%20=z");
    assert_eq!(cookies.get("a"), Some(&"x y".to_owned()));
    assert_eq!(cookies.get("b"), Some(&String::new()));
    assert_eq!(cookies.get("a%20"), Some(&"z".to_owned()));
    assert_eq!(cookies.len(), 3);
}

#[test]
fn the_session_cookie_is_found_in_any_case_of_the_header() {
    let headers = vec![
        pair("Host", "session=no"),
        pair("cookie", "other=val"),
        pair("COOKIE", "a=b; session=first; session=abc123"),
        pair("Cookie", "session=late"),
    ];
    assert_eq!(extract_session_cookie(&headers), Some("abc123".to_owned()));
    assert_eq!(extract_session_cookie(&vec![pair("Cookie", "a=b")]), None);
    assert_eq!(extract_session_cookie(&Vec::new()), None);
}

#[test]
fn headers_have_their_values() {
    assert_eq!(html_header(), pair("Content-Type", "text/html; charset=utf-8"));
    assert_eq!(json_header(), pair("Content-Type", "application/json"));
    assert_eq!(
        session_cookie_header("abc"),
        pair("Set-Cookie", "session=abc; Max-Age=3600; Path=/; HttpOnly; SameSite=Lax"),
    );
    assert_eq!(
        delete_cookie_header("session"),
        pair("Set-Cookie", "session=; Max-Age=0; Path=/; HttpOnly; SameSite=Lax"),
    );
}

#[test]
fn replies_have_their_parts() {
    let redirect = redirect_response("/", session_cookie_header("abc"));
    assert_eq!(redirect.status, 303);
    assert_eq!(redirect.headers, vec![pair("Location", "/"), session_cookie_header("abc")]);
    assert_eq!(redirect.body, "");

    let refusal = unauthorized_json_response();
    assert_eq!(refusal.status, 401);
    assert_eq!(refusal.headers, vec![json_header()]);
    assert_eq!(refusal.body, "{\"error\":\"unauthorized\"}");

    let form = respond_auth(TEMPLATE, 200, None);
    assert_eq!(form.status, 200);
    assert_eq!(form.headers, vec![html_header()]);
    assert_eq!(form.body, "<p class=\"hidden\"></p>");
    assert_eq!(respond_auth(TEMPLATE, 401, Some("No.")).body, "<p class=\"\">No.</p>");
}

#[test]
fn requests_are_routed() {
    let mut sessions = Sessions::new();
    let post = handle_request(true, "/auth", None, &mut sessions, NOW, TEMPLATE);
    assert!(matches!(post, Answer::Login));
    let logo = handle_request(false, "/public/logo.png", None, &mut sessions, NOW, TEMPLATE);
    assert!(matches!(logo, Answer::Logo));
    let get = reply_of(handle_request(false, "/auth", None, &mut sessions, NOW, TEMPLATE));
    assert_eq!(get.status, 200);
    assert_eq!(get.body, "<p class=\"hidden\"></p>");
    let metrics = reply_of(handle_request(false, "/metrics", None, &mut sessions, NOW, TEMPLATE));
    assert_eq!(metrics.status, 401);
    assert_eq!(metrics.body, "{\"error\":\"unauthorized\"}");
}

#[test]
fn a_login_opens_the_dashboard_for_an_hour() {
    let mut sessions = Sessions::new();
    let mut limiter: Table<LoginAttempt> = Table::new();
    let body = "email=admin%40example.com&password=hello+world";
    assert!(handle_login(body, &auth(), "1.2.3.4", &mut limiter, NOW, TEMPLATE).is_none());

    let token = generate_token(&[7; 16]);
    let reply = start_session(token.clone(), &mut sessions, NOW);
    assert_eq!(reply.status, 303);
    assert_eq!(reply.headers[1], session_cookie_header(&token));

    let headers = vec![pair("Cookie", &format!("session={token}"))];
    let found = extract_session_cookie(&headers);
    let found = found.as_deref();
    let end = NOW + SESSION_NANOS;
    let page = handle_request(false, "/", found, &mut sessions, end - 1, TEMPLATE);
    assert!(matches!(page, Answer::Dashboard));
    let metrics = handle_request(false, "/metrics", found, &mut sessions, end - 1, TEMPLATE);
    assert!(matches!(metrics, Answer::Metrics));
    let late = reply_of(handle_request(false, "/metrics", found, &mut sessions, end, TEMPLATE));
    assert_eq!(late.status, 401);
    let again = handle_request(false, "/metrics", found, &mut sessions, NOW, TEMPLATE);
    assert_eq!(reply_of(again).status, 401);
}

#[test]
fn a_logout_closes_the_session() {
    let mut sessions = Sessions::new();
    start_session("abc".to_owned(), &mut sessions, NOW);
    start_session("def".to_owned(), &mut sessions, NOW);
    let reply =
        reply_of(handle_request(false, "/logout", Some("abc"), &mut sessions, NOW, TEMPLATE));
    assert_eq!(reply.status, 303);
    assert_eq!(reply.headers, vec![pair("Location", "/"), delete_cookie_header("session")]);
    assert!(!sessions.is_authenticated(Some("abc"), NOW));
    assert!(sessions.is_authenticated(Some("def"), NOW));
    assert!(!sessions.is_authenticated(None, NOW));
}

#[test]
fn wrong_credentials_are_refused_and_counted() {
    let mut limiter: Table<LoginAttempt> = Table::new();
    for body in ["", "email=admin%40example.com", "email=admin%40example.com&password=hello"] {
        let refusal = handle_login(body, &auth(), "1.2.3.4", &mut limiter, NOW, TEMPLATE).unwrap();
        assert_eq!(refusal.status, 401);
        assert_eq!(refusal.body, "<p class=\"\">Invalid email or password. Try again.</p>");
    }
    assert_eq!(limiter.get("1.2.3.4").unwrap().failure_count, 3);
    let body = "password=hello+world&email=admin%40example.com";
    assert!(handle_login(body, &auth(), "1.2.3.4", &mut limiter, NOW, TEMPLATE).is_none());
    assert!(!limiter.contains_key("1.2.3.4"));
}

#[test]
fn locked_out_logins_are_refused() {
    let mut limiter: Table<LoginAttempt> = Table::new();
    for _ in 0..5 {
        assert!(refuse_locked_out("1.2.3.4", &mut limiter, NOW, TEMPLATE).is_none());
        let refusal = handle_login("", &auth(), "1.2.3.4", &mut limiter, NOW, TEMPLATE);
        assert_eq!(refusal.unwrap().status, 401);
    }
    let refusal = refuse_locked_out("1.2.3.4", &mut limiter, NOW, TEMPLATE).unwrap();
    assert_eq!(refusal.status, 429);
    assert_eq!(refusal.headers, vec![html_header()]);
    assert_eq!(
        refusal.body,
        "<p class=\"\">Too many failed attempts. Please wait 30 seconds.</p>"
    );
    assert!(refuse_locked_out("1.2.3.5", &mut limiter, NOW, TEMPLATE).is_none());
    let end = NOW + LOCKOUT_DURATION;
    assert!(refuse_locked_out("1.2.3.4", &mut limiter, end - 1, TEMPLATE).is_some());
    assert!(refuse_locked_out("1.2.3.4", &mut limiter, end, TEMPLATE).is_none());
}

#[test]
fn credentials_are_read_however_they_are_encoded() {
    let auth = DashboardAuth { email: "a&b=\u{e9}".to_owned(), password: "x +%".to_owned() };
    for body in [
        "email=a%26b=%C3%A9&password=x+%2B%25",
        "email=%61%26%62%3d%c3%a9&password=%78%20%2b%25",
        "email=a%26b%3D\u{e9}&password=x%20%2B%25",
    ] {
        let mut limiter: Table<LoginAttempt> = Table::new();
        assert!(handle_login(body, &auth, "1.2.3.4", &mut limiter, NOW, TEMPLATE).is_none());
    }
}
