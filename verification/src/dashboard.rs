//! Requests to the dashboard and the answers to them.

use crate::config::DashboardAuth;
use crate::forms::{
    cookie_pair, cookies, encodes, form_fields, form_pair, header_texts, holds_session,
    law_encoding_is_undone, law_plain_text_decodes_to_itself, pairs_map, parse_form_body,
    session_cookie,
};
use crate::limiter::{
    attempt_of, attempts, checked, in_one_window, is_limited, is_rate_limited,
    law_five_failures_lock_out, pruned, record_failure, reset_failures, with_failure, LoginAttempt,
    LOCKOUT_DURATION, MAX_ATTEMPTS,
};
use crate::session::{
    after_check, is_open, law_session_lasts_an_hour, token_text, without, Sessions, SESSION_NANOS,
    SESSION_SECONDS,
};
use crate::table::Table;
use crate::text::{
    chars_of, contains_text, decimal, find, hex_char, is_white, law_padding_is_trimmed,
    lemma_position, lemma_trimmed_solid, lowered, pieces, push_decimal, replace, replaced,
    same_text, strip, text_of, texts, trimmed, Strip,
};
use vstd::prelude::*;
use vstd::slice::slice_subrange;
use vstd::string::*;
use vstd::utf8::*;

verus! {

// ---------------------------------------------------------------------------------------------
// Client addresses
// ---------------------------------------------------------------------------------------------

/// The address that a forwarding header names first, if it is not blank.
pub open spec fn first_forwarded(raw: Option<Seq<char>>) -> Option<Seq<char>> {
    match raw {
        Some(raw) => {
            let first = trimmed(pieces(raw, ',')[0]);
            if first.len() > 0 {
                Some(first)
            } else {
                None
            }
        },
        None => None,
    }
}

/// Takes the first address from a forwarding header.
pub fn first_forwarded_for_ip(raw: Option<&str>) -> (first: Option<String>)
    ensures
        match first {
            Some(first) => first_forwarded(token_text(raw)) == Some(first@),
            None => first_forwarded(token_text(raw)) is None,
        },
{
    let raw = match raw {
        Some(raw) => raw,
        None => {
            return None;
        },
    };
    let chars = chars_of(raw);
    let at = find(chars.as_slice(), ',');
    let first = slice_subrange(chars.as_slice(), 0, at);
    assert(first@ =~= pieces(raw@, ',')[0]);
    let first = strip(first, Strip::White);
    if first.len() == 0 {
        None
    } else {
        Some(text_of(first))
    }
}

/// The address to which a request is put down: the forwarded one where the peer is a trusted
/// proxy and has named one, else the peer; empty where the peer is not known.
pub open spec fn client_ip(
    remote: Option<Seq<char>>,
    forwarded: Option<Seq<char>>,
    trusted: Seq<Seq<char>>,
) -> Seq<char> {
    match remote {
        Some(remote) => if trusted.contains(remote) && forwarded is Some {
            forwarded->0
        } else {
            remote
        },
        None => seq![],
    }
}

/// Decides to which address a request is put down. All addresses are in their normal form; the
/// forwarded one is that of the first entry of the forwarding header, where it is an address.
pub fn vetted_client_ip(
    remote_ip: Option<&str>,
    forwarded_ip: Option<&str>,
    trusted_proxies: &Vec<String>,
) -> (ip: String)
    ensures
        ip@ == client_ip(
            token_text(remote_ip),
            token_text(forwarded_ip),
            texts(trusted_proxies@),
        ),
{
    match remote_ip {
        Some(remote) => {
            if contains_text(trusted_proxies, remote) {
                match forwarded_ip {
                    Some(forwarded) => {
                        return forwarded.to_owned();
                    },
                    None => {},
                }
            }
            remote.to_owned()
        },
        None => String::new(),
    }
}

/// Whatever a peer that is not a trusted proxy forwards has no effect.
pub proof fn law_untrusted_peer_cannot_forward(
    remote: Seq<char>,
    forwarded: Option<Seq<char>>,
    trusted: Seq<Seq<char>>,
)
    requires
        !trusted.contains(remote),
    ensures
        client_ip(Some(remote), forwarded, trusted) == remote,
{
}

// ---------------------------------------------------------------------------------------------
// Replies
// ---------------------------------------------------------------------------------------------

/// A reply, as a mathematical value.
pub struct ReplyView {
    pub status: u16,
    pub headers: Seq<(Seq<char>, Seq<char>)>,
    pub body: Seq<char>,
}

/// A reply to a request.
#[derive(Debug)]
pub struct Reply {
    pub status: u16,
    pub headers: Vec<(String, String)>,
    pub body: String,
}

impl View for Reply {
    type V = ReplyView;

    open spec fn view(&self) -> ReplyView {
        ReplyView {
            status: self.status,
            headers: header_texts(self.headers@),
            body: self.body@,
        }
    }
}

/// The content type of a page.
pub open spec fn html_type() -> (Seq<char>, Seq<char>) {
    ("Content-Type"@, "text/html; charset=utf-8"@)
}

/// The content type of machine-readable data.
pub open spec fn json_type() -> (Seq<char>, Seq<char>) {
    ("Content-Type"@, "application/json"@)
}

/// The cookie that hands out a session.
pub open spec fn session_cookie_text(token: Seq<char>) -> Seq<char> {
    "session="@ + token + "; Max-Age="@ + decimal(SESSION_SECONDS as nat)
        + "; Path=/; HttpOnly; SameSite=Lax"@
}

/// The cookie that takes another one back.
pub open spec fn delete_cookie_text(name: Seq<char>) -> Seq<char> {
    name + "=; Max-Age=0; Path=/; HttpOnly; SameSite=Lax"@
}

/// A redirection that sets a cookie.
pub open spec fn redirect_view(location: Seq<char>, cookie: Seq<char>) -> ReplyView {
    ReplyView {
        status: 303,
        headers: seq![("Location"@, location), ("Set-Cookie"@, cookie)],
        body: seq![],
    }
}

/// The login page: the template, with its error text filled in, or hidden where there is none.
pub open spec fn auth_page(template: Seq<char>, error: Option<Seq<char>>) -> Seq<char> {
    let hidden = if error is Some {
        ""@
    } else {
        "hidden"@
    };
    let text = match error {
        Some(text) => text,
        None => ""@,
    };
    replaced(replaced(template, "{{error_hidden}}"@, hidden), "{{error}}"@, text)
}

/// A reply with the login page.
pub open spec fn auth_view(template: Seq<char>, status: u16, error: Option<Seq<char>>) -> ReplyView {
    ReplyView { status, headers: seq![html_type()], body: auth_page(template, error) }
}

/// The reply to a request for data without a session.
pub open spec fn unauthorized_view() -> ReplyView {
    ReplyView {
        status: 401,
        headers: seq![json_type()],
        body: "{\"error\":\"unauthorized\"}"@,
    }
}

fn header(name: &str, value: &str) -> (pair: (String, String))
    ensures
        pair.0@ == name@,
        pair.1@ == value@,
{
    (name.to_owned(), value.to_owned())
}

/// The content type of a page.
pub fn html_header() -> (pair: (String, String))
    ensures
        (pair.0@, pair.1@) == html_type(),
{
    header("Content-Type", "text/html; charset=utf-8")
}

/// The content type of machine-readable data.
pub fn json_header() -> (pair: (String, String))
    ensures
        (pair.0@, pair.1@) == json_type(),
{
    header("Content-Type", "application/json")
}

/// The header that hands out a session.
pub fn session_cookie_header(token: &str) -> (pair: (String, String))
    ensures
        pair.0@ == "Set-Cookie"@,
        pair.1@ == session_cookie_text(token@),
{
    let mut cookie = "session=".to_owned();
    cookie.append(token);
    cookie.append("; Max-Age=");
    push_decimal(&mut cookie, SESSION_SECONDS);
    cookie.append("; Path=/; HttpOnly; SameSite=Lax");
    ("Set-Cookie".to_owned(), cookie)
}

/// The header that takes a cookie back.
pub fn delete_cookie_header(name: &str) -> (pair: (String, String))
    ensures
        pair.0@ == "Set-Cookie"@,
        pair.1@ == delete_cookie_text(name@),
{
    let mut cookie = name.to_owned();
    cookie.append("=; Max-Age=0; Path=/; HttpOnly; SameSite=Lax");
    ("Set-Cookie".to_owned(), cookie)
}

/// A redirection with a further header.
pub fn redirect_response(location: &str, cookie: (String, String)) -> (reply: Reply)
    ensures
        reply@ == (ReplyView {
            status: 303,
            headers: seq![("Location"@, location@), (cookie.0@, cookie.1@)],
            body: seq![],
        }),
{
    let mut headers: Vec<(String, String)> = Vec::new();
    headers.push(header("Location", location));
    headers.push(cookie);
    let reply = Reply { status: 303, headers, body: String::new() };
    assert(reply@.headers =~= seq![("Location"@, location@), (cookie.0@, cookie.1@)]);
    reply
}

/// The reply to a request for data without a session.
pub fn unauthorized_json_response() -> (reply: Reply)
    ensures
        reply@ == unauthorized_view(),
{
    let mut headers: Vec<(String, String)> = Vec::new();
    headers.push(json_header());
    let reply = Reply { status: 401, headers, body: "{\"error\":\"unauthorized\"}".to_owned() };
    assert(reply@.headers =~= unauthorized_view().headers);
    reply
}

/// A reply with the login page.
pub fn respond_auth(template: &str, status: u16, error_message: Option<&str>) -> (reply: Reply)
    ensures
        reply@ == auth_view(template@, status, token_text(error_message)),
{
    let (error_text, error_hidden) = match error_message {
        Some(message) => (message, ""),
        None => ("", "hidden"),
    };
    proof {
        reveal_strlit("{{error_hidden}}");
        reveal_strlit("{{error}}");
    }
    let page = replace(template, "{{error_hidden}}", error_hidden);
    let body = replace(page.as_str(), "{{error}}", error_text);
    let mut headers: Vec<(String, String)> = Vec::new();
    headers.push(html_header());
    let reply = Reply { status, headers, body };
    assert(reply@.headers =~= seq![html_type()]);
    reply
}

// ---------------------------------------------------------------------------------------------
// Requests
// ---------------------------------------------------------------------------------------------

/// What a request leads to.
#[derive(Debug)]
pub enum Answer {
    /// A login, which is decided by the body of the request.
    Login,
    /// A reply.
    Reply(Reply),
    /// The logo.
    Logo,
    /// The metrics.
    Metrics,
    /// The dashboard page.
    Dashboard,
}

/// What a request leads to, as a mathematical value.
pub enum AnswerView {
    Login,
    Reply(ReplyView),
    Logo,
    Metrics,
    Dashboard,
}

impl View for Answer {
    type V = AnswerView;

    open spec fn view(&self) -> AnswerView {
        match self {
            Answer::Login => AnswerView::Login,
            Answer::Reply(reply) => AnswerView::Reply(reply@),
            Answer::Logo => AnswerView::Logo,
            Answer::Metrics => AnswerView::Metrics,
            Answer::Dashboard => AnswerView::Dashboard,
        }
    }
}

/// The answer to a request, where `authenticated` tells whether its session is open.
pub open spec fn answer_to(
    is_post: bool,
    path: Seq<char>,
    authenticated: bool,
    template: Seq<char>,
) -> AnswerView {
    if is_post && path == "/auth"@ {
        AnswerView::Login
    } else if path == "/logout"@ {
        AnswerView::Reply(redirect_view("/"@, delete_cookie_text("session"@)))
    } else if path == "/public/logo.png"@ {
        AnswerView::Logo
    } else if !authenticated {
        if path == "/metrics"@ {
            AnswerView::Reply(unauthorized_view())
        } else {
            AnswerView::Reply(auth_view(template, 200, None))
        }
    } else if path == "/metrics"@ {
        AnswerView::Metrics
    } else {
        AnswerView::Dashboard
    }
}

/// The sessions after a request: a logout ends its session, and a request that needs a session
/// forgets one that has ended.
pub open spec fn sessions_after(
    is_post: bool,
    path: Seq<char>,
    token: Option<Seq<char>>,
    sessions: Map<Seq<char>, u64>,
    now: u64,
) -> Map<Seq<char>, u64> {
    if is_post && path == "/auth"@ {
        sessions
    } else if path == "/logout"@ {
        without(sessions, token)
    } else if path == "/public/logo.png"@ {
        sessions
    } else {
        after_check(sessions, token, now)
    }
}

/// Decides what a request leads to.
pub fn handle_request(
    is_post: bool,
    path: &str,
    token: Option<&str>,
    sessions: &mut Sessions,
    now: u64,
    template: &str,
) -> (answer: Answer)
    requires
        old(sessions).wf(),
    ensures
        final(sessions).wf(),
        answer@ == answer_to(
            is_post,
            path@,
            is_open(old(sessions)@, token_text(token), now),
            template@,
        ),
        final(sessions)@ == sessions_after(is_post, path@, token_text(token), old(sessions)@, now),
{
    if is_post && same_text(path, "/auth") {
        return Answer::Login;
    }
    if same_text(path, "/logout") {
        sessions.revoke(token);
        return Answer::Reply(redirect_response("/", delete_cookie_header("session")));
    }
    if same_text(path, "/public/logo.png") {
        return Answer::Logo;
    }
    if !sessions.is_authenticated(token, now) {
        if same_text(path, "/metrics") {
            return Answer::Reply(unauthorized_json_response());
        }
        return Answer::Reply(respond_auth(template, 200, None));
    }
    if same_text(path, "/metrics") {
        Answer::Metrics
    } else {
        Answer::Dashboard
    }
}

/// Without an open session, neither the metrics nor the dashboard page are given out.
pub proof fn law_no_session_no_data(is_post: bool, path: Seq<char>, template: Seq<char>)
    ensures
        !(answer_to(is_post, path, false, template) is Metrics),
        !(answer_to(is_post, path, false, template) is Dashboard),
        path == "/metrics"@ && !is_post ==> answer_to(is_post, path, false, template)
            == AnswerView::Reply(unauthorized_view()),
{
    reveal_strlit("/metrics");
    reveal_strlit("/auth");
    reveal_strlit("/logout");
    reveal_strlit("/public/logo.png");
    assert("/metrics"@.len() != "/auth"@.len());
    assert("/metrics"@.len() != "/logout"@.len());
    assert("/metrics"@.len() != "/public/logo.png"@.len());
}

// ---------------------------------------------------------------------------------------------
// Login
// ---------------------------------------------------------------------------------------------

/// A form field; empty where it is missing.
pub open spec fn field_or_empty(fields: Map<Seq<char>, Seq<char>>, name: Seq<char>) -> Seq<char> {
    if fields.dom().contains(name) {
        fields[name]
    } else {
        seq![]
    }
}

/// Whether a form body holds the credentials.
pub open spec fn is_credentials(body: Seq<char>, auth: DashboardAuth) -> bool {
    let fields = form_fields(body);
    field_or_empty(fields, "email"@) == auth.email@ && field_or_empty(fields, "password"@)
        == auth.password@
}

/// Whether a form writes a text as `raw`.
pub open spec fn form_writes(raw: Seq<char>, text: Seq<char>) -> bool {
    &&& encodes(encode_utf8(raw), encode_utf8(text))
    &&& forall|i: int| 0 <= i < raw.len() ==> #[trigger] raw[i] != '&'
}

proof fn lemma_form_field(name: Seq<char>, raw: Seq<char>, value: Seq<char>)
    requires
        is_ascii_chars(name),
        forall|i: int|
            0 <= i < name.len() ==> #[trigger] name[i] != '&' && name[i] != '=' && name[i] != '+'
                && name[i] != '%',
        form_writes(raw, value),
    ensures
        form_pair(name + "="@ + raw) == Some((name, value)),
        forall|i: int|
            0 <= i < (name + "="@ + raw).len() ==> #[trigger] (name + "="@ + raw)[i] != '&',
{
    reveal_strlit("=");
    let piece = name + "="@ + raw;
    let at = name.len() as int;
    assert forall|i: int| 0 <= i < piece.len() implies #[trigger] piece[i] != '&' by {
        if i < at {
            assert(piece[i] == name[i]);
        } else if i > at {
            assert(piece[i] == raw[i - at - 1]);
        }
    }
    assert forall|i: int| 0 <= i < at implies piece[i] != '=' by {
        assert(piece[i] == name[i]);
    }
    assert(piece[at] == '=');
    lemma_position(piece, '=', at);
    assert(piece.take(at) =~= name);
    assert(piece.skip(at + 1) =~= raw);
    law_plain_text_decodes_to_itself(name);
    law_encoding_is_undone(raw, value);
}

/// The credentials are accepted from a form that holds them, however it encodes them, and no
/// others are.
pub proof fn law_form_carries_credentials(
    raw_email: Seq<char>,
    raw_password: Seq<char>,
    email: Seq<char>,
    password: Seq<char>,
    auth: DashboardAuth,
)
    requires
        form_writes(raw_email, email),
        form_writes(raw_password, password),
    ensures
        is_credentials(
            "email"@ + "="@ + raw_email + "&"@ + ("password"@ + "="@ + raw_password),
            auth,
        ) <==> email == auth.email@ && password == auth.password@,
{
    reveal_strlit("email");
    reveal_strlit("password");
    reveal_strlit("&");
    let first = "email"@ + "="@ + raw_email;
    let second = "password"@ + "="@ + raw_password;
    let body = first + "&"@ + second;
    lemma_form_field("email"@, raw_email, email);
    lemma_form_field("password"@, raw_password, password);
    let at = first.len() as int;
    assert forall|i: int| 0 <= i < at implies body[i] != '&' by {
        assert(body[i] == first[i]);
    }
    assert(body[at] == '&');
    lemma_position(body, '&', at);
    assert(body.take(at) =~= first);
    assert(body.skip(at + 1) =~= second);
    lemma_position(second, '&', second.len() as int);
    assert(pieces(second, '&') =~= seq![second]);
    assert(pieces(body, '&') =~= seq![first, second]);
    let pairs = pieces(body, '&').map_values(|piece: Seq<char>| form_pair(piece));
    assert(pairs =~= seq![Some(("email"@, email)), Some(("password"@, password))]);
    assert(pairs.drop_last() =~= seq![Some(("email"@, email))]);
    assert(pairs.drop_last().drop_last() =~= seq![]);
    assert(pairs_map(pairs.drop_last().drop_last()) == Map::<Seq<char>, Seq<char>>::empty());
    assert(pairs_map(pairs.drop_last()) == Map::<Seq<char>, Seq<char>>::empty().insert(
        "email"@,
        email,
    ));
    assert("email"@.len() != "password"@.len());
}

/// The refusal of a login because its address is locked out, whatever its body holds.
pub open spec fn lockout_refusal(
    limiter: Map<Seq<char>, LoginAttempt>,
    ip: Seq<char>,
    now: u64,
    template: Seq<char>,
) -> Option<ReplyView> {
    if is_limited(limiter, ip, now) {
        Some(auth_view(template, 429, Some("Too many failed attempts. Please wait 30 seconds."@)))
    } else {
        None
    }
}

/// Refuses a login from an address that is locked out, before its body is read.
pub fn refuse_locked_out(
    ip: &str,
    limiter: &mut Table<LoginAttempt>,
    now: u64,
    template: &str,
) -> (refusal: Option<Reply>)
    requires
        old(limiter).wf(),
    ensures
        final(limiter).wf(),
        final(limiter)@ == checked(old(limiter)@, ip@, now),
        match refusal {
            Some(reply) => lockout_refusal(old(limiter)@, ip@, now, template@) == Some(reply@),
            None => lockout_refusal(old(limiter)@, ip@, now, template@) is None,
        },
{
    if is_rate_limited(ip, limiter, now) {
        let message = "Too many failed attempts. Please wait 30 seconds.";
        Some(respond_auth(template, 429, Some(message)))
    } else {
        None
    }
}

/// Five failed logins of an address within one window make the next ones refused, whatever they
/// hold, for 30 seconds; fewer do not.
pub proof fn law_lockout_is_answered(
    limiter: Map<Seq<char>, LoginAttempt>,
    ip: Seq<char>,
    times: Seq<u64>,
    now: u64,
    template: Seq<char>,
)
    requires
        0 < times.len() <= MAX_ATTEMPTS,
        in_one_window(times),
        times.last() <= u64::MAX - LOCKOUT_DURATION,
        !pruned(limiter, times[0]).dom().contains(ip),
    ensures
        lockout_refusal(attempts(limiter, ip, times), ip, now, template) == if times.len()
            == MAX_ATTEMPTS && now < times.last() + LOCKOUT_DURATION {
            Some(
                auth_view(template, 429, Some("Too many failed attempts. Please wait 30 seconds."@)),
            )
        } else {
            None
        },
{
    law_five_failures_lock_out(limiter, ip, times, now);
}

fn field_is(fields: &Table<String>, name: &str, expected: &str) -> (same: bool)
    requires
        fields.wf(),
    ensures
        same == (field_or_empty(fields@, name@) == expected@),
{
    match fields.get(name) {
        Some(value) => same_text(value.as_str(), expected),
        None => {
            let empty = String::new();
            same_text(empty.as_str(), expected)
        },
    }
}

/// Decides a login from an address that is not locked out. The credentials clear the failures of
/// the address, and a session is to be started; anything else counts as a failure, and the reply
/// to it is returned.
pub fn handle_login(
    body: &str,
    auth: &DashboardAuth,
    ip: &str,
    limiter: &mut Table<LoginAttempt>,
    now: u64,
    template: &str,
) -> (refusal: Option<Reply>)
    requires
        old(limiter).wf(),
        !is_limited(old(limiter)@, ip@, now),
        now <= u64::MAX - LOCKOUT_DURATION,
        attempt_of(old(limiter)@, ip@, now).failure_count < u32::MAX,
    ensures
        final(limiter).wf(),
        match refusal {
            None => is_credentials(body@, *auth) && final(limiter)@ == old(limiter)@.remove(ip@),
            Some(reply) => {
                &&& !is_credentials(body@, *auth)
                &&& reply@ == auth_view(
                    template@,
                    401,
                    Some("Invalid email or password. Try again."@),
                )
                &&& final(limiter)@ == with_failure(old(limiter)@, ip@, now)
            },
        },
{
    let form = parse_form_body(body);
    if field_is(&form, "email", auth.email.as_str()) && field_is(
        &form,
        "password",
        auth.password.as_str(),
    ) {
        reset_failures(ip, limiter);
        return None;
    }
    record_failure(ip, limiter, now);
    Some(respond_auth(template, 401, Some("Invalid email or password. Try again.")))
}

/// Starts a session, and gives the reply that hands it out.
pub fn start_session(token: String, sessions: &mut Sessions, now: u64) -> (reply: Reply)
    requires
        old(sessions).wf(),
        now <= u64::MAX - SESSION_NANOS,
    ensures
        final(sessions).wf(),
        final(sessions)@ == old(sessions)@.insert(
            token@,
            (now + SESSION_NANOS) as u64,
        ),
        reply@ == redirect_view("/"@, session_cookie_text(token@)),
{
    let reply = redirect_response("/", session_cookie_header(token.as_str()));
    sessions.start(token, now);
    reply
}

/// Bytes as text, each as two hexadecimal digits.
pub open spec fn hex_text(bytes: Seq<u8>) -> Seq<char> {
    Seq::new(
        2 * bytes.len(),
        |i: int|
            if i % 2 == 0 {
                hex_char(bytes[i / 2] as int / 16)
            } else {
                hex_char(bytes[i / 2] as int % 16)
            },
    )
}

fn push_hex(text: &mut String, digit: u8)
    requires
        digit < 16,
    ensures
        final(text)@ == old(text)@.push(hex_char(digit as int)),
{
    if digit < 10 {
        text.push((48 + digit) as char);
    } else {
        text.push((87 + digit) as char);
    }
}

/// The token of a session, from 128 random bits.
pub fn generate_token(random: &[u8; 16]) -> (token: String)
    ensures
        token@ == hex_text(random@),
        token@.len() == 32,
{
    let mut token = String::new();
    let mut i: usize = 0;
    while i < random.len()
        invariant
            i <= random@.len(),
            token@ == hex_text(random@).take(2 * i),
        decreases random@.len() - i,
    {
        let ghost all = hex_text(random@);
        let ghost before = token@;
        push_hex(&mut token, random[i] / 16);
        push_hex(&mut token, random[i] % 16);
        proof {
            assert(all[2 * i] == hex_char(random@[i as int] as int / 16));
            assert(all[2 * i + 1] == hex_char(random@[i as int] as int % 16));
            assert(all.take(2 * (i + 1)) =~= before.push(all[2 * i]).push(all[2 * i + 1]));
        }
        i += 1;
    }
    assert(hex_text(random@).take(2 * i) =~= hex_text(random@));
    token
}

/// The characters of a token are hexadecimal digits.
proof fn lemma_hex_chars(bytes: Seq<u8>)
    ensures
        forall|i: int|
            0 <= i < hex_text(bytes).len() ==> ('0' <= #[trigger] hex_text(bytes)[i] <= '9' || 'a'
                <= hex_text(bytes)[i] <= 'f'),
{
    assert forall|i: int| 0 <= i < hex_text(bytes).len() implies ('0' <= #[trigger] hex_text(
        bytes,
    )[i] <= '9' || 'a' <= hex_text(bytes)[i] <= 'f') by {
        let byte = bytes[i / 2] as int;
        let digit = if i % 2 == 0 {
            byte / 16
        } else {
            byte % 16
        };
        assert(0 <= digit < 16);
    }
}

/// A token that was handed out as a cookie is found again in the request that brings it back.
pub proof fn law_cookie_brings_token_back(random: Seq<u8>)
    ensures
        session_cookie(seq![("Cookie"@, "session="@ + hex_text(random))]) == Some(hex_text(random)),
{
    let token = hex_text(random);
    let raw = "session="@ + token;
    reveal_strlit("session=");
    reveal_strlit("session");
    reveal_strlit("Cookie");
    reveal_strlit("cookie");
    lemma_hex_chars(random);
    assert forall|i: int| 0 <= i < raw.len() implies #[trigger] raw[i] != ';' && !is_white(
        raw[i],
    ) by {
        if i >= 8 {
            assert(raw[i] == token[i - 8]);
        }
    }
    lemma_position(raw, ';', raw.len() as int);
    assert(pieces(raw, ';') =~= seq![raw]);
    lemma_trimmed_solid(raw);
    assert(raw[7] == '=');
    lemma_position(raw, '=', 7);
    assert(raw.take(7) =~= "session"@);
    assert(raw.skip(8) =~= token);
    assert forall|i: int| 0 <= i < "session"@.len() implies !is_white(
        #[trigger] "session"@[i],
    ) by {}
    lemma_trimmed_solid("session"@);
    assert forall|i: int| 0 <= i < token.len() implies !is_white(#[trigger] token[i]) by {}
    lemma_trimmed_solid(token);
    assert(is_ascii_chars(token));
    law_plain_text_decodes_to_itself(token);
    assert(cookie_pair(raw) == Some(("session"@, token)));
    let pairs = pieces(raw, ';').map_values(|piece: Seq<char>| cookie_pair(piece));
    assert(pairs =~= seq![Some(("session"@, token))]);
    assert(pairs.drop_last() =~= seq![]);
    assert(pairs_map(pairs.drop_last()) == Map::<Seq<char>, Seq<char>>::empty());
    assert(cookies(raw) =~= Map::empty().insert("session"@, token));
    assert(lowered("Cookie"@) =~= "cookie"@);
    let headers = seq![("Cookie"@, raw)];
    assert(headers[0] == ("Cookie"@, raw));
    assert(holds_session(headers[0]));
}

/// After a login, a request that brings the cookie back within an hour is given the metrics, and
/// one that comes later is not.
pub proof fn law_login_opens_the_dashboard(
    sessions: Map<Seq<char>, u64>,
    random: Seq<u8>,
    start: u64,
    now: u64,
    template: Seq<char>,
)
    requires
        start <= u64::MAX - SESSION_NANOS,
    ensures
        ({
            let after = sessions.insert(hex_text(random), (start + SESSION_NANOS) as u64);
            let token = session_cookie(seq![("Cookie"@, "session="@ + hex_text(random))]);
            answer_to(false, "/metrics"@, is_open(after, token, now), template)
                == AnswerView::Metrics <==> now < start + SESSION_NANOS
        }),
{
    law_cookie_brings_token_back(random);
    law_session_lasts_an_hour(sessions, hex_text(random), start, now);
    law_no_session_no_data(false, "/metrics"@, template);
    reveal_strlit("/metrics");
    reveal_strlit("/auth");
    reveal_strlit("/logout");
    reveal_strlit("/public/logo.png");
    assert("/metrics"@.len() != "/logout"@.len());
    assert("/metrics"@.len() != "/public/logo.png"@.len());
}

/// After a logout, the session of its cookie is closed, and every other one is as before.
pub proof fn law_logout_closes_the_session(
    is_post: bool,
    token: Seq<char>,
    other: Seq<char>,
    sessions: Map<Seq<char>, u64>,
    now: u64,
    later: u64,
)
    ensures
        !is_open(
            sessions_after(is_post, "/logout"@, Some(token), sessions, now),
            Some(token),
            later,
        ),
        other != token ==> is_open(
            sessions_after(is_post, "/logout"@, Some(token), sessions, now),
            Some(other),
            later,
        ) == is_open(sessions, Some(other), later),
{
    reveal_strlit("/auth");
    reveal_strlit("/logout");
    assert("/auth"@.len() != "/logout"@.len());
}

// ---------------------------------------------------------------------------------------------
// What is answered
// ---------------------------------------------------------------------------------------------

proof fn lemma_paths_differ()
    ensures
        "/metrics"@ != "/auth"@,
        "/metrics"@ != "/logout"@,
        "/metrics"@ != "/public/logo.png"@,
        "/auth"@ != "/logout"@,
        "/auth"@ != "/public/logo.png"@,
        "/logout"@ != "/public/logo.png"@,
{
    reveal_strlit("/metrics");
    reveal_strlit("/auth");
    reveal_strlit("/logout");
    reveal_strlit("/public/logo.png");
    assert("/metrics"@.len() == 8 && "/auth"@.len() == 5 && "/logout"@.len() == 7
        && "/public/logo.png"@.len() == 16);
}

/// Without an open session every request but those for the metrics, a logout, the logo and a login
/// is answered with the login page, as a page, with status 200 and without an error text.
pub proof fn law_strangers_see_the_login_page(
    is_post: bool,
    path: Seq<char>,
    template: Seq<char>,
)
    requires
        path != "/metrics"@,
        path != "/logout"@,
        path != "/public/logo.png"@,
        !(is_post && path == "/auth"@),
    ensures
        answer_to(is_post, path, false, template) matches AnswerView::Reply(reply) && {
            &&& reply.status == 200
            &&& reply.headers == seq![("Content-Type"@, "text/html; charset=utf-8"@)]
            &&& reply.body == replaced(
                replaced(template, "{{error_hidden}}"@, "hidden"@),
                "{{error}}"@,
                Seq::empty(),
            )
        },
{
    reveal_strlit("");
    assert(""@ =~= Seq::empty());
}

/// With an open session the metrics are given out at their path, and the dashboard page at every
/// path but those of the metrics, a logout, the logo and a login.
pub proof fn law_members_see_the_dashboard(
    is_post: bool,
    path: Seq<char>,
    template: Seq<char>,
)
    ensures
        answer_to(is_post, "/metrics"@, true, template) is Metrics,
        path != "/metrics"@ && path != "/logout"@ && path != "/public/logo.png"@ && !(is_post
            && path == "/auth"@) ==> answer_to(is_post, path, true, template) is Dashboard,
{
    lemma_paths_differ();
}

/// With a session or without, a login is decided by its body, the logo is given out, and a logout
/// leads back to the start page and takes the cookie back. Without a session the metrics are
/// refused.
pub proof fn law_public_answers(is_post: bool, authenticated: bool, template: Seq<char>)
    ensures
        answer_to(true, "/auth"@, authenticated, template) is Login,
        answer_to(is_post, "/public/logo.png"@, authenticated, template) is Logo,
        answer_to(is_post, "/logout"@, authenticated, template) matches AnswerView::Reply(reply)
            && {
            &&& reply.status == 303
            &&& reply.headers == seq![
                ("Location"@, "/"@),
                ("Set-Cookie"@, "session"@ + "=; Max-Age=0; Path=/; HttpOnly; SameSite=Lax"@),
            ]
            &&& reply.body.len() == 0
        },
        answer_to(is_post, "/metrics"@, false, template) matches AnswerView::Reply(reply) && {
            &&& reply.status == 401
            &&& reply.headers == seq![("Content-Type"@, "application/json"@)]
            &&& reply.body == "{\"error\":\"unauthorized\"}"@
        },
{
    lemma_paths_differ();
}

/// A login page with an error shows it: the text stands where the template asks for it, and what
/// hides it is left empty.
pub proof fn law_errors_are_shown(template: Seq<char>, status: u16, error: Seq<char>)
    ensures
        auth_view(template, status, Some(error)).status == status,
        auth_view(template, status, Some(error)).body == replaced(
            replaced(template, "{{error_hidden}}"@, Seq::empty()),
            "{{error}}"@,
            error,
        ),
{
    reveal_strlit("");
    assert(""@ =~= Seq::empty());
}

/// A forwarded address counts from a trusted proxy, and is the first one of the header, without the
/// white space around it; a blank one is none, whatever follows. Else the peer counts.
pub proof fn law_trusted_proxy_forwards(
    remote: Seq<char>,
    before: Seq<char>,
    first: Seq<char>,
    after: Seq<char>,
    rest: Seq<char>,
    trusted: Seq<Seq<char>>,
)
    requires
        trusted.contains(remote),
        forall|i: int| 0 <= i < before.len() ==> is_white(#[trigger] before[i]),
        forall|i: int| 0 <= i < after.len() ==> is_white(#[trigger] after[i]),
        first.len() > 0 ==> !is_white(first[0]) && !is_white(first.last()),
        !first.contains(','),
    ensures
        ({
            let expected = if first.len() > 0 {
                Some(first)
            } else {
                None
            };
            &&& first_forwarded(Some(before + first + after)) == expected
            &&& first_forwarded(Some((before + first + after).push(',') + rest)) == expected
        }),
        first_forwarded(None) is None,
        client_ip(Some(remote), Some(first), trusted) == first,
        client_ip(Some(remote), None, trusted) == remote,
        client_ip(None, Some(first), trusted) == Seq::<char>::empty(),
{
    let head = before + first + after;
    law_padding_is_trimmed(before, first, after);
    assert forall|j: int| 0 <= j < head.len() implies head[j] != ',' by {
        if j < before.len() {
            assert(head[j] == before[j]);
        } else if j < before.len() + first.len() {
            assert(head[j] == first[j - before.len()]);
            assert(first.contains(first[j - before.len()]));
        } else {
            assert(head[j] == after[j - before.len() - first.len()]);
        }
    }
    lemma_position(head, ',', head.len() as int);
    let longer = head.push(',') + rest;
    assert(longer[head.len() as int] == ',');
    assert forall|j: int| 0 <= j < head.len() implies longer[j] != ',' by {
        assert(longer[j] == head[j]);
    }
    lemma_position(longer, ',', head.len() as int);
    assert(longer.take(head.len() as int) =~= head);
}

/// A session cookie names the token and an hour, and a token tells its bytes: it has two characters
/// for each, and different bytes have different tokens.
pub proof fn law_tokens_tell_their_bytes(a: Seq<u8>, b: Seq<u8>)
    ensures
        hex_text(a).len() == 2 * a.len(),
        hex_text(a) == hex_text(b) ==> a == b,
        session_cookie_text(hex_text(a)) == "session="@ + hex_text(a)
            + "; Max-Age=3600; Path=/; HttpOnly; SameSite=Lax"@,
{
    if hex_text(a) == hex_text(b) {
        assert(hex_text(a).len() == 2 * a.len() && hex_text(b).len() == 2 * b.len());
        assert(a.len() == b.len());
        assert forall|i: int| 0 <= i < a.len() implies a[i] == b[i] by {
            assert(hex_text(a)[2 * i] == hex_text(b)[2 * i]);
            assert(hex_text(a)[2 * i + 1] == hex_text(b)[2 * i + 1]);
            assert(hex_text(a)[2 * i] == hex_char(a[i] as int / 16));
            assert(hex_text(a)[2 * i + 1] == hex_char(a[i] as int % 16));
            assert(hex_text(b)[2 * i] == hex_char(b[i] as int / 16));
            assert(hex_text(b)[2 * i + 1] == hex_char(b[i] as int % 16));
            lemma_hex_char(a[i] as int / 16, b[i] as int / 16);
            lemma_hex_char(a[i] as int % 16, b[i] as int % 16);
        }
        assert(a =~= b);
    }
    reveal_strlit("; Max-Age=");
    reveal_strlit("; Path=/; HttpOnly; SameSite=Lax");
    reveal_strlit("; Max-Age=3600; Path=/; HttpOnly; SameSite=Lax");
    reveal_with_fuel(decimal, 5);
    assert(decimal(3600) =~= seq!['3', '6', '0', '0']);
    assert("; Max-Age="@ + decimal(3600) + "; Path=/; HttpOnly; SameSite=Lax"@
        =~= "; Max-Age=3600; Path=/; HttpOnly; SameSite=Lax"@);
    assert(session_cookie_text(hex_text(a)) =~= "session="@ + hex_text(a) + ("; Max-Age="@
        + decimal(3600) + "; Path=/; HttpOnly; SameSite=Lax"@));
}

proof fn lemma_hex_char(x: int, y: int)
    requires
        0 <= x < 16,
        0 <= y < 16,
        hex_char(x) == hex_char(y),
    ensures
        x == y,
{
    assert(hex_char(x) as int == if x < 10 {
        48 + x
    } else {
        87 + x
    });
    assert(hex_char(y) as int == if y < 10 {
        48 + y
    } else {
        87 + y
    });
}

/// No request but a logout closes a session before its time: whether a session is open later is not
/// changed by it.
pub proof fn law_requests_keep_sessions(
    is_post: bool,
    path: Seq<char>,
    token: Option<Seq<char>>,
    other: Option<Seq<char>>,
    sessions: Map<Seq<char>, u64>,
    now: u64,
    later: u64,
)
    requires
        path != "/logout"@,
        now <= later,
    ensures
        is_open(sessions_after(is_post, path, token, sessions, now), other, later) == is_open(
            sessions,
            other,
            later,
        ),
{
}

/// A form is accepted where both its fields are the credentials, in whatever order and among
/// whatever others they stand; a field that is missing is an empty one.
pub proof fn law_both_fields_must_match(body: Seq<char>, auth: DashboardAuth)
    requires
        auth.email@.len() > 0,
        auth.password@.len() > 0,
    ensures
        is_credentials(body, auth) <==> {
            let fields = form_fields(body);
            &&& fields.dom().contains("email"@) && fields["email"@] == auth.email@
            &&& fields.dom().contains("password"@) && fields["password"@] == auth.password@
        },
{
}

} // verus!
