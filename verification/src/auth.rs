//! Access to a secured server: credentials, the session token, and the guard before every route.

use vstd::prelude::*;
use vstd::arithmetic::power::{lemma_pow_adds, pow};
use vstd::string::*;
use crate::num::{hex, hex_char, hex_is_read_back, push_hex};
use crate::reply::{plain, Reply, ReplyText};
use crate::server_info::share_query;
use crate::text::{
    is_space, lemma_ascii_byte, lemma_first_at, lemma_lead, split, split_once, str_eq, trim,
    trim_start,
};
use crate::url::{
    are_cookies, are_pairs, cookie, cookie_text, cookie_value, cookies_are_read_back, decodable,
    decode_percent, header_of, header_value, is_decodable, link_text, link_texts_are_decoded,
    link_texts_stay_whole, param, percent_decoded, plain_text_decodes_to_itself,
    queries_are_read_back, query_param, query_text, split_query, url_parts,
    urls_are_cut_at_the_question_mark, Header,
};

verus! {

/// A username and password.
#[derive(Debug, Clone)]
pub struct Credentials {
    pub user: String,
    pub pass: String,
}

/// What a running server expects: the credentials, and the session token of this run, which only a
/// client that gave the credentials or was paired receives.
pub struct Auth {
    pub user: String,
    pub pass: String,
    pub token: String,
}

/// Name of the session cookie.
pub const SESSION_COOKIE: &'static str = "zap_session";

/// The `Set-Cookie` value that grants a session.
pub open spec fn granting_cookie(token: Seq<char>) -> Seq<char> {
    SESSION_COOKIE@ + seq!['='] + token + "; Path=/; SameSite=Strict; Max-Age=86400"@
}

/// The `Set-Cookie` value that grants a session.
pub fn session_cookie(token: &str) -> (r: String)
    ensures
        r@ == granting_cookie(token@),
{
    let mut r = String::new();
    r.append(SESSION_COOKIE);
    r.push('=');
    r.append(token);
    r.append("; Path=/; SameSite=Strict; Max-Age=86400");
    assert(r@ =~= granting_cookie(token@));
    r
}

/// Set up access for a run. The session token is a secret number, written as 32 hexadecimal digits:
/// the caller draws it anew for each run, so that nobody can guess it.
pub fn build_auth(creds: Option<&Credentials>, secret: u128) -> (r: Option<Auth>)
    ensures
        match (creds, r) {
            (Some(c), Some(a)) => a.user@ == c.user@ && a.pass@ == c.pass@ && a.token@ == hex(
                secret as nat,
                32,
            ),
            (None, None) => true,
            _ => false,
        },
{
    match creds {
        Some(c) => {
            let mut token = String::new();
            push_hex(&mut token, secret, 32);
            assert(token@ =~= hex(secret as nat, 32));
            Some(Auth { user: c.user.clone(), pass: c.pass.clone(), token })
        },
        None => None,
    }
}

/// The method of a request, as far as routes tell methods apart.
#[derive(Clone, Copy, Debug, PartialEq, Eq, Structural)]
pub enum Method {
    Get,
    Head,
    Post,
    Put,
    Delete,
    Other,
}

/// What a server decides about a request.
#[derive(Clone, Copy, Debug, PartialEq, Eq, Structural)]
pub enum Gate {
    /// The request carries the pairing key: grant a session and redirect to the clean path.
    Paired,
    /// The request posts the login form.
    Login,
    /// Show the login page.
    LoginPage,
    /// Refuse.
    Unauthorized,
    /// Let the request through to its route.
    Pass,
}

/// The pairing key that a URL carries, still encoded.
pub open spec fn pairing_key(url: Seq<char>) -> Option<Seq<char>> {
    param(url_parts(url).1, "k"@)
}

/// Whether a request carries the session cookie of this run.
pub open spec fn has_session(headers: Seq<Header>, token: Seq<char>) -> bool {
    match header_of(headers, "Cookie"@) {
        Some(c) => cookie(c, SESSION_COOKIE@) == Some(token),
        None => false,
    }
}

/// Whether a URL carries the pairing key of this run.
pub open spec fn is_paired(url: Seq<char>, token: Seq<char>) -> bool {
    match pairing_key(url) {
        Some(k) => percent_decoded(k) == token,
        None => false,
    }
}

/// The decision on a secured server.
pub open spec fn gate_of(
    method: Method,
    url: Seq<char>,
    headers: Seq<Header>,
    token: Seq<char>,
) -> Gate {
    let path = url_parts(url).0;
    if is_paired(url, token) {
        Gate::Paired
    } else if method == Method::Post && path == "/login"@ {
        Gate::Login
    } else if has_session(headers, token) {
        Gate::Pass
    } else if method == Method::Get && (path == "/"@ || path == "/login"@) {
        Gate::LoginPage
    } else {
        Gate::Unauthorized
    }
}

/// Whether a request carries the session cookie of this run.
pub fn has_valid_session(headers: &[Header], auth: &Auth) -> (r: bool)
    ensures
        r == has_session(headers@, auth.token@),
{
    match header_value(headers, "Cookie") {
        Some(c) => match cookie_value(c.as_str(), SESSION_COOKIE) {
            Some(v) => v == auth.token,
            None => false,
        },
        None => false,
    }
}

/// Decide about a request. Without access control every request passes.
pub fn gate(method: Method, url: &str, headers: &[Header], auth: Option<&Auth>) -> (r: Gate)
    requires
        auth is Some && pairing_key(url@) is Some ==> decodable(pairing_key(url@)->0),
    ensures
        r == (match auth {
            Some(a) => gate_of(method, url@, headers@, a.token@),
            None => Gate::Pass,
        }),
{
    match auth {
        None => Gate::Pass,
        Some(a) => {
            let (path, query) = split_query(url);
            let key = match &query {
                Some(q) => query_param(Some(q.as_str()), "k"),
                None => None,
            };
            if let Some(k) = key {
                if decode_percent(k.as_str()) == a.token {
                    return Gate::Paired;
                }
            }
            let login: bool = str_eq(path.as_str(), "/login");
            if method == Method::Post && login {
                Gate::Login
            } else if has_valid_session(headers, a) {
                Gate::Pass
            } else if method == Method::Get && (str_eq(path.as_str(), "/") || login) {
                Gate::LoginPage
            } else {
                Gate::Unauthorized
            }
        },
    }
}

/// The redirect that grants a session to a request with the pairing key.
pub open spec fn paired_text(token: Seq<char>, path: Seq<char>) -> ReplyText {
    plain(303, Seq::empty()).with("Set-Cookie"@, granting_cookie(token)).with("Location"@, path)
}

/// The redirect that grants a session to a request with the pairing key.
pub fn paired_reply(auth: &Auth, path: &str) -> (r: Reply)
    ensures
        r@ == paired_text(auth.token@, path@),
{
    let cookie = session_cookie(auth.token.as_str());
    let none = String::new();
    Reply::text(303, none.as_str()).with_header("Set-Cookie", cookie.as_str()).with_header(
        "Location",
        path,
    )
}

/// The reply to a login form with the right or a wrong username and password.
pub open spec fn login_text(right: bool, token: Seq<char>) -> ReplyText {
    if right {
        plain(200, "ok"@).with("Set-Cookie"@, granting_cookie(token))
    } else {
        plain(401, "Incorrect username or password"@)
    }
}

/// Whether a login form names a value for a field.
pub open spec fn form_says(body: Seq<char>, key: Seq<char>, value: Seq<char>) -> bool {
    match param(Some(body), key) {
        Some(v) => percent_decoded(v) == value,
        None => false,
    }
}

/// Whether a field of a login form can be decoded.
pub open spec fn form_decodable(body: Seq<char>, key: Seq<char>) -> bool {
    param(Some(body), key) matches Some(v) ==> decodable(v)
}

/// Whether a field of a login form can be decoded.
pub fn is_form_decodable(body: &str, key: &str) -> (r: bool)
    ensures
        r == form_decodable(body@, key@),
{
    match query_param(Some(body), key) {
        Some(v) => is_decodable(v.as_str()),
        None => true,
    }
}

fn form_field_is(body: &str, key: &str, value: &String) -> (r: bool)
    requires
        form_decodable(body@, key@),
    ensures
        r == form_says(body@, key@, value@),
{
    match query_param(Some(body), key) {
        Some(v) => decode_percent(v.as_str()) == *value,
        None => false,
    }
}

/// Answer a login form. Only the right username and password get the session token.
pub fn handle_login(body: &str, auth: &Auth) -> (r: Reply)
    requires
        form_decodable(body@, "user"@),
        form_decodable(body@, "pass"@),
    ensures
        r@ == login_text(
            form_says(body@, "user"@, auth.user@) && form_says(body@, "pass"@, auth.pass@),
            auth.token@,
        ),
{
    let user: bool = form_field_is(body, "user", &auth.user);
    let pass: bool = form_field_is(body, "pass", &auth.pass);
    if user && pass {
        let cookie = session_cookie(auth.token.as_str());
        Reply::text(200, "ok").with_header("Set-Cookie", cookie.as_str())
    } else {
        Reply::text(401, "Incorrect username or password")
    }
}

// ---- Laws ----

/// On a secured server, a request with neither the pairing key nor the session cookie never
/// reaches a route.
pub proof fn strangers_never_pass(
    method: Method,
    url: Seq<char>,
    headers: Seq<Header>,
    token: Seq<char>,
)
    requires
        !is_paired(url, token),
        !has_session(headers, token),
    ensures
        gate_of(method, url, headers, token) != Gate::Pass,
        gate_of(method, url, headers, token) != Gate::Paired,
{
}

/// Whether every character is a lower-case hexadecimal digit.
pub open spec fn is_token(s: Seq<char>) -> bool {
    forall|i: int| 0 <= i < s.len() ==> token_char(#[trigger] s[i])
}

/// A lower-case hexadecimal digit.
pub open spec fn token_char(c: char) -> bool {
    '0' <= c <= '9' || 'a' <= c <= 'f'
}

/// Session tokens are made of hexadecimal digits.
pub proof fn hex_is_token(n: nat, width: nat)
    ensures
        is_token(hex(n, width)),
    decreases width,
{
    if width > 0 {
        hex_is_token(n / 16, (width - 1) as nat);
        assert(token_char(hex_char(n % 16)));
    }
}

proof fn lemma_trim_plain(s: Seq<char>)
    requires
        forall|i: int| 0 <= i < s.len() ==> !is_space(#[trigger] s[i]),
    ensures
        trim(s) == s,
{
    lemma_lead(s, |c: char| is_space(c), 0);
    assert(trim_start(s) =~= s);
    if s.len() > 0 {
        assert(!is_space(s[s.len() - 1]));
    }
}

/// A session cookie holds the token it was made from.
pub proof fn cookie_is_read_back(token: Seq<char>)
    requires
        is_token(token),
    ensures
        cookie(SESSION_COOKIE@ + seq!['='] + token, SESSION_COOKIE@) == Some(token),
{
    reveal_strlit("zap_session");
    let name = SESSION_COOKIE@;
    let c = name + seq!['='] + token;
    assert forall|i: int| 0 <= i < c.len() implies c[i] != ';' && !is_space(#[trigger] c[i]) && (i
        < name.len() ==> c[i] != '=') by {
        if i < name.len() {
            assert(c[i] == name[i]);
        } else if i > name.len() {
            assert(token_char(token[i - name.len() - 1]));
        }
    }
    lemma_first_at(c, ';', c.len() as int);
    assert(split(c, ';') =~= seq![c]);
    lemma_trim_plain(c);
    let pairs = split(c, ';').map_values(|p: Seq<char>| trim(p));
    assert(pairs =~= seq![c]);
    lemma_first_at(c, '=', name.len() as int);
    assert(c.take(name.len() as int) =~= name);
    assert(c.skip(name.len() as int + 1) =~= token);
}

/// A client that sends the granted session cookie back is let in.
pub proof fn granted_cookie_opens_the_gate(
    method: Method,
    url: Seq<char>,
    headers: Seq<Header>,
    token: Seq<char>,
)
    requires
        is_token(token),
        header_of(headers, "Cookie"@) == Some(SESSION_COOKIE@ + seq!['='] + token),
        !is_paired(url, token),
        !(method == Method::Post && url_parts(url).0 == "/login"@),
    ensures
        gate_of(method, url, headers, token) == Gate::Pass,
{
    cookie_is_read_back(token);
}

/// Opening the share link of a secured server signs in: the key in it is the run's own, whatever
/// else the link carries.
pub proof fn share_link_signs_in(
    method: Method,
    headers: Seq<Header>,
    token: Seq<char>,
    fp: Option<Seq<char>>,
)
    requires
        is_token(token),
    ensures
        gate_of(method, "/"@ + share_query(Some(token), fp), headers, token) == Gate::Paired,
{
    reveal_strlit("/");
    reveal_strlit("k");
    reveal_strlit("?k=");
    reveal_strlit("&fp=");
    let url = "/"@ + share_query(Some(token), fp);
    let pair = seq!['k', '='] + token;
    let query = match fp {
        Some(f) => pair + "&fp="@ + f,
        None => pair,
    };
    assert(url =~= seq!['/', '?'] + query);
    lemma_first_at(url, '?', 1);
    assert(url.skip(2) =~= query);
    assert forall|j: int| 0 <= j < pair.len() implies query[j] != '&' && query[j] == pair[j] by {
        if j >= 2 {
            assert(token_char(token[j - 2]));
        }
    }
    lemma_first_at(query, '&', pair.len() as int);
    assert(query.take(pair.len() as int) =~= pair);
    assert(split(query, '&')[0] == pair);
    lemma_first_at(pair, '=', 1);
    assert(pair.take(1) =~= "k"@);
    assert(pair.skip(2) =~= token);
    assert(!token.contains('%') && !token.contains('+')) by {
        assert forall|i: int| 0 <= i < token.len() implies token[i] != '%' && token[i] != '+' by {
            assert(token_char(token[i]));
        }
    }
    lemma_ascii_byte(token, '%');
    lemma_ascii_byte(token, '+');
    plain_text_decodes_to_itself(token);
}

/// A request with the pairing key signs in if and only if the key is the run's own, whole, however
/// the other characters of the URL are.
pub proof fn only_the_right_key_pairs(
    path: Seq<char>,
    pairs: Seq<(Seq<char>, Seq<char>)>,
    key: Seq<char>,
    i: int,
    token: Seq<char>,
)
    requires
        !path.contains('?'),
        are_pairs(pairs),
        0 <= i < pairs.len(),
        pairs[i] == ("k"@, link_text(key)),
        forall|j: int| 0 <= j < i ==> (#[trigger] pairs[j]).0 != "k"@,
    ensures
        is_paired(path + seq!['?'] + query_text(pairs), token) <==> key == token,
        !is_paired(path, token),
{
    urls_are_cut_at_the_question_mark(path, query_text(pairs));
    queries_are_read_back(pairs, "k"@, i);
    link_texts_are_decoded(key);
}

/// A request has a session if and only if its session cookie is the run's token, whole, wherever it
/// stands among the cookies.
pub proof fn only_the_right_cookie_is_a_session(
    headers: Seq<Header>,
    pads: Seq<Seq<char>>,
    pairs: Seq<(Seq<char>, Seq<char>)>,
    i: int,
    token: Seq<char>,
)
    requires
        are_cookies(pads, pairs),
        0 < pairs.len(),
        0 <= i <= pairs.len(),
        header_of(headers, "Cookie"@) == Some(cookie_text(pads, pairs)),
        i < pairs.len() ==> pairs[i].0 == "zap_session"@,
        forall|j: int| 0 <= j < i ==> (#[trigger] pairs[j]).0 != "zap_session"@,
    ensures
        has_session(headers, token) <==> i < pairs.len() && pairs[i].1 == token,
{
    cookies_are_read_back(pads, pairs, "zap_session"@, i);
}

/// What a request without the pairing key and without a session gets: the login page if it asks for
/// the start page or the login page, an answer to its login form, and else a refusal.
pub proof fn strangers_may_only_log_in(
    method: Method,
    path: Seq<char>,
    query: Seq<char>,
    headers: Seq<Header>,
    token: Seq<char>,
)
    requires
        !path.contains('?'),
        !is_paired(path + seq!['?'] + query, token),
        !has_session(headers, token),
    ensures
        gate_of(method, path + seq!['?'] + query, headers, token) == (if path == "/login"@ && method
            == Method::Post {
            Gate::Login
        } else if (path == "/login"@ || path == "/"@) && method == Method::Get {
            Gate::LoginPage
        } else {
            Gate::Unauthorized
        }),
        gate_of(method, path, headers, token) == gate_of(
            method,
            path + seq!['?'] + query,
            headers,
            token,
        ),
{
    urls_are_cut_at_the_question_mark(path, query);
}

/// Whether a reply sets a cookie.
pub open spec fn sets_cookie(r: ReplyText) -> bool {
    exists|i: int| 0 <= i < r.headers.len() && (#[trigger] r.headers[i]).0 == "Set-Cookie"@
}

/// A login form grants a session if and only if it holds both the right username and the right
/// password, whatever characters they are made of; otherwise the reply is a refusal that sets no
/// cookie.
pub proof fn logins_are_checked(
    user: Seq<char>,
    pass: Seq<char>,
    right_user: Seq<char>,
    right_pass: Seq<char>,
    token: Seq<char>,
)
    ensures
        ({
            let form = query_text(seq![("user"@, link_text(user)), ("pass"@, link_text(pass))]);
            let r = login_text(
                form_says(form, "user"@, right_user) && form_says(form, "pass"@, right_pass),
                token,
            );
            &&& form_decodable(form, "user"@)
            &&& form_decodable(form, "pass"@)
            &&& if user == right_user && pass == right_pass {
                r.status == 200 && r.headers == seq![("Set-Cookie"@, granting_cookie(token))]
            } else {
                r.status == 401 && !sets_cookie(r)
            }
        }),
{
    reveal_strlit("user");
    reveal_strlit("pass");
    assert("user"@[0] != "pass"@[0]);
    assert(!"user"@.contains('=') && !"user"@.contains('&'));
    assert(!"pass"@.contains('=') && !"pass"@.contains('&'));
    let pairs = seq![("user"@, link_text(user)), ("pass"@, link_text(pass))];
    assert(pairs[0] == ("user"@, link_text(user)) && pairs[1] == ("pass"@, link_text(pass)));
    link_texts_stay_whole(user);
    link_texts_are_decoded(user);
    link_texts_stay_whole(pass);
    link_texts_are_decoded(pass);
    assert(are_pairs(pairs));
    queries_are_read_back(pairs, "user"@, 0);
    queries_are_read_back(pairs, "pass"@, 1);
    let e = Seq::<(Seq<char>, Seq<char>)>::empty();
    assert(e.push(("Set-Cookie"@, granting_cookie(token))) =~= seq![
        ("Set-Cookie"@, granting_cookie(token)),
    ]);
}

/// What a client stores of a granted cookie, up to the first semicolon, is the session cookie: sent
/// back alone, it is a session.
pub proof fn granted_cookies_are_sessions(headers: Seq<Header>, token: Seq<char>, other: Seq<char>)
    requires
        is_token(token),
        split_once(granting_cookie(token), ';') matches Some((stored, _)) && header_of(
            headers,
            "Cookie"@,
        ) == Some(stored),
    ensures
        has_session(headers, token),
        other != token ==> !has_session(headers, other),
{
    reveal_strlit("zap_session");
    reveal_strlit("; Path=/; SameSite=Strict; Max-Age=86400");
    let pair = SESSION_COOKIE@ + seq!['='] + token;
    let all = granting_cookie(token);
    let n = pair.len() as int;
    assert forall|j: int| 0 <= j < n implies all[j] != ';' by {
        if j < 11 {
            assert(all[j] == "zap_session"@[j]);
        } else if j > 11 {
            assert(all[j] == token[j - 12]);
            assert(token_char(token[j - 12]));
        }
    }
    assert(all[n] == ';');
    lemma_first_at(all, ';', n);
    assert(all.take(n) =~= pair);
    cookie_is_read_back(token);
}

/// The redirect of a paired request grants the session and leads to the path without its query.
pub proof fn paired_requests_are_sent_on(path: Seq<char>, query: Seq<char>, token: Seq<char>)
    requires
        !path.contains('?'),
    ensures
        ({
            let r = paired_text(token, url_parts(path + seq!['?'] + query).0);
            &&& r.status == 303
            &&& r.headers.contains(("Location"@, path))
            &&& r.headers.contains(("Set-Cookie"@, granting_cookie(token)))
        }),
{
    urls_are_cut_at_the_question_mark(path, query);
    let r = paired_text(token, path);
    assert(r.headers[0] == ("Set-Cookie"@, granting_cookie(token)));
    assert(r.headers[1] == ("Location"@, path));
}

/// Two runs with different secrets have different tokens, all of the same length.
pub proof fn secrets_give_different_tokens(a: u128, b: u128)
    requires
        a != b,
    ensures
        hex(a as nat, 32) != hex(b as nat, 32),
        hex(a as nat, 32).len() == 32,
{
    assert(pow(16, 32) == 0x1_0000_0000_0000_0000 * 0x1_0000_0000_0000_0000) by {
        reveal_with_fuel(pow, 17);
        lemma_pow_adds(16, 16, 16);
        assert(pow(16, 16) == 0x1_0000_0000_0000_0000);
    }
    hex_is_read_back(a as nat, 32);
    hex_is_read_back(b as nat, 32);
}

/// A request with the run's pairing key is granted a session whatever it asks for, and one with a
/// session reaches every route, but for the login form, which is always answered as such.
pub proof fn sessions_reach_every_route(
    method: Method,
    path: Seq<char>,
    query: Seq<char>,
    headers: Seq<Header>,
    token: Seq<char>,
)
    requires
        !path.contains('?'),
    ensures
        is_paired(path + seq!['?'] + query, token) ==> gate_of(
            method,
            path + seq!['?'] + query,
            headers,
            token,
        ) == Gate::Paired,
        has_session(headers, token) && !is_paired(path + seq!['?'] + query, token) ==> gate_of(
            method,
            path + seq!['?'] + query,
            headers,
            token,
        ) == (if method == Method::Post && path == "/login"@ {
            Gate::Login
        } else {
            Gate::Pass
        }),
        has_session(headers, token) && !(method == Method::Post && path == "/login"@) ==> gate_of(
            method,
            path,
            headers,
            token,
        ) == Gate::Pass,
{
    urls_are_cut_at_the_question_mark(path, query);
}

} // verus!
