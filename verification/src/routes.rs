//! Which request does what.

use vstd::prelude::*;
use vstd::string::*;
use crate::auth::{
    gate, gate_of, granting_cookie, has_session, is_paired, paired_reply, paired_text, pairing_key,
    Auth, Gate, Method,
};
use crate::num::{dec, dec_is_read_back, is_digit, lemma_dec_round_trip, parse_dec, parse_uint};
use crate::reply::{plain, Reply, ReplyText};
use crate::text::{chars_of, str_eq};
use crate::url::{
    are_pairs, decodable, decode_percent, is_decodable, link_text, link_texts_are_decoded,
    link_texts_stay_whole, opt_text, param, percent_decoded, queries_are_read_back, query_param,
    query_text, split_query, url_parts, urls_are_cut_at_the_question_mark, Header,
};

verus! {

/// What a request that was let in asks for.
pub enum Route {
    /// The start page.
    Index,
    /// The listing of a folder.
    List(String),
    /// A search.
    Search(String),
    /// The uploads in progress.
    Incoming,
    /// What faster transports the server offers.
    Capabilities,
    /// The event stream.
    Events,
    /// The clips that are kept.
    Clips,
    /// A clip to publish.
    PublishClip,
    /// A file.
    Download(String),
    /// A folder, as an archive.
    DownloadFolder(String),
    /// How much of an upload has been received.
    UploadHead(String, Option<String>),
    /// An upload into a folder, under a name, resumed at an offset if there is one.
    Upload(String, Option<String>, Option<u64>),
    /// The end of an interrupted upload.
    Discard(String, Option<String>),
    /// Nothing that exists.
    NotFound,
}

/// The same, as texts.
pub ghost enum RouteText {
    Index,
    List(Seq<char>),
    Search(Seq<char>),
    Incoming,
    Capabilities,
    Events,
    Clips,
    PublishClip,
    Download(Seq<char>),
    DownloadFolder(Seq<char>),
    UploadHead(Seq<char>, Option<Seq<char>>),
    Upload(Seq<char>, Option<Seq<char>>, Option<nat>),
    Discard(Seq<char>, Option<Seq<char>>),
    NotFound,
}

impl View for Route {
    type V = RouteText;

    open spec fn view(&self) -> RouteText {
        match *self {
            Route::Index => RouteText::Index,
            Route::List(rel) => RouteText::List(rel@),
            Route::Search(q) => RouteText::Search(q@),
            Route::Incoming => RouteText::Incoming,
            Route::Capabilities => RouteText::Capabilities,
            Route::Events => RouteText::Events,
            Route::Clips => RouteText::Clips,
            Route::PublishClip => RouteText::PublishClip,
            Route::Download(rel) => RouteText::Download(rel@),
            Route::DownloadFolder(rel) => RouteText::DownloadFolder(rel@),
            Route::UploadHead(rel, name) => RouteText::UploadHead(rel@, opt_text(name)),
            Route::Upload(rel, name, offset) => RouteText::Upload(
                rel@,
                opt_text(name),
                match offset {
                    Some(n) => Some(n as nat),
                    None => None,
                },
            ),
            Route::Discard(rel, name) => RouteText::Discard(rel@, opt_text(name)),
            Route::NotFound => RouteText::NotFound,
        }
    }
}

/// A decoded query parameter.
pub open spec fn decoded(query: Option<Seq<char>>, key: Seq<char>) -> Option<Seq<char>> {
    match param(query, key) {
        Some(v) => Some(percent_decoded(v)),
        None => None,
    }
}

/// A decoded query parameter, empty when it is missing.
pub open spec fn decoded_or_empty(query: Option<Seq<char>>, key: Seq<char>) -> Seq<char> {
    match decoded(query, key) {
        Some(v) => v,
        None => Seq::empty(),
    }
}

/// The route of a request.
pub open spec fn route_of(method: Method, url: Seq<char>) -> RouteText {
    let (path, query) = url_parts(url);
    if method == Method::Get {
        if path == "/"@ {
            RouteText::Index
        } else if path == "/api/list"@ {
            RouteText::List(decoded_or_empty(query, "path"@))
        } else if path == "/api/search"@ {
            RouteText::Search(decoded_or_empty(query, "q"@))
        } else if path == "/api/incoming"@ {
            RouteText::Incoming
        } else if path == "/api/capabilities"@ {
            RouteText::Capabilities
        } else if path == "/events"@ {
            RouteText::Events
        } else if path == "/clips"@ {
            RouteText::Clips
        } else if path == "/download"@ {
            RouteText::Download(decoded_or_empty(query, "path"@))
        } else if path == "/download-folder"@ {
            RouteText::DownloadFolder(decoded_or_empty(query, "path"@))
        } else {
            RouteText::NotFound
        }
    } else if method == Method::Post && path == "/clip"@ {
        RouteText::PublishClip
    } else if path != "/upload"@ {
        RouteText::NotFound
    } else {
        let rel = decoded_or_empty(query, "path"@);
        let name = decoded(query, "name"@);
        match method {
            Method::Head => RouteText::UploadHead(rel, name),
            Method::Put => RouteText::Upload(
                rel,
                name,
                match param(query, "offset"@) {
                    Some(s) => parse_dec(s, u64::MAX as nat),
                    None => None,
                },
            ),
            Method::Delete => RouteText::Discard(rel, name),
            _ => RouteText::NotFound,
        }
    }
}

/// Whether the route of a request reads its `path` parameter.
pub open spec fn reads_path(method: Method, path: Seq<char>) -> bool {
    ||| method == Method::Get && (path == "/api/list"@ || path == "/download"@ || path
        == "/download-folder"@)
    ||| reads_name(method, path)
}

/// Whether the route of a request reads its `name` parameter.
pub open spec fn reads_name(method: Method, path: Seq<char>) -> bool {
    &&& path == "/upload"@
    &&& method == Method::Head || method == Method::Put || method == Method::Delete
}

/// Whether the parameters that the route of a request reads can be decoded.
pub open spec fn routable(method: Method, url: Seq<char>) -> bool {
    let (path, query) = url_parts(url);
    &&& reads_path(method, path) ==> (param(query, "path"@) matches Some(v) ==> decodable(v))
    &&& reads_name(method, path) ==> (param(query, "name"@) matches Some(v) ==> decodable(v))
    &&& method == Method::Get && path == "/api/search"@ ==> (param(query, "q"@) matches Some(v)
        ==> decodable(v))
}

/// Whether the server can decode the pairing key of a request.
pub open spec fn gateable(url: Seq<char>) -> bool {
    pairing_key(url) matches Some(k) ==> decodable(k)
}

fn get_param(query: &Option<String>, key: &str) -> (r: Option<String>)
    ensures
        opt_text(r) == param(opt_text(*query), key@),
{
    match query {
        Some(q) => query_param(Some(q.as_str()), key),
        None => None,
    }
}

fn param_decodable(query: &Option<String>, key: &str) -> (r: bool)
    ensures
        r == (param(opt_text(*query), key@) matches Some(v) ==> decodable(v)),
{
    match get_param(query, key) {
        Some(v) => is_decodable(v.as_str()),
        None => true,
    }
}

fn get_decoded(query: &Option<String>, key: &str) -> (r: Option<String>)
    requires
        param(opt_text(*query), key@) matches Some(v) ==> decodable(v),
    ensures
        opt_text(r) == decoded(opt_text(*query), key@),
{
    match get_param(query, key) {
        Some(v) => Some(decode_percent(v.as_str())),
        None => None,
    }
}

fn get_decoded_or_empty(query: &Option<String>, key: &str) -> (r: String)
    requires
        param(opt_text(*query), key@) matches Some(v) ==> decodable(v),
    ensures
        r@ == decoded_or_empty(opt_text(*query), key@),
{
    match get_decoded(query, key) {
        Some(v) => v,
        None => String::new(),
    }
}

/// Whether the parameters that the route of a request reads can be decoded.
pub fn is_routable(method: Method, url: &str) -> (r: bool)
    ensures
        r == routable(method, url@),
{
    let (path, query) = split_query(url);
    let p = path.as_str();
    let upload: bool = str_eq(p, "/upload") && (method == Method::Head || method == Method::Put
        || method == Method::Delete);
    let browse: bool = method == Method::Get && (str_eq(p, "/api/list") || str_eq(p, "/download")
        || str_eq(p, "/download-folder"));
    let search: bool = method == Method::Get && str_eq(p, "/api/search");
    (!(upload || browse) || param_decodable(&query, "path")) && (!upload || param_decodable(
        &query,
        "name",
    )) && (!search || param_decodable(&query, "q"))
}

/// The route of a request.
pub fn route(method: Method, url: &str) -> (r: Route)
    requires
        routable(method, url@),
    ensures
        r@ == route_of(method, url@),
{
    let (path, query) = split_query(url);
    let p = path.as_str();
    match method {
        Method::Get => {
            if str_eq(p, "/") {
                Route::Index
            } else if str_eq(p, "/api/list") {
                Route::List(get_decoded_or_empty(&query, "path"))
            } else if str_eq(p, "/api/search") {
                Route::Search(get_decoded_or_empty(&query, "q"))
            } else if str_eq(p, "/api/incoming") {
                Route::Incoming
            } else if str_eq(p, "/api/capabilities") {
                Route::Capabilities
            } else if str_eq(p, "/events") {
                Route::Events
            } else if str_eq(p, "/clips") {
                Route::Clips
            } else if str_eq(p, "/download") {
                Route::Download(get_decoded_or_empty(&query, "path"))
            } else if str_eq(p, "/download-folder") {
                Route::DownloadFolder(get_decoded_or_empty(&query, "path"))
            } else {
                Route::NotFound
            }
        },
        _ => {
            if method == Method::Post && str_eq(p, "/clip") {
                return Route::PublishClip;
            }
            if !str_eq(p, "/upload") {
                return Route::NotFound;
            }
            match method {
                Method::Head => {
                    let rel = get_decoded_or_empty(&query, "path");
                    Route::UploadHead(rel, get_decoded(&query, "name"))
                },
                Method::Put => {
                    let rel = get_decoded_or_empty(&query, "path");
                    let name = get_decoded(&query, "name");
                    let offset = match get_param(&query, "offset") {
                        Some(s) => parse_uint(&chars_of(s.as_str()), u64::MAX),
                        None => None,
                    };
                    Route::Upload(rel, name, offset)
                },
                Method::Delete => {
                    let rel = get_decoded_or_empty(&query, "path");
                    Route::Discard(rel, get_decoded(&query, "name"))
                },
                _ => Route::NotFound,
            }
        },
    }
}

/// What is to be done about a request.
pub enum Action {
    /// Send this reply.
    Respond(Reply),
    /// Show the login page.
    LoginPage,
    /// Read the login form and answer it.
    Login,
    /// Serve the route.
    Serve(Route),
}

/// The same, as texts.
pub ghost enum ActionText {
    Respond(ReplyText),
    LoginPage,
    Login,
    Serve(RouteText),
}

impl View for Action {
    type V = ActionText;

    open spec fn view(&self) -> ActionText {
        match *self {
            Action::Respond(r) => ActionText::Respond(r@),
            Action::LoginPage => ActionText::LoginPage,
            Action::Login => ActionText::Login,
            Action::Serve(r) => ActionText::Serve(r@),
        }
    }
}

/// What is to be done about a request to a server with or without access control.
pub open spec fn action_of(
    method: Method,
    url: Seq<char>,
    headers: Seq<Header>,
    token: Option<Seq<char>>,
) -> ActionText {
    let decision = match token {
        Some(t) => gate_of(method, url, headers, t),
        None => Gate::Pass,
    };
    match decision {
        Gate::Paired => ActionText::Respond(paired_text(token->0, url_parts(url).0)),
        Gate::Login => ActionText::Login,
        Gate::LoginPage => ActionText::LoginPage,
        Gate::Unauthorized => ActionText::Respond(plain(401, "Unauthorized"@)),
        Gate::Pass => ActionText::Serve(route_of(method, url)),
    }
}

/// The session token of an optional access control.
pub open spec fn token_of(auth: Option<&Auth>) -> Option<Seq<char>> {
    match auth {
        Some(a) => Some(a.token@),
        None => None,
    }
}

/// Decide what is to be done about a request. There is no answer when a parameter that has to be
/// read holds a percent sign whose next two bytes split a character.
pub fn handle(method: Method, url: &str, headers: &[Header], auth: Option<&Auth>) -> (r: Option<
    Action,
>)
    ensures
        match r {
            Some(a) => a@ == action_of(method, url@, headers@, token_of(auth)),
            None => (auth is Some && !gateable(url@)) || (!routable(method, url@) && action_of(
                method,
                url@,
                headers@,
                token_of(auth),
            ) is Serve),
        },
        (auth is Some ==> gateable(url@)) && (action_of(
            method,
            url@,
            headers@,
            token_of(auth),
        ) is Serve ==> routable(method, url@)) ==> r is Some,
{
    let (path, query) = split_query(url);
    if auth.is_some() && !param_decodable(&query, "k") {
        return None;
    }
    match gate(method, url, headers, auth) {
        Gate::Paired => match auth {
            Some(a) => Some(Action::Respond(paired_reply(a, path.as_str()))),
            None => None,
        },
        Gate::Login => Some(Action::Login),
        Gate::LoginPage => Some(Action::LoginPage),
        Gate::Unauthorized => Some(Action::Respond(Reply::text(401, "Unauthorized"))),
        Gate::Pass => if is_routable(method, url) {
            Some(Action::Serve(route(method, url)))
        } else {
            None
        },
    }
}

// ---- Laws ----

/// On a secured server, a request with neither the pairing key nor the session cookie is served
/// no route, whatever it asks for.
pub proof fn strangers_are_served_no_route(
    method: Method,
    url: Seq<char>,
    headers: Seq<Header>,
    token: Seq<char>,
)
    requires
        !crate::auth::is_paired(url, token),
        !crate::auth::has_session(headers, token),
    ensures
        !(action_of(method, url, headers, Some(token)) is Serve),
{
    crate::auth::strangers_never_pass(method, url, headers, token);
}

/// An open server serves every request its route.
pub proof fn open_server_serves_everyone(method: Method, url: Seq<char>, headers: Seq<Header>)
    ensures
        action_of(method, url, headers, None) == ActionText::Serve(route_of(method, url)),
{
}

/// The URL of a request with parameters.
pub open spec fn asking(path: Seq<char>, pairs: Seq<(Seq<char>, Seq<char>)>) -> Seq<char> {
    path + seq!['?'] + query_text(pairs)
}

proof fn lemma_one_param(path: Seq<char>, key: Seq<char>, value: Seq<char>)
    requires
        !path.contains('?'),
        !key.contains('='),
        !key.contains('&'),
    ensures
        ({
            let parts = url_parts(asking(path, seq![(key, link_text(value))]));
            parts.0 == path && param(parts.1, key) == Some(link_text(value))
        }),
        percent_decoded(link_text(value)) == value,
{
    let pairs = seq![(key, link_text(value))];
    link_texts_stay_whole(value);
    link_texts_are_decoded(value);
    urls_are_cut_at_the_question_mark(path, query_text(pairs));
    queries_are_read_back(pairs, key, 0);
}

/// A request that names a file or a folder, or searches for a text, gets just that one, whatever
/// characters its name holds.
#[verifier::rlimit(40)]
pub proof fn named_paths_are_served(name: Seq<char>)
    ensures
        route_of(Method::Get, asking("/api/list"@, seq![("path"@, link_text(name))])) == RouteText::List(
            name,
        ),
        route_of(Method::Get, asking("/download"@, seq![("path"@, link_text(name))]))
            == RouteText::Download(name),
        route_of(Method::Get, asking("/download-folder"@, seq![("path"@, link_text(name))]))
            == RouteText::DownloadFolder(name),
        route_of(Method::Get, asking("/api/search"@, seq![("q"@, link_text(name))]))
            == RouteText::Search(name),
{
    reveal_strlit("/");
    reveal_strlit("/api/list");
    reveal_strlit("/api/search");
    reveal_strlit("/api/incoming");
    reveal_strlit("/api/capabilities");
    reveal_strlit("/events");
    reveal_strlit("/clips");
    reveal_strlit("/download");
    reveal_strlit("/download-folder");
    reveal_strlit("path");
    reveal_strlit("q");
    assert("/api/list"@[5] != "/api/search"@[5]);
    assert("/api/search"@[5] != "/api/incoming"@[5]);
    lemma_one_param("/api/list"@, "path"@, name);
    lemma_one_param("/download"@, "path"@, name);
    lemma_one_param("/download-folder"@, "path"@, name);
    lemma_one_param("/api/search"@, "q"@, name);
    assert("/clips"@[1] != "/events"@[1]);
    assert("/api/search"@.len() == 11);
    assert("/download"@[1] != "/api/list"@[1]);
}

/// An upload, a question about one and the end of one name the folder and the file, and an upload
/// the offset to go on from, whatever characters the names hold.
#[verifier::rlimit(40)]
pub proof fn uploads_are_understood(dir: Seq<char>, name: Seq<char>, offset: nat)
    requires
        offset <= u64::MAX,
    ensures
        ({
            let named = seq![("path"@, link_text(dir)), ("name"@, link_text(name))];
            let whole = named.push(("offset"@, dec(offset)));
            &&& route_of(Method::Put, asking("/upload"@, whole)) == RouteText::Upload(
                dir,
                Some(name),
                Some(offset),
            )
            &&& route_of(Method::Put, asking("/upload"@, named)) == RouteText::Upload(
                dir,
                Some(name),
                None,
            )
            &&& route_of(Method::Head, asking("/upload"@, named)) == RouteText::UploadHead(
                dir,
                Some(name),
            )
            &&& route_of(Method::Delete, asking("/upload"@, named)) == RouteText::Discard(
                dir,
                Some(name),
            )
        }),
{
    reveal_strlit("/upload");
    reveal_strlit("path");
    reveal_strlit("name");
    reveal_strlit("offset");
    assert("path"@[0] != "name"@[0]);
    assert("offset"@.len() == 6 && "path"@.len() == 4 && "name"@.len() == 4);
    assert(!"path"@.contains('=') && !"path"@.contains('&'));
    assert(!"name"@.contains('=') && !"name"@.contains('&'));
    assert(!"offset"@.contains('=') && !"offset"@.contains('&'));
    let named = seq![("path"@, link_text(dir)), ("name"@, link_text(name))];
    let whole = named.push(("offset"@, dec(offset)));
    link_texts_stay_whole(dir);
    link_texts_are_decoded(dir);
    link_texts_stay_whole(name);
    link_texts_are_decoded(name);
    dec_is_read_back(offset, u64::MAX as nat);
    lemma_dec_round_trip(offset);
    let d = dec(offset);
    assert forall|i: int| 0 <= i < d.len() implies d[i] != '&' by {
        assert(is_digit(d[i]));
    }
    assert(named[0] == ("path"@, link_text(dir)) && named[1] == ("name"@, link_text(name)));
    assert(whole[0] == named[0] && whole[1] == named[1] && whole[2] == ("offset"@, d));
    assert(are_pairs(named));
    assert(are_pairs(whole));
    urls_are_cut_at_the_question_mark("/upload"@, query_text(named));
    urls_are_cut_at_the_question_mark("/upload"@, query_text(whole));
    queries_are_read_back(named, "path"@, 0);
    queries_are_read_back(named, "name"@, 1);
    queries_are_read_back(named, "offset"@, 2);
    queries_are_read_back(whole, "path"@, 0);
    queries_are_read_back(whole, "name"@, 1);
    queries_are_read_back(whole, "offset"@, 2);
}

/// Whether a method and a path belong together.
pub open spec fn is_known(method: Method, path: Seq<char>) -> bool {
    match method {
        Method::Get => seq![
            "/"@,
            "/api/list"@,
            "/api/search"@,
            "/api/incoming"@,
            "/api/capabilities"@,
            "/events"@,
            "/clips"@,
            "/download"@,
            "/download-folder"@,
        ].contains(path),
        Method::Post => path == "/clip"@,
        Method::Head | Method::Put | Method::Delete => path == "/upload"@,
        Method::Other => false,
    }
}

/// A request is found nothing for exactly when its method and its path do not belong together,
/// whatever its query.
pub proof fn unknown_requests_find_nothing(method: Method, path: Seq<char>, query: Seq<char>)
    requires
        !path.contains('?'),
    ensures
        route_of(method, path) is NotFound <==> !is_known(method, path),
        route_of(method, path + seq!['?'] + query) is NotFound <==> !is_known(method, path),
{
    urls_are_cut_at_the_question_mark(path, query);
    reveal_strlit("/clip");
    reveal_strlit("/upload");
    assert("/clip"@.len() == 5 && "/upload"@.len() == 7);
    let gets = seq![
        "/"@,
        "/api/list"@,
        "/api/search"@,
        "/api/incoming"@,
        "/api/capabilities"@,
        "/events"@,
        "/clips"@,
        "/download"@,
        "/download-folder"@,
    ];
    assert(gets[0] == "/"@ && gets[1] == "/api/list"@ && gets[2] == "/api/search"@ && gets[3]
        == "/api/incoming"@ && gets[4] == "/api/capabilities"@ && gets[5] == "/events"@ && gets[6]
        == "/clips"@ && gets[7] == "/download"@ && gets[8] == "/download-folder"@);
}

/// Whatever text a link carries in its parameters, its request can be served.
pub proof fn links_are_routable(
    method: Method,
    path: Seq<char>,
    pairs: Seq<(Seq<char>, Seq<char>)>,
)
    requires
        !path.contains('?'),
        pairs.len() > 0,
        are_pairs(pairs),
        forall|i: int| 0 <= i < pairs.len() ==> decodable((#[trigger] pairs[i]).1),
    ensures
        routable(method, asking(path, pairs)),
        gateable(asking(path, pairs)),
        routable(method, path),
        gateable(path),
{
    urls_are_cut_at_the_question_mark(path, query_text(pairs));
    lemma_value_decodable(pairs, "path"@);
    lemma_value_decodable(pairs, "name"@);
    lemma_value_decodable(pairs, "q"@);
    lemma_value_decodable(pairs, "k"@);
}

proof fn lemma_value_decodable(pairs: Seq<(Seq<char>, Seq<char>)>, key: Seq<char>)
    requires
        pairs.len() > 0,
        are_pairs(pairs),
        forall|i: int| 0 <= i < pairs.len() ==> decodable((#[trigger] pairs[i]).1),
    ensures
        param(Some(query_text(pairs)), key) matches Some(v) ==> decodable(v),
{
    let i = lemma_first_with(pairs, key);
    queries_are_read_back(pairs, key, i);
    if i < pairs.len() {
        assert(decodable(pairs[i].1));
    }
}

proof fn lemma_first_with(pairs: Seq<(Seq<char>, Seq<char>)>, key: Seq<char>) -> (i: int)
    ensures
        0 <= i <= pairs.len(),
        forall|j: int| 0 <= j < i ==> (#[trigger] pairs[j]).0 != key,
        i < pairs.len() ==> pairs[i].0 == key,
    decreases pairs.len(),
{
    if pairs.len() == 0 || pairs[0].0 == key {
        0
    } else {
        let k = lemma_first_with(pairs.skip(1), key);
        assert forall|j: int| 0 <= j < k + 1 implies (#[trigger] pairs[j]).0 != key by {
            if j > 0 {
                assert(pairs.skip(1)[j - 1] == pairs[j]);
            }
        }
        k + 1
    }
}

/// A request that cannot be decoded is not served: not the one parameter that names its file.
pub proof fn broken_names_are_not_routable(name: Seq<char>)
    requires
        !decodable(name),
        !name.contains('&'),
    ensures
        !routable(Method::Get, asking("/download"@, seq![("path"@, name)])),
        !gateable(asking("/"@, seq![("k"@, name)])),
{
    reveal_strlit("/download");
    reveal_strlit("/");
    reveal_strlit("path");
    reveal_strlit("k");
    let a = seq![("path"@, name)];
    let b = seq![("k"@, name)];
    assert(!"path"@.contains('=') && !"path"@.contains('&'));
    assert(!"k"@.contains('=') && !"k"@.contains('&'));
    assert(are_pairs(a) && are_pairs(b));
    urls_are_cut_at_the_question_mark("/download"@, query_text(a));
    urls_are_cut_at_the_question_mark("/"@, query_text(b));
    queries_are_read_back(a, "path"@, 0);
    queries_are_read_back(b, "k"@, 0);
}

/// What becomes of a request on a secured server: the redirect that grants a session, the answer to
/// a login form, the login page, a refusal, or, for a client with a session, its route.
pub proof fn secured_requests_are_answered(
    method: Method,
    url: Seq<char>,
    headers: Seq<Header>,
    token: Seq<char>,
)
    ensures
        ({
            let a = action_of(method, url, headers, Some(token));
            let path = url_parts(url).0;
            &&& is_paired(url, token) ==> (a matches ActionText::Respond(r) && r.status == 303
                && r.headers.contains(("Location"@, path)) && r.headers.contains(
                ("Set-Cookie"@, granting_cookie(token)),
            ))
            &&& !is_paired(url, token) && has_session(headers, token) && !(method == Method::Post
                && path == "/login"@) ==> a == ActionText::Serve(route_of(method, url))
            &&& !is_paired(url, token) && !has_session(headers, token) ==> {
                ||| method == Method::Post && path == "/login"@ && a == ActionText::Login
                ||| method == Method::Get && (path == "/login"@ || path == "/"@) && a
                    == ActionText::LoginPage
                ||| a matches ActionText::Respond(r) && r.status == 401 && r.headers.len() == 0
            }
        }),
{
    let path = url_parts(url).0;
    let r = paired_text(token, path);
    assert(r.headers[0] == ("Set-Cookie"@, granting_cookie(token)));
    assert(r.headers[1] == ("Location"@, path));
}

} // verus!
