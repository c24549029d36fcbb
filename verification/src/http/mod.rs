//! The HTTP surface: authentication, content guards, query parameters and the
//! error envelope, apart from the server that carries them.

pub mod boxes;
pub mod health;
pub mod routers;
pub mod watch;
pub mod ws;

use crate::config::ServerConfig;
use crate::error::{Error, Result};
use crate::json::{json, Json};
use crate::name_map::NameMap;
use crate::text::{
    concat2, contains_char, decimal, decimal_digits, has_substring, is_white_space,
    lemma_trimmed_start, occurs_at, str_eq, strip_prefix, starts_with, trim, trim_start, trimmed,
    trimmed_start,
};
use crate::types::{lists, ErrorCode};
use serde_json::Value;
use vstd::prelude::*;
use vstd::string::*;

verus! {

/// The key a request was made with, so that what it creates can be bound to it.
#[derive(Debug, Clone)]
pub struct Principal(pub String);

/// The query parameters of a request.
pub type Params = NameMap<String>;

/// A path of a probe of liveness or readiness. The metrics tell more than that,
/// so they are not among them.
pub open spec fn is_probe(path: Seq<char>) -> bool {
    ||| path == "/healthz"@
    ||| path == "/readyz"@
    ||| path == "/v0/health"@
    ||| path == "/v0/ready"@
}

/// Whether a path is that of a probe.
pub fn is_probe_path(path: &str) -> (r: bool)
    ensures
        r == is_probe(path@),
{
    str_eq(path, "/healthz") || str_eq(path, "/readyz") || str_eq(path, "/v0/health") || str_eq(
        path,
        "/v0/ready",
    )
}

/// A path of an event stream: exactly one segment after `/v0/watch/`.
pub open spec fn is_watch_stream(path: Seq<char>) -> bool {
    let prefix = "/v0/watch/"@;
    &&& prefix.is_prefix_of(path)
    &&& path.len() > prefix.len()
    &&& !path.skip(prefix.len() as int).contains('/')
}

/// Whether a path is that of an event stream. Creating a session, which is a
/// `POST` to `/v0/watch`, is not.
pub fn is_watch_stream_path(path: &str) -> (r: bool)
    ensures
        r == is_watch_stream(path@),
{
    match strip_prefix(path, "/v0/watch/") {
        Some(rest) => rest.unicode_len() > 0 && !contains_char(rest, '/'),
        None => false,
    }
}

/// The token in an `Authorization` header.
pub open spec fn bearer_of(authorization: Option<&str>) -> Option<Seq<char>> {
    match authorization {
        Some(v) => if "Bearer "@.is_prefix_of(v@) {
            Some(trimmed(v@.skip("Bearer "@.len() as int)))
        } else {
            None
        },
        None => None,
    }
}

/// The text of a string that may be there.
pub open spec fn text_opt(s: Option<String>) -> Option<Seq<char>> {
    match s {
        Some(t) => Some(t@),
        None => None,
    }
}

/// The token in an `Authorization` header.
pub fn extract_bearer<'a>(authorization: Option<&'a str>) -> (r: Option<&'a str>)
    ensures
        match r {
            Some(t) => bearer_of(authorization) == Some(t@),
            None => bearer_of(authorization) is None,
        },
{
    match authorization {
        Some(v) => match strip_prefix(v, "Bearer ") {
            Some(rest) => Some(trim(rest)),
            None => None,
        },
        None => None,
    }
}

/// The name-value pairs of a query string, as `form_urlencoded::parse` decodes
/// them.
pub uninterp spec fn form_pairs(query: Seq<char>) -> Seq<(Seq<char>, Seq<char>)>;

/// The texts of pairs of strings.
pub open spec fn pair_texts(pairs: Seq<(String, String)>) -> Seq<(Seq<char>, Seq<char>)> {
    pairs.map_values(|p: (String, String)| (p.0@, p.1@))
}

/// `form_urlencoded::parse`: the pairs are determined by the query string.
#[verifier::external_body]
fn parse_form(query: &str) -> (r: Vec<(String, String)>)
    ensures
        pair_texts(r@) == form_pairs(query@),
{
    form_urlencoded::parse(query.as_bytes()).into_owned().collect()
}

/// The value of the first pair with a name.
pub open spec fn first_named(pairs: Seq<(Seq<char>, Seq<char>)>, name: Seq<char>) -> Option<
    Seq<char>,
>
    decreases pairs.len(),
{
    if pairs.len() == 0 {
        None
    } else if pairs[0].0 == name {
        Some(pairs[0].1)
    } else {
        first_named(pairs.skip(1), name)
    }
}

/// The value of the first pair with a name.
pub fn find_first(pairs: &Vec<(String, String)>, name: &str) -> (r: Option<String>)
    ensures
        text_opt(r) == first_named(pair_texts(pairs@), name@),
{
    let ghost all = pair_texts(pairs@);
    let mut i: usize = 0;
    assert(all.skip(0) =~= all);
    while i < pairs.len()
        invariant
            i <= pairs@.len(),
            all == pair_texts(pairs@),
            first_named(all, name@) == first_named(all.skip(i as int), name@),
        decreases pairs@.len() - i,
    {
        assert(all.skip(i as int)[0] == (pairs@[i as int].0@, pairs@[i as int].1@));
        assert(all.skip(i as int).skip(1) =~= all.skip(i + 1));
        if str_eq(pairs[i].0.as_str(), name) {
            return Some(pairs[i].1.clone());
        }
        i += 1;
    }
    None
}

/// The `token` parameter of a query string; the first one where it is repeated.
pub open spec fn token_of(query: Option<&str>) -> Option<Seq<char>> {
    match query {
        Some(q) => first_named(form_pairs(q@), "token"@),
        None => None,
    }
}

/// The `token` parameter of a query string; the first one where it is repeated.
pub fn query_token(query: Option<&str>) -> (r: Option<String>)
    ensures
        text_opt(r) == token_of(query),
{
    match query {
        Some(q) => {
            let pairs = parse_form(q);
            find_first(&pairs, "token")
        },
        None => None,
    }
}

/// Whether a request goes on to its handler.
#[derive(Debug, Clone)]
pub enum Access {
    /// It does, and is not bound to a key.
    Open,
    /// It does, and was made with this key.
    Granted(Principal),
    /// It does not.
    Denied,
}

/// The request needs no key here: keys are not in use, or it is a probe and
/// probes are open, or it opens an event stream, whose id is the capability.
pub open spec fn is_open(cfg: ServerConfig, is_get: bool, path: Seq<char>) -> bool {
    ||| cfg.api_keys@.len() == 0
    ||| is_probe(path) && !cfg.probe_auth
    ||| is_get && is_watch_stream(path)
}

impl Access {
    /// The access of a request that presents a token.
    pub open spec fn is_for(
        self,
        cfg: ServerConfig,
        is_get: bool,
        path: Seq<char>,
        token: Option<Seq<char>>,
    ) -> bool {
        match self {
            Access::Open => is_open(cfg, is_get, path),
            Access::Granted(p) => !is_open(cfg, is_get, path) && token == Some(p.0@) && lists(
                cfg.api_keys@,
                p.0@,
            ),
            Access::Denied => !is_open(cfg, is_get, path) && match token {
                Some(t) => !lists(cfg.api_keys@, t),
                None => true,
            },
        }
    }
}

/// Decides on a request that presents a token.
pub fn decide_access(cfg: &ServerConfig, is_get: bool, path: &str, token: Option<String>) -> (r:
    Access)
    ensures
        r.is_for(*cfg, is_get, path@, text_opt(token)),
{
    if !cfg.auth_enabled() {
        return Access::Open;
    }
    if is_probe_path(path) && !cfg.probe_auth {
        return Access::Open;
    }
    if is_get && is_watch_stream_path(path) {
        return Access::Open;
    }
    match token {
        Some(t) => if cfg.key_matches(t.as_str()) {
            Access::Granted(Principal(t))
        } else {
            Access::Denied
        },
        None => Access::Denied,
    }
}

/// The token a request presents: the one in its header, or else the one in its
/// query string.
pub open spec fn presented(authorization: Option<&str>, query: Option<&str>) -> Option<Seq<char>> {
    match bearer_of(authorization) {
        Some(t) => Some(t),
        None => token_of(query),
    }
}

/// Decides on a request by its header and its query string.
pub fn authenticate(
    cfg: &ServerConfig,
    is_get: bool,
    path: &str,
    authorization: Option<&str>,
    query: Option<&str>,
) -> (r: Access)
    ensures
        r.is_for(*cfg, is_get, path@, presented(authorization, query)),
{
    let token = match extract_bearer(authorization) {
        Some(t) => Some(t.to_string()),
        None => query_token(query),
    };
    decide_access(cfg, is_get, path, token)
}

/// The answer to a request that was denied.
pub fn unauthorized() -> (r: Error)
    ensures
        r.is_plain(ErrorCode::Unauthorized, "missing or invalid bearer token"@),
{
    Error::new(ErrorCode::Unauthorized, "missing or invalid bearer token")
}

/// The error of a request whose work did not come to an end.
pub fn task_failure(what: &str) -> (r: Error)
    ensures
        r.is_plain(ErrorCode::Internal, "engine task failed: "@ + what@),
{
    Error::internal(concat2("engine task failed: ", what).as_str())
}

/// An error as a response: the status, the body and the `Retry-After` header.
pub struct ErrorResponse {
    pub status: u16,
    pub body: Value,
    pub retry_after: Option<String>,
}

impl Error {
    /// The response that carries this error.
    pub fn response(&self) -> (r: ErrorResponse)
        ensures
            r.status == self.code.spec_status(),
            json(r.body) == self.wire(),
            text_opt(r.retry_after) == match self.retry_after_s {
                Some(s) => Some(decimal_digits(s as nat)),
                None => None,
            },
    {
        let envelope = self.envelope();
        ErrorResponse {
            status: self.http_status(),
            body: envelope.to_json(),
            retry_after: match self.retry_after_s {
                Some(s) => Some(decimal(s)),
                None => None,
            },
        }
    }
}

/// The content type is JSON.
pub open spec fn is_json_type(content_type: Option<&str>) -> bool {
    match content_type {
        Some(ct) => "application/json"@.is_prefix_of(trimmed_start(ct@)),
        None => false,
    }
}

/// Refuses a body that is not declared as JSON.
pub fn require_json_content_type(content_type: Option<&str>) -> (r: Result<()>)
    ensures
        r is Ok == is_json_type(content_type),
        r matches Err(e) ==> e.is_plain(
            ErrorCode::UnsupportedMediaType,
            "Content-Type must be application/json"@,
        ),
{
    let ok = match content_type {
        Some(ct) => starts_with(trim_start(ct), "application/json"),
        None => false,
    };
    if ok {
        Ok(())
    } else {
        Err(
            Error::new(
                ErrorCode::UnsupportedMediaType,
                "Content-Type must be application/json",
            ),
        )
    }
}

/// The outcome of reading a JSON body: refused where the body is not declared as
/// JSON, whatever was parsed; else what was parsed, or what the parser said.
pub fn parse_json_body<T>(
    content_type: Option<&str>,
    parsed: std::result::Result<T, String>,
) -> (r: Result<T>)
    ensures
        match r {
            Ok(v) => is_json_type(content_type) && parsed == Ok::<T, String>(v),
            Err(e) => if is_json_type(content_type) {
                &&& parsed is Err
                &&& e.is_plain(ErrorCode::InvalidRequest, "malformed JSON body: "@ + parsed->Err_0@)
            } else {
                e.is_plain(
                    ErrorCode::UnsupportedMediaType,
                    "Content-Type must be application/json"@,
                )
            },
        },
{
    match require_json_content_type(content_type) {
        Ok(()) => match parsed {
            Ok(v) => Ok(v),
            Err(what) => Err(
                Error::invalid_request(concat2("malformed JSON body: ", what.as_str()).as_str()),
            ),
        },
        Err(e) => Err(e),
    }
}

/// A truth value as it is written in a query string.
pub open spec fn truth_of(v: Option<Seq<char>>, default: bool) -> bool {
    match v {
        Some(s) => if s == "true"@ || s == "1"@ {
            true
        } else if s == "false"@ || s == "0"@ {
            false
        } else {
            default
        },
        None => default,
    }
}

/// The text of a parameter.
pub open spec fn param(params: Params, key: Seq<char>) -> Option<Seq<char>> {
    if params@.contains_key(key) {
        Some(params@[key]@)
    } else {
        None
    }
}

/// A parameter as a truth value, where it reads as one.
pub fn query_bool(params: &Params, key: &str, default: bool) -> (r: bool)
    requires
        params.wf(),
    ensures
        r == truth_of(param(*params, key@), default),
{
    match params.get(key) {
        Some(s) => if str_eq(s.as_str(), "true") || str_eq(s.as_str(), "1") {
            true
        } else if str_eq(s.as_str(), "false") || str_eq(s.as_str(), "0") {
            false
        } else {
            default
        },
        None => default,
    }
}

/// The error that a bare response stands for: one that carries no JSON of its
/// own and has a status that routing or the body limit gives.
pub open spec fn bare_error(status: u16, content_type: Option<&str>) -> Option<
    (ErrorCode, Seq<char>),
> {
    let ours = match content_type {
        Some(ct) => "application/json"@.is_prefix_of(ct@),
        None => false,
    };
    if ours {
        None
    } else if status == 413 {
        Some((ErrorCode::PayloadTooLarge, "request body exceeds the server limit"@))
    } else if status == 404 {
        Some((ErrorCode::NotFound, "resource not found"@))
    } else if status == 405 {
        Some((ErrorCode::MethodNotAllowed, "method not allowed for this path"@))
    } else if status == 415 {
        Some((ErrorCode::UnsupportedMediaType, "Content-Type must be application/json"@))
    } else {
        None
    }
}

/// The error to send in place of a bare response; `None` where the response
/// stays as it is.
pub fn envelope_error(status: u16, content_type: Option<&str>) -> (r: Option<Error>)
    ensures
        match r {
            Some(e) => {
                &&& bare_error(status, content_type) is Some
                &&& e.is_plain(
                    (bare_error(status, content_type)->0).0,
                    (bare_error(status, content_type)->0).1,
                )
            },
            None => bare_error(status, content_type) is None,
        },
{
    let ours = match content_type {
        Some(ct) => starts_with(ct, "application/json"),
        None => false,
    };
    if ours {
        return None;
    }
    if status == 413 {
        Some(Error::new(ErrorCode::PayloadTooLarge, "request body exceeds the server limit"))
    } else if status == 404 {
        Some(Error::new(ErrorCode::NotFound, "resource not found"))
    } else if status == 405 {
        Some(Error::new(ErrorCode::MethodNotAllowed, "method not allowed for this path"))
    } else if status == 415 {
        Some(Error::new(ErrorCode::UnsupportedMediaType, "Content-Type must be application/json"))
    } else {
        None
    }
}

/// With keys in use, a request to anything but an open probe or an event stream
/// gets through only with one of the keys.
pub proof fn law_no_key_no_access(
    cfg: ServerConfig,
    is_get: bool,
    path: Seq<char>,
    token: Option<Seq<char>>,
    access: Access,
)
    requires
        cfg.api_keys@.len() > 0,
        !is_probe(path) || cfg.probe_auth,
        !is_get || !is_watch_stream(path),
        access.is_for(cfg, is_get, path, token),
    ensures
        !(access is Open),
        access is Granted <==> token is Some && lists(cfg.api_keys@, token->0),
        access matches Access::Granted(p) ==> token == Some(p.0@),
{
}

/// A rewritten response keeps its status: the error's own status is that of the
/// bare response it replaces.
pub proof fn law_envelope_keeps_the_status(status: u16, content_type: Option<&str>)
    ensures
        bare_error(status, content_type) matches Some((code, _)) ==> code.spec_status() == status,
{
}

/// The path of an event stream is `/v0/watch/` and one segment more: whatever the
/// segment, so long as it is not empty and goes no deeper; and nothing else is.
pub proof fn law_a_stream_path_names_one_session(segment: Seq<char>, path: Seq<char>)
    ensures
        is_watch_stream("/v0/watch/"@ + segment) <==> segment.len() > 0 && !segment.contains('/'),
        is_watch_stream(path) ==> path.len() > 10 && path == "/v0/watch/"@ + path.skip(10),
{
    reveal_strlit("/v0/watch/");
    let prefix = "/v0/watch/"@;
    assert(prefix.len() == 10);
    assert((prefix + segment).skip(10) =~= segment);
    assert(prefix.is_prefix_of(prefix + segment)) by {
        assert((prefix + segment).subrange(0, 10) =~= prefix);
    }
    if is_watch_stream(path) {
        assert(path =~= prefix + path.skip(10));
    }
}

/// No probe is the path of an event stream, and the session endpoint is neither.
pub proof fn law_probes_and_streams_are_apart(path: Seq<char>)
    ensures
        !(is_probe(path) && is_watch_stream(path)),
        !is_probe("/v0/watch"@) && !is_watch_stream("/v0/watch"@),
        !is_probe("/v0/metrics"@) && !is_watch_stream("/v0/metrics"@),
{
    reveal_strlit("/v0/watch/");
    reveal_strlit("/v0/watch");
    reveal_strlit("/v0/metrics");
    reveal_strlit("/healthz");
    reveal_strlit("/readyz");
    reveal_strlit("/v0/health");
    reveal_strlit("/v0/ready");
    assert("/v0/watch"@[4] == 'w' && "/v0/ready"@[4] == 'r');
    if "/v0/watch/"@.is_prefix_of("/v0/metrics"@) {
        assert("/v0/metrics"@.subrange(0, 10)[4] == 'm');
    }
}

/// The token of a header is what follows `Bearer` and a space, without the white space
/// around it; a header that begins otherwise has none.
pub proof fn law_a_bearer_is_what_follows(header: &str, token: Seq<char>)
    ensures
        header@ == "Bearer "@ + token ==> bearer_of(Some(header)) == Some(trimmed(token)),
        bearer_of(Some(header)) is Some ==> header@.len() >= 7 && header@.take(7) == "Bearer "@,
        bearer_of(None) is None,
{
    reveal_strlit("Bearer ");
    let prefix = "Bearer "@;
    if header@ == prefix + token {
        assert(header@.skip(7) =~= token);
        assert(header@.subrange(0, 7) =~= prefix);
    }
    if prefix.is_prefix_of(header@) {
        assert(header@.take(7) =~= prefix);
    }
}

/// Of the pairs with one name the first one counts, and a name without a pair has no
/// value.
pub proof fn law_the_first_pair_counts(
    pairs: Seq<(Seq<char>, Seq<char>)>,
    name: Seq<char>,
    i: int,
)
    ensures
        0 <= i < pairs.len() && pairs[i].0 == name && (forall|j: int|
            0 <= j < i ==> (#[trigger] pairs[j]).0 != name) ==> first_named(pairs, name) == Some(
            pairs[i].1,
        ),
        (forall|j: int| 0 <= j < pairs.len() ==> (#[trigger] pairs[j]).0 != name) ==> first_named(
            pairs,
            name,
        ) is None,
    decreases pairs.len(),
{
    if pairs.len() > 0 && pairs[0].0 != name {
        let rest = pairs.skip(1);
        law_the_first_pair_counts(rest, name, i - 1);
        assert(forall|j: int| 0 <= j < rest.len() ==> rest[j] == pairs[j + 1]);
    }
}

/// Without keys every request is let through, and is bound to none. With keys a
/// request is let through without one only to a probe, where probes are open, or to
/// open an event stream; whoever presents a key there is not bound to it either.
pub proof fn law_what_is_open_is_open_to_all(
    cfg: ServerConfig,
    is_get: bool,
    path: Seq<char>,
    token: Option<Seq<char>>,
    access: Access,
)
    requires
        access.is_for(cfg, is_get, path, token),
    ensures
        cfg.api_keys@.len() == 0 ==> access is Open,
        is_probe(path) && !cfg.probe_auth ==> access is Open,
        is_get && is_watch_stream(path) ==> access is Open,
        access is Open && cfg.api_keys@.len() > 0 ==> (is_probe(path) && !cfg.probe_auth) || (is_get
            && is_watch_stream(path)),
        access is Granted ==> exists|i: int|
            0 <= i < cfg.api_keys@.len() && (#[trigger] cfg.api_keys@[i])@ == token->0,
        token is None ==> !(access is Granted),
{
}

/// The probes are these paths.
pub proof fn law_the_probes(path: Seq<char>)
    ensures
        is_probe("/healthz"@) && is_probe("/readyz"@),
        is_probe("/v0/health"@) && is_probe("/v0/ready"@),
        is_probe(path) ==> path.len() == 7 || path.len() == 8 || path.len() == 9 || path.len() == 10,
{
    reveal_strlit("/healthz");
    reveal_strlit("/readyz");
    reveal_strlit("/v0/health");
    reveal_strlit("/v0/ready");
}

/// A key in the header counts before one in the query.
pub proof fn law_the_header_counts_before_the_query(header: Option<&str>, query: Option<&str>)
    ensures
        bearer_of(header) is Some ==> presented(header, query) == bearer_of(header),
        bearer_of(header) is None && query is Some ==> presented(header, query) == first_named(
            form_pairs((query->0)@),
            "token"@,
        ),
        bearer_of(header) is None && query is None ==> presented(header, query) is None,
{
}

/// A parameter says yes or no in two ways each, and what says neither says nothing.
pub proof fn law_parameters_say_yes_or_no(v: Option<Seq<char>>, default: bool)
    ensures
        v == Some("true"@) || v == Some("1"@) ==> truth_of(v, default),
        v == Some("false"@) || v == Some("0"@) ==> !truth_of(v, default),
        truth_of(v, default) != default ==> v == Some("true"@) || v == Some("1"@) || v == Some(
            "false"@,
        ) || v == Some("0"@),
{
    reveal_strlit("true");
    reveal_strlit("1");
    reveal_strlit("false");
    reveal_strlit("0");
    assert("1"@[0] == '1' && "0"@[0] == '0');
    assert("true"@.len() == 4 && "false"@.len() == 5 && "1"@.len() == 1 && "0"@.len() == 1);
    assert("0"@ != "1"@ && "0"@ != "true"@ && "false"@ != "1"@ && "false"@ != "true"@);
}

/// A body is JSON when its type says so behind white space, whatever parameters
/// follow; without a type it is not.
pub proof fn law_json_is_declared(content_type: &str, parameters: Seq<char>)
    ensures
        content_type@ == "application/json"@ + parameters ==> is_json_type(Some(content_type)),
        is_json_type(Some(content_type)) ==> has_substring(content_type@, "application/json"@),
        !is_json_type(None),
{
    reveal_strlit("application/json");
    let name = "application/json"@;
    let ct = content_type@;
    assert(name.len() == 16 && name[0] == 'a');
    if ct == name + parameters {
        assert(ct[0] == name[0]);
        assert(!is_white_space(ct[0]));
        assert(trimmed_start(ct) == ct);
        assert(ct.subrange(0, 16) =~= name);
    }
    if is_json_type(Some(content_type)) {
        lemma_trimmed_start(ct);
        let i = ct.len() - trimmed_start(ct).len();
        assert(ct.subrange(i, i + 16) =~= trimmed_start(ct).subrange(0, 16));
        assert(trimmed_start(ct).subrange(0, 16) =~= name);
        assert(occurs_at(ct, name, i));
    }
}

/// A bare response is rewritten exactly when routing or the body limit made it and it
/// is not JSON already.
pub proof fn law_bare_responses_are_rewritten(status: u16, content_type: Option<&str>)
    ensures
        content_type is None ==> (bare_error(status, content_type) is Some <==> status == 404 || status
            == 405 || status == 413 || status == 415),
        content_type matches Some(ct) ==> (bare_error(status, content_type) is Some <==> (status == 404
            || status == 405 || status == 413 || status == 415) && !"application/json"@.is_prefix_of(
            ct@,
        )),
        bare_error(status, content_type) matches Some((code, _)) ==> code
            == ErrorCode::PayloadTooLarge || code == ErrorCode::NotFound || code
            == ErrorCode::MethodNotAllowed || code == ErrorCode::UnsupportedMediaType,
{
}

/// A parameter is what the request has under its name, and nothing where it has none.
pub proof fn law_parameters_are_found_by_name(params: Params, key: Seq<char>)
    ensures
        params@.contains_key(key) ==> param(params, key) == Some(params@[key]@),
        !params@.contains_key(key) ==> param(params, key) is None,
{
}

/// The texts of pairs are theirs, in order; and the text of a string is there exactly
/// where the string is.
pub proof fn law_texts_are_what_the_strings_hold(
    pairs: Seq<(String, String)>,
    s: Option<String>,
    i: int,
)
    ensures
        pair_texts(pairs).len() == pairs.len(),
        0 <= i < pairs.len() ==> pair_texts(pairs)[i].0 == pairs[i].0@ && pair_texts(pairs)[i].1
            == pairs[i].1@,
        s matches Some(t) ==> text_opt(s) == Some(t@),
        s is None ==> text_opt(s) is None,
{
}

}
