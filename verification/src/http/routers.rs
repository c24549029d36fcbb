//! The decisions of the router endpoints.

use crate::auth::Principal;
use crate::config::texts;
use crate::error::{name_detail, Error, Result};
use crate::http::boxes::{
    page_size, page_size_of, param_copy, prefixes_of, principal_prefixes,
};
use crate::http::{param, text_opt, Params};
use crate::types::ErrorCode;
use vstd::prelude::*;

verus! {

/// The name of a route's end that keeps a caller from creating it: the source
/// first, then the destination.
pub open spec fn unreached_end(
    principal: Option<&Principal>,
    source: Seq<char>,
    dest: Seq<char>,
) -> Option<Seq<char>> {
    match principal {
        Some(p) => if !p.reaches(source) {
            Some(source)
        } else if !p.reaches(dest) {
            Some(dest)
        } else {
            None
        },
        None => None,
    }
}

/// Refuses a route to a caller that does not reach both its ends.
pub fn authorize_route(principal: Option<&Principal>, source: &str, dest: &str) -> (r: Result<()>)
    ensures
        match r {
            Ok(()) => unreached_end(principal, source@, dest@) is None,
            Err(e) => {
                &&& unreached_end(principal, source@, dest@) is Some
                &&& e.is_about(
                    ErrorCode::Forbidden,
                    "api key is not allowed to route to/from this box"@,
                    "box"@,
                    unreached_end(principal, source@, dest@)->0,
                )
            },
        },
{
    if let Some(p) = principal {
        let name = if !p.allows_name(source) {
            source
        } else if !p.allows_name(dest) {
            dest
        } else {
            return Ok(());
        };
        return Err(
            Error::new(
                ErrorCode::Forbidden,
                "api key is not allowed to route to/from this box",
            ).with_detail(name_detail("box", name)),
        );
    }
    Ok(())
}

/// The name that keeps a caller from a router: its own, its source's or its
/// destination's, in this order. Nothing keeps a caller from a router that is
/// not there.
pub open spec fn unreached_router(
    principal: Option<&Principal>,
    router: Seq<char>,
    ends: Option<(Seq<char>, Seq<char>)>,
) -> Option<Seq<char>> {
    match (principal, ends) {
        (Some(p), Some((source, dest))) => if !p.reaches(router) {
            Some(router)
        } else if !p.reaches(source) {
            Some(source)
        } else if !p.reaches(dest) {
            Some(dest)
        } else {
            None
        },
        _ => None,
    }
}

/// The texts of a router's ends.
pub open spec fn end_texts(ends: Option<(&str, &str)>) -> Option<(Seq<char>, Seq<char>)> {
    match ends {
        Some((source, dest)) => Some((source@, dest@)),
        None => None,
    }
}

/// Refuses a router to a caller that does not reach it and both its ends.
pub fn authorize_router_endpoints(
    principal: Option<&Principal>,
    router: &str,
    ends: Option<(&str, &str)>,
) -> (r: Result<()>)
    ensures
        match r {
            Ok(()) => unreached_router(principal, router@, end_texts(ends)) is None,
            Err(e) => {
                &&& unreached_router(principal, router@, end_texts(ends)) is Some
                &&& e.is_about(
                    ErrorCode::Forbidden,
                    "api key is not allowed to access this router's box(es)"@,
                    "box"@,
                    unreached_router(principal, router@, end_texts(ends))->0,
                )
            },
        },
{
    if let (Some(p), Some((source, dest))) = (principal, ends) {
        if p.prefixes.len() == 0 {
            return Ok(());
        }
        let name = if !p.allows_name(router) {
            router
        } else if !p.allows_name(source) {
            source
        } else if !p.allows_name(dest) {
            dest
        } else {
            return Ok(());
        };
        return Err(
            Error::new(
                ErrorCode::Forbidden,
                "api key is not allowed to access this router's box(es)",
            ).with_detail(name_detail("box", name)),
        );
    }
    Ok(())
}

/// What a listing of routers asks for.
#[derive(Debug)]
pub struct RouterListQuery {
    pub prefix: Option<String>,
    pub source: Option<String>,
    pub dest: Option<String>,
    pub page_size: usize,
    pub cursor: Option<String>,
    /// The name prefixes the caller is limited to; without any it is not.
    pub allow: Vec<String>,
}

/// What a listing of routers asks for.
pub fn list_query(params: &Params, principal: Option<&Principal>) -> (r: RouterListQuery)
    requires
        params.wf(),
    ensures
        text_opt(r.prefix) == param(*params, "prefix"@),
        text_opt(r.source) == param(*params, "source"@),
        text_opt(r.dest) == param(*params, "dest"@),
        r.page_size == page_size_of(param(*params, "page_size"@)),
        text_opt(r.cursor) == param(*params, "cursor"@),
        texts(r.allow@) == prefixes_of(principal),
{
    RouterListQuery {
        prefix: param_copy(params, "prefix"),
        source: param_copy(params, "source"),
        dest: param_copy(params, "dest"),
        page_size: page_size(params),
        cursor: param_copy(params, "cursor"),
        allow: principal_prefixes(principal),
    }
}

/// A limited key neither makes nor touches a route that leaves its prefixes: it
/// gets through only where it reaches every name involved.
pub proof fn law_routes_stay_in_reach(
    p: &Principal,
    router: Seq<char>,
    source: Seq<char>,
    dest: Seq<char>,
)
    ensures
        unreached_end(Some(p), source, dest) is None <==> p.reaches(source) && p.reaches(dest),
        unreached_router(Some(p), router, Some((source, dest))) is None <==> p.reaches(router)
            && p.reaches(source) && p.reaches(dest),
{
}

/// The name that keeps a caller out is one that the caller does not reach, and the
/// first of them; a caller without a key is never kept out, nor is anybody from a
/// router that is not there.
pub proof fn law_the_first_name_out_of_reach_is_named(
    p: &Principal,
    router: Seq<char>,
    source: Seq<char>,
    dest: Seq<char>,
)
    ensures
        !p.reaches(source) ==> unreached_end(Some(p), source, dest) == Some(source),
        p.reaches(source) && !p.reaches(dest) ==> unreached_end(Some(p), source, dest) == Some(dest),
        !p.reaches(router) ==> unreached_router(Some(p), router, Some((source, dest))) == Some(
            router,
        ),
        p.reaches(router) ==> unreached_router(Some(p), router, Some((source, dest)))
            == unreached_end(Some(p), source, dest),
        unreached_end(None, source, dest) is None,
        unreached_router(None, router, Some((source, dest))) is None,
        unreached_router(Some(p), router, None) is None,
{
}

}
