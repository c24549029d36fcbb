//! The decisions of the box endpoints.

use crate::auth::{Principal, Scope};
use crate::config::{texts, DEFAULT_PAGE_SIZE, MAX_WAIT_MS};
use crate::error::{name_detail, Error, Result};
use crate::http::{param, query_bool, text_opt, truth_of, Params};
use crate::text::{decimal_digits, law_numbers_read_back, parse_usize, unsigned_value};
use crate::types::{DiffResponse, ErrorCode, WriteRequest};
use vstd::prelude::*;

verus! {

/// The status of a request that may have created something.
pub open spec fn created_code(created: bool) -> u16 {
    if created {
        201
    } else {
        200
    }
}

/// The status of a request that may have created something.
pub fn created_status(created: bool) -> (r: u16)
    ensures
        r == created_code(created),
{
    if created {
        201
    } else {
        200
    }
}

/// The page size that a parameter asks for, where it reads as a number.
pub open spec fn page_size_of(v: Option<Seq<char>>) -> usize {
    match v {
        Some(s) => match unsigned_value(s) {
            Some(n) => n,
            None => DEFAULT_PAGE_SIZE,
        },
        None => DEFAULT_PAGE_SIZE,
    }
}

/// The page size of a listing.
pub fn page_size(params: &Params) -> (r: usize)
    requires
        params.wf(),
    ensures
        r == page_size_of(param(*params, "page_size"@)),
{
    match params.get("page_size") {
        Some(v) => match parse_usize(v.as_str()) {
            Some(n) => n,
            None => DEFAULT_PAGE_SIZE,
        },
        None => DEFAULT_PAGE_SIZE,
    }
}

/// A copy of a parameter.
pub fn param_copy(params: &Params, key: &str) -> (r: Option<String>)
    requires
        params.wf(),
    ensures
        text_opt(r) == param(*params, key@),
{
    match params.get(key) {
        Some(v) => Some(v.clone()),
        None => None,
    }
}

/// What a listing of boxes asks for.
#[derive(Debug)]
pub struct BoxListQuery {
    pub prefix: Option<String>,
    pub page_size: usize,
    pub cursor: Option<String>,
    pub touch: bool,
    /// The name prefixes the caller is limited to; without any it is not.
    pub allow: Vec<String>,
}

/// What a listing of boxes asks for. Listing does not count as consuming unless
/// it says so.
pub fn list_query(params: &Params, principal: Option<&Principal>) -> (r: BoxListQuery)
    requires
        params.wf(),
    ensures
        text_opt(r.prefix) == param(*params, "prefix"@),
        r.page_size == page_size_of(param(*params, "page_size"@)),
        text_opt(r.cursor) == param(*params, "cursor"@),
        r.touch == truth_of(param(*params, "touch"@), false),
        texts(r.allow@) == prefixes_of(principal),
{
    BoxListQuery {
        prefix: param_copy(params, "prefix"),
        page_size: page_size(params),
        cursor: param_copy(params, "cursor"),
        touch: query_bool(params, "touch", false),
        allow: principal_prefixes(principal),
    }
}

/// The name prefixes a caller is limited to; none for a caller without a
/// principal, which has full access.
pub open spec fn prefixes_of(principal: Option<&Principal>) -> Seq<Seq<char>> {
    match principal {
        Some(p) => texts(p.prefixes@),
        None => Seq::empty(),
    }
}

/// The name prefixes a caller is limited to.
pub fn principal_prefixes(principal: Option<&Principal>) -> (r: Vec<String>)
    ensures
        texts(r@) == prefixes_of(principal),
{
    let mut out: Vec<String> = Vec::new();
    if let Some(p) = principal {
        let mut i: usize = 0;
        while i < p.prefixes.len()
            invariant
                i <= p.prefixes@.len(),
                out@ == p.prefixes@.take(i as int),
            decreases p.prefixes@.len() - i,
        {
            assert(p.prefixes@.take(i + 1) =~= p.prefixes@.take(i as int).push(
                p.prefixes@[i as int],
            ));
            out.push(p.prefixes[i].clone());
            i += 1;
        }
        assert(out@ =~= p.prefixes@);
    } else {
        assert(texts(out@) =~= Seq::<Seq<char>>::empty());
    }
    out
}

/// The idempotency key of a write: the one in the body, or else the one in the
/// header.
pub open spec fn idempotency_key(body: Option<String>, header: Option<&str>) -> Option<Seq<char>> {
    match body {
        Some(k) => Some(k@),
        None => match header {
            Some(h) => Some(h@),
            None => None,
        },
    }
}

/// A write with the idempotency key of its header where its body has none.
pub fn with_header_key(req: WriteRequest, header: Option<&str>) -> (r: WriteRequest)
    ensures
        text_opt(r.idempotency_key) == idempotency_key(req.idempotency_key, header),
        r == (WriteRequest { idempotency_key: r.idempotency_key, ..req }),
{
    let key = match req.idempotency_key {
        Some(k) => Some(k),
        None => match header {
            Some(h) => Some(h.to_string()),
            None => None,
        },
    };
    WriteRequest {
        records: req.records,
        node: req.node,
        idempotency_key: key,
        create: req.create,
        config: req.config,
        disable_backpressure: req.disable_backpressure,
    }
}

/// A write may configure the box: it brings no configuration, or the box is
/// there already, or the caller may administer.
pub open spec fn may_configure(
    principal: Option<&Principal>,
    has_config: bool,
    box_exists: bool,
) -> bool {
    !has_config || box_exists || match principal {
        Some(p) => p.holds(Scope::Admin),
        None => true,
    }
}

/// Refuses a write that would configure a new box without the right to.
pub fn authorize_write(
    principal: Option<&Principal>,
    has_config: bool,
    box_exists: bool,
    box_name: &str,
) -> (r: Result<()>)
    ensures
        r is Ok == may_configure(principal, has_config, box_exists),
        r matches Err(e) ==> e.is_about(
            ErrorCode::Forbidden,
            "configuring a new box on write requires the admin scope"@,
            "box"@,
            box_name@,
        ),
{
    if has_config && !box_exists {
        let admin = match principal {
            Some(p) => p.allows_scope(Scope::Admin),
            None => true,
        };
        if !admin {
            return Err(
                Error::new(
                    ErrorCode::Forbidden,
                    "configuring a new box on write requires the admin scope",
                ).with_detail(name_detail("box", box_name)),
            );
        }
    }
    Ok(())
}

/// How long a read that asks to wait is held back: not at all where it has
/// something to answer with, else as long as it asks for, up to the limit.
pub open spec fn poll_wait(wait_ms: u32, first: DiffResponse) -> Option<u32> {
    if wait_ms == 0 || first.records@.len() > 0 || first.tombstone is Some || !first.caught_up {
        None
    } else if wait_ms > MAX_WAIT_MS {
        Some(MAX_WAIT_MS)
    } else {
        Some(wait_ms)
    }
}

/// How long a read is held back, given what it would answer right away.
pub fn long_poll(wait_ms: u32, first: &DiffResponse) -> (r: Option<u32>)
    ensures
        r == poll_wait(wait_ms, *first),
{
    let wait = if wait_ms > MAX_WAIT_MS {
        MAX_WAIT_MS
    } else {
        wait_ms
    };
    if wait == 0 || first.records.len() > 0 || first.tombstone.is_some() || !first.caught_up {
        None
    } else {
        Some(wait)
    }
}

/// A loss is answered right away: a read that finds a gap is never held back.
pub proof fn law_loss_is_answered_at_once(wait_ms: u32, first: DiffResponse)
    requires
        first.tombstone is Some,
    ensures
        poll_wait(wait_ms, first) is None,
{
}

/// A key without the right to administer configures no box that is not there:
/// a write with a configuration gets through only to a box that exists.
pub proof fn law_write_scope_configures_nothing_new(p: &Principal, box_exists: bool)
    requires
        !p.holds(Scope::Admin),
    ensures
        may_configure(Some(p), true, box_exists) == box_exists,
{
}

/// A page is as long as asked for, and as long as usual where that is not a number.
pub proof fn law_pages_are_as_long_as_asked(n: nat)
    requires
        n <= usize::MAX,
    ensures
        page_size_of(Some(decimal_digits(n))) == n,
        page_size_of(None) == 100,
        forall|s: Seq<char>| #[trigger]
            unsigned_value(s) is None ==> page_size_of(Some(s)) == 100,
{
    law_numbers_read_back(n);
}

/// A key in the body counts before one in the header.
pub proof fn law_the_body_key_counts_first(body: Option<String>, header: Option<&str>)
    ensures
        body is Some ==> idempotency_key(body, header) == Some((body->0)@),
        body is None && header is Some ==> idempotency_key(body, header) == Some((header->0)@),
        body is None && header is None ==> idempotency_key(body, header) is None,
{
}

/// A write is refused only where it brings a configuration to a box that is not
/// there, on a key that may not administer.
pub proof fn law_writes_are_refused_for_cause(
    principal: Option<&Principal>,
    has_config: bool,
    box_exists: bool,
)
    ensures
        !may_configure(principal, has_config, box_exists) <==> has_config && !box_exists && principal
            is Some && !(principal->0).admin,
{
}

/// A read is held back only where it asks for that and has nothing at all to say: no
/// record, no loss, nothing left to read. It is held for as long as it asks, and for
/// half a minute at most.
pub proof fn law_only_idle_reads_are_held_back(wait_ms: u32, first: DiffResponse)
    ensures
        poll_wait(wait_ms, first) is Some <==> wait_ms > 0 && first.records@.len() == 0
            && first.tombstone is None && first.caught_up,
        poll_wait(wait_ms, first) matches Some(ms) ==> {
            &&& 0 < ms <= 30_000
            &&& wait_ms <= 30_000 ==> ms == wait_ms
            &&& wait_ms > 30_000 ==> ms == 30_000
        },
{
}

/// What was created is told apart from what was there.
pub proof fn law_creation_is_told()
    ensures
        created_code(true) == 201,
        created_code(false) == 200,
{
}

/// A caller is limited to the prefixes of its key, in their order; without a key it is
/// not limited.
pub proof fn law_callers_have_their_own_prefixes(p: &Principal, i: int)
    ensures
        prefixes_of(None).len() == 0,
        prefixes_of(Some(p)).len() == p.prefixes@.len(),
        0 <= i < p.prefixes@.len() ==> prefixes_of(Some(p))[i] == p.prefixes@[i]@,
{
}

}
