//! Server configuration, hard limits and defaults.

use crate::text::{
    before_last, chars_of, concat3, contains_char, law_the_last_separator_splits,
    lemma_utf8_injective, parse_usize, pieces, split, starts_with, str_eq, trim, trimmed,
    unsigned_value, up_to_last,
};
use crate::types::lists;
use vstd::prelude::*;
use vstd::string::*;

verus! {

/// Most records in one write request.
pub const MAX_BATCH_RECORDS: usize = 10_000;

/// Most canonical bytes of one record's `data` and `meta` together (1 MiB).
pub const MAX_RECORD_BYTES: usize = 1_048_576;

/// Most bytes of a request body (64 MiB).
pub const MAX_BODY_BYTES: usize = 67_108_864;

/// Most bytes of one record's `meta` (16 KiB).
pub const MAX_META_BYTES: usize = 16_384;

/// Most keys of one record's `meta`.
pub const MAX_META_KEYS: usize = 64;

/// Most bytes of a tag.
pub const MAX_TAG_BYTES: usize = 256;

/// Most bytes of a node.
pub const MAX_NODE_BYTES: usize = 128;

/// Most characters of an idempotency key.
pub const MAX_IDEMPOTENCY_KEY_LEN: usize = 256;

/// Records in a diff when the caller names no limit.
pub const DEFAULT_LIMIT: u32 = 256;

/// Most records in a diff; a larger limit is clamped, not rejected.
pub const MAX_LIMIT: u32 = 1000;

/// Longest long-poll (ms); a longer wait is clamped, not rejected.
pub const MAX_WAIT_MS: u32 = 30_000;

/// Entries of a listing page when the caller names no size.
pub const DEFAULT_PAGE_SIZE: usize = 100;

/// Most entries of a listing page.
pub const MAX_PAGE_SIZE: usize = 1000;

/// Most active delete filters of one box.
pub const MAX_DELETE_FILTERS: usize = 4096;

/// Most boxes of one watch subscription.
pub const MAX_WATCH_BOXES: usize = 256;

/// How long a watch session outlives its last active stream (ms).
pub const SESSION_TTL_MS: u64 = 300_000;

/// Shortest heartbeat interval (ms).
pub const MIN_HEARTBEAT_MS: u64 = 1_000;

/// Longest heartbeat interval (ms).
pub const MAX_HEARTBEAT_MS: u64 = 60_000;

/// Reconnect backoff advertised to event-stream clients (ms).
pub const SSE_RETRY_MS: u64 = 2_000;

/// Most forwarding hops of a router that allows cycles.
pub const MAX_ROUTER_HOPS: u8 = 8;

/// Lowest manual priority.
pub const PRIORITY_MIN: i32 = -1000;

/// Highest manual priority.
pub const PRIORITY_MAX: i32 = 1000;

/// Recency bonus of a box consumed just now.
pub const AUTO_MAX: u64 = 500;

/// Time over which the recency bonus halves (ms).
pub const HALF_LIFE_MS: u64 = 30_000;

/// Idle time from which on there is no recency bonus (ms).
pub const AUTO_FLOOR_MS: u64 = 300_000;

/// Waiting time that earns one point of priority (ms): +100 each second.
pub const AGE_MS_PER_POINT: u64 = 10;

/// Waiting time beyond which priority rises no further (ms).
pub const AGE_CAP_MS: u64 = 10_000;

/// Most bytes of records in one delivery when the watcher names no other bound.
pub const DEFAULT_MAX_BATCH_BYTES: u64 = 262_144;

/// The environment the server is configured from: each variable's text, where
/// it is set.
pub struct EnvVars {
    /// `STREAMS_HOST`
    pub host: Option<String>,
    /// `STREAMS_PORT`
    pub port: Option<String>,
    /// `STREAMS_API_KEYS`
    pub api_keys: Option<String>,
    /// `STREAMS_PROBE_AUTH`
    pub probe_auth: Option<String>,
    /// `STREAMS_MAX_BODY_BYTES`
    pub max_body_bytes: Option<String>,
    /// `STREAMS_DATA_DIR`
    pub data_dir: Option<String>,
    /// `STREAMS_ALLOW_INSECURE_NO_AUTH`
    pub allow_insecure_no_auth: Option<String>,
}

/// Runtime configuration of the server.
#[derive(Debug, Clone)]
pub struct ServerConfig {
    /// Bind address, e.g. `127.0.0.1:4000`.
    pub bind_addr: String,
    /// Accepted bearer keys. Without any, requests are not authenticated.
    pub api_keys: Vec<String>,
    /// Whether the health and readiness probes need a key too.
    pub probe_auth: bool,
    /// Most bytes of a request body.
    pub max_body_bytes: usize,
    /// Directory for the log, the segments and the snapshots.
    pub data_dir: Option<String>,
    /// Whether the server may serve without keys on an address that others can
    /// reach.
    pub allow_insecure_no_auth: bool,
}

/// The texts of strings.
pub open spec fn texts(v: Seq<String>) -> Seq<Seq<char>> {
    v.map_values(|s: String| s@)
}

/// The pieces without white space around them, those that are then empty left
/// out.
pub open spec fn trimmed_pieces(ps: Seq<Seq<char>>) -> Seq<Seq<char>>
    decreases ps.len(),
{
    if ps.len() == 0 {
        ps
    } else {
        let rest = trimmed_pieces(ps.drop_last());
        if trimmed(ps.last()).len() > 0 {
            rest.push(trimmed(ps.last()))
        } else {
            rest
        }
    }
}

/// The bind address for a host and a port: a host that has a port in it is the
/// address, a host without one gets the port.
pub open spec fn bind_addr_of(host: Option<String>, port: Option<String>) -> Seq<char> {
    let p = match port {
        Some(p) => p@,
        None => "4000"@,
    };
    match host {
        Some(h) => if h@.contains(':') {
            h@
        } else {
            h@ + ":"@ + p
        },
        None => "127.0.0.1"@ + ":"@ + p,
    }
}

/// The keys in a comma-separated list.
pub open spec fn keys_of(list: Option<String>) -> Seq<Seq<char>> {
    match list {
        Some(l) => trimmed_pieces(pieces(l@, ',')),
        None => Seq::empty(),
    }
}

/// The variable is switched on.
pub open spec fn is_on(v: Option<String>) -> bool {
    match v {
        Some(s) => s@ == "true"@ || s@ == "1"@,
        None => false,
    }
}

/// The host of an address reaches this machine only.
pub open spec fn is_loopback(addr: Seq<char>) -> bool {
    let host = up_to_last(addr, ':');
    ||| host == "localhost"@
    ||| host == "[::1]"@
    ||| "127."@.is_prefix_of(host) && forall|i: int|
        0 <= i < host.len() ==> (#[trigger] host[i] == '.' || '0' <= host[i] <= '9')
}

fn var_is_on(v: &Option<String>) -> (r: bool)
    ensures
        r == is_on(*v),
{
    match v {
        Some(s) => str_eq(s.as_str(), "true") || str_eq(s.as_str(), "1"),
        None => false,
    }
}

/// The trimmed, non-empty items of a comma-separated list.
fn list_items(list: &str) -> (r: Vec<String>)
    ensures
        texts(r@) == trimmed_pieces(pieces(list@, ',')),
{
    let parts = split(list, ',');
    let ghost ps = pieces(list@, ',');
    let mut out: Vec<String> = Vec::new();
    let mut i: usize = 0;
    assert(texts(out@) =~= trimmed_pieces(ps.take(0)));
    while i < parts.len()
        invariant
            i <= parts@.len(),
            parts@.map_values(|p: &str| p@) == ps,
            texts(out@) == trimmed_pieces(ps.take(i as int)),
        decreases parts@.len() - i,
    {
        let item = trim(parts[i]);
        let ghost was = texts(out@);
        assert(ps[i as int] == parts@[i as int]@);
        assert(ps.take(i + 1).drop_last() =~= ps.take(i as int));
        if item.unicode_len() > 0 {
            out.push(item.to_string());
            assert(texts(out@) =~= was.push(item@));
        }
        i += 1;
    }
    assert(ps.take(i as int) =~= ps);
    out
}

/// Whether the host of an address reaches this machine only.
pub fn is_loopback_addr(addr: &str) -> (r: bool)
    ensures
        r == is_loopback(addr@),
{
    let host = before_last(addr, ':');
    if str_eq(host, "localhost") || str_eq(host, "[::1]") {
        return true;
    }
    if !starts_with(host, "127.") {
        return false;
    }
    let x = chars_of(host);
    let mut i: usize = 0;
    while i < x.len()
        invariant
            i <= x@.len(),
            x@ == host@,
            host@ == up_to_last(addr@, ':'),
            host@ != "localhost"@,
            host@ != "[::1]"@,
            forall|j: int|
                0 <= j < i ==> (#[trigger] host@[j] == '.' || '0' <= host@[j] <= '9'),
        decreases x@.len() - i,
    {
        if x[i] != '.' && (x[i] < '0' || x[i] > '9') {
            return false;
        }
        i += 1;
    }
    true
}

/// `subtle`'s `ConstantTimeEq` on byte slices: whether the two hold the same
/// bytes, found in a time that depends on their lengths only.
#[verifier::external_body]
pub(crate) fn constant_time_eq(a: &[u8], b: &[u8]) -> (r: bool)
    ensures
        r == (a@ == b@),
{
    subtle::ConstantTimeEq::ct_eq(a, b).into()
}

/// Whether two secrets are the same, without telling how they differ.
pub fn secret_eq(a: &str, b: &str) -> (r: bool)
    ensures
        r == (a@ == b@),
{
    proof {
        lemma_utf8_injective(a@, b@);
    }
    constant_time_eq(a.as_bytes(), b.as_bytes())
}

impl Default for ServerConfig {
    /// Loopback only, without keys.
    fn default() -> (r: Self)
        ensures
            r.bind_addr@ == "127.0.0.1:4000"@,
            r.api_keys@.len() == 0,
            !r.probe_auth,
            r.max_body_bytes == MAX_BODY_BYTES,
            r.data_dir is Some,
            r.data_dir->0@ == "./streams-data"@,
            !r.allow_insecure_no_auth,
    {
        ServerConfig {
            bind_addr: "127.0.0.1:4000".to_string(),
            api_keys: Vec::new(),
            probe_auth: false,
            max_body_bytes: MAX_BODY_BYTES,
            data_dir: Some("./streams-data".to_string()),
            allow_insecure_no_auth: false,
        }
    }
}

impl ServerConfig {
    /// The configuration that an environment asks for; what it leaves unset, or
    /// sets to something unreadable, keeps its default.
    pub fn from_env(env: &EnvVars) -> (r: Self)
        ensures
            r.bind_addr@ == bind_addr_of(env.host, env.port),
            texts(r.api_keys@) == keys_of(env.api_keys),
            r.probe_auth == is_on(env.probe_auth),
            r.max_body_bytes == match env.max_body_bytes {
                Some(s) => match unsigned_value(s@) {
                    Some(n) => n,
                    None => MAX_BODY_BYTES,
                },
                None => MAX_BODY_BYTES,
            },
            r.data_dir is Some,
            r.data_dir->0@ == match env.data_dir {
                Some(s) => if trimmed(s@).len() > 0 {
                    trimmed(s@)
                } else {
                    "./streams-data"@
                },
                None => "./streams-data"@,
            },
            r.allow_insecure_no_auth == is_on(env.allow_insecure_no_auth),
    {
        let mut cfg = ServerConfig::default();
        let port = match &env.port {
            Some(p) => p.as_str(),
            None => "4000",
        };
        cfg.bind_addr = match &env.host {
            Some(host) => if contains_char(host.as_str(), ':') {
                host.clone()
            } else {
                concat3(host.as_str(), ":", port)
            },
            None => concat3("127.0.0.1", ":", port),
        };
        if let Some(keys) = &env.api_keys {
            cfg.api_keys = list_items(keys.as_str());
        }
        assert(env.api_keys is None ==> texts(cfg.api_keys@) =~= Seq::<Seq<char>>::empty());
        cfg.probe_auth = var_is_on(&env.probe_auth);
        if let Some(v) = &env.max_body_bytes {
            if let Some(n) = parse_usize(v.as_str()) {
                cfg.max_body_bytes = n;
            }
        }
        if let Some(dir) = &env.data_dir {
            let dir = trim(dir.as_str());
            if dir.unicode_len() > 0 {
                cfg.data_dir = Some(dir.to_string());
            }
        }
        cfg.allow_insecure_no_auth = var_is_on(&env.allow_insecure_no_auth);
        cfg
    }

    /// Whether requests are authenticated.
    pub fn auth_enabled(&self) -> (r: bool)
        ensures
            r == (self.api_keys@.len() > 0),
    {
        self.api_keys.len() > 0
    }

    /// Whether a token is one of the keys; every key is looked at, whatever
    /// matches.
    pub fn key_matches(&self, token: &str) -> (r: bool)
        ensures
            r == lists(self.api_keys@, token@),
    {
        let mut found = false;
        let mut i: usize = 0;
        while i < self.api_keys.len()
            invariant
                i <= self.api_keys@.len(),
                found == exists|j: int|
                    0 <= j < i && (#[trigger] self.api_keys@[j])@ == token@,
            decreases self.api_keys@.len() - i,
        {
            let same = secret_eq(self.api_keys[i].as_str(), token);
            assert(same == (self.api_keys@[i as int]@ == token@));
            found = same || found;
            i += 1;
        }
        found
    }

    /// The server may start: it is authenticated, or others cannot reach it, or
    /// it was told to serve all the same.
    pub open spec fn may_start(self) -> bool {
        self.api_keys@.len() > 0 || is_loopback(self.bind_addr@) || self.allow_insecure_no_auth
    }

    /// Whether the server may start.
    pub fn start_allowed(&self) -> (r: bool)
        ensures
            r == self.may_start(),
    {
        self.auth_enabled() || is_loopback_addr(self.bind_addr.as_str())
            || self.allow_insecure_no_auth
    }
}

/// An ASCII letter or digit.
pub open spec fn is_alphanumeric(c: char) -> bool {
    'A' <= c <= 'Z' || 'a' <= c <= 'z' || '0' <= c <= '9'
}

/// A character that a name may hold.
pub open spec fn is_name_char(c: char) -> bool {
    is_alphanumeric(c) || c == '.' || c == '_' || c == ':' || c == '-'
}

/// 1 to 255 characters of a name, the first a letter or a digit.
pub open spec fn is_name(s: Seq<char>) -> bool {
    &&& 1 <= s.len() <= 255
    &&& is_alphanumeric(s[0])
    &&& forall|i: int| 0 <= i < s.len() ==> is_name_char(#[trigger] s[i])
}

/// As [`is_name`], and `>` is allowed as well, so that `source->dest` is one.
pub open spec fn is_router_name(s: Seq<char>) -> bool {
    &&& 1 <= s.len() <= 255
    &&& is_alphanumeric(s[0])
    &&& forall|i: int| 0 <= i < s.len() ==> (is_name_char(#[trigger] s[i]) || s[i] == '>')
}

fn alphanumeric(c: char) -> (r: bool)
    ensures
        r == is_alphanumeric(c),
{
    ('A' <= c && c <= 'Z') || ('a' <= c && c <= 'z') || ('0' <= c && c <= '9')
}

fn name_char(c: char) -> (r: bool)
    ensures
        r == is_name_char(c),
{
    alphanumeric(c) || c == '.' || c == '_' || c == ':' || c == '-'
}

/// Whether a text is a box name.
pub fn is_valid_name(name: &str) -> (r: bool)
    ensures
        r == is_name(name@),
{
    let x = chars_of(name);
    if x.len() == 0 || x.len() > 255 || !alphanumeric(x[0]) {
        return false;
    }
    let mut i: usize = 0;
    while i < x.len()
        invariant
            i <= x@.len(),
            x@ == name@,
            forall|j: int| 0 <= j < i ==> is_name_char(#[trigger] x@[j]),
        decreases x@.len() - i,
    {
        if !name_char(x[i]) {
            return false;
        }
        i += 1;
    }
    true
}

/// Whether a text is a router name.
pub fn is_valid_router_name(name: &str) -> (r: bool)
    ensures
        r == is_router_name(name@),
{
    let x = chars_of(name);
    if x.len() == 0 || x.len() > 255 || !alphanumeric(x[0]) {
        return false;
    }
    let mut i: usize = 0;
    while i < x.len()
        invariant
            i <= x@.len(),
            x@ == name@,
            forall|j: int| 0 <= j < i ==> (is_name_char(#[trigger] x@[j]) || x@[j] == '>'),
        decreases x@.len() - i,
    {
        if !name_char(x[i]) && x[i] != '>' {
            return false;
        }
        i += 1;
    }
    true
}

/// Every box name is a router name, and so is `source->dest` for two box names
/// that are short enough together.
pub proof fn law_routes_have_router_names(source: Seq<char>, dest: Seq<char>)
    requires
        is_name(source),
        is_name(dest),
        source.len() + dest.len() <= 253,
    ensures
        is_router_name(source),
        is_router_name(source + seq!['-', '>'] + dest),
{
    let s = source + seq!['-', '>'] + dest;
    assert forall|i: int| 0 <= i < s.len() implies (is_name_char(#[trigger] s[i]) || s[i] == '>') by {
        if i < source.len() {
            assert(s[i] == source[i]);
        } else if i >= source.len() + 2 {
            assert(s[i] == dest[i - source.len() - 2]);
        }
    }
    assert(s[0] == source[0]);
}

/// A name is made of letters, digits, dots, underscores, colons and hyphens, begins
/// with a letter or a digit, and has 255 characters at most; in a router's name there
/// may be arrow heads too. Nothing else is a name, and all of this is.
pub proof fn law_names_are_made_of_name_characters(s: Seq<char>)
    ensures
        is_name(s) <==> 0 < s.len() < 256 && s[0] != '.' && s[0] != '_' && s[0] != ':' && s[0] != '-'
            && forall|i: int|
            0 <= i < s.len() ==> ('a' <= #[trigger] s[i] <= 'z' || 'A' <= s[i] <= 'Z' || '0' <= s[i]
                <= '9' || s[i] == '.' || s[i] == '_' || s[i] == ':' || s[i] == '-'),
        is_router_name(s) <==> 0 < s.len() < 256 && s[0] != '.' && s[0] != '_' && s[0] != ':' && s[0]
            != '-' && s[0] != '>' && forall|i: int|
            0 <= i < s.len() ==> ('a' <= #[trigger] s[i] <= 'z' || 'A' <= s[i] <= 'Z' || '0' <= s[i]
                <= '9' || s[i] == '.' || s[i] == '_' || s[i] == ':' || s[i] == '-' || s[i] == '>'),
{
    if 0 < s.len() {
        let c = s[0];
        if (forall|i: int|
            0 <= i < s.len() ==> ('a' <= #[trigger] s[i] <= 'z' || 'A' <= s[i] <= 'Z' || '0' <= s[i]
                <= '9' || s[i] == '.' || s[i] == '_' || s[i] == ':' || s[i] == '-')) {
            assert('a' <= c <= 'z' || 'A' <= c <= 'Z' || '0' <= c <= '9' || c == '.' || c == '_' || c
                == ':' || c == '-');
        }
    }
}

/// The keys of a list are its items without the white space around them, but for
/// those that are nothing else: each such item is a key, and every key is one.
pub proof fn law_every_item_is_a_key(items: Seq<Seq<char>>, key: Seq<char>)
    ensures
        trimmed_pieces(items).contains(key) <==> key.len() > 0 && exists|i: int|
            0 <= i < items.len() && trimmed(#[trigger] items[i]) == key,
    decreases items.len(),
{
    if items.len() > 0 {
        let rest = items.drop_last();
        let keys = trimmed_pieces(items);
        law_every_item_is_a_key(rest, key);
        let last = trimmed(items.last());
        assert(items[items.len() - 1] == items.last());
        if trimmed_pieces(rest).contains(key) {
            let k = trimmed_pieces(rest).index_of(key);
            assert(keys[k] == key);
            let i = choose|i: int| 0 <= i < rest.len() && trimmed(#[trigger] rest[i]) == key;
            assert(items[i] == rest[i]);
        }
        if last.len() > 0 {
            assert(keys[trimmed_pieces(rest).len() as int] == last);
        }
        if keys.contains(key) && !trimmed_pieces(rest).contains(key) {
            let k = keys.index_of(key);
            assert(keys[k] == key);
            if k < trimmed_pieces(rest).len() {
                assert(trimmed_pieces(rest)[k] == key);
            }
        }
        if exists|i: int| 0 <= i < items.len() && trimmed(#[trigger] items[i]) == key {
            let i = choose|i: int| 0 <= i < items.len() && trimmed(#[trigger] items[i]) == key;
            if i < rest.len() {
                assert(rest[i] == items[i]);
            }
        }
    }
}

/// The keys come in the order of their items: those of the first items come before
/// those of the others.
pub proof fn law_keys_keep_their_order(first: Seq<Seq<char>>, others: Seq<Seq<char>>)
    ensures
        trimmed_pieces(first + others) == trimmed_pieces(first) + trimmed_pieces(others),
    decreases others.len(),
{
    if others.len() == 0 {
        assert(first + others =~= first);
        assert(trimmed_pieces(first) + trimmed_pieces(others) =~= trimmed_pieces(first));
    } else {
        assert((first + others).drop_last() =~= first + others.drop_last());
        law_keys_keep_their_order(first, others.drop_last());
        assert(trimmed_pieces(first + others) =~= trimmed_pieces(first) + trimmed_pieces(others));
    }
}

/// A host that names a port is the address as it stands; any other gets the port, or
/// the usual one; and without a host the server is reached from this machine only.
pub proof fn law_addresses_have_a_host_and_a_port(host: Option<String>, port: Option<String>)
    ensures
        ({
            let addr = bind_addr_of(host, port);
            let p = if port is Some {
                (port->0)@
            } else {
                "4000"@
            };
            &&& host is Some && (host->0)@.contains(':') ==> addr == (host->0)@
            &&& host is Some && !(host->0)@.contains(':') ==> addr == (host->0)@ + ":"@ + p
            &&& host is None ==> addr == "127.0.0.1"@ + ":"@ + p
        }),
        host is None && (port is Some ==> !(port->0)@.contains(':')) ==> is_loopback(
            bind_addr_of(host, port),
        ),
{
    reveal_strlit(":");
    reveal_strlit("4000");
    reveal_strlit("127.0.0.1");
    reveal_strlit("127.");
    if host is None && (port is Some ==> !(port->0)@.contains(':')) {
        let p = if port is Some {
            (port->0)@
        } else {
            "4000"@
        };
        let addr = "127.0.0.1"@ + ":"@ + p;
        assert(!p.contains(':'));
        assert(addr =~= "127.0.0.1"@.push(':') + p);
        law_the_last_separator_splits("127.0.0.1"@, ':', p);
        assert("127."@.is_prefix_of("127.0.0.1"@)) by {
            assert("127."@ =~= "127.0.0.1"@.subrange(0, 4));
        }
    }
}

/// Three sorts of host are local and no other: `localhost`, the IPv6 loopback address
/// in its brackets, and an IPv4 address that begins with `127.`.
pub proof fn law_only_local_hosts_are_local(host: Seq<char>, port: Seq<char>)
    requires
        !port.contains(':'),
    ensures
        is_loopback(host.push(':') + port) <==> {
            ||| host == "localhost"@
            ||| host == "[::1]"@
            ||| host.len() >= 4 && host.take(4) == seq!['1', '2', '7', '.'] && forall|i: int|
                4 <= i < host.len() ==> (#[trigger] host[i] == '.' || '0' <= host[i] <= '9')
        },
{
    reveal_strlit("127.");
    law_the_last_separator_splits(host, ':', port);
    let local = seq!['1', '2', '7', '.'];
    assert("127."@ =~= local);
    if host.len() >= 4 && host.take(4) == local {
        assert("127."@.is_prefix_of(host)) by {
            assert(host.subrange(0, 4) =~= host.take(4));
        }
        assert(host[0] == local[0] && host[1] == local[1] && host[2] == local[2] && host[3]
            == local[3]) by {
            assert(host.take(4)[0] == host[0] && host.take(4)[1] == host[1] && host.take(4)[2]
                == host[2] && host.take(4)[3] == host[3]);
        }
    }
    if "127."@.is_prefix_of(host) {
        assert(host.take(4) =~= local);
    }
}

/// A server that others can reach starts only with keys, or when it was told to do
/// without.
pub proof fn law_no_server_is_open_by_accident(cfg: ServerConfig)
    ensures
        cfg.may_start() && cfg.api_keys@.len() == 0 && !cfg.allow_insecure_no_auth ==> is_loopback(
            cfg.bind_addr@,
        ),
        cfg.api_keys@.len() > 0 || cfg.allow_insecure_no_auth || is_loopback(cfg.bind_addr@)
            ==> cfg.may_start(),
{
}

/// A switch is on in two ways and off in all others, and off where it is not set.
pub proof fn law_switches_are_on_or_off(v: String)
    ensures
        is_on(Some(v)) <==> v@ == seq!['t', 'r', 'u', 'e'] || v@ == seq!['1'],
        !is_on(None),
{
    reveal_strlit("true");
    reveal_strlit("1");
    assert("true"@ =~= seq!['t', 'r', 'u', 'e']);
    assert("1"@ =~= seq!['1']);
}

/// The texts of strings are theirs, in order.
pub proof fn law_texts_are_in_order(v: Seq<String>, i: int)
    ensures
        texts(v).len() == v.len(),
        0 <= i < v.len() ==> texts(v)[i] == v[i]@,
{
}

}
