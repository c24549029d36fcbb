//! Multiplexed watch: sessions over a set of boxes, and the stream of events
//! that one session produces.
//!
//! A data-bearing event carries an id that holds the session's cursors, so that
//! a watcher that reconnects with the last id it saw goes on exactly there.

use crate::config::{
    secret_eq, MAX_HEARTBEAT_MS, MAX_WATCH_BOXES, MIN_HEARTBEAT_MS, SESSION_TTL_MS, SSE_RETRY_MS,
};
use crate::engine::box_state::BoxState;
use crate::engine::broadcast::{
    coherent, frame_text, framed, law_sharing_changes_no_text, BroadcastCache, CacheState,
    FrameVariant, N_VARIANTS,
};
use crate::engine::read::{
    is_read, law_a_response_gives_what_is_stored, law_a_response_leaves_nothing_out,
    law_a_response_says_how_far_it_got, law_a_tombstone_says_what_and_why, nothing_expired,
};
use crate::error::{Error, Result};
use crate::http::{bearer_of, extract_bearer, text_opt};
use crate::json::{json, json_opt, json_str_opt, raw_text, with_member, Json, ObjectBuilder};
use crate::name_map::{lemma_names_distinct, lemma_position, lemma_push_contains, NameMap};
use crate::text::{concat2, concat3, contains_str, decimal, decimal_digits, has_substring};
use crate::types::{
    copy_filter, filter_nodes, DiffRequest, DiffResponse, ErrorCode, RecordOut, TombstoneReason,
    WatchBoxState, WatchCreateRequest,
};
use base64::Engine;
use dashmap::DashMap;
use serde_json::value::RawValue;
use serde_json::Value;
use std::collections::BTreeMap;
use std::sync::Arc;
use vstd::prelude::*;
use vstd::string::*;

verus! {

/// The members of a record's frame: the seq and the time, the node, the tag and
/// the meta where the record has them, and the data where it is asked for.
pub open spec fn frame_members(r: RecordOut, include_data: bool) -> Map<Seq<char>, Json> {
    let seq_ts = map!["$seq"@ => Json::Int(r.seq as int), "$ts"@ => Json::Int(r.ts as int)];
    let with_node = with_member(seq_ts, "$node"@, json_str_opt(r.node));
    let with_tag = with_member(with_node, "$tag"@, json_str_opt(r.tag));
    let with_data = with_member(
        with_tag,
        "data"@,
        if include_data {
            Some(json(r.data))
        } else {
            None
        },
    );
    with_member(with_data, "meta"@, json_opt(r.meta))
}

/// A record as the frame a watcher gets; without its data where the watcher
/// tails metadata only.
pub fn record_frame(r: &RecordOut, include_data: bool) -> (v: Value)
    ensures
        json(v) == Json::Object(frame_members(*r, include_data)),
{
    let mut obj = ObjectBuilder::new();
    obj.put_u64("$seq", r.seq);
    obj.put_i64("$ts", r.ts);
    if let Some(node) = &r.node {
        obj.put_str("$node", node.as_str());
    }
    if let Some(tag) = &r.tag {
        obj.put_str("$tag", tag.as_str());
    }
    if include_data {
        obj.put("data", r.data.clone());
    }
    if let Some(meta) = &r.meta {
        obj.put("meta", meta.clone());
    }
    obj.finish()
}

// ---------------------------------------------------------------------------
// Sessions
// ---------------------------------------------------------------------------

/// A watch session: the subscription, the cursors that say how far each box was
/// delivered, and the key it was created with.
#[derive(Debug)]
pub struct Session {
    pub req: Arc<WatchCreateRequest>,
    /// Box name to the last seq delivered, shared by all streams of the session.
    pub cursors: NameMap<u64>,
    /// The key that created the session; `None` where keys are not in use.
    pub principal: Option<String>,
}

impl Session {
    /// The cursors are in order.
    pub open spec fn wf(self) -> bool {
        self.cursors.wf()
    }

    /// Holding the session's id is enough, but a key that is presented all the
    /// same has to be the one the session was created with.
    pub open spec fn admits(self, presented: Option<&str>) -> bool {
        match (self.principal, presented) {
            (Some(p), Some(b)) => p@ == b@,
            _ => true,
        }
    }

    /// Whether the stream may be opened with the key presented.
    pub fn authorize(&self, presented_bearer: Option<&str>) -> (r: bool)
        ensures
            r == self.admits(presented_bearer),
    {
        match (&self.principal, presented_bearer) {
            (None, _) => true,
            (Some(_), None) => true,
            (Some(p), Some(b)) => secret_eq(p.as_str(), b),
        }
    }
}

#[verifier::external_type_specification]
#[verifier::external_body]
#[verifier::reject_recursive_types(K)]
#[verifier::reject_recursive_types(V)]
#[verifier::reject_recursive_types(S)]
pub struct ExDashMap<K, V, S>(dashmap::DashMap<K, V, S>);

/// The sessions in a concurrent map, by their ids.
pub uninterp spec fn session_entries(m: DashMap<String, Arc<Session>>) -> Map<
    Seq<char>,
    Arc<Session>,
>;

/// `DashMap::new` holds nothing.
#[verifier::external_body]
fn new_entries() -> (m: DashMap<String, Arc<Session>>)
    ensures
        (session_entries(m) == Map::<Seq<char>, Arc<Session>>::empty()),
{
    DashMap::new()
}

/// `DashMap::insert` sets the entry of a key.
#[verifier::external_body]
fn put_entry(m: &mut DashMap<String, Arc<Session>>, wid: String, session: Arc<Session>)
    ensures
        session_entries(*final(m)) == session_entries(*old(m)).insert(wid@, session),
{
    m.insert(wid, session);
}

/// `DashMap::get` gives the entry of a key, where there is one.
#[verifier::external_body]
fn get_entry(m: &DashMap<String, Arc<Session>>, wid: &str) -> (r: Option<Arc<Session>>)
    ensures
        r == if session_entries(*m).contains_key(wid@) {
            Some(session_entries(*m)[wid@])
        } else {
            None
        },
{
    m.get(wid).map(|s| s.clone())
}

/// `rand::fill` on sixteen bytes. Nothing is claimed of the bytes: they are
/// random.
#[verifier::external_body]
fn random_bytes() -> (r: [u8; 16]) {
    let mut bytes = [0u8; 16];
    rand::fill(&mut bytes);
    bytes
}

/// The text of bytes in unpadded URL-safe base64, as `base64`'s
/// `URL_SAFE_NO_PAD` encodes them.
pub uninterp spec fn base64url(bytes: Seq<u8>) -> Seq<char>;

/// The bytes of an unpadded URL-safe base64 text, as `base64`'s
/// `URL_SAFE_NO_PAD` decodes it.
pub uninterp spec fn base64url_bytes(text: Seq<char>) -> Option<Seq<u8>>;

/// A character of URL-safe base64.
pub open spec fn is_base64url_char(c: char) -> bool {
    'A' <= c <= 'Z' || 'a' <= c <= 'z' || '0' <= c <= '9' || c == '-' || c == '_'
}

/// `URL_SAFE_NO_PAD.encode`: the text is determined by the bytes, holds four
/// characters for every three bytes (rounded up) from the URL-safe alphabet,
/// and decodes to the bytes it was made of.
#[verifier::external_body]
fn encode_base64url(bytes: &[u8]) -> (r: String)
    ensures
        r@ == base64url(bytes@),
        r@.len() == (4 * bytes@.len() + 2) / 3,
        forall|i: int| 0 <= i < r@.len() ==> is_base64url_char(#[trigger] r@[i]),
        base64url_bytes(r@) == Some(bytes@),
{
    base64::engine::general_purpose::URL_SAFE_NO_PAD.encode(bytes)
}

/// `URL_SAFE_NO_PAD.decode`: whether a text decodes, and to which bytes, is
/// determined by the text.
#[verifier::external_body]
fn decode_base64url(text: &str) -> (r: Option<Vec<u8>>)
    ensures
        r matches Some(bytes) ==> base64url_bytes(text@) == Some(bytes@),
        r is None ==> base64url_bytes(text@) is None,
{
    base64::engine::general_purpose::URL_SAFE_NO_PAD.decode(text).ok()
}

/// A session id: `wid_` and 22 URL-safe base64 characters, which hold 128 bits.
pub open spec fn is_wid(s: Seq<char>) -> bool {
    &&& "wid_"@.is_prefix_of(s)
    &&& s.len() == 26
    &&& forall|i: int| 4 <= i < s.len() ==> is_base64url_char(#[trigger] s[i])
}

/// The text is the id that some sixteen bytes make.
pub open spec fn is_minted(s: Seq<char>) -> bool {
    exists|bytes: [u8; 16]| s == "wid_"@ + #[trigger] base64url(bytes@)
}

/// The sessions, by their ids.
pub struct SessionStore {
    sessions: DashMap<String, Arc<Session>>,
}

impl SessionStore {
    /// The sessions by their ids.
    pub closed spec fn entries(self) -> Map<Seq<char>, Arc<Session>> {
        session_entries(self.sessions)
    }

    /// Every session is well-formed.
    pub open spec fn wf(self) -> bool {
        forall|wid: Seq<char>| #[trigger]
            self.entries().contains_key(wid) ==> self.entries()[wid].wf()
    }

    pub fn new() -> (r: Self)
        ensures
            r.wf(),
            (r.entries() == Map::<Seq<char>, Arc<Session>>::empty()),
    {
        SessionStore { sessions: new_entries() }
    }

    /// The id that sixteen bytes make.
    pub fn wid_of(bytes: [u8; 16]) -> (r: String)
        ensures
            r@ == "wid_"@ + base64url(bytes@),
            is_wid(r@),
    {
        let suffix = encode_base64url(bytes.as_slice());
        let wid = concat2("wid_", suffix.as_str());
        proof {
            reveal_strlit("wid_");
            assert forall|i: int| 4 <= i < wid@.len() implies is_base64url_char(
                #[trigger] wid@[i],
            ) by {
                assert(wid@[i] == suffix@[i - 4]);
            }
        }
        wid
    }

    /// A fresh random id, which cannot be guessed.
    pub fn alloc_wid() -> (r: String)
        ensures
            is_wid(r@),
            is_minted(r@),
    {
        let bytes = random_bytes();
        let wid = SessionStore::wid_of(bytes);
        assert(wid@ == "wid_"@ + base64url(bytes@));
        wid
    }

    /// Keeps a session under a fresh id.
    pub fn insert(&mut self, session: Session) -> (wid: String)
        requires
            old(self).wf(),
            session.wf(),
        ensures
            final(self).wf(),
            is_wid(wid@),
            is_minted(wid@),
            final(self).entries() == old(self).entries().insert(wid@, Arc::new(session)),
    {
        let wid = SessionStore::alloc_wid();
        put_entry(&mut self.sessions, wid.clone(), Arc::new(session));
        proof {
            assert forall|w: Seq<char>| #[trigger] self.entries().contains_key(
                w,
            ) implies self.entries()[w].wf() by {
                assert(w == wid@ || old(self).entries().contains_key(w));
            }
        }
        wid
    }

    /// One session has other cursors, and is otherwise as it was; so are all the
    /// others.
    pub open spec fn moved_to(self, wid: Seq<char>, cursors: Map<Seq<char>, u64>, after: Self) -> bool {
        let was = self.entries()[wid];
        let now = after.entries()[wid];
        &&& after.entries() == self.entries().insert(wid, now)
        &&& now.req == was.req
        &&& now.principal == was.principal
        &&& now.cursors@ == cursors
    }

    /// Sets the cursors of a session.
    pub fn set_cursors(&mut self, wid: &str, cursors: NameMap<u64>)
        requires
            old(self).wf(),
            cursors.wf(),
            old(self).entries().contains_key(wid@),
        ensures
            final(self).wf(),
            old(self).moved_to(wid@, cursors@, *final(self)),
            final(self).entries()[wid@].cursors == cursors,
    {
        if let Some(was) = self.get(wid) {
            let session = Session {
                req: was.req.clone(),
                cursors,
                principal: was.principal.clone(),
            };
            put_entry(&mut self.sessions, wid.to_string(), Arc::new(session));
        }
    }

    /// The session with an id.
    pub fn get(&self, wid: &str) -> (r: Option<Arc<Session>>)
        ensures
            r == if self.entries().contains_key(wid@) {
                Some(self.entries()[wid@])
            } else {
                None
            },
    {
        get_entry(&self.sessions, wid)
    }
}

impl Default for SessionStore {
    fn default() -> (r: Self)
        ensures
            r.wf(),
            (r.entries() == Map::<Seq<char>, Arc<Session>>::empty()),
    {
        SessionStore::new()
    }
}

// ---------------------------------------------------------------------------
// Cursor ids
// ---------------------------------------------------------------------------

/// The JSON bytes of a cursor map, as `serde_json::to_vec` writes a map from
/// names to numbers.
pub uninterp spec fn cursor_bytes(cursors: Map<Seq<char>, u64>) -> Seq<u8>;

/// The cursor map in JSON bytes, as `serde_json::from_slice` reads a map from
/// names to numbers.
pub uninterp spec fn parsed_cursors(bytes: Seq<u8>) -> Option<Map<Seq<char>, u64>>;

/// `serde_json::to_vec` on an ordered map: the bytes are determined by what the
/// map holds, and `serde_json::from_slice` reads the same map from them.
#[verifier::external_body]
fn cursors_to_json(cursors: &NameMap<u64>) -> (r: Vec<u8>)
    requires
        cursors.wf(),
    ensures
        r@ == cursor_bytes(cursors@),
        parsed_cursors(r@) == Some(cursors@),
{
    let map: BTreeMap<&String, &u64> = cursors.entries.iter().map(|e| (&e.0, &e.1)).collect();
    serde_json::to_vec(&map).unwrap_or_default()
}

/// The map that pairs of a name and a number make; a later pair replaces an
/// earlier one with the same name.
pub open spec fn cursor_map(pairs: Seq<(String, u64)>) -> Map<Seq<char>, u64>
    decreases pairs.len(),
{
    if pairs.len() == 0 {
        Map::empty()
    } else {
        cursor_map(pairs.drop_last()).insert(pairs.last().0@, pairs.last().1)
    }
}

/// `serde_json::from_slice` into an ordered map: whether the bytes hold one, and
/// which, is determined by the bytes. The map is handed out entry by entry.
#[verifier::external_body]
fn cursors_from_json(bytes: &Vec<u8>) -> (r: Option<Vec<(String, u64)>>)
    ensures
        r matches Some(pairs) ==> parsed_cursors(bytes@) == Some(cursor_map(pairs@)),
        r is None ==> parsed_cursors(bytes@) is None,
{
    let map: BTreeMap<String, u64> = serde_json::from_slice(bytes).ok()?;
    Some(map.into_iter().collect())
}

/// The id that cursors are sent as.
pub open spec fn cursor_id(cursors: Map<Seq<char>, u64>) -> Seq<char> {
    base64url(cursor_bytes(cursors))
}

/// The cursors that an id holds.
pub open spec fn cursors_of_id(id: Seq<char>) -> Option<Map<Seq<char>, u64>> {
    match base64url_bytes(id) {
        Some(bytes) => parsed_cursors(bytes),
        None => None,
    }
}

/// The id of some cursors; it holds just those cursors.
pub fn encode_cursors(cursors: &NameMap<u64>) -> (r: String)
    requires
        cursors.wf(),
    ensures
        r@ == cursor_id(cursors@),
        cursors_of_id(r@) == Some(cursors@),
{
    let bytes = cursors_to_json(cursors);
    encode_base64url(bytes.as_slice())
}

/// The id of a session's cursors.
pub fn encode_session_id(session: &Session) -> (r: String)
    requires
        session.wf(),
    ensures
        r@ == cursor_id(session.cursors@),
        cursors_of_id(r@) == Some(session.cursors@),
{
    encode_cursors(&session.cursors)
}

/// A map with the entries of some pairs.
pub fn cursors_of_pairs(pairs: Vec<(String, u64)>) -> (r: NameMap<u64>)
    ensures
        r.wf(),
        r@ == cursor_map(pairs@),
{
    let mut map: NameMap<u64> = NameMap::new();
    let mut i: usize = 0;
    assert(pairs@.take(0).len() == 0);
    while i < pairs.len()
        invariant
            i <= pairs@.len(),
            map.wf(),
            map@ == cursor_map(pairs@.take(i as int)),
        decreases pairs@.len() - i,
    {
        assert(pairs@.take(i + 1).drop_last() =~= pairs@.take(i as int));
        map.insert(pairs[i].0.clone(), pairs[i].1);
        i += 1;
    }
    assert(pairs@.take(i as int) =~= pairs@);
    map
}

/// The cursors that an id holds.
pub fn decode_cursor_id(id: &str) -> (r: Option<NameMap<u64>>)
    ensures
        r matches Some(m) ==> m.wf() && cursors_of_id(id@) == Some(m@),
        r is None ==> cursors_of_id(id@) is None,
{
    match decode_base64url(id) {
        Some(bytes) => match cursors_from_json(&bytes) {
            Some(pairs) => Some(cursors_of_pairs(pairs)),
            None => None,
        },
        None => None,
    }
}

/// Cursors taken back to where a watcher says it was: a box is never moved
/// ahead, and no box is added.
pub open spec fn rewound(cursors: Map<Seq<char>, u64>, resumed: Map<Seq<char>, u64>) -> Map<
    Seq<char>,
    u64,
> {
    Map::new(
        |name: Seq<char>| cursors.contains_key(name),
        |name: Seq<char>|
            if resumed.contains_key(name) && resumed[name] < cursors[name] {
                resumed[name]
            } else {
                cursors[name]
            },
    )
}

/// Takes cursors back to where a watcher says it was.
pub fn rewind(cursors: &mut NameMap<u64>, resumed: &NameMap<u64>)
    requires
        old(cursors).wf(),
        resumed.wf(),
    ensures
        final(cursors).wf(),
        final(cursors)@ == rewound(old(cursors)@, resumed@),
{
    let ghost was = cursors@;
    let ghost names = resumed.names();
    let mut i: usize = 0;
    assert(cursors@ =~= was);
    while i < resumed.entries.len()
        invariant
            i <= resumed.entries@.len(),
            resumed.wf(),
            cursors.wf(),
            was == old(cursors)@,
            names == resumed.names(),
            forall|n: Seq<char>| cursors@.contains_key(n) <==> #[trigger] was.contains_key(n),
            forall|n: Seq<char>| #[trigger]
                was.contains_key(n) ==> cursors@[n] == if names.take(i as int).contains(n)
                    && resumed@[n] < was[n] {
                    resumed@[n]
                } else {
                    was[n]
                },
        decreases resumed.entries@.len() - i,
    {
        let ghost name = resumed.entries@[i as int].0@;
        let ghost before = cursors@;
        proof {
            lemma_position(*resumed, i as int);
            assert(names[i as int] == name);
            if names.take(i as int).contains(name) {
                let j = names.take(i as int).index_of(name);
                assert(names[j] == name);
                lemma_position(*resumed, j);
            }
            assert(names.take(i + 1) =~= names.take(i as int).push(name));
        }
        let seq = resumed.entries[i].1;
        let cur = match cursors.get(resumed.entries[i].0.as_str()) {
            Some(c) => Some(*c),
            None => None,
        };
        if let Some(c) = cur {
            if seq < c {
                cursors.insert(resumed.entries[i].0.clone(), seq);
            }
        }
        proof {
            assert forall|n: Seq<char>| #[trigger] was.contains_key(n) implies cursors@[n] == if names.take(
                i + 1,
            ).contains(n) && resumed@[n] < was[n] {
                resumed@[n]
            } else {
                was[n]
            } by {
                lemma_push_contains(names.take(i as int), name);
            }
        }
        i += 1;
    }
    proof {
        assert(names.take(i as int) =~= names);
        assert(cursors@ =~= rewound(was, resumed@));
    }
}

// ---------------------------------------------------------------------------
// Creating a session and opening its stream
// ---------------------------------------------------------------------------

/// A number held between two bounds.
pub open spec fn clamped(n: u64, lo: u64, hi: u64) -> u64 {
    if n < lo {
        lo
    } else if n > hi {
        hi
    } else {
        n
    }
}

/// Checks a subscription, and holds its heartbeat to the documented bounds.
pub fn check_watch(req: WatchCreateRequest) -> (r: Result<WatchCreateRequest>)
    ensures
        r is Ok == (1 <= req.boxes.names().len() <= MAX_WATCH_BOXES),
        match r {
            Ok(checked) => checked == (WatchCreateRequest {
                heartbeat_ms: clamped(req.heartbeat_ms, MIN_HEARTBEAT_MS, MAX_HEARTBEAT_MS),
                ..req
            }),
            Err(e) => e.is_plain(
                ErrorCode::InvalidRequest,
                if req.boxes.names().len() == 0 {
                    "watch must name >=1 box"@
                } else {
                    "watch names "@ + decimal_digits(req.boxes.names().len())
                        + " boxes, exceeds max 256"@
                },
            ),
        },
{
    if req.boxes.is_empty() {
        return Err(Error::invalid_request("watch must name >=1 box"));
    }
    if req.boxes.len() > MAX_WATCH_BOXES {
        let count = decimal(req.boxes.len() as u64);
        return Err(
            Error::invalid_request(
                concat3("watch names ", count.as_str(), " boxes, exceeds max 256").as_str(),
            ),
        );
    }
    let heartbeat_ms = if req.heartbeat_ms < MIN_HEARTBEAT_MS {
        MIN_HEARTBEAT_MS
    } else if req.heartbeat_ms > MAX_HEARTBEAT_MS {
        MAX_HEARTBEAT_MS
    } else {
        req.heartbeat_ms
    };
    Ok(
        WatchCreateRequest {
            node: req.node,
            boxes: req.boxes,
            limit: req.limit,
            max_batch_bytes: req.max_batch_bytes,
            heartbeat_ms,
            include_meta: req.include_meta,
            include_tags: req.include_tags,
            include_data: req.include_data,
            consistency: req.consistency,
        },
    )
}

/// The cursors that a watcher starts with.
pub open spec fn start_cursors(states: Map<Seq<char>, WatchBoxState>) -> Map<Seq<char>, u64> {
    states.map_values(|s: WatchBoxState| s.from_seq)
}

/// The cursors that a watcher starts with: each box at its resolved position.
pub fn seed_cursors(states: &NameMap<WatchBoxState>) -> (r: NameMap<u64>)
    requires
        states.wf(),
    ensures
        r.wf(),
        r@ == start_cursors(states@),
        r.names() == states.names(),
{
    let mut entries: Vec<(String, u64)> = Vec::new();
    let mut i: usize = 0;
    while i < states.entries.len()
        invariant
            i <= states.entries@.len(),
            entries@.len() == i,
            forall|j: int|
                0 <= j < i ==> (#[trigger] entries@[j]).0@ == states.entries@[j].0@
                    && entries@[j].1 == states.entries@[j].1.from_seq,
        decreases states.entries@.len() - i,
    {
        entries.push((states.entries[i].0.clone(), states.entries[i].1.from_seq));
        i += 1;
    }
    let r = NameMap { entries };
    proof {
        assert(r.names() =~= states.names());
        assert forall|n: Seq<char>| r.has(n) implies r.at(n) == start_cursors(states@)[n] by {
            let k = r.names().index_of(n);
            assert(r.names()[k] == n);
            lemma_position(r, k);
            lemma_position(*states, k);
        }
        assert(r@ =~= start_cursors(states@));
    }
    r
}

/// The answer to a subscription.
pub struct WatchCreateResponse {
    pub stream_url: String,
    pub wid: String,
    pub session_ttl_ms: u64,
    pub boxes: NameMap<WatchBoxState>,
    /// How long the server took.
    pub performance: Value,
}

/// Opens a session for a subscription that was checked, on boxes that were
/// resolved, and binds it to the key it was asked for with.
pub fn create_session(
    store: &mut SessionStore,
    req: WatchCreateRequest,
    states: NameMap<WatchBoxState>,
    principal: Option<String>,
    performance: Value,
) -> (r: WatchCreateResponse)
    requires
        old(store).wf(),
        states.wf(),
    ensures
        final(store).wf(),
        is_wid(r.wid@),
        is_minted(r.wid@),
        r.stream_url@ == "/v0/watch/"@ + r.wid@,
        r.session_ttl_ms == SESSION_TTL_MS,
        r.boxes == states,
        r.performance == performance,
        final(store).entries().dom() == old(store).entries().dom().insert(r.wid@),
        forall|w: Seq<char>| #[trigger]
            old(store).entries().contains_key(w) && w != r.wid@ ==> final(store).entries()[w]
                == old(store).entries()[w],
        ({
            let session = final(store).entries()[r.wid@];
            &&& *session.req == req
            &&& session.principal == principal
            &&& session.cursors@ == start_cursors(states@)
        }),
{
    let cursors = seed_cursors(&states);
    let wid = store.insert(Session { req: Arc::new(req), cursors, principal });
    WatchCreateResponse {
        stream_url: concat2("/v0/watch/", wid.as_str()),
        wid,
        session_ttl_ms: SESSION_TTL_MS,
        boxes: states,
        performance,
    }
}

/// The key presented on opening a stream: the one in the header, or else the
/// one in the query.
pub open spec fn presented_bearer(authorization: Option<&str>, token: Option<&str>) -> Option<
    Seq<char>,
> {
    match bearer_of(authorization) {
        Some(t) => Some(t),
        None => match token {
            Some(t) => Some(t@),
            None => None,
        },
    }
}

/// The key presented on opening a stream.
pub fn bearer_from_request(authorization: Option<&str>, token: Option<&str>) -> (r: Option<String>)
    ensures
        text_opt(r) == presented_bearer(authorization, token),
{
    match extract_bearer(authorization) {
        Some(t) => Some(t.to_string()),
        None => match token {
            Some(t) => Some(t.to_string()),
            None => None,
        },
    }
}

/// The `Accept` header takes an event stream; one that is absent or empty does.
pub open spec fn accepts_event_stream(accept: Option<&str>) -> bool {
    match accept {
        Some(a) => {
            ||| a@.len() == 0
            ||| has_substring(a@, "text/event-stream"@)
            ||| has_substring(a@, "*/*"@)
        },
        None => true,
    }
}

/// Refuses a stream to a client that does not take one.
pub fn require_event_stream_accept(accept: Option<&str>) -> (r: Result<()>)
    ensures
        r is Ok == accepts_event_stream(accept),
        r matches Err(e) ==> e.is_plain(
            ErrorCode::NotAcceptable,
            "Accept must be text/event-stream"@,
        ),
{
    let ok = match accept {
        Some(a) => a.unicode_len() == 0 || contains_str(a, "text/event-stream") || contains_str(
            a,
            "*/*",
        ),
        None => true,
    };
    if ok {
        Ok(())
    } else {
        Err(Error::new(ErrorCode::NotAcceptable, "Accept must be text/event-stream"))
    }
}

/// The id that a watcher resumes from: the last event it saw, by its header, or
/// else by the query. An empty one does not count.
pub open spec fn resume_id(last_event_id: Option<&str>, cursor: Option<&str>) -> Option<Seq<char>> {
    match (last_event_id, cursor) {
        (Some(id), _) if id@.len() > 0 => Some(id@),
        (_, Some(id)) if id@.len() > 0 => Some(id@),
        _ => None,
    }
}

/// The id that a watcher resumes from.
pub fn resume_from<'a>(last_event_id: Option<&'a str>, cursor: Option<&'a str>) -> (r: Option<&'a str>)
    ensures
        match r {
            Some(id) => resume_id(last_event_id, cursor) == Some(id@),
            None => resume_id(last_event_id, cursor) is None,
        },
{
    if let Some(id) = last_event_id {
        if id.unicode_len() > 0 {
            return Some(id);
        }
    }
    match cursor {
        Some(id) => if id.unicode_len() > 0 {
            Some(id)
        } else {
            None
        },
        None => None,
    }
}

/// The cursors a stream starts from: the session's, taken back to the last
/// event the watcher saw where it names one that reads.
pub open spec fn resumed_cursors(
    cursors: Map<Seq<char>, u64>,
    resume: Option<Seq<char>>,
) -> Map<Seq<char>, u64> {
    match resume {
        Some(id) => match cursors_of_id(id) {
            Some(resumed) => rewound(cursors, resumed),
            None => cursors,
        },
        None => cursors,
    }
}

/// What keeps a stream from being opened, in the order it is looked for.
pub open spec fn stream_refusal(
    store: SessionStore,
    wid: Seq<char>,
    accept: Option<&str>,
    presented: Option<Seq<char>>,
) -> Option<(ErrorCode, Seq<char>)> {
    if !accepts_event_stream(accept) {
        Some((ErrorCode::NotAcceptable, "Accept must be text/event-stream"@))
    } else if !store.entries().contains_key(wid) {
        Some((ErrorCode::NotFound, "watch session not found (re-POST)"@))
    } else {
        match (store.entries()[wid].principal, presented) {
            (Some(p), Some(t)) if p@ != t => Some(
                (
                    ErrorCode::Unauthorized,
                    "watch token does not match the session's principal"@,
                ),
            ),
            _ => None,
        }
    }
}

/// Finds the session of a stream and takes its cursors back to the last event
/// the watcher saw. They are the session's own, so every stream of it goes on
/// from there.
pub fn open_stream(
    store: &mut SessionStore,
    wid: &str,
    accept: Option<&str>,
    authorization: Option<&str>,
    token: Option<&str>,
    last_event_id: Option<&str>,
    cursor: Option<&str>,
) -> (r: Result<Arc<Session>>)
    requires
        old(store).wf(),
    ensures
        final(store).wf(),
        ({
            let refusal = stream_refusal(
                *old(store),
                wid@,
                accept,
                presented_bearer(authorization, token),
            );
            match r {
                Ok(session) => {
                    &&& refusal is None
                    &&& old(store).moved_to(
                        wid@,
                        resumed_cursors(
                            old(store).entries()[wid@].cursors@,
                            resume_id(last_event_id, cursor),
                        ),
                        *final(store),
                    )
                    &&& session == final(store).entries()[wid@]
                    &&& session.wf()
                },
                Err(e) => {
                    &&& refusal is Some
                    &&& e.is_plain((refusal->0).0, (refusal->0).1)
                    &&& final(store).entries() == old(store).entries()
                },
            }
        }),
{
    if let Err(e) = require_event_stream_accept(accept) {
        return Err(e);
    }
    let session = match store.get(wid) {
        Some(s) => s,
        None => {
            return Err(Error::new(ErrorCode::NotFound, "watch session not found (re-POST)"));
        },
    };
    assert(store.entries().contains_key(wid@));
    let presented = bearer_from_request(authorization, token);
    let presented_str = match &presented {
        Some(t) => Some(t.as_str()),
        None => None,
    };
    if !session.authorize(presented_str) {
        return Err(
            Error::new(
                ErrorCode::Unauthorized,
                "watch token does not match the session's principal",
            ),
        );
    }
    let mut cursors = copy_cursors(&session.cursors);
    if let Some(id) = resume_from(last_event_id, cursor) {
        if let Some(resumed) = decode_cursor_id(id) {
            rewind(&mut cursors, &resumed);
        }
    }
    store.set_cursors(wid, cursors);
    match store.get(wid) {
        Some(now) => Ok(now),
        None => Ok(session),
    }
}

/// A copy of some cursors.
pub fn copy_cursors(cursors: &NameMap<u64>) -> (r: NameMap<u64>)
    requires
        cursors.wf(),
    ensures
        r.wf(),
        r@ == cursors@,
        r.names() == cursors.names(),
{
    let mut entries: Vec<(String, u64)> = Vec::new();
    let mut i: usize = 0;
    while i < cursors.entries.len()
        invariant
            i <= cursors.entries@.len(),
            entries@ == cursors.entries@.take(i as int),
        decreases cursors.entries@.len() - i,
    {
        assert(cursors.entries@.take(i + 1) =~= cursors.entries@.take(i as int).push(
            cursors.entries@[i as int],
        ));
        entries.push((cursors.entries[i].0.clone(), cursors.entries[i].1));
        i += 1;
    }
    let r = NameMap { entries };
    assert(r.entries@ =~= cursors.entries@);
    assert(r.names() =~= cursors.names());
    assert(r@ =~= cursors@);
    r
}

// ---------------------------------------------------------------------------
// The stream of a session
// ---------------------------------------------------------------------------

/// An event of a stream. All but the first carry the id of the cursors as they
/// are once the event was delivered.
#[derive(Debug)]
pub enum WatchFrame {
    /// How long to wait before reconnecting; sent once, at the start.
    Retry { retry_ms: u64 },
    /// Records of a box.
    Record {
        id: String,
        box_name: String,
        from_seq: u64,
        to_seq: u64,
        head_seq: u64,
        records: Vec<RecordOut>,
    },
    /// Records of a box were lost.
    Tombstone {
        id: String,
        box_name: String,
        reason: TombstoneReason,
        gap_from: u64,
        gap_to: u64,
        earliest_seq: u64,
        head_seq: u64,
    },
    /// Nothing more of a box is left to deliver for now.
    CaughtUp { id: String, box_name: String, head_seq: u64 },
    /// A box is gone.
    BoxDeleted { id: String, box_name: String },
}

/// What an event holds.
#[verifier::ext_equal]
pub enum FrameView {
    Retry { retry_ms: u64 },
    Record {
        id: Seq<char>,
        box_name: Seq<char>,
        from_seq: u64,
        to_seq: u64,
        head_seq: u64,
        records: Seq<RecordOut>,
    },
    Tombstone {
        id: Seq<char>,
        box_name: Seq<char>,
        reason: TombstoneReason,
        gap_from: u64,
        gap_to: u64,
        earliest_seq: u64,
        head_seq: u64,
    },
    CaughtUp { id: Seq<char>, box_name: Seq<char>, head_seq: u64 },
    BoxDeleted { id: Seq<char>, box_name: Seq<char> },
}

impl View for WatchFrame {
    type V = FrameView;

    open spec fn view(&self) -> FrameView {
        match *self {
            WatchFrame::Retry { retry_ms } => FrameView::Retry { retry_ms },
            WatchFrame::Record { id, box_name, from_seq, to_seq, head_seq, records } => FrameView::Record {
                id: id@,
                box_name: box_name@,
                from_seq,
                to_seq,
                head_seq,
                records: records@,
            },
            WatchFrame::Tombstone {
                id,
                box_name,
                reason,
                gap_from,
                gap_to,
                earliest_seq,
                head_seq,
            } => FrameView::Tombstone {
                id: id@,
                box_name: box_name@,
                reason,
                gap_from,
                gap_to,
                earliest_seq,
                head_seq,
            },
            WatchFrame::CaughtUp { id, box_name, head_seq } => FrameView::CaughtUp {
                id: id@,
                box_name: box_name@,
                head_seq,
            },
            WatchFrame::BoxDeleted { id, box_name } => FrameView::BoxDeleted {
                id: id@,
                box_name: box_name@,
            },
        }
    }
}

/// The id an event carries; none for the first.
pub open spec fn frame_id(f: FrameView) -> Seq<char> {
    match f {
        FrameView::Retry { .. } => Seq::empty(),
        FrameView::Record { id, .. } => id,
        FrameView::Tombstone { id, .. } => id,
        FrameView::CaughtUp { id, .. } => id,
        FrameView::BoxDeleted { id, .. } => id,
    }
}

/// What the events hold, in order.
pub open spec fn frame_views(frames: Seq<WatchFrame>) -> Seq<FrameView> {
    frames.map_values(|f: WatchFrame| f@)
}

/// One box of a stream.
#[derive(Debug)]
pub struct BoxWatch {
    pub name: String,
    /// It is gone, and is not read any more.
    pub deleted: bool,
    /// The watcher was told that it has caught up, and nothing came since.
    pub caught_up: bool,
    /// It was not read yet.
    pub first_read: bool,
}

/// What one box of a stream holds.
#[verifier::ext_equal]
pub struct BoxView {
    pub name: Seq<char>,
    pub deleted: bool,
    pub caught_up: bool,
    pub first_read: bool,
}

impl View for BoxWatch {
    type V = BoxView;

    open spec fn view(&self) -> BoxView {
        BoxView {
            name: self.name@,
            deleted: self.deleted,
            caught_up: self.caught_up,
            first_read: self.first_read,
        }
    }
}

/// One stream of a session: what its watcher was told of each box, and which box
/// is read next. How far each box was delivered is kept by the session.
#[derive(Debug)]
pub struct WatchStream {
    pub boxes: Vec<BoxWatch>,
    pub at: usize,
}

/// What a stream holds.
#[verifier::ext_equal]
pub struct StreamView {
    pub boxes: Seq<BoxView>,
    pub at: int,
}

impl View for WatchStream {
    type V = StreamView;

    open spec fn view(&self) -> StreamView {
        StreamView { boxes: self.boxes@.map_values(|w: BoxWatch| w@), at: self.at as int }
    }
}

/// What a stream does next.
#[derive(Debug, Clone, Copy, PartialEq, Eq, Structural)]
pub enum StreamStep {
    /// Read the box at this position.
    Read(usize),
    /// Wait until something is appended, or for a heartbeat.
    Park,
    /// Every box is gone: the stream ends.
    End,
}

/// What reading a box gave.
#[derive(Debug)]
pub enum ReadOutcome {
    /// The box is gone.
    Missing,
    Read(DiffResponse),
}

/// The first box from a position on that is not gone.
pub open spec fn next_live(boxes: Seq<BoxView>, at: int) -> int
    decreases boxes.len() - at,
{
    if at >= boxes.len() || !boxes[at].deleted {
        at
    } else {
        next_live(boxes, at + 1)
    }
}

/// The next live box lies ahead, and is live where there is one.
proof fn lemma_next_live(boxes: Seq<BoxView>, at: int)
    requires
        0 <= at <= boxes.len(),
    ensures
        at <= next_live(boxes, at) <= boxes.len(),
        next_live(boxes, at) < boxes.len() ==> !boxes[next_live(boxes, at)].deleted,
        forall|j: int| at <= j < next_live(boxes, at) ==> (#[trigger] boxes[j]).deleted,
    decreases boxes.len() - at,
{
    if at < boxes.len() && boxes[at].deleted {
        lemma_next_live(boxes, at + 1);
    }
}

/// The cursors once an outcome was delivered.
pub open spec fn cursors_after(
    cursors: Map<Seq<char>, u64>,
    name: Seq<char>,
    outcome: ReadOutcome,
) -> Map<Seq<char>, u64> {
    match outcome {
        ReadOutcome::Missing => cursors,
        ReadOutcome::Read(d) => match d.tombstone {
            Some(t) => if d.records@.len() > 0 {
                cursors.insert(name, t.gap_to).insert(name, d.next_from_seq)
            } else {
                cursors.insert(name, t.gap_to)
            },
            None => cursors.insert(name, d.next_from_seq),
        },
    }
}

/// The cursors once one event of an outcome was delivered: past the gap after a
/// tombstone, and else as they are in the end.
pub open spec fn cursors_at(
    cursors: Map<Seq<char>, u64>,
    name: Seq<char>,
    outcome: ReadOutcome,
    event: FrameView,
) -> Map<Seq<char>, u64> {
    match event {
        FrameView::Tombstone { gap_to, .. } => cursors.insert(name, gap_to),
        _ => cursors_after(cursors, name, outcome),
    }
}

/// The tombstone event of an outcome, where it has one: with the connect-time
/// reason on the first read of a box, else with the reason of the loss.
pub open spec fn tombstone_frames(
    cursors: Map<Seq<char>, u64>,
    w: BoxView,
    d: DiffResponse,
) -> Seq<FrameView> {
    match d.tombstone {
        Some(t) => seq![
            FrameView::Tombstone {
                id: cursor_id(cursors.insert(w.name, t.gap_to)),
                box_name: w.name,
                reason: if w.first_read {
                    TombstoneReason::FromSeqTooOld
                } else {
                    t.reason
                },
                gap_from: t.gap_from,
                gap_to: t.gap_to,
                earliest_seq: t.earliest_seq,
                head_seq: t.head_seq,
            },
        ],
        None => Seq::empty(),
    }
}

/// The record event of an outcome of reading from `from_seq`, where it has
/// records.
pub open spec fn record_frames(
    cursors: Map<Seq<char>, u64>,
    w: BoxView,
    from_seq: u64,
    d: DiffResponse,
) -> Seq<FrameView> {
    if d.records@.len() > 0 {
        seq![
            FrameView::Record {
                id: cursor_id(cursors_after(cursors, w.name, ReadOutcome::Read(d))),
                box_name: w.name,
                from_seq,
                to_seq: d.next_from_seq,
                head_seq: d.head_seq,
                records: d.records@,
            },
        ]
    } else {
        Seq::empty()
    }
}

/// The outcome brings the watcher something.
pub open spec fn brings_news(d: DiffResponse) -> bool {
    d.tombstone is Some || d.records@.len() > 0
}

/// The caught-up event of an outcome: once for each time the watcher catches
/// up.
pub open spec fn caught_up_frames(
    cursors: Map<Seq<char>, u64>,
    w: BoxView,
    d: DiffResponse,
) -> Seq<FrameView> {
    if d.caught_up && (brings_news(d) || !w.caught_up) {
        seq![
            FrameView::CaughtUp {
                id: cursor_id(cursors_after(cursors, w.name, ReadOutcome::Read(d))),
                box_name: w.name,
                head_seq: d.head_seq,
            },
        ]
    } else {
        Seq::empty()
    }
}

/// The events of an outcome: what was lost first, then the records, then that
/// the watcher has caught up.
pub open spec fn frames_of(
    cursors: Map<Seq<char>, u64>,
    w: BoxView,
    from_seq: u64,
    outcome: ReadOutcome,
) -> Seq<FrameView> {
    match outcome {
        ReadOutcome::Missing => seq![
            FrameView::BoxDeleted { id: cursor_id(cursors), box_name: w.name },
        ],
        ReadOutcome::Read(d) => tombstone_frames(cursors, w, d) + record_frames(
            cursors,
            w,
            from_seq,
            d,
        ) + caught_up_frames(cursors, w, d),
    }
}

/// A box once an outcome was delivered.
pub open spec fn box_after(w: BoxView, outcome: ReadOutcome) -> BoxView {
    match outcome {
        ReadOutcome::Missing => BoxView { deleted: true, ..w },
        ReadOutcome::Read(d) => BoxView {
            caught_up: d.caught_up || (w.caught_up && !brings_news(d)),
            first_read: false,
            ..w
        },
    }
}

/// The box has nothing more to read in this pass.
pub open spec fn pass_done(outcome: ReadOutcome) -> bool {
    match outcome {
        ReadOutcome::Missing => true,
        ReadOutcome::Read(d) => d.caught_up,
    }
}

/// A stream over some boxes that has read none of them yet.
pub open spec fn stream_of(names: Seq<Seq<char>>) -> StreamView {
    StreamView {
        boxes: names.map_values(
            |name: Seq<char>| BoxView { name, deleted: false, caught_up: false, first_read: true },
        ),
        at: 0,
    }
}

impl StreamView {
    /// The box that is read next; the end where the pass is over.
    pub open spec fn turn(self) -> int {
        next_live(self.boxes, self.at)
    }

    /// Every box is gone.
    pub open spec fn all_gone(self) -> bool {
        forall|j: int| 0 <= j < self.boxes.len() ==> (#[trigger] self.boxes[j]).deleted
    }

    /// What the stream does next.
    pub open spec fn step(self) -> StreamStep {
        if self.turn() < self.boxes.len() {
            StreamStep::Read(self.turn() as usize)
        } else if self.all_gone() {
            StreamStep::End
        } else {
            StreamStep::Park
        }
    }

    /// The stream once the outcome of reading the next box was delivered.
    pub open spec fn after(self, outcome: ReadOutcome) -> StreamView {
        StreamView {
            boxes: self.boxes.update(self.turn(), box_after(self.boxes[self.turn()], outcome)),
            at: if pass_done(outcome) {
                self.turn() + 1
            } else {
                self.turn()
            },
        }
    }
}

impl WatchStream {
    /// The position is one of the boxes', or the end.
    pub open spec fn wf(self) -> bool {
        self.at <= self.boxes@.len()
    }

    /// A stream over the boxes of a session, and its first event.
    pub fn open(cursors: &NameMap<u64>) -> (r: (Self, WatchFrame))
        requires
            cursors.wf(),
        ensures
            r.0.wf(),
            r.0@ == stream_of(cursors.names()),
            cursors.names().no_duplicates(),
            r.1@ == (FrameView::Retry { retry_ms: SSE_RETRY_MS }),
    {
        let mut boxes: Vec<BoxWatch> = Vec::new();
        let mut i: usize = 0;
        while i < cursors.entries.len()
            invariant
                i <= cursors.entries@.len(),
                boxes@.len() == i,
                forall|j: int|
                    0 <= j < i ==> (#[trigger] boxes@[j])@ == (BoxView {
                        name: cursors.entries@[j].0@,
                        deleted: false,
                        caught_up: false,
                        first_read: true,
                    }),
            decreases cursors.entries@.len() - i,
        {
            boxes.push(
                BoxWatch {
                    name: cursors.entries[i].0.clone(),
                    deleted: false,
                    caught_up: false,
                    first_read: true,
                },
            );
            i += 1;
        }
        let stream = WatchStream { boxes, at: 0 };
        proof {
            lemma_names_distinct(*cursors);
            assert(stream@.boxes =~= stream_of(cursors.names()).boxes);
        }
        (stream, WatchFrame::Retry { retry_ms: SSE_RETRY_MS })
    }

    /// What the stream does next.
    pub fn next_step(&self) -> (r: StreamStep)
        requires
            self.wf(),
        ensures
            r == self@.step(),
    {
        let ghost boxes = self@.boxes;
        let mut i: usize = self.at;
        while i < self.boxes.len() && self.boxes[i].deleted
            invariant
                i <= self.boxes@.len(),
                boxes == self@.boxes,
                next_live(boxes, self.at as int) == next_live(boxes, i as int),
            decreases self.boxes@.len() - i,
        {
            assert(boxes[i as int] == self.boxes@[i as int]@);
            i += 1;
        }
        if i < self.boxes.len() {
            assert(boxes[i as int] == self.boxes@[i as int]@);
            return StreamStep::Read(i);
        }
        let mut j: usize = 0;
        while j < self.boxes.len()
            invariant
                j <= self.boxes@.len(),
                boxes == self@.boxes,
                i == self.boxes@.len(),
                i == next_live(boxes, self.at as int),
                forall|k: int| 0 <= k < j ==> (#[trigger] boxes[k]).deleted,
            decreases self.boxes@.len() - j,
        {
            assert(boxes[j as int] == self.boxes@[j as int]@);
            if !self.boxes[j].deleted {
                return StreamStep::Park;
            }
            j += 1;
        }
        StreamStep::End
    }

    /// The read of a box that the session asks for, from where its cursors are.
    pub fn request(&self, session: &Session, i: usize) -> (r: DiffRequest)
        requires
            session.wf(),
            i < self.boxes@.len(),
        ensures
            r.from_seq == if session.cursors@.contains_key(self.boxes@[i as int].name@) {
                session.cursors@[self.boxes@[i as int].name@]
            } else {
                0
            },
            r.limit == session.req.limit,
            filter_nodes(r.node) == filter_nodes(session.req.node),
            r.include_tags == session.req.include_tags,
            r.include_meta == session.req.include_meta,
            r.wait_ms == 0,
    {
        DiffRequest {
            from_seq: match session.cursors.get(self.boxes[i].name.as_str()) {
                Some(seq) => *seq,
                None => 0,
            },
            limit: session.req.limit,
            node: copy_filter(&session.req.node),
            include_tags: session.req.include_tags,
            include_meta: session.req.include_meta,
            wait_ms: 0,
        }
    }

    /// Delivers what reading the next box from `from_seq` gave. The cursors are
    /// the session's.
    pub fn on_read(&mut self, cursors: &mut NameMap<u64>, from_seq: u64, outcome: ReadOutcome) -> (frames:
        Vec<WatchFrame>)
        requires
            old(self).wf(),
            old(self)@.step() is Read,
            old(cursors).wf(),
        ensures
            final(self).wf(),
            final(self)@ == old(self)@.after(outcome),
            final(cursors).wf(),
            ({
                let w = old(self)@.boxes[old(self)@.turn()];
                &&& final(cursors)@ == cursors_after(old(cursors)@, w.name, outcome)
                &&& frame_views(frames@) == frames_of(old(cursors)@, w, from_seq, outcome)
            }),
            forall|k: int|
                0 <= k < frames@.len() ==> cursors_of_id(frame_id((#[trigger] frames@[k])@)) == Some(
                    cursors_at(
                        old(cursors)@,
                        old(self)@.boxes[old(self)@.turn()].name,
                        outcome,
                        frames@[k]@,
                    ),
                ),
            frames@.len() > 0 ==> cursors_of_id(frame_id(frames@.last()@)) == Some(
                final(cursors)@,
            ),
    {
        proof {
            lemma_next_live(self@.boxes, self.at as int);
        }
        let i = match self.next_step() {
            StreamStep::Read(i) => i,
            _ => 0,
        };
        assert(i < self.boxes.len());
        let ghost was = self@.boxes;
        let ghost w = was[i as int];
        let ghost c0 = cursors@;
        assert(w == self.boxes@[i as int]@);
        let mut frames: Vec<WatchFrame> = Vec::new();
        match outcome {
            ReadOutcome::Missing => {
                let id = encode_cursors(cursors);
                let name = self.boxes[i].name.clone();
                frames.push(WatchFrame::BoxDeleted { id, box_name: name.clone() });
                let caught_up = self.boxes[i].caught_up;
                let first_read = self.boxes[i].first_read;
                self.at = i + 1;
                self.boxes.set(i, BoxWatch { name, deleted: true, caught_up, first_read });
                assert(frame_views(frames@) =~= frames_of(c0, w, from_seq, outcome));
            },
            ReadOutcome::Read(d) => {
                let name = self.boxes[i].name.clone();
                let mut caught_up = self.boxes[i].caught_up;
                if let Some(tomb) = d.tombstone {
                    cursors.insert(name.clone(), tomb.gap_to);
                    let reason = if self.boxes[i].first_read {
                        TombstoneReason::FromSeqTooOld
                    } else {
                        tomb.reason
                    };
                    let id = encode_cursors(cursors);
                    frames.push(
                        WatchFrame::Tombstone {
                            id,
                            box_name: name.clone(),
                            reason,
                            gap_from: tomb.gap_from,
                            gap_to: tomb.gap_to,
                            earliest_seq: tomb.earliest_seq,
                            head_seq: tomb.head_seq,
                        },
                    );
                    caught_up = false;
                }
                assert(frame_views(frames@) =~= tombstone_frames(c0, w, d));
                let to_seq = d.next_from_seq;
                let head_seq = d.head_seq;
                let done = d.caught_up;
                let ghost f1 = frame_views(frames@);
                if d.records.len() > 0 {
                    cursors.insert(name.clone(), to_seq);
                    let id = encode_cursors(cursors);
                    frames.push(
                        WatchFrame::Record {
                            id,
                            box_name: name.clone(),
                            from_seq,
                            to_seq,
                            head_seq,
                            records: d.records,
                        },
                    );
                    caught_up = false;
                } else if d.tombstone.is_none() {
                    cursors.insert(name.clone(), to_seq);
                }
                assert(cursors@ =~= cursors_after(c0, w.name, outcome));
                assert(frame_views(frames@) =~= f1 + record_frames(c0, w, from_seq, d));
                let ghost f2 = frame_views(frames@);
                if done {
                    if !caught_up {
                        let id = encode_cursors(cursors);
                        frames.push(
                            WatchFrame::CaughtUp { id, box_name: name.clone(), head_seq },
                        );
                        caught_up = true;
                    }
                    self.at = i + 1;
                } else {
                    self.at = i;
                }
                assert(frame_views(frames@) =~= f2 + caught_up_frames(c0, w, d));
                let deleted = self.boxes[i].deleted;
                self.boxes.set(i, BoxWatch { name, deleted, caught_up, first_read: false });
            },
        }
        assert(self@.boxes =~= was.update(i as int, box_after(w, outcome)));
        frames
    }

    /// Starts another pass over the boxes.
    pub fn restart(&mut self)
        requires
            old(self).wf(),
        ensures
            final(self).wf(),
            *final(self) == (WatchStream { at: 0, ..*old(self) }),
            final(self)@ == (StreamView { at: 0, ..old(self)@ }),
    {
        self.at = 0;
    }
}

/// Delivers what reading the next box of a stream gave, and moves the cursors of
/// its session.
pub fn deliver_read(
    store: &mut SessionStore,
    wid: &str,
    stream: &mut WatchStream,
    from_seq: u64,
    outcome: ReadOutcome,
) -> (frames: Vec<WatchFrame>)
    requires
        old(store).wf(),
        old(store).entries().contains_key(wid@),
        old(stream).wf(),
        old(stream)@.step() is Read,
    ensures
        final(store).wf(),
        final(stream).wf(),
        final(stream)@ == old(stream)@.after(outcome),
        ({
            let w = old(stream)@.boxes[old(stream)@.turn()];
            let cursors = old(store).entries()[wid@].cursors@;
            &&& old(store).moved_to(wid@, cursors_after(cursors, w.name, outcome), *final(store))
            &&& frame_views(frames@) == frames_of(cursors, w, from_seq, outcome)
        }),
        forall|k: int|
            0 <= k < frames@.len() ==> cursors_of_id(frame_id((#[trigger] frames@[k])@)) == Some(
                cursors_at(
                    old(store).entries()[wid@].cursors@,
                    old(stream)@.boxes[old(stream)@.turn()].name,
                    outcome,
                    frames@[k]@,
                ),
            ),
        frames@.len() > 0 ==> cursors_of_id(frame_id(frames@.last()@)) == Some(
            final(store).entries()[wid@].cursors@,
        ),
{
    let mut cursors = match store.get(wid) {
        Some(session) => copy_cursors(&session.cursors),
        None => NameMap::new(),
    };
    let frames = stream.on_read(&mut cursors, from_seq, outcome);
    store.set_cursors(wid, cursors);
    frames
}

// ---------------------------------------------------------------------------
// Events as they are sent
// ---------------------------------------------------------------------------

/// The name an event is sent under.
pub open spec fn event_name_of(f: FrameView) -> Option<Seq<char>> {
    match f {
        FrameView::Retry { .. } => None,
        FrameView::Record { .. } => Some("record"@),
        FrameView::Tombstone { .. } => Some("tombstone"@),
        FrameView::CaughtUp { .. } => Some("caught-up"@),
        FrameView::BoxDeleted { .. } => Some("box-deleted"@),
    }
}

/// The document an event is sent with. The records of a record event are sent
/// as frames that are serialized already, see [`shared_frames`].
pub open spec fn event_json(f: FrameView) -> Option<Json> {
    match f {
        FrameView::Tombstone {
            box_name,
            reason,
            gap_from,
            gap_to,
            earliest_seq,
            head_seq,
            ..
        } => Some(
            Json::Object(
                map![
                    "box"@ => Json::Str(box_name),
                    "reason"@ => Json::Str(reason.spec_wire()),
                    "gap_from"@ => Json::Int(gap_from as int),
                    "gap_to"@ => Json::Int(gap_to as int),
                    "earliest_seq"@ => Json::Int(earliest_seq as int),
                    "head_seq"@ => Json::Int(head_seq as int),
                ],
            ),
        ),
        FrameView::CaughtUp { box_name, head_seq, .. } => Some(
            Json::Object(
                map!["box"@ => Json::Str(box_name), "head_seq"@ => Json::Int(head_seq as int)],
            ),
        ),
        FrameView::BoxDeleted { box_name, .. } => Some(
            Json::Object(
                map![
                    "box"@ => Json::Str(box_name),
                    "head_seq"@ => Json::Int(0),
                    "reason"@ => Json::Str("deleted"@),
                ],
            ),
        ),
        _ => None,
    }
}

impl WatchFrame {
    /// The name the event is sent under.
    pub fn event_name(&self) -> (r: Option<&'static str>)
        ensures
            match r {
                Some(n) => event_name_of(self@) == Some(n@),
                None => event_name_of(self@) is None,
            },
    {
        match self {
            WatchFrame::Retry { .. } => None,
            WatchFrame::Record { .. } => Some("record"),
            WatchFrame::Tombstone { .. } => Some("tombstone"),
            WatchFrame::CaughtUp { .. } => Some("caught-up"),
            WatchFrame::BoxDeleted { .. } => Some("box-deleted"),
        }
    }

    /// The document the event is sent with.
    pub fn payload(&self) -> (r: Option<Value>)
        ensures
            json_opt(r) == event_json(self@),
    {
        let mut obj = ObjectBuilder::new();
        match self {
            WatchFrame::Tombstone {
                box_name,
                reason,
                gap_from,
                gap_to,
                earliest_seq,
                head_seq,
                ..
            } => {
                obj.put_str("box", box_name.as_str());
                obj.put_str("reason", reason.wire());
                obj.put_u64("gap_from", *gap_from);
                obj.put_u64("gap_to", *gap_to);
                obj.put_u64("earliest_seq", *earliest_seq);
                obj.put_u64("head_seq", *head_seq);
                Some(obj.finish())
            },
            WatchFrame::CaughtUp { box_name, head_seq, .. } => {
                obj.put_str("box", box_name.as_str());
                obj.put_u64("head_seq", *head_seq);
                Some(obj.finish())
            },
            WatchFrame::BoxDeleted { box_name, .. } => {
                obj.put_str("box", box_name.as_str());
                obj.put_u64("head_seq", 0);
                obj.put_str("reason", "deleted");
                Some(obj.finish())
            },
            _ => None,
        }
    }
}

/// The frames of some records, asked for one after the other: the ring goes
/// through `states`, from one record to the next.
pub open spec fn framed_in_turn(
    states: Seq<CacheState>,
    records: Seq<RecordOut>,
    variant: FrameVariant,
    frames: Seq<Arc<RawValue>>,
) -> bool {
    &&& frames.len() == records.len()
    &&& states.len() == records.len() + 1
    &&& forall|i: int|
        0 <= i < records.len() ==> #[trigger] framed(
            states[i],
            states[i + 1],
            records[i].seq,
            records[i],
            variant,
            frames[i],
        )
}

/// The frames of some records, each serialized once for all watchers of the box
/// that project it alike.
pub fn shared_frames(
    cache: &mut BroadcastCache,
    records: &Vec<RecordOut>,
    variant: FrameVariant,
) -> (r: Vec<Arc<RawValue>>)
    requires
        old(cache).state.wf(),
        variant.wf(),
    ensures
        final(cache).state.wf(),
        exists|states: Seq<CacheState>| #[trigger]
            framed_in_turn(states, records@, variant, r@) && states[0] == old(cache).state
                && states.last() == final(cache).state,
        forall|shown: spec_fn(u64, int) -> RecordOut|
            #![trigger coherent(old(cache).state, shown)]
            coherent(old(cache).state, shown) && (forall|i: int|
                0 <= i < records@.len() ==> shown(
                    (#[trigger] records@[i]).seq,
                    variant.bits as int,
                ) == records@[i]) ==> {
                &&& coherent(final(cache).state, shown)
                &&& forall|i: int|
                    0 <= i < records@.len() ==> raw_text(&*#[trigger] r@[i]) == frame_text(
                        records@[i],
                        variant.include_data,
                    )
            },
{
    let mut out: Vec<Arc<RawValue>> = Vec::new();
    let mut i: usize = 0;
    let ghost mut states: Seq<CacheState> = seq![cache.state];
    while i < records.len()
        invariant
            i <= records@.len(),
            cache.state.wf(),
            variant.wf(),
            out@.len() == i,
            states[0] == old(cache).state,
            states.last() == cache.state,
            framed_in_turn(states, records@.take(i as int), variant, out@),
            forall|shown: spec_fn(u64, int) -> RecordOut|
                #![trigger coherent(old(cache).state, shown)]
                coherent(old(cache).state, shown) && (forall|j: int|
                    0 <= j < records@.len() ==> shown(
                        (#[trigger] records@[j]).seq,
                        variant.bits as int,
                    ) == records@[j]) ==> {
                    &&& coherent(cache.state, shown)
                    &&& forall|j: int|
                        0 <= j < i ==> raw_text(&*#[trigger] out@[j]) == frame_text(
                            records@[j],
                            variant.include_data,
                        )
                },
        decreases records@.len() - i,
    {
        let ghost before = cache.state;
        let frame = cache.frame(records[i].seq, &records[i], variant);
        proof {
            let slot = variant.bits as int;
            let seq = records@[i as int].seq;
            assert forall|shown: spec_fn(u64, int) -> RecordOut|
                #![trigger coherent(old(cache).state, shown)]
                coherent(old(cache).state, shown) && (forall|j: int|
                    0 <= j < records@.len() ==> shown(
                        (#[trigger] records@[j]).seq,
                        variant.bits as int,
                    ) == records@[j]) implies {
                &&& coherent(cache.state, shown)
                &&& raw_text(&*frame) == frame_text(records@[i as int], variant.include_data)
            } by {
                assert(shown(records@[i as int].seq, slot) == records@[i as int]);
                assert(match before.lookup(seq, slot) {
                    Some(kept) => raw_text(&*kept) == frame_text(shown(seq, slot), slot % 2 == 1),
                    None => true,
                });
                if before.lookup(seq, slot) is None {
                    law_sharing_changes_no_text(before, shown, seq, slot, frame);
                    assert forall|s: u64, k: int| 0 <= k < N_VARIANTS implies match #[trigger] cache.state.lookup(
                        s,
                        k,
                    ) {
                        Some(kept) => raw_text(&*kept) == frame_text(shown(s, k), k % 2 == 1),
                        None => true,
                    } by {
                        let after = before.lookup_after(seq, slot, frame, s, k);
                    }
                }
            }
        }
        let ghost was = out@;
        out.push(frame);
        proof {
            let now = states.push(cache.state);
            assert forall|j: int| 0 <= j < i + 1 implies #[trigger] framed(
                now[j],
                now[j + 1],
                records@.take(i + 1)[j].seq,
                records@.take(i + 1)[j],
                variant,
                out@[j],
            ) by {
                if j < i {
                    assert(framed(
                        states[j],
                        states[j + 1],
                        records@.take(i as int)[j].seq,
                        records@.take(i as int)[j],
                        variant,
                        was[j],
                    ));
                }
            }
            states = now;
        }
        i += 1;
    }
    assert(records@.take(i as int) =~= records@);
    out
}

// ---------------------------------------------------------------------------
// Laws
// ---------------------------------------------------------------------------

/// A session is found again under the id it was kept under, and keeping it
/// changes no other.
pub proof fn law_session_is_found_again(
    before: SessionStore,
    after: SessionStore,
    wid: Seq<char>,
    session: Session,
    other: Seq<char>,
)
    requires
        after.entries() == before.entries().insert(wid, Arc::new(session)),
        other != wid,
    ensures
        after.entries().contains_key(wid),
        *after.entries()[wid] == session,
        after.entries().contains_key(other) == before.entries().contains_key(other),
        before.entries().contains_key(other) ==> after.entries()[other] == before.entries()[other],
{
}

/// Holding a session's id is enough to open its stream, and a key that is
/// presented all the same keeps it shut exactly when the session is bound to
/// another.
pub proof fn law_id_is_enough(
    store: SessionStore,
    wid: Seq<char>,
    accept: Option<&str>,
    token: Seq<char>,
)
    requires
        store.entries().contains_key(wid),
        accepts_event_stream(accept),
    ensures
        stream_refusal(store, wid, accept, None) is None,
        stream_refusal(store, wid, accept, Some(token)) is Some <==> (
        store.entries()[wid].principal matches Some(p) && p@ != token),
{
}

/// Loss is told, and told first: an outcome with a tombstone begins with an
/// event that names the very gap, whatever else it brings.
pub proof fn law_loss_is_told_first(
    cursors: Map<Seq<char>, u64>,
    w: BoxView,
    from_seq: u64,
    d: DiffResponse,
)
    requires
        d.tombstone is Some,
    ensures
        ({
            let frames = frames_of(cursors, w, from_seq, ReadOutcome::Read(d));
            &&& frames.len() > 0
            &&& frames[0] matches FrameView::Tombstone { gap_from, gap_to, box_name, .. }
            &&& gap_from == (d.tombstone->0).gap_from
            &&& gap_to == (d.tombstone->0).gap_to
            &&& box_name == w.name
        }),
{
}

/// Nothing that was read is held back: the records of an outcome are sent, all
/// of them, in one event.
pub proof fn law_records_are_delivered(
    cursors: Map<Seq<char>, u64>,
    w: BoxView,
    from_seq: u64,
    d: DiffResponse,
)
    requires
        d.records@.len() > 0,
    ensures
        exists|i: int|
            0 <= i < frames_of(cursors, w, from_seq, ReadOutcome::Read(d)).len() && (
            #[trigger] frames_of(cursors, w, from_seq, ReadOutcome::Read(d))[i]
                matches FrameView::Record { records, to_seq, .. } && records == d.records@ && to_seq
                == d.next_from_seq),
{
    let frames = frames_of(cursors, w, from_seq, ReadOutcome::Read(d));
    let k = tombstone_frames(cursors, w, d).len() as int;
    assert(frames[k] == record_frames(cursors, w, from_seq, d)[0]);
}

/// A watcher is told once that it has caught up: as long as nothing new comes,
/// reading again sends nothing.
pub proof fn law_caught_up_is_told_once(
    later: Map<Seq<char>, u64>,
    w: BoxView,
    from_seq: u64,
    first: DiffResponse,
    again: DiffResponse,
)
    requires
        first.caught_up,
        again.caught_up,
        !brings_news(again),
    ensures
        frames_of(
            later,
            box_after(w, ReadOutcome::Read(first)),
            from_seq,
            ReadOutcome::Read(again),
        ).len() == 0,
{
}

/// One read of a stream: the cursors of the session at that moment, where the box
/// was read from, and what came of it.
pub struct StreamRead {
    pub cursors: Map<Seq<char>, u64>,
    pub from_seq: u64,
    pub outcome: ReadOutcome,
}

impl StreamView {
    /// The stream as it goes on: with another pass where this one is over.
    pub open spec fn woken(self) -> StreamView {
        if self.turn() < self.boxes.len() {
            self
        } else {
            StreamView { at: 0, ..self }
        }
    }
}

/// A stream after some reads. It reads as long as a box is left.
pub open spec fn stream_through(v: StreamView, reads: Seq<StreamRead>) -> StreamView
    decreases reads.len(),
{
    if reads.len() == 0 {
        v
    } else {
        let u = stream_through(v, reads.drop_last()).woken();
        if u.turn() < u.boxes.len() {
            u.after(reads.last().outcome)
        } else {
            u
        }
    }
}

/// The events that some reads of a stream send, in order.
pub open spec fn events_through(v: StreamView, reads: Seq<StreamRead>) -> Seq<FrameView>
    decreases reads.len(),
{
    if reads.len() == 0 {
        Seq::empty()
    } else {
        let u = stream_through(v, reads.drop_last()).woken();
        let r = reads.last();
        events_through(v, reads.drop_last()) + if u.turn() < u.boxes.len() {
            frames_of(r.cursors, u.boxes[u.turn()], r.from_seq, r.outcome)
        } else {
            Seq::empty()
        }
    }
}

/// The event is about a box.
pub open spec fn names_box(f: FrameView, name: Seq<char>) -> bool {
    match f {
        FrameView::Retry { .. } => false,
        FrameView::Record { box_name, .. } => box_name == name,
        FrameView::Tombstone { box_name, .. } => box_name == name,
        FrameView::CaughtUp { box_name, .. } => box_name == name,
        FrameView::BoxDeleted { box_name, .. } => box_name == name,
    }
}

/// Some event tells that a box is gone.
pub open spec fn told_gone(sent: Seq<FrameView>, name: Seq<char>) -> bool {
    exists|i: int|
        0 <= i < sent.len() && #[trigger] sent[i] is BoxDeleted && names_box(sent[i], name)
}

/// Over a whole stream a box is reported gone at most once, and no event names it
/// after that; and the stream ends once every box was reported gone, and not
/// before.
pub proof fn law_gone_is_gone(names: Seq<Seq<char>>, reads: Seq<StreamRead>)
    requires
        names.no_duplicates(),
    ensures
        ({
            let sent = events_through(stream_of(names), reads);
            let now = stream_through(stream_of(names), reads);
            &&& forall|i: int, j: int, name: Seq<char>|
                0 <= i < j < sent.len() && #[trigger] sent[i] is BoxDeleted && names_box(
                    sent[i],
                    name,
                ) ==> !#[trigger] names_box(sent[j], name)
            &&& now.step() == StreamStep::End <==> forall|k: int|
                0 <= k < names.len() ==> told_gone(sent, #[trigger] names[k])
        }),
{
    let v = stream_of(names);
    let now = stream_through(v, reads);
    let sent = events_through(v, reads);
    lemma_gone(names, reads);
    lemma_next_live(now.boxes, now.at);
    if now.all_gone() {
        assert forall|k: int| 0 <= k < names.len() implies told_gone(sent, #[trigger] names[k]) by {
            assert(now.boxes[k].deleted);
        }
    }
    if forall|k: int| 0 <= k < names.len() ==> told_gone(sent, #[trigger] names[k]) {
        assert forall|k: int| 0 <= k < now.boxes.len() implies (#[trigger] now.boxes[k]).deleted by {
            assert(told_gone(sent, names[k]));
        }
    }
}

/// What holds of a stream at any time: its boxes are those it began with, a box is
/// gone exactly when that was told, and nothing names it after that.
proof fn lemma_gone(names: Seq<Seq<char>>, reads: Seq<StreamRead>)
    requires
        names.no_duplicates(),
    ensures
        ({
            let sent = events_through(stream_of(names), reads);
            let now = stream_through(stream_of(names), reads);
            &&& 0 <= now.at <= now.boxes.len()
            &&& now.boxes.len() == names.len()
            &&& forall|k: int|
                0 <= k < names.len() ==> {
                    &&& (#[trigger] now.boxes[k]).name == names[k]
                    &&& now.boxes[k].deleted == told_gone(sent, names[k])
                }
            &&& forall|i: int, j: int, name: Seq<char>|
                0 <= i < j < sent.len() && #[trigger] sent[i] is BoxDeleted && names_box(
                    sent[i],
                    name,
                ) ==> !#[trigger] names_box(sent[j], name)
        }),
    decreases reads.len(),
{
    let v = stream_of(names);
    let sent = events_through(v, reads);
    let now = stream_through(v, reads);
    if reads.len() > 0 {
        let rest = reads.drop_last();
        lemma_gone(names, rest);
        let before = stream_through(v, rest);
        let u = before.woken();
        let old_sent = events_through(v, rest);
        let n = old_sent.len() as int;
        let r = reads.last();
        lemma_next_live(before.boxes, before.at);
        lemma_next_live(u.boxes, u.at);
        if u.turn() < u.boxes.len() {
            let t = u.turn();
            let fresh = frames_of(r.cursors, u.boxes[t], r.from_seq, r.outcome);
            assert(sent == old_sent + fresh);
            assert(u.boxes[t].name == names[t]);
            assert(!told_gone(old_sent, names[t]));
            assert forall|i: int| 0 <= i < fresh.len() implies {
                &&& forall|name: Seq<char>| #[trigger]
                    names_box(fresh[i], name) <==> name == names[t]
                &&& #[trigger] fresh[i] is BoxDeleted <==> r.outcome is Missing
            } by {}
            assert(r.outcome is Missing ==> fresh.len() == 1);
            assert forall|i: int, j: int, name: Seq<char>|
                0 <= i < j < sent.len() && #[trigger] sent[i] is BoxDeleted && names_box(
                    sent[i],
                    name,
                ) implies !#[trigger] names_box(sent[j], name) by {
                if j < n {
                    assert(old_sent[i] == sent[i] && old_sent[j] == sent[j]);
                } else if i < n {
                    assert(old_sent[i] == sent[i] && fresh[j - n] == sent[j]);
                    assert(told_gone(old_sent, name));
                } else {
                    assert(fresh[i - n] == sent[i] && fresh[j - n] == sent[j]);
                }
            }
            assert forall|k: int| 0 <= k < names.len() implies {
                &&& (#[trigger] now.boxes[k]).name == names[k]
                &&& now.boxes[k].deleted == told_gone(sent, names[k])
            } by {
                assert(before.boxes[k].name == names[k]);
                if told_gone(old_sent, names[k]) {
                    let i = choose|i: int|
                        0 <= i < old_sent.len() && #[trigger] old_sent[i] is BoxDeleted
                            && names_box(old_sent[i], names[k]);
                    assert(sent[i] == old_sent[i]);
                }
                if k == t && r.outcome is Missing {
                    assert(sent[n] == fresh[0]);
                }
                if told_gone(sent, names[k]) && !told_gone(old_sent, names[k]) {
                    let i = choose|i: int|
                        0 <= i < sent.len() && #[trigger] sent[i] is BoxDeleted && names_box(
                            sent[i],
                            names[k],
                        );
                    if i < n {
                        assert(old_sent[i] == sent[i]);
                    } else {
                        assert(fresh[i - n] == sent[i]);
                    }
                }
            }
        } else {
            assert(sent =~= old_sent);
        }
    }
}

/// Reconnecting never skips: no cursor is moved ahead of where the server has
/// it, none ahead of where the watcher says it was, and no box is added or
/// dropped.
pub proof fn law_resuming_never_skips(
    cursors: Map<Seq<char>, u64>,
    resumed: Map<Seq<char>, u64>,
    name: Seq<char>,
)
    requires
        cursors.contains_key(name),
    ensures
        rewound(cursors, resumed).dom() == cursors.dom(),
        rewound(cursors, resumed)[name] <= cursors[name],
        resumed.contains_key(name) ==> rewound(cursors, resumed)[name] <= resumed[name],
{
    assert(rewound(cursors, resumed).dom() =~= cursors.dom());
}

/// Resuming from an id that a session sent puts its cursors back to just what
/// they were when it was sent, as long as none was behind since.
pub proof fn law_resuming_is_exact(sent: Map<Seq<char>, u64>, now: Map<Seq<char>, u64>)
    requires
        sent.dom() == now.dom(),
        forall|n: Seq<char>| #[trigger] sent.contains_key(n) ==> sent[n] <= now[n],
    ensures
        rewound(now, sent) == sent,
{
    assert forall|n: Seq<char>| sent.contains_key(n) <==> now.contains_key(n) by {
        assert(sent.dom().contains(n) <==> now.dom().contains(n));
    }
    assert(rewound(now, sent) =~= sent);
}

/// What one read of a box sends. Of a box that is gone, that it is. Else the
/// tombstone, where there is one; then all the records, where there are any, in an
/// event that says where the read began and ended; and then, where the read caught
/// up and the watcher had not been told so since the last news, on the first read
/// too, that it has caught up; and nothing more.
pub proof fn law_a_read_is_sent_whole(
    cursors: Map<Seq<char>, u64>,
    w: BoxView,
    from_seq: u64,
    outcome: ReadOutcome,
)
    ensures
        outcome is Missing ==> {
            let sent = frames_of(cursors, w, from_seq, outcome);
            sent.len() == 1 && sent[0] is BoxDeleted && names_box(sent[0], w.name)
        },
        outcome matches ReadOutcome::Read(d) ==> {
            let sent = frames_of(cursors, w, from_seq, outcome);
            let a: int = if d.tombstone is Some {
                1
            } else {
                0
            };
            let b: int = if d.records@.len() > 0 {
                a + 1
            } else {
                a
            };
            let told = d.caught_up && (b > 0 || !w.caught_up);
            &&& sent.len() == (if told {
                b + 1
            } else {
                b
            })
            &&& a > 0 ==> {
                let t = d.tombstone->0;
                &&& sent[0] matches FrameView::Tombstone {
                    box_name,
                    reason,
                    gap_from,
                    gap_to,
                    earliest_seq,
                    head_seq,
                    ..
                }
                &&& box_name == w.name
                &&& w.first_read ==> reason == TombstoneReason::FromSeqTooOld
                &&& !w.first_read ==> reason == t.reason
                &&& gap_from == t.gap_from
                &&& gap_to == t.gap_to
                &&& earliest_seq == t.earliest_seq
                &&& head_seq == t.head_seq
            }
            &&& b > a ==> {
                &&& sent[a] matches FrameView::Record {
                    box_name,
                    from_seq: began,
                    to_seq,
                    head_seq,
                    records,
                    ..
                }
                &&& box_name == w.name
                &&& began == from_seq
                &&& to_seq == d.next_from_seq
                &&& head_seq == d.head_seq
                &&& records == d.records@
            }
            &&& told ==> {
                &&& sent[b] matches FrameView::CaughtUp { box_name, head_seq, .. }
                &&& box_name == w.name
                &&& head_seq == d.head_seq
            }
        },
{
}

/// Every event carries the id of the cursors as they are once it is delivered: a
/// watcher that resumes from a tombstone goes on right above the gap, and from any
/// other event where the read left off.
pub proof fn law_ids_say_where_to_go_on(
    cursors: Map<Seq<char>, u64>,
    w: BoxView,
    from_seq: u64,
    d: DiffResponse,
    i: int,
)
    requires
        0 <= i < frames_of(cursors, w, from_seq, ReadOutcome::Read(d)).len(),
    ensures
        ({
            let f = frames_of(cursors, w, from_seq, ReadOutcome::Read(d))[i];
            let after = cursors_after(cursors, w.name, ReadOutcome::Read(d));
            &&& f is Tombstone ==> frame_id(f) == cursor_id(
                cursors.insert(w.name, (d.tombstone->0).gap_to),
            )
            &&& !(f is Tombstone) ==> frame_id(f) == cursor_id(after)
            &&& after.contains_key(w.name)
            &&& d.records@.len() > 0 || d.tombstone is None ==> after[w.name] == d.next_from_seq
            &&& d.records@.len() == 0 && d.tombstone is Some ==> after[w.name] == (
            d.tombstone->0).gap_to
        }),
{
}

/// Delivering a read moves the cursor of its box: to where the read ended, or, where
/// all it brought was a tombstone, to the end of the gap. No other cursor moves, and
/// a box that is gone moves none.
pub proof fn law_cursors_follow_the_reads(
    cursors: Map<Seq<char>, u64>,
    name: Seq<char>,
    outcome: ReadOutcome,
    other: Seq<char>,
)
    ensures
        outcome is Missing ==> cursors_after(cursors, name, outcome) == cursors,
        outcome matches ReadOutcome::Read(d) ==> {
            let after = cursors_after(cursors, name, outcome);
            &&& after.contains_key(name)
            &&& d.records@.len() > 0 || d.tombstone is None ==> after[name] == d.next_from_seq
            &&& d.records@.len() == 0 && d.tombstone is Some ==> after[name] == (
            d.tombstone->0).gap_to
            &&& other != name ==> {
                &&& after.contains_key(other) <==> cursors.contains_key(other)
                &&& cursors.contains_key(other) ==> after[other] == cursors[other]
            }
        },
{
}

/// The read that is delivered touches the box that was read, and no other. It keeps
/// its name; it is gone exactly when it was found missing; and it was read before
/// from then on. The stream stays at the box until a read of it catches up.
pub proof fn law_a_read_touches_one_box(v: StreamView, outcome: ReadOutcome, i: int)
    requires
        0 <= v.at <= v.boxes.len(),
        v.turn() < v.boxes.len(),
        0 <= i < v.boxes.len(),
    ensures
        v.after(outcome).boxes.len() == v.boxes.len(),
        i != v.turn() ==> v.after(outcome).boxes[i] == v.boxes[i],
        ({
            let was = v.boxes[v.turn()];
            let now = v.after(outcome).boxes[v.turn()];
            &&& now.name == was.name
            &&& now.deleted <==> outcome is Missing
            &&& outcome is Read ==> !now.first_read
            &&& outcome matches ReadOutcome::Read(d) ==> {
                let news = d.tombstone is Some || d.records@.len() > 0;
                &&& d.caught_up ==> now.caught_up
                &&& !d.caught_up && news ==> !now.caught_up
                &&& !d.caught_up && !news ==> now.caught_up == was.caught_up
            }
        }),
        v.after(outcome).at == v.turn() <==> outcome is Read && !(outcome->Read_0).caught_up,
        v.after(outcome).at == v.turn() || v.after(outcome).at == v.turn() + 1,
{
    lemma_next_live(v.boxes, v.at);
}

/// What a stream does next is the first thing left: it reads the first box from its
/// position on that is not gone; it waits where some box is left but none from there
/// on; and it ends where none is left.
pub proof fn law_a_stream_does_the_first_thing_left(v: StreamView, i: int)
    requires
        0 <= v.at <= v.boxes.len() <= usize::MAX,
    ensures
        v.step() matches StreamStep::Read(k) ==> {
            &&& v.at <= k < v.boxes.len()
            &&& !v.boxes[k as int].deleted
            &&& v.at <= i < k ==> v.boxes[i].deleted
        },
        v.step() == StreamStep::End ==> (0 <= i < v.boxes.len() ==> v.boxes[i].deleted),
        v.step() == StreamStep::Park ==> {
            &&& v.at <= i < v.boxes.len() ==> v.boxes[i].deleted
            &&& exists|k: int| 0 <= k < v.at && !(#[trigger] v.boxes[k]).deleted
        },
{
    lemma_next_live(v.boxes, v.at);
    lemma_next_live_is_first(v.boxes, v.at, i);
    if v.step() == StreamStep::Park {
        let k = choose|k: int| 0 <= k < v.boxes.len() && !(#[trigger] v.boxes[k]).deleted;
        assert(!v.boxes[k].deleted);
        lemma_next_live_is_first(v.boxes, v.at, k);
    }
}

proof fn lemma_next_live_is_first(boxes: Seq<BoxView>, at: int, i: int)
    requires
        0 <= at <= boxes.len(),
    ensures
        at <= i < next_live(boxes, at) && i < boxes.len() ==> boxes[i].deleted,
    decreases boxes.len() - at,
{
    if at < boxes.len() && boxes[at].deleted {
        lemma_next_live_is_first(boxes, at + 1, i);
    }
}

/// The last event about a box.
pub open spec fn last_about(sent: Seq<FrameView>, name: Seq<char>) -> Option<FrameView>
    decreases sent.len(),
{
    if sent.len() == 0 {
        None
    } else if names_box(sent.last(), name) {
        Some(sent.last())
    } else {
        last_about(sent.drop_last(), name)
    }
}

proof fn lemma_last_about(a: Seq<FrameView>, b: Seq<FrameView>, name: Seq<char>)
    ensures
        last_about(a + b, name) == (if last_about(b, name) is Some {
            last_about(b, name)
        } else {
            last_about(a, name)
        }),
    decreases b.len(),
{
    if b.len() == 0 {
        assert(a + b =~= a);
    } else {
        assert((a + b).drop_last() =~= a + b.drop_last());
        lemma_last_about(a, b.drop_last(), name);
    }
}

proof fn lemma_about_another(sent: Seq<FrameView>, name: Seq<char>)
    requires
        forall|i: int| 0 <= i < sent.len() ==> !names_box(#[trigger] sent[i], name),
    ensures
        last_about(sent, name) is None,
    decreases sent.len(),
{
    if sent.len() > 0 {
        assert(!names_box(sent[sent.len() - 1], name));
        lemma_about_another(sent.drop_last(), name);
    }
}

/// A watcher knows when it has caught up: whenever a read of a box finds it caught
/// up, whether the first or a later one, the last that was sent about the box is
/// just that.
pub proof fn law_who_has_caught_up_was_told(names: Seq<Seq<char>>, reads: Seq<StreamRead>)
    requires
        names.no_duplicates(),
        reads.len() > 0,
        reads.last().outcome matches ReadOutcome::Read(d) && d.caught_up,
    ensures
        ({
            let u = stream_through(stream_of(names), reads.drop_last()).woken();
            let sent = events_through(stream_of(names), reads);
            u.turn() < names.len() ==> {
                let last = last_about(sent, names[u.turn()]);
                last is Some && last->0 is CaughtUp
            }
        }),
{
    let u = stream_through(stream_of(names), reads.drop_last()).woken();
    lemma_gone(names, reads.drop_last());
    lemma_gone(names, reads);
    let before = stream_through(stream_of(names), reads.drop_last());
    lemma_next_live(before.boxes, before.at);
    lemma_next_live(u.boxes, u.at);
    if u.turn() < names.len() {
        lemma_caught_up_was_told(names, reads, u.turn());
    }
}

proof fn lemma_caught_up_was_told(names: Seq<Seq<char>>, reads: Seq<StreamRead>, k: int)
    requires
        names.no_duplicates(),
        0 <= k < names.len(),
    ensures
        ({
            let now = stream_through(stream_of(names), reads);
            let last = last_about(events_through(stream_of(names), reads), names[k]);
            now.boxes[k].caught_up && !now.boxes[k].deleted ==> last is Some && last->0 is CaughtUp
        }),
    decreases reads.len(),
{
    let v = stream_of(names);
    if reads.len() > 0 {
        let rest = reads.drop_last();
        lemma_caught_up_was_told(names, rest, k);
        lemma_gone(names, rest);
        let before = stream_through(v, rest);
        let u = before.woken();
        let old_sent = events_through(v, rest);
        let r = reads.last();
        lemma_next_live(before.boxes, before.at);
        lemma_next_live(u.boxes, u.at);
        if u.turn() < u.boxes.len() {
            let t = u.turn();
            let w = u.boxes[t];
            let fresh = frames_of(r.cursors, w, r.from_seq, r.outcome);
            assert(u.boxes[t].name == names[t]);
            assert(u.boxes[k].name == names[k]);
            lemma_last_about(old_sent, fresh, names[k]);
            law_a_read_is_sent_whole(r.cursors, w, r.from_seq, r.outcome);
            law_a_read_touches_one_box(u, r.outcome, k);
            if t == k {
                if fresh.len() > 0 {
                    assert(names_box(fresh.last(), names[k]));
                }
            } else {
                assert(names[t] != names[k]);
                lemma_about_another(fresh, names[k]);
            }
        } else {
            assert(events_through(v, reads) =~= old_sent);
        }
    }
}

/// The event brings records of a box, or tells of their loss.
pub open spec fn is_news_of(f: FrameView, name: Seq<char>) -> bool {
    (f is Record || f is Tombstone) && names_box(f, name)
}

/// Some event from a position on and before another brings news of a box.
pub open spec fn has_news_of(sent: Seq<FrameView>, name: Seq<char>, from: int, to: int) -> bool {
    exists|k: int| 0 <= from <= k < to <= sent.len() && is_news_of(#[trigger] sent[k], name)
}

/// Over a whole stream a watcher is told of having caught up with a box only after
/// news: between two such events there is one that brings the box's records or tells
/// of their loss.
pub proof fn law_caught_up_comes_after_news(
    names: Seq<Seq<char>>,
    reads: Seq<StreamRead>,
    k: int,
    i: int,
    j: int,
)
    requires
        names.no_duplicates(),
        0 <= k < names.len(),
        0 <= i < j < events_through(stream_of(names), reads).len(),
        events_through(stream_of(names), reads)[i] is CaughtUp,
        events_through(stream_of(names), reads)[j] is CaughtUp,
        names_box(events_through(stream_of(names), reads)[i], names[k]),
        names_box(events_through(stream_of(names), reads)[j], names[k]),
    ensures
        has_news_of(events_through(stream_of(names), reads), names[k], i + 1, j),
{
    lemma_news_between(names, reads, k);
}

proof fn lemma_news_between(names: Seq<Seq<char>>, reads: Seq<StreamRead>, k: int)
    requires
        names.no_duplicates(),
        0 <= k < names.len(),
    ensures
        ({
            let sent = events_through(stream_of(names), reads);
            let now = stream_through(stream_of(names), reads);
            &&& forall|i: int, j: int|
                0 <= i < j < sent.len() && #[trigger] sent[i] is CaughtUp && names_box(
                    sent[i],
                    names[k],
                ) && #[trigger] sent[j] is CaughtUp && names_box(sent[j], names[k]) ==> has_news_of(
                    sent,
                    names[k],
                    i + 1,
                    j,
                )
            &&& forall|i: int|
                0 <= i < sent.len() && #[trigger] sent[i] is CaughtUp && names_box(sent[i], names[k])
                    ==> has_news_of(sent, names[k], i + 1, sent.len() as int)
                    || now.boxes[k].caught_up
        }),
    decreases reads.len(),
{
    let v = stream_of(names);
    let name = names[k];
    if reads.len() > 0 {
        let rest = reads.drop_last();
        lemma_news_between(names, rest, k);
        lemma_gone(names, rest);
        let before = stream_through(v, rest);
        let now = stream_through(v, reads);
        let u = before.woken();
        let old_sent = events_through(v, rest);
        let sent = events_through(v, reads);
        let n = old_sent.len() as int;
        let r = reads.last();
        lemma_next_live(before.boxes, before.at);
        lemma_next_live(u.boxes, u.at);
        if u.turn() < u.boxes.len() {
            let t = u.turn();
            let w = u.boxes[t];
            let fresh = frames_of(r.cursors, w, r.from_seq, r.outcome);
            assert(sent == old_sent + fresh);
            assert(u.boxes[t].name == names[t]);
            assert(u.boxes[k].name == names[k]);
            law_a_read_is_sent_whole(r.cursors, w, r.from_seq, r.outcome);
            law_a_read_touches_one_box(u, r.outcome, k);
            assert(t != k ==> names[t] != names[k]);
            assert forall|i: int| 0 <= i < fresh.len() implies {
                &&& names_box(#[trigger] fresh[i], name) <==> t == k
                &&& fresh[i] is CaughtUp ==> i == fresh.len() - 1
                &&& fresh[i] is CaughtUp && t == k && w.caught_up ==> i > 0 && is_news_of(
                    fresh[0],
                    name,
                )
            } by {}
            assert forall|i: int, to: int| 0 <= i && to <= n && #[trigger] has_news_of(
                old_sent,
                name,
                i,
                to,
            ) implies has_news_of(sent, name, i, to) && has_news_of(
                sent,
                name,
                i,
                sent.len() as int,
            ) by {
                let q = choose|q: int|
                    0 <= i <= q < to <= old_sent.len() && is_news_of(#[trigger] old_sent[q], name);
                assert(sent[q] == old_sent[q]);
            }
            assert forall|i: int, j: int|
                0 <= i < j < sent.len() && #[trigger] sent[i] is CaughtUp && names_box(sent[i], name)
                    && #[trigger] sent[j] is CaughtUp && names_box(
                    sent[j],
                    name,
                ) implies has_news_of(sent, name, i + 1, j) by {
                if j < n {
                    assert(old_sent[i] == sent[i] && old_sent[j] == sent[j]);
                } else if i < n {
                    assert(old_sent[i] == sent[i]);
                    assert(fresh[j - n] == sent[j]);
                    if has_news_of(old_sent, name, i + 1, n) {
                        let q = choose|q: int|
                            0 <= i + 1 <= q < n <= old_sent.len() && is_news_of(
                                #[trigger] old_sent[q],
                                name,
                            );
                        assert(sent[q] == old_sent[q]);
                    } else {
                        assert(sent[n] == fresh[0]);
                    }
                } else {
                    assert(fresh[i - n] == sent[i] && fresh[j - n] == sent[j]);
                }
            }
            assert forall|i: int|
                0 <= i < sent.len() && #[trigger] sent[i] is CaughtUp && names_box(
                    sent[i],
                    name,
                ) implies has_news_of(sent, name, i + 1, sent.len() as int)
                || now.boxes[k].caught_up by {
                if i < n {
                    assert(old_sent[i] == sent[i]);
                    if !has_news_of(old_sent, name, i + 1, n) && t == k && fresh.len() > 0 {
                        assert(sent[n] == fresh[0]);
                    }
                } else {
                    assert(fresh[i - n] == sent[i]);
                }
            }
        } else {
            assert(sent =~= old_sent);
        }
    }
}

/// A read of a box for a watcher: the state that was read, what was asked, when,
/// and what came of it.
pub struct WatchRead {
    pub state: BoxState,
    pub req: DiffRequest,
    pub now_ms: i64,
    pub response: DiffResponse,
}

impl WatchRead {
    /// The read was made.
    pub open spec fn made(self) -> bool {
        &&& self.state.wf()
        &&& self.state.seq_base >= 1
        &&& self.state.head_seq < u64::MAX
        &&& nothing_expired(self.state, self.now_ms)
        &&& is_read(self.state, self.req, self.now_ms, self.response)
    }

    /// The read told of a seq: it delivered the record, or named it as lost.
    pub open spec fn told(self, seq: u64) -> bool {
        ||| self.response.tombstone matches Some(t) && t.gap_from <= seq <= t.gap_to
        ||| exists|i: int|
            0 <= i < self.response.records@.len() && (#[trigger] self.response.records@[i]).seq
                == seq
    }

    /// The read found a record of a node that the watcher filters out.
    pub open spec fn passed_over(self, seq: u64) -> bool {
        let b = self.state;
        b.index.base_seq <= seq <= b.head_seq && match (
            self.req.node,
            b.index.records@[seq - b.index.base_seq].node,
        ) {
            (Some(f), Some(n)) => f.names(n@),
            _ => false,
        }
    }
}

/// The cursors after some reads of a box were delivered.
pub open spec fn cursors_through(
    cursors: Map<Seq<char>, u64>,
    name: Seq<char>,
    reads: Seq<WatchRead>,
) -> Map<Seq<char>, u64>
    decreases reads.len(),
{
    if reads.len() == 0 {
        cursors
    } else {
        cursors_after(
            cursors_through(cursors, name, reads.drop_last()),
            name,
            ReadOutcome::Read(reads.last().response),
        )
    }
}

/// A watcher misses nothing. However many reads of a box are made for a session,
/// each from the session's cursor, every seq from the first cursor to the last was
/// told of by one of them, or passed over for the watcher's filter.
pub proof fn law_a_watcher_misses_nothing(
    cursors: Map<Seq<char>, u64>,
    name: Seq<char>,
    reads: Seq<WatchRead>,
    seq: u64,
)
    requires
        cursors.contains_key(name),
        forall|k: int| 0 <= k < reads.len() ==> (#[trigger] reads[k]).made(),
        forall|k: int| 0 <= k < reads.len() ==> (#[trigger] reads[k]).state.seq_base <= seq,
        forall|k: int|
            0 <= k < reads.len() ==> (#[trigger] reads[k]).req.from_seq == cursors_through(
                cursors,
                name,
                reads.take(k),
            )[name],
        cursors[name] < seq <= cursors_through(cursors, name, reads)[name],
    ensures
        exists|k: int|
            0 <= k < reads.len() && ((#[trigger] reads[k]).told(seq) || reads[k].passed_over(seq)),
    decreases reads.len(),
{
    if reads.len() > 0 {
        let rest = reads.drop_last();
        let n = reads.len() - 1;
        let x = reads[n];
        assert(reads.take(n) =~= rest);
        let now = cursors_through(cursors, name, rest);
        law_cursors_follow_the_reads(now, name, ReadOutcome::Read(x.response), name);
        assert(x.made() && x.state.seq_base <= seq);
        assert(x.req.from_seq == now[name]);
        if seq <= now[name] {
            assert forall|k: int| 0 <= k < rest.len() implies (#[trigger] rest[k]).made()
                && rest[k].state.seq_base <= seq && rest[k].req.from_seq == cursors_through(
                cursors,
                name,
                rest.take(k),
            )[name] by {
                assert(reads[k] == rest[k]);
                assert(rest.take(k) =~= reads.take(k));
            }
            law_a_watcher_misses_nothing(cursors, name, rest, seq);
            let k = choose|k: int|
                0 <= k < rest.len() && ((#[trigger] rest[k]).told(seq) || rest[k].passed_over(seq));
            assert(reads[k] == rest[k]);
        } else {
            law_a_response_says_how_far_it_got(x.state, x.req, x.now_ms, x.response);
            law_a_tombstone_says_what_and_why(x.state, x.req, x.now_ms, x.response);
            lemma_past_the_gap(x);
            law_a_response_leaves_nothing_out(x.state, x.req, x.now_ms, x.response, seq);
            assert(reads[n].told(seq) || reads[n].passed_over(seq));
        }
    }
}

/// A read goes past the gap that it names.
proof fn lemma_past_the_gap(x: WatchRead)
    requires
        x.made(),
    ensures
        x.response.tombstone matches Some(t) ==> t.gap_to <= x.response.next_from_seq,
{
    law_a_response_says_how_far_it_got(x.state, x.req, x.now_ms, x.response);
    law_a_tombstone_says_what_and_why(x.state, x.req, x.now_ms, x.response);
    if x.response.records@.len() > 0 {
        law_a_response_gives_what_is_stored(
            x.state,
            x.req,
            x.now_ms,
            x.response,
            x.response.records@.len() - 1,
        );
    }
}

/// A number is held to the nearest one between the bounds.
pub proof fn law_clamping_is_to_the_nearest(n: u64, lo: u64, hi: u64)
    requires
        lo <= hi,
    ensures
        lo <= clamped(n, lo, hi) <= hi,
        lo <= n <= hi ==> clamped(n, lo, hi) == n,
        n < lo ==> clamped(n, lo, hi) == lo,
        n > hi ==> clamped(n, lo, hi) == hi,
{
}

/// Going back goes back just as far as asked, and never ahead: the cursor of a box is
/// the smaller of the two where the watcher names the box, and else stays.
pub proof fn law_going_back_takes_the_smaller(
    cursors: Map<Seq<char>, u64>,
    resumed: Map<Seq<char>, u64>,
    name: Seq<char>,
)
    ensures
        rewound(cursors, resumed).contains_key(name) <==> cursors.contains_key(name),
        cursors.contains_key(name) && resumed.contains_key(name) ==> {
            let to = rewound(cursors, resumed)[name];
            &&& to <= cursors[name] && to <= resumed[name]
            &&& to == cursors[name] || to == resumed[name]
        },
        cursors.contains_key(name) && !resumed.contains_key(name) ==> rewound(
            cursors,
            resumed,
        )[name] == cursors[name],
{
}

/// Without an id that can be read, a stream goes on from the session's cursors.
pub proof fn law_resuming_from_nothing_changes_nothing(
    cursors: Map<Seq<char>, u64>,
    resume: Option<Seq<char>>,
    name: Seq<char>,
)
    ensures
        resume is None ==> resumed_cursors(cursors, resume) == cursors,
        resume matches Some(id) ==> {
            &&& cursors_of_id(id) is None ==> resumed_cursors(cursors, resume) == cursors
            &&& cursors_of_id(id) matches Some(to) ==> {
                let after = resumed_cursors(cursors, resume);
                &&& after.contains_key(name) <==> cursors.contains_key(name)
                &&& cursors.contains_key(name) ==> after[name] <= cursors[name]
                &&& cursors.contains_key(name) && to.contains_key(name) && to[name]
                    <= cursors[name] ==> after[name] == to[name]
            }
        },
{
}

/// A watcher resumes from the header's id where that has any text, else from the
/// query's where that has, and else from none.
pub proof fn law_the_header_comes_before_the_query(header: Option<&str>, query: Option<&str>)
    ensures
        ({
            let id = resume_id(header, query);
            &&& header is Some && (header->0)@.len() > 0 ==> id == Some((header->0)@)
            &&& (header is None || (header->0)@.len() == 0) && query is Some && (query->0)@.len() > 0
                ==> id == Some((query->0)@)
            &&& (header is None || (header->0)@.len() == 0) && (query is None || (query->0)@.len()
                == 0) ==> id is None
        }),
{
}

/// A key in the header counts before one in the query, and the one in the query
/// counts only without it.
pub proof fn law_the_header_key_counts_first(header: Option<&str>, query: Option<&str>)
    ensures
        bearer_of(header) is Some ==> presented_bearer(header, query) == bearer_of(header),
        bearer_of(header) is None && query is Some ==> presented_bearer(header, query) == Some(
            (query->0)@,
        ),
        bearer_of(header) is None && query is None ==> presented_bearer(header, query) is None,
{
}

/// A stream is opened to whoever takes one, names a session that is there, and does
/// not present a key other than the session's own; to nobody else. Each refusal has
/// its own code.
pub proof fn law_streams_are_refused_for_cause(
    store: SessionStore,
    wid: Seq<char>,
    accept: Option<&str>,
    presented: Option<Seq<char>>,
)
    ensures
        ({
            let refusal = stream_refusal(store, wid, accept, presented);
            let session = store.entries()[wid];
            let takes_one = accept is None || (accept->0)@.len() == 0 || has_substring(
                (accept->0)@,
                "text/event-stream"@,
            ) || has_substring((accept->0)@, "*/*"@);
            let is_there = store.entries().contains_key(wid);
            let other_key = session.principal is Some && presented is Some && (
            session.principal->0)@ != presented->0;
            &&& refusal is None <==> takes_one && is_there && !other_key
            &&& !takes_one ==> refusal is Some && (refusal->0).0 == ErrorCode::NotAcceptable
            &&& takes_one && !is_there ==> refusal is Some && (refusal->0).0 == ErrorCode::NotFound
            &&& takes_one && is_there && other_key ==> refusal is Some && (refusal->0).0
                == ErrorCode::Unauthorized
        }),
{
}

/// Of the pairs with one name the last one counts, and a name without a pair has no
/// cursor.
pub proof fn law_the_last_pair_counts(pairs: Seq<(String, u64)>, name: Seq<char>, i: int)
    ensures
        0 <= i < pairs.len() && pairs[i].0@ == name && (forall|j: int|
            i < j < pairs.len() ==> (#[trigger] pairs[j]).0@ != name) ==> {
            &&& cursor_map(pairs).contains_key(name)
            &&& cursor_map(pairs)[name] == pairs[i].1
        },
        (forall|j: int| 0 <= j < pairs.len() ==> (#[trigger] pairs[j]).0@ != name)
            ==> !cursor_map(pairs).contains_key(name),
    decreases pairs.len(),
{
    if pairs.len() > 0 {
        let rest = pairs.drop_last();
        law_the_last_pair_counts(rest, name, i);
        assert(forall|j: int| 0 <= j < rest.len() ==> rest[j] == pairs[j]);
        assert(pairs[pairs.len() - 1] == pairs.last());
    }
}

/// A watcher starts each box where the box was resolved to.
pub proof fn law_watchers_start_where_resolved(
    states: Map<Seq<char>, WatchBoxState>,
    name: Seq<char>,
)
    ensures
        start_cursors(states).contains_key(name) <==> states.contains_key(name),
        states.contains_key(name) ==> start_cursors(states)[name] == states[name].from_seq,
{
}

/// A frame says what the record holds: its seq and time always; node, tag and
/// metadata where the record has them; the data unless the watcher does without.
pub proof fn law_a_frame_says_what_the_record_holds(r: RecordOut, include_data: bool)
    ensures
        ({
            let m = frame_members(r, include_data);
            &&& m.contains_key("$seq"@) && m["$seq"@] == Json::Int(r.seq as int)
            &&& m.contains_key("$ts"@) && m["$ts"@] == Json::Int(r.ts as int)
            &&& m.contains_key("$node"@) <==> r.node is Some
            &&& r.node matches Some(n) ==> m["$node"@] == Json::Str(n@)
            &&& m.contains_key("$tag"@) <==> r.tag is Some
            &&& r.tag matches Some(n) ==> m["$tag"@] == Json::Str(n@)
            &&& m.contains_key("data"@) <==> include_data
            &&& include_data ==> m["data"@] == json(r.data)
            &&& m.contains_key("meta"@) <==> r.meta is Some
            &&& r.meta matches Some(x) ==> m["meta"@] == json(x)
        }),
{
    reveal_strlit("$seq");
    reveal_strlit("$ts");
    reveal_strlit("$node");
    reveal_strlit("$tag");
    reveal_strlit("data");
    reveal_strlit("meta");
    assert("$seq"@[1] == 's' && "$tag"@[1] == 't');
    assert("$seq"@[0] == '$' && "$tag"@[0] == '$' && "data"@[0] == 'd' && "meta"@[0] == 'm');
    assert("$ts"@.len() == 3 && "$node"@.len() == 5);
}

/// A session is opened to whoever presents no key, or its own; one that is bound to no
/// key, to everybody.
pub proof fn law_a_session_admits_its_own(session: Session, key: &str)
    ensures
        session.admits(None),
        session.principal is None ==> session.admits(Some(key)),
        session.principal matches Some(p) ==> (session.admits(Some(key)) <==> p@ == key@),
{
}

/// Moving the cursors of a session changes nothing else: not what it asks for, not whom
/// it is bound to, and no other session.
pub proof fn law_moving_touches_the_cursors_only(
    before: SessionStore,
    wid: Seq<char>,
    cursors: Map<Seq<char>, u64>,
    after: SessionStore,
    other: Seq<char>,
)
    requires
        before.entries().contains_key(wid),
        before.moved_to(wid, cursors, after),
    ensures
        after.entries().contains_key(wid),
        after.entries()[wid].cursors@ == cursors,
        after.entries()[wid].req == before.entries()[wid].req,
        after.entries()[wid].principal == before.entries()[wid].principal,
        after.entries().contains_key(other) <==> before.entries().contains_key(other),
        other != wid && before.entries().contains_key(other) ==> after.entries()[other]
            == before.entries()[other],
{
}

/// A heartbeat comes every minute at least, and every second at most.
pub proof fn law_heartbeats_come_in_time(ms: u64)
    ensures
        ({
            let held = clamped(ms, MIN_HEARTBEAT_MS, MAX_HEARTBEAT_MS);
            &&& 1000 <= held <= 60_000
            &&& 1000 <= ms <= 60_000 ==> held == ms
            &&& ms < 1000 ==> held == 1000
            &&& ms > 60_000 ==> held == 60_000
        }),
{
}

/// A stream begins at the first of its boxes, with all of them there, none read, and the
/// watcher caught up with none.
pub proof fn law_a_stream_begins_at_the_first(names: Seq<Seq<char>>, i: int)
    ensures
        stream_of(names).at == 0,
        stream_of(names).boxes.len() == names.len(),
        0 <= i < names.len() ==> {
            let w = stream_of(names).boxes[i];
            w.name == names[i] && !w.deleted && !w.caught_up && w.first_read
        },
{
}

/// An event is sent with what it holds, member by member; that a box is gone, with no
/// head. Records are sent as frames of their own.
pub proof fn law_events_are_sent_with_what_they_hold(f: FrameView)
    ensures
        f matches FrameView::Tombstone {
            box_name,
            reason,
            gap_from,
            gap_to,
            earliest_seq,
            head_seq,
            ..
        } ==> (event_json(f) matches Some(Json::Object(m)) && {
            &&& m.contains_key("box"@) && m["box"@] == Json::Str(box_name)
            &&& m.contains_key("reason"@) && m["reason"@] == Json::Str(reason.spec_wire())
            &&& m.contains_key("gap_from"@) && m["gap_from"@] == Json::Int(gap_from as int)
            &&& m.contains_key("gap_to"@) && m["gap_to"@] == Json::Int(gap_to as int)
            &&& m.contains_key("earliest_seq"@) && m["earliest_seq"@] == Json::Int(
                earliest_seq as int,
            )
            &&& m.contains_key("head_seq"@) && m["head_seq"@] == Json::Int(head_seq as int)
        }),
        f matches FrameView::CaughtUp { box_name, head_seq, .. } ==> (event_json(
            f,
        ) matches Some(Json::Object(m)) && {
            &&& m.contains_key("box"@) && m["box"@] == Json::Str(box_name)
            &&& m.contains_key("head_seq"@) && m["head_seq"@] == Json::Int(head_seq as int)
        }),
        f matches FrameView::BoxDeleted { box_name, .. } ==> (event_json(
            f,
        ) matches Some(Json::Object(m)) && {
            &&& m.contains_key("box"@) && m["box"@] == Json::Str(box_name)
            &&& m.contains_key("head_seq"@) && m["head_seq"@] == Json::Int(0)
            &&& m.contains_key("reason"@) && m["reason"@] == Json::Str("deleted"@)
        }),
        event_json(f) is None <==> f is Retry || f is Record,
        event_name_of(f) is None <==> f is Retry,
{
    reveal_strlit("box");
    reveal_strlit("reason");
    reveal_strlit("gap_from");
    reveal_strlit("gap_to");
    reveal_strlit("earliest_seq");
    reveal_strlit("head_seq");
    assert("reason"@[0] == 'r' && "gap_to"@[0] == 'g' && "gap_from"@[0] == 'g' && "head_seq"@[0]
        == 'h');
    assert("box"@.len() == 3 && "reason"@.len() == 6 && "gap_to"@.len() == 6 && "gap_from"@.len() == 8
        && "head_seq"@.len() == 8 && "earliest_seq"@.len() == 12);
}

/// Watchers of one projection read the same of a record, whoever came first: where two
/// of them get its frame one after the other, it is one frame.
pub proof fn law_watchers_share_their_frames(
    states: Seq<CacheState>,
    records: Seq<RecordOut>,
    variant: FrameVariant,
    frames: Seq<Arc<RawValue>>,
    i: int,
)
    requires
        framed_in_turn(states, records, variant, frames),
        0 <= i < records.len(),
    ensures
        frames.len() == records.len(),
        states[i].lookup(records[i].seq, variant.bits as int) matches Some(kept) ==> frames[i] == kept
            && states[i + 1] == states[i],
        states[i].lookup(records[i].seq, variant.bits as int) is None ==> raw_text(&*frames[i])
            == frame_text(records[i], variant.include_data),
{
    assert(framed(
        states[i],
        states[i + 1],
        records[i].seq,
        records[i],
        variant,
        frames[i],
    ));
}

/// The events that a read hands out say of the box, member by member, what the read
/// gave: the loss first, then the records, then that the watcher has caught up; each
/// with the id of the cursors that it leaves.
pub proof fn law_what_is_handed_out_is_what_was_read(
    frames: Seq<WatchFrame>,
    cursors: Map<Seq<char>, u64>,
    w: BoxView,
    from_seq: u64,
    d: DiffResponse,
)
    requires
        frame_views(frames) == frames_of(cursors, w, from_seq, ReadOutcome::Read(d)),
    ensures
        ({
            let a: int = if d.tombstone is Some {
                1
            } else {
                0
            };
            let b: int = if d.records@.len() > 0 {
                a + 1
            } else {
                a
            };
            let told = d.caught_up && (b > 0 || !w.caught_up);
            let end = if b == a && a > 0 {
                (d.tombstone->0).gap_to
            } else {
                d.next_from_seq
            };
            &&& frames.len() == (if told {
                b + 1
            } else {
                b
            })
            &&& a > 0 ==> {
                let t = d.tombstone->0;
                &&& frames[0] matches WatchFrame::Tombstone {
                    id,
                    box_name,
                    reason,
                    gap_from,
                    gap_to,
                    earliest_seq,
                    head_seq,
                }
                &&& id@ == cursor_id(cursors.insert(w.name, t.gap_to))
                &&& box_name@ == w.name
                &&& w.first_read ==> reason == TombstoneReason::FromSeqTooOld
                &&& !w.first_read ==> reason == t.reason
                &&& gap_from == t.gap_from
                &&& gap_to == t.gap_to
                &&& earliest_seq == t.earliest_seq
                &&& head_seq == t.head_seq
            }
            &&& b > a ==> {
                &&& frames[a] matches WatchFrame::Record {
                    id,
                    box_name,
                    from_seq: began,
                    to_seq,
                    head_seq,
                    records,
                }
                &&& id@ == cursor_id(cursors.insert(w.name, end))
                &&& box_name@ == w.name
                &&& began == from_seq
                &&& to_seq == d.next_from_seq
                &&& head_seq == d.head_seq
                &&& records@ == d.records@
            }
            &&& told ==> {
                &&& frames[b] matches WatchFrame::CaughtUp { id, box_name, head_seq }
                &&& id@ == cursor_id(cursors.insert(w.name, end))
                &&& box_name@ == w.name
                &&& head_seq == d.head_seq
            }
        }),
{
    let views = frame_views(frames);
    assert(views.len() == frames.len());
    assert(forall|i: int| 0 <= i < frames.len() ==> views[i] == (#[trigger] frames[i])@);
    law_a_read_is_sent_whole(cursors, w, from_seq, ReadOutcome::Read(d));
    assert forall|i: int| 0 <= i < frames.len() implies frame_id(#[trigger] frames[i]@) == cursor_id(
        if frames[i]@ is Tombstone {
            cursors.insert(w.name, (d.tombstone->0).gap_to)
        } else {
            cursors_after(cursors, w.name, ReadOutcome::Read(d))
        },
    ) by {
        assert(views[i] == frames[i]@);
        law_ids_say_where_to_go_on(cursors, w, from_seq, d, i);
    }
    if d.tombstone is Some && d.records@.len() > 0 {
        assert(cursors.insert(w.name, (d.tombstone->0).gap_to).insert(w.name, d.next_from_seq)
            =~= cursors.insert(w.name, d.next_from_seq));
    }
}

/// A stream is seen as it is: each of its boxes, and its position.
pub proof fn law_a_stream_is_seen_as_it_is(stream: WatchStream, i: int)
    ensures
        stream@.at == stream.at,
        stream@.boxes.len() == stream.boxes@.len(),
        0 <= i < stream.boxes@.len() ==> {
            let w = stream@.boxes[i];
            &&& w.name == stream.boxes@[i].name@
            &&& w.deleted == stream.boxes@[i].deleted
            &&& w.caught_up == stream.boxes@[i].caught_up
            &&& w.first_read == stream.boxes@[i].first_read
        },
{
}

}
