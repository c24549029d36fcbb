//! The WebSocket data plane: one socket on which topics are subscribed to,
//! unsubscribed from and published to, in any order.

use crate::auth::{Principal, Scope};
use crate::config::DEFAULT_MAX_BATCH_BYTES;
use crate::engine::box_state::BoxState;
use crate::engine::broadcast::FrameVariant;
use crate::engine::read::{
    is_read, law_a_response_leaves_nothing_out, law_a_response_says_how_far_it_got, nothing_expired,
};
use crate::error::{Error, Result};
use crate::json::{
    array_of_numbers, array_of_strings, json, json_numbers, json_opt, json_or_null, json_texts, Json,
    ObjectBuilder,
};
use crate::name_map::{lemma_position, lemma_push_contains, NameMap};
use crate::text::concat2;
use crate::types::{
    copy_filter, filter_nodes, BoxConfig, DiffRequest, DiffResponse, ErrorCode, NodeFilter, RecordIn, Tombstone,
    WatchBoxOptions, WatchBoxState, WriteRequest, WriteResponse,
};
use serde_json::value::RawValue;
use serde_json::Value;
use std::sync::Arc;
use vstd::prelude::*;

verus! {

/// Messages queued for one client before its reader is held back.
pub const WS_OUTBOUND_CHANNEL_CAP: usize = 4;

/// One subscription of a socket.
#[derive(Debug)]
pub struct WsSub {
    pub cursor: u64,
    pub node: Option<NodeFilter>,
    pub limit: u32,
    pub max_batch_bytes: u64,
    pub include_data: bool,
    pub include_tags: bool,
    pub include_meta: bool,
    /// The client was told that it has caught up, and nothing came since.
    pub caught_up: bool,
}

/// The subscriptions of a socket, by topic.
pub type SubTable = NameMap<WsSub>;

/// A command of a client.
#[allow(inconsistent_fields)]
#[derive(Debug)]
pub enum WsCommand {
    Subscribe {
        request_id: Option<Value>,
        topic: Option<String>,
        topics: NameMap<WatchBoxOptions>,
        from_seq: u64,
        tail: bool,
        node: Option<NodeFilter>,
        limit: u32,
        max_batch_bytes: u64,
        include_data: bool,
        include_tags: bool,
        include_meta: bool,
        lenient: bool,
    },
    Unsubscribe { request_id: Option<Value>, topic: Option<String>, topics: Vec<String> },
    Publish {
        request_id: Option<Value>,
        topic: String,
        records: Vec<RecordIn>,
        node: Option<String>,
        idempotency_key: Option<String>,
        create: Option<bool>,
        config: Option<BoxConfig>,
        disable_backpressure: bool,
        return_seqs: bool,
    },
    Ping { request_id: Option<Value> },
}

/// A publish asks for the seqs unless it says otherwise.
pub fn default_return_seqs() -> (r: bool)
    ensures
        r,
{
    true
}

/// A flag that is on unless a command says otherwise.
pub fn default_true() -> (r: bool)
    ensures
        r,
{
    true
}

/// Records in one delivery unless a command says otherwise.
pub fn default_ws_limit() -> (r: u32)
    ensures
        r == 1000,
{
    1000
}

/// Bytes in one delivery unless a command says otherwise.
pub fn default_ws_max_batch_bytes() -> (r: u64)
    ensures
        r == DEFAULT_MAX_BATCH_BYTES,
{
    DEFAULT_MAX_BATCH_BYTES
}

// ---------------------------------------------------------------------------
// Replies
// ---------------------------------------------------------------------------

/// The document of an error reply.
pub open spec fn error_json(request_id: Option<Value>, code: Seq<char>, message: Seq<char>) -> Json {
    Json::Object(
        map![
            "op"@ => Json::Str("error"@),
            "request_id"@ => json_or_null(request_id),
            "code"@ => Json::Str(code),
            "message"@ => Json::Str(message),
        ],
    )
}

/// An error reply to a command.
pub fn error_reply(request_id: &Option<Value>, code: &str, message: &str) -> (v: Value)
    ensures
        json(v) == error_json(*request_id, code@, message@),
{
    let mut obj = ObjectBuilder::new();
    obj.put_str("op", "error");
    obj.put_or_null("request_id", request_id);
    obj.put_str("code", code);
    obj.put_str("message", message);
    obj.finish()
}

/// The reply to a text that is no command; `what` is what the parser said.
pub fn invalid_json_reply(what: &str) -> (v: Value)
    ensures
        json(v) == error_json(None, "invalid_json"@, "invalid command JSON: "@ + what@),
{
    let message = concat2("invalid command JSON: ", what);
    error_reply(&None, "invalid_json", message.as_str())
}

/// An error that answers no command.
pub open spec fn notice_json(code: Seq<char>, message: Seq<char>) -> Json {
    Json::Object(
        map![
            "op"@ => Json::Str("error"@),
            "code"@ => Json::Str(code),
            "message"@ => Json::Str(message),
        ],
    )
}

fn notice(code: &str, message: &str) -> (v: Value)
    ensures
        json(v) == notice_json(code@, message@),
{
    let mut obj = ObjectBuilder::new();
    obj.put_str("op", "error");
    obj.put_str("code", code);
    obj.put_str("message", message);
    obj.finish()
}

/// What a client is told when the server goes down.
pub fn shutting_down_notice() -> (v: Value)
    ensures
        json(v) == notice_json(
            "server_shutting_down"@,
            "server is shutting down; reconnect"@,
        ),
{
    notice("server_shutting_down", "server is shutting down; reconnect")
}

/// The answer to a client that has too many sockets open.
pub fn too_many_connections(retry_after_s: u64) -> (e: Error)
    ensures
        e.code == ErrorCode::Throttled,
        e.message@ == "too many concurrent WebSocket connections"@,
        e.detail is None,
        e.retry_after_s == Some(retry_after_s),
{
    Error::new(
        ErrorCode::Throttled,
        "too many concurrent WebSocket connections",
    ).with_retry_after(retry_after_s)
}

/// The document of a topic that was subscribed to.
pub open spec fn state_json(s: WatchBoxState) -> Json {
    Json::Object(
        map![
            "from_seq"@ => Json::Int(s.from_seq as int),
            "head_seq"@ => Json::Int(s.head_seq as int),
            "earliest_seq"@ => Json::Int(s.earliest_seq as int),
        ],
    )
}

fn state_value(s: &WatchBoxState) -> (v: Value)
    ensures
        json(v) == state_json(*s),
{
    let mut obj = ObjectBuilder::new();
    obj.put_u64("from_seq", s.from_seq);
    obj.put_u64("head_seq", s.head_seq);
    obj.put_u64("earliest_seq", s.earliest_seq);
    obj.finish()
}

/// The document of the topics that were subscribed to.
pub open spec fn states_json(states: Map<Seq<char>, WatchBoxState>) -> Json {
    Json::Object(states.map_values(|s: WatchBoxState| state_json(s)))
}

fn states_value(states: &NameMap<WatchBoxState>) -> (v: Value)
    requires
        states.wf(),
    ensures
        json(v) == states_json(states@),
{
    let mut obj = ObjectBuilder::new();
    let ghost names = states.names();
    let mut i: usize = 0;
    while i < states.entries.len()
        invariant
            i <= states.entries@.len(),
            states.wf(),
            names == states.names(),
            forall|n: Seq<char>| #[trigger] obj.doc().contains_key(n) <==> names.take(i as int).contains(n),
            forall|n: Seq<char>| #[trigger]
                obj.doc().contains_key(n) ==> obj.doc()[n] == state_json(states@[n]),
        decreases states.entries@.len() - i,
    {
        proof {
            lemma_position(*states, i as int);
            assert(names.take(i + 1) =~= names.take(i as int).push(names[i as int]));
        }
        let ghost before = obj.doc();
        obj.put(states.entries[i].0.as_str(), state_value(&states.entries[i].1));
        proof {
            let prev = names.take(i as int);
            let name = names[i as int];
            lemma_push_contains(prev, name);
            assert forall|n: Seq<char>| #[trigger] obj.doc().contains_key(n) <==> names.take(
                i + 1,
            ).contains(n) by {
                assert(before.contains_key(n) <==> prev.contains(n));
            }
        }
        i += 1;
    }
    proof {
        assert(names.take(i as int) =~= names);
        assert(obj.doc() =~= states@.map_values(|s: WatchBoxState| state_json(s)));
    }
    obj.finish()
}

/// The document of the reply to a subscribe.
pub open spec fn subscribed_json(
    request_id: Option<Value>,
    states: Map<Seq<char>, WatchBoxState>,
) -> Json {
    Json::Object(
        map![
            "op"@ => Json::Str("subscribed"@),
            "request_id"@ => json_or_null(request_id),
            "topics"@ => states_json(states),
        ],
    )
}

/// The document of the reply to an unsubscribe.
pub open spec fn unsubscribed_json(request_id: Option<Value>, topics: Seq<Seq<char>>) -> Json {
    Json::Object(
        map![
            "op"@ => Json::Str("unsubscribed"@),
            "request_id"@ => json_or_null(request_id),
            "topics"@ => json_texts(topics),
        ],
    )
}

/// The document of the reply to a publish.
pub open spec fn ack_json(request_id: Option<Value>, topic: Seq<char>, resp: WriteResponse) -> Json {
    Json::Object(
        map![
            "op"@ => Json::Str("ack"@),
            "request_id"@ => json_or_null(request_id),
            "topic"@ => Json::Str(topic),
            "first_seq"@ => Json::Int(resp.first_seq as int),
            "last_seq"@ => Json::Int(resp.last_seq as int),
            "seqs"@ => match resp.seqs {
                Some(seqs) => json_numbers(seqs@),
                None => Json::Null,
            },
            "head_seq"@ => Json::Int(resp.head_seq as int),
            "count"@ => Json::Int(resp.count as int),
            "created"@ => Json::Bool(resp.created),
            "deduped"@ => Json::Bool(resp.deduped),
            "performance"@ => json(resp.performance),
        ],
    )
}

/// The document of the reply to a ping.
pub open spec fn pong_json(request_id: Option<Value>) -> Json {
    Json::Object(map!["op"@ => Json::Str("pong"@), "request_id"@ => json_or_null(request_id)])
}

fn pong(request_id: &Option<Value>) -> (v: Value)
    ensures
        json(v) == pong_json(*request_id),
{
    let mut obj = ObjectBuilder::new();
    obj.put_str("op", "pong");
    obj.put_or_null("request_id", request_id);
    obj.finish()
}

fn ack(request_id: &Option<Value>, topic: &str, resp: &WriteResponse) -> (v: Value)
    ensures
        json(v) == ack_json(*request_id, topic@, *resp),
{
    let mut obj = ObjectBuilder::new();
    obj.put_str("op", "ack");
    obj.put_or_null("request_id", request_id);
    obj.put_str("topic", topic);
    obj.put_u64("first_seq", resp.first_seq);
    obj.put_u64("last_seq", resp.last_seq);
    let seqs = match &resp.seqs {
        Some(s) => Some(array_of_numbers(s)),
        None => None,
    };
    obj.put_or_null("seqs", &seqs);
    obj.put_u64("head_seq", resp.head_seq);
    obj.put_u64("count", resp.count);
    obj.put_bool("created", resp.created);
    obj.put_bool("deduped", resp.deduped);
    obj.put("performance", resp.performance.clone());
    obj.finish()
}

// ---------------------------------------------------------------------------
// Commands
// ---------------------------------------------------------------------------

/// What a command comes to before the engine is asked.
#[allow(inconsistent_fields)]
#[derive(Debug)]
pub enum WsPlan {
    /// The command is answered.
    Reply(Value),
    /// Resolve the topics, then hand the outcome to [`finish_subscribe`]; `sub`
    /// is what every subscription starts as.
    Subscribe {
        request_id: Option<Value>,
        topics: NameMap<WatchBoxOptions>,
        lenient: bool,
        sub: WsSub,
    },
    /// Drop the topics with [`unsubscribe`].
    Unsubscribe { request_id: Option<Value>, topics: Vec<String> },
    /// Write the records, then hand the outcome to [`finish_publish`].
    Write { request_id: Option<Value>, topic: String, req: WriteRequest, return_seqs: bool },
}

/// The topics a subscribe asks for: the map, and the single topic where the map
/// does not have it.
pub open spec fn wanted_topics(
    topic: Option<String>,
    topics: Map<Seq<char>, WatchBoxOptions>,
    from_seq: u64,
    tail: bool,
) -> Map<Seq<char>, WatchBoxOptions> {
    match topic {
        Some(t) => if topics.contains_key(t@) {
            topics
        } else {
            topics.insert(t@, WatchBoxOptions { from_seq, tail })
        },
        None => topics,
    }
}

/// The topics an unsubscribe asks for.
pub open spec fn dropped_topics(topic: Option<String>, topics: Seq<String>) -> Seq<Seq<char>> {
    let listed = topics.map_values(|s: String| s@);
    match topic {
        Some(t) => listed.push(t@),
        None => listed,
    }
}

impl WsCommand {
    /// The topics of a subscribe are in order.
    pub open spec fn wf(self) -> bool {
        self matches WsCommand::Subscribe { topics, .. } ==> topics.wf()
    }

    /// The id the client gave the command.
    pub open spec fn id(self) -> Option<Value> {
        match self {
            WsCommand::Subscribe { request_id, .. } => request_id,
            WsCommand::Unsubscribe { request_id, .. } => request_id,
            WsCommand::Publish { request_id, .. } => request_id,
            WsCommand::Ping { request_id } => request_id,
        }
    }

    /// Why a command is refused, by the code and the message it is refused
    /// with.
    pub open spec fn refusal(self, p: Principal) -> Option<(Seq<char>, Seq<char>)> {
        match self {
            WsCommand::Subscribe { topic, topics, from_seq, tail, .. } => {
                let wanted = wanted_topics(topic, topics@, from_seq, tail);
                if !p.holds(Scope::Read) {
                    Some(("forbidden"@, "api key lacks read scope"@))
                } else if wanted.dom() =~= Set::empty() {
                    Some(("invalid_request"@, "subscribe requires topic or topics"@))
                } else if exists|n: Seq<char>| #[trigger] wanted.contains_key(n) && !p.reaches(n) {
                    Some(("forbidden"@, "api key is not allowed to access this topic name"@))
                } else {
                    None
                }
            },
            WsCommand::Unsubscribe { topic, topics, .. } => if dropped_topics(
                topic,
                topics@,
            ).len() == 0 {
                Some(("invalid_request"@, "unsubscribe requires topic or topics"@))
            } else {
                None
            },
            WsCommand::Publish { topic, config, .. } => if !p.holds(Scope::Write) {
                Some(("forbidden"@, "api key lacks write scope"@))
            } else if config is Some && !p.holds(Scope::Admin) {
                Some(
                    ("forbidden"@, "configuring a new topic on publish requires admin scope"@),
                )
            } else if !p.reaches(topic@) {
                Some(("forbidden"@, "api key is not allowed to access this topic name"@))
            } else {
                None
            },
            WsCommand::Ping { .. } => None,
        }
    }

    /// The plan carries out a command that is not refused.
    pub open spec fn is_planned_as(self, plan: WsPlan) -> bool {
        match self {
            WsCommand::Subscribe {
                request_id,
                topic,
                topics,
                from_seq,
                tail,
                node,
                limit,
                max_batch_bytes,
                include_data,
                include_tags,
                include_meta,
                lenient,
            } => plan matches WsPlan::Subscribe {
                request_id: id,
                topics: wanted,
                lenient: l,
                sub,
            } && {
                &&& id == request_id
                &&& wanted.wf()
                &&& wanted@ == wanted_topics(topic, topics@, from_seq, tail)
                &&& l == lenient
                &&& sub == (WsSub {
                    cursor: 0,
                    node,
                    limit,
                    max_batch_bytes,
                    include_data,
                    include_tags,
                    include_meta,
                    caught_up: false,
                })
            },
            WsCommand::Unsubscribe { request_id, topic, topics } => plan matches WsPlan::Unsubscribe {
                request_id: id,
                topics: dropped,
            } && id == request_id && dropped@.map_values(|s: String| s@) == dropped_topics(
                topic,
                topics@,
            ),
            WsCommand::Publish {
                request_id,
                topic,
                records,
                node,
                idempotency_key,
                create,
                config,
                disable_backpressure,
                return_seqs,
            } => plan == (WsPlan::Write {
                request_id,
                topic,
                req: WriteRequest {
                    records,
                    node,
                    idempotency_key,
                    create,
                    config,
                    disable_backpressure,
                },
                return_seqs,
            }),
            WsCommand::Ping { request_id } => plan matches WsPlan::Reply(v) && json(v) == pong_json(
                request_id,
            ),
        }
    }
}

/// Whether a key reaches every topic of a map.
fn reaches_all(p: &Principal, topics: &NameMap<WatchBoxOptions>) -> (r: bool)
    requires
        topics.wf(),
    ensures
        r == !(exists|n: Seq<char>| #[trigger] topics@.contains_key(n) && !p.reaches(n)),
{
    let mut i: usize = 0;
    while i < topics.entries.len()
        invariant
            i <= topics.entries@.len(),
            topics.wf(),
            forall|j: int| 0 <= j < i ==> p.reaches(#[trigger] topics.names()[j]),
        decreases topics.entries@.len() - i,
    {
        proof {
            lemma_position(*topics, i as int);
        }
        if !p.allows_name(topics.entries[i].0.as_str()) {
            assert(topics@.contains_key(topics.names()[i as int]));
            return false;
        }
        i += 1;
    }
    proof {
        assert forall|n: Seq<char>| #[trigger] topics@.contains_key(n) implies p.reaches(n) by {
            let k = topics.names().index_of(n);
            assert(topics.names()[k] == n);
        }
    }
    true
}

/// Decides on a command before the engine is asked.
pub fn plan_command(p: &Principal, cmd: WsCommand) -> (plan: WsPlan)
    requires
        cmd.wf(),
    ensures
        match cmd.refusal(*p) {
            Some((code, message)) => plan matches WsPlan::Reply(v) && json(v) == error_json(
                cmd.id(),
                code,
                message,
            ),
            None => cmd.is_planned_as(plan),
        },
        plan matches WsPlan::Write { request_id, topic, req, return_seqs } ==> {
            &&& cmd matches WsCommand::Publish {
                request_id: id,
                topic: to,
                records,
                node,
                idempotency_key,
                create,
                config,
                disable_backpressure,
                return_seqs: with_seqs,
            }
            &&& request_id == id
            &&& topic == to
            &&& req.records == records
            &&& req.node == node
            &&& req.idempotency_key == idempotency_key
            &&& req.create == create
            &&& req.config == config
            &&& req.disable_backpressure == disable_backpressure
            &&& return_seqs == with_seqs
        },
{
    match cmd {
        WsCommand::Subscribe {
            request_id,
            topic,
            topics,
            from_seq,
            tail,
            node,
            limit,
            max_batch_bytes,
            include_data,
            include_tags,
            include_meta,
            lenient,
        } => {
            if !p.allows_scope(Scope::Read) {
                return WsPlan::Reply(
                    error_reply(&request_id, "forbidden", "api key lacks read scope"),
                );
            }
            let mut topics = topics;
            let ghost listed = topics@;
            if let Some(t) = topic {
                if !topics.contains_key(t.as_str()) {
                    topics.insert(t, WatchBoxOptions { from_seq, tail });
                }
            }
            proof {
                assert(topics@ == wanted_topics(topic, listed, from_seq, tail));
                if topics.names().len() == 0 {
                    assert(topics@.dom() =~= Set::<Seq<char>>::empty());
                } else {
                    lemma_position(topics, 0);
                    assert(topics@.dom().contains(topics.names()[0]));
                }
            }
            if topics.is_empty() {
                return WsPlan::Reply(
                    error_reply(
                        &request_id,
                        "invalid_request",
                        "subscribe requires topic or topics",
                    ),
                );
            }
            if !reaches_all(p, &topics) {
                return WsPlan::Reply(
                    error_reply(
                        &request_id,
                        "forbidden",
                        "api key is not allowed to access this topic name",
                    ),
                );
            }
            WsPlan::Subscribe {
                request_id,
                topics,
                lenient,
                sub: WsSub {
                    cursor: 0,
                    node,
                    limit,
                    max_batch_bytes,
                    include_data,
                    include_tags,
                    include_meta,
                    caught_up: false,
                },
            }
        },
        WsCommand::Unsubscribe { request_id, topic, topics } => {
            let mut topics = topics;
            let ghost listed = topics@;
            if let Some(t) = topic {
                topics.push(t);
            }
            assert(topics@.map_values(|s: String| s@) =~= dropped_topics(topic, listed));
            if topics.len() == 0 {
                return WsPlan::Reply(
                    error_reply(
                        &request_id,
                        "invalid_request",
                        "unsubscribe requires topic or topics",
                    ),
                );
            }
            WsPlan::Unsubscribe { request_id, topics }
        },
        WsCommand::Publish {
            request_id,
            topic,
            records,
            node,
            idempotency_key,
            create,
            config,
            disable_backpressure,
            return_seqs,
        } => {
            if !p.allows_scope(Scope::Write) {
                return WsPlan::Reply(
                    error_reply(&request_id, "forbidden", "api key lacks write scope"),
                );
            }
            if config.is_some() && !p.allows_scope(Scope::Admin) {
                return WsPlan::Reply(
                    error_reply(
                        &request_id,
                        "forbidden",
                        "configuring a new topic on publish requires admin scope",
                    ),
                );
            }
            if !p.allows_name(topic.as_str()) {
                return WsPlan::Reply(
                    error_reply(
                        &request_id,
                        "forbidden",
                        "api key is not allowed to access this topic name",
                    ),
                );
            }
            WsPlan::Write {
                request_id,
                topic,
                req: WriteRequest {
                    records,
                    node,
                    idempotency_key,
                    create,
                    config,
                    disable_backpressure,
                },
                return_seqs,
            }
        },
        WsCommand::Ping { request_id } => WsPlan::Reply(pong(&request_id)),
    }
}

/// A subscription that starts as `template` at a cursor.
pub open spec fn starts_at(s: WsSub, template: WsSub, cursor: u64) -> bool {
    &&& filter_nodes(s.node) == filter_nodes(template.node)
    &&& s == (WsSub { cursor, node: s.node, caught_up: false, ..template })
}

/// Subscribes to the topics that were resolved, each from its resolved
/// position, in place of what the socket had for them; or says why they were
/// not.
pub fn finish_subscribe(
    subs: &mut SubTable,
    request_id: &Option<Value>,
    template: &WsSub,
    resolved: Result<NameMap<WatchBoxState>>,
) -> (v: Value)
    requires
        old(subs).wf(),
        resolved matches Ok(states) ==> states.wf(),
    ensures
        final(subs).wf(),
        match resolved {
            Ok(states) => {
                &&& json(v) == subscribed_json(*request_id, states@)
                &&& final(subs)@.dom() == old(subs)@.dom().union(states@.dom())
                &&& forall|n: Seq<char>| #[trigger]
                    states@.contains_key(n) ==> starts_at(
                        final(subs)@[n],
                        *template,
                        states@[n].from_seq,
                    )
                &&& forall|n: Seq<char>| #[trigger]
                    old(subs)@.contains_key(n) && !states@.contains_key(n) ==> final(subs)@[n]
                        == old(subs)@[n]
            },
            Err(e) => {
                &&& json(v) == error_json(*request_id, e.code.spec_code(), e.message@)
                &&& *final(subs) == *old(subs)
            },
        },
{
    match resolved {
        Ok(states) => {
            let ghost was = subs@;
            let ghost names = states.names();
            let mut i: usize = 0;
            assert(names.take(0).len() == 0);
            while i < states.entries.len()
                invariant
                    i <= states.entries@.len(),
                    states.wf(),
                    subs.wf(),
                    was == old(subs)@,
                    names == states.names(),
                    forall|n: Seq<char>| #[trigger]
                        subs@.contains_key(n) <==> was.contains_key(n) || names.take(
                            i as int,
                        ).contains(n),
                    forall|n: Seq<char>|
                        #![trigger subs@[n]]
                        names.take(i as int).contains(n) ==> starts_at(
                            subs@[n],
                            *template,
                            states@[n].from_seq,
                        ),
                    forall|n: Seq<char>|
                        #![trigger subs@[n]]
                        was.contains_key(n) && !names.take(i as int).contains(n) ==> subs@[n]
                            == was[n],
                decreases states.entries@.len() - i,
            {
                let ghost name = names[i as int];
                let ghost prev = names.take(i as int);
                let ghost before = subs@;
                proof {
                    lemma_position(states, i as int);
                    assert(names.take(i + 1) =~= prev.push(name));
                }
                let sub = WsSub {
                    cursor: states.entries[i].1.from_seq,
                    node: copy_filter(&template.node),
                    limit: template.limit,
                    max_batch_bytes: template.max_batch_bytes,
                    include_data: template.include_data,
                    include_tags: template.include_tags,
                    include_meta: template.include_meta,
                    caught_up: false,
                };
                subs.insert(states.entries[i].0.clone(), sub);
                proof {
                    lemma_push_contains(prev, name);
                    assert forall|n: Seq<char>| #[trigger]
                        subs@.contains_key(n) <==> was.contains_key(n) || names.take(
                        i + 1,
                    ).contains(n) by {
                        assert(before.contains_key(n) <==> was.contains_key(n) || prev.contains(n));
                    }
                    assert(starts_at(sub, *template, states@[name].from_seq));
                    assert forall|n: Seq<char>|
                        #![trigger subs@[n]]
                        names.take(i + 1).contains(n) implies starts_at(
                        subs@[n],
                        *template,
                        states@[n].from_seq,
                    ) by {
                        if n != name {
                            assert(subs@[n] == before[n]);
                        }
                    }
                    assert forall|n: Seq<char>|
                        #![trigger subs@[n]]
                        was.contains_key(n) && !names.take(i + 1).contains(n) implies subs@[n]
                        == was[n] by {
                        assert(subs@[n] == before[n]);
                    }
                }
                i += 1;
            }
            proof {
                assert(names.take(i as int) =~= names);
                assert forall|n: Seq<char>| #[trigger] states@.contains_key(n) <==> names.contains(n) by {}
                assert(subs@.dom() =~= was.dom().union(states@.dom()));
                assert forall|n: Seq<char>| #[trigger] states@.contains_key(n) implies starts_at(
                    subs@[n],
                    *template,
                    states@[n].from_seq,
                ) by {
                    let s = subs@[n];
                }
                assert forall|n: Seq<char>| #[trigger]
                    was.contains_key(n) && !states@.contains_key(n) implies subs@[n] == was[n] by {
                    let s = subs@[n];
                }
            }
            let mut obj = ObjectBuilder::new();
            obj.put_str("op", "subscribed");
            obj.put_or_null("request_id", request_id);
            obj.put("topics", states_value(&states));
            obj.finish()
        },
        Err(e) => error_reply(request_id, e.code.code(), e.message.as_str()),
    }
}

/// Drops the subscriptions to some topics.
pub fn unsubscribe(subs: &mut SubTable, request_id: &Option<Value>, topics: &Vec<String>) -> (v:
    Value)
    requires
        old(subs).wf(),
    ensures
        final(subs).wf(),
        json(v) == unsubscribed_json(*request_id, topics@.map_values(|s: String| s@)),
        final(subs)@ == old(subs)@.remove_keys(
            topics@.map_values(|s: String| s@).to_set(),
        ),
{
    let ghost names = topics@.map_values(|s: String| s@);
    let ghost was = subs@;
    let mut i: usize = 0;
    assert(names.take(0).to_set() =~= Set::empty());
    assert(subs@ =~= was.remove_keys(names.take(0).to_set()));
    while i < topics.len()
        invariant
            i <= topics@.len(),
            subs.wf(),
            names == topics@.map_values(|s: String| s@),
            subs@ == was.remove_keys(names.take(i as int).to_set()),
        decreases topics@.len() - i,
    {
        let ghost prev = names.take(i as int);
        subs.remove(topics[i].as_str());
        proof {
            let name = names[i as int];
            assert(names.take(i + 1) =~= prev.push(name));
            lemma_push_contains(prev, name);
            assert(prev.push(name).to_set() =~= prev.to_set().insert(name)) by {
                assert forall|n: Seq<char>| #[trigger]
                    prev.push(name).to_set().contains(n) <==> prev.to_set().insert(name).contains(
                    n,
                ) by {
                    assert(prev.push(name).contains(n) <==> n == name || prev.contains(n));
                }
            }
            assert(subs@ =~= was.remove_keys(names.take(i + 1).to_set()));
        }
        i += 1;
    }
    assert(names.take(i as int) =~= names);
    let mut obj = ObjectBuilder::new();
    obj.put_str("op", "unsubscribed");
    obj.put_or_null("request_id", request_id);
    obj.put("topics", array_of_strings(topics));
    obj.finish()
}

/// The reply to a publish, once the write was made or refused.
pub fn finish_publish(request_id: &Option<Value>, topic: &str, result: Result<WriteResponse>) -> (v:
    Value)
    ensures
        json(v) == match result {
            Ok(resp) => ack_json(*request_id, topic@, resp),
            Err(e) => error_json(*request_id, e.code.spec_code(), e.message@),
        },
{
    match result {
        Ok(resp) => ack(request_id, topic, &resp),
        Err(e) => error_reply(request_id, e.code.code(), e.message.as_str()),
    }
}

// ---------------------------------------------------------------------------
// Delivery
// ---------------------------------------------------------------------------

/// What reading a topic gave: its records as frames that are serialized already.
#[derive(Debug)]
pub struct WsDiff {
    pub records: Vec<Arc<RawValue>>,
    pub next_from_seq: u64,
    pub head_seq: u64,
    pub caught_up: bool,
    pub tombstone: Option<Tombstone>,
}

/// What came of reading a topic.
#[derive(Debug)]
pub enum WsOutcome {
    /// The topic is gone.
    Missing,
    Read(WsDiff),
}

/// A message that a subscription brings.
#[derive(Debug)]
pub enum WsFrame {
    TopicDeleted { topic: String },
    Tombstone { topic: String, tombstone: Tombstone },
    Record {
        topic: String,
        from_seq: u64,
        to_seq: u64,
        head_seq: u64,
        records: Vec<Arc<RawValue>>,
    },
    CaughtUp { topic: String, head_seq: u64 },
}

/// What a message holds.
#[verifier::ext_equal]
pub enum WsFrameView {
    TopicDeleted { topic: Seq<char> },
    Tombstone { topic: Seq<char>, tombstone: Tombstone },
    Record {
        topic: Seq<char>,
        from_seq: u64,
        to_seq: u64,
        head_seq: u64,
        records: Seq<Arc<RawValue>>,
    },
    CaughtUp { topic: Seq<char>, head_seq: u64 },
}

impl View for WsFrame {
    type V = WsFrameView;

    open spec fn view(&self) -> WsFrameView {
        match *self {
            WsFrame::TopicDeleted { topic } => WsFrameView::TopicDeleted { topic: topic@ },
            WsFrame::Tombstone { topic, tombstone } => WsFrameView::Tombstone {
                topic: topic@,
                tombstone,
            },
            WsFrame::Record { topic, from_seq, to_seq, head_seq, records } => WsFrameView::Record {
                topic: topic@,
                from_seq,
                to_seq,
                head_seq,
                records: records@,
            },
            WsFrame::CaughtUp { topic, head_seq } => WsFrameView::CaughtUp {
                topic: topic@,
                head_seq,
            },
        }
    }
}

/// What the messages hold, in order.
pub open spec fn ws_frame_views(frames: Seq<WsFrame>) -> Seq<WsFrameView> {
    frames.map_values(|f: WsFrame| f@)
}

/// The outcome brings the client something.
pub open spec fn ws_brings_news(d: WsDiff) -> bool {
    d.tombstone is Some || d.records@.len() > 0
}

/// A subscription once a read was delivered. The cursor goes to where the read
/// ended, past a gap that it named.
pub open spec fn sub_after(s: WsSub, d: WsDiff) -> WsSub {
    WsSub {
        cursor: d.next_from_seq,
        caught_up: d.caught_up || (s.caught_up && !ws_brings_news(d)),
        ..s
    }
}

/// The messages of an outcome: what was lost first, then the records, then that
/// the client has caught up, once for each time it does. `sub` is the
/// subscription, where the client has not dropped it meanwhile.
pub open spec fn ws_frames_of(
    sub: Option<WsSub>,
    topic: Seq<char>,
    from_seq: u64,
    outcome: WsOutcome,
) -> Seq<WsFrameView> {
    match outcome {
        WsOutcome::Missing => seq![WsFrameView::TopicDeleted { topic }],
        WsOutcome::Read(d) => {
            let lost = match d.tombstone {
                Some(tombstone) => seq![WsFrameView::Tombstone { topic, tombstone }],
                None => Seq::empty(),
            };
            let records = if d.records@.len() > 0 {
                seq![
                    WsFrameView::Record {
                        topic,
                        from_seq,
                        to_seq: d.next_from_seq,
                        head_seq: d.head_seq,
                        records: d.records@,
                    },
                ]
            } else {
                Seq::empty()
            };
            let caught_up = match sub {
                Some(s) if d.caught_up && (ws_brings_news(d) || !s.caught_up) => seq![
                    WsFrameView::CaughtUp { topic, head_seq: d.head_seq },
                ],
                _ => Seq::empty(),
            };
            lost + records + caught_up
        },
    }
}

/// The subscription to a topic.
pub open spec fn sub_of(subs: Map<Seq<char>, WsSub>, topic: Seq<char>) -> Option<WsSub> {
    if subs.contains_key(topic) {
        Some(subs[topic])
    } else {
        None
    }
}

/// The subscriptions once an outcome was delivered.
pub open spec fn subs_after(
    subs: Map<Seq<char>, WsSub>,
    topic: Seq<char>,
    outcome: WsOutcome,
) -> Map<Seq<char>, WsSub> {
    match outcome {
        WsOutcome::Missing => subs.remove(topic),
        WsOutcome::Read(d) => if subs.contains_key(topic) {
            subs.insert(topic, sub_after(subs[topic], d))
        } else {
            subs
        },
    }
}

/// The topic has nothing more to read in this pass.
pub open spec fn ws_pass_done(outcome: WsOutcome) -> bool {
    match outcome {
        WsOutcome::Missing => true,
        WsOutcome::Read(d) => d.caught_up,
    }
}

/// The read a subscription asks for next, and the most bytes of records it takes
/// at once.
pub fn next_read(subs: &SubTable, topic: &str) -> (r: Option<(DiffRequest, u64)>)
    requires
        subs.wf(),
    ensures
        r is Some == subs@.contains_key(topic@),
        r matches Some((req, max_batch_bytes)) ==> {
            let s = subs@[topic@];
            &&& req.from_seq == s.cursor
            &&& req.limit == s.limit
            &&& filter_nodes(req.node) == filter_nodes(s.node)
            &&& req.include_tags == s.include_tags
            &&& req.include_meta == s.include_meta
            &&& req.wait_ms == 0
            &&& max_batch_bytes == s.max_batch_bytes
        },
{
    match subs.get(topic) {
        Some(s) => Some(
            (
                DiffRequest {
                    from_seq: s.cursor,
                    limit: s.limit,
                    node: copy_filter(&s.node),
                    include_tags: s.include_tags,
                    include_meta: s.include_meta,
                    wait_ms: 0,
                },
                s.max_batch_bytes,
            ),
        ),
        None => None,
    }
}

/// Delivers what reading a topic from `from_seq` gave: the messages to send, and
/// whether the topic is done for this pass.
pub fn deliver(subs: &mut SubTable, topic: &str, from_seq: u64, outcome: WsOutcome) -> (r: (
    Vec<WsFrame>,
    bool,
))
    requires
        old(subs).wf(),
    ensures
        final(subs).wf(),
        final(subs)@ == subs_after(old(subs)@, topic@, outcome),
        ws_frame_views(r.0@) == ws_frames_of(sub_of(old(subs)@, topic@), topic@, from_seq, outcome),
        r.1 == ws_pass_done(outcome),
        outcome matches WsOutcome::Read(d) ==> {
            &&& final(subs)@.contains_key(topic@) <==> old(subs)@.contains_key(topic@)
            &&& final(subs)@.contains_key(topic@) ==> final(subs)@[topic@].cursor == d.next_from_seq
        },
{
    let mut frames: Vec<WsFrame> = Vec::new();
    match outcome {
        WsOutcome::Missing => {
            subs.remove(topic);
            frames.push(WsFrame::TopicDeleted { topic: topic.to_string() });
            assert(ws_frame_views(frames@) =~= ws_frames_of(
                sub_of(old(subs)@, topic@),
                topic@,
                from_seq,
                outcome,
            ));
            (frames, true)
        },
        WsOutcome::Read(d) => {
            let ghost sub = sub_of(old(subs)@, topic@);
            let WsDiff { records, next_from_seq, head_seq, caught_up, tombstone } = d;
            let news = tombstone.is_some() || records.len() > 0;
            if let Some(tombstone) = tombstone {
                frames.push(WsFrame::Tombstone { topic: topic.to_string(), tombstone });
            }
            if records.len() > 0 {
                frames.push(
                    WsFrame::Record {
                        topic: topic.to_string(),
                        from_seq,
                        to_seq: next_from_seq,
                        head_seq,
                        records,
                    },
                );
            }
            if let Some(s) = subs.remove(topic) {
                let told = s.caught_up && !news;
                if caught_up && !told {
                    frames.push(WsFrame::CaughtUp { topic: topic.to_string(), head_seq });
                }
                subs.insert(
                    topic.to_string(),
                    WsSub {
                        cursor: next_from_seq,
                        node: s.node,
                        limit: s.limit,
                        max_batch_bytes: s.max_batch_bytes,
                        include_data: s.include_data,
                        include_tags: s.include_tags,
                        include_meta: s.include_meta,
                        caught_up: caught_up || told,
                    },
                );
            }
            assert(subs@ =~= subs_after(old(subs)@, topic@, outcome));
            assert(ws_frame_views(frames@) =~= ws_frames_of(sub, topic@, from_seq, outcome));
            (frames, caught_up)
        },
    }
}

/// One pass over the subscriptions of a socket: each topic that was subscribed
/// to when the pass began is read until it has nothing more, in the projection
/// that was wanted then.
#[derive(Debug)]
pub struct DeliveryPass {
    pub topics: Vec<String>,
    pub variants: Vec<FrameVariant>,
    pub at: usize,
}

/// The first topic from a position on that is still subscribed to.
pub open spec fn next_subscribed(
    topics: Seq<String>,
    subs: Map<Seq<char>, WsSub>,
    at: int,
) -> int
    decreases topics.len() - at,
{
    if at >= topics.len() || subs.contains_key(topics[at]@) {
        at
    } else {
        next_subscribed(topics, subs, at + 1)
    }
}

impl DeliveryPass {
    /// The position is one of the topics', or the end, and each topic has its
    /// projection.
    pub open spec fn wf(self) -> bool {
        &&& self.at <= self.topics@.len()
        &&& self.variants@.len() == self.topics@.len()
        &&& forall|i: int| 0 <= i < self.variants@.len() ==> (#[trigger] self.variants@[i]).wf()
    }

    /// The topic read next; the end where none is left.
    pub open spec fn turn(self, subs: Map<Seq<char>, WsSub>) -> int {
        next_subscribed(self.topics@, subs, self.at as int)
    }

    /// A pass over all topics that are subscribed to.
    pub fn start(subs: &SubTable) -> (r: Self)
        requires
            subs.wf(),
        ensures
            r.wf(),
            r.at == 0,
            r.topics@.map_values(|s: String| s@) == subs.names(),
            forall|i: int|
                0 <= i < r.topics@.len() ==> {
                    let s = subs@[(#[trigger] r.topics@[i])@];
                    r.variants@[i].is_for(s.include_data, s.include_tags, s.include_meta)
                },
    {
        let mut topics: Vec<String> = Vec::new();
        let mut variants: Vec<FrameVariant> = Vec::new();
        let mut i: usize = 0;
        while i < subs.entries.len()
            invariant
                i <= subs.entries@.len(),
                topics@.len() == i,
                variants@.len() == i,
                subs.wf(),
                forall|j: int| 0 <= j < i ==> (#[trigger] topics@[j])@ == subs.entries@[j].0@,
                forall|j: int| 0 <= j < i ==> (#[trigger] variants@[j]).wf(),
                forall|j: int|
                    0 <= j < i ==> {
                        let s = subs@[(#[trigger] topics@[j])@];
                        variants@[j].is_for(s.include_data, s.include_tags, s.include_meta)
                    },
            decreases subs.entries@.len() - i,
        {
            proof {
                lemma_position(*subs, i as int);
            }
            let s = &subs.entries[i].1;
            variants.push(FrameVariant::new(s.include_data, s.include_tags, s.include_meta));
            topics.push(subs.entries[i].0.clone());
            i += 1;
        }
        assert(topics@.map_values(|s: String| s@) =~= subs.names());
        DeliveryPass { topics, variants, at: 0 }
    }

    /// The projection of the topic whose turn it is, as it was wanted when the
    /// pass began.
    pub fn variant(&self) -> (r: FrameVariant)
        requires
            self.wf(),
            self.at < self.topics@.len(),
        ensures
            r == self.variants@[self.at as int],
            r.wf(),
    {
        self.variants[self.at]
    }

    /// Finds the topic to read next, passing over those that were dropped
    /// meanwhile; `None` at the end of the pass.
    pub fn next_topic(&mut self, subs: &SubTable) -> (r: Option<String>)
        requires
            old(self).wf(),
            subs.wf(),
        ensures
            final(self).wf(),
            final(self).topics == old(self).topics,
            final(self).variants == old(self).variants,
            final(self).at == old(self).turn(subs@),
            match r {
                Some(topic) => {
                    &&& final(self).at < final(self).topics@.len()
                    &&& topic@ == final(self).topics@[final(self).at as int]@
                    &&& subs@.contains_key(topic@)
                },
                None => final(self).at == final(self).topics@.len(),
            },
    {
        while self.at < self.topics.len()
            invariant
                self.wf(),
                subs.wf(),
                self.topics == old(self).topics,
                self.variants == old(self).variants,
                next_subscribed(self.topics@, subs@, self.at as int) == old(self).turn(subs@),
            decreases self.topics@.len() - self.at,
        {
            if subs.contains_key(self.topics[self.at].as_str()) {
                return Some(self.topics[self.at].clone());
            }
            self.at = self.at + 1;
        }
        None
    }

    /// Delivers what reading the topic whose turn it is gave, and goes on to the
    /// next one once it has nothing more.
    pub fn on_read(&mut self, subs: &mut SubTable, from_seq: u64, outcome: WsOutcome) -> (frames:
        Vec<WsFrame>)
        requires
            old(self).wf(),
            old(self).at < old(self).topics@.len(),
            old(subs).wf(),
        ensures
            final(self).wf(),
            final(self).topics == old(self).topics,
            final(self).variants == old(self).variants,
            final(self).at == if ws_pass_done(outcome) {
                old(self).at + 1
            } else {
                old(self).at as int
            },
            final(subs).wf(),
            ({
                let topic = old(self).topics@[old(self).at as int]@;
                &&& final(subs)@ == subs_after(old(subs)@, topic, outcome)
                &&& ws_frame_views(frames@) == ws_frames_of(
                    sub_of(old(subs)@, topic),
                    topic,
                    from_seq,
                    outcome,
                )
            }),
    {
        assert(self.at < self.topics.len());
        let (frames, done) = deliver(subs, self.topics[self.at].as_str(), from_seq, outcome);
        if done {
            self.at = self.at + 1;
        }
        frames
    }
}

/// The document a message is sent as. Those of records are sent as frames that
/// are serialized already.
pub open spec fn ws_frame_json(f: WsFrameView) -> Option<Json> {
    match f {
        WsFrameView::TopicDeleted { topic } => Some(
            Json::Object(
                map![
                    "op"@ => Json::Str("topic_deleted"@),
                    "topic"@ => Json::Str(topic),
                    "head_seq"@ => Json::Int(0),
                    "reason"@ => Json::Str("deleted"@),
                ],
            ),
        ),
        WsFrameView::Tombstone { topic, tombstone } => Some(
            Json::Object(
                map![
                    "op"@ => Json::Str("tombstone"@),
                    "topic"@ => Json::Str(topic),
                    "reason"@ => Json::Str(tombstone.reason.spec_wire()),
                    "gap_from"@ => Json::Int(tombstone.gap_from as int),
                    "gap_to"@ => Json::Int(tombstone.gap_to as int),
                    "earliest_seq"@ => Json::Int(tombstone.earliest_seq as int),
                    "head_seq"@ => Json::Int(tombstone.head_seq as int),
                ],
            ),
        ),
        WsFrameView::Record { .. } => None,
        WsFrameView::CaughtUp { topic, head_seq } => Some(
            Json::Object(
                map![
                    "op"@ => Json::Str("caught_up"@),
                    "topic"@ => Json::Str(topic),
                    "head_seq"@ => Json::Int(head_seq as int),
                ],
            ),
        ),
    }
}

impl WsFrame {
    /// The document the message is sent as.
    pub fn payload(&self) -> (r: Option<Value>)
        ensures
            json_opt(r) == ws_frame_json(self@),
    {
        let mut obj = ObjectBuilder::new();
        match self {
            WsFrame::TopicDeleted { topic } => {
                obj.put_str("op", "topic_deleted");
                obj.put_str("topic", topic.as_str());
                obj.put_u64("head_seq", 0);
                obj.put_str("reason", "deleted");
                Some(obj.finish())
            },
            WsFrame::Tombstone { topic, tombstone } => {
                obj.put_str("op", "tombstone");
                obj.put_str("topic", topic.as_str());
                obj.put_str("reason", tombstone.reason.wire());
                obj.put_u64("gap_from", tombstone.gap_from);
                obj.put_u64("gap_to", tombstone.gap_to);
                obj.put_u64("earliest_seq", tombstone.earliest_seq);
                obj.put_u64("head_seq", tombstone.head_seq);
                Some(obj.finish())
            },
            WsFrame::Record { .. } => None,
            WsFrame::CaughtUp { topic, head_seq } => {
                obj.put_str("op", "caught_up");
                obj.put_str("topic", topic.as_str());
                obj.put_u64("head_seq", *head_seq);
                Some(obj.finish())
            },
        }
    }
}

// ---------------------------------------------------------------------------
// The socket
// ---------------------------------------------------------------------------

/// The kinds of messages a socket brings.
#[derive(Debug, Clone, Copy, PartialEq, Eq, Structural)]
pub enum MessageKind {
    Text,
    Binary,
    Ping,
    Pong,
    Close,
    /// The socket failed.
    Broken,
}

/// What is done about a message.
#[derive(Debug)]
pub enum SocketAction {
    /// Run the command in it.
    Command,
    /// Send this.
    Reply(Value),
    /// Send its bytes back.
    Pong,
    /// Nothing.
    Ignore,
    /// Stop serving the socket.
    Stop,
}

/// Decides what is done about a message.
pub fn on_message(kind: MessageKind) -> (r: SocketAction)
    ensures
        match kind {
            MessageKind::Text => r is Command,
            MessageKind::Binary => r matches SocketAction::Reply(v) && json(v) == notice_json(
                "unsupported_message"@,
                "binary WebSocket messages are not supported by this JSON endpoint"@,
            ),
            MessageKind::Ping => r is Pong,
            MessageKind::Pong => r is Ignore,
            MessageKind::Close => r is Stop,
            MessageKind::Broken => r is Stop,
        },
{
    match kind {
        MessageKind::Text => SocketAction::Command,
        MessageKind::Binary => SocketAction::Reply(
            notice(
                "unsupported_message",
                "binary WebSocket messages are not supported by this JSON endpoint",
            ),
        ),
        MessageKind::Ping => SocketAction::Pong,
        MessageKind::Pong => SocketAction::Ignore,
        MessageKind::Close => SocketAction::Stop,
        MessageKind::Broken => SocketAction::Stop,
    }
}

// ---------------------------------------------------------------------------
// Laws
// ---------------------------------------------------------------------------

/// No command gets past the key's scopes: what reaches the engine for a
/// subscribe comes from a key that may read every topic of it, for a publish
/// from a key that may write the topic, and with a configuration only from one
/// that may administer.
pub proof fn law_commands_stay_in_scope(p: Principal, cmd: WsCommand)
    requires
        cmd.refusal(p) is None,
    ensures
        cmd matches WsCommand::Subscribe { topic, topics, from_seq, tail, .. } ==> {
            &&& p.holds(Scope::Read)
            &&& forall|n: Seq<char>| #[trigger]
                wanted_topics(topic, topics@, from_seq, tail).contains_key(n) ==> p.reaches(n)
        },
        cmd matches WsCommand::Publish { topic, config, .. } ==> {
            &&& p.holds(Scope::Write)
            &&& p.reaches(topic@)
            &&& config is Some ==> p.holds(Scope::Admin)
        },
{
}

/// A full-access key is refused only for asking nothing.
pub proof fn law_full_access_is_not_forbidden(p: Principal, cmd: WsCommand)
    requires
        forall|scope: Scope| #[trigger] p.holds(scope),
        forall|name: Seq<char>| #[trigger] p.reaches(name),
    ensures
        cmd.refusal(p) matches Some((code, _)) ==> code == "invalid_request"@,
{
}

/// Loss is told, and told first: an outcome with a tombstone begins with a
/// message that carries it unchanged.
pub proof fn law_ws_loss_is_told_first(
    sub: Option<WsSub>,
    topic: Seq<char>,
    from_seq: u64,
    d: WsDiff,
)
    requires
        d.tombstone is Some,
    ensures
        ws_frames_of(sub, topic, from_seq, WsOutcome::Read(d)).len() > 0,
        ws_frames_of(sub, topic, from_seq, WsOutcome::Read(d))[0] == (WsFrameView::Tombstone {
            topic,
            tombstone: d.tombstone->0,
        }),
{
}

/// A client is told once that it has caught up: as long as nothing new comes,
/// reading again sends nothing.
pub proof fn law_ws_caught_up_is_told_once(
    s: WsSub,
    topic: Seq<char>,
    from_seq: u64,
    first: WsDiff,
    again: WsDiff,
)
    requires
        first.caught_up,
        again.caught_up,
        !ws_brings_news(again),
    ensures
        ws_frames_of(
            Some(sub_after(s, first)),
            topic,
            from_seq,
            WsOutcome::Read(again),
        ).len() == 0,
{
}

/// A topic that is gone, or was unsubscribed from, has no subscription any more;
/// the others keep theirs.
pub proof fn law_dropped_is_dropped(
    subs: Map<Seq<char>, WsSub>,
    topic: Seq<char>,
    other: Seq<char>,
    topics: Seq<Seq<char>>,
)
    requires
        topics.contains(topic),
        !topics.contains(other),
        subs.contains_key(other),
    ensures
        !subs_after(subs, topic, WsOutcome::Missing).contains_key(topic),
        !subs.remove_keys(topics.to_set()).contains_key(topic),
        subs.remove_keys(topics.to_set()).contains_key(other),
        subs.remove_keys(topics.to_set())[other] == subs[other],
{
}

/// The topic that a message names.
pub open spec fn frame_topic(f: WsFrameView) -> Seq<char> {
    match f {
        WsFrameView::TopicDeleted { topic } => topic,
        WsFrameView::Tombstone { topic, .. } => topic,
        WsFrameView::Record { topic, .. } => topic,
        WsFrameView::CaughtUp { topic, .. } => topic,
    }
}

/// The message brings records, or tells of their loss.
pub open spec fn is_news(f: WsFrameView) -> bool {
    f is Record || f is Tombstone
}

/// What happens on a socket.
pub enum SocketEvent {
    /// A topic was read from a seq, and the outcome is delivered. A topic without
    /// a subscription is not read.
    Read { topic: Seq<char>, from_seq: u64, outcome: WsOutcome },
    /// Commands changed the subscriptions to these.
    Changed { subs: Map<Seq<char>, WsSub> },
}

/// The subscriptions after some events.
pub open spec fn subs_through(subs: Map<Seq<char>, WsSub>, events: Seq<SocketEvent>) -> Map<
    Seq<char>,
    WsSub,
>
    decreases events.len(),
{
    if events.len() == 0 {
        subs
    } else {
        let now = subs_through(subs, events.drop_last());
        match events.last() {
            SocketEvent::Read { topic, outcome, .. } => if now.contains_key(topic) {
                subs_after(now, topic, outcome)
            } else {
                now
            },
            SocketEvent::Changed { subs } => subs,
        }
    }
}

/// The messages that an event brings.
pub open spec fn messages_of(now: Map<Seq<char>, WsSub>, event: SocketEvent) -> Seq<WsFrameView> {
    match event {
        SocketEvent::Read { topic, from_seq, outcome } => if now.contains_key(topic) {
            ws_frames_of(sub_of(now, topic), topic, from_seq, outcome)
        } else {
            Seq::empty()
        },
        SocketEvent::Changed { .. } => Seq::empty(),
    }
}

/// The messages that some events bring, in order.
pub open spec fn messages_through(
    subs: Map<Seq<char>, WsSub>,
    events: Seq<SocketEvent>,
) -> Seq<WsFrameView>
    decreases events.len(),
{
    if events.len() == 0 {
        Seq::empty()
    } else {
        messages_through(subs, events.drop_last()) + messages_of(
            subs_through(subs, events.drop_last()),
            events.last(),
        )
    }
}

/// The client does not subscribe to a topic during the events: commands leave its
/// subscription as it is, or drop it.
pub open spec fn not_subscribed_again(
    subs: Map<Seq<char>, WsSub>,
    events: Seq<SocketEvent>,
    topic: Seq<char>,
) -> bool
    decreases events.len(),
{
    events.len() == 0 || {
        let now = sub_of(subs_through(subs, events.drop_last()), topic);
        let after = sub_of(subs_through(subs, events), topic);
        &&& not_subscribed_again(subs, events.drop_last(), topic)
        &&& events.last() is Changed ==> after is None || after == now
    }
}

/// Over the life of a subscription the client is told of having caught up only
/// after news: between two such messages for a topic there is one that brings
/// its records or tells of their loss. And once a topic was reported deleted, no
/// message names it any more, and it has no subscription.
pub proof fn law_a_subscription_from_first_to_last(
    subs: Map<Seq<char>, WsSub>,
    events: Seq<SocketEvent>,
    topic: Seq<char>,
)
    requires
        not_subscribed_again(subs, events, topic),
    ensures
        ({
            let sent = messages_through(subs, events);
            &&& forall|i: int, j: int|
                0 <= i < j < sent.len() && #[trigger] sent[i] is CaughtUp && frame_topic(sent[i])
                    == topic && #[trigger] sent[j] is CaughtUp && frame_topic(sent[j]) == topic
                    ==> has_news(sent, topic, i + 1, j)
            &&& forall|i: int|
                0 <= i < sent.len() && #[trigger] sent[i] is TopicDeleted && frame_topic(sent[i])
                    == topic ==> {
                    &&& forall|j: int| i < j < sent.len() ==> frame_topic(#[trigger] sent[j]) != topic
                    &&& !subs_through(subs, events).contains_key(topic)
                }
        }),
{
    lemma_subscription(subs, events, topic);
}

/// Some message for a topic from a position on and before another brings news.
pub open spec fn has_news(
    sent: Seq<WsFrameView>,
    topic: Seq<char>,
    from: int,
    to: int,
) -> bool {
    exists|k: int|
        0 <= from <= k < to <= sent.len() && is_news(#[trigger] sent[k]) && frame_topic(sent[k])
            == topic
}

/// What one read of a subscribed topic brings: messages for the topic only, the
/// one of having caught up last and only after news where it was told before, the
/// one of deletion alone.
proof fn lemma_one_read(s: WsSub, topic: Seq<char>, from_seq: u64, outcome: WsOutcome)
    ensures
        ({
            let f = ws_frames_of(Some(s), topic, from_seq, outcome);
            &&& forall|i: int| 0 <= i < f.len() ==> frame_topic(#[trigger] f[i]) == topic
            &&& forall|i: int|
                0 <= i < f.len() && #[trigger] f[i] is CaughtUp ==> {
                    &&& i == f.len() - 1
                    &&& outcome is Read
                    &&& sub_after(s, outcome->Read_0).caught_up
                    &&& s.caught_up ==> i > 0 && is_news(f[0])
                }
            &&& forall|i: int|
                0 <= i < f.len() && #[trigger] f[i] is TopicDeleted ==> f.len() == 1 && outcome is Missing
            &&& outcome matches WsOutcome::Read(d) ==> (s.caught_up && !sub_after(s, d).caught_up
                ==> f.len() > 0 && is_news(f[0]))
        }),
{
}

proof fn lemma_subscription(
    subs: Map<Seq<char>, WsSub>,
    events: Seq<SocketEvent>,
    topic: Seq<char>,
)
    requires
        not_subscribed_again(subs, events, topic),
    ensures
        ({
            let sent = messages_through(subs, events);
            let now = sub_of(subs_through(subs, events), topic);
            &&& forall|i: int, j: int|
                0 <= i < j < sent.len() && #[trigger] sent[i] is CaughtUp && frame_topic(sent[i])
                    == topic && #[trigger] sent[j] is CaughtUp && frame_topic(sent[j]) == topic
                    ==> has_news(sent, topic, i + 1, j)
            &&& forall|i: int|
                0 <= i < sent.len() && #[trigger] sent[i] is CaughtUp && frame_topic(sent[i]) == topic
                    ==> has_news(sent, topic, i + 1, sent.len() as int) || now is None
                    || now->0.caught_up
            &&& forall|i: int|
                0 <= i < sent.len() && #[trigger] sent[i] is TopicDeleted && frame_topic(sent[i])
                    == topic ==> {
                    &&& forall|j: int| i < j < sent.len() ==> frame_topic(#[trigger] sent[j]) != topic
                    &&& now is None
                }
        }),
    decreases events.len(),
{
    if events.len() > 0 {
        let rest = events.drop_last();
        lemma_subscription(subs, rest, topic);
        let before = subs_through(subs, rest);
        let was = sub_of(before, topic);
        let after = subs_through(subs, events);
        let now = sub_of(after, topic);
        let old_sent = messages_through(subs, rest);
        let fresh = messages_of(before, events.last());
        let sent = messages_through(subs, events);
        let n = old_sent.len() as int;
        assert(sent == old_sent + fresh);
        if let SocketEvent::Read { topic: read, from_seq, outcome } = events.last() {
            if before.contains_key(read) {
                lemma_one_read(before[read], read, from_seq, outcome);
            }
        }
        assert forall|i: int, to: int| 0 <= i && to <= n && #[trigger] has_news(
            old_sent,
            topic,
            i,
            to,
        ) implies has_news(sent, topic, i, to) by {
            let k = choose|k: int|
                i <= k < to && is_news(#[trigger] old_sent[k]) && frame_topic(old_sent[k]) == topic;
            assert(sent[k] == old_sent[k]);
        }
        assert forall|i: int, j: int|
            0 <= i < j < sent.len() && #[trigger] sent[i] is CaughtUp && frame_topic(sent[i])
                == topic && #[trigger] sent[j] is CaughtUp && frame_topic(sent[j])
                == topic implies has_news(sent, topic, i + 1, j) by {
            if j < n {
                assert(old_sent[i] == sent[i] && old_sent[j] == sent[j]);
            } else if i < n {
                assert(old_sent[i] == sent[i]);
                assert(fresh[j - n] == sent[j]);
                if has_news(old_sent, topic, i + 1, n) {
                    let k = choose|k: int|
                        i + 1 <= k < n && is_news(#[trigger] old_sent[k]) && frame_topic(old_sent[k])
                            == topic;
                    assert(sent[k] == old_sent[k]);
                } else {
                    assert(sent[n] == fresh[0]);
                }
            } else {
                assert(fresh[i - n] == sent[i] && fresh[j - n] == sent[j]);
            }
        }
        assert forall|i: int|
            0 <= i < sent.len() && #[trigger] sent[i] is CaughtUp && frame_topic(sent[i])
                == topic implies has_news(sent, topic, i + 1, sent.len() as int) || now is None
            || now->0.caught_up by {
            if i < n {
                assert(old_sent[i] == sent[i]);
                if has_news(old_sent, topic, i + 1, n) {
                    let k = choose|k: int|
                        i + 1 <= k < n && is_news(#[trigger] old_sent[k]) && frame_topic(old_sent[k])
                            == topic;
                    assert(sent[k] == old_sent[k]);
                } else if fresh.len() > 0 {
                    assert(sent[n] == fresh[0]);
                }
            } else {
                assert(fresh[i - n] == sent[i]);
            }
        }
        assert forall|i: int|
            0 <= i < sent.len() && #[trigger] sent[i] is TopicDeleted && frame_topic(sent[i])
                == topic implies {
            &&& forall|j: int| i < j < sent.len() ==> frame_topic(#[trigger] sent[j]) != topic
            &&& now is None
        } by {
            if i < n {
                assert(old_sent[i] == sent[i]);
                assert forall|j: int| i < j < sent.len() implies frame_topic(#[trigger] sent[j])
                    != topic by {
                    if j < n {
                        assert(old_sent[j] == sent[j]);
                    } else {
                        assert(fresh[j - n] == sent[j]);
                    }
                }
            } else {
                assert(fresh[i - n] == sent[i]);
            }
        }
    }
}

/// A publish that is not refused writes what the client sent: to the topic it
/// named, with each part of the command as it stands, and under the command's id.
pub proof fn law_a_publish_writes_what_was_sent(cmd: WsCommand, plan: WsPlan)
    requires
        cmd is Publish,
        cmd.is_planned_as(plan),
    ensures
        plan is Write,
        plan->Write_request_id == cmd->Publish_request_id,
        plan->Write_topic == cmd->Publish_topic,
        plan->req.records == cmd->records,
        plan->req.node == cmd->Publish_node,
        plan->req.idempotency_key == cmd->idempotency_key,
        plan->req.create == cmd->create,
        plan->req.config == cmd->config,
        plan->req.disable_backpressure == cmd->disable_backpressure,
        plan->Write_return_seqs == cmd->Publish_return_seqs,
{
}

/// A subscribe that is not refused asks for the topics that the client named, each
/// as it is in the list, or, where only the single topic names it, from the
/// command's own position; for no other; and for subscriptions as the command
/// says, from their start and not caught up.
pub proof fn law_a_subscribe_asks_for_what_was_named(cmd: WsCommand, plan: WsPlan, name: Seq<char>)
    requires
        cmd is Subscribe,
        cmd.is_planned_as(plan),
    ensures
        plan is Subscribe,
        ({
            let listed = cmd->Subscribe_topics@;
            let single = cmd->Subscribe_topic;
            let wanted = plan->Subscribe_topics@;
            let sub = plan->sub;
            &&& plan->Subscribe_request_id == cmd->Subscribe_request_id
            &&& plan->Subscribe_lenient == cmd->Subscribe_lenient
            &&& wanted.contains_key(name) <==> listed.contains_key(name) || (single is Some
                && single->0@ == name)
            &&& listed.contains_key(name) ==> wanted[name] == listed[name]
            &&& wanted.contains_key(name) && !listed.contains_key(name) ==> {
                &&& wanted[name].from_seq == cmd->from_seq
                &&& wanted[name].tail == cmd->tail
            }
            &&& sub.node == cmd->Subscribe_node
            &&& sub.limit == cmd->limit
            &&& sub.max_batch_bytes == cmd->max_batch_bytes
            &&& sub.include_data == cmd->include_data
            &&& sub.include_tags == cmd->include_tags
            &&& sub.include_meta == cmd->include_meta
            &&& !sub.caught_up
        }),
{
}

/// An unsubscribe that is not refused drops what the client named: the listed
/// topics in their order, then the single one.
pub proof fn law_an_unsubscribe_drops_what_was_named(cmd: WsCommand, plan: WsPlan, i: int)
    requires
        cmd is Unsubscribe,
        cmd.is_planned_as(plan),
    ensures
        plan is Unsubscribe,
        ({
            let listed = cmd->Unsubscribe_topics@;
            let single = cmd->Unsubscribe_topic;
            let dropped = plan->Unsubscribe_topics@;
            &&& plan->Unsubscribe_request_id == cmd->Unsubscribe_request_id
            &&& dropped.len() == listed.len() + (if single is Some {
                1int
            } else {
                0
            })
            &&& 0 <= i < listed.len() ==> dropped[i]@ == listed[i]@
            &&& single is Some ==> dropped[listed.len() as int]@ == single->0@
        }),
{
    let listed = cmd->Unsubscribe_topics@;
    let single = cmd->Unsubscribe_topic;
    let dropped = plan->Unsubscribe_topics@;
    let views = dropped.map_values(|s: String| s@);
    assert(views == dropped_topics(single, listed));
    assert(views.len() == dropped.len());
    if 0 <= i < listed.len() {
        assert(views[i] == dropped[i]@);
        assert(views[i] == listed[i]@);
    }
    if single is Some {
        assert(views[listed.len() as int] == dropped[listed.len() as int]@);
    }
}

/// Commands are refused for these reasons and no other: a subscribe to a key that
/// may not read, that names no topic, or a topic out of the key's reach; an
/// unsubscribe that names none; a publish to a key that may not write, or not
/// administer where the command configures, or does not reach the topic. A ping
/// never is.
pub proof fn law_commands_are_refused_for_cause(p: Principal, cmd: WsCommand)
    ensures
        cmd matches WsCommand::Subscribe { topic, topics, .. } ==> (cmd.refusal(p) is None <==> {
            &&& p.read
            &&& topic is Some || topics@.dom() != Set::<Seq<char>>::empty()
            &&& topic matches Some(t) ==> p.reaches(t@)
            &&& forall|n: Seq<char>| #[trigger] topics@.contains_key(n) ==> p.reaches(n)
        }),
        cmd matches WsCommand::Unsubscribe { topic, topics, .. } ==> (cmd.refusal(p) is None <==> {
            topic is Some || topics@.len() > 0
        }),
        cmd matches WsCommand::Publish { topic, config, .. } ==> (cmd.refusal(p) is None <==> {
            &&& p.write
            &&& config is Some ==> p.admin
            &&& p.reaches(topic@)
        }),
        cmd is Ping ==> cmd.refusal(p) is None,
{
    if let WsCommand::Subscribe { topic, topics, from_seq, tail, .. } = cmd {
        let wanted = wanted_topics(topic, topics@, from_seq, tail);
        if let Some(t) = topic {
            assert(wanted.contains_key(t@));
            assert(wanted.dom().contains(t@));
        }
        assert forall|n: Seq<char>| #[trigger] topics@.contains_key(n) implies wanted.contains_key(
            n,
        ) by {}
        if topic is None {
            assert(wanted == topics@);
        }
        if cmd.refusal(p) is None {
            assert(forall|n: Seq<char>| #[trigger] wanted.contains_key(n) ==> p.reaches(n));
            if topic is None {
                assert(!(topics@.dom() =~= Set::<Seq<char>>::empty()));
            }
        } else if p.read && (topic is Some || topics@.dom() != Set::<Seq<char>>::empty()) {
            assert(!(wanted.dom() =~= Set::<Seq<char>>::empty()));
            let n = choose|n: Seq<char>| #[trigger] wanted.contains_key(n) && !p.reaches(n);
            assert(topics@.contains_key(n) || topic->0@ == n);
        }
    }
}

/// A refusal is coded by its cause: an empty command is an invalid request, all
/// else is forbidden.
pub proof fn law_refusals_are_coded_by_cause(p: Principal, cmd: WsCommand)
    requires
        cmd.refusal(p) is Some,
    ensures
        ({
            let (code, _) = cmd.refusal(p)->0;
            &&& code == "forbidden"@ || code == "invalid_request"@
            &&& cmd is Publish ==> code == "forbidden"@
            &&& cmd is Unsubscribe ==> code == "invalid_request"@
            &&& cmd is Subscribe && !p.read ==> code == "forbidden"@
            &&& cmd is Subscribe && p.read && (cmd->Subscribe_topic is Some
                || cmd->Subscribe_topics@.dom() != Set::<Seq<char>>::empty()) ==> code
                == "forbidden"@
            &&& cmd is Subscribe && p.read && cmd->Subscribe_topic is None
                && cmd->Subscribe_topics@.dom() == Set::<Seq<char>>::empty() ==> code
                == "invalid_request"@
        }),
{
    if let WsCommand::Subscribe { topic, topics, from_seq, tail, .. } = cmd {
        let wanted = wanted_topics(topic, topics@, from_seq, tail);
        if let Some(t) = topic {
            assert(wanted.dom().contains(t@));
        }
    }
}

/// What one read of a subscribed topic comes to. The subscription goes on from
/// where the read ended, and is otherwise as the client asked for; no other
/// subscription changes. The client gets the tombstone, where there is one; then
/// all the records, where there are any, in a message that says where the read
/// began and ended; and then, where the read caught up and the client had not been
/// told so since the last news, that it has caught up; and nothing more.
pub proof fn law_a_read_is_delivered_whole(
    subs: Map<Seq<char>, WsSub>,
    topic: Seq<char>,
    from_seq: u64,
    d: WsDiff,
    other: Seq<char>,
)
    requires
        subs.contains_key(topic),
    ensures
        ({
            let after = subs_after(subs, topic, WsOutcome::Read(d));
            let was = subs[topic];
            let now = after[topic];
            &&& after.contains_key(topic)
            &&& now.cursor == d.next_from_seq
            &&& now.node == was.node
            &&& now.limit == was.limit
            &&& now.max_batch_bytes == was.max_batch_bytes
            &&& now.include_data == was.include_data
            &&& now.include_tags == was.include_tags
            &&& now.include_meta == was.include_meta
            &&& other != topic ==> {
                &&& after.contains_key(other) <==> subs.contains_key(other)
                &&& subs.contains_key(other) ==> after[other] == subs[other]
            }
        }),
        ({
            let sent = ws_frames_of(Some(subs[topic]), topic, from_seq, WsOutcome::Read(d));
            let a: int = if d.tombstone is Some {
                1
            } else {
                0
            };
            let b: int = if d.records@.len() > 0 {
                a + 1
            } else {
                a
            };
            let told = d.caught_up && (b > 0 || !subs[topic].caught_up);
            &&& sent.len() == (if told {
                b + 1
            } else {
                b
            })
            &&& a > 0 ==> sent[0] == (WsFrameView::Tombstone { topic, tombstone: d.tombstone->0 })
            &&& b > a ==> sent[a] == (WsFrameView::Record {
                topic,
                from_seq,
                to_seq: d.next_from_seq,
                head_seq: d.head_seq,
                records: d.records@,
            })
            &&& told ==> sent[b] == (WsFrameView::CaughtUp { topic, head_seq: d.head_seq })
        }),
{
}

/// A topic that is gone is reported once, as deleted, and is not subscribed to any
/// more; what was dropped meanwhile gets its last records but no word of having
/// caught up, and no subscription comes of it.
pub proof fn law_what_is_gone_stays_gone(
    subs: Map<Seq<char>, WsSub>,
    topic: Seq<char>,
    from_seq: u64,
    d: WsDiff,
    other: Seq<char>,
)
    ensures
        ws_frames_of(sub_of(subs, topic), topic, from_seq, WsOutcome::Missing) == seq![
            WsFrameView::TopicDeleted { topic },
        ],
        !subs_after(subs, topic, WsOutcome::Missing).contains_key(topic),
        other != topic && subs.contains_key(other) ==> {
            &&& subs_after(subs, topic, WsOutcome::Missing).contains_key(other)
            &&& subs_after(subs, topic, WsOutcome::Missing)[other] == subs[other]
        },
        !subs.contains_key(topic) ==> {
            let sent = ws_frames_of(sub_of(subs, topic), topic, from_seq, WsOutcome::Read(d));
            &&& subs_after(subs, topic, WsOutcome::Read(d)) == subs
            &&& forall|i: int| 0 <= i < sent.len() ==> !(#[trigger] sent[i] is CaughtUp)
            &&& d.records@.len() > 0 ==> sent.len() > 0 && sent.last() is Record
        },
{
}

/// A topic is done for a pass exactly when it is gone or a read of it caught up.
pub proof fn law_a_pass_reads_to_the_head(outcome: WsOutcome)
    ensures
        ws_pass_done(outcome) <==> outcome is Missing || (outcome->Read_0).caught_up,
{
}

/// The topic whose turn it is in a pass is subscribed to, and none before it from
/// the pass's position on is.
pub proof fn law_turns_pass_over_the_dropped(
    pass: DeliveryPass,
    subs: Map<Seq<char>, WsSub>,
    i: int,
)
    requires
        pass.wf(),
    ensures
        pass.at <= pass.turn(subs) <= pass.topics@.len(),
        pass.turn(subs) < pass.topics@.len() ==> subs.contains_key(
            pass.topics@[pass.turn(subs)]@,
        ),
        pass.at <= i < pass.turn(subs) ==> !subs.contains_key(pass.topics@[i]@),
{
    lemma_next_subscribed(pass.topics@, subs, pass.at as int, i);
}

proof fn lemma_next_subscribed(topics: Seq<String>, subs: Map<Seq<char>, WsSub>, at: int, i: int)
    requires
        0 <= at <= topics.len(),
    ensures
        ({
            let k = next_subscribed(topics, subs, at);
            &&& at <= k <= topics.len()
            &&& k < topics.len() ==> subs.contains_key(topics[k]@)
            &&& at <= i < k ==> !subs.contains_key(topics[i]@)
        }),
    decreases topics.len() - at,
{
    if at < topics.len() && !subs.contains_key(topics[at]@) {
        lemma_next_subscribed(topics, subs, at + 1, i);
    }
}

/// The last message that names a topic.
pub open spec fn last_about(sent: Seq<WsFrameView>, topic: Seq<char>) -> Option<WsFrameView>
    decreases sent.len(),
{
    if sent.len() == 0 {
        None
    } else if frame_topic(sent.last()) == topic {
        Some(sent.last())
    } else {
        last_about(sent.drop_last(), topic)
    }
}

proof fn lemma_last_about(a: Seq<WsFrameView>, b: Seq<WsFrameView>, topic: Seq<char>)
    ensures
        last_about(a + b, topic) == (if last_about(b, topic) is Some {
            last_about(b, topic)
        } else {
            last_about(a, topic)
        }),
    decreases b.len(),
{
    if b.len() == 0 {
        assert(a + b =~= a);
    } else {
        assert((a + b).drop_last() =~= a + b.drop_last());
        lemma_last_about(a, b.drop_last(), topic);
    }
}

/// A client knows when it has caught up: whenever a read of a topic that it is
/// subscribed to finds it caught up, whether the first or a later one, the last it
/// was told of the topic is just that.
pub proof fn law_who_has_caught_up_was_told(
    subs: Map<Seq<char>, WsSub>,
    events: Seq<SocketEvent>,
    topic: Seq<char>,
)
    requires
        not_subscribed_again(subs, events, topic),
        subs.contains_key(topic) ==> !subs[topic].caught_up,
        events.len() > 0,
        events.last() matches SocketEvent::Read { topic: read, outcome: WsOutcome::Read(d), .. }
            && read == topic && d.caught_up,
        subs_through(subs, events.drop_last()).contains_key(topic),
    ensures
        last_about(messages_through(subs, events), topic) is Some,
        last_about(messages_through(subs, events), topic)->0 is CaughtUp,
{
    lemma_caught_up_was_told(subs, events, topic);
}

proof fn lemma_caught_up_was_told(
    subs: Map<Seq<char>, WsSub>,
    events: Seq<SocketEvent>,
    topic: Seq<char>,
)
    requires
        not_subscribed_again(subs, events, topic),
        subs.contains_key(topic) ==> !subs[topic].caught_up,
    ensures
        ({
            let now = sub_of(subs_through(subs, events), topic);
            let last = last_about(messages_through(subs, events), topic);
            now is Some && now->0.caught_up ==> last is Some && last->0 is CaughtUp
        }),
    decreases events.len(),
{
    if events.len() > 0 {
        let rest = events.drop_last();
        lemma_caught_up_was_told(subs, rest, topic);
        let before = subs_through(subs, rest);
        let old_sent = messages_through(subs, rest);
        let fresh = messages_of(before, events.last());
        lemma_last_about(old_sent, fresh, topic);
        reveal_with_fuel(last_about, 4);
        match events.last() {
            SocketEvent::Changed { .. } => {
                assert(fresh.len() == 0);
            },
            SocketEvent::Read { topic: read, from_seq, outcome } => {
                if before.contains_key(read) {
                    lemma_one_read(before[read], read, from_seq, outcome);
                    if read == topic {
                        if let WsOutcome::Read(d) = outcome {
                            law_a_read_is_delivered_whole(before, topic, from_seq, d, topic);
                            if fresh.len() > 0 {
                                assert(frame_topic(fresh.last()) == topic);
                            }
                        }
                    } else {
                        lemma_about_another(fresh, topic);
                    }
                }
            },
        }
    }
}

proof fn lemma_about_another(sent: Seq<WsFrameView>, topic: Seq<char>)
    requires
        forall|i: int| 0 <= i < sent.len() ==> frame_topic(#[trigger] sent[i]) != topic,
    ensures
        last_about(sent, topic) is None,
    decreases sent.len(),
{
    if sent.len() > 0 {
        assert(frame_topic(sent[sent.len() - 1]) != topic);
        lemma_about_another(sent.drop_last(), topic);
    }
}

/// A read of a topic for a subscription: the state that was read, what was asked,
/// when, what came of it, and the outcome that was delivered of that.
pub struct TopicRead {
    pub state: BoxState,
    pub req: DiffRequest,
    pub now_ms: i64,
    pub response: DiffResponse,
    pub delivered: WsDiff,
}

impl TopicRead {
    /// The read was made, and what came of it was delivered.
    pub open spec fn made(self) -> bool {
        &&& self.state.wf()
        &&& self.state.seq_base >= 1
        &&& self.state.head_seq < u64::MAX
        &&& nothing_expired(self.state, self.now_ms)
        &&& is_read(self.state, self.req, self.now_ms, self.response)
        &&& self.delivered.next_from_seq == self.response.next_from_seq
    }

    /// The read told of a seq: it delivered the record, or named it as lost.
    pub open spec fn told(self, seq: u64) -> bool {
        ||| self.response.tombstone matches Some(t) && t.gap_from <= seq <= t.gap_to
        ||| exists|i: int|
            0 <= i < self.response.records@.len() && (#[trigger] self.response.records@[i]).seq
                == seq
    }

    /// The read found a record of a node that the client filters out.
    pub open spec fn passed_over(self, seq: u64) -> bool {
        let b = self.state;
        b.index.base_seq <= seq <= b.head_seq && match (
            self.req.node,
            b.index.records@[seq - b.index.base_seq].node,
        ) {
            (Some(f), Some(n)) => f.names(n@),
            _ => false,
        }
    }
}

/// The reads as what happens on a socket.
pub open spec fn read_events(topic: Seq<char>, reads: Seq<TopicRead>) -> Seq<SocketEvent> {
    Seq::new(
        reads.len(),
        |k: int|
            SocketEvent::Read {
                topic,
                from_seq: reads[k].req.from_seq,
                outcome: WsOutcome::Read(reads[k].delivered),
            },
    )
}

/// A subscription leaves nothing out. However many reads are made for it, each from
/// the subscription's cursor, every seq from the first cursor to the last was told
/// of by one of them, or passed over for the client's filter.
pub proof fn law_a_subscription_leaves_nothing_out(
    subs: Map<Seq<char>, WsSub>,
    topic: Seq<char>,
    reads: Seq<TopicRead>,
    seq: u64,
)
    requires
        subs.contains_key(topic),
        forall|k: int| 0 <= k < reads.len() ==> (#[trigger] reads[k]).made(),
        forall|k: int| 0 <= k < reads.len() ==> (#[trigger] reads[k]).state.seq_base <= seq,
        forall|k: int|
            0 <= k < reads.len() ==> (#[trigger] reads[k]).req.from_seq == subs_through(
                subs,
                read_events(topic, reads.take(k)),
            )[topic].cursor,
        subs[topic].cursor < seq <= subs_through(subs, read_events(topic, reads))[topic].cursor,
    ensures
        exists|k: int|
            0 <= k < reads.len() && ((#[trigger] reads[k]).told(seq) || reads[k].passed_over(seq)),
    decreases reads.len(),
{
    let events = read_events(topic, reads);
    if reads.len() > 0 {
        let rest = reads.drop_last();
        let n = reads.len() - 1;
        let x = reads[n];
        assert(events.drop_last() =~= read_events(topic, rest));
        assert(reads.take(n) =~= rest);
        let now = subs_through(subs, read_events(topic, rest));
        lemma_stays_subscribed(subs, topic, rest);
        law_a_read_is_delivered_whole(now, topic, x.req.from_seq, x.delivered, topic);
        assert(x.made() && x.state.seq_base <= seq);
        assert(x.req.from_seq == now[topic].cursor);
        if seq <= now[topic].cursor {
            assert forall|k: int| 0 <= k < rest.len() implies (#[trigger] rest[k]).made()
                && rest[k].state.seq_base <= seq && rest[k].req.from_seq == subs_through(
                subs,
                read_events(topic, rest.take(k)),
            )[topic].cursor by {
                assert(reads[k] == rest[k]);
                assert(rest.take(k) =~= reads.take(k));
            }
            law_a_subscription_leaves_nothing_out(subs, topic, rest, seq);
            let k = choose|k: int|
                0 <= k < rest.len() && ((#[trigger] rest[k]).told(seq) || rest[k].passed_over(seq));
            assert(reads[k] == rest[k]);
        } else {
            law_a_response_says_how_far_it_got(x.state, x.req, x.now_ms, x.response);
            law_a_response_leaves_nothing_out(x.state, x.req, x.now_ms, x.response, seq);
            assert(reads[n].told(seq) || reads[n].passed_over(seq));
        }
    }
}

proof fn lemma_stays_subscribed(
    subs: Map<Seq<char>, WsSub>,
    topic: Seq<char>,
    reads: Seq<TopicRead>,
)
    requires
        subs.contains_key(topic),
    ensures
        subs_through(subs, read_events(topic, reads)).contains_key(topic),
    decreases reads.len(),
{
    if reads.len() > 0 {
        lemma_stays_subscribed(subs, topic, reads.drop_last());
        assert(read_events(topic, reads).drop_last() =~= read_events(topic, reads.drop_last()));
    }
}

/// A client that subscribed is where it asked to be: each topic that was resolved
/// has a subscription as the client wanted it, from the resolved position, and not
/// caught up.
pub proof fn law_a_subscription_starts_as_asked(s: WsSub, template: WsSub, cursor: u64)
    requires
        starts_at(s, template, cursor),
    ensures
        s.cursor == cursor,
        !s.caught_up,
        filter_nodes(s.node) == filter_nodes(template.node),
        s.limit == template.limit,
        s.max_batch_bytes == template.max_batch_bytes,
        s.include_data == template.include_data,
        s.include_tags == template.include_tags,
        s.include_meta == template.include_meta,
{
}

/// A refused command is answered with its id, a code and a message.
pub proof fn law_an_error_says_what_and_why(
    request_id: Option<Value>,
    code: Seq<char>,
    message: Seq<char>,
)
    ensures
        error_json(request_id, code, message) matches Json::Object(m) && {
            &&& m.contains_key("op"@) && m["op"@] == Json::Str("error"@)
            &&& m.contains_key("request_id"@)
            &&& request_id matches Some(v) ==> m["request_id"@] == json(v)
            &&& request_id is None ==> m["request_id"@] == Json::Null
            &&& m.contains_key("code"@) && m["code"@] == Json::Str(code)
            &&& m.contains_key("message"@) && m["message"@] == Json::Str(message)
        },
{
    reveal_strlit("op");
    reveal_strlit("request_id");
    reveal_strlit("code");
    reveal_strlit("message");
    assert("op"@.len() == 2 && "request_id"@.len() == 10 && "code"@.len() == 4 && "message"@.len()
        == 7);
}

/// A publish is answered with what came of the write, number by number.
pub proof fn law_an_ack_tells_what_was_written(
    request_id: Option<Value>,
    topic: Seq<char>,
    resp: WriteResponse,
)
    ensures
        ack_json(request_id, topic, resp) matches Json::Object(m) && {
            &&& m.contains_key("op"@) && m["op"@] == Json::Str("ack"@)
            &&& m.contains_key("request_id"@)
            &&& request_id matches Some(v) ==> m["request_id"@] == json(v)
            &&& request_id is None ==> m["request_id"@] == Json::Null
            &&& m.contains_key("topic"@) && m["topic"@] == Json::Str(topic)
            &&& m.contains_key("first_seq"@) && m["first_seq"@] == Json::Int(resp.first_seq as int)
            &&& m.contains_key("last_seq"@) && m["last_seq"@] == Json::Int(resp.last_seq as int)
            &&& m.contains_key("head_seq"@) && m["head_seq"@] == Json::Int(resp.head_seq as int)
            &&& m.contains_key("count"@) && m["count"@] == Json::Int(resp.count as int)
            &&& m.contains_key("created"@) && m["created"@] == Json::Bool(resp.created)
            &&& m.contains_key("deduped"@) && m["deduped"@] == Json::Bool(resp.deduped)
            &&& m.contains_key("performance"@) && m["performance"@] == json(resp.performance)
            &&& m.contains_key("seqs"@)
            &&& resp.seqs is None ==> m["seqs"@] == Json::Null
            &&& resp.seqs matches Some(seqs) ==> (m["seqs"@] matches Json::Array(items)
                && items.len() == seqs@.len() && forall|i: int|
                0 <= i < items.len() ==> #[trigger] items[i] == Json::Int(seqs@[i] as int))
        },
{
    reveal_strlit("op");
    reveal_strlit("request_id");
    reveal_strlit("topic");
    reveal_strlit("first_seq");
    reveal_strlit("last_seq");
    reveal_strlit("seqs");
    reveal_strlit("head_seq");
    reveal_strlit("count");
    reveal_strlit("created");
    reveal_strlit("deduped");
    reveal_strlit("performance");
    assert("topic"@[0] == 't' && "count"@[0] == 'c' && "last_seq"@[0] == 'l' && "head_seq"@[0] == 'h'
        && "created"@[0] == 'c' && "deduped"@[0] == 'd');
    assert("op"@.len() == 2 && "request_id"@.len() == 10 && "topic"@.len() == 5 && "first_seq"@.len()
        == 9 && "last_seq"@.len() == 8 && "seqs"@.len() == 4 && "head_seq"@.len() == 8
        && "count"@.len() == 5 && "created"@.len() == 7 && "deduped"@.len() == 7
        && "performance"@.len() == 11);
}

/// A subscribe is answered with where each topic stands: its position, its head and its
/// first deliverable seq.
pub proof fn law_a_subscribe_is_answered_topic_by_topic(
    request_id: Option<Value>,
    states: Map<Seq<char>, WatchBoxState>,
    topic: Seq<char>,
)
    ensures
        subscribed_json(request_id, states) matches Json::Object(m) && {
            &&& m.contains_key("op"@) && m["op"@] == Json::Str("subscribed"@)
            &&& m.contains_key("request_id"@)
            &&& request_id matches Some(v) ==> m["request_id"@] == json(v)
            &&& request_id is None ==> m["request_id"@] == Json::Null
            &&& m.contains_key("topics"@)
            &&& m["topics"@] matches Json::Object(topics) && {
                &&& topics.contains_key(topic) <==> states.contains_key(topic)
                &&& states.contains_key(topic) ==> (topics[topic] matches Json::Object(s) && {
                    &&& s.contains_key("from_seq"@) && s["from_seq"@] == Json::Int(
                        states[topic].from_seq as int,
                    )
                    &&& s.contains_key("head_seq"@) && s["head_seq"@] == Json::Int(
                        states[topic].head_seq as int,
                    )
                    &&& s.contains_key("earliest_seq"@) && s["earliest_seq"@] == Json::Int(
                        states[topic].earliest_seq as int,
                    )
                })
            }
        },
{
    reveal_strlit("op");
    reveal_strlit("request_id");
    reveal_strlit("topics");
    reveal_strlit("from_seq");
    reveal_strlit("head_seq");
    reveal_strlit("earliest_seq");
    assert("from_seq"@[0] == 'f' && "head_seq"@[0] == 'h');
    assert("op"@.len() == 2 && "request_id"@.len() == 10 && "topics"@.len() == 6
        && "earliest_seq"@.len() == 12 && "from_seq"@.len() == 8 && "head_seq"@.len() == 8);
}

/// An unsubscribe is answered with the topics that were named, in their order; a ping
/// with a pong.
pub proof fn law_unsubscribes_and_pings_are_answered(
    request_id: Option<Value>,
    topics: Seq<Seq<char>>,
    i: int,
)
    ensures
        unsubscribed_json(request_id, topics) matches Json::Object(m) && {
            &&& m.contains_key("op"@) && m["op"@] == Json::Str("unsubscribed"@)
            &&& m.contains_key("request_id"@)
            &&& request_id matches Some(v) ==> m["request_id"@] == json(v)
            &&& request_id is None ==> m["request_id"@] == Json::Null
            &&& m.contains_key("topics"@)
            &&& m["topics"@] matches Json::Array(items) && items.len() == topics.len() && (0 <= i
                < topics.len() ==> items[i] == Json::Str(topics[i]))
        },
        pong_json(request_id) matches Json::Object(m) && {
            &&& m.contains_key("op"@) && m["op"@] == Json::Str("pong"@)
            &&& m.contains_key("request_id"@)
            &&& request_id matches Some(v) ==> m["request_id"@] == json(v)
            &&& request_id is None ==> m["request_id"@] == Json::Null
        },
{
    reveal_strlit("op");
    reveal_strlit("request_id");
    reveal_strlit("topics");
    assert("op"@.len() == 2 && "request_id"@.len() == 10 && "topics"@.len() == 6);
}

/// A message is sent with what it holds, member by member; that a topic is gone, with no
/// head. Records are sent as frames of their own.
pub proof fn law_messages_are_sent_with_what_they_hold(f: WsFrameView)
    ensures
        f matches WsFrameView::TopicDeleted { topic } ==> (ws_frame_json(
            f,
        ) matches Some(Json::Object(m)) && {
            &&& m.contains_key("op"@) && m["op"@] == Json::Str("topic_deleted"@)
            &&& m.contains_key("topic"@) && m["topic"@] == Json::Str(topic)
            &&& m.contains_key("head_seq"@) && m["head_seq"@] == Json::Int(0)
            &&& m.contains_key("reason"@) && m["reason"@] == Json::Str("deleted"@)
        }),
        f matches WsFrameView::Tombstone { topic, tombstone } ==> (ws_frame_json(
            f,
        ) matches Some(Json::Object(m)) && {
            &&& m.contains_key("op"@) && m["op"@] == Json::Str("tombstone"@)
            &&& m.contains_key("topic"@) && m["topic"@] == Json::Str(topic)
            &&& m.contains_key("reason"@) && m["reason"@] == Json::Str(tombstone.reason.spec_wire())
            &&& m.contains_key("gap_from"@) && m["gap_from"@] == Json::Int(tombstone.gap_from as int)
            &&& m.contains_key("gap_to"@) && m["gap_to"@] == Json::Int(tombstone.gap_to as int)
            &&& m.contains_key("earliest_seq"@) && m["earliest_seq"@] == Json::Int(
                tombstone.earliest_seq as int,
            )
            &&& m.contains_key("head_seq"@) && m["head_seq"@] == Json::Int(tombstone.head_seq as int)
        }),
        f matches WsFrameView::CaughtUp { topic, head_seq } ==> (ws_frame_json(
            f,
        ) matches Some(Json::Object(m)) && {
            &&& m.contains_key("op"@) && m["op"@] == Json::Str("caught_up"@)
            &&& m.contains_key("topic"@) && m["topic"@] == Json::Str(topic)
            &&& m.contains_key("head_seq"@) && m["head_seq"@] == Json::Int(head_seq as int)
        }),
        ws_frame_json(f) is None <==> f is Record,
{
    reveal_strlit("op");
    reveal_strlit("topic");
    reveal_strlit("reason");
    reveal_strlit("gap_from");
    reveal_strlit("gap_to");
    reveal_strlit("earliest_seq");
    reveal_strlit("head_seq");
    assert("reason"@[0] == 'r' && "gap_to"@[0] == 'g' && "gap_from"@[0] == 'g' && "head_seq"@[0]
        == 'h');
    assert("op"@.len() == 2 && "topic"@.len() == 5 && "reason"@.len() == 6 && "gap_to"@.len() == 6
        && "gap_from"@.len() == 8 && "head_seq"@.len() == 8 && "earliest_seq"@.len() == 12);
}

/// The messages that a read hands out say of the topic, member by member, what the read
/// gave: the loss first, then the records, then that the client has caught up. Of a topic
/// that is gone there is one, that it is.
pub proof fn law_what_is_handed_out_is_what_was_read(
    frames: Seq<WsFrame>,
    s: WsSub,
    topic: Seq<char>,
    from_seq: u64,
    outcome: WsOutcome,
)
    requires
        ws_frame_views(frames) == ws_frames_of(Some(s), topic, from_seq, outcome),
    ensures
        outcome is Missing ==> frames.len() == 1 && (frames[0] matches WsFrame::TopicDeleted {
            topic: gone,
        } && gone@ == topic),
        outcome matches WsOutcome::Read(d) ==> {
            let a: int = if d.tombstone is Some {
                1
            } else {
                0
            };
            let b: int = if d.records@.len() > 0 {
                a + 1
            } else {
                a
            };
            let told = d.caught_up && (b > 0 || !s.caught_up);
            &&& frames.len() == (if told {
                b + 1
            } else {
                b
            })
            &&& a > 0 ==> {
                &&& frames[0] matches WsFrame::Tombstone { topic: of, tombstone }
                &&& of@ == topic
                &&& tombstone == d.tombstone->0
            }
            &&& b > a ==> {
                &&& frames[a] matches WsFrame::Record {
                    topic: of,
                    from_seq: began,
                    to_seq,
                    head_seq,
                    records,
                }
                &&& of@ == topic
                &&& began == from_seq
                &&& to_seq == d.next_from_seq
                &&& head_seq == d.head_seq
                &&& records@ == d.records@
            }
            &&& told ==> {
                &&& frames[b] matches WsFrame::CaughtUp { topic: of, head_seq }
                &&& of@ == topic
                &&& head_seq == d.head_seq
            }
        },
{
    let views = ws_frame_views(frames);
    assert(views.len() == frames.len());
    assert(forall|i: int| 0 <= i < frames.len() ==> views[i] == (#[trigger] frames[i])@);
    if let WsOutcome::Read(d) = outcome {
        let subs = Map::<Seq<char>, WsSub>::empty().insert(topic, s);
        assert(subs[topic] == s);
        law_a_read_is_delivered_whole(subs, topic, from_seq, d, topic);
    }
}

/// Record messages follow on each other: a read that is made where the subscription left
/// off begins where the one before it ended, so that the ranges they name meet.
pub proof fn law_record_messages_meet(
    subs: Map<Seq<char>, WsSub>,
    topic: Seq<char>,
    from_seq: u64,
    first: WsDiff,
    second: WsDiff,
)
    requires
        subs.contains_key(topic),
        first.records@.len() > 0,
        second.records@.len() > 0,
    ensures
        ({
            let between = subs_after(subs, topic, WsOutcome::Read(first));
            let sent = ws_frames_of(Some(subs[topic]), topic, from_seq, WsOutcome::Read(first));
            let later = ws_frames_of(
                Some(between[topic]),
                topic,
                between[topic].cursor,
                WsOutcome::Read(second),
            );
            exists|i: int, j: int|
                0 <= i < sent.len() && 0 <= j < later.len() && #[trigger] sent[i] is Record
                    && #[trigger] later[j] is Record && sent[i]->to_seq == later[j]->from_seq
                    && sent[i]->Record_records == first.records@ && later[j]->Record_records
                    == second.records@
        }),
{
    law_a_read_is_delivered_whole(subs, topic, from_seq, first, topic);
    let between = subs_after(subs, topic, WsOutcome::Read(first));
    law_a_read_is_delivered_whole(between, topic, between[topic].cursor, second, topic);
    let sent = ws_frames_of(Some(subs[topic]), topic, from_seq, WsOutcome::Read(first));
    let later = ws_frames_of(
        Some(between[topic]),
        topic,
        between[topic].cursor,
        WsOutcome::Read(second),
    );
    let i: int = if first.tombstone is Some {
        1
    } else {
        0
    };
    let j: int = if second.tombstone is Some {
        1
    } else {
        0
    };
    assert(sent[i] is Record && later[j] is Record);
}

/// Whatever comes of a command is answered under the id that it came with; and a ping is
/// answered right away.
pub proof fn law_answers_carry_the_commands_id(cmd: WsCommand, plan: WsPlan)
    ensures
        cmd matches WsCommand::Subscribe { request_id, .. } ==> cmd.id() == request_id,
        cmd matches WsCommand::Unsubscribe { request_id, .. } ==> cmd.id() == request_id,
        cmd matches WsCommand::Publish { request_id, .. } ==> cmd.id() == request_id,
        cmd matches WsCommand::Ping { request_id } ==> cmd.id() == request_id,
        cmd is Ping && cmd.is_planned_as(plan) ==> plan is Reply && json(plan->Reply_0) == pong_json(
            cmd.id(),
        ),
        cmd.is_planned_as(plan) ==> {
            &&& plan is Subscribe ==> plan->Subscribe_request_id == cmd.id()
            &&& plan is Unsubscribe ==> plan->Unsubscribe_request_id == cmd.id()
            &&& plan is Write ==> plan->Write_request_id == cmd.id()
        },
{
}

/// A refusal says what is missing: the scope, the topic, or the reach.
pub proof fn law_refusals_say_what_is_missing(p: Principal, cmd: WsCommand)
    requires
        cmd.refusal(p) is Some,
    ensures
        ({
            let (_, message) = cmd.refusal(p)->0;
            &&& cmd is Subscribe && !p.read ==> message == "api key lacks read scope"@
            &&& cmd is Publish && !p.write ==> message == "api key lacks write scope"@
            &&& cmd is Publish && p.write && cmd->config is Some && !p.admin ==> message
                == "configuring a new topic on publish requires admin scope"@
            &&& cmd is Publish && p.write && (cmd->config is None || p.admin) ==> message
                == "api key is not allowed to access this topic name"@
            &&& cmd is Unsubscribe ==> message == "unsubscribe requires topic or topics"@
            &&& cmd is Subscribe && p.read && cmd->Subscribe_topic is Some ==> message
                == "api key is not allowed to access this topic name"@
        }),
{
    if let WsCommand::Subscribe { topic, topics, from_seq, tail, .. } = cmd {
        let wanted = wanted_topics(topic, topics@, from_seq, tail);
        if let Some(t) = topic {
            assert(wanted.dom().contains(t@));
        }
    }
}

}
