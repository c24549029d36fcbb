//! The values that readers, writers and the engine exchange.

use crate::config::DEFAULT_LIMIT;
use crate::name_map::NameMap;
use crate::text::str_eq;
use serde_json::Value;
use vstd::prelude::*;

verus! {

/// What a box does with a write that would exceed its caps.
#[derive(Debug, Clone, Copy, PartialEq, Eq, Structural)]
pub enum Discard {
    /// Evict the oldest records.
    Old,
    /// Refuse the write.
    Reject,
}

/// What a box is used as.
#[derive(Debug, Clone, Copy, PartialEq, Eq, Structural)]
pub enum BoxType {
    /// An append-only log read by cursor.
    Log,
    /// A lease-based queue layered on the log.
    Queue,
}

/// Where a box's records live.
#[derive(Debug, Clone, Copy, PartialEq, Eq, Structural)]
pub enum Durability {
    Disk,
    Ephemeral,
}

/// The configuration of one box.
#[derive(Debug, Clone)]
pub struct BoxConfig {
    pub box_type: BoxType,
    /// Records older than this expire; `0` never expires a record.
    pub ttl_ms: u64,
    /// Most records retained; `0` is unbounded.
    pub cap_records: u64,
    /// Most payload bytes retained; `0` is unbounded.
    pub cap_bytes: u64,
    pub discard: Discard,
    pub durable: bool,
    pub durability: Durability,
    /// Manual priority; `None` leaves the priority to recency.
    pub priority: Option<i32>,
    pub auto_priority: bool,
    pub auto_create: bool,
    pub idempotency_window_ms: u64,
    pub dedupe_node: bool,
    pub lease_ms: u64,
    pub claim_jitter_ms: u64,
    pub max_deliveries: u64,
    pub dead_letter: Option<String>,
    pub leases_durable: bool,
}

impl Default for BoxConfig {
    /// An unbounded durable log that is created on first write.
    fn default() -> (r: Self)
        ensures
            r.box_type == BoxType::Log,
            r.ttl_ms == 0,
            r.cap_records == 0,
            r.cap_bytes == 0,
            r.discard == Discard::Old,
            !r.durable,
            r.durability == Durability::Disk,
            r.priority is None,
            r.auto_priority,
            r.auto_create,
            r.idempotency_window_ms == 120_000,
            r.dedupe_node,
            r.lease_ms == 30_000,
            r.claim_jitter_ms == 0,
            r.max_deliveries == 0,
            r.dead_letter is None,
            !r.leases_durable,
    {
        BoxConfig {
            box_type: BoxType::Log,
            ttl_ms: 0,
            cap_records: 0,
            cap_bytes: 0,
            discard: Discard::Old,
            durable: false,
            durability: Durability::Disk,
            priority: None,
            auto_priority: true,
            auto_create: true,
            idempotency_window_ms: 120_000,
            dedupe_node: true,
            lease_ms: 30_000,
            claim_jitter_ms: 0,
            max_deliveries: 0,
            dead_letter: None,
            leases_durable: false,
        }
    }
}

/// The nodes whose own records a reader does not want back.
#[derive(Debug)]
pub enum NodeFilter {
    One(String),
    Many(Vec<String>),
}

impl Clone for NodeFilter {
    fn clone(&self) -> (r: Self)
        ensures
            r.nodes() == self.nodes(),
    {
        match self {
            NodeFilter::One(n) => NodeFilter::One(n.clone()),
            NodeFilter::Many(ns) => {
                let mut copy: Vec<String> = Vec::new();
                let mut i: usize = 0;
                while i < ns.len()
                    invariant
                        i <= ns@.len(),
                        copy@ == ns@.take(i as int),
                    decreases ns@.len() - i,
                {
                    assert(ns@.take(i + 1) =~= ns@.take(i as int).push(ns@[i as int]));
                    copy.push(ns[i].clone());
                    i += 1;
                }
                assert(copy@ =~= ns@);
                NodeFilter::Many(copy)
            },
        }
    }
}

/// The nodes a reader filters out, where it has a filter.
pub open spec fn filter_nodes(f: Option<NodeFilter>) -> Option<Seq<Seq<char>>> {
    match f {
        Some(x) => Some(x.nodes()),
        None => None,
    }
}

/// A copy of a filter that may be there.
pub fn copy_filter(f: &Option<NodeFilter>) -> (r: Option<NodeFilter>)
    ensures
        filter_nodes(r) == filter_nodes(*f),
{
    match f {
        Some(x) => Some(x.clone()),
        None => None,
    }
}

/// A list of strings holds the text.
pub open spec fn lists(texts: Seq<String>, text: Seq<char>) -> bool {
    exists|i: int| 0 <= i < texts.len() && (#[trigger] texts[i])@ == text
}

/// A list of strings holds a text exactly when its texts contain it.
pub proof fn lemma_lists(texts: Seq<String>, text: Seq<char>)
    ensures
        lists(texts, text) == texts.map_values(|s: String| s@).contains(text),
{
    let views = texts.map_values(|s: String| s@);
    if views.contains(text) {
        let i = views.index_of(text);
        assert(views[i] == text);
        assert(texts[i]@ == text);
    }
    if lists(texts, text) {
        let i = choose|i: int| 0 <= i < texts.len() && (#[trigger] texts[i])@ == text;
        assert(views[i] == text);
    }
}

/// Whether a list of strings holds the text.
pub fn list_contains(texts: &Vec<String>, text: &str) -> (r: bool)
    ensures
        r == lists(texts@, text@),
{
    let mut i: usize = 0;
    while i < texts.len()
        invariant
            i <= texts@.len(),
            forall|j: int| 0 <= j < i ==> (#[trigger] texts@[j])@ != text@,
        decreases texts@.len() - i,
    {
        if str_eq(texts[i].as_str(), text) {
            return true;
        }
        i += 1;
    }
    false
}

impl NodeFilter {
    /// The nodes the filter names.
    pub open spec fn nodes(self) -> Seq<Seq<char>> {
        match self {
            NodeFilter::One(n) => seq![n@],
            NodeFilter::Many(ns) => ns@.map_values(|n: String| n@),
        }
    }

    /// The filter names the node.
    pub open spec fn names(self, node: Seq<char>) -> bool {
        self.nodes().contains(node)
    }

    /// Whether the filter names the node.
    pub fn matches(&self, node: &str) -> (r: bool)
        ensures
            r == self.names(node@),
    {
        match self {
            NodeFilter::One(n) => {
                assert(self.nodes()[0] == n@);
                str_eq(n.as_str(), node)
            },
            NodeFilter::Many(ns) => {
                proof {
                    lemma_lists(ns@, node@);
                }
                list_contains(ns, node)
            },
        }
    }
}

/// A record as a reader gets it.
#[derive(Debug, Clone)]
pub struct RecordOut {
    pub seq: u64,
    pub ts: i64,
    pub node: Option<String>,
    pub tag: Option<String>,
    pub type_: Option<String>,
    pub data: Value,
    pub meta: Option<Value>,
}

/// What went wrong with a request.
#[derive(Debug, Clone, Copy, PartialEq, Eq, Structural)]
pub enum ErrorCode {
    InvalidRequest,
    Unauthorized,
    Forbidden,
    NotFound,
    BoxNotFound,
    RouterNotFound,
    MethodNotAllowed,
    NotAcceptable,
    BoxNotEmpty,
    NotAQueue,
    PayloadTooLarge,
    UnsupportedMediaType,
    Throttled,
    Internal,
    NotReady,
}

impl ErrorCode {
    /// The code as it is sent.
    pub open spec fn spec_code(self) -> Seq<char> {
        match self {
            ErrorCode::InvalidRequest => "invalid_request"@,
            ErrorCode::Unauthorized => "unauthorized"@,
            ErrorCode::Forbidden => "forbidden"@,
            ErrorCode::NotFound => "not_found"@,
            ErrorCode::BoxNotFound => "box_not_found"@,
            ErrorCode::RouterNotFound => "router_not_found"@,
            ErrorCode::MethodNotAllowed => "method_not_allowed"@,
            ErrorCode::NotAcceptable => "not_acceptable"@,
            ErrorCode::BoxNotEmpty => "box_not_empty"@,
            ErrorCode::NotAQueue => "not_a_queue"@,
            ErrorCode::PayloadTooLarge => "payload_too_large"@,
            ErrorCode::UnsupportedMediaType => "unsupported_media_type"@,
            ErrorCode::Throttled => "throttled"@,
            ErrorCode::Internal => "internal"@,
            ErrorCode::NotReady => "not_ready"@,
        }
    }

    /// The HTTP status that goes with the code.
    pub open spec fn spec_status(self) -> u16 {
        match self {
            ErrorCode::InvalidRequest => 400,
            ErrorCode::Unauthorized => 401,
            ErrorCode::Forbidden => 403,
            ErrorCode::NotFound => 404,
            ErrorCode::BoxNotFound => 404,
            ErrorCode::RouterNotFound => 404,
            ErrorCode::MethodNotAllowed => 405,
            ErrorCode::NotAcceptable => 406,
            ErrorCode::BoxNotEmpty => 409,
            ErrorCode::NotAQueue => 409,
            ErrorCode::PayloadTooLarge => 413,
            ErrorCode::UnsupportedMediaType => 415,
            ErrorCode::Throttled => 429,
            ErrorCode::Internal => 500,
            ErrorCode::NotReady => 503,
        }
    }

    /// The code as it is sent.
    pub fn code(self) -> (r: &'static str)
        ensures
            r@ == self.spec_code(),
    {
        match self {
            ErrorCode::InvalidRequest => "invalid_request",
            ErrorCode::Unauthorized => "unauthorized",
            ErrorCode::Forbidden => "forbidden",
            ErrorCode::NotFound => "not_found",
            ErrorCode::BoxNotFound => "box_not_found",
            ErrorCode::RouterNotFound => "router_not_found",
            ErrorCode::MethodNotAllowed => "method_not_allowed",
            ErrorCode::NotAcceptable => "not_acceptable",
            ErrorCode::BoxNotEmpty => "box_not_empty",
            ErrorCode::NotAQueue => "not_a_queue",
            ErrorCode::PayloadTooLarge => "payload_too_large",
            ErrorCode::UnsupportedMediaType => "unsupported_media_type",
            ErrorCode::Throttled => "throttled",
            ErrorCode::Internal => "internal",
            ErrorCode::NotReady => "not_ready",
        }
    }

    /// The HTTP status that goes with the code.
    pub fn status(self) -> (r: u16)
        ensures
            r == self.spec_status(),
            400 <= r < 600,
    {
        match self {
            ErrorCode::InvalidRequest => 400,
            ErrorCode::Unauthorized => 401,
            ErrorCode::Forbidden => 403,
            ErrorCode::NotFound => 404,
            ErrorCode::BoxNotFound => 404,
            ErrorCode::RouterNotFound => 404,
            ErrorCode::MethodNotAllowed => 405,
            ErrorCode::NotAcceptable => 406,
            ErrorCode::BoxNotEmpty => 409,
            ErrorCode::NotAQueue => 409,
            ErrorCode::PayloadTooLarge => 413,
            ErrorCode::UnsupportedMediaType => 415,
            ErrorCode::Throttled => 429,
            ErrorCode::Internal => 500,
            ErrorCode::NotReady => 503,
        }
    }
}

/// The body of an error response.
#[derive(Debug, Clone)]
pub struct ErrorBody {
    pub code: &'static str,
    pub message: String,
    pub detail: Option<Value>,
}

/// The envelope of an error response: `{"error": {...}}`.
#[derive(Debug, Clone)]
pub struct ErrorEnvelope {
    pub error: ErrorBody,
}

/// Why a reader cannot get the records of a gap.
#[derive(Debug, Clone, Copy, PartialEq, Eq, Structural)]
pub enum TombstoneReason {
    /// A cap evicted them.
    Cap,
    /// They outlived the box's time to live.
    Ttl,
    /// Some were evicted and some expired.
    Mixed,
    /// They were gone before the reader connected.
    FromSeqTooOld,
}

impl TombstoneReason {
    /// The reason as it is sent.
    pub open spec fn spec_wire(self) -> Seq<char> {
        match self {
            TombstoneReason::Cap => "cap"@,
            TombstoneReason::Ttl => "ttl"@,
            TombstoneReason::Mixed => "mixed"@,
            TombstoneReason::FromSeqTooOld => "from_seq_too_old"@,
        }
    }

    /// The reason as it is sent.
    pub fn wire(self) -> (r: &'static str)
        ensures
            r@ == self.spec_wire(),
    {
        match self {
            TombstoneReason::Cap => "cap",
            TombstoneReason::Ttl => "ttl",
            TombstoneReason::Mixed => "mixed",
            TombstoneReason::FromSeqTooOld => "from_seq_too_old",
        }
    }
}

/// The signal that records above a reader's cursor were lost: all those from
/// `gap_from` to `gap_to`.
#[derive(Debug, Clone, Copy, PartialEq, Eq, Structural)]
pub struct Tombstone {
    pub gap_from: u64,
    pub gap_to: u64,
    pub reason: TombstoneReason,
    pub earliest_seq: u64,
    pub head_seq: u64,
}

/// A read from a cursor.
#[derive(Debug, Clone)]
pub struct DiffRequest {
    pub from_seq: u64,
    pub limit: u32,
    pub node: Option<NodeFilter>,
    pub include_tags: bool,
    pub include_meta: bool,
    pub wait_ms: u32,
}

impl Default for DiffRequest {
    /// A read from the start.
    fn default() -> (r: Self)
        ensures
            r.from_seq == 0,
            r.limit == DEFAULT_LIMIT,
            r.node is None,
            !r.include_tags,
            r.include_meta,
            r.wait_ms == 0,
    {
        DiffRequest {
            from_seq: 0,
            limit: DEFAULT_LIMIT,
            node: None,
            include_tags: false,
            include_meta: true,
            wait_ms: 0,
        }
    }
}

/// What a read from a cursor gives.
#[derive(Debug, Clone)]
pub struct DiffResponse {
    pub records: Vec<RecordOut>,
    /// The cursor to read from next.
    pub next_from_seq: u64,
    pub head_seq: u64,
    pub earliest_seq: u64,
    /// Nothing is left to read.
    pub caught_up: bool,
    pub tombstone: Option<Tombstone>,
    /// How many seqs are left to read.
    pub lag: u64,
}

/// Where a watcher wants to start in a box.
#[derive(Debug, Clone, Copy, PartialEq, Eq, Structural)]
pub struct WatchBoxOptions {
    pub from_seq: u64,
    /// Start at the head, whatever `from_seq` says.
    pub tail: bool,
}

/// Where a watcher does start in a box, and how far the box reaches.
#[derive(Debug, Clone, Copy, PartialEq, Eq, Structural)]
pub struct WatchBoxState {
    pub from_seq: u64,
    pub head_seq: u64,
    pub earliest_seq: u64,
}

/// How fresh the reads of a watcher have to be.
#[derive(Debug, Clone, Copy, PartialEq, Eq, Structural)]
pub enum Consistency {
    Eventual,
}

/// A subscription to a set of boxes.
#[derive(Debug)]
pub struct WatchCreateRequest {
    pub node: Option<NodeFilter>,
    pub boxes: NameMap<WatchBoxOptions>,
    pub limit: u32,
    pub max_batch_bytes: u64,
    pub heartbeat_ms: u64,
    pub include_meta: bool,
    pub include_tags: bool,
    pub include_data: bool,
    pub consistency: Consistency,
}

/// A record as a writer sends it.
#[derive(Debug)]
pub struct RecordIn {
    pub data: Value,
    pub tag: Option<String>,
    pub meta: Option<Value>,
}

/// A write.
#[derive(Debug)]
pub struct WriteRequest {
    pub records: Vec<RecordIn>,
    pub node: Option<String>,
    pub idempotency_key: Option<String>,
    /// Whether to create a box that is not there; `None` leaves it to the box's
    /// default.
    pub create: Option<bool>,
    pub config: Option<BoxConfig>,
    pub disable_backpressure: bool,
}

/// What became of a write.
#[derive(Debug)]
pub struct WriteResponse {
    pub first_seq: u64,
    pub last_seq: u64,
    /// The seqs assigned, where the writer asked for them.
    pub seqs: Option<Vec<u64>>,
    pub head_seq: u64,
    pub count: u64,
    /// The write created the box.
    pub created: bool,
    /// The write repeats an earlier one.
    pub deduped: bool,
    /// Timings.
    pub performance: Value,
}

/// A filter filters out the node, or the nodes, that it lists, and no other.
pub proof fn law_a_filter_names_what_it_lists(f: NodeFilter, node: Seq<char>)
    ensures
        f matches NodeFilter::One(n) ==> (f.names(node) <==> n@ == node),
        f matches NodeFilter::Many(ns) ==> (f.names(node) <==> exists|i: int|
            0 <= i < ns@.len() && (#[trigger] ns@[i])@ == node),
{
    match f {
        NodeFilter::One(n) => {
            assert(f.nodes()[0] == n@);
        },
        NodeFilter::Many(ns) => {
            lemma_lists(ns@, node);
        },
    }
}

/// Filters with the same nodes filter out the same.
pub proof fn law_filters_go_by_their_nodes(f: Option<NodeFilter>, g: Option<NodeFilter>)
    requires
        filter_nodes(f) == filter_nodes(g),
    ensures
        f is Some <==> g is Some,
        f matches Some(x) ==> forall|node: Seq<char>| #[trigger]
            x.names(node) <==> (g->0).names(node),
{
}

}
