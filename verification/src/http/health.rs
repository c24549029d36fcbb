//! The answers of the health, readiness and metrics endpoints.

use crate::error::{Error, Result};
use crate::json::{json, Json, ObjectBuilder};
use crate::text::{
    contains_str, decimal, decimal_digits, has_substring, law_a_text_is_in_what_holds_it,
    lemma_decimal_digits,
};
use crate::types::ErrorCode;
use serde_json::Value;
use vstd::prelude::*;
use vstd::string::*;

verus! {

/// The answer to a liveness probe.
pub fn health_body(version: &str, uptime_ms: i64) -> (v: Value)
    ensures
        json(v) == Json::Object(
            map![
                "status"@ => Json::Str("ok"@),
                "version"@ => Json::Str(version@),
                "uptime_ms"@ => Json::Int(uptime_ms as int),
            ],
        ),
{
    let mut obj = ObjectBuilder::new();
    obj.put_str("status", "ok");
    obj.put_str("version", version);
    obj.put_i64("uptime_ms", uptime_ms);
    obj.finish()
}

/// The answer to a readiness probe: ready once the log was replayed; before that
/// an error that says how far the replay is, and to try again in a second.
pub fn readiness(is_ready: bool, boxes: u64, replay_progress: Value) -> (r: Result<Value>)
    ensures
        r is Ok == is_ready,
        match r {
            Ok(v) => json(v) == Json::Object(
                map![
                    "status"@ => Json::Str("ready"@),
                    "wal_replay_complete"@ => Json::Bool(true),
                    "boxes"@ => Json::Int(boxes as int),
                ],
            ),
            Err(e) => {
                &&& e.code == ErrorCode::NotReady
                &&& e.message@ == "WAL replay in progress"@
                &&& e.detail is Some
                &&& json(e.detail->0) == Json::Object(
                    map!["replay_progress"@ => json(replay_progress)],
                )
                &&& e.retry_after_s == Some(1u64)
            },
        },
{
    let mut obj = ObjectBuilder::new();
    if is_ready {
        obj.put_str("status", "ready");
        obj.put_bool("wal_replay_complete", true);
        obj.put_u64("boxes", boxes);
        return Ok(obj.finish());
    }
    obj.put("replay_progress", replay_progress);
    Err(
        Error::new(ErrorCode::NotReady, "WAL replay in progress").with_detail(
            obj.finish(),
        ).with_retry_after(1),
    )
}

/// The `Accept` header asks for JSON.
pub open spec fn asks_for_json(accept: Option<&str>) -> bool {
    match accept {
        Some(a) => has_substring(a@, "application/json"@),
        None => false,
    }
}

/// The metrics, in the form a client asks for.
pub enum Metrics {
    Json(Value),
    Text(String),
}

/// The metrics in the Prometheus text format.
pub open spec fn prometheus_text(boxes: u64) -> Seq<char> {
    "# HELP streams_boxes Number of boxes.\n"@ + "# TYPE streams_boxes gauge\n"@
        + "streams_boxes "@ + decimal_digits(boxes as nat) + "\n"@
}

/// The metrics in the Prometheus text format.
pub fn render_prometheus(boxes: u64) -> (r: String)
    ensures
        r@ == prometheus_text(boxes),
{
    let mut out = String::new();
    out.append("# HELP streams_boxes Number of boxes.\n");
    out.append("# TYPE streams_boxes gauge\n");
    out.append("streams_boxes ");
    out.append(decimal(boxes).as_str());
    out.append("\n");
    assert(out@ =~= prometheus_text(boxes));
    out
}

/// The metrics, in the form a client asks for.
pub fn metrics(accept: Option<&str>, boxes: u64) -> (r: Metrics)
    ensures
        match r {
            Metrics::Json(v) => asks_for_json(accept) && json(v) == Json::Object(
                map!["boxes"@ => Json::Int(boxes as int)],
            ),
            Metrics::Text(t) => !asks_for_json(accept) && t@ == prometheus_text(boxes),
        },
{
    let wants_json = match accept {
        Some(a) => contains_str(a, "application/json"),
        None => false,
    };
    if wants_json {
        let mut obj = ObjectBuilder::new();
        obj.put_u64("boxes", boxes);
        Metrics::Json(obj.finish())
    } else {
        Metrics::Text(render_prometheus(boxes))
    }
}

/// The metrics tell the count: they are the same text only for the same count.
pub proof fn law_metrics_tell_the_count(a: u64, b: u64)
    requires
        prometheus_text(a) == prometheus_text(b),
    ensures
        a == b,
{
    let head = "# HELP streams_boxes Number of boxes.\n"@ + "# TYPE streams_boxes gauge\n"@
        + "streams_boxes "@;
    let x = prometheus_text(a);
    let y = prometheus_text(b);
    reveal_strlit("\n");
    let n = head.len() as int;
    assert(x.subrange(n, x.len() - 1) =~= decimal_digits(a as nat));
    assert(y.subrange(n, y.len() - 1) =~= decimal_digits(b as nat));
    lemma_decimal_digits(a as nat);
    lemma_decimal_digits(b as nat);
}

/// JSON goes to those who ask for it, wherever in the header they do, and to nobody
/// else.
pub proof fn law_json_goes_to_who_asks(accept: &str, front: Seq<char>, back: Seq<char>)
    ensures
        accept@ == front + "application/json"@ + back ==> asks_for_json(Some(accept)),
        asks_for_json(Some(accept)) ==> exists|i: int|
            0 <= i && i + "application/json"@.len() <= accept@.len() && #[trigger] accept@.subrange(
                i,
                i + "application/json"@.len(),
            ) == "application/json"@,
        !asks_for_json(None),
{
    law_a_text_is_in_what_holds_it(front, "application/json"@, back, accept@);
}

}
