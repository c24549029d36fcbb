//! The error of a request, and how it is put on the wire.

use crate::json::{json, json_opt, with_member, Json, ObjectBuilder};
use crate::text::{concat3, debug_quoted, quoted};
use crate::types::{ErrorBody, ErrorCode, ErrorEnvelope};
use serde_json::Value;
use vstd::prelude::*;

verus! {

/// A failed request. It is sent as `{"error": {code, message, detail?}}`.
#[derive(Debug)]
pub struct Error {
    pub code: ErrorCode,
    pub message: String,
    pub detail: Option<Value>,
    /// Seconds after which to try again.
    pub retry_after_s: Option<u64>,
}

pub type Result<T> = std::result::Result<T, Error>;

/// The detail that names one thing.
pub open spec fn naming(key: Seq<char>, name: Seq<char>) -> Json {
    Json::Object(map![key => Json::Str(name)])
}

/// A detail that names one thing.
pub fn name_detail(key: &str, name: &str) -> (v: Value)
    ensures
        json(v) == naming(key@, name@),
{
    let mut obj = ObjectBuilder::new();
    obj.put_str(key, name);
    assert(obj.doc() =~= map![key@ => Json::Str(name@)]);
    obj.finish()
}

impl Error {
    /// The error has this code and message, no detail and no retry time.
    pub open spec fn is_plain(self, code: ErrorCode, message: Seq<char>) -> bool {
        &&& self.code == code
        &&& self.message@ == message
        &&& self.detail is None
        &&& self.retry_after_s is None
    }

    /// The error has this code and message, and a detail that names one thing.
    pub open spec fn is_about(
        self,
        code: ErrorCode,
        message: Seq<char>,
        key: Seq<char>,
        name: Seq<char>,
    ) -> bool {
        &&& self.code == code
        &&& self.message@ == message
        &&& self.detail is Some
        &&& json(self.detail->0) == naming(key, name)
        &&& self.retry_after_s is None
    }

    pub fn new(code: ErrorCode, message: &str) -> (r: Self)
        ensures
            r.is_plain(code, message@),
    {
        Error { code, message: message.to_string(), detail: None, retry_after_s: None }
    }

    pub fn with_detail(self, detail: Value) -> (r: Self)
        ensures
            r == (Error { detail: Some(detail), ..self }),
    {
        Error {
            code: self.code,
            message: self.message,
            detail: Some(detail),
            retry_after_s: self.retry_after_s,
        }
    }

    pub fn with_retry_after(self, secs: u64) -> (r: Self)
        ensures
            r == (Error { retry_after_s: Some(secs), ..self }),
    {
        Error {
            code: self.code,
            message: self.message,
            detail: self.detail,
            retry_after_s: Some(secs),
        }
    }

    pub fn invalid_request(message: &str) -> (r: Self)
        ensures
            r.is_plain(ErrorCode::InvalidRequest, message@),
    {
        Error::new(ErrorCode::InvalidRequest, message)
    }

    pub fn box_not_found(box_name: &str) -> (r: Self)
        ensures
            r.is_about(
                ErrorCode::BoxNotFound,
                "box "@ + debug_quoted(box_name@) + " does not exist"@,
                "box"@,
                box_name@,
            ),
    {
        let message = concat3("box ", quoted(box_name).as_str(), " does not exist");
        Error::new(ErrorCode::BoxNotFound, message.as_str()).with_detail(
            name_detail("box", box_name),
        )
    }

    pub fn not_a_queue(box_name: &str) -> (r: Self)
        ensures
            r.is_about(
                ErrorCode::NotAQueue,
                "box "@ + debug_quoted(box_name@) + " is not a queue"@,
                "box"@,
                box_name@,
            ),
    {
        let message = concat3("box ", quoted(box_name).as_str(), " is not a queue");
        Error::new(ErrorCode::NotAQueue, message.as_str()).with_detail(
            name_detail("box", box_name),
        )
    }

    pub fn router_not_found(router: &str) -> (r: Self)
        ensures
            r.is_about(
                ErrorCode::RouterNotFound,
                "router "@ + debug_quoted(router@) + " does not exist"@,
                "router"@,
                router@,
            ),
    {
        let message = concat3("router ", quoted(router).as_str(), " does not exist");
        Error::new(ErrorCode::RouterNotFound, message.as_str()).with_detail(
            name_detail("router", router),
        )
    }

    pub fn internal(message: &str) -> (r: Self)
        ensures
            r.is_plain(ErrorCode::Internal, message@),
    {
        Error::new(ErrorCode::Internal, message)
    }

    /// The document this error is sent as.
    pub open spec fn wire(self) -> Json {
        Json::Object(
            map![
                "error"@ => Json::Object(
                    error_members(self.code.spec_code(), self.message@, self.detail),
                ),
            ],
        )
    }

    /// The envelope this error is sent in.
    pub fn envelope(&self) -> (r: ErrorEnvelope)
        ensures
            r.error.code@ == self.code.spec_code(),
            r.error.message == self.message,
            r.error.detail == self.detail,
    {
        ErrorEnvelope {
            error: ErrorBody {
                code: self.code.code(),
                message: self.message.clone(),
                detail: self.detail.clone(),
            },
        }
    }

    pub fn http_status(&self) -> (r: u16)
        ensures
            r == self.code.spec_status(),
            400 <= r < 600,
    {
        self.code.status()
    }
}

/// The members of an error's body: the detail only where there is one.
pub open spec fn error_members(
    code: Seq<char>,
    message: Seq<char>,
    detail: Option<Value>,
) -> Map<Seq<char>, Json> {
    with_member(
        map!["code"@ => Json::Str(code), "message"@ => Json::Str(message)],
        "detail"@,
        json_opt(detail),
    )
}

impl ErrorEnvelope {
    /// The members of the envelope's body.
    pub open spec fn body_members(self) -> Map<Seq<char>, Json> {
        error_members(self.error.code@, self.error.message@, self.error.detail)
    }

    /// The envelope as a JSON document.
    pub fn to_json(&self) -> (v: Value)
        ensures
            json(v) == Json::Object(map!["error"@ => Json::Object(self.body_members())]),
    {
        let mut body = ObjectBuilder::new();
        body.put_str("code", self.error.code);
        body.put_str("message", self.error.message.as_str());
        assert(body.doc() =~= map![
            "code"@ => Json::Str(self.error.code@),
            "message"@ => Json::Str(self.error.message@),
        ]);
        if let Some(detail) = &self.error.detail {
            body.put("detail", detail.clone());
        }
        let mut obj = ObjectBuilder::new();
        obj.put("error", body.finish());
        assert(obj.doc() =~= map!["error"@ => Json::Object(self.body_members())]);
        obj.finish()
    }
}

/// What an error says goes on the wire as it is: its code and its message, and the
/// detail exactly where there is one.
pub proof fn law_errors_are_sent_as_they_are(e: Error)
    ensures
        e.wire() matches Json::Object(m) && m.contains_key("error"@) && (
        m["error"@] matches Json::Object(body) && {
            &&& body.contains_key("code"@) && body["code"@] == Json::Str(e.code.spec_code())
            &&& body.contains_key("message"@) && body["message"@] == Json::Str(e.message@)
            &&& body.contains_key("detail"@) <==> e.detail is Some
            &&& e.detail matches Some(d) ==> body["detail"@] == json(d)
        }),
{
    reveal_strlit("code");
    reveal_strlit("message");
    reveal_strlit("detail");
    assert("code"@.len() == 4 && "message"@.len() == 7 && "detail"@.len() == 6);
}

/// A plain error has a code and a message and nothing more; one about a thing names it
/// too.
pub proof fn law_errors_say_what_they_are_about(
    e: Error,
    code: ErrorCode,
    message: Seq<char>,
    key: Seq<char>,
    name: Seq<char>,
)
    ensures
        e.is_plain(code, message) <==> e.code == code && e.message@ == message && e.detail is None
            && e.retry_after_s is None,
        e.is_about(code, message, key, name) ==> {
            &&& e.code == code
            &&& e.message@ == message
            &&& e.retry_after_s is None
            &&& e.detail is Some
            &&& json(e.detail->0) matches Json::Object(m) && m.contains_key(key) && m[key]
                == Json::Str(name)
        },
{
}

}
