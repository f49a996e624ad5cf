use vstd::prelude::*;
use crate::bytes::lower;
use crate::errors::spec_status_for;
use crate::errors::status_for;
use crate::request::{Request, ReqView, header_value_in, find_header};
use crate::codec::{
    Limits, RequestParser, ParseResult, ParseOutcome, spec_parse_request, connection_name,
    connection_name_vec, close_token, close_token_vec, keep_alive_token, keep_alive_token_vec,
};
use crate::request::Version;
use crate::response::{Response, RespView, ResponseBody, spec_serialize_response, serialize_response};

verus! {

/// Whether the request asks for the connection to stay open after its
/// response: the HTTP/1.1 default is yes unless `Connection: close`;
/// HTTP/1.0 needs an explicit `Connection: keep-alive`.
pub open spec fn spec_keep_alive_requested(req: ReqView) -> bool {
    match header_value_in(req.headers, connection_name()) {
        Some(v) => if req.version is Http11 {
            lower(v) != close_token()
        } else {
            lower(v) == keep_alive_token()
        },
        None => req.version is Http11,
    }
}

/// Whether the request asks for the connection to stay open.
pub fn keep_alive_requested(req: &Request) -> (r: bool)
    ensures
        r == spec_keep_alive_requested(req@),
{
    let conn = connection_name_vec();
    match find_header(&req.headers, &conn) {
        None => match req.version {
            Version::Http11 => true,
            Version::Http10 => false,
        },
        Some(v) => match req.version {
            Version::Http11 => {
                let close = close_token_vec();
                !crate::bytes::eq_ignore_case(v, &close)
            },
            Version::Http10 => {
                let ka = keep_alive_token_vec();
                crate::bytes::eq_ignore_case(v, &ka)
            },
        },
    }
}

/// Whether the response forces the connection closed, through an explicit
/// `Connection: close` header the application supplied.
pub open spec fn spec_resp_forces_close(r: RespView) -> bool {
    match header_value_in(r.headers, connection_name()) {
        Some(v) => lower(v) == close_token(),
        None => false,
    }
}

/// Whether the response forces the connection closed.
pub fn resp_forces_close(r: &Response) -> (b: bool)
    ensures
        b == spec_resp_forces_close(r@),
{
    let conn = connection_name_vec();
    match find_header(&r.headers, &conn) {
        None => false,
        Some(v) => {
            let close = close_token_vec();
            crate::bytes::eq_ignore_case(v, &close)
        },
    }
}

/// The error response the worker sends for a rejected request: the 4xx
/// status with an empty reason, no headers, no body. The connection is
/// closed after it is flushed.
pub open spec fn spec_error_response(code: u16) -> RespView {
    RespView { status: code, reason: Seq::empty(), headers: Seq::empty(), body: crate::response::BodyView::Empty }
}

/// Builds the worker's error response for a status code.
pub fn error_response(code: u16) -> (r: Response)
    ensures
        r@ == spec_error_response(code),
{
    let r = Response { status: code, reason: Vec::new(), headers: Vec::new(), body: ResponseBody::Empty };
    proof {
        assert(r@.reason =~= spec_error_response(code).reason);
        assert(r@.headers =~= spec_error_response(code).headers);
    }
    r
}

/// Where a connection stands in its request/response cycle.
pub enum Phase {
    /// Reading and parsing request bytes.
    Receiving,
    /// A full request was handed out; awaiting the application's response.
    Dispatching,
    /// A serialized response is being flushed, possibly across many
    /// write-readiness events.
    Writing,
    /// Torn down: protocol error sent, fatal transport error, timeout,
    /// or a completed cycle without keep-alive.
    Closed,
}

/// One connection's full lifecycle state, owned by exactly one shard's
/// event loop and driven by readiness events. Request N+1 is never parsed
/// before response N is fully flushed: bytes arriving early are buffered
/// in the parser but `on_data` can only run in the receiving phase.
pub struct Connection {
    parser: RequestParser,
    phase: Phase,
    pending: Vec<u8>,
    written: usize,
    ka_hint: bool,
    keep_alive: bool,
    last_activity: u64,
    cycles: Ghost<nat>,
}

/// What the worker asks its driver to do after new bytes arrived.
pub enum ReadStep {
    /// Nothing complete yet: await more read-readiness.
    NeedMore,
    /// A full request: invoke the application callback, then call
    /// `start_response`.
    Dispatch(Request),
    /// The request was rejected with this 4xx status; an error response
    /// is pending and the connection closes once it is flushed. The
    /// application callback is never invoked for it.
    Reject(u16),
}

impl Connection {
    /// Buffered, not yet consumed input bytes.
    pub closed spec fn bytes(&self) -> Seq<u8> {
        self.parser.bytes()
    }

    /// The configured limits.
    pub closed spec fn lim(&self) -> Limits {
        self.parser.limits_spec()
    }

    /// Current phase.
    pub closed spec fn phase(&self) -> Phase {
        self.phase
    }

    /// The serialized response being flushed.
    pub closed spec fn pending_view(&self) -> Seq<u8> {
        self.pending@
    }

    /// How many of the pending bytes are already written.
    pub closed spec fn written_count(&self) -> int {
        self.written as int
    }

    /// Whether the request of the current cycle asked for keep-alive.
    pub closed spec fn ka_requested(&self) -> bool {
        self.ka_hint
    }

    /// The keep-alive decision for the cycle being written.
    pub closed spec fn keep_alive_decided(&self) -> bool {
        self.keep_alive
    }

    /// Completed request/response cycles on this connection.
    pub closed spec fn cycles(&self) -> nat {
        self.cycles@
    }

    /// When the connection was last touched by I/O, in the driver's clock.
    pub closed spec fn last_activity_spec(&self) -> u64 {
        self.last_activity
    }

    /// Internal consistency: the write offset never passes the pending
    /// buffer, and the limits are machine-sane.
    pub closed spec fn wf(&self) -> bool {
        self.written <= self.pending@.len() && self.parser.limits_spec().wf()
    }

    /// A fresh connection, ready to receive its first request.
    pub fn new(limits: Limits) -> (c: Connection)
        requires
            limits.wf(),
        ensures
            c.wf(),
            c.phase() is Receiving,
            c.bytes() == Seq::<u8>::empty(),
            c.lim() == limits,
            c.cycles() == 0,
    {
        Connection {
            parser: RequestParser::new(limits),
            phase: Phase::Receiving,
            pending: Vec::new(),
            written: 0,
            ka_hint: false,
            keep_alive: false,
            last_activity: 0,
            cycles: Ghost(0),
        }
    }

    /// Records I/O activity at time `now_ms`, for the scheduler's
    /// periodic timeout sweep.
    pub fn touch(&mut self, now_ms: u64)
        requires
            old(self).wf(),
        ensures
            final(self).wf(),
            final(self).last_activity_spec() == now_ms,
            final(self).phase() == old(self).phase(),
            final(self).bytes() == old(self).bytes(),
            final(self).lim() == old(self).lim(),
            final(self).pending_view() == old(self).pending_view(),
            final(self).written_count() == old(self).written_count(),
            final(self).keep_alive_decided() == old(self).keep_alive_decided(),
            final(self).cycles() == old(self).cycles(),
    {
        self.last_activity = now_ms;
    }

    /// Whether the connection has sat idle past the keep-alive timeout:
    /// true exactly when `timeout_ms` or more elapsed since the last
    /// recorded activity. The sweep closes such connections.
    pub fn idle_expired(&self, now_ms: u64, timeout_ms: u64) -> (b: bool)
        ensures
            b == (now_ms >= self.last_activity_spec() && now_ms - self.last_activity_spec()
                >= timeout_ms),
    {
        now_ms >= self.last_activity && now_ms - self.last_activity >= timeout_ms
    }

    /// Feeds newly read bytes. Exactly one of three things happens, fixed
    /// by the grammar on the accumulated stream: more bytes are needed; a
    /// full request is handed out for dispatch (its consumed bytes leave
    /// the buffer, any pipelined remainder stays buffered, unprocessed);
    /// or the stream is rejected, a 4xx error response becomes pending,
    /// and the application is never invoked.
    pub fn on_data(&mut self, chunk: &Vec<u8>) -> (r: ReadStep)
        requires
            old(self).wf(),
            old(self).phase() is Receiving,
        ensures
            final(self).wf(),
            final(self).lim() == old(self).lim(),
            final(self).cycles() == old(self).cycles(),
            ({
                let s = old(self).bytes() + chunk@;
                match spec_parse_request(s, old(self).lim()) {
                    ParseOutcome::NeedMore => r is NeedMore && final(self).phase() is Receiving
                        && final(self).bytes() == s,
                    ParseOutcome::Complete { req, consumed } => (r matches ReadStep::Dispatch(q)
                        && q@ == req) && final(self).phase() is Dispatching && final(self).bytes()
                        == s.skip(consumed) && final(self).ka_requested()
                        == spec_keep_alive_requested(req),
                    ParseOutcome::Failed(err) => r == ReadStep::Reject(spec_status_for(err))
                        && final(self).phase() is Writing && final(self).pending_view()
                        == spec_serialize_response(spec_error_response(spec_status_for(err)))
                        && final(self).written_count() == 0 && !final(self).keep_alive_decided(),
                }
            }),
    {
        let res = self.parser.feed(chunk);
        match res {
            ParseResult::NeedMore => ReadStep::NeedMore,
            ParseResult::Complete(req, used) => {
                self.parser.consume(used);
                self.ka_hint = keep_alive_requested(&req);
                self.phase = Phase::Dispatching;
                ReadStep::Dispatch(req)
            },
            ParseResult::Failed(err) => {
                let code = status_for(err);
                let resp = error_response(code);
                self.pending = serialize_response(&resp);
                self.written = 0;
                self.keep_alive = false;
                self.phase = Phase::Writing;
                ReadStep::Reject(code)
            },
        }
    }

    /// Takes the application's response for the dispatched request and
    /// makes its wire form pending. The keep-alive decision is fixed
    /// here: the request asked for it and the response does not force
    /// closure.
    pub fn start_response(&mut self, resp: &Response)
        requires
            old(self).wf(),
            old(self).phase() is Dispatching,
        ensures
            final(self).wf(),
            final(self).phase() is Writing,
            final(self).pending_view() == spec_serialize_response(resp@),
            final(self).written_count() == 0,
            final(self).keep_alive_decided() == (old(self).ka_requested()
                && !spec_resp_forces_close(resp@)),
            final(self).bytes() == old(self).bytes(),
            final(self).lim() == old(self).lim(),
            final(self).cycles() == old(self).cycles(),
    {
        self.pending = serialize_response(resp);
        self.written = 0;
        self.keep_alive = self.ka_hint && !resp_forces_close(resp);
        self.phase = Phase::Writing;
    }

    /// The application callback failed after the request was dispatched.
    /// No response byte has been written yet at that point, so the worker
    /// answers with a 500-class response and closes the connection once
    /// it is flushed. (A fault after bytes went out is a transport-level
    /// abort: `on_error`.)
    pub fn on_app_fault(&mut self)
        requires
            old(self).wf(),
            old(self).phase() is Dispatching,
        ensures
            final(self).wf(),
            final(self).phase() is Writing,
            final(self).pending_view() == spec_serialize_response(spec_error_response(500)),
            final(self).written_count() == 0,
            !final(self).keep_alive_decided(),
            final(self).lim() == old(self).lim(),
    {
        let resp = error_response(500);
        self.pending = serialize_response(&resp);
        self.written = 0;
        self.keep_alive = false;
        self.phase = Phase::Writing;
    }

    /// The bytes still to be written, from the partial-write offset on.
    pub fn next_write(&self) -> (r: Vec<u8>)
        requires
            self.wf(),
            self.phase() is Writing,
        ensures
            r@ == self.pending_view().skip(self.written_count()),
    {
        let r = crate::bytes::sub_vec(&self.pending, self.written, self.pending.len());
        proof {
            assert(self.pending@.subrange(self.written as int, self.pending@.len() as int)
                =~= self.pending@.skip(self.written as int));
        }
        r
    }

    /// Records that the transport accepted `n` more bytes of the pending
    /// response (a partial write); the offset moves, nothing else.
    pub fn on_write_ready(&mut self, n: usize)
        requires
            old(self).wf(),
            old(self).phase() is Writing,
            n <= old(self).pending_view().len() - old(self).written_count(),
        ensures
            final(self).wf(),
            final(self).phase() is Writing,
            final(self).written_count() == old(self).written_count() + n,
            final(self).pending_view() == old(self).pending_view(),
            final(self).bytes() == old(self).bytes(),
            final(self).lim() == old(self).lim(),
            final(self).cycles() == old(self).cycles(),
            final(self).keep_alive_decided() == old(self).keep_alive_decided(),
    {
        let cap = self.pending.len();
        proof {
            assert(self.written + n <= cap);
        }
        self.written = self.written + n;
    }

    /// Whether the pending response is fully flushed.
    pub fn flushed(&self) -> (b: bool)
        requires
            self.wf(),
        ensures
            b == (self.written_count() == self.pending_view().len()),
    {
        self.written == self.pending.len()
    }

    /// Ends a cycle whose response is fully flushed. With keep-alive the
    /// connection stays open: the cycle count grows by one and the very
    /// same buffered bytes (a pipelined next request, if any) await the
    /// receiving phase — parsing of cycle N+1 begins only now, after
    /// cycle N's response went out whole. Without keep-alive the
    /// connection closes.
    pub fn finish_cycle(&mut self) -> (open: bool)
        requires
            old(self).wf(),
            old(self).phase() is Writing,
            old(self).written_count() == old(self).pending_view().len(),
        ensures
            final(self).wf(),
            open == old(self).keep_alive_decided(),
            final(self).lim() == old(self).lim(),
            open ==> final(self).phase() is Receiving && final(self).cycles() == old(
                self,
            ).cycles() + 1 && final(self).bytes() == old(self).bytes(),
            !open ==> final(self).phase() is Closed,
    {
        self.pending = Vec::new();
        self.written = 0;
        if self.keep_alive {
            self.phase = Phase::Receiving;
            proof {
                self.cycles@ = self.cycles@ + 1;
            }
            true
        } else {
            self.phase = Phase::Closed;
            false
        }
    }

    /// The scheduler's timeout sweep found this connection idle past the
    /// keep-alive timeout: it closes.
    pub fn on_timeout(&mut self)
        requires
            old(self).wf(),
        ensures
            final(self).wf(),
            final(self).phase() is Closed,
    {
        self.phase = Phase::Closed;
    }

    /// A fatal transport error: the connection closes with no further
    /// response attempt.
    pub fn on_error(&mut self)
        requires
            old(self).wf(),
        ensures
            final(self).wf(),
            final(self).phase() is Closed,
    {
        self.phase = Phase::Closed;
    }

    /// Whether the connection is still open.
    pub fn is_open(&self) -> (b: bool)
        ensures
            b == !(self.phase() is Closed),
    {
        match self.phase {
            Phase::Closed => false,
            _ => true,
        }
    }
}

/// A full cycle as a function: what wire bytes one connection sends back
/// for a given input stream, with the application modelled as a function
/// from request to response.
pub open spec fn spec_cycle_response(
    s: Seq<u8>,
    lim: Limits,
    app: spec_fn(ReqView) -> RespView,
) -> Option<Seq<u8>> {
    match spec_parse_request(s, lim) {
        ParseOutcome::Complete { req, consumed } => Some(spec_serialize_response(app(req))),
        _ => None,
    }
}

/// Idempotence across connections: the same well-formed request, issued
/// against the same application on any two independent connections,
/// yields structurally identical responses — the whole cycle is a
/// function of the input stream and the application alone, with no
/// hidden per-connection state.
pub proof fn lemma_idempotent_responses(
    s1: Seq<u8>,
    s2: Seq<u8>,
    lim: Limits,
    app: spec_fn(ReqView) -> RespView,
)
    requires
        s1 == s2,
    ensures
        spec_cycle_response(s1, lim, app) == spec_cycle_response(s2, lim, app),
{
}

} // verus!
