//! Decisions of the connection pipeline: which status a failure gets, whether
//! a request is let through, how a response is finished and written.

use vstd::prelude::*;
use crate::common::{MapUpdates, TextMap, lookup, put};
use crate::text::{lower_of, chars_eq, chars_of, string_of, trim, trimmed};
use crate::request::{Request, deserialize, head_word, header_word, parsed};
use crate::router::{REST, Route, method_key};
use crate::trie::HandlerId;

verus! {

/// How many times a response body flush is tried before the stream is shut.
pub const FLUSH_RETRY: u8 = 4;

/// Why a connection could not be served normally.
#[derive(Debug, Clone, Copy, PartialEq, Eq, Structural)]
pub enum ConnError {
    /// The request held nothing but whitespace.
    EmptyRequest,
    /// The stream could not be read; the peer is gone.
    ReadStreamFailure,
    /// The authorization hook refused the path.
    AccessDenied,
    /// No handler matches the request.
    ServiceUnavailable,
}

/// The status sent back for a failure; `None` where the socket is just closed.
pub open spec fn status_spec(err: ConnError) -> Option<u16> {
    match err {
        ConnError::EmptyRequest => Some(400),
        ConnError::AccessDenied => Some(401),
        ConnError::ServiceUnavailable => Some(404),
        ConnError::ReadStreamFailure => None,
    }
}

pub fn error_status(err: ConnError) -> (r: Option<u16>)
    ensures
        r == status_spec(err),
{
    match err {
        ConnError::EmptyRequest => Some(400),
        ConnError::AccessDenied => Some(401),
        ConnError::ServiceUnavailable => Some(404),
        ConnError::ReadStreamFailure => None,
    }
}

/// The word `host`.
fn host_word() -> (r: String)
    ensures
        r@ == seq!['h', 'o', 's', 't'],
{
    let mut v: Vec<char> = Vec::new();
    v.push('h');
    v.push('o');
    v.push('s');
    v.push('t');
    assert(v@ =~= seq!['h', 'o', 's', 't']);
    string_of(&v)
}

/// Parses the text read from a connection. Text that is empty or only
/// whitespace is `EmptyRequest`; otherwise the request as `deserialize`
/// makes it, with its host taken from the `host` header, and the handler found.
pub fn parse_request(raw: &str, router: &Route) -> (r: Result<(Request, Option<HandlerId>), ConnError>)
    requires
        router.wf(),
    ensures
        trim(raw@).len() == 0 <==> r == Err::<(Request, Option<HandlerId>), ConnError>(ConnError::EmptyRequest),
        r is Err ==> trim(raw@).len() == 0,
        r matches Ok((req, cb)) ==> req.wf() && parsed(raw@, *router, req, cb),
        r matches Ok((req, cb)) ==> req.host@ == match lookup(req.headers@, seq!['h', 'o', 's', 't']) {
            Some(h) => h,
            None => Seq::<char>::empty(),
        },
{
    let cs = chars_of(raw);
    let t = trimmed(&cs);
    if t.len() == 0 {
        return Err(ConnError::EmptyRequest);
    }
    let (mut request, callback) = deserialize(raw, router);
    let key = host_word();
    match request.header(key.as_str()) {
        Some(h) => {
            request.host = h;
        },
        None => {},
    }
    Ok((request, callback))
}

/// Whether the request may go on to its handler: a refusal by the
/// authorization hook (where one is set) is `AccessDenied`; a missing
/// handler is `ServiceUnavailable`.
pub fn authorize(callback: Option<HandlerId>, auth: Option<bool>) -> (r: Result<HandlerId, ConnError>)
    ensures
        auth == Some(false) ==> r == Err::<HandlerId, ConnError>(ConnError::AccessDenied),
        auth != Some(false) && callback.is_none() ==> r == Err::<HandlerId, ConnError>(ConnError::ServiceUnavailable),
        auth != Some(false) && callback.is_some() ==> r == Ok::<HandlerId, ConnError>(callback.unwrap()),
{
    match auth {
        Some(false) => {
            return Err(ConnError::AccessDenied);
        },
        _ => {},
    }
    match callback {
        Some(cb) => Ok(cb),
        None => Err(ConnError::ServiceUnavailable),
    }
}

/// Whether another flush is tried after `attempts` attempts, the last of
/// which succeeded or not.
pub fn should_retry_flush(attempts: u8, flushed: bool) -> (r: bool)
    ensures
        r == (!flushed && attempts < FLUSH_RETRY),
{
    !flushed && attempts < FLUSH_RETRY
}

/// The `Location` of a redirect to `target`: `None` for an empty target,
/// else the target with a leading `/`.
pub open spec fn location_spec(target: Seq<char>) -> Option<Seq<char>> {
    if target.len() == 0 {
        None
    } else if target[0] == '/' {
        Some(target)
    } else {
        Some(seq!['/'] + target)
    }
}

pub fn redirect_location(target: &str) -> (r: Option<String>)
    ensures
        match r {
            Some(s) => location_spec(target@) == Some(s@),
            None => location_spec(target@).is_none(),
        },
{
    let cs = chars_of(target);
    if cs.len() == 0 {
        return None;
    }
    if cs[0] == '/' {
        return Some(string_of(&cs));
    }
    let mut v: Vec<char> = Vec::new();
    v.push('/');
    crate::text::push_all(&mut v, &cs);
    assert(v@ =~= seq!['/'] + cs@);
    Some(string_of(&v))
}

/// A response being built for one request.
pub struct Response {
    pub status: u16,
    pub headers: TextMap,
    pub body: Vec<String>,
    pub content_type: String,
    pub keep_alive: bool,
    pub header_only: bool,
    pub redirect: String,
}

impl Response {
    pub open spec fn wf(&self) -> bool {
        self.headers.wf()
    }

    /// Status 200, nothing else set, no keep-alive.
    pub fn new() -> (r: Response)
        ensures
            r.wf(),
            r.status == 200,
            r.headers@.len() == 0,
            r.body@.len() == 0,
            r.content_type@.len() == 0,
            !r.keep_alive,
            !r.header_only,
            r.redirect@.len() == 0,
    {
        Response {
            status: 200,
            headers: TextMap::new(),
            body: Vec::new(),
            content_type: String::new(),
            keep_alive: false,
            header_only: false,
            redirect: String::new(),
        }
    }

    /// Turns a redirect set by the handler into a 301 with a `Location`
    /// header; without a redirect nothing changes.
    pub fn apply_redirect(&mut self)
        requires
            old(self).wf(),
        ensures
            final(self).wf(),
            final(self).redirect == old(self).redirect,
            final(self).body == old(self).body,
            final(self).content_type == old(self).content_type,
            final(self).keep_alive == old(self).keep_alive,
            final(self).header_only == old(self).header_only,
            match location_spec(old(self).redirect@) {
                None => *final(self) == *old(self),
                Some(loc) => final(self).status == 301
                    && final(self).headers@ == put(old(self).headers@, lower_of(seq!['L', 'o', 'c', 'a', 't', 'i', 'o', 'n']), loc, true),
            },
    {
        match redirect_location(self.redirect.as_str()) {
            None => {},
            Some(loc) => {
                let name = location_word();
                self.headers.add(name.as_str(), loc, true);
                self.status = 301;
            },
        }
    }
}

fn location_word() -> (r: String)
    ensures
        r@ == seq!['L', 'o', 'c', 'a', 't', 'i', 'o', 'n'],
{
    let v = crate::text::slice_to_vec(&['L', 'o', 'c', 'a', 't', 'i', 'o', 'n'], 0, 8);
    assert(v@ =~= seq!['L', 'o', 'c', 'a', 't', 'i', 'o', 'n']);
    string_of(&v)
}

/// The word `close`.
pub open spec fn close_word() -> Seq<char> {
    seq!['c', 'l', 'o', 's', 'e']
}

/// Sets keep-alive (off only for `connection: close`) and header-only mode
/// (for a `HEAD` or `HEADER` request) on the response to `request`.
pub fn prepare_response(request: &Request, response: &mut Response)
    requires
        request.wf(),
    ensures
        final(response).keep_alive == (lookup(request.headers@, seq!['c', 'o', 'n', 'n', 'e', 'c', 't', 'i', 'o', 'n']) != Some(close_word())),
        final(response).header_only == (old(response).header_only || method_key(request.method) == (6int, head_word())
            || method_key(request.method) == (6int, header_word())),
        final(response).status == old(response).status,
        final(response).headers == old(response).headers,
        final(response).body == old(response).body,
        final(response).redirect == old(response).redirect,
{
    let conn = crate::text::slice_to_vec(&['c', 'o', 'n', 'n', 'e', 'c', 't', 'i', 'o', 'n'], 0, 10);
    assert(conn@ =~= seq!['c', 'o', 'n', 'n', 'e', 'c', 't', 'i', 'o', 'n']);
    let close = crate::text::slice_to_vec(&['c', 'l', 'o', 's', 'e'], 0, 5);
    assert(close@ =~= close_word());
    let name = string_of(&conn);
    response.keep_alive = match request.header(name.as_str()) {
        Some(v) => {
            let vc = chars_of(v.as_str());
            !chars_eq(&vc, &close)
        },
        None => true,
    };
    let head = crate::text::slice_to_vec(&['H', 'E', 'A', 'D'], 0, 4);
    assert(head@ =~= head_word());
    let head_str = string_of(&head);
    let header = crate::text::slice_to_vec(&['H', 'E', 'A', 'D', 'E', 'R'], 0, 6);
    assert(header@ =~= header_word());
    let header_str = string_of(&header);
    if request.method.key_eq(&REST::OTHER(head_str)) || request.method.key_eq(&REST::OTHER(header_str)) {
        response.header_only = true;
    }
}

/// The response sent for a failure with `status`: no keep-alive, and an HTML
/// content type unless one is set.
pub fn build_err_response(err_status: u16) -> (r: Response)
    ensures
        r.wf(),
        r.status == err_status,
        !r.keep_alive,
        r.content_type@ == seq!['t', 'e', 'x', 't', '/', 'h', 't', 'm', 'l'],
        r.headers@.len() == 0,
        r.body@.len() == 0,
{
    let mut resp = Response::new();
    resp.status = err_status;
    resp.keep_alive = false;
    if resp.content_type.as_str().is_empty() {
        let v = crate::text::slice_to_vec(&['t', 'e', 'x', 't', '/', 'h', 't', 'm', 'l'], 0, 9);
        assert(v@ =~= seq!['t', 'e', 'x', 't', '/', 'h', 't', 'm', 'l']);
        resp.content_type = string_of(&v);
    }
    resp
}

} // verus!
