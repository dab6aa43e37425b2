//! The compute part of the three HTTP endpoints. Each function takes plain
//! values from the HTTP layer and hands plain values back: the sockets, the
//! async runtime and the route table live outside the library.

use vstd::prelude::*;

use vstd::string::StrSliceExecFns;
use vstd::string::StringExecFns;
use vstd::utf8::encode_utf8;

use crate::bus::{active_count, bus_after_publish, fresh_sub, Delivery};
use crate::json::{encode_post, encode_posts, parse_post, parse_post_doc, post_json, posts_json};
use crate::state::{AppState, Post, PostView};

verus! {

/// What a handler hands back to the HTTP layer: a status code, an optional
/// content type, and the body bytes.
pub struct ApiResponse {
    pub status: u16,
    pub content_type: Option<String>,
    pub body: Vec<u8>,
}

/// `GET /posts`: `200` with the JSON array of the whole history in arrival
/// order. An empty history yields the body `[]`, and two calls with no append
/// in between yield the same body.
pub fn fetch_posts(state: &AppState) -> (r: ApiResponse)
    ensures
        r.status == 200,
        r.content_type matches Some(ct) && ct@ == "application/json"@,
        r.body@ == posts_json(state.messages@),
{
    ApiResponse {
        status: 200,
        content_type: Some(String::from_str("application/json")),
        body: encode_posts(state.messages.snapshot()),
    }
}

/// `POST /posts`: decode the body, append to the history, then publish to the
/// bus. A malformed body changes nothing and yields `400`; a well-formed one
/// is appended to the history and offered to every subscriber — the reply is
/// `204` with an empty body whether or not anyone is listening. The appended
/// post also comes back, so the caller can hand the very same value to a
/// runtime delivery channel without parsing the body again.
pub fn append_post(state: &mut AppState, body: &Vec<u8>) -> (r: (ApiResponse, Option<Post>))
    requires
        old(state).wf(),
        old(state).updates@.published < u64::MAX,
    ensures
        final(state).wf(),
        final(state).updates@.capacity == old(state).updates@.capacity,
        match parse_post_doc(body@) {
            Some(p) => {
                &&& r.0.status == 204
                &&& r.0.body@ == Seq::<u8>::empty()
                &&& r.0.content_type is None
                &&& r.1 matches Some(q) && q@ == p
                &&& final(state).messages@ == old(state).messages@.push(p)
                &&& (active_count(old(state).updates@.subs) == 0 ==> final(state).updates@ == old(
                    state,
                ).updates@)
                &&& (active_count(old(state).updates@.subs) > 0 ==> final(state).updates@
                    == bus_after_publish(old(state).updates@, p))
            },
            None => {
                &&& r.0.status == 400
                &&& r.0.body@ == encode_utf8("invalid post"@)
                &&& (r.0.content_type matches Some(ct) && ct@ == "text/plain; charset=utf-8"@)
                &&& r.1 is None
                &&& final(state).messages@ == old(state).messages@
                &&& final(state).updates@ == old(state).updates@
            },
        },
{
    match parse_post(body) {
        Some(post) => {
            let publishing = post.clone();
            state.messages.append(post);
            // A NoSubscribers outcome is benign: the post stays in the
            // history whether or not anyone is listening.
            let _ = state.updates.publish(&publishing);
            (ApiResponse { status: 204, content_type: None, body: Vec::new() }, Some(publishing))
        },
        None => (
            ApiResponse {
                status: 400,
                content_type: Some(String::from_str("text/plain; charset=utf-8")),
                body: "invalid post".as_bytes_vec(),
            },
            None,
        ),
    }
}

/// `GET /updates`: `200` with content type `text/event-stream`, and a fresh
/// subscriber endpoint on the bus. The subscriber starts with an empty queue,
/// so no post published before this call can reach it.
pub fn stream_updates(state: &mut AppState) -> (r: (ApiResponse, usize))
    requires
        old(state).wf(),
    ensures
        final(state).wf(),
        r.0.status == 200,
        r.0.content_type matches Some(ct) && ct@ == "text/event-stream"@,
        r.0.body@ == Seq::<u8>::empty(),
        r.1 == old(state).updates@.subs.len(),
        final(state).updates@.subs == old(state).updates@.subs.push(fresh_sub()),
        final(state).updates@.capacity == old(state).updates@.capacity,
        final(state).updates@.published == old(state).updates@.published,
        final(state).messages == old(state).messages,
{
    let id = state.updates.subscribe();
    (
        ApiResponse {
            status: 200,
            content_type: Some(String::from_str("text/event-stream")),
            body: Vec::new(),
        },
        id,
    )
}

/// The SSE framing of one post: `data: <json>` followed by the blank-line
/// terminator. No `event:` name, no `id:` field.
pub open spec fn sse_frame(p: PostView) -> Seq<u8> {
    seq![('d' as u8), ('a' as u8), ('t' as u8), ('a' as u8), (':' as u8), (' ' as u8)]
        + post_json(p) + seq![0x0au8, 0x0au8]
}

/// One SSE event carrying `post`.
pub fn sse_event(post: &Post) -> (r: Vec<u8>)
    ensures
        r@ == sse_frame(post@),
{
    let mut out: Vec<u8> = Vec::new();
    out.push('d' as u8);
    out.push('a' as u8);
    out.push('t' as u8);
    out.push('a' as u8);
    out.push(':' as u8);
    out.push(' ' as u8);
    let mut json = encode_post(post);
    out.append(&mut json);
    out.push(0x0a);
    out.push(0x0a);
    proof {
        assert(out@ =~= sse_frame(post@));
    }
    out
}

/// The periodic keep-alive frame: an SSE comment line (it starts with `:`),
/// so a waiting subscriber sees traffic but never a `data:` event.
pub fn sse_keep_alive() -> (r: Vec<u8>)
    ensures
        r@ == seq![(':' as u8), 0x0au8, 0x0au8],
{
    let mut out: Vec<u8> = Vec::new();
    out.push(':' as u8);
    out.push(0x0a);
    out.push(0x0a);
    proof {
        assert(out@ =~= seq![(':' as u8), 0x0au8, 0x0au8]);
    }
    out
}

/// What the `/updates` stream does with one delivery event: emit one event
/// with the given JSON payload, or stay silent.
pub enum StreamStep {
    Emit(Vec<u8>),
    Continue,
}

/// Turn one delivery event into the stream's decision: a delivered post
/// becomes exactly one SSE event whose payload is the post's JSON (the wire
/// form of that event is `sse_frame`, as `sse_event` shows); a lag marker is
/// skipped and the stream goes on with the next live post.
pub fn updates_step(d: &Delivery) -> (r: StreamStep)
    ensures
        (d matches Delivery::Message(p) ==> r matches StreamStep::Emit(f) && f@ == post_json(p@)),
        (d matches Delivery::Lagged(n) ==> r is Continue),
{
    match d {
        Delivery::Message(p) => StreamStep::Emit(encode_post(p)),
        Delivery::Lagged(_) => StreamStep::Continue,
    }
}

} // verus!
