//! Messages and the requests and responses that carry them.
pub mod client;
pub mod grpc;
pub mod proto;
pub mod wire;

use crate::common::Endpoint;
use proto::{JoinResponse, NodeStatus, RequestKind, RequestKindView, ResponseKind, ResponseKindView};
use vstd::prelude::*;

verus! {

pub enum MessageView {
    Request(RequestKindView),
    Response(ResponseKindView),
}

/// A message exchanged between members: a request or a response.
#[derive(Debug)]
pub enum Message {
    Request(RequestKind),
    Response(ResponseKind),
}

impl View for Message {
    type V = MessageView;

    open spec fn view(&self) -> MessageView {
        match self {
            Message::Request(k) => MessageView::Request(k@),
            Message::Response(k) => MessageView::Response(k@),
        }
    }
}

impl Clone for Message {
    fn clone(&self) -> (r: Self)
        ensures
            r@ == self@,
    {
        match self {
            Message::Request(k) => Message::Request(k.clone()),
            Message::Response(k) => Message::Response(k.clone()),
        }
    }
}

impl Message {
    /// A message that carries a request.
    pub fn from_request(t: RequestKind) -> (m: Self)
        ensures
            m == Message::Request(t),
    {
        Message::Request(t)
    }

    /// A message that carries a response.
    pub fn from_response(t: ResponseKind) -> (m: Self)
        ensures
            m == Message::Response(t),
    {
        Message::Response(t)
    }
}

/// A request addressed to a target.
#[derive(Debug)]
pub struct Request {
    target: Endpoint,
    kind: RequestKind,
}

impl Request {
    pub closed spec fn target_view(self) -> Seq<char> {
        self.target@
    }

    pub closed spec fn kind_view(self) -> RequestKindView {
        self.kind@
    }

    pub fn new(target: Endpoint, kind: RequestKind) -> (r: Self)
        ensures
            r.target_view() == target@,
            r.kind_view() == kind@,
    {
        Self { target, kind }
    }

    pub fn into_inner(self) -> (k: RequestKind)
        ensures
            k@ == self.kind_view(),
    {
        self.kind
    }

    pub fn kind(&self) -> (k: &RequestKind)
        ensures
            k@ == self.kind_view(),
    {
        &self.kind
    }

    pub fn into_parts(self) -> (p: (Endpoint, RequestKind))
        ensures
            p.0@ == self.target_view(),
            p.1@ == self.kind_view(),
    {
        (self.target, self.kind)
    }
}

/// A response to a request.
#[derive(Debug)]
pub struct Response {
    kind: ResponseKind,
}

impl Response {
    pub closed spec fn kind_view(self) -> ResponseKindView {
        self.kind@
    }

    pub fn new(kind: ResponseKind) -> (r: Self)
        ensures
            r.kind_view() == kind@,
    {
        Self { kind }
    }

    /// A response that carries nothing.
    pub fn empty() -> (r: Self)
        ensures
            r.kind_view() == ResponseKindView::Response,
    {
        Self { kind: ResponseKind::Response }
    }

    pub fn kind(&self) -> (k: &ResponseKind)
        ensures
            k@ == self.kind_view(),
    {
        &self.kind
    }

    /// The response to a consensus message.
    pub fn consensus() -> (r: Self)
        ensures
            r.kind_view() == ResponseKindView::Consensus,
    {
        Self { kind: ResponseKind::Consensus }
    }

    pub fn into_inner(self) -> (k: ResponseKind)
        ensures
            k@ == self.kind_view(),
    {
        self.kind
    }

    pub fn new_join(join: JoinResponse) -> (r: Self)
        ensures
            r.kind_view() == ResponseKindView::Join(join@),
    {
        let kind = ResponseKind::Join(join);
        Self::new(kind)
    }

    pub fn new_probe(status: NodeStatus) -> (r: Self)
        ensures
            r.kind_view() == ResponseKindView::Probe(status),
    {
        let kind = ResponseKind::Probe(status);
        Self::new(kind)
    }
}

} // verus!
