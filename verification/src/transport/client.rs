//! The requests the library asks the transport to make, queued in order.
use crate::common::Endpoint;
use crate::transport::proto::{RequestKind, RequestKindView};
use crate::transport::Request;
use std::collections::VecDeque;
use vstd::prelude::*;

verus! {

/// The view of a queued request: its kind, with its target when it has one.
pub enum RequestTypeView {
    Unary(Seq<char>, RequestKindView),
    UnaryNoWait(Seq<char>, RequestKindView),
    Broadcast(RequestKindView),
}

/// A request to make: to one target, awaiting the answer or not, or to every
/// member.
#[derive(Debug)]
pub enum RequestType {
    Unary(Request),
    UnaryNoWait(Request),
    Broadcast(RequestKind),
}

impl View for RequestType {
    type V = RequestTypeView;

    open spec fn view(&self) -> RequestTypeView {
        match self {
            RequestType::Unary(r) => RequestTypeView::Unary(r.target_view(), r.kind_view()),
            RequestType::UnaryNoWait(r) => RequestTypeView::UnaryNoWait(r.target_view(), r.kind_view()),
            RequestType::Broadcast(k) => RequestTypeView::Broadcast(k@),
        }
    }
}

impl RequestType {
    pub fn new_unary(req: Request) -> (r: Self)
        ensures
            r@ == RequestTypeView::Unary(req.target_view(), req.kind_view()),
    {
        RequestType::Unary(req)
    }

    pub fn new_unary_nowait(req: Request) -> (r: Self)
        ensures
            r@ == RequestTypeView::UnaryNoWait(req.target_view(), req.kind_view()),
    {
        RequestType::UnaryNoWait(req)
    }

    pub fn new_broadcast(kind: RequestKind) -> (r: Self)
        ensures
            r@ == RequestTypeView::Broadcast(kind@),
    {
        RequestType::Broadcast(kind)
    }
}

/// The views of queued requests.
pub open spec fn queue_view(q: Seq<RequestType>) -> Seq<RequestTypeView> {
    q.map_values(|r: RequestType| r@)
}

/// The requests to make, first in first out.
#[derive(Debug)]
pub struct Client {
    inner: VecDeque<RequestType>,
}

impl Client {
    /// The requests queued, oldest first.
    pub closed spec fn queued(&self) -> Seq<RequestTypeView> {
        queue_view(self.inner@)
    }

    pub fn new() -> (c: Self)
        ensures
            c.queued() == Seq::<RequestTypeView>::empty(),
    {
        let c = Client { inner: VecDeque::new() };
        assert(c.queued() =~= Seq::<RequestTypeView>::empty());
        c
    }

    fn push(&mut self, r: RequestType)
        ensures
            final(self).queued() == old(self).queued().push(r@),
    {
        let ghost before = self.inner@;
        let ghost rv = r@;
        self.inner.push_back(r);
        assert(queue_view(self.inner@) =~= queue_view(before).push(rv));
    }

    /// Ask `target`, awaiting the answer.
    pub fn send(&mut self, target: Endpoint, req: RequestKind)
        ensures
            final(self).queued() == old(self).queued().push(RequestTypeView::Unary(target@, req@)),
    {
        let req = Request::new(target, req);
        self.push(RequestType::new_unary(req));
    }

    /// Ask `target` without awaiting an answer.
    pub fn send_no_wait(&mut self, target: Endpoint, req: RequestKind)
        ensures
            final(self).queued() == old(self).queued().push(RequestTypeView::UnaryNoWait(target@, req@)),
    {
        let req = Request::new(target, req);
        self.push(RequestType::new_unary_nowait(req));
    }

    /// Ask every member.
    pub fn broadcast(&mut self, req: RequestKind)
        ensures
            final(self).queued() == old(self).queued().push(RequestTypeView::Broadcast(req@)),
    {
        self.push(RequestType::new_broadcast(req));
    }

    /// The oldest request queued, if any; it leaves the queue.
    pub fn get_next(&mut self) -> (r: Option<RequestType>)
        ensures
            old(self).queued().len() == 0 ==> r is None && final(self).queued() == old(self).queued(),
            old(self).queued().len() > 0 ==> (r matches Some(x) && x@ == old(self).queued()[0]
                && final(self).queued() == old(self).queued().drop_first()),
    {
        let ghost before = self.inner@;
        let r = self.inner.pop_front();
        proof {
            if before.len() > 0 {
                assert(queue_view(self.inner@) =~= queue_view(before).drop_first());
            }
        }
        r
    }
}

} // verus!
