//! A builder for a cluster member: the transport it uses and the address it
//! listens on.
use crate::common::Endpoint;
use vstd::prelude::*;

verus! {

/// Collects what a cluster member is built from.
#[derive(Debug, Clone)]
pub struct Builder<T> {
    transport: Option<T>,
    target: Option<Endpoint>,
}

impl<T> Builder<T> {
    /// The transport given, if any.
    pub closed spec fn transport_spec(&self) -> Option<T> {
        self.transport
    }

    /// The address to listen on, if given.
    pub closed spec fn target_spec(&self) -> Option<Seq<char>> {
        match &self.target {
            Some(t) => Some(t@),
            None => None,
        }
    }

    /// A builder with nothing set.
    pub fn new() -> (b: Self)
        ensures
            b.transport_spec() is None,
            b.target_spec() is None,
    {
        Builder::default()
    }

    /// Use `transport`.
    pub fn transport(self, transport: T) -> (b: Self)
        ensures
            b.transport_spec() == Some(transport),
            b.target_spec() == self.target_spec(),
    {
        let mut b = self;
        b.transport = Some(transport);
        b
    }

    /// Listen on `target`.
    pub fn target(self, target: Endpoint) -> (b: Self)
        ensures
            b.target_spec() == Some(target@),
            b.transport_spec() == self.transport_spec(),
    {
        let mut b = self;
        b.target = Some(target);
        b
    }

    /// The transport given, if any.
    pub fn get_transport(&self) -> (t: &Option<T>)
        ensures
            *t == self.transport_spec(),
    {
        &self.transport
    }

    /// The address to listen on, if given.
    pub fn get_target(&self) -> (t: Option<&Endpoint>)
        ensures
            match t {
                Some(e) => self.target_spec() == Some(e@),
                None => self.target_spec() is None,
            },
    {
        self.target.as_ref()
    }
}

impl<T> Default for Builder<T> {
    fn default() -> (b: Self)
        ensures
            b.transport_spec() is None,
            b.target_spec() is None,
    {
        Builder { transport: None, target: None }
    }
}

} // verus!
