//! The require-identity filter of the outbound path: when a request carries
//! a required identity, the endpoint's TLS peer identity must match it, or
//! the request fails before reaching the endpoint.

use vstd::prelude::*;

use crate::addr::Address;

verus! {

/// A TLS identity name.
#[derive(Clone, Debug, PartialEq, Eq, Hash)]
pub struct IdentityName {
    name: String,
}

impl IdentityName {
    pub closed spec fn text(&self) -> Seq<char> {
        self.name@
    }

    pub fn new(name: String) -> (r: IdentityName)
        ensures
            r.text() == name@,
    {
        IdentityName { name }
    }

    /// An owned copy.
    pub fn duplicate(&self) -> (r: IdentityName)
        ensures
            r.text() == self.text(),
    {
        IdentityName { name: self.name.clone() }
    }

    /// Whether two identity names spell the same name.
    pub fn same_as(&self, other: &IdentityName) -> (r: bool)
        ensures
            r == (self.text() == other.text()),
    {
        self.name == other.name
    }
}

/// What TLS knew of the peer: an identity, or none.
#[derive(Clone, Debug)]
pub enum PeerIdentity {
    Identified(IdentityName),
    Unidentified,
}

/// An outbound endpoint as this filter sees it: its address and its TLS peer
/// identity.
#[derive(Clone, Debug)]
pub struct Endpoint {
    pub addr: Address,
    pub peer_identity: PeerIdentity,
}

/// The failure: a required identity that the peer did not present.
#[derive(Clone, Debug)]
pub struct RequireIdentityError {
    require_identity: IdentityName,
    peer_identity: Option<IdentityName>,
}

impl RequireIdentityError {
    pub closed spec fn require_spec(&self) -> IdentityName {
        self.require_identity
    }

    pub closed spec fn peer_spec(&self) -> Option<IdentityName> {
        self.peer_identity
    }

    pub fn new(require_identity: IdentityName, peer_identity: Option<IdentityName>) -> (r:
        RequireIdentityError)
        ensures
            r.require_spec() == require_identity,
            r.peer_spec() == peer_identity,
    {
        RequireIdentityError { require_identity, peer_identity }
    }

    /// The identity the request demanded.
    pub fn require_identity(&self) -> (r: &IdentityName)
        ensures
            *r == self.require_spec(),
    {
        &self.require_identity
    }

    /// The identity the peer presented, if any.
    pub fn peer_identity(&self) -> (r: &Option<IdentityName>)
        ensures
            *r == self.peer_spec(),
    {
        &self.peer_identity
    }
}

/// Builds the filter layer.
pub fn layer() -> (r: Layer)
    ensures
        r == (Layer {  }),
{
    Layer {  }
}

/// The filter's layer: wraps an endpoint-service maker.
#[derive(Clone, Copy, Debug, PartialEq, Eq, Structural)]
pub struct Layer {
}

impl Layer {
    /// Wraps the inner maker.
    pub fn layer<M>(&self, inner: M) -> (r: MakeSvc<M>)
        ensures
            r.inner == inner,
    {
        MakeSvc { inner }
    }
}

/// The wrapped maker: remembers each target's peer identity while the inner
/// service is made.
#[derive(Clone, Debug)]
pub struct MakeSvc<M> {
    pub inner: M,
}

impl<M> MakeSvc<M> {
    /// Starts making the inner service for a target, keeping the target's
    /// peer identity for the filter.
    pub fn call(self, target: Endpoint) -> (r: MakeFuture<M>)
        ensures
            r.inner == self.inner,
            r.peer_identity == target.peer_identity,
    {
        MakeFuture { peer_identity: target.peer_identity, inner: self.inner }
    }
}

/// The in-flight make: completes into the filtering service once the inner
/// service is made.
#[derive(Clone, Debug)]
pub struct MakeFuture<M> {
    pub peer_identity: PeerIdentity,
    pub inner: M,
}

impl<M> MakeFuture<M> {
    /// Completes: the made inner service, wrapped with the identity filter.
    pub fn poll(self) -> (r: RequireIdentity<M>)
        ensures
            r.inner_spec() == self.inner,
            r.peer_identity_spec() == self.peer_identity,
    {
        RequireIdentity { peer_identity: self.peer_identity, inner: self.inner }
    }
}

/// The filtering service: admits a request only when its required identity,
/// if present, equals the peer's identity.
#[derive(Clone, Debug)]
pub struct RequireIdentity<M> {
    peer_identity: PeerIdentity,
    pub inner: M,
}

impl<M> RequireIdentity<M> {
    pub closed spec fn peer_identity_spec(&self) -> PeerIdentity {
        self.peer_identity
    }

    pub closed spec fn inner_spec(&self) -> M {
        self.inner
    }

    /// The decision for one request, given the identity its
    /// require-identity header demanded (if any): without a demand every
    /// request passes; with one, it passes exactly when the peer presented
    /// that identity.
    pub fn permit(&self, required: Option<&IdentityName>) -> (r: Result<(), RequireIdentityError>)
        ensures
            match required {
                None => r is Ok,
                Some(req) => match self.peer_identity_spec() {
                    PeerIdentity::Identified(p) => {
                        if p.text() == req.text() {
                            r is Ok
                        } else {
                            &&& r matches Err(e2)
                            &&& ({
                                let e = r->Err_0;
                                &&& e.require_spec().text() == req.text()
                                &&& e.peer_spec() matches Some(q) && q.text() == p.text()
                            })
                        }
                    },
                    PeerIdentity::Unidentified => {
                        &&& r is Err
                        &&& r->Err_0.require_spec().text() == req.text()
                        &&& r->Err_0.peer_spec() is None
                    },
                },
            },
    {
        match required {
            None => Ok(()),
            Some(req) => {
                match &self.peer_identity {
                    PeerIdentity::Identified(p) => {
                        if req.same_as(p) {
                            Ok(())
                        } else {
                            Err(RequireIdentityError::new(req.duplicate(), Some(p.duplicate())))
                        }
                    },
                    PeerIdentity::Unidentified => {
                        Err(RequireIdentityError::new(req.duplicate(), None))
                    },
                }
            },
        }
    }
}

} // verus!
