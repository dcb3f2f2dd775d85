//! Destination addressing for the outbound and inbound paths: the logical
//! address of a destination, its direction, and the route attached to it.

use vstd::prelude::*;

use crate::addr::Address;

verus! {

/// A named authority with a port.
#[derive(Clone, Debug, PartialEq, Eq, Hash)]
pub struct NameAddr {
    name: String,
    port: u16,
}

impl NameAddr {
    pub closed spec fn name_spec(&self) -> Seq<char> {
        self.name@
    }

    pub closed spec fn port_spec(&self) -> u16 {
        self.port
    }

    pub fn new(name: String, port: u16) -> (r: NameAddr)
        ensures
            r.name_spec() == name@,
            r.port_spec() == port,
    {
        NameAddr { name, port }
    }
}

/// A destination: either a named authority or a socket address.
#[derive(Clone, Debug, PartialEq, Eq, Hash)]
pub enum Addr {
    Name(NameAddr),
    Socket(Address),
}

impl Addr {
    /// The name, when the destination is a named authority.
    pub fn name_addr(&self) -> (r: Option<&NameAddr>)
        ensures
            match r {
                Some(n) => self matches Addr::Name(m) && *n == m,
                None => self is Socket,
            },
    {
        match self {
            Addr::Name(n) => Some(n),
            Addr::Socket(_) => None,
        }
    }
}

/// How the outbound path saw an original destination.
#[derive(Clone, Debug, PartialEq, Eq, Hash)]
pub enum OutAddr {
    Socket(Address),
    Name(NameAddr),
    NamedSocket { socket: Address, name: String },
}

/// Which side of the proxy a destination belongs to.
#[derive(Clone, Copy, Debug, PartialEq, Eq, Hash, Structural)]
pub enum Direction {
    In,
    Out,
}

/// A destination address with its direction and, when the outbound path knew
/// one, the original name behind a socket address.
#[derive(Clone, Debug, PartialEq, Eq, Hash)]
pub struct DstAddr {
    addr: Addr,
    direction: Direction,
    orig_name: Option<NameAddr>,
}

impl DstAddr {
    pub closed spec fn addr_spec(&self) -> Addr {
        self.addr
    }

    pub closed spec fn direction_spec(&self) -> Direction {
        self.direction
    }

    pub closed spec fn orig_name_spec(&self) -> Option<NameAddr> {
        self.orig_name
    }

    /// An outbound destination: a named socket keeps its name, at the
    /// socket's port, as the original name.
    pub fn outbound(addr: OutAddr) -> (r: DstAddr)
        ensures
            r.direction_spec() is Out,
            match addr {
                OutAddr::Socket(s) => r.addr_spec() == Addr::Socket(s) && r.orig_name_spec()
                    is None,
                OutAddr::Name(n) => r.addr_spec() == Addr::Name(n) && r.orig_name_spec() is None,
                OutAddr::NamedSocket { socket, name } => r.addr_spec() == Addr::Socket(socket)
                    && (r.orig_name_spec() matches Some(m) && m.name_spec() == name@
                    && m.port_spec() == socket.port),
            },
    {
        match addr {
            OutAddr::Socket(socket) => DstAddr {
                addr: Addr::Socket(socket),
                direction: Direction::Out,
                orig_name: None,
            },
            OutAddr::Name(name) => DstAddr {
                addr: Addr::Name(name),
                direction: Direction::Out,
                orig_name: None,
            },
            OutAddr::NamedSocket { socket, name } => {
                let port = socket.port;
                DstAddr {
                    addr: Addr::Socket(socket),
                    direction: Direction::Out,
                    orig_name: Some(NameAddr::new(name, port)),
                }
            },
        }
    }

    /// An inbound destination carries no original name.
    pub fn inbound(addr: Addr) -> (r: DstAddr)
        ensures
            r.addr_spec() == addr,
            r.direction_spec() is In,
            r.orig_name_spec() is None,
    {
        DstAddr { addr, direction: Direction::In, orig_name: None }
    }

    pub fn direction(&self) -> (r: Direction)
        ensures
            r == self.direction_spec(),
    {
        self.direction
    }

    /// The destination's address.
    pub fn addr(&self) -> (r: &Addr)
        ensures
            *r == self.addr_spec(),
    {
        &self.addr
    }

    /// The name to resolve: the address's own name, or else the original
    /// name remembered behind a socket address.
    pub fn get_destination(&self) -> (r: Option<&NameAddr>)
        ensures
            match r {
                Some(n) => (self.addr_spec() matches Addr::Name(m) && *n == m) || (self.addr_spec()
                    is Socket && self.orig_name_spec() == Some(*n)),
                None => self.addr_spec() is Socket && self.orig_name_spec() is None,
            },
    {
        match &self.addr {
            Addr::Name(n) => Some(n),
            Addr::Socket(_) => {
                match &self.orig_name {
                    Some(n) => Some(n),
                    None => None,
                }
            },
        }
    }

    /// Attaches a route's labels to this destination.
    pub fn with_route(self, labels: Vec<(String, String)>) -> (r: Route)
        ensures
            r.dst_spec() == self,
            r.labels_spec() == labels@,
    {
        Route { dst_addr: self, labels }
    }
}

/// A destination together with the labels of the route profile chosen for it.
#[derive(Clone, Debug)]
pub struct Route {
    pub dst_addr: DstAddr,
    labels: Vec<(String, String)>,
}

impl Route {
    pub closed spec fn dst_spec(&self) -> DstAddr {
        self.dst_addr
    }

    pub closed spec fn labels_spec(&self) -> Seq<(String, String)> {
        self.labels@
    }

    /// The route's metric labels.
    pub fn labels(&self) -> (r: &Vec<(String, String)>)
        ensures
            r@ == self.labels_spec(),
    {
        &self.labels
    }
}

/// Why a request is not retried.
#[derive(Clone, Copy, Debug, PartialEq, Eq, Structural)]
pub enum NoRetry {
    /// The response classified as a success; nothing to retry.
    Success,
    /// The retry budget was overdrawn.
    Budget,
}

/// The retry policy attached to a route. The response classifier and the
/// token budget are collaborators; the decision over their verdicts is here.
#[derive(Clone, Copy, Debug, PartialEq, Eq, Structural)]
pub struct Retry {
}

impl Retry {
    pub fn new() -> (r: Retry)
        ensures
            r == (Retry {  }),
    {
        Retry {  }
    }

    /// The retry decision: a failed response is retried exactly when the
    /// budget granted a withdrawal; a successful response deposits into the
    /// budget (the caller's duty) and is never retried.
    pub fn retry(&self, class_is_failure: bool, budget_withdrawn: bool) -> (r: Result<
        (),
        NoRetry,
    >)
        ensures
            class_is_failure && budget_withdrawn ==> r is Ok,
            class_is_failure && !budget_withdrawn ==> r == Err::<(), NoRetry>(NoRetry::Budget),
            !class_is_failure ==> r == Err::<(), NoRetry>(NoRetry::Success),
    {
        if class_is_failure {
            if budget_withdrawn {
                Ok(())
            } else {
                Err(NoRetry::Budget)
            }
        } else {
            Err(NoRetry::Success)
        }
    }
}

} // verus!
