//! Socket options applied to a socket that another component owns.
//!
//! Which options are set, with which values and in which order, is decided
//! by the plan functions; `RawSocket` then hands each option to socket2,
//! stopping at the first one that the operating system refuses.

use vstd::prelude::*;
use socket2::Socket;

verus! {

/// socket2's `Socket`, carried opaque to the option setters.
#[verifier::external_type_specification]
#[verifier::external_body]
pub struct ExSocket(socket2::Socket);

/// std's `io::Error`, carried opaque from the setters to the caller.
#[verifier::external_type_specification]
#[verifier::external_body]
pub struct ExIoError(std::io::Error);

/// Relies on socket2's `Socket::set_recv_buffer_size` (`SO_RCVBUF`).
pub assume_specification[ socket2::Socket::set_recv_buffer_size ](
    socket: &socket2::Socket,
    size: usize,
) -> std::io::Result<()>;

/// Relies on socket2's `Socket::set_send_buffer_size` (`SO_SNDBUF`).
pub assume_specification[ socket2::Socket::set_send_buffer_size ](
    socket: &socket2::Socket,
    size: usize,
) -> std::io::Result<()>;

/// Relies on socket2's `Socket::set_nodelay` (`TCP_NODELAY`).
pub assume_specification[ socket2::Socket::set_nodelay ](
    socket: &socket2::Socket,
    nodelay: bool,
) -> std::io::Result<()>;

/// Relies on socket2's `Socket::set_mss` (`TCP_MAXSEG`).
pub assume_specification[ socket2::Socket::set_mss ](
    socket: &socket2::Socket,
    mss: u32,
) -> std::io::Result<()>;

/// Relies on socket2's `Socket::set_ttl` (`IP_TTL`).
pub assume_specification[ socket2::Socket::set_ttl ](
    socket: &socket2::Socket,
    ttl: u32,
) -> std::io::Result<()>;

/// Relies on socket2's `Socket::set_tos` (`IP_TOS`).
pub assume_specification[ socket2::Socket::set_tos ](
    socket: &socket2::Socket,
    tos: u32,
) -> std::io::Result<()>;

/// Relies on socket2's `Socket::set_mark` (`SO_MARK`).
pub assume_specification[ socket2::Socket::set_mark ](
    socket: &socket2::Socket,
    mark: u32,
) -> std::io::Result<()>;

/// Relies on `std::io::Error::other`: the error returned when there is no
/// socket to configure.
#[verifier::external_body]
fn no_socket_error() -> std::io::Error {
    std::io::Error::other("no socket")
}

/// Sizes of the kernel's socket buffers; `None` keeps the system default.
pub struct SocketBufferConfig {
    pub recv_size: Option<usize>,
    pub send_size: Option<usize>,
}

impl SocketBufferConfig {
    pub fn recv_size(&self) -> (r: Option<usize>)
        ensures
            r == self.recv_size,
    {
        self.recv_size
    }

    pub fn send_size(&self) -> (r: Option<usize>)
        ensures
            r == self.send_size,
    {
        self.send_size
    }
}

/// Options of a TCP socket; `None` leaves an option untouched.
pub struct TcpMiscSockOpts {
    pub no_delay: Option<bool>,
    pub max_segment_size: Option<u32>,
    pub time_to_live: Option<u32>,
    pub type_of_service: Option<u8>,
    pub netfilter_mark: Option<u32>,
}

/// Options of a UDP socket; `None` leaves an option untouched.
pub struct UdpMiscSockOpts {
    pub time_to_live: Option<u32>,
    pub type_of_service: Option<u8>,
    pub netfilter_mark: Option<u32>,
}

/// One socket option with its value.
#[derive(Clone, Copy, Debug, PartialEq, Eq, Structural)]
pub enum SockOpt {
    RecvBufferSize(usize),
    SendBufferSize(usize),
    NoDelay(bool),
    MaxSegmentSize(u32),
    TimeToLive(u32),
    TypeOfService(u32),
    Mark(u32),
}

/// `opt` as a sequence of no or one option.
pub open spec fn opt_seq<T>(v: Option<T>, f: spec_fn(T) -> SockOpt) -> Seq<SockOpt> {
    match v {
        Some(x) => seq![f(x)],
        None => Seq::empty(),
    }
}

/// The options that a buffer configuration sets, in order.
pub open spec fn buf_plan(c: SocketBufferConfig) -> Seq<SockOpt> {
    opt_seq(c.recv_size, |n: usize| SockOpt::RecvBufferSize(n)) + opt_seq(
        c.send_size,
        |n: usize| SockOpt::SendBufferSize(n),
    )
}

/// The options that the TCP options set, in order. `TCP_NODELAY` is set to
/// the configured value, or switched on when none is configured and
/// `default_set_nodelay` asks for it.
pub open spec fn tcp_plan(o: TcpMiscSockOpts, default_set_nodelay: bool) -> Seq<SockOpt> {
    let nodelay = match o.no_delay {
        Some(v) => seq![SockOpt::NoDelay(v)],
        None => if default_set_nodelay {
            seq![SockOpt::NoDelay(true)]
        } else {
            Seq::empty()
        },
    };
    nodelay + opt_seq(o.max_segment_size, |m: u32| SockOpt::MaxSegmentSize(m)) + opt_seq(
        o.time_to_live,
        |t: u32| SockOpt::TimeToLive(t),
    ) + opt_seq(o.type_of_service, |t: u8| SockOpt::TypeOfService(t as u32)) + opt_seq(
        o.netfilter_mark,
        |m: u32| SockOpt::Mark(m),
    )
}

/// The options that the UDP options set, in order.
pub open spec fn udp_plan(o: UdpMiscSockOpts) -> Seq<SockOpt> {
    opt_seq(o.time_to_live, |t: u32| SockOpt::TimeToLive(t)) + opt_seq(
        o.type_of_service,
        |t: u8| SockOpt::TypeOfService(t as u32),
    ) + opt_seq(o.netfilter_mark, |m: u32| SockOpt::Mark(m))
}

/// The options that a buffer configuration sets, in order.
pub fn buf_opts_plan(c: &SocketBufferConfig) -> (r: Vec<SockOpt>)
    ensures
        r@ == buf_plan(*c),
{
    let mut r: Vec<SockOpt> = Vec::new();
    if let Some(n) = c.recv_size {
        r.push(SockOpt::RecvBufferSize(n));
    }
    if let Some(n) = c.send_size {
        r.push(SockOpt::SendBufferSize(n));
    }
    assert(r@ =~= buf_plan(*c));
    r
}

/// The options that the TCP options set, in order.
pub fn tcp_opts_plan(o: &TcpMiscSockOpts, default_set_nodelay: bool) -> (r: Vec<SockOpt>)
    ensures
        r@ == tcp_plan(*o, default_set_nodelay),
{
    let mut r: Vec<SockOpt> = Vec::new();
    if let Some(v) = o.no_delay {
        r.push(SockOpt::NoDelay(v));
    } else if default_set_nodelay {
        r.push(SockOpt::NoDelay(true));
    }
    if let Some(m) = o.max_segment_size {
        r.push(SockOpt::MaxSegmentSize(m));
    }
    if let Some(t) = o.time_to_live {
        r.push(SockOpt::TimeToLive(t));
    }
    if let Some(t) = o.type_of_service {
        r.push(SockOpt::TypeOfService(t as u32));
    }
    if let Some(m) = o.netfilter_mark {
        r.push(SockOpt::Mark(m));
    }
    assert(r@ =~= tcp_plan(*o, default_set_nodelay));
    r
}

/// The options that the UDP options set, in order.
pub fn udp_opts_plan(o: &UdpMiscSockOpts) -> (r: Vec<SockOpt>)
    ensures
        r@ == udp_plan(*o),
{
    let mut r: Vec<SockOpt> = Vec::new();
    if let Some(t) = o.time_to_live {
        r.push(SockOpt::TimeToLive(t));
    }
    if let Some(t) = o.type_of_service {
        r.push(SockOpt::TypeOfService(t as u32));
    }
    if let Some(m) = o.netfilter_mark {
        r.push(SockOpt::Mark(m));
    }
    assert(r@ =~= udp_plan(*o));
    r
}

fn apply_opt(socket: &Socket, opt: SockOpt) -> std::io::Result<()> {
    match opt {
        SockOpt::RecvBufferSize(n) => socket.set_recv_buffer_size(n),
        SockOpt::SendBufferSize(n) => socket.set_send_buffer_size(n),
        SockOpt::NoDelay(v) => socket.set_nodelay(v),
        SockOpt::MaxSegmentSize(m) => socket.set_mss(m),
        SockOpt::TimeToLive(t) => socket.set_ttl(t),
        SockOpt::TypeOfService(t) => socket.set_tos(t),
        SockOpt::Mark(m) => socket.set_mark(m),
    }
}

/// Sets `opts` on `socket` in order, stopping at the first failure.
fn apply_opts(socket: &Socket, opts: &Vec<SockOpt>) -> (r: std::io::Result<()>)
    ensures
        opts@.len() == 0 ==> r is Ok,
{
    let mut i: usize = 0;
    while i < opts.len()
        invariant
            i <= opts@.len(),
        decreases opts.len() - i,
    {
        apply_opt(socket, opts[i])?;
        i = i + 1;
    }
    Ok(())
}

/// A socket that another component owns, reached to set options on it.
#[derive(Debug)]
pub struct RawSocket {
    inner: Option<Socket>,
}

impl RawSocket {
    pub closed spec fn has_socket(&self) -> bool {
        self.inner is Some
    }

    pub fn new(inner: Option<Socket>) -> (r: RawSocket)
        ensures
            r.has_socket() == inner is Some,
    {
        RawSocket { inner }
    }

    /// The socket, if there is one.
    pub fn socket(&self) -> (r: Option<&Socket>)
        ensures
            r is Some == self.has_socket(),
    {
        self.inner.as_ref()
    }

    /// Takes the socket out, leaving none behind.
    pub fn take_inner(&mut self) -> (r: Option<Socket>)
        ensures
            r is Some == old(self).has_socket(),
            !final(self).has_socket(),
    {
        self.inner.take()
    }

    /// Sets the buffer sizes of `buf_conf`, as `buf_plan` lists them.
    pub fn set_buf_opts(&self, buf_conf: SocketBufferConfig) -> (r: std::io::Result<()>)
        ensures
            !self.has_socket() ==> r is Err,
            self.has_socket() && buf_plan(buf_conf).len() == 0 ==> r is Ok,
    {
        let socket = match &self.inner {
            Some(s) => s,
            None => return Err(no_socket_error()),
        };
        apply_opts(socket, &buf_opts_plan(&buf_conf))
    }

    /// Sets the TCP options of `misc_opts`, as `tcp_plan` lists them.
    pub fn set_tcp_misc_opts(&self, misc_opts: &TcpMiscSockOpts, default_set_nodelay: bool) -> (r:
        std::io::Result<()>)
        ensures
            !self.has_socket() ==> r is Err,
            self.has_socket() && tcp_plan(*misc_opts, default_set_nodelay).len() == 0 ==> r is Ok,
    {
        let socket = match &self.inner {
            Some(s) => s,
            None => return Err(no_socket_error()),
        };
        apply_opts(socket, &tcp_opts_plan(misc_opts, default_set_nodelay))
    }

    /// Sets the UDP options of `misc_opts`, as `udp_plan` lists them.
    pub fn set_udp_misc_opts(&self, misc_opts: UdpMiscSockOpts) -> (r: std::io::Result<()>)
        ensures
            !self.has_socket() ==> r is Err,
            self.has_socket() && udp_plan(misc_opts).len() == 0 ==> r is Ok,
    {
        let socket = match &self.inner {
            Some(s) => s,
            None => return Err(no_socket_error()),
        };
        apply_opts(socket, &udp_opts_plan(&misc_opts))
    }
}

} // verus!
