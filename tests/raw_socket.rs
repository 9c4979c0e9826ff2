use keyless_mux::raw_socket::{
    buf_opts_plan, tcp_opts_plan, udp_opts_plan, RawSocket, SockOpt, SocketBufferConfig,
    TcpMiscSockOpts, UdpMiscSockOpts,
};
use socket2::{Domain, Socket, Type};

#[test]
fn buffer_plan_lists_configured_sizes() {
    let c = SocketBufferConfig { recv_size: Some(4096), send_size: None };
    assert_eq!(buf_opts_plan(&c), vec![SockOpt::RecvBufferSize(4096)]);
    let c = SocketBufferConfig { recv_size: Some(1), send_size: Some(2) };
    assert_eq!(buf_opts_plan(&c), vec![SockOpt::RecvBufferSize(1), SockOpt::SendBufferSize(2)]);
}

#[test]
fn tcp_plan_defaults_nodelay() {
    let o = TcpMiscSockOpts {
        no_delay: None,
        max_segment_size: Some(1400),
        time_to_live: None,
        type_of_service: Some(0x10),
        netfilter_mark: Some(3),
    };
    assert_eq!(
        tcp_opts_plan(&o, true),
        vec![
            SockOpt::NoDelay(true),
            SockOpt::MaxSegmentSize(1400),
            SockOpt::TypeOfService(16),
            SockOpt::Mark(3)
        ]
    );
    assert_eq!(tcp_opts_plan(&o, false)[0], SockOpt::MaxSegmentSize(1400));
    let o = TcpMiscSockOpts {
        no_delay: Some(false),
        max_segment_size: None,
        time_to_live: Some(64),
        type_of_service: None,
        netfilter_mark: None,
    };
    assert_eq!(tcp_opts_plan(&o, true), vec![SockOpt::NoDelay(false), SockOpt::TimeToLive(64)]);
}

#[test]
fn udp_plan_lists_options() {
    let o = UdpMiscSockOpts { time_to_live: Some(9), type_of_service: None, netfilter_mark: None };
    assert_eq!(udp_opts_plan(&o), vec![SockOpt::TimeToLive(9)]);
}

#[test]
fn missing_socket_is_an_error() {
    let s = RawSocket::new(None);
    assert!(s.set_buf_opts(SocketBufferConfig { recv_size: None, send_size: None }).is_err());
    let o = UdpMiscSockOpts { time_to_live: None, type_of_service: None, netfilter_mark: None };
    assert!(s.set_udp_misc_opts(o).is_err());
}

#[test]
fn options_reach_the_socket() {
    let sock = Socket::new(Domain::IPV4, Type::STREAM, None).unwrap();
    let raw = RawSocket::new(Some(sock));
    raw.set_buf_opts(SocketBufferConfig { recv_size: Some(65536), send_size: None }).unwrap();
    let o = TcpMiscSockOpts {
        no_delay: None,
        max_segment_size: None,
        time_to_live: Some(42),
        type_of_service: None,
        netfilter_mark: None,
    };
    raw.set_tcp_misc_opts(&o, true).unwrap();
    let mut raw = raw;
    let sock = raw.take_inner().unwrap();
    assert!(sock.nodelay().unwrap());
    assert_eq!(sock.ttl().unwrap(), 42);
}
