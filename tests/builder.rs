use std::time::Duration;

use srt::builder::{
    BuilderError, ConnInitMethod, HandshakePlan, IpAddress, SocketAddress, SrtSocketBuilder,
};

fn addr(port: u16) -> SocketAddress {
    SocketAddress { ip: IpAddress::V4([127, 0, 0, 1]), port }
}

#[test]
fn conn_type_is_kept() {
    let builder = SrtSocketBuilder::new(ConnInitMethod::Listen);
    assert_eq!(builder.conn_type(), &ConnInitMethod::Listen);
    assert_eq!(
        SrtSocketBuilder::new_connect(addr(3333)).conn_type(),
        &ConnInitMethod::Connect(addr(3333))
    );
    assert_eq!(
        SrtSocketBuilder::new_rendezvous(addr(4444)).conn_type(),
        &ConnInitMethod::Rendezvous(addr(4444))
    );
}

#[test]
fn listener_defaults() {
    let r = SrtSocketBuilder::new_listen().multiplex_settings();
    assert_eq!(
        r,
        Ok((
            SocketAddress { ip: IpAddress::V4([0, 0, 0, 0]), port: 0 },
            Duration::from_millis(50)
        ))
    );
}

#[test]
fn setters_change_one_field() {
    let r = SrtSocketBuilder::new_listen()
        .local_port(2000)
        .local_addr(IpAddress::V4([10, 0, 0, 2]))
        .latency(Duration::from_millis(123))
        .multiplex_settings();
    assert_eq!(r, Ok((SocketAddress { ip: IpAddress::V4([10, 0, 0, 2]), port: 2000 }, Duration::from_millis(123))));
}

#[test]
fn multiplexed_needs_listener() {
    assert_eq!(
        SrtSocketBuilder::new_connect(addr(1)).multiplex_settings(),
        Err(BuilderError::NotListen)
    );
}

#[test]
fn crypto_size_is_checked() {
    let b = SrtSocketBuilder::new_connect(addr(2003)).crypto(15, "pass".to_string());
    assert_eq!(b.handshake_plan(7), Err(BuilderError::InvalidCryptoSize(15)));
    let b = SrtSocketBuilder::new_listen().crypto(0, String::new());
    assert_eq!(b.connect_plan(), Err(BuilderError::InvalidCryptoSize(0)));
}

#[test]
fn plans_follow_conn_type() {
    let b = SrtSocketBuilder::new_connect(addr(2003))
        .latency(Duration::from_millis(827))
        .crypto(24, "secret".to_string());
    assert_eq!(
        b.handshake_plan(99),
        Ok(HandshakePlan::Connect {
            remote: addr(2003),
            socket_id: 99,
            local_ip: IpAddress::V4([0, 0, 0, 0]),
            latency: Duration::from_millis(827),
            crypto: Some((24, "secret".to_string())),
        })
    );
    assert_eq!(
        SrtSocketBuilder::new_listen().handshake_plan(5),
        Ok(HandshakePlan::Listen { socket_id: 5, latency: Duration::from_millis(50) })
    );
    assert_eq!(
        SrtSocketBuilder::new_rendezvous(addr(5555)).local_port(4444).handshake_plan(6),
        Ok(HandshakePlan::Rendezvous {
            socket_id: 6,
            local_ip: IpAddress::V4([0, 0, 0, 0]),
            remote_public: addr(5555),
            latency: Duration::from_millis(50),
        })
    );
    assert!(matches!(
        SrtSocketBuilder::new_listen().connect_plan(),
        Ok(HandshakePlan::Listen { .. })
    ));
}
