//! Behaviour of the connection core: lifecycle, channel registry, and the
//! send and receive gating decisions.

use ecs_schedule::{Connection, ConnectionError, ConnectionEvent, ConnectionLostEvent,
    ConnectionState};

#[test]
fn connection_lifecycle() {
    let mut conn = Connection::new();
    assert!(!conn.is_connected());
    conn.mark_connected();
    assert!(conn.is_connected());
    assert!(conn.disconnect());
    assert!(!conn.is_connected());
    // closing again reports that it was already closed
    assert!(!conn.disconnect());
}

#[test]
fn channel_registry() {
    let mut conn = Connection::new();
    conn.mark_connected();
    assert_eq!(conn.get_default_channel(), None);

    // the first channel opened becomes the default
    conn.open_channel(7);
    assert_eq!(conn.get_default_channel(), Some(7));
    conn.open_channel(9);
    assert_eq!(conn.get_default_channel(), Some(7));

    // reopening is a no-op
    conn.open_channel(7);
    assert_eq!(conn.get_default_channel(), Some(7));

    conn.set_default_channel(9);
    assert_eq!(conn.get_default_channel(), Some(9));

    // closing the default channel unsets the default
    assert!(conn.close_channel(9).is_ok());
    assert_eq!(conn.get_default_channel(), None);
    assert!(matches!(
        conn.close_channel(42),
        Err(ConnectionError::UnknownChannel(42))
    ));
}

#[test]
fn send_gating() {
    let mut conn = Connection::new();
    conn.mark_connected();

    // no default channel yet
    assert!(matches!(
        conn.resolve_send(),
        Err(ConnectionError::NoDefaultChannel)
    ));

    conn.open_channel(3);
    assert_eq!(conn.resolve_send().ok(), Some(3));
    assert_eq!(conn.resolve_send_on(3).ok(), Some(3));
    assert!(matches!(
        conn.resolve_send_on(4),
        Err(ConnectionError::UnknownChannel(4))
    ));
    assert!(conn.resolve_receive().is_ok());

    // nothing can be sent or received once disconnected
    conn.disconnect();
    assert!(matches!(
        conn.resolve_send(),
        Err(ConnectionError::ConnectionClosed)
    ));
    assert!(matches!(
        conn.resolve_send_on(3),
        Err(ConnectionError::ConnectionClosed)
    ));
    assert!(matches!(
        conn.resolve_receive(),
        Err(ConnectionError::ConnectionClosed)
    ));
}

#[test]
fn connection_events_carry_ids() {
    let up = ConnectionEvent { id: 11 };
    let down = ConnectionLostEvent { id: 11 };
    assert_eq!(up.id, down.id);
    let _ = ConnectionState::Connecting;
}

#[test]
fn stale_default_channel_is_refused() {
    // The default channel is any id the caller stored; if it is not open,
    // sends on it are refused as unknown rather than rejected up front.
    let mut conn = Connection::new();
    conn.mark_connected();
    conn.open_channel(5);
    conn.set_default_channel(9);
    assert_eq!(conn.get_default_channel(), Some(9));
    assert!(matches!(
        conn.resolve_send(),
        Err(ConnectionError::UnknownChannel(9))
    ));
    // Opening it afterwards makes the same default usable.
    conn.open_channel(9);
    assert_eq!(conn.resolve_send().ok(), Some(9));
}
