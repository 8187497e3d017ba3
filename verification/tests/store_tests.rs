use newplaces::pixel::Pixel;
use newplaces::store::{
    ConnectionState, RedisServer, StoreError, StoreEvent, SupervisorAction, CANVAS_NAME,
    RECONNECT_BACKOFF_SECS,
};

fn connected() -> RedisServer {
    let mut server = RedisServer::new();
    assert_eq!(server.step(StoreEvent::Started), SupervisorAction::Connect);
    assert_eq!(server.step(StoreEvent::ConnectSucceeded), SupervisorAction::LoadCanvas);
    server
}

#[test]
fn canvas_key_and_backoff() {
    assert_eq!(CANVAS_NAME, "newplaces");
    assert_eq!(RECONNECT_BACKOFF_SECS, 2);
}

#[test]
fn adapter_starts_disconnected() {
    let server = RedisServer::new();
    assert_eq!(server.state(), ConnectionState::Disconnected);
    assert_eq!(RedisServer::default().state(), ConnectionState::Disconnected);
}

#[test]
fn startup_connects_then_loads_canvas() {
    let mut server = RedisServer::new();
    assert_eq!(server.step(StoreEvent::Started), SupervisorAction::Connect);
    assert_eq!(server.state(), ConnectionState::Disconnected);
    assert_eq!(server.step(StoreEvent::ConnectSucceeded), SupervisorAction::LoadCanvas);
    assert_eq!(server.state(), ConnectionState::Connected);
}

#[test]
fn failed_first_connection_is_fatal() {
    let mut server = RedisServer::new();
    server.step(StoreEvent::Started);
    assert_eq!(server.step(StoreEvent::ConnectFailed), SupervisorAction::Abort);
    assert_eq!(server.state(), ConnectionState::Disconnected);
}

#[test]
fn lost_connection_is_made_again_with_backoff() {
    let mut server = connected();
    assert_eq!(server.step(StoreEvent::ConnectionLost), SupervisorAction::Connect);
    assert_eq!(server.state(), ConnectionState::Reconnecting);
    assert_eq!(server.step(StoreEvent::ConnectFailed), SupervisorAction::RetryAfter(2));
    assert_eq!(server.state(), ConnectionState::Reconnecting);
    assert_eq!(server.step(StoreEvent::BackoffElapsed), SupervisorAction::Connect);
    assert_eq!(server.step(StoreEvent::ConnectFailed), SupervisorAction::RetryAfter(2));
    assert_eq!(server.step(StoreEvent::BackoffElapsed), SupervisorAction::Connect);
    assert_eq!(server.step(StoreEvent::ConnectSucceeded), SupervisorAction::Idle);
    assert_eq!(server.state(), ConnectionState::Connected);
}

#[test]
fn reports_that_do_not_apply_change_nothing() {
    let mut server = RedisServer::new();
    assert_eq!(server.step(StoreEvent::ConnectionLost), SupervisorAction::Idle);
    assert_eq!(server.step(StoreEvent::BackoffElapsed), SupervisorAction::Idle);
    assert_eq!(server.state(), ConnectionState::Disconnected);
    let mut server = connected();
    assert_eq!(server.step(StoreEvent::Started), SupervisorAction::Idle);
    assert_eq!(server.step(StoreEvent::ConnectSucceeded), SupervisorAction::Idle);
    assert_eq!(server.step(StoreEvent::ConnectFailed), SupervisorAction::Idle);
    assert_eq!(server.step(StoreEvent::BackoffElapsed), SupervisorAction::Idle);
    assert_eq!(server.state(), ConnectionState::Connected);
    server.step(StoreEvent::ConnectionLost);
    assert_eq!(server.step(StoreEvent::ConnectionLost), SupervisorAction::Idle);
    assert_eq!(server.step(StoreEvent::Started), SupervisorAction::Idle);
    assert_eq!(server.state(), ConnectionState::Reconnecting);
}

#[test]
fn commit_command_is_one_bitfield_set() {
    let server = connected();
    let cmd = match server.commit_pixel(Pixel { x: 1, y: 0, color: 0xFF00_FF00 }) {
        Ok(cmd) => cmd,
        Err(_) => panic!("a connected adapter builds the command"),
    };
    let expected =
        b"*6\r\n$8\r\nBITFIELD\r\n$9\r\nnewplaces\r\n$3\r\nSET\r\n$3\r\nu32\r\n$2\r\n32\r\n$10\r\n4278255360\r\n";
    assert_eq!(cmd.get_packed_command(), expected.to_vec());
}

#[test]
fn commit_command_offsets() {
    let server = connected();
    let origin = server.commit_pixel(Pixel { x: 0, y: 0, color: 0 }).unwrap();
    assert_eq!(
        origin.get_packed_command(),
        b"*6\r\n$8\r\nBITFIELD\r\n$9\r\nnewplaces\r\n$3\r\nSET\r\n$3\r\nu32\r\n$1\r\n0\r\n$1\r\n0\r\n"
            .to_vec()
    );
    // (1999, 1999) is cell 3_999_999, bit 127_999_968.
    let last = server.commit_pixel(Pixel { x: 1999, y: 1999, color: u32::MAX }).unwrap();
    assert_eq!(
        last.get_packed_command(),
        b"*6\r\n$8\r\nBITFIELD\r\n$9\r\nnewplaces\r\n$3\r\nSET\r\n$3\r\nu32\r\n$9\r\n127999968\r\n$10\r\n4294967295\r\n"
            .to_vec()
    );
    // (0, 1) is cell 2000, bit 64_000.
    let second_row = server.commit_pixel(Pixel { x: 0, y: 1, color: 10 }).unwrap();
    assert_eq!(
        second_row.get_packed_command(),
        b"*6\r\n$8\r\nBITFIELD\r\n$9\r\nnewplaces\r\n$3\r\nSET\r\n$3\r\nu32\r\n$5\r\n64000\r\n$2\r\n10\r\n"
            .to_vec()
    );
}

#[test]
fn load_command_is_a_get() {
    let server = connected();
    let cmd = server.load_canvas().unwrap();
    assert_eq!(cmd.get_packed_command(), b"*2\r\n$3\r\nGET\r\n$9\r\nnewplaces\r\n".to_vec());
}

#[test]
fn no_command_without_connection() {
    let server = RedisServer::new();
    let px = Pixel { x: 5, y: 5, color: 5 };
    assert_eq!(server.commit_pixel(px).err(), Some(StoreError::Unavailable));
    assert_eq!(server.load_canvas().err(), Some(StoreError::Unavailable));
    let mut server = connected();
    server.step(StoreEvent::ConnectionLost);
    assert_eq!(server.commit_pixel(px).err(), Some(StoreError::Unavailable));
    assert_eq!(server.load_canvas().err(), Some(StoreError::Unavailable));
}
