use minikv::commands::encode_request;
use minikv::connection::{Connection, ConnectionState};
use minikv::scalablehashmap::ScalableHashMap;

fn request(conn: &mut Connection, db: &mut ScalableHashMap, args: Vec<&[u8]>) -> Vec<u8> {
    let byte_args: Vec<Vec<u8>> = args.iter().map(|a| a.to_vec()).collect();
    let frame = encode_request(&byte_args);
    conn.reset_read_buffer();
    conn.reset_write_buffer();
    conn.set_state(ConnectionState::ReadyToRead);
    conn.read_buffer[..frame.len()].copy_from_slice(&frame);
    conn.process_request(db);
    let body_len = u32::from_le_bytes([
        conn.write_buffer[0],
        conn.write_buffer[1],
        conn.write_buffer[2],
        conn.write_buffer[3],
    ]) as usize;
    conn.write_buffer[4..4 + body_len].to_vec()
}

#[test]
fn get_miss_returns_sentinel() {
    // GET on an absent key answers the "not found" string
    let mut db = ScalableHashMap::new();
    let mut conn = Connection::new();
    let body = request(&mut conn, &mut db, vec![b"GET", b"name"]);
    let mut expected = vec![3u8, 9, 0, 0, 0];
    expected.extend_from_slice(b"not found");
    assert_eq!(body, expected);
    assert_eq!(conn.state(), ConnectionState::ReadyToWrite);
}

#[test]
fn set_then_get_returns_value() {
    let mut db = ScalableHashMap::new();
    let mut conn = Connection::new();
    let body = request(&mut conn, &mut db, vec![b"SET", b"age", b"32"]);
    assert_eq!(body, vec![0u8]);
    assert_eq!(conn.state(), ConnectionState::ReadyToWrite);
    let body = request(&mut conn, &mut db, vec![b"GET", b"age"]);
    let mut expected = vec![3u8, 2, 0, 0, 0];
    expected.extend_from_slice(b"32");
    assert_eq!(body, expected);
}

#[test]
fn del_answers_one_then_zero() {
    let mut db = ScalableHashMap::new();
    let mut conn = Connection::new();
    request(&mut conn, &mut db, vec![b"SET", b"age", b"32"]);
    let body = request(&mut conn, &mut db, vec![b"DEL", b"age"]);
    assert_eq!(body, vec![2u8, 1, 0, 0, 0, 0, 0, 0, 0]);
    let body = request(&mut conn, &mut db, vec![b"DEL", b"age"]);
    assert_eq!(body, vec![2u8, 0, 0, 0, 0, 0, 0, 0, 0]);
}

#[test]
fn set_overwrites() {
    let mut db = ScalableHashMap::new();
    let mut conn = Connection::new();
    request(&mut conn, &mut db, vec![b"SET", b"k", b"one"]);
    request(&mut conn, &mut db, vec![b"SET", b"k", b"two"]);
    assert_eq!(db.size(), 1);
    let body = request(&mut conn, &mut db, vec![b"GET", b"k"]);
    let mut expected = vec![3u8, 3, 0, 0, 0];
    expected.extend_from_slice(b"two");
    assert_eq!(body, expected);
}

#[test]
fn malformed_frame_closes_connection() {
    // a frame with five arguments is rejected: an error response goes
    // out and the connection moves to Closing
    let mut db = ScalableHashMap::new();
    let mut conn = Connection::new();
    let body = request(
        &mut conn,
        &mut db,
        vec![b"GET", b"a", b"b", b"c", b"d"],
    );
    assert_eq!(conn.state(), ConnectionState::Closing);
    let mut expected = vec![1u8, 1, 0, 0, 0, 11, 0, 0, 0];
    expected.extend_from_slice(b"bad request");
    assert_eq!(body, expected);
    // the store is untouched
    assert_eq!(db.size(), 0);
}

#[test]
fn many_keys_survive_rehash() {
    // drive the store through several rehashes via the command layer
    let mut db = ScalableHashMap::new();
    let mut conn = Connection::new();
    for i in 0..100u32 {
        let key = format!("key{i}");
        let value = format!("value{i}");
        request(
            &mut conn,
            &mut db,
            vec![b"SET", key.as_bytes(), value.as_bytes()],
        );
    }
    assert_eq!(db.size(), 100);
    for i in 0..100u32 {
        let key = format!("key{i}");
        let body = request(&mut conn, &mut db, vec![b"GET", key.as_bytes()]);
        let value = format!("value{i}");
        let mut expected = vec![3u8];
        expected.extend_from_slice(&(value.len() as u32).to_le_bytes());
        expected.extend_from_slice(value.as_bytes());
        assert_eq!(body, expected);
    }
}

#[test]
fn connection_lifecycle() {
    let mut conn = Connection::new();
    assert_eq!(conn.state(), ConnectionState::ReadyToRead);
    assert_eq!(conn.get_write_buffer().len(), 4 + 4096);
    conn.set_state(ConnectionState::ReadyToWrite);
    assert_eq!(conn.state(), ConnectionState::ReadyToWrite);
    conn.set_state(ConnectionState::Closing);
    conn.reset_write_buffer();
    assert!(conn.get_write_buffer().iter().all(|b| *b == 0));
    assert_eq!(conn.state(), ConnectionState::Closing);
}
