use gensokyo::node::Node;
use gensokyo::request::channel::new_channel_connect;
use gensokyo::util::{Error, RequestError};

struct Plus1Node;

impl Node for Plus1Node {
    type Req = i32;
    type Res = i32;

    // ghost item of the trait; never called at runtime
    fn process_spec(&self, _req: i32) -> Result<i32, Error> {
        unreachable!()
    }

    fn process(&self, req: i32) -> Result<i32, Error> {
        Ok(req + 1)
    }
}

struct Multi1Node;

impl Node for Multi1Node {
    type Req = i32;
    type Res = i32;

    // ghost item of the trait; never called at runtime
    fn process_spec(&self, _req: i32) -> Result<i32, Error> {
        unreachable!()
    }

    fn process(&self, req: i32) -> Result<i32, Error> {
        Ok(2 * req)
    }
}

#[test]
fn test_send_recv() {
    let mut tx1 = new_channel_connect(Plus1Node);
    for i in 0..1000 {
        let r = tx1.send(i).unwrap();
        assert_eq!(i + 1, r);
    }
    let mut tx2 = new_channel_connect(Multi1Node);
    for i in 0..1000 {
        let r = tx2.send(i).unwrap();
        assert_eq!(2 * i, r);
    }
}

#[test]
fn correlation_ids_increase_and_start_at_zero() {
    let mut tx = new_channel_connect(Plus1Node);
    let a = tx.enqueue_request(1).unwrap();
    let b = tx.enqueue_request(2).unwrap();
    let c = tx.enqueue_request(3).unwrap();
    assert!(a < b && b < c);
    assert_eq!((a, b, c), (0, 1, 2));
}

#[test]
fn responses_match_by_id_not_by_arrival() {
    let mut tx = new_channel_connect(Plus1Node);
    let a = tx.enqueue_request(10).unwrap();
    let b = tx.enqueue_request(20).unwrap();
    tx.collect_pending();
    tx.polling_resp();
    // the later caller picks up first; each still gets its own result
    assert_eq!(tx.wait_resp(b), Some(Ok(21)));
    assert_eq!(tx.wait_resp(a), Some(Ok(11)));
    // a claimed id is gone
    assert_eq!(tx.wait_resp(a), None);
}

#[test]
fn drainer_stops_after_close() {
    let mut tx = new_channel_connect(Plus1Node);
    let id = tx.enqueue_request(41).unwrap();
    tx.collect_pending();
    // the response sits buffered in the response queue
    tx.close();
    // the drainer observes the termination flag: no table insertion
    tx.polling_resp();
    assert_eq!(tx.wait_resp(id), None);
}

#[test]
fn drainer_delivers_before_close() {
    let mut tx = new_channel_connect(Plus1Node);
    let id = tx.enqueue_request(41).unwrap();
    tx.collect_pending();
    tx.polling_resp();
    assert_eq!(tx.wait_resp(id), Some(Ok(42)));
}

#[test]
fn send_after_close_fails_with_transport_error() {
    let mut tx = new_channel_connect(Plus1Node);
    tx.close();
    let r = tx.send(1);
    assert_eq!(
        r,
        Err(Error::RequestError(RequestError::SendError(
            "channel terminated".to_string()
        )))
    );
}

#[test]
fn channel_saturates_at_capacity() {
    let mut tx = new_channel_connect(Plus1Node);
    for i in 0..1024 {
        assert!(tx.enqueue_request(i).is_ok());
    }
    assert!(tx.enqueue_request(-1).is_err());
    tx.collect_pending();
    tx.polling_resp();
    // everything moved into the table; only a pickup makes room
    assert!(tx.enqueue_request(-1).is_err());
    assert_eq!(tx.wait_resp(0), Some(Ok(1)));
    assert!(tx.enqueue_request(-1).is_ok());
}
