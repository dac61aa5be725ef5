use gensokyo::codec::byte::ByteKey;
use gensokyo::request::Sender;
use gensokyo::shard::{KeySpaceSpilt, Shard};
use gensokyo::util::{Either, Error, ShardError};

struct MockSender<T> {
    sent: Vec<T>,
    id: i32,
}

impl<T> MockSender<T> {
    fn new(id: i32) -> Self {
        MockSender { sent: Vec::new(), id }
    }
}

impl<T: Send> Sender for MockSender<T> {
    type Req = T;
    type Res = T;

    // ghost item of the trait; never called at runtime
    fn send_ready(&self) -> bool {
        unreachable!()
    }

    fn send(&mut self, req: T) -> Result<T, Error> {
        self.sent.push(req);
        Err(Error::Unknown)
    }

    fn close(&mut self) {
        unreachable!()
    }
}

fn send_and_check(sender: &mut MockSender<i32>, req: i32) {
    let send_res = sender.send(req);
    assert_eq!(send_res.unwrap_err(), Error::Unknown);
    let res = *sender.sent.last().unwrap();
    assert_eq!(res, req);
}

#[test]
fn test_split() {
    let mut key_space_spilt = KeySpaceSpilt::new();
    let k1 = ByteKey::new(b"b");
    let k2 = ByteKey::new(b"d");
    let k3 = ByteKey::new(b"f");
    let sender1 = MockSender::new(1);
    let sender2 = MockSender::new(2);
    let sender3 = MockSender::new(3);

    // [k1...k2...k3...]
    key_space_spilt.split(k1, Either::Left(sender1)).unwrap();
    key_space_spilt.split(k2, Either::Right(sender2)).unwrap();
    key_space_spilt.split(k3, Either::Right(sender3)).unwrap();

    let sender = key_space_spilt.key2node_mut(&ByteKey::new(b"a"));
    assert_eq!(sender.id, 1);
    send_and_check(sender, 1);

    let sender = key_space_spilt.key2node_mut(&ByteKey::new(b"c"));
    assert_eq!(sender.id, 1);
    send_and_check(sender, 2);

    let sender = key_space_spilt.key2node_mut(&ByteKey::new(b"d"));
    assert_eq!(sender.id, 2);
    send_and_check(sender, 3);

    let sender = key_space_spilt.key2node_mut(&ByteKey::new(b"e"));
    assert_eq!(sender.id, 2);
    send_and_check(sender, 4);

    let sender = key_space_spilt.key2node_mut(&ByteKey::new(b"f"));
    assert_eq!(sender.id, 3);
    send_and_check(sender, 5);
}

#[test]
fn split_at_existing_boundary_fails_and_map_stands() {
    let mut map = KeySpaceSpilt::new();
    map.split(ByteKey::new(b"m"), Either::Right(MockSender::<i32>::new(1)))
        .unwrap();
    let err = map
        .split(ByteKey::new(b"m"), Either::Right(MockSender::new(2)))
        .unwrap_err();
    assert_eq!(
        err,
        Error::ShardError(ShardError::SplitError("m".to_string()))
    );
    // the map was left unmodified: sender 1 still governs at and
    // above the boundary
    assert_eq!(map.key2node(&ByteKey::new(b"m")).id, 1);
    assert_eq!(map.key2node(&ByteKey::new(b"z")).id, 1);
}

#[test]
fn left_split_moves_the_lower_sender_up() {
    let mut map = KeySpaceSpilt::new();
    map.split(ByteKey::new(b"b"), Either::Right(MockSender::<i32>::new(1)))
        .unwrap();
    // sender 1 governs ["b", ...); a left split at "d" hands ["b", "d")
    // to sender 2 and moves sender 1 up to start at "d"
    map.split(ByteKey::new(b"d"), Either::Left(MockSender::new(2)))
        .unwrap();
    assert_eq!(map.key2node(&ByteKey::new(b"b")).id, 2);
    assert_eq!(map.key2node(&ByteKey::new(b"c")).id, 2);
    assert_eq!(map.key2node(&ByteKey::new(b"d")).id, 1);
    assert_eq!(map.key2node(&ByteKey::new(b"z")).id, 1);
}

#[test]
fn left_split_in_the_begin_range_replaces_the_begin_sender() {
    let mut map = KeySpaceSpilt::new();
    map.split(ByteKey::new(b"b"), Either::Left(MockSender::<i32>::new(1)))
        .unwrap();
    // sender 1 became the begin sender on the very first split
    assert_eq!(map.key2node(&ByteKey::new(b"a")).id, 1);
    // another left split with no boundary below it replaces the begin
    // sender outright; the old one is not preserved elsewhere
    map.split(ByteKey::new(b"d"), Either::Left(MockSender::new(2)))
        .unwrap();
    assert_eq!(map.key2node(&ByteKey::new(b"a")).id, 2);
    assert_eq!(map.key2node(&ByteKey::new(b"z")).id, 2);
}

#[test]
fn left_key_names_the_nearest_boundary_below() {
    let mut map = KeySpaceSpilt::new();
    map.split(ByteKey::new(b"b"), Either::Right(MockSender::<i32>::new(1)))
        .unwrap();
    map.split(ByteKey::new(b"d"), Either::Right(MockSender::new(2)))
        .unwrap();
    let lk = map.left_key(&ByteKey::new(b"c")).unwrap();
    assert_eq!(gensokyo::codec::Key::to_string(&lk), "b");
    // a boundary is not strictly below itself
    assert!(map.left_key(&ByteKey::new(b"b")).is_none());
    let lk = map.left_key(&ByteKey::new(b"z")).unwrap();
    assert_eq!(gensokyo::codec::Key::to_string(&lk), "d");
    // the inclusive search lands on the boundary itself
    assert_eq!(map.left_value_include(&ByteKey::new(b"b")).unwrap().id, 1);
    assert_eq!(map.left_value_include(&ByteKey::new(b"c")).unwrap().id, 1);
    assert!(map.left_value_include(&ByteKey::new(b"a")).is_none());
}
