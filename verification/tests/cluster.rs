use gensokyo::codec::byte::ByteKey;
use gensokyo::node::{Node, Server};
use gensokyo::request::Sender;
use gensokyo::shard::KeySpaceSpilt;
use gensokyo::util::Error;
use gensokyo::Cluster;
use std::sync::Arc;

struct EchoNode;

impl Node for EchoNode {
    type Req = i32;
    type Res = i32;

    // ghost item of the trait; never called at runtime
    fn process_spec(&self, _req: i32) -> Result<i32, Error> {
        unreachable!()
    }

    fn process(&self, req: i32) -> Result<i32, Error> {
        Ok(req)
    }
}

struct PlusHundredSender;

impl Sender for PlusHundredSender {
    type Req = i32;
    type Res = i32;

    // ghost item of the trait; never called at runtime
    fn send_ready(&self) -> bool {
        unreachable!()
    }

    fn send(&mut self, req: i32) -> Result<i32, Error> {
        Ok(req + 100)
    }

    fn close(&mut self) {}
}

struct NullServer;

impl Node for NullServer {
    type Req = i32;
    type Res = i32;

    // ghost item of the trait; never called at runtime
    fn process_spec(&self, _req: i32) -> Result<i32, Error> {
        unreachable!()
    }

    fn process(&self, req: i32) -> Result<i32, Error> {
        Ok(req)
    }
}

impl Server for NullServer {
    type S = KeySpaceSpilt<ByteKey, PlusHundredSender>;
    type T = ();

    fn register_shard(&mut self, _s: Arc<Self::S>) {}

    fn execute(&mut self, _t: ()) -> Result<(), Error> {
        Ok(())
    }
}

#[test]
fn cluster_routes_to_the_joined_member() {
    let mut c: Cluster<EchoNode, NullServer, i32, i32, PlusHundredSender> =
        Cluster::new().unwrap();
    c.join_node(PlusHundredSender, EchoNode);
    c.join_node(PlusHundredSender, EchoNode);
    // member ids are handed out in joining order, starting at zero
    assert_eq!(c.send(0, 5), Ok(105));
    assert_eq!(c.send(1, 7), Ok(107));
}
