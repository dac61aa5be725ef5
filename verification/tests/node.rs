use gensokyo::node::Node;
use gensokyo::util::Error;

struct EchoNode;

impl Node for EchoNode {
    type Req = u32;
    type Res = u32;

    // ghost item of the trait; never called at runtime
    fn process_spec(&self, _req: u32) -> Result<u32, Error> {
        unreachable!()
    }

    fn process(&self, req: u32) -> Result<u32, Error> {
        Ok(req)
    }
}

#[test]
fn test_node_wrapper() {}

#[test]
fn node_processes_one_request() {
    let n = EchoNode;
    assert_eq!(n.process(9), Ok(9));
}
