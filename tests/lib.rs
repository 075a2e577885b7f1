#[allow(unused_imports)]
use fiesta_net::Buffer;

#[test]
fn it_works() {
}
