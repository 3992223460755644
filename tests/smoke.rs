#[allow(unused_imports)]
use ankiding::card::Card;

#[test]
fn it_works() {
    let result = 2 + 2;
    assert_eq!(result, 4);
}
