use etcd_p2c::add;
use num_integer::Roots;

#[test]
fn it_works() {
    let result = add(2, 2);
    let x: i32 = 22;
    let _i = x.sqrt();
    assert_eq!(result, 4);
}

#[test]
fn instance_picker() {}
