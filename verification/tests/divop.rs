use xinterp::divop::{DivOp, Method};

#[test]
fn test_div_exact() {
    assert_eq!(0u128.div(2, Method::Exact), Some(0));
    assert_eq!(1u128.div(2, Method::Exact), None);
    assert_eq!(2u128.div(2, Method::Exact), Some(1));
    assert_eq!(3u128.div(2, Method::Exact), None);
    assert_eq!(1u128.div(3, Method::Exact), None);
    assert_eq!(2u128.div(3, Method::Exact), None);
    assert_eq!((-1i128).div(2, Method::Exact), None);
    assert_eq!((-2i128).div(2, Method::Exact), Some(-1));
    assert_eq!((-3i128).div(2, Method::Exact), None);
    assert_eq!((-1i128).div(3, Method::Exact), None);
    assert_eq!((-2i128).div(3, Method::Exact), None);
}

#[test]
fn test_div_round() {
    assert_eq!(0u128.div(2, Method::Nearest), Some(0));
    assert_eq!(1u128.div(2, Method::Nearest), Some(0));
    assert_eq!(2u128.div(2, Method::Nearest), Some(1));
    assert_eq!(3u128.div(2, Method::Nearest), Some(2));
    assert_eq!(1u128.div(3, Method::Nearest), Some(0));
    assert_eq!(2u128.div(3, Method::Nearest), Some(1));
    assert_eq!((-1i128).div(2, Method::Nearest), Some(0));
    assert_eq!((-2i128).div(2, Method::Nearest), Some(-1));
    assert_eq!((-3i128).div(2, Method::Nearest), Some(-2));
    assert_eq!((-1i128).div(3, Method::Nearest), Some(0));
    assert_eq!((-2i128).div(3, Method::Nearest), Some(-1));
}

#[test]
fn test_div_ffill() {
    assert_eq!(0u128.div(2, Method::ForwardFill), Some(0));
    assert_eq!(1u128.div(2, Method::ForwardFill), Some(0));
    assert_eq!(2u128.div(2, Method::ForwardFill), Some(1));
    assert_eq!(3u128.div(2, Method::ForwardFill), Some(1));
    assert_eq!(1u128.div(3, Method::ForwardFill), Some(0));
    assert_eq!(2u128.div(3, Method::ForwardFill), Some(0));
    assert_eq!((-1i128).div(2, Method::ForwardFill), Some(-1));
    assert_eq!((-2i128).div(2, Method::ForwardFill), Some(-1));
    assert_eq!((-3i128).div(2, Method::ForwardFill), Some(-2));
    assert_eq!((-1i128).div(3, Method::ForwardFill), Some(-1));
    assert_eq!((-2i128).div(3, Method::ForwardFill), Some(-1));
}

#[test]
fn test_div_bfill() {
    assert_eq!(0u128.div(2, Method::BackwardFill), Some(0));
    assert_eq!(1u128.div(2, Method::BackwardFill), Some(1));
    assert_eq!(2u128.div(2, Method::BackwardFill), Some(1));
    assert_eq!(3u128.div(2, Method::BackwardFill), Some(2));
    assert_eq!(1u128.div(3, Method::BackwardFill), Some(1));
    assert_eq!(2u128.div(3, Method::BackwardFill), Some(1));
    assert_eq!((-1i128).div(2, Method::BackwardFill), Some(0));
    assert_eq!((-2i128).div(2, Method::BackwardFill), Some(-1));
    assert_eq!((-3i128).div(2, Method::BackwardFill), Some(-1));
    assert_eq!((-1i128).div(3, Method::BackwardFill), Some(0));
    assert_eq!((-2i128).div(3, Method::BackwardFill), Some(0));
}
