use bc_trade::rules::{is_executable, is_to_execute};
use bc_trade::num::Num;
use bc_trade::types::{Capital, ErrorTrade, Order};

fn n(x: f64) -> Num {
    Num(x.to_bits())
}

fn nums(xs: &[f64]) -> Vec<Num> {
    xs.iter().map(|x| n(*x)).collect()
}

fn required(order: &Order) -> Num {
    let qty = f64::from_bits(order.qty.0);
    let leverage = f64::from_bits(order.leverage.0);
    let commission = f64::from_bits(order.commission.0);
    n(qty / leverage + commission)
}

#[test]
fn is_to_execute_res_1() {
    assert_eq!(
        is_to_execute(
            &Order {
                price: Some(n(1.9)),
                type_: "limit".to_string(),
                ..Default::default()
            },
            &nums(&[1.91; 5]),
            &nums(&[1.89; 5]),
        ),
        true
    )
}

#[test]
fn is_to_execute_res_2() {
    assert_eq!(
        is_to_execute(
            &Order {
                type_: "market".to_string(),
                ..Default::default()
            },
            &nums(&[1.91; 5]),
            &nums(&[1.89; 5]),
        ),
        true
    )
}

#[test]
fn is_executable_res_1() {
    let order = Order {
        type_: "market".to_string(),
        side: "sell".to_string(),
        qty: n(9.),
        commission: n(9. * 0.001),
        type_price_cross: "last".to_string(),
        leverage: n(2.),
        ..Default::default()
    };
    assert!(is_executable(Capital(n(4.5)), &order, required(&order)).is_err())
}

#[test]
fn refused_order_reports_capital_and_amounts() {
    let order = Order {
        qty: n(9.),
        commission: n(0.009),
        leverage: n(2.),
        ..Default::default()
    };
    assert_eq!(
        is_executable(Capital(n(4.5)), &order, required(&order)),
        Err(ErrorTrade::NotEnoughCapital(Capital(n(4.5)), n(9.), n(0.009)))
    );
    assert_eq!(is_executable(Capital(n(4.509)), &order, required(&order)), Ok(()));
    assert_eq!(is_executable(Capital(n(100.)), &order, required(&order)), Ok(()));
}

#[test]
fn reducing_order_needs_no_capital() {
    let order = Order {
        qty: n(9.),
        commission: n(0.009),
        leverage: n(2.),
        is_reduce: true,
        ..Default::default()
    };
    assert_eq!(is_executable(Capital(n(0.)), &order, required(&order)), Ok(()));
    assert_eq!(is_executable(Capital(n(-50.)), &order, required(&order)), Ok(()));
}

#[test]
fn inactive_or_uncrossed_orders_wait() {
    let src = nums(&[1.91; 5]);
    let src_l = nums(&[1.89; 5]);
    let inactive = Order {
        is_active: false,
        ..Default::default()
    };
    assert!(!is_to_execute(&inactive, &src, &src_l));
    let far = Order {
        price: Some(n(2.5)),
        ..Default::default()
    };
    assert!(!is_to_execute(&far, &src, &src_l));
    let nan_price = Order {
        price: Some(n(f64::NAN)),
        ..Default::default()
    };
    assert!(!is_to_execute(&nan_price, &src, &src_l));
}
