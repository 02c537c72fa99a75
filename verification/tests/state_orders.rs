use bc_trade::num::Num;
use bc_trade::execution::{Execution, Priced};
use bc_trade::state::{Offer, TradeState};
use bc_trade::types::{Capital, ErrorTrade, Order, OrderWrap, Position, Trigger};

fn n(x: f64) -> Num {
    Num(x.to_bits())
}

fn v(x: Num) -> f64 {
    f64::from_bits(x.0)
}

fn nums(xs: &[f64]) -> Vec<Num> {
    xs.iter().map(|x| n(*x)).collect()
}

const CAPITAL: f64 = 1000.;

/// The current candle: closes at 1.91.
fn src_el() -> Vec<Num> {
    nums(&[2., 1.90, 1.92, 1.88, 1.91, 1500., 2800., 1.9101, 1.9102])
}

/// The candle before: closes at 1.89.
fn src_el1() -> Vec<Num> {
    nums(&[1., 1.88, 1.90, 1.87, 1.89, 1200., 2300., 1.8901, 1.8902])
}

fn market(side: &str, qty: f64, position_idx: usize) -> Order {
    Order {
        symbol: "ADAUSDT".to_string(),
        side: side.to_string(),
        qty: n(qty),
        commission: n(qty * 0.001),
        leverage: n(10.),
        type_: "market".to_string(),
        type_price_cross: "last".to_string(),
        position_idx,
        ..Default::default()
    }
}

fn limit(side: &str, qty: f64, price: f64, position_idx: usize) -> Order {
    Order {
        price: Some(n(price)),
        type_: "limit".to_string(),
        ..market(side, qty, position_idx)
    }
}

fn order_filters_state() -> Vec<Offer> {
    vec![
        (
            "count_2".to_string(),
            (
                Some(OrderWrap {
                    order: market("buy", 100., 1),
                    is_trigger: false,
                    trigger: None,
                }),
                true,
            ),
        ),
        (
            "wrap".to_string(),
            (
                Some(OrderWrap {
                    order: limit("sell", 50., 1.9, 2),
                    is_trigger: false,
                    trigger: None,
                }),
                true,
            ),
        ),
        (
            "count_3".to_string(),
            (
                Some(OrderWrap {
                    order: market("buy", 30., 1),
                    is_trigger: true,
                    trigger: Some(trigger()),
                }),
                true,
            ),
        ),
        ("count_1".to_string(), (None, true)),
        (
            "off".to_string(),
            (
                Some(OrderWrap {
                    order: market("buy", 5., 3),
                    is_trigger: false,
                    trigger: None,
                }),
                false,
            ),
        ),
    ]
}

fn trigger() -> Trigger {
    Trigger {
        price: n(1.90),
        direction: 1,
        trigger_by: "last".to_string(),
    }
}

fn trade_state() -> TradeState {
    TradeState {
        capital: Capital(n(CAPITAL)),
        orders: vec![
            ("count_2".to_string(), vec![market("buy", 100., 1)]),
            ("wrap".to_string(), vec![limit("sell", 50., 1.9, 2)]),
        ],
        orders_trigger: vec![(
            "count_3".to_string(),
            vec![(market("buy", 30., 1), trigger())],
        )],
        positions: vec![],
    }
}

fn trade_state_empty() -> TradeState {
    TradeState::new(Capital(n(CAPITAL)))
}

fn get<'a, V>(book: &'a [(String, V)], key: &str) -> &'a V {
    &book.iter().find(|(k, _)| k == key).unwrap().1
}

// Binary64 accounting of one executed order, as the account keeps it.

fn execute_order(capital: f64, o: &Order) -> f64 {
    let mut c = capital;
    c -= v(o.commission);
    c -= v(o.qty) / v(o.leverage);
    c
}

fn execute_order_reduce(capital: f64, o: &Order, remainder: f64) -> f64 {
    let mut c = capital;
    c -= v(o.commission);
    c += (v(o.qty) - remainder) / v(o.leverage);
    c
}

fn upd_pnl(p: &mut Position, last_price: f64) {
    let avg = v(p.avg_open_price);
    let percent =
        (last_price - avg) / avg * v(p.leverage) * if p.side == "buy" { 1. } else { -1. };
    p.pnl_percent = n(percent);
    p.pnl_qty = n(percent * v(p.qty) / v(p.leverage));
}

fn modify(capital: f64, p: &mut Position, o: &Order, last_price: f64) -> f64 {
    let c = if o.is_reduce {
        let mut qty = v(p.qty);
        qty -= v(o.qty);
        p.qty = n(qty);
        let remainder = if qty < 0. {
            p.is_active = false;
            qty * -1.
        } else {
            0.
        };
        execute_order_reduce(capital, o, remainder)
    } else {
        p.qty = n(v(p.qty) + v(o.qty));
        p.avg_open_price = n((v(p.avg_open_price) + last_price) / 2.);
        execute_order(capital, o)
    };
    upd_pnl(p, last_price);
    c
}

fn price(capital: Capital, o: &Order, position: Option<Position>, last_price: Num) -> Priced {
    let required = n(v(o.qty) / v(o.leverage) + v(o.commission));
    match position {
        Some(mut p) => {
            let c = modify(v(capital.0), &mut p, o, v(last_price));
            Priced {
                required,
                capital: Capital(n(execute_order(c, o))),
                position: Some(p),
            }
        }
        None => Priced {
            required,
            capital: Capital(n(execute_order(v(capital.0), o))),
            position: None,
        },
    }
}

fn execute(
    t: &mut TradeState,
    src: &[Num],
    src_l: &[Num],
) -> Result<Vec<(String, Vec<Order>)>, ErrorTrade> {
    let cost = |o: Order| price(Capital(n(0.)), &o, None, n(0.)).required;
    let change = |c: Capital, o: Order, p: Position, lp: Num| {
        let priced = price(c, &o, Some(p), lp);
        (priced.capital, priced.position.unwrap())
    };
    let open = |c: Capital, o: Order, lp: Num| price(c, &o, None, lp).capital;
    t.execute(src, src_l, cost, change, open)
}

fn execute_stepwise(
    t: &mut TradeState,
    src: &[Num],
    src_l: &[Num],
) -> Result<Vec<(String, Vec<Order>)>, ErrorTrade> {
    let mut run = Execution::new();
    while let Some((order, position)) = t.execute_next(&mut run, src, src_l) {
        let priced = price(t.capital, &order, position, src[4]);
        t.execute_settle(&mut run, src, priced)?;
    }
    Ok(run.done)
}

#[test]
fn stepwise_pass_matches_whole_pass() {
    for capital in [1000., 10.05, 15.2] {
        let mut a = trade_state();
        let mut b = trade_state();
        a.capital = Capital(n(capital));
        b.capital = Capital(n(capital));
        a.orders[0].1.push(market("buy", 20., 1));
        b.orders[0].1.push(market("buy", 20., 1));
        a.orders[1].1.insert(0, limit("sell", 3., 2.5, 2));
        b.orders[1].1.insert(0, limit("sell", 3., 2.5, 2));
        assert_eq!(
            execute(&mut a, &src_el(), &src_el1()),
            execute_stepwise(&mut b, &src_el(), &src_el1())
        );
        assert_eq!(a, b);
        assert!(a.is_well_formed());
    }
}

#[test]
fn step_res_1() {
    let mut t = trade_state_empty();
    t.step(&order_filters_state());
    assert_eq!(&t, &trade_state());
    assert_eq!(get(&t.orders_trigger, "count_3").len(), 1);
}

#[test]
fn triggers_to_orders_res_1() {
    let mut t = trade_state_empty();
    t.step(&order_filters_state());
    t.triggers_to_orders(&src_el(), &src_el1());
    assert_eq!(&t, &trade_state());
    assert_eq!(get(&t.orders_trigger, "count_3").len(), 1);
}

#[test]
fn execute_res_1() {
    let mut t = trade_state();
    t.triggers_to_orders(&src_el(), &src_el1());
    execute(&mut t, &src_el(), &src_el1()).unwrap();
    assert!(!t.positions.is_empty());
    assert_eq!(get(&t.orders_trigger, "count_3").len(), 1);
}

#[test]
fn clear_res_1() {
    let mut t = trade_state();
    t.step(&order_filters_state());
    t.triggers_to_orders(&src_el(), &src_el1());
    execute(&mut t, &src_el(), &src_el1()).unwrap();
    assert!(!t.positions.is_empty());
    assert!(!t.orders.is_empty());
    assert!(!t.orders_trigger.is_empty());
    for (_, p) in t.positions.iter_mut() {
        p.is_active = false;
    }
    for (_, orders) in t.orders.iter_mut() {
        for o in orders.iter_mut() {
            o.is_active = false;
        }
    }
    for (_, orders) in t.orders_trigger.iter_mut() {
        for (o, _) in orders.iter_mut() {
            o.is_active = false;
        }
    }
    t.clear();
    assert!(t.positions.is_empty());
    for (_, orders) in t.orders.iter() {
        assert!(orders.is_empty());
    }
    for (_, orders) in t.orders_trigger.iter() {
        assert!(orders.is_empty());
    }
}

#[test]
fn step_appends_after_pending_orders() {
    let mut t = trade_state();
    t.step(&order_filters_state());
    assert_eq!(
        get(&t.orders, "count_2"),
        &vec![market("buy", 100., 1), market("buy", 100., 1)]
    );
    assert_eq!(get(&t.orders_trigger, "count_3").len(), 2);
    assert_eq!(t.orders.len(), 2);
    let mut idle = trade_state();
    idle.step(&vec![("count_2".to_string(), (None, true))]);
    assert_eq!(idle, trade_state());
}

#[test]
fn fired_triggers_join_the_orders_of_their_name() {
    let mut t = trade_state();
    t.orders.push(("count_3".to_string(), vec![]));
    let waiting = (
        market("sell", 7., 4),
        Trigger {
            price: n(1.5),
            direction: 1,
            trigger_by: "last".to_string(),
        },
    );
    t.orders_trigger[0].1.push(waiting.clone());
    t.triggers_to_orders(&src_el(), &src_el1());
    // 1.90 was crossed upwards between 1.89 and 1.91; 1.5 was not
    assert_eq!(get(&t.orders, "count_3"), &vec![market("buy", 30., 1)]);
    assert_eq!(get(&t.orders_trigger, "count_3"), &vec![waiting]);
    assert_eq!(get(&t.orders, "count_2"), &vec![market("buy", 100., 1)]);
}

#[test]
fn execution_opens_and_changes_positions() {
    let mut t = trade_state();
    let res = execute(&mut t, &src_el(), &src_el1()).unwrap();
    // both orders were due: a market order and a limit order crossed at 1.9
    assert_eq!(res.len(), 2);
    assert_eq!(res[0].0, "count_2");
    assert_eq!(res[0].1.len(), 1);
    assert!(!res[0].1[0].is_active);
    assert_eq!(res[0].1[0].price, Some(n(1.91)));
    assert_eq!(res[1].1[0].price, Some(n(1.91)));
    assert!(get(&t.orders, "count_2").is_empty());
    assert!(get(&t.orders, "wrap").is_empty());
    assert_eq!(t.positions.len(), 2);
    assert_eq!(
        t.positions[0],
        (
            1,
            Position::new(
                "ADAUSDT".to_string(),
                "buy".to_string(),
                n(100.),
                n(10.),
                n(1.91),
                1,
                true
            )
        )
    );
    assert_eq!(t.positions[1].0, 2);
    assert_eq!(t.positions[1].1.avg_open_price, n(1.91));
    let mut c = CAPITAL;
    c -= 0.1;
    c -= 100. / 10.;
    c -= 0.05;
    c -= 50. / 10.;
    assert_eq!(t.capital, Capital(n(c)));

    // a second order on position 1 changes it, and is charged twice
    t.orders[0].1.push(market("buy", 20., 1));
    let before = v(t.capital.0);
    execute(&mut t, &src_el(), &src_el1()).unwrap();
    assert_eq!(t.positions.len(), 2);
    let p = &t.positions[0].1;
    assert_eq!(p.qty, n(120.));
    assert_eq!(p.avg_open_price, n((1.91 + 1.91) / 2.));
    let mut c = before;
    c -= 0.02;
    c -= 20. / 10.;
    c -= 0.02;
    c -= 20. / 10.;
    assert_eq!(t.capital, Capital(n(c)));
}

#[test]
fn refused_order_is_dropped_and_stops_the_pass() {
    let mut t = trade_state();
    t.capital = Capital(n(10.05));
    t.orders[0].1.push(market("buy", 1., 5));
    let res = execute(&mut t, &src_el(), &src_el1());
    // 100 / 10 + 0.1 exceeds 10.05
    assert_eq!(
        res,
        Err(ErrorTrade::NotEnoughCapital(
            Capital(n(10.05)),
            n(100.),
            n(0.1)
        ))
    );
    assert_eq!(t.capital, Capital(n(10.05)));
    assert!(t.positions.is_empty());
    // the refused order is gone, the orders not yet looked at stay
    assert_eq!(get(&t.orders, "count_2"), &vec![market("buy", 1., 5)]);
    assert_eq!(get(&t.orders, "wrap"), &vec![limit("sell", 50., 1.9, 2)]);
}

#[test]
fn short_candle_refusal_reads_no_close() {
    // a candle without a close: the first due order is refused before the
    // close would be read
    let mut t = trade_state();
    t.capital = Capital(n(5.));
    let short = nums(&[2., 1.90, 1.92, 1.88]);
    let res = execute(&mut t, &short, &short);
    assert_eq!(
        res,
        Err(ErrorTrade::NotEnoughCapital(Capital(n(5.)), n(100.), n(0.1)))
    );
    assert_eq!(t.capital, Capital(n(5.)));
    assert!(t.positions.is_empty());
    assert!(get(&t.orders, "count_2").is_empty());
    assert_eq!(get(&t.orders, "wrap"), &vec![limit("sell", 50., 1.9, 2)]);
}

#[test]
fn pass_without_due_orders_changes_nothing() {
    let mut t = trade_state();
    t.orders[0].1.clear();
    t.orders[1].1 = vec![limit("sell", 50., 2.5, 2)];
    let held = (
        7,
        Position::new(
            "ADAUSDT".to_string(),
            "buy".to_string(),
            n(3.),
            n(10.),
            n(1.5),
            7,
            true,
        ),
    );
    t.positions.push(held.clone());
    let res = execute(&mut t, &src_el(), &src_el1()).unwrap();
    assert_eq!(res.len(), 2);
    assert!(res[0].1.is_empty() && res[1].1.is_empty());
    assert_eq!(t.capital, Capital(n(CAPITAL)));
    assert_eq!(t.positions, vec![held]);
}

#[test]
fn positions_untouched_by_the_pass_stay_in_place() {
    let mut t = trade_state();
    let held = (
        7,
        Position::new(
            "ADAUSDT".to_string(),
            "sell".to_string(),
            n(4.),
            n(10.),
            n(1.7),
            7,
            true,
        ),
    );
    t.positions.push(held.clone());
    execute(&mut t, &src_el(), &src_el1()).unwrap();
    assert_eq!(t.positions.len(), 3);
    assert_eq!(t.positions[0], held);
    assert_eq!(t.positions[1].0, 1);
    assert_eq!(t.positions[2].0, 2);
    assert_eq!(
        t.positions[2].1,
        Position::new(
            "ADAUSDT".to_string(),
            "sell".to_string(),
            n(50.),
            n(10.),
            n(1.91),
            2,
            true
        )
    );
}

#[test]
fn orders_not_due_stay_in_place() {
    let mut t = trade_state();
    t.orders[1].1 = vec![limit("sell", 50., 2.5, 2), limit("sell", 1., 1.9, 2)];
    let res = execute(&mut t, &src_el(), &src_el1()).unwrap();
    assert_eq!(get(&t.orders, "wrap"), &vec![limit("sell", 50., 2.5, 2)]);
    assert_eq!(res[1].1.len(), 1);
    assert_eq!(res[1].1[0].qty, n(1.));
    let mut idle = trade_state();
    idle.orders = vec![("wrap".to_string(), vec![limit("sell", 50., 2.5, 2)])];
    let res = execute(&mut idle, &src_el(), &src_el1()).unwrap();
    assert_eq!(res, vec![("wrap".to_string(), vec![])]);
    assert!(idle.positions.is_empty());
}

#[test]
fn clear_keeps_active_entries() {
    let mut t = trade_state();
    t.orders[0].1.push(Order {
        is_active: false,
        ..market("buy", 3., 1)
    });
    t.positions = vec![
        (1, Position::default()),
        (
            2,
            Position {
                is_active: false,
                ..Position::default()
            },
        ),
    ];
    t.clear();
    assert_eq!(get(&t.orders, "count_2"), &vec![market("buy", 100., 1)]);
    assert_eq!(t.positions, vec![(1, Position::default())]);
    assert_eq!(t.orders.len(), 2);
    let once = format!("{:?}", t);
    t.clear();
    assert_eq!(format!("{:?}", t), once);
}

#[test]
fn insert_res_1() {
    let mut t = TradeState::new(Capital(n(100.)));
    t.orders = vec![(
        "market".to_string(),
        vec![Order {
            type_: "market".to_string(),
            side: "sell".to_string(),
            qty: n(9.),
            commission: n(9. * 0.001),
            type_price_cross: "last".to_string(),
            leverage: n(2.),
            ..Default::default()
        }],
    )];
    let src = nums(&[1.9; 5]);
    execute(&mut t, &src, &src).unwrap();
    assert_eq!(
        t.positions,
        vec![(
            0,
            Position {
                avg_open_price: n(1.9),
                side: "sell".to_string(),
                qty: n(9.),
                leverage: n(2.),
                ..Default::default()
            }
        )]
    );
}

#[test]
fn well_formedness_is_checked() {
    let mut t = trade_state();
    assert!(t.is_well_formed());
    t.orders.push(("wrap".to_string(), vec![]));
    assert!(!t.is_well_formed());
    let mut p = trade_state();
    p.positions = vec![(1, Position::default()), (1, Position::default())];
    assert!(!p.is_well_formed());
}
