use bc_trade::cell::TradeCell;
use bc_trade::num::Num;
use bc_trade::statistics::{CellBook, NumsExt, PositionValue, StatCollector, StatData};
use bc_trade::types::{Order, Position};

fn n(x: f64) -> Num {
    Num(x.to_bits())
}

fn v(x: Num) -> f64 {
    f64::from_bits(x.0)
}

fn nums(xs: &[f64]) -> Vec<Num> {
    xs.iter().map(|x| n(*x)).collect()
}

/// The values of a column with every NaN replaced by `fill`.
fn nz_coll(xs: &[Num], fill: f64) -> Vec<f64> {
    xs.iter()
        .map(|x| if v(*x).is_nan() { fill } else { v(*x) })
        .collect()
}

fn floats(xs: &[Num]) -> Vec<f64> {
    xs.iter().map(|x| v(*x)).collect()
}

const CAPITAL: f64 = 1000.;
const PERCENT_OF_CAPITAL: f64 = 0.1;
const LEVERAGE: f64 = 10.;

fn src_el() -> [f64; 9] {
    [50., 1.93, 1.95, 1.90, 1.94, 1500., 2900., 1.9401, 1.9402]
}

fn src_el1() -> [f64; 9] {
    [49., 1.91, 1.93, 1.89, 1.92, 1400., 2700., 1.9201, 1.9202]
}

fn src_el2() -> [f64; 9] {
    [48., 1.89, 1.91, 1.88, 1.90, 1300., 2500., 1.9001, 1.9002]
}

fn order(side: &str, price: Option<f64>, type_: &str, position_idx: usize) -> Order {
    Order {
        symbol: "".to_string(),
        side: side.to_string(),
        qty: n(CAPITAL * PERCENT_OF_CAPITAL),
        leverage: n(LEVERAGE),
        price: price.map(n),
        type_: type_.to_string(),
        position_idx,
        ..Default::default()
    }
}

fn position(is_active: bool) -> Position {
    Position::new(
        "".to_string(),
        "buy".to_string(),
        n(CAPITAL * PERCENT_OF_CAPITAL),
        n(LEVERAGE),
        n(1.7),
        1,
        is_active,
    )
}

fn st() -> StatCollector {
    let mut bind = StatCollector::new("".to_string());
    bind.push(TradeCell {
        capital: n(100.),
        src: nums(&src_el1()),
        src_l: nums(&src_el2()),
        trigger_orders: vec![("1".to_string(), order("buy", Some(3.), "limit", 1))],
        limit_orders: vec![],
        market_orders: vec![("1".to_string(), order("", None, "market", 1))],
        positions: vec![("1".to_string(), position(true))],
    });
    bind.push(TradeCell {
        capital: n(100.),
        src: nums(&src_el()),
        src_l: nums(&src_el1()),
        trigger_orders: vec![],
        limit_orders: vec![],
        market_orders: vec![("1".to_string(), order("", None, "market", 1))],
        positions: vec![("1".to_string(), position(false))],
    });
    bind
}

#[test]
fn to_all_res_1() {
    assert_eq!(
        vec![1., 0.,],
        nz_coll(
            &StatCollector::to_all(&[nums(&[1., f64::NAN]), nums(&[1., 2.])]),
            0.
        )
    )
}

#[test]
fn to_any_res_1() {
    assert_eq!(
        vec![1., 2.,],
        floats(&StatCollector::to_any(&[nums(&[1., f64::NAN]), nums(&[1., 2.])]))
    )
}

#[test]
fn to_some_res_1() {
    assert_eq!(
        vec![src_el1()[1], 0.0],
        nz_coll(&st().to_some(CellBook::TriggerOrders, true), 0.)
    )
}

#[test]
fn to_capital_res_1() {
    assert_eq!(vec![100., 100.,], floats(&st().to_capital()))
}

#[test]
fn to_entry_res_1() {
    assert_eq!(vec![src_el1()[1], 0.], nz_coll(&st().to_entry(), 0.))
}

#[test]
fn to_exit_res_1() {
    assert_eq!(vec![0., src_el()[1]], nz_coll(&st().to_exit(), 0.))
}

#[test]
fn to_market_orders_res_1() {
    assert_eq!(
        st().to_some(CellBook::MarketOrders, true),
        st().to_market_orders()
    )
}

#[test]
fn to_limit_orders_res_1() {
    assert_eq!(
        nz_coll(&st().to_some(CellBook::LimitOrders, true), 0.),
        nz_coll(&st().to_limit_orders(), 0.),
    )
}

#[test]
fn to_entry_and_exit_res_1() {
    assert_eq!(
        vec![src_el1()[1], src_el()[1],],
        floats(&st().to_entry_and_exit())
    )
}

#[test]
fn to_positions_entry_exit_res_1() {
    assert_eq!(
        vec![src_el1()[1], src_el()[1]],
        floats(&st().to_positions_entry_exit()),
    )
}

#[test]
fn to_value_positions_res_1() {
    assert_eq!(
        vec![CAPITAL * PERCENT_OF_CAPITAL; 2],
        floats(&st().to_value_positions(PositionValue::Qty))
    )
}

#[test]
fn to_data_res_1() {
    let pnl = nums(&[4.5, -2.25]);
    let data = st().to_data(&pnl);
    let mut bind: Vec<Vec<(String, Vec<f64>)>> = data
        .0
        .iter()
        .map(|t| t.iter().map(|(k, c)| (k.clone(), floats(c))).collect())
        .collect();
    for (k, c) in bind[0].iter_mut() {
        if k == "entry" || k == "exit" || k == "pnl" {
            *c = c.iter().map(|x| if x.is_nan() { 0. } else { *x }).collect();
        }
    }
    let col = |k: usize| vec![src_el1()[k], src_el()[k]];
    let expected: Vec<Vec<(String, Vec<f64>)>> = vec![
        vec![
            ("time".to_string(), vec![0., 1.]),
            ("open".to_string(), col(1)),
            ("high".to_string(), col(2)),
            ("low".to_string(), col(3)),
            ("close".to_string(), col(4)),
            ("volume".to_string(), col(5)),
            ("turnover".to_string(), col(6)),
            ("capital".to_string(), floats(&st().to_capital())),
            ("entry".to_string(), vec![src_el1()[1], 0.]),
            ("exit".to_string(), vec![0., src_el()[1]]),
            (
                "pnl".to_string(),
                nz_coll(
                    &StatCollector::to_all(&[pnl.clone(), st().to_exit()]),
                    0.,
                ),
            ),
            (
                "qty".to_string(),
                floats(&st().to_value_positions(PositionValue::Qty)),
            ),
        ],
        vec![
            ("time".to_string(), vec![0., 1.]),
            (
                "positions_entry_exit".to_string(),
                vec![src_el1()[1], src_el()[1]],
            ),
        ],
    ];
    assert_eq!(expected, bind);
    assert_eq!(bind[0][10].1, vec![0., -2.25]);
}

#[test]
fn del_nan_res_1() {
    assert_eq!(
        vec![(0usize, n(1.))],
        nums(&[1., f64::NAN]).del_nan(0)
    )
}

#[test]
fn del_nan_drops_every_value_that_is_not_normal() {
    let col = nums(&[f64::NAN, 2., 0., f64::NAN, f64::NAN, 3., f64::INFINITY, 5e-324, 4.]);
    let expected = vec![(1usize, n(2.)), (5, n(3.)), (8, n(4.))];
    for sep in [0usize, 1, 2, 100] {
        assert_eq!(col.clone().del_nan(sep), expected);
    }
}

#[test]
fn to_any_and_to_all_over_rows() {
    let rows = [
        nums(&[f64::NAN, 1., 0., f64::NAN]),
        nums(&[2., f64::NAN, 3., f64::NAN]),
        nums(&[4., 5., 6., 7.]),
    ];
    assert_eq!(
        nz_coll(&StatCollector::to_any(&rows), -1.),
        vec![2., 1., 3., 7.]
    );
    assert_eq!(
        nz_coll(&StatCollector::to_all(&rows), -1.),
        vec![-1., -1., -1., -1.]
    );
    let full = [nums(&[1., 2.]), nums(&[3., 4.])];
    assert_eq!(floats(&StatCollector::to_all(&full)), vec![1., 2.]);
}

#[test]
fn empty_table_gives_no_second_columns() {
    let mut c = StatCollector::new("x".to_string());
    c.push(TradeCell::new(n(5.), nums(&src_el()), nums(&src_el1())));
    let data = c.to_data(&nums(&[1.]));
    assert_eq!(data.0.len(), 2);
    assert!(data.0[1].is_empty());
    assert_eq!(data.0[0][0], ("time".to_string(), nums(&[0.])));
    let v = data.to_vec();
    assert_eq!(v[0].len(), 12);
    assert_eq!(v[0][7], nums(&[5.]));
    assert!(v[1].is_empty());
    let _ = StatData(vec![]);
}

#[test]
fn cell_clear_drops_inactive_records() {
    let mut cell = TradeCell::new(n(5.), nums(&src_el()), nums(&src_el1()));
    cell.market_orders = vec![("m".to_string(), order("buy", None, "market", 1))];
    cell.limit_orders = vec![
        ("a".to_string(), order("buy", Some(1.), "limit", 1)),
        (
            "b".to_string(),
            Order {
                is_active: false,
                ..order("buy", Some(1.), "limit", 1)
            },
        ),
    ];
    cell.positions = vec![("1".to_string(), position(false)), ("2".to_string(), position(true))];
    cell.clear();
    assert!(cell.market_orders.is_empty());
    assert_eq!(cell.limit_orders.len(), 1);
    assert_eq!(cell.limit_orders[0].0, "a");
    assert_eq!(cell.positions, vec![("2".to_string(), position(true))]);
}
