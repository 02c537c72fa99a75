use bc_trade::num::Num;
use bc_trade::utils::{price_is_crossed, price_is_crossed_direction, price_type, price_type_index};

fn n(x: f64) -> Num {
    Num(x.to_bits())
}

fn nums(xs: &[f64]) -> Vec<Num> {
    xs.iter().map(|x| n(*x)).collect()
}

#[test]
fn price_type_res_1() {
    assert_eq!(
        price_type(
            &nums(&[1., 1.9, 1.92, 1.89, 1.91, 11111., 111111., 1.910001, 1.910002]),
            "last"
        ),
        n(1.91)
    )
}

#[test]
fn price_is_crossed_res_1() {
    assert_eq!(
        price_is_crossed(n(1.9), &nums(&[1.91; 5]), &nums(&[1.89; 5]), "last"),
        true
    )
}

#[test]
fn price_is_crossed_direction_res_1() {
    assert_eq!(
        price_is_crossed_direction(n(1.9), 1, &nums(&[1.91; 5]), &nums(&[1.89; 5]), "last"),
        true
    )
}

#[test]
fn price_is_crossed_direction_res_2() {
    assert_eq!(
        price_is_crossed_direction(n(1.9), 2, &nums(&[1.91; 5]), &nums(&[1.89; 5]), "last"),
        false
    )
}

#[test]
fn price_is_crossed_direction_res_3() {
    assert_eq!(
        price_is_crossed_direction(n(1.9), 2, &nums(&[1.89; 5]), &nums(&[1.91; 5]), "last"),
        true
    )
}

#[test]
fn price_type_columns() {
    assert_eq!(price_type_index("index"), 7);
    assert_eq!(price_type_index("mark"), 8);
    assert_eq!(price_type_index("last"), 4);
    assert_eq!(price_type_index(""), 4);
    let candle = nums(&[0., 1., 2., 3., 4., 5., 6., 7., 8.]);
    assert_eq!(price_type(&candle, "index"), n(7.));
    assert_eq!(price_type(&candle, "mark"), n(8.));
    assert_eq!(price_type(&candle, "close"), n(4.));
}

#[test]
fn crossing_reads_the_chosen_price() {
    // close 1.0 -> 2.0, mark 5.0 -> 6.0
    let src = nums(&[0., 0., 0., 0., 2., 0., 0., 0., 6.]);
    let src_l = nums(&[0., 0., 0., 0., 1., 0., 0., 0., 5.]);
    assert!(price_is_crossed(n(1.5), &src, &src_l, "last"));
    assert!(!price_is_crossed(n(1.5), &src, &src_l, "mark"));
    assert!(price_is_crossed(n(5.5), &src, &src_l, "mark"));
    // the bounds count as crossed
    assert!(price_is_crossed(n(2.0), &src, &src_l, "last"));
    assert!(price_is_crossed(n(1.0), &src, &src_l, "last"));
}

#[test]
fn nan_is_never_crossed() {
    let src = nums(&[2.; 5]);
    let src_l = nums(&[1.; 5]);
    assert!(!price_is_crossed(n(f64::NAN), &src, &src_l, "last"));
    assert!(!price_is_crossed(n(1.5), &nums(&[f64::NAN; 5]), &src_l, "last"));
    assert!(!price_is_crossed_direction(n(f64::NAN), 2, &src_l, &src, "last"));
}

#[test]
fn any_direction_but_up_is_down() {
    let hi = nums(&[2.; 5]);
    let lo = nums(&[1.; 5]);
    for d in [0usize, 2, 3, 17] {
        assert_eq!(
            price_is_crossed_direction(n(1.5), d, &lo, &hi, "last"),
            price_is_crossed_direction(n(1.5), 1, &hi, &lo, "last")
        );
        assert!(price_is_crossed_direction(n(1.5), d, &lo, &hi, "last"));
        assert!(!price_is_crossed_direction(n(1.5), d, &hi, &lo, "last"));
    }
}

#[test]
fn zeros_and_negatives_are_ordered() {
    let zero = nums(&[0.; 5]);
    let neg_zero = nums(&[-0.0; 5]);
    assert!(price_is_crossed(n(-0.0), &zero, &zero, "last"));
    assert!(price_is_crossed(n(0.0), &neg_zero, &neg_zero, "last"));
    let src = nums(&[-1.; 5]);
    let src_l = nums(&[-3.; 5]);
    assert!(price_is_crossed(n(-2.), &src, &src_l, "last"));
    assert!(!price_is_crossed(n(-4.), &src, &src_l, "last"));
    assert!(!price_is_crossed(n(0.5), &src, &src_l, "last"));
    assert!(price_is_crossed(n(f64::INFINITY), &nums(&[f64::INFINITY; 5]), &src_l, "last"));
}
