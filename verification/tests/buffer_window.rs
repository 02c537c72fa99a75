use bc_trade::buffer::{Buffer, ToBuff};
use bc_trade::num::Num;

fn n(x: f64) -> Num {
    Num(x.to_bits())
}

fn candle(base: f64) -> Vec<Num> {
    (0..9).map(|k| n(base + k as f64 * 0.01)).collect()
}

fn src() -> Vec<Vec<Num>> {
    vec![candle(1.0), candle(2.0), candle(3.0), candle(4.0), candle(5.0)]
}

fn src_el() -> Vec<Num> {
    candle(6.0)
}

/// Rolls the rows by `shift` places as numpy's `roll` does (a negative shift
/// moves rows towards the front).
fn roll(rows: &mut Vec<Vec<Num>>, shift: i32) {
    let len = rows.len() as i32;
    if len == 0 {
        return;
    }
    let k = shift.rem_euclid(len) as usize;
    rows.rotate_right(k);
}

#[test]
fn buffer_update_res_1() {
    let mut bf = Buffer::new(src());
    let mut res = Buffer::new(src());
    bf.update(src_el());
    roll(&mut res.0, -1);
    let l = res.0.len() - 1;
    res.0[l] = src_el();
    assert_eq!(bf, res);
}

#[test]
fn update_extend_res_1() {
    let mut bf = Buffer::new(src());
    let mut res = Buffer::new(src());
    bf.update_extend(&src());
    roll(&mut res.0, -(src().len() as i32));
    for _ in 0..src().len() {
        res.0.pop();
    }
    res.0.extend_from_slice(&src());
    assert_eq!(bf, res);
}

#[test]
fn update_extend_by_fewer_rows() {
    let mut bf = Buffer::new(src());
    bf.update_extend(&[candle(7.0), candle(8.0)]);
    assert_eq!(
        bf.0,
        vec![candle(3.0), candle(4.0), candle(5.0), candle(7.0), candle(8.0)]
    );
    let mut more = Buffer::new(vec![candle(1.0)]);
    more.update_extend(&[candle(7.0), candle(8.0)]);
    assert_eq!(more.0, vec![candle(7.0), candle(8.0)]);
}

#[test]
fn window_keeps_its_length() {
    let mut bf = src().to_buff();
    for k in 0..7 {
        bf.update(candle(10.0 + k as f64));
        assert_eq!(bf.len(), 5);
        assert_eq!(bf.last(), Some(&candle(10.0 + k as f64)));
    }
    assert_eq!(bf.first(), Some(&candle(12.0)));
    assert_eq!(bf.index(1), &candle(13.0));
    assert_eq!(bf.as_slice().len(), 5);
    assert_eq!(Buffer::new(vec![]).first(), None);
    assert_eq!(Buffer::new(vec![]).last(), None);
}

#[test]
fn transpose_twice_is_identity() {
    let mut bf = Buffer::new(src());
    bf.transpose_set();
    assert_eq!(bf.len(), 9);
    assert_eq!(bf.0[2][3], n(4.02));
    assert_eq!(bf.0[0], vec![n(1.0), n(2.0), n(3.0), n(4.0), n(5.0)]);
    let back = bf.transpose();
    assert_eq!(back, Buffer::new(src()));
    assert_eq!(Buffer::new(vec![]).transpose(), Buffer::new(vec![]));
}

#[test]
fn extend_appends_rows() {
    let mut bf = Buffer::new(vec![candle(1.0)]);
    bf.extend(vec![candle(2.0), candle(3.0)]);
    assert_eq!(bf.0, vec![candle(1.0), candle(2.0), candle(3.0)]);
}
