use chess_engine::eval::Eval;
use std::cmp::{max, min};

fn ev(score: f32, mate_in: i8) -> Eval {
    Eval::new((score * 100.0).round() as i32, mate_in)
}

#[test]
fn eval_test_eval_basic_cmp_01() {
    let a = ev(0.0, 0);
    let b = ev(0.0, 1);
    assert_eq!(a < b, true);
}

#[test]
fn eval_test_eval_basic_cmp_02() {
    let a = ev(0.0, 0);
    let c = ev(0.0, -1);
    assert_eq!(a > c, true);
}

#[test]
fn eval_test_eval_basic_cmp_03() {
    let a = ev(0.0, 0);
    let d = ev(0.0, -2);
    assert_eq!(a > d, true);
}

#[test]
fn eval_test_eval_basic_cmp_04() {
    let b = ev(0.0, 1);
    let d = ev(0.0, -2);
    assert_eq!(b > d, true);
}

#[test]
fn eval_test_eval_basic_cmp_05() {
    let c = ev(0.0, -1);
    let d = ev(0.0, -2);
    assert_eq!(c < d, true);
}

#[test]
fn eval_test_eval_basic_cmp_06() {
    let a = ev(0.0, 0);
    assert_eq!(a == a, true);
}

#[test]
fn eval_test_eval_basic_cmp_07() {
    let a = ev(0.0, 0);
    let e = ev(1.0, 0);
    assert_eq!(a < e, true);
}

#[test]
fn eval_test_eval_basic_cmp_08() {
    let a = ev(0.0, 0);
    let f = ev(-1., 0);
    assert_eq!(a > f, true);
}

#[test]
fn eval_test_eval_basic_cmp_09() {
    let a = ev(0.0, 0);
    let g = ev(1.0, -1);
    assert_eq!(a > g, true);
}

#[test]
fn eval_test_eval_basic_cmp_10() {
    let g = ev(1.0, -1);
    assert_eq!(g == g, true);
}

#[test]
fn eval_test_eval_basic_cmp_11() {
    let c = ev(0.0, -1);
    let g = ev(1.0, -1);
    assert_eq!(g > c, true);
}

#[test]
fn eval_test_eval_std_cmp_01() {
    let a = ev(1.0, 1);
    let b = ev(0.0, 0);
    assert_eq!(min(a, b) == b, true);
}

#[test]
fn eval_test_eval_std_cmp_02() {
    let a = ev(1.0, 1);
    let b = ev(0.0, 0);
    assert_eq!(min(b, a) == b, true);
}

#[test]
fn eval_test_eval_std_cmp_03() {
    let a = ev(1.0, 1);
    let b = ev(0.0, 0);
    assert_eq!(max(a, b) == a, true);
}

#[test]
fn eval_test_eval_std_cmp_04() {
    let c = ev(0.0, 1);
    let d = ev(0.0, -1);
    assert_eq!(max(c, d) == c, true);
}

#[test]
fn eval_test_eval_std_cmp_05() {
    let c = ev(0.0, 1);
    let e = ev(0.0, 2);
    assert_eq!(max(c, e) == c, true);
}

#[test]
fn test_eval_std_cmp_07() {
    let f = ev(10.0, 2);
    let g = ev(9.0, 1);
    assert_eq!(max(f, g) == g, true);
}

#[test]
fn test_eval_std_cmp_08() {
    let f = ev(17.0, 2);
    let g = ev(9.0, 1);
    assert_eq!(min(f, g) == f, true);
}

#[test]
fn test_eval_std_cmp_09() {
    let f = ev(10.0, -2);
    let g = ev(9.0, -1);
    assert_eq!(max(f, g) == f, true);
}

#[test]
fn test_eval_std_cmp_10() {
    let f = ev(-17.0, -2);
    let g = ev(-9.0, -1);
    assert_eq!(min(f, g) == g, true);
}

#[test]
fn test_eval_advanced_01() {
    let a = ev(15., 0);
    let b = ev(-15., 0);
    let c = ev(0., 16);
    let d = ev(0., -16);
    assert_eq!(a > b, true);
    assert_eq!(a < c, true);
    assert_eq!(a > d, true);
    assert_eq!(b < c, true);
    assert_eq!(b > d, true);
    assert_eq!(c > d, true);
}

#[test]
fn test_eval_advanced_02() {
    let a = ev(15., 0);
    let b = ev(-15., 0);
    let c = ev(0., 16);
    let d = ev(0., -16);
    assert_eq!(a == a, true);
    assert_eq!(b == b, true);
    assert_eq!(c == c, true);
    assert_eq!(d == d, true);
}

#[test]
fn test_eval_advanced_03() {
    let a = ev(10., 0);
    let b = ev(9.0, 1);
    assert_eq!(max(a, b) == b, true);
    assert_eq!(min(a, b) == b, false);
    assert_eq!(a > b, false);
    assert_eq!(a < b, true);
    assert_eq!(a >= b, false);
    assert_eq!(a <= b, true);
}

#[test]
fn mod_test_eval_basic_cmp_01() {
    assert_eq!(ev(0.0, 0) < ev(0.0, 1), true);
}

#[test]
fn mod_test_eval_basic_cmp_02() {
    assert_eq!(ev(0.0, 0) > ev(0.0, -1), true);
}

#[test]
fn mod_test_eval_basic_cmp_03() {
    assert_eq!(ev(0.0, 0) > ev(0.0, -2), true);
}

#[test]
fn mod_test_eval_basic_cmp_04() {
    assert_eq!(ev(0.0, 1) > ev(0.0, -2), true);
}

#[test]
fn mod_test_eval_basic_cmp_05() {
    assert_eq!(ev(0.0, -1) < ev(0.0, -2), true);
}

#[test]
fn mod_test_eval_basic_cmp_06() {
    let a = ev(0.0, 0);
    assert_eq!(a == a, true);
}

#[test]
fn mod_test_eval_basic_cmp_07() {
    assert_eq!(ev(0.0, 0) < ev(1.0, 0), true);
}

#[test]
fn mod_test_eval_basic_cmp_08() {
    assert_eq!(ev(0.0, 0) > ev(-1., 0), true);
}

#[test]
fn mod_test_eval_basic_cmp_09() {
    assert_eq!(ev(0.0, 0) > ev(1.0, -1), true);
}

#[test]
fn mod_test_eval_basic_cmp_10() {
    let g = ev(1.0, -1);
    assert_eq!(g == g, true);
}

#[test]
fn mod_test_eval_basic_cmp_11() {
    assert_eq!(ev(1.0, -1) > ev(0.0, -1), true);
}

#[test]
fn mod_test_eval_std_cmp_01() {
    let a = ev(1.0, 1);
    let b = ev(0.0, 0);
    assert_eq!(min(a, b) == b, true);
}

#[test]
fn mod_test_eval_std_cmp_02() {
    let a = ev(1.0, 1);
    let b = ev(0.0, 0);
    assert_eq!(min(b, a) == b, true);
}

#[test]
fn mod_test_eval_std_cmp_03() {
    let a = ev(1.0, 1);
    let b = ev(0.0, 0);
    assert_eq!(max(a, b) == a, true);
}

#[test]
fn mod_test_eval_std_cmp_04() {
    let c = ev(0.0, 1);
    let d = ev(0.0, -1);
    assert_eq!(max(c, d) == c, true);
}

#[test]
fn mod_test_eval_std_cmp_05() {
    let c = ev(0.0, 1);
    let e = ev(0.0, 2);
    assert_eq!(max(c, e) == c, true);
}

#[test]
fn eval_accessors_round_trip() {
    let e = Eval::new(-450, -3);
    assert_eq!(e.score(), -450);
    assert_eq!(e.mate_in(), -3);
    assert_eq!(Eval::new(7, 127).mate_in(), 127);
    assert_eq!(Eval::new(7, -128).mate_in(), -128);
}

#[test]
fn eval_extremes() {
    assert!(Eval::lowest() < Eval::new(-104857600, -127));
    assert!(Eval::highest() > Eval::new(104857600, 127));
    assert!(Eval::low() < Eval::equal() && Eval::equal() < Eval::high());
}
