use katmos::amount::Amount;
use katmos::info::MonstermosInfo;
use katmos::quanta::Quanta;

fn quanta(n: i64) -> Quanta {
    Quanta { n }
}

#[test]
fn an_adjustment_is_booked_on_both_sides() {
    let mut a: MonstermosInfo<Quanta> = MonstermosInfo::default();
    let mut b: MonstermosInfo<Quanta> = MonstermosInfo::default();
    a.adjust_eq_movement(Some(&mut b), 2, quanta(15));
    a.adjust_eq_movement(Some(&mut b), 2, quanta(-3));
    assert_eq!(a.transfer_dirs[2], quanta(12));
    assert_eq!(b.transfer_dirs[3], quanta(-12));
}

#[test]
fn an_adjustment_towards_the_planet_has_one_side() {
    let mut a: MonstermosInfo<Quanta> = MonstermosInfo::default();
    let mut b: MonstermosInfo<Quanta> = MonstermosInfo::default();
    a.adjust_eq_movement(Some(&mut b), 6, quanta(15));
    a.adjust_eq_movement(None, 6, quanta(1));
    assert_eq!(a.transfer_dirs[6], quanta(16));
    assert_eq!(b.transfer_dirs, [quanta(0); 7]);
}

#[test]
fn sums_of_quanta_wrap_around() {
    assert_eq!(quanta(i64::MAX).plus(quanta(1)), quanta(i64::MIN));
    assert_eq!(quanta(i64::MIN).minus(quanta(1)), quanta(i64::MAX));
    assert_eq!(quanta(i64::MIN).negate(), quanta(i64::MIN));
    assert_eq!(quanta(7).minus(quanta(9)), quanta(-2));
}

#[test]
fn quanta_are_exact_over_the_edge() {
    let (a, b, c) = (quanta(i64::MAX), quanta(i64::MAX), quanta(-5));
    assert_eq!(a.plus(b).plus(c), a.plus(b.plus(c)));
    assert_eq!(a.plus(b).minus(b), a);
    assert_eq!(a.plus(a.negate()), quanta(0));
}

#[test]
fn quanta_divide_towards_zero() {
    assert_eq!(quanta(9).share(2), quanta(4));
    assert_eq!(quanta(-9).share(2), quanta(-4));
    assert_eq!(Quanta::mean(quanta(-9), 4), quanta(-2));
    assert_eq!(Quanta::mean(quanta(9), 0), quanta(0));
}

#[test]
fn logarithms_are_rounded_down() {
    assert_eq!(Quanta::log2_floor(0), 0);
    assert_eq!(Quanta::log2_floor(1), 0);
    assert_eq!(Quanta::log2_floor(7), 2);
    assert_eq!(Quanta::log2_floor(8), 3);
}

#[test]
fn quanta_are_compared() {
    assert!(quanta(-1).lt(quanta(0)) && !quanta(0).lt(quanta(0)));
    assert!(quanta(0).le(quanta(0)) && !quanta(1).le(quanta(0)));
    assert!(quanta(3).same(quanta(3)) && !quanta(3).same(quanta(-3)));
    assert_eq!(quanta(-4).magnitude(), quanta(4));
    assert_eq!(Quanta::from_count(10), quanta(10));
}

#[test]
fn booking_back_is_the_same() {
    let mut a: MonstermosInfo<Quanta> = MonstermosInfo::default();
    let mut b: MonstermosInfo<Quanta> = MonstermosInfo::default();
    let (mut c, mut d) = (a, b);
    a.adjust_eq_movement(Some(&mut b), 4, quanta(7));
    d.adjust_eq_movement(Some(&mut c), 5, quanta(-7));
    assert_eq!(a.transfer_dirs, c.transfer_dirs);
    assert_eq!(b.transfer_dirs, d.transfer_dirs);
}
