use turiplogic::logic::LL;

#[test]
fn and_table() {
    assert_eq!(LL::H & LL::H, LL::H);
    assert_eq!(LL::H & LL::L, LL::L);
    assert_eq!(LL::L & LL::L, LL::L);
    assert_eq!(LL::U & LL::H, LL::U);
    assert_eq!(LL::L & LL::U, LL::U);
}

#[test]
fn or_table() {
    assert_eq!(LL::H | LL::L, LL::H);
    assert_eq!(LL::L | LL::L, LL::L);
    assert_eq!(LL::H | LL::U, LL::U);
    assert_eq!(LL::U | LL::U, LL::U);
}

#[test]
fn xor_table() {
    assert_eq!(LL::H ^ LL::L, LL::H);
    assert_eq!(LL::H ^ LL::H, LL::L);
    assert_eq!(LL::L ^ LL::L, LL::L);
    assert_eq!(LL::U ^ LL::L, LL::U);
}

#[test]
fn not_and_neg() {
    assert_eq!(!LL::H, LL::L);
    assert_eq!(!LL::L, LL::H);
    assert_eq!(!LL::U, LL::U);
    assert_eq!(-LL::H, LL::L);
    assert_eq!(-LL::U, LL::U);
}

#[test]
fn bool_conversions() {
    assert_eq!(LL::from(true), LL::H);
    assert_eq!(LL::from(false), LL::L);
    assert!(LL::H.to_bool());
    assert!(!LL::L.to_bool());
}

#[test]
fn colors() {
    assert_eq!(LL::H.to_color(), 0xff3517F7);
    assert_eq!(LL::L.to_color(), 0xffD4EA41);
    assert_eq!(LL::U.to_color(), 0xffffffff);
}

#[test]
fn merge_levels() {
    let mut a = LL::U;
    assert!(a.merge(LL::H));
    assert_eq!(a, LL::H);
    let mut b = LL::H;
    assert!(b.merge(LL::U));
    assert_eq!(b, LL::H);
    let mut c = LL::H;
    assert!(!c.merge(LL::L));
    assert_eq!(c, LL::H);
}

#[test]
fn de_morgan_on_all_levels() {
    let all = [LL::H, LL::L, LL::U];
    for a in all {
        for b in all {
            assert_eq!(!(a & b), !a | !b);
            assert_eq!(!(a | b), !a & !b);
            assert_eq!(a & b, b & a);
            assert_eq!(a ^ b, b ^ a);
        }
    }
}
