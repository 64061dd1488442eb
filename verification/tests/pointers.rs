use panama::cell::Cell;
use panama::rc::Rc;

#[test]
fn cell_set_get() {
    let mut c = Cell::new(1);
    assert_eq!(c.get(), 1);
    c.set(9);
    assert_eq!(c.get(), 9);
}

#[test]
fn rc_shares_value() {
    let a = Rc::new(41);
    let b = a.clone();
    assert_eq!(*a.get(), 41);
    assert_eq!(*b.get(), 41);
    drop(a);
    assert_eq!(*b.get(), 41);
}
