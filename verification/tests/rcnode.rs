use std::cell::Cell;
use std::rc::Rc;
use wsm_toys::rcnode::{Node, Nodes};

#[test]
fn test_rc_loop() {
    struct Link {
        next: Cell<Option<Rc<Link>>>,
    }
    let x = Rc::new(Link { next: Cell::new(None) });
    let y = Rc::new(Link { next: Cell::new(Some(x.clone())) });
    x.next.set(Some(y.clone()));
}

#[test]
fn clone() {
    let mut arena = Nodes::new();
    let x = Node::new(&mut arena, 1);
    let y = x.clone(&mut arena);
    *x.value_mut(&mut arena) += 1;
    assert_eq!(2, *y.value(&arena));
    assert_eq!(2, x.ref_count(&arena));
    y.release(&mut arena);
    assert_eq!(1, x.ref_count(&arena));
}

#[test]
fn cycling() {
    let mut arena = Nodes::new();
    let mut x = Node::new(&mut arena, 1);
    let y = Node::with_next(&mut arena, 2, &x);
    x.point(&mut arena, &y);
    assert_eq!(2, x.ref_count(&arena));
    assert_eq!(2, y.ref_count(&arena));
    y.release(&mut arena);
    assert_eq!(1, x.ref_count(&arena));
}

#[test]
fn next() {
    let mut arena = Nodes::new();
    let mut x = Node::new(&mut arena, 1);
    let y = Node::with_next(&mut arena, 2, &x);
    x.point(&mut arena, &y);
    let ynext = y.next(&mut arena).unwrap();
    assert_eq!(3, x.ref_count(&arena));
    assert_eq!(3, y.ref_count(&arena));
    ynext.release(&mut arena);
    assert_eq!(2, x.ref_count(&arena));
    assert_eq!(2, y.ref_count(&arena));
    y.release(&mut arena);
    assert_eq!(1, x.ref_count(&arena));
}

#[test]
fn rcnode_point_null_drops_the_pointer() {
    let mut arena = Nodes::new();
    let x = Node::new(&mut arena, "a");
    let mut y = Node::with_next(&mut arena, "b", &x);
    assert_eq!(2, x.ref_count(&arena));
    y.point_null(&mut arena);
    assert_eq!(1, x.ref_count(&arena));
    assert!(y.next(&mut arena).is_none());
    assert_eq!("b", *y.value(&arena));
}
