use sodg::{Sodg, StoreError};

#[test]
fn makes_a_clone() {
    let mut g = Sodg::empty();
    g.add(1).unwrap();
    g.add(42).unwrap();
    g.bind(1, 42, "α0").unwrap();
    let c = g.clone();
    assert_eq!(2, c.len());
}

#[test]
fn makes_an_empty_clone() {
    let g = Sodg::empty();
    let c = g.clone();
    assert_eq!(0, c.len());
}

#[test]
fn clone_holds_the_same_edges_and_payloads() {
    let mut g = Sodg::empty();
    g.add(1).unwrap();
    g.add(42).unwrap();
    g.bind(1, 42, "foo").unwrap();
    g.put(42, vec![1, 2, 3]).unwrap();
    let c = g.clone();
    assert_eq!(Some(42), c.kid(1, "foo"));
    assert_eq!(vec![("foo".to_string(), 42)], c.kids(1).unwrap());
    assert_eq!(Some(vec![1, 2, 3]), c.data(42).unwrap());
    assert_eq!(None, c.data(1).unwrap());
    assert_eq!(g.next_id(), c.next_id());
    assert_eq!(Ok(43), c.next_id());
}

#[test]
fn clone_is_independent() {
    let mut g = Sodg::empty();
    g.add(1).unwrap();
    let mut c = g.clone();
    c.add(2).unwrap();
    c.bind(1, 2, "x").unwrap();
    c.put(1, vec![7]).unwrap();
    assert_eq!(1, g.len());
    assert_eq!(2, c.len());
    assert_eq!(None, g.kid(1, "x"));
    assert_eq!(Ok(false), g.is_full(1));
    g.add(5).unwrap();
    g.add(6).unwrap();
    assert_eq!(3, g.len());
    assert_eq!(2, c.len());
    assert_eq!(Err(StoreError::Absent(5)), c.is_full(5));
}
