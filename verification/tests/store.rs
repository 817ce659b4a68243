use sodg::{Sodg, StoreError};

#[test]
fn starts_empty() {
    let g = Sodg::empty();
    assert_eq!(0, g.len());
    assert!(g.is_empty());
    assert!(!g.contains(0));
    assert_eq!(Ok(0), g.next_id());
}

#[test]
fn adds_vertices() {
    let mut g = Sodg::empty();
    assert_eq!(Ok(()), g.add(7));
    assert_eq!(Err(StoreError::Present(7)), g.add(7));
    assert_eq!(Ok(()), g.add(3));
    assert_eq!(2, g.len());
    assert!(!g.is_empty());
    assert!(g.contains(3) && g.contains(7) && !g.contains(8));
    assert_eq!(Ok(8), g.next_id());
    assert_eq!(Ok(false), g.is_full(7));
    assert_eq!(Ok(None), g.data(7));
    assert_eq!(Ok(vec![]), g.kids(7));
}

#[test]
fn runs_out_of_identifiers() {
    let mut g = Sodg::empty();
    g.add(u32::MAX - 1).unwrap();
    assert_eq!(Ok(u32::MAX), g.next_id());
    g.add(u32::MAX).unwrap();
    assert_eq!(Err(StoreError::Exhausted), g.next_id());
    g.add(0).unwrap();
    assert_eq!(Err(StoreError::Exhausted), g.next_id());
    assert_eq!(3, g.len());
}

#[test]
fn binds_edges() {
    let mut g = Sodg::empty();
    g.add(1).unwrap();
    g.add(2).unwrap();
    assert_eq!(Err(StoreError::Absent(5)), g.bind(5, 2, "a"));
    assert_eq!(Err(StoreError::Absent(6)), g.bind(1, 6, "a"));
    assert_eq!(Err(StoreError::Absent(5)), g.bind(5, 6, "a"));
    assert_eq!(Ok(()), g.bind(1, 2, "a"));
    assert_eq!(Err(StoreError::Taken(1)), g.bind(1, 1, "a"));
    assert_eq!(Ok(()), g.bind(1, 1, "b"));
    assert_eq!(Ok(()), g.bind(1, 2, ""));
    assert_eq!(Ok(()), g.bind(2, 1, "a"));
    assert_eq!(Some(2), g.kid(1, "a"));
    assert_eq!(Some(1), g.kid(1, "b"));
    assert_eq!(Some(2), g.kid(1, ""));
    assert_eq!(None, g.kid(1, "c"));
    assert_eq!(None, g.kid(1, "A"));
    assert_eq!(None, g.kid(9, "a"));
    assert_eq!(
        Ok(vec![("a".to_string(), 2), ("b".to_string(), 1), ("".to_string(), 2)]),
        g.kids(1)
    );
    assert_eq!(Err(StoreError::Absent(9)), g.kids(9));
    assert_eq!(2, g.len());
}

#[test]
fn keeps_payloads() {
    let mut g = Sodg::empty();
    g.add(1).unwrap();
    assert_eq!(Err(StoreError::Absent(2)), g.put(2, vec![1]));
    assert_eq!(Err(StoreError::Absent(2)), g.data(2));
    assert_eq!(Err(StoreError::Absent(2)), g.is_full(2));
    assert_eq!(Ok(()), g.put(1, vec![1, 2]));
    assert_eq!(Ok(true), g.is_full(1));
    assert_eq!(Ok(Some(vec![1, 2])), g.data(1));
    g.add(2).unwrap();
    g.bind(1, 2, "a").unwrap();
    assert_eq!(Ok(Some(vec![1, 2])), g.data(1));
    assert_eq!(Ok(()), g.put(1, vec![3]));
    assert_eq!(Ok(Some(vec![3])), g.data(1));
    assert_eq!(Ok(()), g.put(1, vec![]));
    assert_eq!(Ok(true), g.is_full(1));
    assert_eq!(Ok(Some(vec![])), g.data(1));
    assert_eq!(Some(2), g.kid(1, "a"));
}
