use sodg::{MergeError, Script, Sodg, StoreError};

#[test]
fn merges_two_graphs() {
    let mut g = Sodg::empty();
    g.add(0).unwrap();
    g.add(1).unwrap();
    g.bind(0, 1, "foo").unwrap();
    let mut extra = Sodg::empty();
    extra.add(0).unwrap();
    extra.add(1).unwrap();
    extra.bind(0, 1, "bar").unwrap();
    g.merge(&extra, 0, 0).unwrap();
    assert_eq!(3, g.len());
}

#[test]
fn avoids_simple_duplicates() {
    let mut g = Sodg::empty();
    g.add(0).unwrap();
    g.add(1).unwrap();
    g.bind(0, 1, "foo").unwrap();
    let mut extra = Sodg::empty();
    extra.add(0).unwrap();
    extra.add(1).unwrap();
    extra.bind(0, 1, "foo").unwrap();
    extra.add(2).unwrap();
    extra.bind(1, 2, "bar").unwrap();
    g.merge(&extra, 0, 0).unwrap();
    assert_eq!(3, g.len());
    assert_eq!(1, g.kid(0, "foo").unwrap());
}

#[test]
fn merges_singletons() {
    let mut g = Sodg::empty();
    g.add(13).unwrap();
    let mut extra = Sodg::empty();
    extra.add(13).unwrap();
    g.merge(&extra, 13, 13).unwrap();
    assert_eq!(1, g.len());
}

#[test]
fn merges_simple_loop() {
    let mut g = Sodg::empty();
    g.add(1).unwrap();
    g.add(2).unwrap();
    g.bind(1, 2, "foo").unwrap();
    g.bind(2, 1, "bar").unwrap();
    let extra = g.clone();
    g.merge(&extra, 1, 1).unwrap();
    assert_eq!(extra.len(), g.len());
}

#[test]
fn merges_large_loop() {
    let mut g = Sodg::empty();
    g.add(1).unwrap();
    g.add(2).unwrap();
    g.add(3).unwrap();
    g.add(4).unwrap();
    g.bind(1, 2, "a").unwrap();
    g.bind(2, 3, "b").unwrap();
    g.bind(3, 4, "c").unwrap();
    g.bind(4, 1, "d").unwrap();
    let extra = g.clone();
    g.merge(&extra, 1, 1).unwrap();
    assert_eq!(extra.len(), g.len());
}

#[test]
fn merges_data() {
    let mut g = Sodg::empty();
    g.add(1).unwrap();
    let mut extra = Sodg::empty();
    extra.add(1).unwrap();
    extra.put(1, 42i64.to_be_bytes().to_vec()).unwrap();
    g.merge(&extra, 1, 1).unwrap();
    let bytes: [u8; 8] = g.data(1).unwrap().unwrap().try_into().unwrap();
    assert_eq!(42, i64::from_be_bytes(bytes));
}

#[test]
fn understands_same_name_kids() {
    let mut g = Sodg::empty();
    g.add(0).unwrap();
    g.add(1).unwrap();
    g.bind(0, 1, "a").unwrap();
    g.add(2).unwrap();
    g.bind(1, 2, "x").unwrap();
    let mut extra = Sodg::empty();
    extra.add(0).unwrap();
    extra.add(1).unwrap();
    extra.bind(0, 1, "b").unwrap();
    extra.add(2).unwrap();
    extra.bind(1, 2, "x").unwrap();
    g.merge(&extra, 0, 0).unwrap();
    assert_eq!(5, g.len());
    assert_eq!(1, g.kid(0, "a").unwrap());
    assert_eq!(2, g.kid(1, "x").unwrap());
}

#[test]
fn merges_into_empty_graph() {
    let mut g = Sodg::empty();
    g.add(1).unwrap();
    let mut extra = Sodg::empty();
    extra.add(1).unwrap();
    extra.add(2).unwrap();
    extra.add(3).unwrap();
    extra.bind(1, 2, "a").unwrap();
    extra.bind(2, 3, "b").unwrap();
    extra.bind(3, 1, "c").unwrap();
    g.merge(&extra, 1, 1).unwrap();
    assert_eq!(3, g.len());
    assert_eq!(2, g.kid(1, "a").unwrap());
}

#[test]
fn mixed_injection() {
    let mut g = Sodg::empty();
    g.add(4).unwrap();
    let mut extra = Sodg::empty();
    extra.add(4).unwrap();
    extra.put(4, 4i64.to_be_bytes().to_vec()).unwrap();
    extra.add(5).unwrap();
    extra.put(5, 5i64.to_be_bytes().to_vec()).unwrap();
    extra.bind(4, 5, "b").unwrap();
    g.merge(&extra, 4, 4).unwrap();
    assert_eq!(2, g.len());
}

#[test]
fn zero_to_zero() {
    let mut g = Sodg::empty();
    g.add(0).unwrap();
    g.add(1).unwrap();
    g.bind(0, 1, "a").unwrap();
    g.bind(1, 0, "back").unwrap();
    g.add(2).unwrap();
    g.bind(0, 2, "b").unwrap();
    let mut extra = Sodg::empty();
    extra.add(0).unwrap();
    extra.add(1).unwrap();
    extra.bind(0, 1, "c").unwrap();
    extra.bind(1, 0, "back").unwrap();
    g.merge(&extra, 0, 0).unwrap();
    assert_eq!(4, g.len());
}

#[test]
fn finds_siblings() {
    let mut g = Sodg::empty();
    g.add(0).unwrap();
    g.add(1).unwrap();
    g.bind(0, 1, "a").unwrap();
    g.add(2).unwrap();
    g.bind(0, 2, "b").unwrap();
    let mut extra = Sodg::empty();
    extra.add(0).unwrap();
    extra.add(1).unwrap();
    extra.bind(0, 1, "b").unwrap();
    g.merge(&extra, 0, 0).unwrap();
    assert_eq!(3, g.len());
}

#[test]
fn two_big_graphs() {
    let mut g = Sodg::empty();
    Script::from_str(
        "ADD(0); ADD(1); BIND(0, 1, foo);
        ADD(2); BIND(0, 1, alpha);
        BIND(1, 0, back);",
    )
    .deploy_to(&mut g)
    .unwrap();
    let mut extra = Sodg::empty();
    Script::from_str("ADD(0); ADD(1); BIND(0, 1, bar); BIND(1, 0, back);")
        .deploy_to(&mut extra)
        .unwrap();
    g.merge(&extra, 0, 0).unwrap();
    assert_eq!(4, g.len());
}

#[test]
fn merging_a_tree_into_itself_changes_nothing() {
    let mut g = Sodg::empty();
    Script::from_str(
        "ADD(0); ADD(1); ADD(2); ADD(3); ADD(4);
        BIND(0, 1, a); BIND(0, 2, b); BIND(1, 3, c); BIND(1, 4, d);
        PUT(3, ca-fe);",
    )
    .deploy_to(&mut g)
    .unwrap();
    let extra = g.clone();
    assert_eq!(Ok(()), g.merge(&extra, 0, 0));
    assert_eq!(5, g.len());
    for v in 0..5 {
        assert_eq!(extra.kids(v).unwrap(), g.kids(v).unwrap());
        assert_eq!(extra.data(v).unwrap(), g.data(v).unwrap());
    }
}

#[test]
fn divergent_labels_copy_the_vertex() {
    let mut g = Sodg::empty();
    g.add(0).unwrap();
    g.add(1).unwrap();
    g.bind(0, 1, "foo").unwrap();
    let mut extra = Sodg::empty();
    extra.add(0).unwrap();
    extra.add(1).unwrap();
    extra.bind(0, 1, "bar").unwrap();
    g.merge(&extra, 0, 0).unwrap();
    assert_eq!(Some(1), g.kid(0, "foo"));
    assert_eq!(Some(2), g.kid(0, "bar"));
    assert_eq!(
        vec![("foo".to_string(), 1), ("bar".to_string(), 2)],
        g.kids(0).unwrap()
    );
}

#[test]
fn reports_what_the_root_does_not_reach() {
    let mut g = Sodg::empty();
    g.add(0).unwrap();
    let mut extra = Sodg::empty();
    extra.add(0).unwrap();
    extra.add(1).unwrap();
    extra.bind(0, 1, "a").unwrap();
    extra.add(7).unwrap();
    assert_eq!(
        Err(MergeError::Coverage { merged: 2, scope: 3 }),
        g.merge(&extra, 0, 0)
    );
    assert_eq!(2, g.len());
    assert_eq!(Some(1), g.kid(0, "a"));
}

#[test]
fn reports_a_root_in_the_middle() {
    let mut g = Sodg::empty();
    g.add(0).unwrap();
    let mut extra = Sodg::empty();
    extra.add(0).unwrap();
    extra.add(1).unwrap();
    extra.add(2).unwrap();
    extra.bind(0, 1, "a").unwrap();
    extra.bind(1, 2, "b").unwrap();
    assert_eq!(
        Err(MergeError::Coverage { merged: 1, scope: 3 }),
        g.merge(&extra, 0, 2)
    );
    assert_eq!(1, g.len());
}

#[test]
fn source_payload_wins() {
    let mut g = Sodg::empty();
    g.add(1).unwrap();
    g.put(1, vec![1, 1]).unwrap();
    g.add(2).unwrap();
    g.put(2, vec![2, 2]).unwrap();
    g.bind(1, 2, "a").unwrap();
    let mut extra = Sodg::empty();
    extra.add(1).unwrap();
    extra.put(1, vec![9]).unwrap();
    extra.add(2).unwrap();
    extra.bind(1, 2, "a").unwrap();
    g.merge(&extra, 1, 1).unwrap();
    assert_eq!(Some(vec![9]), g.data(1).unwrap());
    assert_eq!(Some(vec![2, 2]), g.data(2).unwrap());
}

#[test]
fn fails_without_the_source_root() {
    let mut g = Sodg::empty();
    g.add(0).unwrap();
    let mut extra = Sodg::empty();
    extra.add(0).unwrap();
    assert_eq!(
        Err(MergeError::Store(StoreError::Absent(5))),
        g.merge(&extra, 0, 5)
    );
    assert_eq!(1, g.len());
}

#[test]
fn fails_without_the_destination_root() {
    let mut g = Sodg::empty();
    g.add(0).unwrap();
    let mut extra = Sodg::empty();
    extra.add(0).unwrap();
    extra.add(1).unwrap();
    extra.bind(0, 1, "a").unwrap();
    assert_eq!(
        Err(MergeError::Store(StoreError::Absent(9))),
        g.merge(&extra, 9, 0)
    );
    assert_eq!(2, g.len());
    assert!(g.contains(1));
    assert_eq!(None, g.kid(9, "a"));
}

#[test]
fn fails_when_identifiers_run_out() {
    let mut g = Sodg::empty();
    g.add(0).unwrap();
    g.add(u32::MAX).unwrap();
    let mut extra = Sodg::empty();
    extra.add(0).unwrap();
    extra.add(1).unwrap();
    extra.bind(0, 1, "a").unwrap();
    assert_eq!(
        Err(MergeError::Store(StoreError::Exhausted)),
        g.merge(&extra, 0, 0)
    );
    assert_eq!(2, g.len());
}

#[test]
fn binds_a_visited_vertex_under_a_new_label() {
    let mut g = Sodg::empty();
    g.add(1).unwrap();
    g.add(2).unwrap();
    g.bind(1, 2, "foo").unwrap();
    g.bind(2, 1, "bar").unwrap();
    let extra = g.clone();
    g.merge(&extra, 1, 1).unwrap();
    assert_eq!(
        vec![("bar".to_string(), 1), ("bar/".to_string(), 1)],
        g.kids(2).unwrap()
    );
    g.merge(&extra, 1, 1).unwrap();
    assert_eq!(
        vec![
            ("bar".to_string(), 1),
            ("bar/".to_string(), 1),
            ("bar//".to_string(), 1)
        ],
        g.kids(2).unwrap()
    );
    assert_eq!(2, g.len());
}

#[test]
fn makes_a_label_that_is_free() {
    let mut g = Sodg::empty();
    g.add(0).unwrap();
    g.add(1).unwrap();
    assert_eq!("a/", g.fresh_label(0, "a"));
    g.bind(0, 1, "a/").unwrap();
    g.bind(0, 1, "a///").unwrap();
    assert_eq!("a//", g.fresh_label(0, "a"));
    g.bind(0, 1, "a//").unwrap();
    assert_eq!("a////", g.fresh_label(0, "a"));
    assert_eq!("a/", g.fresh_label(1, "a"));
    assert_eq!("a/", g.fresh_label(8, "a"));
}

#[test]
fn merges_a_diamond() {
    let mut g = Sodg::empty();
    g.add(0).unwrap();
    let mut extra = Sodg::empty();
    Script::from_str(
        "ADD(0); ADD(1); ADD(2); ADD(3);
        BIND(0, 1, l); BIND(0, 2, r); BIND(1, 3, x); BIND(2, 3, y);",
    )
    .deploy_to(&mut extra)
    .unwrap();
    assert_eq!(Ok(()), g.merge(&extra, 0, 0));
    assert_eq!(4, g.len());
    let bottom = g.kid(g.kid(0, "l").unwrap(), "x").unwrap();
    assert_eq!(
        vec![("y/".to_string(), bottom)],
        g.kids(g.kid(0, "r").unwrap()).unwrap()
    );
}

#[test]
fn later_payload_wins_on_a_shared_vertex() {
    let mut g = Sodg::empty();
    Script::from_str("ADD(0); ADD(1); BIND(0, 1, a); BIND(1, 0, b);")
        .deploy_to(&mut g)
        .unwrap();
    let mut extra = Sodg::empty();
    Script::from_str(
        "ADD(0); ADD(1); ADD(2); BIND(0, 1, a); BIND(1, 2, b);
        PUT(0, 01); PUT(2, 02);",
    )
    .deploy_to(&mut extra)
    .unwrap();
    assert_eq!(Ok(()), g.merge(&extra, 0, 0));
    assert_eq!(2, g.len());
    assert_eq!(Some(vec![2]), g.data(0).unwrap());
    assert_eq!(None, g.data(1).unwrap());
}

#[test]
fn merges_nothing_into_a_missing_vertex() {
    let mut g = Sodg::empty();
    let mut extra = Sodg::empty();
    extra.add(3).unwrap();
    assert_eq!(Ok(()), g.merge(&extra, 8, 3));
    assert_eq!(0, g.len());
    extra.put(3, vec![1]).unwrap();
    assert_eq!(
        Err(MergeError::Store(StoreError::Absent(8))),
        g.merge(&extra, 8, 3)
    );
    assert_eq!(0, g.len());
}

#[test]
fn merges_twice_without_growing() {
    let mut g = Sodg::empty();
    g.add(0).unwrap();
    let mut extra = Sodg::empty();
    Script::from_str("ADD(0); ADD($a); ADD($b); BIND(0, $a, x); BIND($a, $b, y); PUT($b, ff)")
        .deploy_to(&mut extra)
        .unwrap();
    assert_eq!(Ok(()), g.merge(&extra, 0, 0));
    assert_eq!(3, g.len());
    assert_eq!(Ok(()), g.merge(&extra, 0, 0));
    assert_eq!(3, g.len());
    let b = g.kid(g.kid(0, "x").unwrap(), "y").unwrap();
    assert_eq!(Some(vec![0xff]), g.data(b).unwrap());
}

#[test]
fn new_vertices_lie_above_the_old_ones() {
    let mut g = Sodg::empty();
    g.add(0).unwrap();
    g.add(10).unwrap();
    g.bind(0, 10, "a").unwrap();
    let mut extra = Sodg::empty();
    Script::from_str("ADD(0); ADD(1); ADD(2); ADD(3); BIND(0, 1, a); BIND(0, 2, b); BIND(2, 3, c)")
        .deploy_to(&mut extra)
        .unwrap();
    assert_eq!(Ok(()), g.merge(&extra, 0, 0));
    assert_eq!(4, g.len());
    assert_eq!(Some(10), g.kid(0, "a"));
    assert_eq!(Some(11), g.kid(0, "b"));
    assert_eq!(Some(12), g.kid(11, "c"));
    assert_eq!(Ok(13), g.next_id());
}

#[test]
fn keeps_the_payloads_it_does_not_lay_anything_on() {
    let mut g = Sodg::empty();
    g.add(0).unwrap();
    g.add(1).unwrap();
    g.add(2).unwrap();
    g.bind(0, 1, "a").unwrap();
    g.put(0, vec![1]).unwrap();
    g.put(1, vec![2]).unwrap();
    g.put(2, vec![3]).unwrap();
    let mut extra = Sodg::empty();
    extra.add(0).unwrap();
    extra.add(1).unwrap();
    extra.bind(0, 1, "a").unwrap();
    assert_eq!(Ok(()), g.merge(&extra, 0, 0));
    assert_eq!(Ok(Some(vec![1])), g.data(0));
    assert_eq!(Ok(Some(vec![2])), g.data(1));
    assert_eq!(Ok(Some(vec![3])), g.data(2));
}
