use compt::Visitor;

fn assert_length_pre<C: Visitor>(mut it: compt::DfsPreOrderIter<C>) {
    let (lo, hi) = it.size_hint();
    assert_eq!(lo, hi.unwrap());
    let mut n: usize = 0;
    while let Some(_x) = it.next() {
        n += 1;
    }
    assert_eq!(n, lo);
}

fn assert_length_bfs<C: Visitor>(mut it: compt::BfsIter<C>) {
    let (lo, hi) = it.size_hint();
    assert_eq!(lo, hi.unwrap());
    let mut n: usize = 0;
    while let Some(_x) = it.next() {
        n += 1;
    }
    assert_eq!(n, lo);
}

fn assert_length_in<C: Visitor>(mut it: compt::DfsInOrderIter<C>) {
    let (lo, hi) = it.size_hint();
    assert_eq!(lo, hi.unwrap());
    let mut n: usize = 0;
    while let Some(_x) = it.next() {
        n += 1;
    }
    assert_eq!(n, lo);
}

#[test]
fn test_length() {
    {
        let mut k =
            compt::dfs_order::CompleteTreeContainer::from_inorder(vec![0, 1, 2, 3, 4, 5, 6])
                .unwrap();

        assert_length_pre(compt::dfs_preorder_iter(k.as_tree_mut().vistr_mut()));
        assert_length_in(compt::dfs_inorder_iter(k.as_tree_mut().vistr_mut()));
        assert_length_bfs(compt::bfs_iter(k.as_tree_mut().vistr_mut()));

        assert_length_pre(compt::dfs_preorder_iter(k.as_tree().vistr()));
        assert_length_in(compt::dfs_inorder_iter(k.as_tree().vistr()));
        assert_length_bfs(compt::bfs_iter(k.as_tree().vistr()));
    }
    {
        let mut k = compt::bfs_order::CompleteTreeContainer::from_vec(vec![0, 1, 2, 3, 4, 5, 6])
            .unwrap();

        assert_length_pre(compt::dfs_preorder_iter(k.vistr_mut()));
        assert_length_in(compt::dfs_inorder_iter(k.vistr_mut()));
        assert_length_bfs(compt::bfs_iter(k.vistr_mut()));

        assert_length_pre(compt::dfs_preorder_iter(k.vistr()));
        assert_length_in(compt::dfs_inorder_iter(k.vistr()));
        assert_length_bfs(compt::bfs_iter(k.vistr()));
    }
}

#[test]
fn stuff_dfs_mut() {
    let mut k = compt::dfs_order::CompleteTreeContainer::from_inorder(vec![0, 1, 2, 3, 4, 5, 6])
        .unwrap();

    let mut res = Vec::new();
    let mut it = compt::dfs_preorder_iter(k.as_tree_mut().vistr_mut());
    while let Some(a) = it.next() {
        res.push(*a);
    }
    assert_eq!(&res, &[3, 1, 0, 2, 5, 4, 6]);
}

#[test]
fn stuff_dfs_inorder_mut() {
    let mut k = compt::dfs_order::CompleteTreeContainer::from_inorder(vec![3, 1, 2, 0, 4, 5, 6])
        .unwrap();

    let mut res = Vec::new();
    let mut it = compt::dfs_inorder_iter(k.as_tree_mut().vistr_mut());
    while let Some(a) = it.next() {
        res.push(*a);
    }
    assert_eq!(&res, &[3, 1, 2, 0, 4, 5, 6]);
}

#[test]
fn bfs_mut() {
    let mut k = compt::bfs_order::CompleteTreeContainer::from_vec(vec![0, 1, 2, 3, 4, 5, 6])
        .unwrap();

    let idxs = compt::dfs_preorder(k.vistr_mut());
    let mut res = Vec::new();
    for i in idxs {
        res.push(k.get_nodes()[i]);
    }
    assert_eq!(&res, &[0, 1, 3, 4, 2, 5, 6]);
}

#[test]
fn dfs() {
    let k = compt::dfs_order::CompleteTreeContainer::from_inorder(vec![0, 1, 2, 3, 4, 5, 6])
        .unwrap();

    let mut res = Vec::new();
    for a in compt::dfs_preorder(k.as_tree().vistr()) {
        res.push(*a);
    }
    assert_eq!(&res, &[3, 1, 0, 2, 5, 4, 6]);
}

#[test]
fn bfs() {
    let k = compt::bfs_order::CompleteTreeContainer::from_vec(vec![0, 1, 2, 3, 4, 5, 6]).unwrap();

    let mut res = Vec::new();
    for a in compt::dfs_preorder(k.vistr()) {
        res.push(*a);
    }
    assert_eq!(&res, &[0, 1, 3, 4, 2, 5, 6]);
}
