use compt::Visitor;
use compt::dfs_order::CompleteTreeContainer;

#[test]
fn test_dfs_mut() {
    let mut k = CompleteTreeContainer::from_inorder(vec![0, 1, 2, 3, 4, 5, 6]).unwrap();

    let mut res = Vec::new();
    let mut it = compt::dfs_preorder_iter(k.as_tree_mut().vistr_mut());
    while let Some(a) = it.next() {
        res.push(*a);
    }
    assert_eq!(&res, &[3, 1, 0, 2, 5, 4, 6]);
}

#[test]
fn test_dfs_inorder_mut() {
    let mut k = CompleteTreeContainer::from_inorder(vec![3, 1, 2, 0, 4, 5, 6]).unwrap();

    let mut res = Vec::new();
    let mut it = compt::dfs_inorder_iter(k.as_tree_mut().vistr_mut());
    while let Some(a) = it.next() {
        res.push(*a);
    }
    assert_eq!(&res, &[3, 1, 2, 0, 4, 5, 6]);
}

#[test]
fn dfs_inorder_mut_backwards() {
    let mut k = CompleteTreeContainer::from_inorder(vec![3, 1, 2, 0, 4, 5, 6]).unwrap();

    let mut collected = Vec::new();
    let mut it = compt::dfs_inorder_iter(k.as_tree_mut().vistr_mut());
    while let Some(a) = it.next() {
        collected.push(a);
    }
    let mut res = Vec::new();
    for a in collected.iter_mut().rev() {
        res.push(**a);
    }
    assert_eq!(&res, &[6, 5, 4, 0, 2, 1, 3]);
}

#[test]
fn dfs_inorder2_mut() {
    let mut k = CompleteTreeContainer::from_inorder(vec![3, 1, 2, 0, 4, 5, 6]).unwrap();

    let mut res = Vec::new();
    for a in compt::dfs_inorder(k.as_tree_mut().vistr_mut()) {
        res.push(*a);
    }
    assert_eq!(&res, &[3, 1, 2, 0, 4, 5, 6]);
}

#[test]
fn test_dfs() {
    let k = CompleteTreeContainer::from_inorder(vec![0, 1, 2, 3, 4, 5, 6]).unwrap();

    let mut res = Vec::new();

    assert_eq!(k.as_tree().get_height(), 3);

    assert_eq!(k.as_tree().vistr().level_remaining_hint().0, 3);

    for a in compt::dfs_preorder(k.as_tree().vistr()) {
        res.push(*a);
    }
    assert_eq!(&res, &[3, 1, 0, 2, 5, 4, 6]);
}
