use compt::timer::TreeTimerTrait;
use compt::Depth;
use compt::Visitor;

#[test]
fn construction_sizes() {
    for len in [0usize, 1, 2, 6, 7, 8] {
        let ok = len == 1 || len == 7;
        let v: Vec<u32> = (0..len as u32).collect();
        assert_eq!(compt::bfs_order::CompleteTreeContainer::from_vec(v.clone()).is_ok(), ok);
        assert_eq!(compt::dfs_order::CompleteTreeContainer::from_inorder(v.clone()).is_ok(), ok);
        assert_eq!(compt::dfs_order::CompleteTreeContainer::from_preorder(v.clone()).is_ok(), ok);
        assert_eq!(compt::dfs_order::CompleteTreeContainer::from_postorder(v.clone()).is_ok(), ok);
        assert_eq!(
            compt::dfs_order::CompleteTree::from_inorder(v.as_slice()).is_ok(),
            ok
        );
        assert_eq!(compt::valid_node_num(len), ok);
    }
    assert!(compt::bfs_order::CompleteTreeContainer::from_vec(vec![0, 1, 2]).is_ok());
    assert_eq!(compt::compute_num_nodes(3), 7);
    assert_eq!(compt::compute_height(7), 3);
}

#[test]
fn generator_node_counts() {
    for h in 1usize..=5 {
        let expected: usize = (1 << h) - 1;

        let k = compt::bfs_order::CompleteTreeContainer::from_generator(h, |i| i as u64);
        assert_eq!(k.get_height(), h);
        assert_eq!(k.get_nodes().len(), expected);

        let d = compt::dfs_order::CompleteTreeContainer::<u64, compt::dfs_order::InOrder>::
            from_generator(h, |i| i as u64);
        assert_eq!(d.as_tree().get_height(), h);
        assert_eq!(d.as_tree().get_nodes().len(), expected);
    }
}

#[test]
fn traversals_visit_each_node_once() {
    for h in 1usize..=5 {
        let n: u64 = (1u64 << h) - 1;

        let mut k = compt::bfs_order::CompleteTreeContainer::from_generator(h, |i| i as u64);
        let mut pre = compt::dfs_preorder(k.vistr_mut());
        let mut ino = compt::dfs_inorder(k.vistr_mut());
        let mut post = compt::dfs_postorder(k.vistr_mut());
        pre.sort();
        ino.sort();
        post.sort();
        let all: Vec<usize> = (0..n as usize).collect();
        assert_eq!(pre, all);
        assert_eq!(ino, all);
        assert_eq!(post, all);

        let d = compt::dfs_order::CompleteTreeContainer::<u64, compt::dfs_order::InOrder>::
            from_generator(h, |i| i as u64);
        let mut vals: Vec<u64> = compt::dfs_preorder(d.as_tree().vistr())
            .into_iter()
            .copied()
            .collect();
        vals.sort();
        let expect: Vec<u64> = (0..n).collect();
        assert_eq!(vals, expect);
        let mut vals2: Vec<u64> = compt::dfs_postorder(d.as_tree().vistr())
            .into_iter()
            .copied()
            .collect();
        vals2.sort();
        assert_eq!(vals2, expect);
    }
}

#[test]
fn inorder_round_trip() {
    let k = compt::dfs_order::CompleteTreeContainer::from_inorder(vec![0, 1, 2, 3, 4, 5, 6])
        .unwrap();
    let mut res = Vec::new();
    let mut it = compt::dfs_inorder_iter(k.as_tree().vistr());
    while let Some(a) = it.next() {
        res.push(*a);
    }
    assert_eq!(&res, &[0, 1, 2, 3, 4, 5, 6]);
}

#[test]
fn depth_tagging() {
    let k = compt::dfs_order::CompleteTreeContainer::from_inorder(vec![0, 1, 2, 3, 4, 5, 6])
        .unwrap();

    let walk = compt::dfs_preorder(k.as_tree().vistr().with_depth(Depth(0)));
    let depths: Vec<usize> = walk.iter().map(|(d, _)| d.0).collect();
    assert_eq!(&depths, &[0, 1, 2, 2, 1, 2, 2]);

    let walk5 = compt::dfs_preorder(k.as_tree().vistr().with_depth(Depth(5)));
    let depths5: Vec<usize> = walk5.iter().map(|(d, _)| d.0).collect();
    assert_eq!(&depths5, &[5, 6, 7, 7, 6, 7, 7]);

    let height = k.as_tree().get_height();
    for (d, _) in compt::dfs_preorder(k.as_tree().vistr().with_depth(Depth(0)).take(999))
        .iter()
    {
        assert!(d.0 <= height - 1);
    }
}

#[test]
fn aliasing_freedom_bfs() {
    let mut k = compt::bfs_order::CompleteTreeContainer::from_vec(vec![0i64; 7]).unwrap();

    let (root, children) = k.vistr_mut().next();
    let (left, right) = children.unwrap();
    let left_idxs = compt::dfs_preorder(left);
    let right_idxs = compt::dfs_preorder(right);

    {
        let nodes = k.get_nodes_mut();
        nodes[root] = 500;
        for (j, i) in left_idxs.iter().enumerate() {
            nodes[*i] = 100 + j as i64;
        }
        for (j, i) in right_idxs.iter().enumerate() {
            nodes[*i] = 200 + j as i64;
        }
    }

    let nodes = k.get_nodes();
    assert_eq!(nodes[0], 500);
    let mut seen_left: Vec<i64> = Vec::new();
    let mut seen_right: Vec<i64> = Vec::new();
    for i in 1..7 {
        if nodes[i] >= 200 {
            seen_right.push(nodes[i]);
        } else {
            seen_left.push(nodes[i]);
        }
    }
    seen_left.sort();
    seen_right.sort();
    assert_eq!(seen_left, vec![100, 101, 102]);
    assert_eq!(seen_right, vec![200, 201, 202]);
    assert_eq!(nodes[1], 100);
    assert_eq!(nodes[3], 101);
    assert_eq!(nodes[4], 102);
    assert_eq!(nodes[2], 200);
    assert_eq!(nodes[5], 201);
    assert_eq!(nodes[6], 202);
}

#[test]
fn aliasing_freedom_dfs() {
    let mut arr = [0i64; 7];
    let k = compt::dfs_order::CompleteTreeMut::from_preorder_mut(&mut arr).unwrap();

    let (root, children) = k.vistr_mut().next();
    *root = 500;
    let (left, right) = children.unwrap();
    let ls = left.into_slice();
    for (j, x) in ls.iter_mut().enumerate() {
        *x = 100 + j as i64;
    }
    let rs = right.into_slice();
    for (j, x) in rs.iter_mut().enumerate() {
        *x = 200 + j as i64;
    }

    assert_eq!(arr, [500, 100, 101, 102, 200, 201, 202]);
}

#[test]
fn zip_map_sum() {
    let a = compt::dfs_order::CompleteTreeContainer::from_inorder(vec![0i64, 1, 2, 3, 4, 5, 6])
        .unwrap();
    let b = compt::dfs_order::CompleteTreeContainer::from_inorder(
        vec![10i64, 20, 30, 40, 50, 60, 70],
    )
    .unwrap();

    let zipped = compt::Zip::new(a.as_tree().vistr(), b.as_tree().vistr());
    let summed = compt::MapVisitor::new(zipped, |p: (&i64, &i64)| *p.0 + *p.1);
    let res = compt::dfs_inorder(summed);
    assert_eq!(&res, &[10, 21, 32, 43, 54, 65, 76]);
}

#[test]
fn flip_swaps_children() {
    let k = compt::bfs_order::CompleteTreeContainer::from_vec(vec![0, 1, 2, 3, 4, 5, 6]).unwrap();
    let mut res = Vec::new();
    for a in compt::dfs_preorder(k.vistr().flip()) {
        res.push(*a);
    }
    assert_eq!(&res, &[0, 2, 6, 5, 1, 4, 3]);
}

#[test]
fn take_truncates_levels() {
    let k = compt::bfs_order::CompleteTreeContainer::from_vec(vec![0, 1, 2, 3, 4, 5, 6]).unwrap();

    let only_root = compt::dfs_preorder(k.vistr().take(0));
    assert_eq!(only_root.len(), 1);
    assert_eq!(*only_root[0], 0);

    let two_levels = compt::dfs_preorder(k.vistr().take(1));
    let vals: Vec<i32> = two_levels.into_iter().copied().collect();
    assert_eq!(&vals, &[0, 1, 2]);
}

#[test]
fn zip_hint_is_minimum() {
    let a = compt::bfs_order::CompleteTreeContainer::from_vec(vec![0; 7]).unwrap();
    let b = compt::bfs_order::CompleteTreeContainer::from_vec(vec![0; 15]).unwrap();
    let z = compt::Zip::new(a.vistr(), b.vistr());
    assert_eq!(z.level_remaining_hint(), (3, Some(3)));
}

#[test]
fn timer_hooks_compile_and_run() {
    let mut t = compt::timer::TreeTimerEmpty;
    t.start();
    let (l, r) = t.next();
    let bl = l.leaf_finish();
    let br = r.leaf_finish();
    let _bag = compt::timer::TreeTimerEmpty::combine(bl, br);
}

#[test]
fn into_nodes_returns_storage() {
    let k = compt::bfs_order::CompleteTreeContainer::from_vec(vec![9, 8, 7]).unwrap();
    assert_eq!(k.into_nodes(), vec![9, 8, 7]);

    let d = compt::dfs_order::CompleteTreeContainer::from_postorder(vec![4, 5, 6]).unwrap();
    assert_eq!(d.into_nodes(), vec![4, 5, 6]);
}

#[test]
fn preorder_layout_reads_in_storage_order() {
    let k = compt::dfs_order::CompleteTreeContainer::from_preorder(vec![0, 1, 2, 3, 4, 5, 6])
        .unwrap();
    let mut res = Vec::new();
    for a in compt::dfs_preorder(k.as_tree().vistr()) {
        res.push(*a);
    }
    assert_eq!(&res, &[0, 1, 2, 3, 4, 5, 6]);
}

#[test]
fn postorder_layout_reads_in_storage_order() {
    let k = compt::dfs_order::CompleteTreeContainer::from_postorder(vec![0, 1, 2, 3, 4, 5, 6])
        .unwrap();
    let mut res = Vec::new();
    for a in compt::dfs_postorder(k.as_tree().vistr()) {
        res.push(*a);
    }
    assert_eq!(&res, &[0, 1, 2, 3, 4, 5, 6]);
}

#[test]
fn round_trip_walks_reproduce_storage() {
    let data = vec![0i32, 1, 2, 3, 4, 5, 6];

    let ki = compt::dfs_order::CompleteTreeContainer::from_inorder(data.clone()).unwrap();
    let ri: Vec<i32> = compt::dfs_order::inorder_items(ki.as_tree().vistr())
        .into_iter()
        .copied()
        .collect();
    assert_eq!(ri, data);

    let kp = compt::dfs_order::CompleteTreeContainer::from_preorder(data.clone()).unwrap();
    let rp: Vec<i32> = compt::dfs_order::preorder_items(kp.as_tree().vistr())
        .into_iter()
        .copied()
        .collect();
    assert_eq!(rp, data);

    let ko = compt::dfs_order::CompleteTreeContainer::from_postorder(data.clone()).unwrap();
    let ro: Vec<i32> = compt::dfs_order::postorder_items(ko.as_tree().vistr())
        .into_iter()
        .copied()
        .collect();
    assert_eq!(ro, data);
}

#[test]
fn bfs_inorder_and_postorder_indices_walk() {
    let mut k = compt::bfs_order::CompleteTreeContainer::from_vec(vec![0u8; 7]).unwrap();
    let ino = compt::bfs_order::inorder_indices(k.vistr_mut());
    assert_eq!(ino, vec![3, 1, 4, 0, 5, 2, 6]);
    let post = compt::bfs_order::postorder_indices(k.vistr_mut());
    assert_eq!(post, vec![3, 4, 1, 5, 6, 2, 0]);
}

#[test]
fn bfs_preorder_indices_walk() {
    let mut k = compt::bfs_order::CompleteTreeContainer::from_vec(vec![0u8; 7]).unwrap();
    let idxs = compt::bfs_order::preorder_indices(k.vistr_mut());
    assert_eq!(idxs, vec![0, 1, 3, 4, 2, 5, 6]);

    let mut big = compt::bfs_order::CompleteTreeContainer::from_vec(vec![0u8; 15]).unwrap();
    let mut idxs15 = compt::bfs_order::preorder_indices(big.vistr_mut());
    assert_eq!(idxs15.len(), 15);
    idxs15.sort();
    let all: Vec<usize> = (0..15).collect();
    assert_eq!(idxs15, all);
}

#[test]
fn depth_profile_walk_marks_leaves() {
    let k = compt::bfs_order::CompleteTreeContainer::from_vec(vec![0u8; 7]).unwrap();
    let rec = compt::depth_profile_walk(k.vistr().with_depth(Depth(2)));
    assert_eq!(
        rec,
        vec![
            (2, false),
            (3, false),
            (4, true),
            (4, true),
            (3, false),
            (4, true),
            (4, true)
        ]
    );
    for (d, leaf) in rec {
        assert_eq!(leaf, d == 4);
    }
}

#[test]
fn preorder_walk_over_each_layout() {
    let data = vec![0i32, 1, 2, 3, 4, 5, 6];

    let ki = compt::dfs_order::CompleteTreeContainer::from_inorder(data.clone()).unwrap();
    let ri: Vec<i32> = compt::dfs_order::preorder_walk_items(ki.as_tree().vistr())
        .into_iter()
        .copied()
        .collect();
    assert_eq!(ri, vec![3, 1, 0, 2, 5, 4, 6]);

    let kp = compt::dfs_order::CompleteTreeContainer::from_preorder(data.clone()).unwrap();
    let rp: Vec<i32> = compt::dfs_order::preorder_walk_items(kp.as_tree().vistr())
        .into_iter()
        .copied()
        .collect();
    assert_eq!(rp, data);

    let ko = compt::dfs_order::CompleteTreeContainer::from_postorder(data.clone()).unwrap();
    let ro: Vec<i32> = compt::dfs_order::preorder_walk_items(ko.as_tree().vistr())
        .into_iter()
        .copied()
        .collect();
    assert_eq!(ro, vec![6, 2, 0, 1, 5, 3, 4]);
}

#[test]
fn bfs_iter_order() {
    let k = compt::bfs_order::CompleteTreeContainer::from_vec(vec![0, 1, 2, 3, 4, 5, 6]).unwrap();
    let mut res = Vec::new();
    let mut it = compt::bfs_iter(k.vistr());
    while let Some(a) = it.next() {
        res.push(*a);
    }
    assert_eq!(&res, &[0, 1, 2, 3, 4, 5, 6]);

    let d = compt::dfs_order::CompleteTreeContainer::from_inorder(vec![0, 1, 2, 3, 4, 5, 6])
        .unwrap();
    let mut res2 = Vec::new();
    let mut it2 = compt::bfs_iter(d.as_tree().vistr());
    while let Some(a) = it2.next() {
        res2.push(*a);
    }
    assert_eq!(&res2, &[3, 1, 5, 0, 2, 4, 6]);
}
