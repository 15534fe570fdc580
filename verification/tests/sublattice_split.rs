use flatter::reduction::sublattice_split::{Split, SplitArena, SplitKind};

/// Walk the Phase-2 schedule and record the `(start, end)` windows produced
/// at the top level: left, then right, then all.
#[test]
fn phase2_top_level_sequence() {
    for n in [4usize, 8, 16, 32, 50] {
        let mut arena = SplitArena::new();
        let split = Split::new_phase2(&mut arena, n);
        let k = n / 2;
        let mut got = Vec::new();
        for _ in 0..3 {
            let s = Split::get_sublattices(&arena, split);
            got.push(s);
            Split::advance_sublattices(&mut arena, split);
        }
        assert_eq!(
            got,
            vec![vec![(0, k)], vec![(k, n)], vec![(0, n)]],
            "phase2 n={} sequence wrong",
            n
        );
        assert!(Split::stopping_point(&arena, split));
    }
}

#[test]
fn phase2_n3_two_iters() {
    let mut arena = SplitArena::new();
    let split = Split::new_phase2(&mut arena, 3);
    assert_eq!(Split::get_sublattices(&arena, split), vec![(0, 2)]);
    Split::advance_sublattices(&mut arena, split);
    assert_eq!(Split::get_sublattices(&arena, split), vec![(0, 3)]);
    Split::advance_sublattices(&mut arena, split);
    assert!(Split::stopping_point(&arena, split));
}

#[test]
fn phase3_alternates() {
    let mut arena = SplitArena::new();
    let split = Split::new_phase3(&mut arena, 8);
    // n=8, k=4; left.k = 2, right.k = 2. iter=0: mid window is [2, 6).
    let s0 = Split::get_sublattices(&arena, split);
    assert_eq!(s0, vec![(2, 6)]);
    Split::advance_sublattices(&mut arena, split);
    let s1 = Split::get_sublattices(&arena, split);
    assert_eq!(s1, vec![(0, 4), (4, 8)]);
}

/// Descending through `get_child_split` keeps the child's size equal to
/// the window it handles.
#[test]
fn child_split_size_matches_sublattice() {
    let mut arena = SplitArena::new();
    let split = Split::new_phase2(&mut arena, 16);
    for _ in 0..3 {
        let sl = Split::get_sublattices(&arena, split);
        for (i, (a, b)) in sl.iter().enumerate() {
            let child = Split::get_child_split(&arena, split, i);
            assert_eq!(arena.nodes[child].n, b - a, "child.n must equal window size");
        }
        Split::advance_sublattices(&mut arena, split);
    }
}

fn phase3_children(arena: &SplitArena, id: usize) -> (Option<usize>, Option<usize>, Option<usize>) {
    match arena.nodes[id].kind {
        SplitKind::Phase3 { left, right, mid, .. } => (left, right, mid),
        SplitKind::Phase2 { .. } => panic!("not a Phase-3 node"),
    }
}

/// The `mid` child of a fresh Phase-3 node shares its children with the
/// halves: the right child of `left` and the left child of `right`.
#[test]
fn phase3_mid_shares_grandchildren() {
    let mut arena = SplitArena::new();
    let split = Split::new_phase3(&mut arena, 8);
    let (l, r, m) = phase3_children(&arena, split);
    let (_, l_r, _) = phase3_children(&arena, l.unwrap());
    let (r_l, _, _) = phase3_children(&arena, r.unwrap());
    let (ml, mr, _) = phase3_children(&arena, m.unwrap());
    assert_eq!(ml, l_r);
    assert_eq!(mr, r_l);
    assert_eq!(arena.nodes[m.unwrap()].n, 4);
}

/// For `n == 3` the `mid` child is the right child of `left` next to `right`.
#[test]
fn phase3_n3_mid_uses_right() {
    let mut arena = SplitArena::new();
    let split = Split::new_phase3(&mut arena, 3);
    let (l, r, m) = phase3_children(&arena, split);
    let (_, l_r, _) = phase3_children(&arena, l.unwrap());
    let (ml, mr, _) = phase3_children(&arena, m.unwrap());
    assert_eq!(arena.nodes[l.unwrap()].n, 2);
    assert_eq!(arena.nodes[r.unwrap()].n, 1);
    assert_eq!(arena.nodes[m.unwrap()].n, 2);
    assert_eq!(ml, l_r);
    assert_eq!(mr, r);
}

/// The `mid` child of a `mid` child is built over the inner grandchildren
/// of that `mid` child, again and again down the tree.
#[test]
fn phase3_mid_of_mid_shares_grandchildren() {
    let mut arena = SplitArena::new();
    let split = Split::new_phase3(&mut arena, 16);
    let (_, _, m) = phase3_children(&arena, split);
    let m = m.unwrap();
    assert_eq!(arena.nodes[m].n, 8);
    let (ml, mr, mm) = phase3_children(&arena, m);
    let (_, ml_r, _) = phase3_children(&arena, ml.unwrap());
    let (mr_l, _, _) = phase3_children(&arena, mr.unwrap());
    let (mml, mmr, mmm) = phase3_children(&arena, mm.unwrap());
    assert_eq!(mml, ml_r);
    assert_eq!(mmr, mr_l);
    assert_eq!(arena.nodes[mm.unwrap()].n, 4);
    // One level further: size 4 over two children of size 2.
    let (_, l2_r, _) = phase3_children(&arena, mml.unwrap());
    let (r2_l, _, _) = phase3_children(&arena, mmr.unwrap());
    let (a, b, _) = phase3_children(&arena, mmm.unwrap());
    assert_eq!((a, b), (l2_r, r2_l));
}

/// The `all` child of a Phase-2 node is a Phase-3 node over the `all`
/// children of its halves, with its own `mid` built below it.
#[test]
fn phase2_all_child_has_mid() {
    let mut arena = SplitArena::new();
    let split = Split::new_phase2(&mut arena, 8);
    let (l, r, all) = match arena.nodes[split].kind {
        SplitKind::Phase2 { left, right, all, .. } => (left.unwrap(), right.unwrap(), all),
        SplitKind::Phase3 { .. } => panic!("not a Phase-2 node"),
    };
    let l_all = match arena.nodes[l].kind {
        SplitKind::Phase2 { all, .. } => all,
        SplitKind::Phase3 { .. } => panic!(),
    };
    let r_all = match arena.nodes[r].kind {
        SplitKind::Phase2 { all, .. } => all,
        SplitKind::Phase3 { .. } => panic!(),
    };
    let (al, ar, am) = phase3_children(&arena, all);
    assert_eq!((al, ar), (Some(l_all), Some(r_all)));
    let (_, lr, _) = phase3_children(&arena, l_all);
    let (rl, _, _) = phase3_children(&arena, r_all);
    let (ml, mr, _) = phase3_children(&arena, am.unwrap());
    assert_eq!((ml, mr), (lr, rl));
}
