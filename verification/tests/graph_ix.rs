use competitive::collections::MultiSet;
use competitive::graph::{
    bfs, make_directed_graph, make_dist_table, make_undirected_graph,
    make_weighted_directed_graph, make_weighted_undirected_graph,
};
use competitive::ix::{Board, Ix2};

#[test]
fn graph_builders() {
    let g = make_directed_graph(4, &[(0, 1), (0, 2), (2, 3)]);
    assert_eq!(g, vec![vec![1, 2], vec![], vec![3], vec![]]);

    let g = make_undirected_graph(3, &[(0, 1), (1, 2)]);
    assert_eq!(g, vec![vec![1], vec![0, 2], vec![1]]);

    let g = make_weighted_directed_graph(2, &[(0, 1, 7)]);
    assert_eq!(g, vec![vec![(1, 7)], vec![]]);

    let g = make_weighted_undirected_graph(2, &[(0, 1, 7)]);
    assert_eq!(g, vec![vec![(1, 7)], vec![(0, 7)]]);
}

#[test]
fn bfs_distances() {
    // a path, a branch and an unreachable vertex
    let g = make_undirected_graph(6, &[(0, 1), (1, 2), (1, 3), (3, 4)]);
    let dist = make_dist_table(&g, 0);
    assert_eq!(dist, vec![0, 1, 2, 2, 3, usize::MAX]);

    let mut it = bfs(&g, 0);
    let mut edges = Vec::new();
    while let Some(e) = it.next(&g) {
        edges.push(e);
    }
    assert_eq!(edges, vec![(0, 1), (1, 2), (1, 3), (3, 4)]);
}

#[test]
fn ix_stepping() {
    let p = Ix2::new(1, 1, 3, 3);
    assert_eq!(p.try_add((1, 0)).map(|t| (t.x, t.y)), Some((2, 1)));
    assert_eq!(p.try_add((2, 0)), None);
    assert_eq!(p.try_sub((0, 2)), None);
    assert_eq!(p.neighbor4().len(), 4);
    let corner = Ix2::new(0, 0, 3, 3);
    assert_eq!(corner.neighbor4().len(), 2);
    assert_eq!(corner.neighbor8().len(), 3);
    assert_eq!(Ix2::try_new(3, 0, 3, 3), None);
}

#[test]
fn board_ops() {
    let mut b = Board::new(vec![
        vec!['a', 'b', 'c'],
        vec!['d', 'e', 'f'],
    ]);
    assert_eq!(b.width(), 3);
    assert_eq!(b.height(), 2);
    assert_eq!(b.get(2, 1), Some(&'f'));
    assert_eq!(b.get(3, 1), None);
    assert_eq!(b.get(-1, 0), None);
    let found = b.find('e').unwrap();
    assert_eq!((found.x, found.y), (1, 1));
    assert_eq!(b.find('z'), None);
    b.set(0, 0, 'z');
    assert_eq!(b.get(0, 0), Some(&'z'));
    let ix = b.ix(2, 0);
    assert_eq!((ix.x, ix.y), (2, 0));
}

#[test]
fn multiset_ops() {
    let mut m = MultiSet::new();
    assert_eq!(m.min(), None);
    m.insert(5);
    m.insert(3);
    m.insert(5);
    assert_eq!(m.min(), Some(3));
    m.remove(3);
    assert_eq!(m.min(), Some(5));
    m.remove(5);
    assert_eq!(m.min(), Some(5));
    m.remove(5);
    assert_eq!(m.min(), None);
}
