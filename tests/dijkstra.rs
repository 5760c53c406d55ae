use algo_lib::dijkstra::Dijkstra;
use algo_lib::graph::Weight;

#[test]
fn test_one_way_linear_graph_test() {
    let n = 10;
    let mut dijkstra = Dijkstra::new(n);
    for i in 0..(n - 1) {
        dijkstra.add_edge(i, i + 1, 2 as Weight);
    }
    let s = 3;
    let d = dijkstra.solve(s);
    assert_eq!(0, d[s]);
    assert_eq!(Weight::MAX, d[s - 3]);
    assert_eq!(Weight::MAX, d[s - 1]);
    assert_eq!(12, d[s + 6]);
}

#[test]
fn test_bidirectional_linear_graph() {
    let n = 10;
    let mut dijkstra = Dijkstra::new(n);
    for i in 0..(n - 1) {
        dijkstra.add_edge(i, i + 1, 2 as Weight);
        dijkstra.add_edge(i + 1, i, 2 as Weight);
    }
    let s = 3;
    let d = dijkstra.solve(s);
    assert_eq!(0, d[s]);
    assert_eq!(6, d[s - 3]);
    assert_eq!(2, d[s - 1]);
    assert_eq!(12, d[s + 6]);
}

#[test]
fn test_simple_graph() {
    let n = 6;
    let mut dijkstra = Dijkstra::new(n);
    let s = 2;
    dijkstra.add_edge(2, 1, 1);
    dijkstra.add_edge(1, 0, 1);
    dijkstra.add_edge(0, 3, 5);
    dijkstra.add_edge(0, 4, 10);
    dijkstra.add_edge(1, 3, 3);
    dijkstra.add_edge(3, 4, 2);

    let d = dijkstra.solve(s);
    assert_eq!(2, d[0]);
    assert_eq!(1, d[1]);
    assert_eq!(0, d[2]);
    assert_eq!(4, d[3]);
    assert_eq!(6, d[4]);
    assert_eq!(Weight::MAX, d[5]);
}

#[test]
fn single_vertex_with_self_loop() {
    let mut dijkstra = Dijkstra::new(1);
    dijkstra.add_edge(0, 0, 5);
    assert_eq!(dijkstra.solve(0), vec![0]);
}

#[test]
fn zero_weights_and_parallel_edges() {
    let mut dijkstra = Dijkstra::new(4);
    dijkstra.add_edge(0, 1, 7);
    dijkstra.add_edge(0, 1, 0);
    dijkstra.add_edge(1, 2, 0);
    dijkstra.add_edge(0, 2, 1);
    dijkstra.add_edge(2, 3, 4);
    assert_eq!(dijkstra.solve(0), vec![0, 0, 0, 4]);
}

#[test]
fn huge_weights_do_not_wrap() {
    let mut dijkstra = Dijkstra::new(3);
    dijkstra.add_edge(0, 1, Weight::MAX - 1);
    dijkstra.add_edge(1, 2, Weight::MAX - 1);
    let d = dijkstra.solve(0);
    assert_eq!(d, vec![0, Weight::MAX - 1, Weight::MAX]);
}
