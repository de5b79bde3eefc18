use rustlab::graph::Graph;
use rustlab::huffman::HuffmanCodec;
use rustlab::sorting::bubble_sort;
use rustlab::sorting::insertion_sort;
use rustlab::sorting::merge_sort;
use rustlab::sorting::quick_sort;
use rustlab::sorting::selection_sort;

fn freq_of(freq: &Vec<(char, u64)>, c: char) -> Option<u64> {
    freq.iter().find(|p| p.0 == c).map(|p| p.1)
}

#[test]
fn test_frequency_calculation() {
    let freq = HuffmanCodec::calculate_frequencies("aabbc");
    assert_eq!(freq_of(&freq, 'a'), Some(2));
    assert_eq!(freq_of(&freq, 'b'), Some(2));
    assert_eq!(freq_of(&freq, 'c'), Some(1));
}

#[test]
fn test_encode_decode() {
    let text = "hello world";
    let codec = HuffmanCodec::from_text(text).unwrap();
    let encoded = codec.encode(text).unwrap();
    let decoded = codec.decode(&encoded).unwrap();
    assert_eq!(text, decoded);
}

#[test]
fn test_single_character() {
    let codec = HuffmanCodec::from_text("aaaa").unwrap();
    let encoded = codec.encode("aaaa").unwrap();
    assert_eq!(encoded, "0000");
}

#[test]
fn test_compression_ratio() {
    let text = "AAAAAABBBBBBBBBBBCCCCCCCCCCCCDDDDDDDDDDDDD";
    let codec = HuffmanCodec::from_text(text).unwrap();
    let encoded = codec.encode(text).unwrap();

    let original_bits = text.len() * 8;
    let compressed_bits = encoded.len();

    assert!(compressed_bits < original_bits);
}

#[test]
fn huffman_rejects_empty_input() {
    assert!(HuffmanCodec::from_text("").is_err());
}

#[test]
fn huffman_rejects_unknown_character() {
    let codec = HuffmanCodec::from_text("abc").unwrap();
    assert!(codec.encode("abcd").is_err());
}

#[test]
fn huffman_rejects_junk_bits() {
    let codec = HuffmanCodec::from_text("abc").unwrap();
    assert!(codec.decode("2").is_err());
}

#[test]
fn huffman_codebook_is_consistent() {
    let codec = HuffmanCodec::from_text("aabbc").unwrap();
    let book = codec.codebook();
    assert_eq!(book.len(), 3);
    for (ch, code) in book.iter() {
        assert_eq!(codec.get_code(*ch).map(|s| s.clone()), Some(code.clone()));
        assert!(code.chars().all(|b| b == '0' || b == '1'));
    }
    assert!(codec.get_code('z').is_none());
}

#[test]
fn test_graph_creation() {
    let mut g = Graph::new(3);
    g.add_edge(0, 1, 5);
    g.add_edge(1, 2, 3);
    assert_eq!(g.size(), 3);
    assert_eq!(g.neighbors(0).len(), 1);
}

#[test]
fn test_bfs() {
    let mut g = Graph::new(4);
    g.add_edge(0, 1, 1);
    g.add_edge(0, 2, 1);
    g.add_edge(1, 3, 1);
    let order = rustlab::graph::bfs(&g, 0);
    assert_eq!(order.len(), 4);
    assert_eq!(order[0], 0);
}

#[test]
fn bfs_reaches_exactly_the_reachable_vertices() {
    let mut g = Graph::new(5);
    g.add_edge(0, 1, 1);
    g.add_edge(1, 2, 1);
    g.add_edge(3, 4, 1);
    let order = rustlab::graph::bfs(&g, 0);
    assert_eq!(order, vec![0, 1, 2]);
}

#[test]
fn dfs_visits_each_reachable_vertex_once() {
    let mut g = Graph::new(5);
    g.add_undirected_edge(0, 1, 1);
    g.add_undirected_edge(1, 2, 1);
    g.add_edge(0, 3, 1);
    let order = rustlab::graph::dfs_iterative(&g, 0);
    assert_eq!(order.len(), 4);
    assert_eq!(order[0], 0);
    let mut sorted_order = order.clone();
    sorted_order.sort();
    assert_eq!(sorted_order, vec![0, 1, 2, 3]);
}

#[test]
fn out_of_range_edges_are_ignored() {
    let mut g = Graph::new(2);
    g.add_edge(0, 7, 1);
    g.add_edge(9, 0, 1);
    assert_eq!(g.neighbors(0).len(), 0);
    assert_eq!(g.neighbors(1).len(), 0);
}

#[test]
fn sorts_agree_on_sorted_output() {
    let data: Vec<i64> = vec![64, 34, 25, 12, 22, 11, 90, 88, 45, 50];
    let expected: Vec<i64> = vec![11, 12, 22, 25, 34, 45, 50, 64, 88, 90];

    let mut a = data.clone();
    bubble_sort(&mut a);
    assert_eq!(a, expected);

    let mut b = data.clone();
    selection_sort(&mut b);
    assert_eq!(b, expected);

    let mut c = data.clone();
    insertion_sort(&mut c);
    assert_eq!(c, expected);

    let mut d = data.clone();
    merge_sort(&mut d);
    assert_eq!(d, expected);

    let mut e = data.clone();
    quick_sort(&mut e);
    assert_eq!(e, expected);
}

#[test]
fn sorts_handle_edge_cases() {
    let mut empty: Vec<i64> = vec![];
    quick_sort(&mut empty);
    assert!(empty.is_empty());

    let mut single: Vec<i64> = vec![42];
    quick_sort(&mut single);
    assert_eq!(single, vec![42]);

    let mut sorted: Vec<i64> = vec![1, 2, 3, 4, 5];
    bubble_sort(&mut sorted);
    assert_eq!(sorted, vec![1, 2, 3, 4, 5]);

    let mut reverse: Vec<i64> = vec![5, 4, 3, 2, 1];
    insertion_sort(&mut reverse);
    assert_eq!(reverse, vec![1, 2, 3, 4, 5]);

    let mut duplicates: Vec<i64> = vec![3, 1, 4, 1, 5, 9, 2, 6, 5, 3];
    merge_sort(&mut duplicates);
    assert_eq!(duplicates, vec![1, 1, 2, 3, 3, 4, 5, 5, 6, 9]);
}

#[test]
fn recursive_and_iterative_dfs_agree_on_the_visited_set() {
    let mut g = Graph::new(6);
    g.add_edge(0, 1, 1);
    g.add_edge(1, 2, 1);
    g.add_edge(0, 3, 1);
    g.add_edge(4, 5, 1);
    let mut a = rustlab::graph::dfs_recursive(&g, 0);
    let mut b = rustlab::graph::dfs_iterative(&g, 0);
    assert_eq!(a[0], 0);
    assert_eq!(b[0], 0);
    a.sort();
    b.sort();
    assert_eq!(a, b);
    assert_eq!(a, vec![0, 1, 2, 3]);
}

#[test]
fn components_partition_the_vertices() {
    let mut g = Graph::new(9);
    g.add_undirected_edge(0, 1, 1);
    g.add_undirected_edge(1, 2, 1);
    g.add_undirected_edge(3, 4, 1);
    g.add_undirected_edge(4, 5, 1);
    g.add_undirected_edge(5, 3, 1);
    g.add_undirected_edge(6, 7, 1);

    let comps = rustlab::graph::connected_components(&g);
    assert_eq!(comps.len(), 4);
    let mut all: Vec<usize> = comps.iter().flatten().copied().collect();
    all.sort();
    assert_eq!(all, (0..9).collect::<Vec<usize>>());
    assert_eq!(comps[0], vec![0, 1, 2]);
    assert_eq!(comps[3], vec![8]);
}

#[test]
fn counting_sort_matches_the_comparison_sorts() {
    let mut a: Vec<i32> = vec![64, -34, 25, 12, 22, -11, 90, 88, 45, 50, 12];
    rustlab::sorting::counting_sort(&mut a);
    assert_eq!(a, vec![-34, -11, 12, 12, 22, 25, 45, 50, 64, 88, 90]);

    let mut empty: Vec<i32> = vec![];
    rustlab::sorting::counting_sort(&mut empty);
    assert!(empty.is_empty());

    let mut same: Vec<i32> = vec![7, 7, 7];
    rustlab::sorting::counting_sort(&mut same);
    assert_eq!(same, vec![7, 7, 7]);
}
