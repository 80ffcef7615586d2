use rsomics_modularity::assignments::parse_assignments;
use rsomics_modularity::graph::parse_edge_list;
use rsomics_modularity::tally::{tally_from_edge_list, CommunityTally};
use rsomics_modularity::graph::Graph;
use rsomics_modularity::text::concat3;

/// Bit-level tolerance: the tallies give Q within about 1 ULP.
const EPS: f64 = 1e-12;

fn pairs(parts: &[(&str, &str)]) -> Vec<(String, String)> {
    parts
        .iter()
        .map(|(n, l)| (n.to_string(), l.to_string()))
        .collect()
}

/// Q from the tallies, summed over communities in id order.
fn q_of(t: &CommunityTally, resolution: f64) -> f64 {
    let deg_sum = t.deg_sum as f64;
    let m = deg_sum / 2.0;
    let norm = 1.0 / ((t.deg_sum * t.deg_sum) as f64);
    (0..t.intra_edges.len())
        .map(|c| {
            let ds = t.degree_sums[c] as f64;
            t.intra_edges[c] as f64 / m - resolution * ds * ds * norm
        })
        .sum()
}

fn q(edges: &str, parts: &[(&str, &str)], resolution: f64) -> f64 {
    q_of(&tally_from_edge_list(edges, &pairs(parts)).unwrap(), resolution)
}

#[test]
fn inline_hash_comment_matches_clean_graph() {
    let assignments = pairs(&[("0", "a"), ("1", "a"), ("2", "b"), ("3", "b")]);
    let commented = "0 1\n1 2#c\n2 3\n0 #x\n";
    let clean = "0 1\n1 2\n2 3\n";
    let t_commented = tally_from_edge_list(commented, &assignments).unwrap();
    let t_clean = tally_from_edge_list(clean, &assignments).unwrap();
    assert_eq!(q_of(&t_commented, 1.0), q_of(&t_clean, 1.0));
    assert_eq!(t_commented.deg_sum, t_clean.deg_sum);
    assert_eq!(t_commented.intra_edges, t_clean.intra_edges);
    assert_eq!(t_commented.degree_sums, t_clean.degree_sums);
}

#[test]
fn not_a_partition_missing_node_bails() {
    let edges = "a b\nb c\nc a\n";
    // node `c` is unassigned
    let parts = pairs(&[("a", "0"), ("b", "0")]);
    let err = tally_from_edge_list(edges, &parts).unwrap_err();
    assert!(
        err.message().contains("not a partition"),
        "expected NotAPartition-style error, got: {}",
        err.message()
    );
}

#[test]
fn not_a_partition_double_assigned_bails() {
    let edges = "a b\nb c\nc a\n";
    let parts = pairs(&[("a", "0"), ("b", "0"), ("c", "0"), ("a", "1")]);
    let err = tally_from_edge_list(edges, &parts).unwrap_err();
    assert!(err.message().contains("not a partition"), "got: {}", err.message());
}

#[test]
fn stray_community_node_bails() {
    let edges = "a b\nb c\nc a\n";
    let parts = pairs(&[("a", "0"), ("b", "0"), ("c", "0"), ("z", "1")]);
    let err = tally_from_edge_list(edges, &parts).unwrap_err();
    assert!(err.message().contains("not a partition"), "got: {}", err.message());
}

#[test]
fn two_triangles() {
    let got = q(
        "a b\nb c\nc a\nd e\ne f\nf d\n",
        &[("a", "x"), ("b", "x"), ("c", "x"), ("d", "y"), ("e", "y"), ("f", "y")],
        1.0,
    );
    assert!((got - 0.5).abs() <= EPS, "got {got}");
}

#[test]
fn path6() {
    let got = q(
        "0 1\n1 2\n2 3\n3 4\n4 5\n",
        &[("0", "a"), ("1", "a"), ("2", "a"), ("3", "b"), ("4", "b"), ("5", "b")],
        1.0,
    );
    assert!((got - 0.30000000000000004).abs() <= EPS, "got {got}");
}

#[test]
fn k5_one_community() {
    let mut edges = String::new();
    for u in 0..5 {
        for v in (u + 1)..5 {
            edges.push_str(&format!("{u} {v}\n"));
        }
    }
    let parts = [("0", "c"), ("1", "c"), ("2", "c"), ("3", "c"), ("4", "c")];
    let t = tally_from_edge_list(&edges, &pairs(&parts)).unwrap();
    assert_eq!(t.deg_sum, 20);
    assert_eq!(t.intra_edges, vec![10]);
    assert_eq!(t.degree_sums, vec![20]);
    assert!(q_of(&t, 1.0).abs() <= EPS);
}

#[test]
fn selfloop_bridge() {
    let edges = "a b\nb c\nc a\nc d\nd d\n";
    let parts = [("a", "0"), ("b", "0"), ("c", "0"), ("d", "1")];
    let t = tally_from_edge_list(edges, &pairs(&parts)).unwrap();
    assert_eq!(t.deg_sum, 10);
    assert_eq!(t.intra_edges, vec![3, 1]);
    assert_eq!(t.degree_sums, vec![7, 3]);
    assert!((q_of(&t, 1.0) - 0.22).abs() <= EPS);
    assert!((q_of(&t, 2.0) - (-0.36)).abs() <= EPS);
}

#[test]
fn selfloop_isolated() {
    let edges = "a b\nb c\nc a\nd d\n";
    let parts = [("a", "0"), ("b", "0"), ("c", "0"), ("d", "1")];
    assert!((q(edges, &parts, 1.0) - 0.375).abs() <= EPS);
    assert!((q(edges, &parts, 2.0) - (-0.25)).abs() <= EPS);
}

#[test]
fn parallel_and_reversed_edges_collapse() {
    let g = parse_edge_list("a b\nb a\na b\n");
    assert_eq!(g.n(), 2);
    let t = tally_from_edge_list("a b\nb a\na b\n", &pairs(&[("a", "x"), ("b", "x")])).unwrap();
    assert_eq!(t.deg_sum, 2);
    assert_eq!(t.intra_edges, vec![1]);
}

#[test]
fn repeated_self_loop_counts_once() {
    let t = tally_from_edge_list("a a\na a\n", &pairs(&[("a", "x")])).unwrap();
    assert_eq!(t.deg_sum, 2);
    assert_eq!(t.intra_edges, vec![1]);
    assert_eq!(t.degree_sums, vec![2]);
}

#[test]
fn blank_short_and_long_lines() {
    let g = parse_edge_list("\n   \n# only a comment\nlonely\na b extra words\n\t c\u{3000}d \r\n");
    // `lonely` is on a line with a single word, so it is no node.
    assert_eq!(g.n(), 4);
    let err = tally_from_edge_list("lonely\na b\n", &pairs(&[("lonely", "0")])).unwrap_err();
    assert_eq!(
        err.message(),
        "community node \"lonely\" is not present in the graph — not a partition"
    );
}

#[test]
fn empty_input_has_no_nodes() {
    assert_eq!(parse_edge_list("").n(), 0);
    let t = tally_from_edge_list("", &[]).unwrap();
    assert_eq!(t.deg_sum, 0);
    assert!(t.intra_edges.is_empty());
}

#[test]
fn error_messages_name_the_node() {
    let edges = "a b\nb c\n";
    let e1 = tally_from_edge_list(edges, &pairs(&[("a", "0"), ("b", "0")])).unwrap_err();
    assert_eq!(
        e1.message(),
        "node \"c\" is not assigned to any community — not a partition"
    );
    let e2 = tally_from_edge_list(edges, &pairs(&[("b", "0"), ("b", "1")])).unwrap_err();
    assert_eq!(
        e2.message(),
        "node \"b\" assigned to more than one community — not a partition"
    );
    // the first fault in order wins: the stray `q` comes before the repeat of `a`
    let e3 = tally_from_edge_list(edges, &pairs(&[("a", "0"), ("q", "0"), ("a", "1")])).unwrap_err();
    assert_eq!(
        e3.message(),
        "community node \"q\" is not present in the graph — not a partition"
    );
}

#[test]
fn communities_numbered_by_first_appearance() {
    let edges = "a b\nc d\n";
    let t = tally_from_edge_list(edges, &pairs(&[("c", "zz"), ("a", "aa"), ("b", "aa"), ("d", "zz")])).unwrap();
    // `zz` appears first, so it is community 0; it holds c and d.
    assert_eq!(t.intra_edges, vec![1, 1]);
    assert_eq!(t.degree_sums, vec![2, 2]);
    let t2 = tally_from_edge_list("a b\nb c\n", &pairs(&[("c", "k"), ("a", "j"), ("b", "j")])).unwrap();
    assert_eq!(t2.intra_edges, vec![0, 1]);
    assert_eq!(t2.degree_sums, vec![1, 3]);
}

#[test]
fn degree_sum_is_twice_the_edges() {
    let edges = "a b\nb c\nc a\nc d\nd d\ne f\n";
    let parts = [("a", "0"), ("b", "1"), ("c", "0"), ("d", "2"), ("e", "1"), ("f", "2")];
    let t = tally_from_edge_list(edges, &pairs(&parts)).unwrap();
    // 5 edges and one self-loop
    assert_eq!(t.deg_sum, 12);
    assert_eq!(t.degree_sums.iter().sum::<u128>(), t.deg_sum);
    assert!(t.intra_edges.iter().sum::<u128>() <= t.deg_sum / 2);
}

#[test]
fn assignments_file_parses() {
    let v = parse_assignments("# header\n\n a  x \nb y extra\r\n   # note\nc\tz").unwrap();
    assert_eq!(
        v,
        vec![
            ("a".to_string(), "x".to_string()),
            ("b".to_string(), "y".to_string()),
            ("c".to_string(), "z".to_string()),
        ]
    );
    let e = parse_assignments("a x\n  lonely  \nb y\n").unwrap_err();
    assert_eq!(e.line, "lonely");
    assert_eq!(e.message(), "community line needs `node label`: \"lonely\"");
    // `#` only starts a comment at the start of a line
    let v2 = parse_assignments("a #x\n").unwrap();
    assert_eq!(v2, vec![("a".to_string(), "#x".to_string())]);
}

#[test]
fn comment_after_a_line_changes_nothing() {
    let parts = pairs(&[("a", "0"), ("b", "0"), ("c", "1")]);
    let plain = tally_from_edge_list("a b\nb c\n", &parts).unwrap();
    let commented = tally_from_edge_list("a b#x y\nb c # a c\n", &parts).unwrap();
    assert_eq!(plain.deg_sum, commented.deg_sum);
    assert_eq!(plain.intra_edges, commented.intra_edges);
    assert_eq!(plain.degree_sums, commented.degree_sums);
    assert_eq!(parse_edge_list("a b#x y\n").n(), 2);
}

#[test]
fn renaming_labels_changes_nothing() {
    let edges = "a b\nb c\nc d\nd a\na c\n";
    let t1 = tally_from_edge_list(edges, &pairs(&[("a", "x"), ("b", "y"), ("c", "x"), ("d", "y")])).unwrap();
    let t2 = tally_from_edge_list(edges, &pairs(&[("a", "7"), ("b", "q"), ("c", "7"), ("d", "q")])).unwrap();
    assert_eq!(t1.deg_sum, t2.deg_sum);
    assert_eq!(t1.intra_edges, t2.intra_edges);
    assert_eq!(t1.degree_sums, t2.degree_sums);
    assert_eq!(t1.intra_edges, vec![1, 0]);
}

#[test]
fn messages_quote_names_as_debug_does() {
    let e = parse_assignments("a\"b\n").unwrap_err();
    assert_eq!(e.line, "a\"b");
    assert_eq!(e.message(), "community line needs `node label`: \"a\\\"b\"");
    let err = tally_from_edge_list("x\\y z\n", &pairs(&[("z", "0")])).unwrap_err();
    assert_eq!(
        err.message(),
        "node \"x\\\\y\" is not assigned to any community — not a partition"
    );
}

#[test]
fn concat3_joins_in_order() {
    assert_eq!(concat3("a", "b", "c").as_str(), "abc");
    assert_eq!(concat3("", "\"q\"", "!").as_str(), "\"q\"!");
}

fn fields(g: &Graph) -> (Vec<String>, Vec<Vec<usize>>, Vec<bool>) {
    let n = g.n();
    let names = (0..n).map(|i| g.name(i).clone()).collect();
    let adj = (0..n).map(|i| g.neighbours(i).clone()).collect();
    let loops = (0..n).map(|i| g.has_self_loop(i)).collect();
    (names, adj, loops)
}

#[test]
fn commented_graph_equals_clean_graph_field_for_field() {
    let commented = parse_edge_list("0 1\n1 2#c\n2 3\n0 #x\n");
    let clean = parse_edge_list("0 1\n1 2\n2 3\n");
    let (names, adj, loops) = fields(&commented);
    assert_eq!(names, vec!["0", "1", "2", "3"]);
    assert_eq!(adj, vec![vec![1], vec![0, 2], vec![1, 3], vec![2]]);
    assert_eq!(loops, vec![false, false, false, false]);
    assert_eq!(fields(&commented), fields(&clean));
    for name in ["0", "1", "2", "3"] {
        assert_eq!(commented.node_index(name), clean.node_index(name));
    }
    assert_eq!(commented.node_index("x"), None);
}

#[test]
fn reading_twice_changes_nothing() {
    let s = "b a\nc a\nb b\na c\n";
    assert_eq!(fields(&parse_edge_list(&format!("{s}{s}"))), fields(&parse_edge_list(s)));
    let (names, adj, loops) = fields(&parse_edge_list(s));
    assert_eq!(names, vec!["b", "a", "c"]);
    assert_eq!(adj, vec![vec![1], vec![0, 2], vec![1]]);
    assert_eq!(loops, vec![true, false, false]);
}

#[test]
fn comment_before_crlf_changes_nothing() {
    let plain = parse_edge_list("a b\r\nb c\r\n");
    let commented = parse_edge_list("a b#note\r\nb c\r\n");
    assert_eq!(fields(&plain), fields(&commented));
}
