# rsomics-modularity

Newman-Girvan modularity `Q` of a graph partition, undirected and unweighted,
with its integer core verified by Verus.

`Q = sum_c [ L_c / m - gamma * k_c^2 / deg_sum^2 ]`, where `L_c` is the number
of intra-community edges of community `c`, `k_c` the degree sum of its nodes,
`deg_sum` the degree sum of the graph and `m = deg_sum / 2`.

Layout:

- `src/text.rs`: whitespace, words and line ends, over characters.
- `src/edges.rs`: the edge-list format (`u v` per line, `#` comments).
- `src/graph.rs`: the graph, its mathematical model and `parse_edge_list`.
- `src/partition.rs`: community ids and the partition check.
- `src/tally.rs`: the per-community tallies `L_c`, `k_c` and `deg_sum`.
- `src/assignments.rs`: the community file (`node label` per line).
- `src/laws.rs`: what holds of every tally.
- `app/main.rs`: the command line, file reading and the floating-point sum.
