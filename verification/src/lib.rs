//! Incrementally builds an undirected graph from named-node edge pairs and
//! computes its diameter (the longest shortest-path distance between any two
//! nodes) by a double-sweep farthest-node search.

mod links;
mod names;
mod search;
mod spanning;

pub use links::add_link;
pub use links::attach;
pub use links::collect_servers;
pub use links::link_servers;
pub use links::wf_maps;
pub use names::distinct_names;
pub use names::has_name;
pub use names::intern;
pub use names::lemma_name_id_props;
pub use names::name_id;
pub use search::adjacent;
pub use search::bounded_edges;
pub use search::farthest_spec;
pub use search::get_farthest;
pub use search::is_simple_path;
pub use search::lemma_double_sweep_pair_connected;
pub use search::lemma_farthest_in_range;
pub use search::lemma_farthest_is_reached;
pub use search::lemma_farthest_sees_a_neighbor;
pub use search::lemma_farthest_single_node;
pub use search::lemma_farthest_zero_is_start;
pub use search::reaches;
pub use search::wf_edges;
pub use spanning::grow_adj;
pub use spanning::lemma_repeat_link_adds_no_nodes;
pub use spanning::lemma_self_link_changes_no_entry;
pub use spanning::link_adj;
pub use spanning::link_names;
pub use spanning::link_to_id;
pub use spanning::no_self_loops;
pub use spanning::occ;
pub use spanning::sym_edges;
pub use spanning::SpanningTree;
