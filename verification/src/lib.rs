//! Exact prime counting building blocks: prime tables, leaf sums of the
//! Gourdon/Lehmer decompositions, and the work dispensers that split them.
pub mod primality;
pub mod roots;
pub mod intmath;
pub mod pi_table;
pub mod sampled_index;
pub mod magic_reciprocal;
pub mod picache;
pub mod leaf_sums;
pub mod ac_hyperbola;
pub mod ac_hyperbola_picache;
pub mod b_term;
pub mod b_term_parallel;
pub mod b_monotone;
pub mod delta_prime_stream;
pub mod b_walker;
pub mod assembly;
pub mod a_term;
pub mod mertens_struct;
pub mod arena25;
pub mod ac_parallel;
pub mod ac_parallel_v2;
pub mod a_window;
pub mod threshold_count;
pub mod segmented_pi;
pub mod ac_monotone;
pub mod ac_clustered;
pub mod ac_hyperbola_ilp4;
pub mod sigma_l1;
pub mod census;
pub mod anchors;
pub mod phi;
pub mod p2_sweep;
pub mod p3;
pub mod factor_table;
pub mod ac_term;
pub mod asymmetric_handoff;
pub mod asymmetric_handoff_v2;
pub mod asymmetric_handoff_v3;
pub mod asymmetric_handoff_v4;
pub mod marathon;
