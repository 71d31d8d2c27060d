//! Static call-structure analysis of WebAssembly modules: call-chain
//! enumeration with recursion inhibition, and bounded-unrolling call trees
//! with ordered, alternation-aware pattern pruning.

mod chains;
mod cli;
mod decode;
mod graph;
mod parsing;
mod paths;
mod text;

pub use chains::{
    all_chains, chain_text, chain_texts, chains_at, enumerate_call_chains, lemma_acyclic_chain_count,
    lemma_acyclic_result_count, lemma_chains_never_repeat, lemma_imports_never_alone,
    lemma_leaves_only_needs_imports, lemma_sole_start, sole_start,
};
pub use cli::{
    bool_from_lowercase, output_line, parse_bool_arg, parse_path_pattern, run_failed, show_filename,
};
pub use decode::{
    build_call_graph, facts_of, parse_wasm_module, payloads_of, read_module_facts, DecodeError, FactsView,
    CallSite, ItemKind, ModuleFacts, PayloadView,
};
pub use graph::{CallGraphData, GraphView};
pub use parsing::{
    apply_implicit_calls, build_env_symbol_map, parse_implicit_calls, EnvConfig, EnvFunction, EnvModule,
    NameTable, TableView,
};
pub use paths::{
    first_hit_branch, generate_call_paths, lemma_alternatives_match_any, lemma_first_alternative_branch,
    lemma_first_alternative_wins, lemma_self_cycle_result, lemma_self_cycle_unrolls_twice,
    lemma_single_element_pruning, matches_path_pattern_tree, CallNode, PatternView, Tree,
};
pub use text::{join, sorted_strs, str_le, string_views};
