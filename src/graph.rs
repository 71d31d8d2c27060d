//! The call graph of one module: display names, ordered call edges, and the
//! defined / imported / exported classification of function ids.

use crate::text::{append_decimal, decimal};
use std::collections::HashSet;
use vstd::prelude::*;

verus! {

broadcast use {vstd::std_specs::hash::group_hash_axioms, vstd::string::group_string_axioms};

/// Parsed call graph data for a single module.
///
/// Function ids are dense: `function_names[id]` is the display name of `id`
/// and `call_graph[id]` its callees in call-site order, duplicates kept.
/// Ids at or past the end of these lists have no name and no callees.
pub struct CallGraphData {
    pub function_names: Vec<String>,
    /// Ordered calls with duplicates preserved
    pub call_graph: Vec<Vec<u32>>,
    /// Ids of the functions the module defines, in order; the start points.
    pub all_function_indices: Vec<u32>,
    pub imported_functions: HashSet<u32>,
    pub exported_functions: HashSet<u32>,
}

/// The mathematical model of a call graph.
pub struct GraphView {
    pub names: Seq<Seq<char>>,
    pub edges: Seq<Seq<u32>>,
    pub defined: Seq<u32>,
    pub imported: Set<u32>,
    pub exported: Set<u32>,
}

impl GraphView {
    /// Every id is a `u32`, each named id has one list of callees, and no
    /// defined id is imported.
    pub open spec fn wf(self) -> bool {
        &&& self.names.len() <= 0x1_0000_0000
        &&& self.edges.len() == self.names.len()
        &&& forall|i: int| 0 <= i < self.defined.len() ==> !self.imported.contains(#[trigger] self.defined[i])
    }

    pub open spec fn has_name(self, id: u32) -> bool {
        id < self.names.len()
    }

    pub open spec fn name(self, id: u32) -> Seq<char> {
        self.names[id as int]
    }

    /// The name shown for `id`: its display name, or the synthesized
    /// default `func_<id>` when it has none.
    pub open spec fn label(self, id: u32) -> Seq<char> {
        if self.has_name(id) {
            self.name(id)
        } else {
            "func_"@ + decimal(id as nat)
        }
    }

    /// The callees of `id` in call-site order; none for an id without an entry.
    pub open spec fn callees(self, id: u32) -> Seq<u32> {
        if id < self.edges.len() {
            self.edges[id as int]
        } else {
            Seq::empty()
        }
    }
}

impl View for CallGraphData {
    type V = GraphView;

    open spec fn view(&self) -> GraphView {
        GraphView {
            names: self.function_names@.map_values(|s: String| s@),
            edges: self.call_graph@.map_values(|v: Vec<u32>| v@),
            defined: self.all_function_indices@,
            imported: self.imported_functions@,
            exported: self.exported_functions@,
        }
    }
}

impl CallGraphData {
    /// The callees of `id`, in call-site order.
    pub fn callees_of(&self, id: u32) -> (r: &[u32])
        ensures
            r@ == self@.callees(id),
    {
        if (id as usize) < self.call_graph.len() {
            self.call_graph[id as usize].as_slice()
        } else {
            &[]
        }
    }

    /// The name shown for `id`.
    pub fn label_of(&self, id: u32) -> (r: String)
        ensures
            r@ == self@.label(id),
    {
        if (id as usize) < self.function_names.len() {
            self.function_names[id as usize].clone()
        } else {
            let mut s = "func_".to_string();
            append_decimal(&mut s, id);
            s
        }
    }

    pub fn is_imported(&self, id: u32) -> (r: bool)
        ensures
            r == self@.imported.contains(id),
    {
        self.imported_functions.contains(&id)
    }

    pub fn is_exported(&self, id: u32) -> (r: bool)
        ensures
            r == self@.exported.contains(id),
    {
        self.exported_functions.contains(&id)
    }
}

} // verus!
