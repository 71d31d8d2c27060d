//! Call trees with bounded loop unrolling, their compact text form, and
//! ordered, alternation-aware pattern matching and pruning.

use crate::chains::{is_start, lemma_sole_start, sole_start};
use crate::graph::{CallGraphData, GraphView};
use crate::text::{contains_str, lemma_u32_set_bounded, sort_strings, sorted_strs, string_views};
use std::collections::HashSet;
use vstd::prelude::*;

verus! {

broadcast use vstd::std_specs::hash::group_hash_axioms;

/// The mathematical model of a call tree: a name and the subtrees of its
/// calls, in call order.
pub struct Tree {
    pub name: Seq<char>,
    pub children: Seq<Tree>,
}

/// A pattern: a sequence of elements, each a list of alternative names.
pub type PatternView = Seq<Seq<Seq<char>>>;

/// A tree node representing a function call and its children
#[derive(Debug)]
pub struct CallNode {
    pub name: String,
    pub children: Vec<CallNode>,
}

impl View for CallNode {
    type V = Tree;

    open spec fn view(&self) -> Tree
        decreases self,
    {
        Tree {
            name: self.name@,
            children: Seq::new(
                self.children@.len(),
                |i: int|
                    if 0 <= i < self.children@.len() {
                        self.children@[i].view()
                    } else {
                        Tree { name: Seq::empty(), children: Seq::empty() }
                    },
            ),
        }
    }
}

/// The compact text of a tree: a bare name without children, else
/// `name{child,child,...}` with the children in stored order.
pub open spec fn render(t: Tree) -> Seq<char>
    decreases t, t.children.len() + 1,
{
    if t.children.len() == 0 {
        t.name
    } else {
        t.name + "{"@ + render_children(t, t.children.len() as int) + "}"@
    }
}

/// The texts of the first `k` children of `t`, joined by commas.
pub open spec fn render_children(t: Tree, k: int) -> Seq<char>
    decreases t, k,
{
    if k <= 0 || k > t.children.len() {
        Seq::empty()
    } else if k == 1 {
        render(t.children[0])
    } else {
        render_children(t, k - 1) + ","@ + render(t.children[k - 1])
    }
}

/// The names of a tree in pre-order: the node, then each child's names in order.
pub open spec fn preorder(t: Tree) -> Seq<Seq<char>>
    decreases t, t.children.len() + 1,
{
    seq![t.name] + preorder_children(t, t.children.len() as int)
}

/// The pre-order names of the first `k` children of `t`, one after the other.
pub open spec fn preorder_children(t: Tree, k: int) -> Seq<Seq<char>>
    decreases t, k,
{
    if k <= 0 || k > t.children.len() {
        Seq::empty()
    } else {
        preorder_children(t, k - 1) + preorder(t.children[k - 1])
    }
}

/// The pattern cursor after scanning `names` left to right: a name advances
/// it by one when the cursor is not at the end and the current element has
/// the name among its alternatives.
pub open spec fn scan(names: Seq<Seq<char>>, pattern: PatternView) -> nat
    decreases names.len(),
{
    if names.len() == 0 {
        0
    } else {
        let c = scan(names.drop_last(), pattern);
        if c < pattern.len() && pattern[c as int].contains(names.last()) {
            c + 1
        } else {
            c
        }
    }
}

/// Whether the tree's pre-order names meet the pattern's elements in order;
/// an empty pattern always matches.
pub open spec fn tree_matches(t: Tree, pattern: PatternView) -> bool {
    pattern.len() == 0 || scan(preorder(t), pattern) == pattern.len()
}

pub open spec fn pattern_view(p: Seq<Vec<String>>) -> PatternView {
    p.map_values(|e: Vec<String>| string_views(e@))
}

impl Clone for CallNode {
    fn clone(&self) -> (r: Self)
        ensures
            r@ == self@,
        decreases self,
    {
        let mut children: Vec<CallNode> = Vec::new();
        let mut i: usize = 0;
        while i < self.children.len()
            invariant
                i <= self.children@.len(),
                children@.len() == i,
                forall|j: int| 0 <= j < i ==> (#[trigger] children@[j])@ == self.children@[j]@,
            decreases self.children@.len() - i,
        {
            let child = self.children[i].clone();
            children.push(child);
            i = i + 1;
        }
        let r = CallNode { name: self.name.clone(), children };
        assert(r@.children =~= self@.children);
        r
    }
}

impl CallNode {
    pub fn new(name: String) -> (r: Self)
        ensures
            r@ == (Tree { name: name@, children: Seq::empty() }),
    {
        let r = CallNode { name, children: Vec::new() };
        assert(r@.children =~= Seq::<Tree>::empty());
        r
    }

    /// Convert the tree to a string in format X{A{C,D},B}
    pub fn to_string(&self) -> (r: String)
        ensures
            r@ == render(self@),
        decreases self,
    {
        proof {
            reveal_strlit("{");
            reveal_strlit("}");
            reveal_strlit(",");
        }
        let ghost t = self@;
        if self.children.len() == 0 {
            return self.name.clone();
        }
        let mut s = self.name.clone();
        s.append("{");
        let mut i: usize = 0;
        while i < self.children.len()
            invariant
                t == self@,
                i <= self.children@.len(),
                i == 0 ==> s@ == self.name@ + "{"@,
                i > 0 ==> s@ == self.name@ + "{"@ + render_children(t, i as int),
            decreases self.children@.len() - i,
        {
            if i > 0 {
                s.append(",");
            }
            let child = self.children[i].to_string();
            s.append(child.as_str());
            assert(t.children[i as int] == self.children@[i as int]@);
            i = i + 1;
        }
        s.append("}");
        s
    }

    /// Extract all names in order (depth-first, pre-order)
    pub fn names_in_order(&self) -> (r: Vec<String>)
        ensures
            string_views(r@) == preorder(self@),
        decreases self,
    {
        let ghost t = self@;
        let mut names: Vec<String> = Vec::new();
        names.push(self.name.clone());
        assert(string_views(names@) =~= seq![t.name]);
        let mut i: usize = 0;
        while i < self.children.len()
            invariant
                t == self@,
                i <= self.children@.len(),
                string_views(names@) == seq![t.name] + preorder_children(t, i as int),
            decreases self.children@.len() - i,
        {
            let sub = self.children[i].names_in_order();
            let mut j: usize = 0;
            let ghost start = string_views(names@);
            while j < sub.len()
                invariant
                    j <= sub@.len(),
                    string_views(names@) == start + string_views(sub@).take(j as int),
                decreases sub@.len() - j,
            {
                let ghost prior = names@;
                names.push(sub[j].clone());
                assert(string_views(names@) =~= string_views(prior).push(sub@[j as int]@));
                assert(string_views(sub@).take(j + 1) =~= string_views(sub@).take(j as int).push(sub@[j as int]@));
                assert(string_views(names@) =~= start + string_views(sub@).take(j + 1));
                j = j + 1;
            }
            assert(string_views(sub@).take(sub@.len() as int) =~= string_views(sub@));
            assert(t.children[i as int] == self.children@[i as int]@);
            assert(seq![t.name] + preorder_children(t, i + 1) =~= (seq![t.name] + preorder_children(t, i as int)) + preorder(t.children[i as int]));
            i = i + 1;
        }
        names
    }
}

/// Check if a call tree matches a path pattern.
/// Each pattern element is a Vec of alternatives.
pub fn matches_path_pattern_tree(tree: &CallNode, pattern: &[Vec<String>]) -> (r: bool)
    ensures
        r == tree_matches(tree@, pattern_view(pattern@)),
{
    if pattern.len() == 0 {
        return true;
    }
    let ghost pv = pattern_view(pattern@);
    let names = tree.names_in_order();
    let ghost nv = string_views(names@);
    let mut pattern_idx: usize = 0;
    let mut i: usize = 0;
    while i < names.len()
        invariant
            pv == pattern_view(pattern@),
            nv == string_views(names@),
            i <= names@.len(),
            pattern_idx == scan(nv.take(i as int), pv),
            pattern_idx <= pattern@.len(),
        decreases names@.len() - i,
    {
        assert(nv.take(i + 1).drop_last() =~= nv.take(i as int));
        if pattern_idx < pattern.len() && contains_str(pattern[pattern_idx].as_slice(), &names[i]) {
            pattern_idx = pattern_idx + 1;
        }
        i = i + 1;
    }
    assert(nv.take(names@.len() as int) =~= nv);
    pattern_idx == pattern.len()
}

/// Pruning of `t` against the pattern from element `at` on: the kept tree,
/// if any, and the cursor after the subtree. A node whose name is among the
/// current element's alternatives consumes it; when that completes the
/// pattern the node is kept alone. Otherwise the children are pruned in
/// order, each going on from where its elder siblings left the cursor, and
/// the node is kept when it matched or some child was kept. Once the
/// pattern is consumed nothing more is kept.
pub open spec fn filter_at(t: Tree, pattern: PatternView, at: int) -> (Option<Tree>, int)
    decreases t, t.children.len() + 1,
{
    if at < 0 || at >= pattern.len() {
        (None, at)
    } else {
        let matched = pattern[at].contains(t.name);
        let after = if matched {
            at + 1
        } else {
            at
        };
        if matched && after == pattern.len() {
            (Some(Tree { name: t.name, children: Seq::empty() }), after)
        } else {
            let (kept, rest) = filter_children(t, pattern, after, t.children.len() as int);
            if matched || kept.len() > 0 {
                (Some(Tree { name: t.name, children: kept }), rest)
            } else {
                (None, rest)
            }
        }
    }
}

/// Pruning of the first `k` children of `t`, the cursor starting at `at`:
/// the kept subtrees in order, and the cursor after them.
pub open spec fn filter_children(t: Tree, pattern: PatternView, at: int, k: int) -> (Seq<Tree>, int)
    decreases t, k,
{
    if k <= 0 || k > t.children.len() {
        (Seq::empty(), at)
    } else {
        let (kept, mid) = filter_children(t, pattern, at, k - 1);
        let (child, rest) = filter_at(t.children[k - 1], pattern, mid);
        (
            match child {
                Some(c) => kept.push(c),
                None => kept,
            },
            rest,
        )
    }
}

pub open spec fn opt_tree(o: Option<CallNode>) -> Option<Tree> {
    match o {
        Some(n) => Some(n@),
        None => None,
    }
}

impl CallNode {
    /// Filter the tree to only include nodes that match the pattern or are on the path to matching nodes.
    /// The pattern must be matched in order across the tree traversal.
    /// Each pattern element is a Vec of alternatives (e.g., ["X", "Y"] means X or Y).
    /// Returns Some(filtered_node) if this subtree contributes to matching the pattern.
    pub fn filter_by_pattern(&self, remaining_pattern: &[Vec<String>]) -> (r: Option<CallNode>)
        ensures
            opt_tree(r) == filter_at(self@, pattern_view(remaining_pattern@), 0).0,
    {
        self.filter_by_pattern_inner(remaining_pattern, 0).0
    }

    /// Pruning from pattern element `at` on; returns the kept node and the
    /// cursor after this subtree.
    fn filter_by_pattern_inner(&self, pattern: &[Vec<String>], at: usize) -> (r: (Option<CallNode>, usize))
        requires
            at <= pattern@.len(),
        ensures
            opt_tree(r.0) == filter_at(self@, pattern_view(pattern@), at as int).0,
            r.1 == filter_at(self@, pattern_view(pattern@), at as int).1,
            at <= r.1 <= pattern@.len(),
        decreases self,
    {
        let ghost pv = pattern_view(pattern@);
        let ghost t = self@;
        if at == pattern.len() {
            return (None, at);
        }
        let matches_current = contains_str(pattern[at].as_slice(), &self.name);
        assert(pv[at as int] == string_views(pattern@[at as int]@));
        let after = if matches_current {
            at + 1
        } else {
            at
        };
        if matches_current && after == pattern.len() {
            let leaf = CallNode::new(self.name.clone());
            return (Some(leaf), after);
        }
        let mut filtered_children: Vec<CallNode> = Vec::new();
        let mut current: usize = after;
        let mut i: usize = 0;
        while i < self.children.len()
            invariant
                t == self@,
                pv == pattern_view(pattern@),
                i <= self.children@.len(),
                after <= current <= pattern@.len(),
                at <= after,
                filtered_children@.map_values(|n: CallNode| n@) == filter_children(t, pv, after as int, i as int).0,
                current == filter_children(t, pv, after as int, i as int).1,
            decreases self.children@.len() - i,
        {
            let ghost prior = filtered_children@;
            let (kept, next) = self.children[i].filter_by_pattern_inner(pattern, current);
            assert(t.children[i as int] == self.children@[i as int]@);
            match kept {
                Some(c) => {
                    filtered_children.push(c);
                    assert(filtered_children@.map_values(|n: CallNode| n@) =~= prior.map_values(|n: CallNode| n@).push(c@));
                },
                None => {},
            }
            current = next;
            i = i + 1;
        }
        if matches_current || filtered_children.len() > 0 {
            let node = CallNode { name: self.name.clone(), children: filtered_children };
            assert(node@.children =~= filtered_children@.map_values(|n: CallNode| n@));
            (Some(node), current)
        } else {
            (None, current)
        }
    }
}

/// Room left for unrolling: every tree step below puts an id into `once`
/// (on the branch once) or `twice` (on the branch twice).
pub open spec fn unroll_measure(once: Set<u32>, twice: Set<u32>) -> int {
    0x2_0000_0000 - once.len() - twice.len()
}

/// The call tree of `id` on a branch whose ancestors hold the ids of `once`
/// at least once and those of `twice` twice. An id met a third time on its
/// own branch is a leaf; otherwise each of its calls, in call-site order,
/// becomes a subtree.
pub open spec fn call_tree(g: GraphView, id: u32, once: Set<u32>, twice: Set<u32>) -> Tree
    decreases unroll_measure(once, twice), 0int,
{
    if twice.contains(id) {
        Tree { name: g.label(id), children: Seq::empty() }
    } else {
        proof {
            lemma_u32_set_bounded(once);
            lemma_u32_set_bounded(twice);
            lemma_u32_set_bounded(once.insert(id));
            lemma_u32_set_bounded(twice.insert(id));
        }
        if once.contains(id) {
            Tree {
                name: g.label(id),
                children: call_subtrees(g, id, once, twice.insert(id), g.callees(id).len() as int),
            }
        } else {
            Tree {
                name: g.label(id),
                children: call_subtrees(g, id, once.insert(id), twice, g.callees(id).len() as int),
            }
        }
    }
}

/// The subtrees of the first `k` calls of `id`, built under `once` and `twice`.
pub open spec fn call_subtrees(g: GraphView, id: u32, once: Set<u32>, twice: Set<u32>, k: int) -> Seq<Tree>
    decreases unroll_measure(once, twice), k,
{
    if k <= 0 || k > g.callees(id).len() {
        Seq::empty()
    } else {
        call_subtrees(g, id, once, twice, k - 1).push(call_tree(g, g.callees(id)[k - 1], once, twice))
    }
}

/// Build a call tree for a function, recursively expanding callees.
/// For loops, we unroll twice by allowing a function to appear at most twice in the path.
fn build_call_tree(g: &CallGraphData, id: u32, once: &mut HashSet<u32>, twice: &mut HashSet<u32>) -> (r: CallNode)
    ensures
        r@ == call_tree(g@, id, old(once)@, old(twice)@),
        final(once)@ == old(once)@,
        final(twice)@ == old(twice)@,
    decreases unroll_measure(old(once)@, old(twice)@),
{
    let ghost once0 = once@;
    let ghost twice0 = twice@;
    let name = g.label_of(id);
    if twice.contains(&id) {
        return CallNode::new(name);
    }
    let second = once.contains(&id);
    if second {
        twice.insert(id);
    } else {
        once.insert(id);
    }
    proof {
        lemma_u32_set_bounded(once0);
        lemma_u32_set_bounded(twice0);
        lemma_u32_set_bounded(once@);
        lemma_u32_set_bounded(twice@);
    }
    let ghost o = once@;
    let ghost tw = twice@;
    let callees = g.callees_of(id);
    let mut children: Vec<CallNode> = Vec::new();
    let mut i: usize = 0;
    while i < callees.len()
        invariant
            i <= callees@.len(),
            callees@ == g@.callees(id),
            once0 == old(once)@,
            twice0 == old(twice)@,
            once@ == o,
            twice@ == tw,
            unroll_measure(o, tw) < unroll_measure(once0, twice0),
            unroll_measure(o, tw) >= 0,
            children@.map_values(|n: CallNode| n@) == call_subtrees(g@, id, o, tw, i as int),
        decreases callees@.len() - i,
    {
        let ghost prior = children@;
        let child = build_call_tree(g, callees[i], once, twice);
        children.push(child);
        assert(children@.map_values(|n: CallNode| n@) =~= prior.map_values(|n: CallNode| n@).push(child@));
        i = i + 1;
    }
    if second {
        twice.remove(&id);
        assert(twice@ =~= twice0);
    } else {
        once.remove(&id);
        assert(once@ =~= once0);
    }
    let node = CallNode { name, children };
    assert(node@.children =~= children@.map_values(|n: CallNode| n@));
    node
}

/// What one start contributes to the summaries: the text of its whole tree
/// without a pattern; with one, the text of the pruned tree when the tree
/// matches and pruning keeps a node, and nothing otherwise.
pub open spec fn summary_of(g: GraphView, id: u32, pattern: Option<PatternView>) -> Seq<Seq<char>> {
    let t = call_tree(g, id, Set::empty(), Set::empty());
    match pattern {
        None => seq![render(t)],
        Some(p) => if tree_matches(t, p) {
            match filter_at(t, p, 0).0 {
                Some(f) => seq![render(f)],
                None => Seq::empty(),
            }
        } else {
            Seq::empty()
        },
    }
}

/// The summaries of the start points among the first `k` defined ids.
pub open spec fn summaries_from_starts(g: GraphView, src: Seq<Seq<char>>, pattern: Option<PatternView>, k: int) -> Seq<Seq<char>>
    decreases k,
{
    if k <= 0 || k > g.defined.len() {
        Seq::empty()
    } else {
        let id = g.defined[k - 1];
        summaries_from_starts(g, src, pattern, k - 1) + if is_start(g, src, false, id) {
            summary_of(g, id, pattern)
        } else {
            Seq::empty()
        }
    }
}

/// Every summary, start points in definition order.
pub open spec fn all_summaries(g: GraphView, src: Seq<Seq<char>>, pattern: Option<PatternView>) -> Seq<Seq<char>> {
    summaries_from_starts(g, src, pattern, g.defined.len() as int)
}

pub open spec fn opt_pattern_view(p: Option<&[Vec<String>]>) -> Option<PatternView> {
    match p {
        Some(s) => Some(pattern_view(s@)),
        None => None,
    }
}

/// Generate sequential call summaries in format X{A{C,D},B}
/// For loops (repeated calls to same function), unroll twice.
/// Pattern elements can contain alternatives separated by |.
///
/// One summary per defined function named in `src_filter` (every defined
/// function when it is empty), sorted.
pub fn generate_call_paths(
    data: &CallGraphData,
    src_filter: &[String],
    path_pattern: Option<&[Vec<String>]>,
) -> (r: Vec<String>)
    ensures
        string_views(r@).to_multiset() == all_summaries(
            data@,
            string_views(src_filter@),
            opt_pattern_view(path_pattern),
        ).to_multiset(),
        sorted_strs(string_views(r@)),
{
    let ghost src_v = string_views(src_filter@);
    let ghost pat_v = opt_pattern_view(path_pattern);
    let mut results: Vec<String> = Vec::new();
    let mut k: usize = 0;
    while k < data.all_function_indices.len()
        invariant
            k <= data@.defined.len(),
            src_v == string_views(src_filter@),
            pat_v == opt_pattern_view(path_pattern),
            string_views(results@) == summaries_from_starts(data@, src_v, pat_v, k as int),
        decreases data@.defined.len() - k,
    {
        let id = data.all_function_indices[k];
        let selected = src_filter.len() == 0 || ((id as usize) < data.function_names.len() && contains_str(
            src_filter,
            &data.function_names[id as usize],
        ));
        let ghost prior = string_views(results@);
        if selected {
            let mut once: HashSet<u32> = HashSet::new();
            let mut twice: HashSet<u32> = HashSet::new();
            assert(once@ =~= Set::<u32>::empty());
            assert(twice@ =~= Set::<u32>::empty());
            let tree = build_call_tree(data, id, &mut once, &mut twice);
            match path_pattern {
                Some(pattern) => {
                    if matches_path_pattern_tree(&tree, pattern) {
                        match tree.filter_by_pattern(pattern) {
                            Some(filtered) => {
                                results.push(filtered.to_string());
                            },
                            None => {},
                        }
                    }
                },
                None => {
                    results.push(tree.to_string());
                },
            }
        }
        let ghost added: Seq<Seq<char>> = if is_start(data@, src_v, false, id) {
            summary_of(data@, id, pat_v)
        } else {
            Seq::empty()
        };
        assert(string_views(results@) =~= prior + added);
        k = k + 1;
    }
    sort_strings(&mut results);
    results
}

/// A function that calls only itself unrolls twice: the root, two expanded
/// repeats, and a third occurrence left unexpanded, rendered `f{f{f}}`.
pub proof fn lemma_self_cycle_unrolls_twice(g: GraphView, f: u32)
    requires
        g.callees(f) == seq![f],
    ensures
        ({
            let l = g.label(f);
            let leaf = Tree { name: l, children: Seq::empty() };
            let mid = Tree { name: l, children: seq![leaf] };
            &&& call_tree(g, f, Set::empty(), Set::empty()) == Tree { name: l, children: seq![mid] }
            &&& render(call_tree(g, f, Set::empty(), Set::empty())) == l + "{"@ + l + "{"@ + l + "}"@ + "}"@
        }),
{
    let l = g.label(f);
    let leaf = Tree { name: l, children: Seq::empty() };
    let mid = Tree { name: l, children: seq![leaf] };
    let top = Tree { name: l, children: seq![mid] };
    let e = Set::<u32>::empty();
    let s = e.insert(f);
    assert(call_tree(g, f, s, s) == leaf);
    assert(call_subtrees(g, f, s, s, 0) =~= Seq::<Tree>::empty());
    assert(call_subtrees(g, f, s, s, 1) =~= seq![leaf]);
    assert(call_tree(g, f, s, e) == mid);
    assert(call_subtrees(g, f, s, e, 0) =~= Seq::<Tree>::empty());
    assert(call_subtrees(g, f, s, e, 1) =~= seq![mid]);
    assert(call_tree(g, f, e, e) == top);
    assert(render(leaf) == l);
    assert(render_children(mid, 1) == l);
    assert(render(mid) == l + "{"@ + l + "}"@);
    assert(render_children(top, 1) == render(mid));
    assert(render(top) == l + "{"@ + l + "{"@ + l + "}"@ + "}"@) by {
        assert(l + "{"@ + (l + "{"@ + l + "}"@) + "}"@ =~= l + "{"@ + l + "{"@ + l + "}"@ + "}"@);
    }
}

proof fn lemma_scan_single(names: Seq<Seq<char>>, e: Seq<Seq<char>>)
    ensures
        scan(names, seq![e]) == 1 <==> exists|i: int| 0 <= i < names.len() && e.contains(#[trigger] names[i]),
        scan(names, seq![e]) <= 1,
    decreases names.len(),
{
    if names.len() > 0 {
        let init = names.drop_last();
        lemma_scan_single(init, e);
        if exists|i: int| 0 <= i < init.len() && e.contains(#[trigger] init[i]) {
            let i = choose|i: int| 0 <= i < init.len() && e.contains(#[trigger] init[i]);
            assert(names[i] == init[i]);
        }
        if exists|i: int| 0 <= i < names.len() && e.contains(#[trigger] names[i]) {
            let i = choose|i: int| 0 <= i < names.len() && e.contains(#[trigger] names[i]);
            if i < init.len() {
                assert(init[i] == names[i]);
            }
        }
    }
}

/// An element with alternatives is met by any one of them: a tree matches a
/// one-element pattern exactly when one of its names is among the element's
/// alternatives.
pub proof fn lemma_alternatives_match_any(t: Tree, e: Seq<Seq<char>>)
    ensures
        tree_matches(t, seq![e]) <==> exists|i: int|
            0 <= i < preorder(t).len() && e.contains(#[trigger] preorder(t)[i]),
{
    lemma_scan_single(preorder(t), e);
}

/// Some name of `names` is among the alternatives of `e`.
pub open spec fn hits(names: Seq<Seq<char>>, e: Seq<Seq<char>>) -> bool {
    exists|i: int| 0 <= i < names.len() && e.contains(#[trigger] names[i])
}

proof fn lemma_hits_concat(a: Seq<Seq<char>>, b: Seq<Seq<char>>, e: Seq<Seq<char>>)
    ensures
        hits(a + b, e) <==> hits(a, e) || hits(b, e),
{
    if hits(a + b, e) {
        let i = choose|i: int| 0 <= i < (a + b).len() && e.contains(#[trigger] (a + b)[i]);
        if i < a.len() {
            assert(a[i] == (a + b)[i]);
        } else {
            assert(b[i - a.len()] == (a + b)[i]);
        }
    }
    if hits(a, e) {
        let i = choose|i: int| 0 <= i < a.len() && e.contains(#[trigger] a[i]);
        assert((a + b)[i] == a[i]);
    }
    if hits(b, e) {
        let i = choose|i: int| 0 <= i < b.len() && e.contains(#[trigger] b[i]);
        assert((a + b)[a.len() + i] == b[i]);
    }
}

proof fn lemma_prune_single_at(t: Tree, e: Seq<Seq<char>>)
    ensures
        filter_at(t, seq![e], 0).1 == (if hits(preorder(t), e) { 1int } else { 0int }),
        filter_at(t, seq![e], 0).0 is Some <==> hits(preorder(t), e),
    decreases t, t.children.len() + 1,
{
    let p = seq![e];
    lemma_hits_concat(seq![t.name], preorder_children(t, t.children.len() as int), e);
    assert(hits(seq![t.name], e) <==> e.contains(t.name)) by {
        if e.contains(t.name) {
            assert(seq![t.name][0] == t.name);
        }
    }
    if !p[0].contains(t.name) {
        lemma_prune_single_children(t, e, t.children.len() as int);
    }
}

proof fn lemma_prune_single_children(t: Tree, e: Seq<Seq<char>>, k: int)
    requires
        0 <= k <= t.children.len(),
    ensures
        filter_children(t, seq![e], 0, k).1 == (if hits(preorder_children(t, k), e) { 1int } else { 0int }),
        filter_children(t, seq![e], 0, k).0.len() > 0 <==> hits(preorder_children(t, k), e),
    decreases t, k,
{
    if k > 0 {
        lemma_prune_single_children(t, e, k - 1);
        lemma_hits_concat(preorder_children(t, k - 1), preorder(t.children[k - 1]), e);
        if hits(preorder_children(t, k - 1), e) {
            assert(filter_at(t.children[k - 1], seq![e], 1) == (None::<Tree>, 1int));
        } else {
            lemma_prune_single_at(t.children[k - 1], e);
        }
    }
}

/// With a one-element pattern, pruning keeps a node exactly when the tree
/// matches, that is when any of the element's alternatives occurs in it.
pub proof fn lemma_single_element_pruning(t: Tree, e: Seq<Seq<char>>)
    ensures
        filter_at(t, seq![e], 0).0 is Some <==> tree_matches(t, seq![e]),
{
    lemma_prune_single_at(t, e);
    lemma_alternatives_match_any(t, e);
}

/// Where the first name among the alternatives of `e` stands in `names`.
#[verifier::opaque]
pub open spec fn first_hit(names: Seq<Seq<char>>, e: Seq<Seq<char>>) -> int {
    choose|i: int|
        0 <= i < names.len() && e.contains(names[i]) && forall|j: int| 0 <= j < i ==> !e.contains(#[trigger] names[j])
}

proof fn lemma_first_hit_at(names: Seq<Seq<char>>, e: Seq<Seq<char>>, i: int)
    requires
        0 <= i < names.len(),
        e.contains(names[i]),
        forall|j: int| 0 <= j < i ==> !e.contains(#[trigger] names[j]),
    ensures
        first_hit(names, e) == i,
{
    reveal(first_hit);
    let k = first_hit(names, e);
    assert(0 <= k < names.len() && e.contains(names[k]) && forall|j: int|
        0 <= j < k ==> !e.contains(#[trigger] names[j]));
    if k < i {
        assert(!e.contains(names[k]));
    } else if k > i {
        assert(!e.contains(names[i]));
    }
}

proof fn lemma_first_hit_exists(names: Seq<Seq<char>>, e: Seq<Seq<char>>)
    requires
        hits(names, e),
    ensures
        0 <= first_hit(names, e) < names.len(),
        e.contains(names[first_hit(names, e)]),
        forall|j: int| 0 <= j < first_hit(names, e) ==> !e.contains(#[trigger] names[j]),
    decreases names.len(),
{
    if e.contains(names[0]) {
        lemma_first_hit_at(names, e, 0);
    } else {
        let rest = names.drop_first();
        assert(hits(rest, e)) by {
            let i = choose|i: int| 0 <= i < names.len() && e.contains(#[trigger] names[i]);
            assert(rest[i - 1] == names[i]);
        }
        lemma_first_hit_exists(rest, e);
        let k = first_hit(rest, e);
        assert forall|j: int| 0 <= j < k + 1 implies !e.contains(#[trigger] names[j]) by {
            if j > 0 {
                assert(names[j] == rest[j - 1]);
            }
        }
        assert(names[k + 1] == rest[k]);
        lemma_first_hit_at(names, e, k + 1);
    }
}

proof fn lemma_first_hit_concat(a: Seq<Seq<char>>, b: Seq<Seq<char>>, e: Seq<Seq<char>>)
    requires
        hits(a + b, e),
    ensures
        (a + b)[first_hit(a + b, e)] == if hits(a, e) {
            a[first_hit(a, e)]
        } else {
            b[first_hit(b, e)]
        },
{
    lemma_hits_concat(a, b, e);
    if hits(a, e) {
        lemma_first_hit_exists(a, e);
        let k = first_hit(a, e);
        assert forall|j: int| 0 <= j < k implies !e.contains(#[trigger] (a + b)[j]) by {
            assert((a + b)[j] == a[j]);
        }
        assert((a + b)[k] == a[k]);
        lemma_first_hit_at(a + b, e, k);
    } else {
        lemma_first_hit_exists(b, e);
        let k = first_hit(b, e);
        assert forall|j: int| 0 <= j < a.len() + k implies !e.contains(#[trigger] (a + b)[j]) by {
            if j < a.len() {
                assert((a + b)[j] == a[j]);
                if e.contains(a[j]) {
                    assert(hits(a, e));
                }
            } else {
                assert((a + b)[j] == b[j - a.len()]);
            }
        }
        assert((a + b)[a.len() + k] == b[k]);
        lemma_first_hit_at(a + b, e, a.len() + k);
    }
}

proof fn lemma_preorder_nonempty(t: Tree)
    ensures
        preorder(t).len() >= 1,
        preorder(t)[0] == t.name,
{
}

proof fn lemma_first_kept_at(t: Tree, e: Seq<Seq<char>>)
    requires
        hits(preorder(t), e),
    ensures
        filter_at(t, seq![e], 0).0 matches Some(q) && preorder(q).last() == preorder(t)[first_hit(
            preorder(t),
            e,
        )],
    decreases t, t.children.len() + 1,
{
    let n = t.children.len() as int;
    lemma_prune_single_at(t, e);
    lemma_preorder_nonempty(t);
    if e.contains(t.name) {
        lemma_first_hit_at(preorder(t), e, 0);
        let q = Tree { name: t.name, children: Seq::empty() };
        assert(preorder_children(q, 0) =~= Seq::<Seq<char>>::empty());
        assert(preorder(q) =~= seq![t.name]);
    } else {
        lemma_hits_concat(seq![t.name], preorder_children(t, n), e);
        assert(!hits(seq![t.name], e)) by {
            if hits(seq![t.name], e) {
                let i = choose|i: int| 0 <= i < 1 && e.contains(#[trigger] seq![t.name][i]);
            }
        }
        lemma_first_hit_concat(seq![t.name], preorder_children(t, n), e);
        lemma_first_kept_children(t, e, n);
        let (kept, rest) = filter_children(t, seq![e], 0, n);
        let q = Tree { name: t.name, children: kept };
        assert(preorder_children(q, 0) =~= Seq::<Seq<char>>::empty());
        assert(preorder_children(q, 1) == preorder(kept[0]));
        lemma_preorder_nonempty(kept[0]);
    }
}

proof fn lemma_first_kept_children(t: Tree, e: Seq<Seq<char>>, k: int)
    requires
        0 <= k <= t.children.len(),
        hits(preorder_children(t, k), e),
    ensures
        filter_children(t, seq![e], 0, k).0.len() == 1,
        preorder(filter_children(t, seq![e], 0, k).0[0]).last() == preorder_children(t, k)[first_hit(
            preorder_children(t, k),
            e,
        )],
    decreases t, k,
{
    if k == 0 {
        assert(preorder_children(t, 0).len() == 0);
        assert(!hits(preorder_children(t, 0), e));
    } else {
        let p = seq![e];
        let prev = preorder_children(t, k - 1);
        let child = t.children[k - 1];
        assert(preorder_children(t, k) == prev + preorder(child));
        lemma_hits_concat(prev, preorder(child), e);
        lemma_first_hit_concat(prev, preorder(child), e);
        lemma_prune_single_children(t, e, k - 1);
        let (kept0, mid) = filter_children(t, p, 0, k - 1);
        let (res, rest) = filter_at(child, p, mid);
        assert(filter_children(t, p, 0, k) == (
            match res {
                Some(c) => kept0.push(c),
                None => kept0,
            },
            rest,
        ));
        if hits(prev, e) {
            lemma_first_kept_children(t, e, k - 1);
            assert(mid == 1);
            assert(res is None);
        } else {
            assert(mid == 0);
            assert(kept0.len() == 0);
            lemma_first_kept_at(child, e);
            let q = res->Some_0;
            assert(kept0.push(q)[0] == q);
        }
    }
}

/// With a one-element pattern, the first of the element's alternatives met
/// in pre-order wins: pruning keeps the branch down to that node, which ends
/// the pruned tree's pre-order.
pub proof fn lemma_first_alternative_wins(t: Tree, e: Seq<Seq<char>>)
    requires
        tree_matches(t, seq![e]),
    ensures
        filter_at(t, seq![e], 0).0 matches Some(q) && preorder(q).last() == preorder(t)[first_hit(
            preorder(t),
            e,
        )],
{
    lemma_alternatives_match_any(t, e);
    lemma_first_kept_at(t, e);
}

proof fn lemma_summaries_sole_start(g: GraphView, s: u32, pattern: Option<PatternView>, k: int)
    requires
        sole_start(g, s),
        0 <= k <= g.defined.len(),
    ensures
        summaries_from_starts(g, seq![g.name(s)], pattern, k) == if exists|j: int|
            0 <= j < k && g.defined[j] == s {
            summary_of(g, s, pattern)
        } else {
            Seq::empty()
        },
    decreases k,
{
    if k > 0 {
        lemma_summaries_sole_start(g, s, pattern, k - 1);
        lemma_sole_start(g, s, k - 1);
        let id = g.defined[k - 1];
        if id == s {
            assert(!exists|j: int| 0 <= j < k - 1 && g.defined[j] == s) by {
                if exists|j: int| 0 <= j < k - 1 && g.defined[j] == s {
                    let j = choose|j: int| 0 <= j < k - 1 && g.defined[j] == s;
                    assert(g.defined[j] == g.defined[k - 1]);
                }
            }
            assert(Seq::<Seq<char>>::empty() + summary_of(g, s, pattern) =~= summary_of(g, s, pattern));
        } else {
            assert(summaries_from_starts(g, seq![g.name(s)], pattern, k) =~= summaries_from_starts(
                g,
                seq![g.name(s)],
                pattern,
                k - 1,
            ));
            if exists|j: int| 0 <= j < k && g.defined[j] == s {
                let j = choose|j: int| 0 <= j < k && g.defined[j] == s;
                assert(j < k - 1);
            }
        }
    }
}

/// A function `f` that calls only itself, named alone in the source filter
/// with no pattern, yields the one summary `f{f{f}}`: the root, two unrolled
/// repeats, and a third occurrence left unexpanded. `r` stands for the
/// returned strings: any list with the multiset that `generate_call_paths`
/// promises.
pub proof fn lemma_self_cycle_result(g: GraphView, f: u32, r: Seq<Seq<char>>)
    requires
        sole_start(g, f),
        g.callees(f) == seq![f],
        r.to_multiset() == all_summaries(g, seq![g.name(f)], None).to_multiset(),
    ensures
        r == seq![g.name(f) + "{"@ + g.name(f) + "{"@ + g.name(f) + "}"@ + "}"@],
{
    broadcast use vstd::seq_lib::group_to_multiset_ensures;

    lemma_summaries_sole_start(g, f, None, g.defined.len() as int);
    lemma_self_cycle_unrolls_twice(g, f);
    let x = g.name(f) + "{"@ + g.name(f) + "{"@ + g.name(f) + "}"@ + "}"@;
    let expected = seq![x];
    let j = choose|j: int| 0 <= j < g.defined.len() && g.defined[j] == f;
    assert(all_summaries(g, seq![g.name(f)], None) == expected);
    assert(r.len() == r.to_multiset().len());
    assert(expected.len() == expected.to_multiset().len());
    assert(r.len() == 1);
    assert(r.to_multiset().count(x) > 0) by {
        assert(expected.contains(x)) by {
            assert(expected[0] == x);
        }
    }
    assert(r.contains(x));
    assert(r =~= expected);
}

/// Where the first child of `t` whose subtree holds a name among `e` stands.
#[verifier::opaque]
pub open spec fn first_hit_child(t: Tree, e: Seq<Seq<char>>) -> int {
    choose|j: int|
        0 <= j < t.children.len() && hits(preorder(t.children[j]), e) && forall|i: int|
            0 <= i < j ==> !hits(preorder(#[trigger] t.children[i]), e)
}

/// The branch of `t` down to its first node in pre-order whose name is
/// among `e`: each node on the way keeps only the child that leads on, and
/// that node keeps none.
pub open spec fn first_hit_branch(t: Tree, e: Seq<Seq<char>>) -> Tree
    decreases t,
{
    if e.contains(t.name) {
        Tree { name: t.name, children: Seq::empty() }
    } else {
        let j = first_hit_child(t, e);
        if 0 <= j < t.children.len() {
            Tree { name: t.name, children: seq![first_hit_branch(t.children[j], e)] }
        } else {
            Tree { name: t.name, children: Seq::empty() }
        }
    }
}

proof fn lemma_first_hit_child_at(t: Tree, e: Seq<Seq<char>>, j: int)
    requires
        0 <= j < t.children.len(),
        hits(preorder(t.children[j]), e),
        forall|i: int| 0 <= i < j ==> !hits(preorder(#[trigger] t.children[i]), e),
    ensures
        first_hit_child(t, e) == j,
{
    reveal(first_hit_child);
    let k = first_hit_child(t, e);
    assert(0 <= k < t.children.len() && hits(preorder(t.children[k]), e) && forall|i: int|
        0 <= i < k ==> !hits(preorder(#[trigger] t.children[i]), e));
    if k < j {
        assert(!hits(preorder(t.children[k]), e));
    } else if k > j {
        assert(!hits(preorder(t.children[j]), e));
    }
}

proof fn lemma_hits_children(t: Tree, e: Seq<Seq<char>>, k: int)
    requires
        0 <= k <= t.children.len(),
    ensures
        hits(preorder_children(t, k), e) <==> exists|i: int|
            0 <= i < k && hits(preorder(#[trigger] t.children[i]), e),
    decreases k,
{
    if k == 0 {
        assert(preorder_children(t, 0).len() == 0);
    } else {
        lemma_hits_children(t, e, k - 1);
        lemma_hits_concat(preorder_children(t, k - 1), preorder(t.children[k - 1]), e);
        if exists|i: int| 0 <= i < k && hits(preorder(#[trigger] t.children[i]), e) {
            let i = choose|i: int| 0 <= i < k && hits(preorder(#[trigger] t.children[i]), e);
            if i < k - 1 {
                assert(exists|i: int| 0 <= i < k - 1 && hits(preorder(#[trigger] t.children[i]), e));
            }
        }
    }
}

proof fn lemma_branch_at(t: Tree, e: Seq<Seq<char>>)
    requires
        hits(preorder(t), e),
    ensures
        filter_at(t, seq![e], 0).0 == Some(first_hit_branch(t, e)),
    decreases t, t.children.len() + 1,
{
    let n = t.children.len() as int;
    if !e.contains(t.name) {
        lemma_hits_concat(seq![t.name], preorder_children(t, n), e);
        assert(!hits(seq![t.name], e)) by {
            if hits(seq![t.name], e) {
                let i = choose|i: int| 0 <= i < 1 && e.contains(#[trigger] seq![t.name][i]);
            }
        }
        lemma_branch_children(t, e, n);
    }
}

proof fn lemma_branch_children(t: Tree, e: Seq<Seq<char>>, k: int)
    requires
        0 <= k <= t.children.len(),
        hits(preorder_children(t, k), e),
    ensures
        0 <= first_hit_child(t, e) < k,
        filter_children(t, seq![e], 0, k).0 == seq![first_hit_branch(t.children[first_hit_child(t, e)], e)],
    decreases t, k,
{
    if k == 0 {
        assert(preorder_children(t, 0).len() == 0);
        assert(!hits(preorder_children(t, 0), e));
    } else {
        let p = seq![e];
        let prev = preorder_children(t, k - 1);
        let child = t.children[k - 1];
        assert(preorder_children(t, k) == prev + preorder(child));
        lemma_hits_concat(prev, preorder(child), e);
        lemma_prune_single_children(t, e, k - 1);
        let (kept0, mid) = filter_children(t, p, 0, k - 1);
        let (res, rest) = filter_at(child, p, mid);
        assert(filter_children(t, p, 0, k) == (
            match res {
                Some(c) => kept0.push(c),
                None => kept0,
            },
            rest,
        ));
        if hits(prev, e) {
            lemma_branch_children(t, e, k - 1);
            assert(mid == 1);
            assert(res is None);
        } else {
            assert(mid == 0);
            assert(kept0.len() == 0);
            lemma_hits_children(t, e, k - 1);
            assert forall|i: int| 0 <= i < k - 1 implies !hits(preorder(#[trigger] t.children[i]), e) by {
                if hits(preorder(t.children[i]), e) {
                    assert(exists|i: int| 0 <= i < k - 1 && hits(preorder(#[trigger] t.children[i]), e));
                }
            }
            lemma_first_hit_child_at(t, e, k - 1);
            lemma_branch_at(child, e);
            assert(kept0.push(first_hit_branch(child, e)) =~= seq![first_hit_branch(child, e)]);
        }
    }
}

/// With a one-element pattern, the first of the element's alternatives met
/// in pre-order wins, whichever alternative it is: pruning a matching tree
/// yields exactly the branch down to that node, each ancestor keeping only
/// the child on the way and the node itself childless.
pub proof fn lemma_first_alternative_branch(t: Tree, e: Seq<Seq<char>>)
    requires
        tree_matches(t, seq![e]),
    ensures
        filter_at(t, seq![e], 0).0 == Some(first_hit_branch(t, e)),
{
    lemma_alternatives_match_any(t, e);
    lemma_branch_at(t, e);
}

} // verus!
