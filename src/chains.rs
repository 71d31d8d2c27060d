//! Enumeration of every call chain reachable from the chosen start points,
//! with recursion inhibited: no chain visits a function twice.

use crate::graph::{CallGraphData, GraphView};
use crate::text::{contains_str, join, lemma_u32_set_bounded, sort_strings, sorted_strs, string_views};
use vstd::prelude::*;

verus! {

/// How far a path is from holding every `u32`; each step of a chain lowers it.
pub open spec fn chain_measure(path: Seq<u32>) -> int {
    0x1_0000_0000 - path.to_set().len()
}

/// Whether the chain `path` is reported: it ends at one of `dst` (when any is
/// given), and at an import in leaves-only mode.
pub open spec fn emits(g: GraphView, dst: Seq<Seq<char>>, leaves_only: bool, path: Seq<u32>) -> bool {
    &&& dst.len() == 0 || dst.contains(g.label(path.last()))
    &&& !leaves_only || g.imported.contains(path.last())
}

/// The reported chains that extend `path` (itself included), in depth-first
/// order: `path` first, then what each callee of its last id adds, in
/// call-site order, skipping callees already on `path`.
pub open spec fn chains_at(g: GraphView, dst: Seq<Seq<char>>, leaves_only: bool, path: Seq<u32>) -> Seq<Seq<u32>>
    decreases chain_measure(path), g.callees(path.last()).len() + 1,
{
    (if emits(g, dst, leaves_only, path) {
        seq![path]
    } else {
        Seq::empty()
    }) + chains_below(g, dst, leaves_only, path, g.callees(path.last()).len() as int)
}

/// What the first `k` callees of the last id of `path` add to `chains_at`.
pub open spec fn chains_below(
    g: GraphView,
    dst: Seq<Seq<char>>,
    leaves_only: bool,
    path: Seq<u32>,
    k: int,
) -> Seq<Seq<u32>>
    decreases chain_measure(path), k,
{
    if k <= 0 || k > g.callees(path.last()).len() {
        Seq::empty()
    } else {
        let c = g.callees(path.last())[k - 1];
        chains_below(g, dst, leaves_only, path, k - 1) + if path.contains(c) {
            Seq::empty()
        } else {
            proof {
                lemma_push_fresh(path, c);
            }
            chains_at(g, dst, leaves_only, path.push(c))
        }
    }
}

/// Whether `id` is a start point: exported in leaves-only mode, and named in
/// `src` when any name is given.
pub open spec fn is_start(g: GraphView, src: Seq<Seq<char>>, leaves_only: bool, id: u32) -> bool {
    &&& !leaves_only || g.exported.contains(id)
    &&& src.len() == 0 || (g.has_name(id) && src.contains(g.name(id)))
}

/// The reported chains from the start points among the first `k` defined ids.
pub open spec fn chains_from_starts(
    g: GraphView,
    src: Seq<Seq<char>>,
    dst: Seq<Seq<char>>,
    leaves_only: bool,
    k: int,
) -> Seq<Seq<u32>>
    decreases k,
{
    if k <= 0 || k > g.defined.len() {
        Seq::empty()
    } else {
        let id = g.defined[k - 1];
        chains_from_starts(g, src, dst, leaves_only, k - 1) + if is_start(g, src, leaves_only, id) {
            chains_at(g, dst, leaves_only, seq![id])
        } else {
            Seq::empty()
        }
    }
}

/// Every reported chain, start points in definition order.
pub open spec fn all_chains(g: GraphView, src: Seq<Seq<char>>, dst: Seq<Seq<char>>, leaves_only: bool) -> Seq<Seq<u32>> {
    chains_from_starts(g, src, dst, leaves_only, g.defined.len() as int)
}

/// The text of a chain: its names joined by commas, or in leaves-only mode
/// only the first and the last.
pub open spec fn chain_text(g: GraphView, leaves_only: bool, path: Seq<u32>) -> Seq<char> {
    if leaves_only && path.len() > 1 {
        g.label(path[0]) + ","@ + g.label(path.last())
    } else {
        join(path.map_values(|id: u32| g.label(id)), ","@)
    }
}

pub open spec fn chain_texts(g: GraphView, leaves_only: bool, paths: Seq<Seq<u32>>) -> Seq<Seq<char>> {
    paths.map_values(|p: Seq<u32>| chain_text(g, leaves_only, p))
}

/// Adding an id that is not on a path lowers its measure by one, which stays
/// non-negative.
pub proof fn lemma_push_fresh(path: Seq<u32>, c: u32)
    requires
        !path.contains(c),
    ensures
        chain_measure(path.push(c)) == chain_measure(path) - 1,
        chain_measure(path.push(c)) >= 0,
{
    path.lemma_push_to_set_commute(c);
    vstd::seq_lib::seq_to_set_is_finite(path);
    lemma_u32_set_bounded(path.push(c).to_set());
    lemma_u32_set_bounded(path.to_set());
}

proof fn lemma_measure_nonneg(path: Seq<u32>)
    ensures
        chain_measure(path) >= 0,
{
    lemma_u32_set_bounded(path.to_set());
}

fn contains_id(v: &Vec<u32>, x: u32) -> (r: bool)
    ensures
        r == v@.contains(x),
{
    let mut i: usize = 0;
    while i < v.len()
        invariant
            i <= v@.len(),
            forall|j: int| 0 <= j < i ==> v@[j] != x,
        decreases v@.len() - i,
    {
        if v[i] == x {
            return true;
        }
        i = i + 1;
    }
    false
}

fn chain_string(g: &CallGraphData, path: &Vec<u32>, leaves_only: bool) -> (r: String)
    requires
        path@.len() > 0,
    ensures
        r@ == chain_text(g@, leaves_only, path@),
{
    proof {
        reveal_strlit(",");
    }
    let n = path.len();
    if leaves_only && n > 1 {
        let mut s = g.label_of(path[0]);
        s.append(",");
        let last = g.label_of(path[n - 1]);
        s.append(last.as_str());
        return s;
    }
    let ghost labels = path@.map_values(|id: u32| g@.label(id));
    let mut s = g.label_of(path[0]);
    let mut i: usize = 1;
    assert(labels.take(1) =~= seq![labels[0]]);
    while i < n
        invariant
            1 <= i <= n,
            n == path@.len(),
            labels == path@.map_values(|id: u32| g@.label(id)),
            s@ == join(labels.take(i as int), ","@),
        decreases n - i,
    {
        s.append(",");
        let next = g.label_of(path[i]);
        s.append(next.as_str());
        assert(labels.take(i + 1).drop_last() =~= labels.take(i as int));
        i = i + 1;
    }
    assert(labels.take(n as int) =~= labels);
    s
}

/// Depth-first walk below `path` extended by `func_idx`: appends the text of
/// every reported chain, and leaves `path` as it found it.
fn dfs(
    g: &CallGraphData,
    func_idx: u32,
    dst: &[String],
    leaves_only: bool,
    path: &mut Vec<u32>,
    results: &mut Vec<String>,
)
    ensures
        final(path)@ == old(path)@,
        string_views(final(results)@) == string_views(old(results)@) + chain_texts(
            g@,
            leaves_only,
            chains_at(g@, string_views(dst@), leaves_only, old(path)@.push(func_idx)),
        ),
    decreases chain_measure(old(path)@.push(func_idx)),
{
    let ghost dst_v = string_views(dst@);
    let ghost start = old(path)@;
    let ghost before = string_views(old(results)@);
    path.push(func_idx);
    let ghost p = path@;
    let is_import = g.is_imported(func_idx);
    let last_label = g.label_of(func_idx);
    let passes_dst = dst.len() == 0 || contains_str(dst, &last_label);
    if passes_dst && (!leaves_only || is_import) {
        let text = chain_string(g, path, leaves_only);
        let ghost prior = string_views(results@);
        results.push(text);
        assert(string_views(results@) =~= prior.push(text@));
    }
    let ghost head: Seq<Seq<u32>> = if emits(g@, dst_v, leaves_only, p) {
        seq![p]
    } else {
        Seq::empty()
    };
    assert(string_views(results@) =~= before + chain_texts(g@, leaves_only, head));
    let callees = g.callees_of(func_idx);
    let mut i: usize = 0;
    while i < callees.len()
        invariant
            i <= callees@.len(),
            callees@ == g@.callees(func_idx),
            start == old(path)@,
            dst_v == string_views(dst@),
            p == start.push(func_idx),
            p.last() == func_idx,
            path@ == p,
            string_views(results@) == before + chain_texts(
                g@,
                leaves_only,
                head + chains_below(g@, dst_v, leaves_only, p, i as int),
            ),
        decreases callees@.len() - i,
    {
        let c = callees[i];
        let ghost mid = string_views(results@);
        if !contains_id(path, c) {
            proof {
                lemma_push_fresh(p, c);
                lemma_measure_nonneg(p);
                assert(chain_measure(path@.push(c)) < chain_measure(start.push(func_idx)));
            }
            dfs(g, c, dst, leaves_only, path, results);
        }
        let ghost added: Seq<Seq<u32>> = if p.contains(c) {
            Seq::empty()
        } else {
            chains_at(g@, dst_v, leaves_only, p.push(c))
        };
        assert(string_views(results@) =~= mid + chain_texts(g@, leaves_only, added));
        assert(chains_below(g@, dst_v, leaves_only, p, i + 1) == chains_below(
            g@,
            dst_v,
            leaves_only,
            p,
            i as int,
        ) + added);
        assert(head + chains_below(g@, dst_v, leaves_only, p, i + 1) =~= (head + chains_below(
            g@,
            dst_v,
            leaves_only,
            p,
            i as int,
        )) + added);
        assert(chain_texts(g@, leaves_only, head + chains_below(g@, dst_v, leaves_only, p, i + 1))
            =~= chain_texts(g@, leaves_only, head + chains_below(g@, dst_v, leaves_only, p, i as int))
            + chain_texts(g@, leaves_only, added));
        i = i + 1;
    }
    path.pop();
    assert(path@ =~= start);
}

/// Every call chain from the chosen start points, as comma-joined names,
/// sorted. A start point is a defined function, exported when `leaves_only`,
/// and named in `src_filter` when that is not empty. A chain never visits a
/// function twice; it is reported when it ends at a name of `dst_filter` (if
/// any), and in leaves-only mode only when it ends at an import, shown then as
/// its first and last names.
pub fn enumerate_call_chains(
    data: &CallGraphData,
    src_filter: &[String],
    dst_filter: &[String],
    leaves_only: bool,
) -> (r: Vec<String>)
    ensures
        string_views(r@).to_multiset() == chain_texts(
            data@,
            leaves_only,
            all_chains(data@, string_views(src_filter@), string_views(dst_filter@), leaves_only),
        ).to_multiset(),
        sorted_strs(string_views(r@)),
{
    let ghost src_v = string_views(src_filter@);
    let ghost dst_v = string_views(dst_filter@);
    let mut results: Vec<String> = Vec::new();
    let mut k: usize = 0;
    while k < data.all_function_indices.len()
        invariant
            k <= data@.defined.len(),
            src_v == string_views(src_filter@),
            dst_v == string_views(dst_filter@),
            string_views(results@) == chain_texts(
                data@,
                leaves_only,
                chains_from_starts(data@, src_v, dst_v, leaves_only, k as int),
            ),
        decreases data@.defined.len() - k,
    {
        let id = data.all_function_indices[k];
        let selected = (!leaves_only || data.is_exported(id)) && (src_filter.len() == 0 || (
        (id as usize) < data.function_names.len() && contains_str(
            src_filter,
            &data.function_names[id as usize],
        )));
        let ghost added: Seq<Seq<u32>> = if is_start(data@, src_v, leaves_only, id) {
            chains_at(data@, dst_v, leaves_only, seq![id])
        } else {
            Seq::empty()
        };
        if selected {
            let mut path: Vec<u32> = Vec::new();
            assert(path@.push(id) =~= seq![id]);
            dfs(data, id, dst_filter, leaves_only, &mut path, &mut results);
        }
        assert(chain_texts(data@, leaves_only, chains_from_starts(data@, src_v, dst_v, leaves_only, k + 1))
            =~= chain_texts(data@, leaves_only, chains_from_starts(data@, src_v, dst_v, leaves_only, k as int))
            + chain_texts(data@, leaves_only, added));
        k = k + 1;
    }
    sort_strings(&mut results);
    results
}

/// `prefix` starts `q`.
pub open spec fn starts_with(q: Seq<u32>, prefix: Seq<u32>) -> bool {
    q.len() >= prefix.len() && q.take(prefix.len() as int) == prefix
}

proof fn lemma_chains_at_shape(g: GraphView, dst: Seq<Seq<char>>, leaves_only: bool, path: Seq<u32>)
    requires
        path.no_duplicates(),
    ensures
        forall|i: int|
            0 <= i < chains_at(g, dst, leaves_only, path).len() ==> {
                &&& (#[trigger] chains_at(g, dst, leaves_only, path)[i]).no_duplicates()
                &&& starts_with(chains_at(g, dst, leaves_only, path)[i], path)
            },
    decreases chain_measure(path), g.callees(path.last()).len() + 1,
{
    let n = g.callees(path.last()).len() as int;
    lemma_chains_below_shape(g, dst, leaves_only, path, n);
    assert(path.take(path.len() as int) =~= path);
    let head: Seq<Seq<u32>> = if emits(g, dst, leaves_only, path) {
        seq![path]
    } else {
        Seq::empty()
    };
    let below = chains_below(g, dst, leaves_only, path, n);
    assert(chains_at(g, dst, leaves_only, path) == head + below);
    assert forall|i: int| 0 <= i < (head + below).len() implies {
        &&& (#[trigger] (head + below)[i]).no_duplicates()
        &&& starts_with((head + below)[i], path)
    } by {
        if i >= head.len() {
            assert((head + below)[i] == below[i - head.len()]);
        } else {
            assert((head + below)[i] == path);
        }
    }
}

proof fn lemma_chains_below_shape(
    g: GraphView,
    dst: Seq<Seq<char>>,
    leaves_only: bool,
    path: Seq<u32>,
    k: int,
)
    requires
        path.no_duplicates(),
    ensures
        forall|i: int|
            0 <= i < chains_below(g, dst, leaves_only, path, k).len() ==> {
                &&& (#[trigger] chains_below(g, dst, leaves_only, path, k)[i]).no_duplicates()
                &&& starts_with(chains_below(g, dst, leaves_only, path, k)[i], path)
            },
    decreases chain_measure(path), k,
{
    if k <= 0 || k > g.callees(path.last()).len() {
    } else {
        let c = g.callees(path.last())[k - 1];
        lemma_chains_below_shape(g, dst, leaves_only, path, k - 1);
        if !path.contains(c) {
            lemma_push_fresh(path, c);
            let q = path.push(c);
            assert(q.no_duplicates()) by {
                assert forall|a: int, b: int| 0 <= a < b < q.len() implies q[a] != q[b] by {
                    if b == q.len() - 1 {
                        assert(path[a] == q[a]);
                    }
                }
            }
            lemma_chains_at_shape(g, dst, leaves_only, q);
            let below = chains_below(g, dst, leaves_only, path, k - 1);
            let here = chains_at(g, dst, leaves_only, q);
            assert forall|i: int| 0 <= i < here.len() implies starts_with(#[trigger] here[i], path) by {
                assert(here[i].take(path.len() as int) =~= here[i].take(q.len() as int).take(path.len() as int));
                assert(q.take(path.len() as int) =~= path);
            }
            assert forall|i: int| 0 <= i < (below + here).len() implies {
                &&& (#[trigger] (below + here)[i]).no_duplicates()
                &&& starts_with((below + here)[i], path)
            } by {
                if i >= below.len() {
                    assert((below + here)[i] == here[i - below.len()]);
                }
            }
        } else {
            assert(chains_below(g, dst, leaves_only, path, k) =~= chains_below(g, dst, leaves_only, path, k - 1));
        }
    }
}

proof fn lemma_chains_from_starts_shape(
    g: GraphView,
    src: Seq<Seq<char>>,
    dst: Seq<Seq<char>>,
    leaves_only: bool,
    k: int,
)
    ensures
        forall|i: int|
            0 <= i < chains_from_starts(g, src, dst, leaves_only, k).len() ==> {
                let q = #[trigger] chains_from_starts(g, src, dst, leaves_only, k)[i];
                &&& q.no_duplicates()
                &&& q.len() >= 1
                &&& exists|j: int| 0 <= j < k && j < g.defined.len() && q[0] == g.defined[j]
            },
    decreases k,
{
    if k <= 0 || k > g.defined.len() {
    } else {
        let id = g.defined[k - 1];
        lemma_chains_from_starts_shape(g, src, dst, leaves_only, k - 1);
        let before = chains_from_starts(g, src, dst, leaves_only, k - 1);
        let here: Seq<Seq<u32>> = if is_start(g, src, leaves_only, id) {
            chains_at(g, dst, leaves_only, seq![id])
        } else {
            Seq::empty()
        };
        if is_start(g, src, leaves_only, id) {
            lemma_chains_at_shape(g, dst, leaves_only, seq![id]);
        }
        assert forall|i: int| 0 <= i < (before + here).len() implies {
            let q = #[trigger] (before + here)[i];
            &&& q.no_duplicates()
            &&& q.len() >= 1
            &&& exists|j: int| 0 <= j < k && j < g.defined.len() && q[0] == g.defined[j]
        } by {
            if i >= before.len() {
                let q = here[i - before.len()];
                assert((before + here)[i] == q);
                assert(starts_with(q, seq![id]));
                assert(q[0] == q.take(1)[0]);
            } else {
                assert((before + here)[i] == before[i]);
            }
        }
    }
}

/// However the calls cycle, no reported chain names one function twice.
pub proof fn lemma_chains_never_repeat(
    g: GraphView,
    src: Seq<Seq<char>>,
    dst: Seq<Seq<char>>,
    leaves_only: bool,
)
    ensures
        forall|i: int|
            0 <= i < all_chains(g, src, dst, leaves_only).len() ==> (#[trigger] all_chains(
                g,
                src,
                dst,
                leaves_only,
            )[i]).no_duplicates(),
{
    lemma_chains_from_starts_shape(g, src, dst, leaves_only, g.defined.len() as int);
}

/// An imported function is never reported as a chain of its own: every chain
/// starts at a defined function, so a one-name chain is never an import.
pub proof fn lemma_imports_never_alone(
    g: GraphView,
    src: Seq<Seq<char>>,
    dst: Seq<Seq<char>>,
    leaves_only: bool,
)
    requires
        g.wf(),
    ensures
        forall|i: int|
            0 <= i < all_chains(g, src, dst, leaves_only).len() && (#[trigger] all_chains(
                g,
                src,
                dst,
                leaves_only,
            )[i]).len() == 1 ==> !g.imported.contains(all_chains(g, src, dst, leaves_only)[i][0]),
{
    lemma_chains_from_starts_shape(g, src, dst, leaves_only, g.defined.len() as int);
}

proof fn lemma_no_leaves_at(g: GraphView, dst: Seq<Seq<char>>, path: Seq<u32>)
    requires
        g.imported.is_empty(),
    ensures
        chains_at(g, dst, true, path).len() == 0,
    decreases chain_measure(path), g.callees(path.last()).len() + 1,
{
    lemma_no_leaves_below(g, dst, path, g.callees(path.last()).len() as int);
    assert(!g.imported.contains(path.last()));
}

proof fn lemma_no_leaves_below(g: GraphView, dst: Seq<Seq<char>>, path: Seq<u32>, k: int)
    requires
        g.imported.is_empty(),
    ensures
        chains_below(g, dst, true, path, k).len() == 0,
    decreases chain_measure(path), k,
{
    if k <= 0 || k > g.callees(path.last()).len() {
    } else {
        let c = g.callees(path.last())[k - 1];
        lemma_no_leaves_below(g, dst, path, k - 1);
        if !path.contains(c) {
            lemma_push_fresh(path, c);
            lemma_no_leaves_at(g, dst, path.push(c));
        }
    }
}

proof fn lemma_no_leaves_from_starts(g: GraphView, src: Seq<Seq<char>>, dst: Seq<Seq<char>>, k: int)
    requires
        g.imported.is_empty(),
    ensures
        chains_from_starts(g, src, dst, true, k).len() == 0,
    decreases k,
{
    if k <= 0 || k > g.defined.len() {
    } else {
        lemma_no_leaves_from_starts(g, src, dst, k - 1);
        lemma_no_leaves_at(g, dst, seq![g.defined[k - 1]]);
    }
}

/// In leaves-only mode a module without imports yields no chain at all,
/// whatever it exports and whatever the filters.
pub proof fn lemma_leaves_only_needs_imports(g: GraphView, src: Seq<Seq<char>>, dst: Seq<Seq<char>>)
    requires
        g.imported.is_empty(),
    ensures
        all_chains(g, src, dst, true).len() == 0,
{
    lemma_no_leaves_from_starts(g, src, dst, g.defined.len() as int);
}

/// `rank` witnesses that the graph is acyclic: every call goes to a function
/// of lower rank.
pub open spec fn ranked_by(g: GraphView, rank: spec_fn(u32) -> nat) -> bool {
    forall|u: u32, i: int| 0 <= i < g.callees(u).len() ==> rank(#[trigger] g.callees(u)[i]) < rank(u)
}

/// The number of downward paths from `id` in an acyclic graph, the path of
/// `id` alone included, each call site counted as its own step.
pub open spec fn downward_paths(g: GraphView, rank: spec_fn(u32) -> nat, id: u32) -> nat
    decreases rank(id), g.callees(id).len() + 1,
    when ranked_by(g, rank)
{
    1 + downward_paths_below(g, rank, id, g.callees(id).len() as int)
}

/// The downward paths that start with a call among the first `k` call sites of `id`.
pub open spec fn downward_paths_below(g: GraphView, rank: spec_fn(u32) -> nat, id: u32, k: int) -> nat
    decreases rank(id), k,
    when ranked_by(g, rank)
{
    if k <= 0 || k > g.callees(id).len() {
        0
    } else {
        downward_paths_below(g, rank, id, k - 1) + downward_paths(g, rank, g.callees(id)[k - 1])
    }
}

proof fn lemma_count_at(g: GraphView, rank: spec_fn(u32) -> nat, path: Seq<u32>)
    requires
        ranked_by(g, rank),
        path.len() >= 1,
        forall|j: int| 0 <= j < path.len() - 1 ==> rank(#[trigger] path[j]) > rank(path.last()),
    ensures
        chains_at(g, Seq::empty(), false, path).len() == downward_paths(g, rank, path.last()),
    decreases chain_measure(path), g.callees(path.last()).len() + 1,
{
    lemma_count_below(g, rank, path, g.callees(path.last()).len() as int);
}

proof fn lemma_count_below(g: GraphView, rank: spec_fn(u32) -> nat, path: Seq<u32>, k: int)
    requires
        ranked_by(g, rank),
        path.len() >= 1,
        forall|j: int| 0 <= j < path.len() - 1 ==> rank(#[trigger] path[j]) > rank(path.last()),
    ensures
        chains_below(g, Seq::empty(), false, path, k).len() == downward_paths_below(g, rank, path.last(), k),
    decreases chain_measure(path), k,
{
    let u = path.last();
    if k <= 0 || k > g.callees(u).len() {
    } else {
        let c = g.callees(u)[k - 1];
        lemma_count_below(g, rank, path, k - 1);
        assert(rank(c) < rank(u));
        assert(!path.contains(c)) by {
            if path.contains(c) {
                let j = choose|j: int| 0 <= j < path.len() && path[j] == c;
                if j < path.len() - 1 {
                    assert(rank(path[j]) > rank(u));
                }
            }
        }
        lemma_push_fresh(path, c);
        let q = path.push(c);
        assert forall|j: int| 0 <= j < q.len() - 1 implies rank(#[trigger] q[j]) > rank(q.last()) by {
            if j < path.len() - 1 {
                assert(q[j] == path[j]);
            }
        }
        lemma_count_at(g, rank, q);
    }
}

/// In an acyclic graph, with no filter, the chains reported from a start are
/// exactly as many as its downward paths, the start alone included.
pub proof fn lemma_acyclic_chain_count(g: GraphView, rank: spec_fn(u32) -> nat, start: u32)
    requires
        ranked_by(g, rank),
    ensures
        chains_at(g, Seq::empty(), false, seq![start]).len() == downward_paths(g, rank, start),
{
    lemma_count_at(g, rank, seq![start]);
}

/// `s` is a defined id, defined once, and no other defined id bears its name.
pub open spec fn sole_start(g: GraphView, s: u32) -> bool {
    &&& g.has_name(s)
    &&& g.defined.contains(s)
    &&& g.defined.no_duplicates()
    &&& forall|i: int|
        0 <= i < g.defined.len() && g.defined[i] != s ==> !(g.has_name(#[trigger] g.defined[i]) && g.name(
            g.defined[i],
        ) == g.name(s))
}

/// Under `sole_start`, naming `s` in the source filter selects `s` alone.
pub proof fn lemma_sole_start(g: GraphView, s: u32, i: int)
    requires
        sole_start(g, s),
        0 <= i < g.defined.len(),
    ensures
        is_start(g, seq![g.name(s)], false, g.defined[i]) <==> g.defined[i] == s,
{
    let src = seq![g.name(s)];
    assert(src[0] == g.name(s));
    if g.defined[i] != s && is_start(g, src, false, g.defined[i]) {
        let j = choose|j: int| 0 <= j < src.len() && src[j] == g.name(g.defined[i]);
    }
}

proof fn lemma_chains_sole_start(g: GraphView, s: u32, k: int)
    requires
        sole_start(g, s),
        0 <= k <= g.defined.len(),
    ensures
        chains_from_starts(g, seq![g.name(s)], Seq::empty(), false, k) == if exists|j: int|
            0 <= j < k && g.defined[j] == s {
            chains_at(g, Seq::empty(), false, seq![s])
        } else {
            Seq::empty()
        },
    decreases k,
{
    if k > 0 {
        lemma_chains_sole_start(g, s, k - 1);
        lemma_sole_start(g, s, k - 1);
        let id = g.defined[k - 1];
        if id == s {
            assert(!exists|j: int| 0 <= j < k - 1 && g.defined[j] == s) by {
                if exists|j: int| 0 <= j < k - 1 && g.defined[j] == s {
                    let j = choose|j: int| 0 <= j < k - 1 && g.defined[j] == s;
                    assert(g.defined[j] == g.defined[k - 1]);
                }
            }
            assert(Seq::<Seq<u32>>::empty() + chains_at(g, Seq::empty(), false, seq![s]) =~= chains_at(
                g,
                Seq::empty(),
                false,
                seq![s],
            ));
        } else {
            assert(chains_from_starts(g, seq![g.name(s)], Seq::empty(), false, k) =~= chains_from_starts(
                g,
                seq![g.name(s)],
                Seq::empty(),
                false,
                k - 1,
            ));
            if exists|j: int| 0 <= j < k && g.defined[j] == s {
                let j = choose|j: int| 0 <= j < k && g.defined[j] == s;
                assert(j < k - 1);
            }
        }
    }
}

/// In an acyclic graph, the chains returned from a start named alone in the
/// source filter, with no other filter, are exactly as many as its downward
/// paths, the start alone included, each call site counted as its own step.
/// `r` stands for the returned strings: any list with the multiset that
/// `enumerate_call_chains` promises.
pub proof fn lemma_acyclic_result_count(
    g: GraphView,
    rank: spec_fn(u32) -> nat,
    s: u32,
    r: Seq<Seq<char>>,
)
    requires
        ranked_by(g, rank),
        sole_start(g, s),
        r.to_multiset() == chain_texts(g, false, all_chains(g, seq![g.name(s)], Seq::empty(), false)).to_multiset(),
    ensures
        r.len() == downward_paths(g, rank, s),
{
    broadcast use vstd::seq_lib::group_to_multiset_ensures;

    lemma_chains_sole_start(g, s, g.defined.len() as int);
    lemma_acyclic_chain_count(g, rank, s);
    let c = chain_texts(g, false, all_chains(g, seq![g.name(s)], Seq::empty(), false));
    assert(r.len() == r.to_multiset().len());
    assert(c.len() == c.to_multiset().len());
}

} // verus!
