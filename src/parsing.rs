//! String-keyed tables, host callback edges ("implicit calls") and the
//! symbol translation table.

use crate::graph::{CallGraphData, GraphView};
use crate::text::{find_str, first_index_of, lemma_first_index_at, string_views};
use vstd::prelude::*;

verus! {

broadcast use vstd::string::group_string_axioms;

/// A table of string pairs, keyed by the first string.
pub type TableView = Seq<(Seq<char>, Seq<char>)>;

pub open spec fn table_keys(t: TableView) -> Seq<Seq<char>> {
    t.map_values(|e: (Seq<char>, Seq<char>)| e.0)
}

/// `t` with `key` bound to `value`: the entry of `key` takes the new value in
/// place, or a new entry goes last.
pub open spec fn table_insert(t: TableView, key: Seq<char>, value: Seq<char>) -> TableView {
    let i = first_index_of(table_keys(t), key);
    if i >= 0 {
        t.update(i, (key, value))
    } else {
        t.push((key, value))
    }
}

/// The value bound to `key` in `t`.
pub open spec fn table_get(t: TableView, key: Seq<char>) -> Option<Seq<char>> {
    let i = first_index_of(table_keys(t), key);
    if i >= 0 {
        Some(t[i].1)
    } else {
        None
    }
}

/// A map from strings to strings that keeps its keys in order of first
/// insertion.
pub struct NameTable {
    entries: Vec<(String, String)>,
}

impl View for NameTable {
    type V = TableView;

    closed spec fn view(&self) -> TableView {
        self.entries@.map_values(|e: (String, String)| (e.0@, e.1@))
    }
}

impl NameTable {
    pub fn new() -> (r: Self)
        ensures
            r@ == Seq::<(Seq<char>, Seq<char>)>::empty(),
    {
        let r = NameTable { entries: Vec::new() };
        assert(r@ =~= Seq::<(Seq<char>, Seq<char>)>::empty());
        r
    }

    pub fn len(&self) -> (r: usize)
        ensures
            r == self@.len(),
    {
        self.entries.len()
    }

    fn position(&self, key: &str) -> (r: Option<usize>)
        ensures
            match r {
                Some(i) => first_index_of(table_keys(self@), key@) == i as int && i < self@.len(),
                None => first_index_of(table_keys(self@), key@) == -1,
            },
    {
        let ghost keys = table_keys(self@);
        let wanted = key.to_string();
        let mut i: usize = 0;
        while i < self.entries.len()
            invariant
                keys == table_keys(self@),
                keys.len() == self.entries@.len(),
                wanted@ == key@,
                i <= self.entries@.len(),
                forall|j: int| 0 <= j < i ==> keys[j] != key@,
            decreases self.entries@.len() - i,
        {
            assert(keys[i as int] == self.entries@[i as int].0@);
            if self.entries[i].0 == wanted {
                proof {
                    lemma_first_index_at(keys, key@, i as int);
                }
                return Some(i);
            }
            i = i + 1;
        }
        assert(!(exists|i: int| 0 <= i < keys.len() && keys[i] == key@));
        None
    }

    /// Binds `key` to `value`, replacing an earlier value of `key`.
    pub fn insert(&mut self, key: String, value: String)
        ensures
            final(self)@ == table_insert(old(self)@, key@, value@),
    {
        match self.position(key.as_str()) {
            Some(i) => {
                self.entries.set(i, (key, value));
            },
            None => {
                self.entries.push((key, value));
            },
        }
        assert(self@ =~= table_insert(old(self)@, key@, value@));
    }

    /// The value bound to `key`.
    pub fn get(&self, key: &str) -> (r: Option<&String>)
        ensures
            match r {
                Some(v) => table_get(self@, key@) == Some(v@),
                None => table_get(self@, key@) is None,
            },
    {
        match self.position(key) {
            Some(i) => Some(&self.entries[i].1),
            None => None,
        }
    }

    /// The `i`-th pair in order of first insertion.
    pub fn entry(&self, i: usize) -> (r: (&String, &String))
        requires
            i < self@.len(),
        ensures
            (r.0@, r.1@) == self@[i as int],
    {
        (&self.entries[i].0, &self.entries[i].1)
    }
}

/// `s` split at its first `:`, when it has one.
pub open spec fn colon_split(s: Seq<char>) -> Option<(Seq<char>, Seq<char>)> {
    let i = first_index_of(s, ':');
    if i >= 0 {
        Some((s.take(i), s.skip(i + 1)))
    } else {
        None
    }
}

/// Relies on `str::split_once` with a `char` pattern: splits at the first
/// occurrence of `:`, which neither part keeps, or gives `None` without one.
#[verifier::external_body]
fn split_at_colon(s: &str) -> (r: Option<(String, String)>)
    ensures
        match r {
            Some(parts) => colon_split(s@) == Some((parts.0@, parts.1@)),
            None => colon_split(s@) is None,
        },
{
    s.split_once(':').map(|(a, b)| (a.to_string(), b.to_string()))
}

pub open spec fn invalid_call_message(arg: Seq<char>) -> Seq<char> {
    "Invalid implicit-call format '"@ + arg + "', expected IMPORT:EXPORT"@
}

/// The callback table of the first `k` arguments, or the error for the first
/// of them without a `:`.
pub open spec fn implicit_calls_upto(args: Seq<Seq<char>>, k: int) -> Result<TableView, Seq<char>>
    decreases k,
{
    if k <= 0 || k > args.len() {
        Ok(Seq::empty())
    } else {
        match implicit_calls_upto(args, k - 1) {
            Err(e) => Err(e),
            Ok(t) => match colon_split(args[k - 1]) {
                Some(parts) => Ok(table_insert(t, parts.0, parts.1)),
                None => Err(invalid_call_message(args[k - 1])),
            },
        }
    }
}

proof fn lemma_error_persists(args: Seq<Seq<char>>, k: int, j: int)
    requires
        0 <= k <= j <= args.len(),
        implicit_calls_upto(args, k) is Err,
    ensures
        implicit_calls_upto(args, j) == implicit_calls_upto(args, k),
    decreases j - k,
{
    if j > k {
        lemma_error_persists(args, k, j - 1);
    }
}

/// Parse implicit call arguments and return a map from import name to export name
///
/// Each argument is `IMPORT:EXPORT`, split at its first `:`; a later binding
/// of an import replaces an earlier one. The first argument without a `:`
/// makes the whole parse fail.
pub fn parse_implicit_calls(args: &[String]) -> (r: Result<NameTable, String>)
    ensures
        match (r, implicit_calls_upto(string_views(args@), args@.len() as int)) {
            (Ok(t), Ok(v)) => t@ == v,
            (Err(e), Err(m)) => e@ == m,
            _ => false,
        },
{
    proof {
        reveal_strlit("Invalid implicit-call format '");
        reveal_strlit("', expected IMPORT:EXPORT");
    }
    let ghost av = string_views(args@);
    let mut map = NameTable::new();
    let mut i: usize = 0;
    while i < args.len()
        invariant
            av == string_views(args@),
            i <= args@.len(),
            implicit_calls_upto(av, i as int) == Ok::<TableView, Seq<char>>(map@),
        decreases args@.len() - i,
    {
        assert(av[i as int] == args@[i as int]@);
        match split_at_colon(args[i].as_str()) {
            Some((import, export)) => {
                map.insert(import, export);
            },
            None => {
                let mut msg = "Invalid implicit-call format '".to_string();
                msg.append(args[i].as_str());
                msg.append("', expected IMPORT:EXPORT");
                proof {
                    lemma_error_persists(av, i + 1, av.len() as int);
                }
                return Err(msg);
            },
        }
        i = i + 1;
    }
    Ok(map)
}

/// `g` with a call from the first function named `import` to the first
/// function named `export` appended, when both names resolve.
#[verifier::opaque]
pub open spec fn with_callback(g: GraphView, import: Seq<char>, export: Seq<char>) -> GraphView {
    let i = first_index_of(g.names, import);
    let e = first_index_of(g.names, export);
    if i >= 0 && e >= 0 {
        GraphView { edges: g.edges.update(i, g.edges[i].push(e as u32)), ..g }
    } else {
        g
    }
}

/// `g` with the callbacks of the first `k` pairs of `calls` applied in order.
pub open spec fn with_callbacks(g: GraphView, calls: TableView, k: int) -> GraphView
    decreases k,
{
    if k <= 0 || k > calls.len() {
        g
    } else {
        let h = with_callbacks(g, calls, k - 1);
        with_callback(h, calls[k - 1].0, calls[k - 1].1)
    }
}

proof fn lemma_callback_applied(
    before: GraphView,
    after: GraphView,
    import: Seq<char>,
    export: Seq<char>,
    imp: int,
    exp: int,
)
    requires
        before.wf(),
        first_index_of(before.names, import) == imp,
        first_index_of(before.names, export) == exp,
        0 <= imp < before.names.len(),
        0 <= exp < before.names.len(),
        after.names == before.names,
        after.defined == before.defined,
        after.imported == before.imported,
        after.exported == before.exported,
        after.edges =~= before.edges.update(imp, before.edges[imp].push(exp as u32)),
    ensures
        after == with_callback(before, import, export),
        after.wf(),
{
    reveal(with_callback);
    assert(after.edges.len() == after.names.len());
}

proof fn lemma_callback_unresolved(g: GraphView, import: Seq<char>, export: Seq<char>)
    requires
        first_index_of(g.names, import) == -1 || first_index_of(g.names, export) == -1,
    ensures
        with_callback(g, import, export) == g,
{
    reveal(with_callback);
}

/// Apply implicit calls to the call graph data.
/// For each import that has an implicit callback to an export, add an edge from the import to the export.
///
/// Names resolve to the lowest id that bears them; a pair whose names do not
/// both resolve is skipped. Applying the same pairs twice adds the edges twice.
pub fn apply_implicit_calls(data: &mut CallGraphData, implicit_calls: &NameTable)
    requires
        old(data)@.wf(),
    ensures
        final(data)@ == with_callbacks(old(data)@, implicit_calls@, implicit_calls@.len() as int),
        final(data)@.wf(),
{
    let mut k: usize = 0;
    while k < implicit_calls.len()
        invariant
            k <= implicit_calls@.len(),
            data@ == with_callbacks(old(data)@, implicit_calls@, k as int),
            data@.wf(),
            data@.names == old(data)@.names,
        decreases implicit_calls@.len() - k,
    {
        let (import_name, export_name) = implicit_calls.entry(k);
        let ghost before = data@;
        assert(with_callbacks(old(data)@, implicit_calls@, k + 1) == with_callback(
            before,
            import_name@,
            export_name@,
        ));
        let import_idx = find_str(data.function_names.as_slice(), import_name);
        let export_idx = find_str(data.function_names.as_slice(), export_name);
        assert(string_views(data.function_names@) == before.names);
        match import_idx {
            Some(imp) => {
                match export_idx {
                    Some(exp) => {
                        data.call_graph[imp].push(exp as u32);
                        proof {
                            lemma_callback_applied(before, data@, import_name@, export_name@, imp as int, exp as int);
                        }
                    },
                    None => {
                        proof {
                            lemma_callback_unresolved(before, import_name@, export_name@);
                        }
                    },
                }
            },
            None => {
                proof {
                    lemma_callback_unresolved(before, import_name@, export_name@);
                }
            },
        }
        k = k + 1;
    }
}

/// Represents a function entry in the env.json module
pub struct EnvFunction {
    pub export: String,
    pub name: String,
}

/// Represents a module entry in the env.json file
pub struct EnvModule {
    pub export: String,
    pub functions: Vec<EnvFunction>,
}

/// Root structure of env.json
pub struct EnvConfig {
    pub modules: Vec<EnvModule>,
}

/// `t` with the first `k` functions of a module exported as `module` bound,
/// each under the key `<module>.<function>`.
pub open spec fn symbols_of_module(t: TableView, module: Seq<char>, functions: Seq<EnvFunction>, k: int) -> TableView
    decreases k,
{
    if k <= 0 || k > functions.len() {
        t
    } else {
        table_insert(
            symbols_of_module(t, module, functions, k - 1),
            module + "."@ + functions[k - 1].export@,
            functions[k - 1].name@,
        )
    }
}

/// The symbol table of the first `k` modules.
pub open spec fn env_symbols(modules: Seq<EnvModule>, k: int) -> TableView
    decreases k,
{
    if k <= 0 || k > modules.len() {
        Seq::empty()
    } else {
        let m = modules[k - 1];
        symbols_of_module(env_symbols(modules, k - 1), m.export@, m.functions@, m.functions@.len() as int)
    }
}

/// Build a lookup map from "module_export.func_export" -> "long_name"
pub fn build_env_symbol_map(config: &EnvConfig) -> (r: NameTable)
    ensures
        r@ == env_symbols(config.modules@, config.modules@.len() as int),
{
    proof {
        reveal_strlit(".");
    }
    let mut map = NameTable::new();
    let mut i: usize = 0;
    while i < config.modules.len()
        invariant
            i <= config.modules@.len(),
            map@ == env_symbols(config.modules@, i as int),
        decreases config.modules@.len() - i,
    {
        let module = &config.modules[i];
        let ghost start = map@;
        let mut j: usize = 0;
        while j < module.functions.len()
            invariant
                j <= module.functions@.len(),
                map@ == symbols_of_module(start, module.export@, module.functions@, j as int),
            decreases module.functions@.len() - j,
        {
            let func = &module.functions[j];
            let mut key = module.export.clone();
            key.append(".");
            key.append(func.export.as_str());
            map.insert(key, func.name.clone());
            j = j + 1;
        }
        i = i + 1;
    }
    map
}

} // verus!
