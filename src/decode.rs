//! Building the call graph of a module from what its binary declares, and
//! reading those declarations out of the binary.

use crate::graph::{CallGraphData, GraphView};
use crate::parsing::{table_get, NameTable, TableView};
use crate::text::{append_decimal, decimal};
use std::collections::HashSet;
use vstd::prelude::*;
use wasmparser::{ExternalKind, Name, Operator, Payload, TypeRef};

verus! {

broadcast use {vstd::std_specs::hash::group_hash_axioms, vstd::string::group_string_axioms};

/// What the call graph is built from, in the order the module declares it.
pub struct ModuleFacts {
    /// Function imports: (module name, item name).
    pub imports: Vec<(String, String)>,
    /// Function exports: (export name, function id).
    pub exports: Vec<(String, u32)>,
    /// Entries of the debug name section: (function id, name).
    pub debug_names: Vec<(u32, String)>,
    /// Per defined function, the ids of its direct and tail calls in order.
    pub bodies: Vec<Vec<u32>>,
}

/// The mathematical model of [`ModuleFacts`].
pub struct FactsView {
    pub imports: Seq<(Seq<char>, Seq<char>)>,
    pub exports: Seq<(Seq<char>, u32)>,
    pub debug_names: Seq<(u32, Seq<char>)>,
    pub bodies: Seq<Seq<u32>>,
}

impl View for ModuleFacts {
    type V = FactsView;

    open spec fn view(&self) -> FactsView {
        FactsView {
            imports: self.imports@.map_values(|p: (String, String)| (p.0@, p.1@)),
            exports: self.exports@.map_values(|p: (String, u32)| (p.0@, p.1)),
            debug_names: self.debug_names@.map_values(|p: (u32, String)| (p.0, p.1@)),
            bodies: self.bodies@.map_values(|b: Vec<u32>| b@),
        }
    }
}

impl FactsView {
    /// Number of function ids: imports first, then defined functions.
    pub open spec fn total(self) -> nat {
        self.imports.len() + self.bodies.len()
    }

    /// The last export name given to `id` among the first `k` exports.
    pub open spec fn export_name(self, id: u32, k: int) -> Option<Seq<char>>
        decreases k,
    {
        if k <= 0 || k > self.exports.len() {
            None
        } else if self.exports[k - 1].1 == id {
            Some(self.exports[k - 1].0)
        } else {
            self.export_name(id, k - 1)
        }
    }

    /// The last debug name given to `id` among the first `k` entries.
    pub open spec fn debug_name(self, id: u32, k: int) -> Option<Seq<char>>
        decreases k,
    {
        if k <= 0 || k > self.debug_names.len() {
            None
        } else if self.debug_names[k - 1].0 == id {
            Some(self.debug_names[k - 1].1)
        } else {
            self.debug_name(id, k - 1)
        }
    }

    /// The symbol-table key of import `id`: `<module>.<item>`.
    pub open spec fn import_key(self, id: int) -> Seq<char> {
        self.imports[id].0 + "."@ + self.imports[id].1
    }

    /// The translated name of import `id`, when the table has one.
    pub open spec fn translated(self, env: Option<TableView>, id: int) -> Option<Seq<char>> {
        if 0 <= id < self.imports.len() {
            match env {
                Some(t) => table_get(t, self.import_key(id)),
                None => None,
            }
        } else {
            None
        }
    }

    /// The name of `id` when nothing else names it: `func_<id>`.
    pub open spec fn default_name(self, id: u32) -> Seq<char> {
        "func_"@ + decimal(id as nat)
    }

    /// The display name of `id`: its translation, else its debug name, else
    /// its export name, else the default; later entries of one kind win.
    pub open spec fn display_name(self, env: Option<TableView>, id: u32) -> Seq<char> {
        match self.translated(env, id as int) {
            Some(t) => t,
            None => match self.debug_name(id, self.debug_names.len() as int) {
                Some(d) => d,
                None => match self.export_name(id, self.exports.len() as int) {
                    Some(e) => e,
                    None => self.default_name(id),
                },
            },
        }
    }

    /// Whether `id` is exported as a function.
    pub open spec fn is_exported(self, id: u32) -> bool {
        exists|k: int| 0 <= k < self.exports.len() && self.exports[k].1 == id
    }

    /// The call graph these facts describe.
    pub open spec fn graph(self, env: Option<TableView>) -> GraphView {
        let n = self.imports.len();
        GraphView {
            names: Seq::new(self.total(), |id: int| self.display_name(env, id as u32)),
            edges: Seq::new(n, |i: int| Seq::<u32>::empty()) + self.bodies,
            defined: Seq::new(self.bodies.len(), |k: int| (n + k) as u32),
            imported: Set::new(|id: u32| id < n),
            exported: Set::new(|id: u32| self.is_exported(id)),
        }
    }
}

pub open spec fn opt_table(env: Option<&NameTable>) -> Option<TableView> {
    match env {
        Some(t) => Some(t@),
        None => None,
    }
}

fn copy_ids(v: &Vec<u32>) -> (r: Vec<u32>)
    ensures
        r@ == v@,
{
    let mut r: Vec<u32> = Vec::new();
    let mut i: usize = 0;
    while i < v.len()
        invariant
            i <= v@.len(),
            r@ == v@.take(i as int),
        decreases v@.len() - i,
    {
        r.push(v[i]);
        assert(v@.take(i + 1) =~= v@.take(i as int).push(v@[i as int]));
        i = i + 1;
    }
    assert(v@.take(v@.len() as int) =~= v@);
    r
}

/// The name `id` has before exports and debug names are applied.
pub open spec fn base_name(f: FactsView, env: Option<TableView>, id: u32) -> Seq<char> {
    match f.translated(env, id as int) {
        Some(t) => t,
        None => f.default_name(id),
    }
}

/// The name of `id` once the first `k` exports are applied.
pub open spec fn name_after_exports(f: FactsView, env: Option<TableView>, id: u32, k: int) -> Seq<char> {
    match f.translated(env, id as int) {
        Some(t) => t,
        None => match f.export_name(id, k) {
            Some(e) => e,
            None => f.default_name(id),
        },
    }
}

/// The name of `id` once all exports and the first `k` debug names are applied.
pub open spec fn name_after_debug(f: FactsView, env: Option<TableView>, id: u32, k: int) -> Seq<char> {
    match f.translated(env, id as int) {
        Some(t) => t,
        None => match f.debug_name(id, k) {
            Some(d) => d,
            None => f.export_name(id, f.exports.len() as int).unwrap_or(f.default_name(id)),
        },
    }
}

/// The display names of all ids before exports and debug names apply, and
/// which of them a translation fixed.
fn base_names(facts: &ModuleFacts, env: Option<&NameTable>) -> (r: (Vec<String>, Vec<bool>))
    requires
        facts@.total() <= u32::MAX,
    ensures
        r.0@.len() == facts@.total(),
        r.1@.len() == facts@.total(),
        forall|id: int| 0 <= id < facts@.total() ==> (#[trigger] r.0@[id])@ == base_name(facts@, opt_table(env), id as u32),
        forall|id: int| 0 <= id < facts@.total() ==> #[trigger] r.1@[id] == facts@.translated(opt_table(env), id).is_some(),
{
    proof {
        reveal_strlit(".");
        reveal_strlit("func_");
    }
    let ghost f = facts@;
    let ghost tv = opt_table(env);
    let n_imp = facts.imports.len();
    let total = n_imp + facts.bodies.len();
    let mut names: Vec<String> = Vec::new();
    let mut pinned: Vec<bool> = Vec::new();
    let mut i: usize = 0;
    while i < total
        invariant
            f == facts@,
            tv == opt_table(env),
            n_imp == f.imports.len(),
            total == f.total(),
            total <= u32::MAX,
            i <= total,
            names@.len() == i,
            pinned@.len() == i,
            forall|id: int| 0 <= id < i ==> (#[trigger] names@[id])@ == base_name(f, tv, id as u32),
            forall|id: int| 0 <= id < i ==> #[trigger] pinned@[id] == f.translated(tv, id).is_some(),
        decreases total - i,
    {
        let ghost names0 = names@;
        let ghost pinned0 = pinned@;
        if i < n_imp {
            let module = &facts.imports[i].0;
            let item = &facts.imports[i].1;
            assert(f.imports[i as int] == (module@, item@));
            let mut key = module.clone();
            key.append(".");
            key.append(item.as_str());
            assert(key@ == f.import_key(i as int));
            let found = match env {
                Some(t) => t.get(key.as_str()),
                None => None,
            };
            match found {
                Some(long) => {
                    names.push(long.clone());
                    pinned.push(true);
                },
                None => {
                    let mut plain = "func_".to_string();
                    append_decimal(&mut plain, i as u32);
                    names.push(plain);
                    pinned.push(false);
                },
            }
        } else {
            let mut plain = "func_".to_string();
            append_decimal(&mut plain, i as u32);
            names.push(plain);
            pinned.push(false);
        }
        assert(names@[i as int]@ == base_name(f, tv, i as u32));
        assert(pinned@[i as int] == f.translated(tv, i as int).is_some());
        assert(names@ =~= names0.push(names@[i as int]));
        assert(pinned@ =~= pinned0.push(pinned@[i as int]));
        i = i + 1;
    }
    (names, pinned)
}

/// The call graph that `facts` describe, names translated through `env`.
///
/// Ids run over the imports first, then the defined functions. A name comes
/// from the symbol translation table for an import when the table has its
/// `<module>.<item>` key, else from the last debug-name entry for the id,
/// else from its last export, else it is the default `func_<id>`. Entries for ids past the last
/// function name nothing.
pub fn build_call_graph(facts: &ModuleFacts, env: Option<&NameTable>) -> (r: CallGraphData)
    requires
        facts@.total() <= u32::MAX,
    ensures
        r@ == facts@.graph(opt_table(env)),
        r@.wf(),
{
    let ghost f = facts@;
    let ghost tv = opt_table(env);
    let n_imp = facts.imports.len();
    let total = n_imp + facts.bodies.len();
    let (mut names, pinned) = base_names(facts, env);
    let mut k: usize = 0;
    while k < facts.exports.len()
        invariant
            f == facts@,
            tv == opt_table(env),
            total == f.total(),
            total <= u32::MAX,
            k <= f.exports.len(),
            names@.len() == total,
            pinned@.len() == total,
            forall|id: int| 0 <= id < total ==> #[trigger] pinned@[id] == f.translated(tv, id).is_some(),
            forall|id: int| 0 <= id < total ==> (#[trigger] names@[id])@ == name_after_exports(f, tv, id as u32, k as int),
        decreases f.exports.len() - k,
    {
        let idx = facts.exports[k].1;
        assert(f.exports[k as int] == (facts.exports@[k as int].0@, idx));
        if (idx as usize) < total && !pinned[idx as usize] {
            names.set(idx as usize, facts.exports[k].0.clone());
        }
        assert forall|id: int| 0 <= id < total implies (#[trigger] names@[id])@ == name_after_exports(f, tv, id as u32, k + 1) by {
            assert((id as u32) as int == id);
        }
        k = k + 1;
    }
    let mut k: usize = 0;
    while k < facts.debug_names.len()
        invariant
            f == facts@,
            tv == opt_table(env),
            total == f.total(),
            total <= u32::MAX,
            k <= f.debug_names.len(),
            names@.len() == total,
            pinned@.len() == total,
            forall|id: int| 0 <= id < total ==> #[trigger] pinned@[id] == f.translated(tv, id).is_some(),
            forall|id: int| 0 <= id < total ==> (#[trigger] names@[id])@ == name_after_debug(f, tv, id as u32, k as int),
        decreases f.debug_names.len() - k,
    {
        let idx = facts.debug_names[k].0;
        assert(f.debug_names[k as int] == (idx, facts.debug_names@[k as int].1@));
        if (idx as usize) < total && !pinned[idx as usize] {
            names.set(idx as usize, facts.debug_names[k].1.clone());
        }
        assert forall|id: int| 0 <= id < total implies (#[trigger] names@[id])@ == name_after_debug(f, tv, id as u32, k + 1) by {
            assert((id as u32) as int == id);
        }
        k = k + 1;
    }
    let mut call_graph: Vec<Vec<u32>> = Vec::new();
    let mut imported: HashSet<u32> = HashSet::new();
    let mut i: usize = 0;
    while i < n_imp
        invariant
            f == facts@,
            n_imp == f.imports.len(),
            n_imp <= total,
            total <= u32::MAX,
            i <= n_imp,
            call_graph@.map_values(|v: Vec<u32>| v@) =~= Seq::new(i as nat, |j: int| Seq::<u32>::empty()),
            imported@ =~= Set::new(|id: u32| id < i),
        decreases n_imp - i,
    {
        let ghost prior = call_graph@;
        call_graph.push(Vec::new());
        assert(call_graph@.map_values(|v: Vec<u32>| v@) =~= prior.map_values(|v: Vec<u32>| v@).push(Seq::empty()));
        imported.insert(i as u32);
        i = i + 1;
    }
    let mut defined: Vec<u32> = Vec::new();
    let mut k: usize = 0;
    while k < facts.bodies.len()
        invariant
            f == facts@,
            n_imp == f.imports.len(),
            total == f.total(),
            total <= u32::MAX,
            k <= f.bodies.len(),
            call_graph@.map_values(|v: Vec<u32>| v@) =~= Seq::new(n_imp as nat, |j: int| Seq::<u32>::empty()) + f.bodies.take(k as int),
            defined@ =~= Seq::new(k as nat, |j: int| (n_imp + j) as u32),
        decreases f.bodies.len() - k,
    {
        let ghost prior = call_graph@;
        let body = copy_ids(&facts.bodies[k]);
        assert(body@ == f.bodies[k as int]);
        call_graph.push(body);
        assert(call_graph@.map_values(|v: Vec<u32>| v@) =~= prior.map_values(|v: Vec<u32>| v@).push(body@));
        assert(f.bodies.take(k + 1) =~= f.bodies.take(k as int).push(body@));
        defined.push((n_imp + k) as u32);
        k = k + 1;
    }
    let mut exported: HashSet<u32> = HashSet::new();
    let mut k: usize = 0;
    while k < facts.exports.len()
        invariant
            f == facts@,
            k <= f.exports.len(),
            exported@ =~= Set::new(|id: u32| exists|j: int| 0 <= j < k && f.exports[j].1 == id),
        decreases f.exports.len() - k,
    {
        let idx = facts.exports[k].1;
        assert(f.exports[k as int].1 == idx);
        exported.insert(idx);
        k = k + 1;
    }
    let r = CallGraphData {
        function_names: names,
        call_graph,
        all_function_indices: defined,
        imported_functions: imported,
        exported_functions: exported,
    };
    assert(r@.names =~= f.graph(tv).names) by {
        assert forall|id: int| 0 <= id < total implies r@.names[id] == f.display_name(tv, id as u32) by {
            assert(r@.names[id] == names@[id]@);
        }
    }
    assert(f.bodies.take(f.bodies.len() as int) =~= f.bodies);
    assert(r@.edges =~= f.graph(tv).edges);
    assert(r@.imported =~= f.graph(tv).imported);
    assert(r@.exported =~= f.graph(tv).exported);
    r
}

#[verifier::external_type_specification]
#[verifier::external_body]
pub struct ExParser(wasmparser::Parser);

#[verifier::external_type_specification]
#[verifier::external_body]
pub struct ExError(wasmparser::Error);

#[verifier::external_type_specification]
#[verifier::external_body]
pub struct ExPayload<'a>(wasmparser::Payload<'a>);

#[verifier::external_type_specification]
#[verifier::external_body]
#[verifier::reject_recursive_types(T)]
pub struct ExSectionLimitedIntoIter<'a, T>(wasmparser::SectionLimitedIntoIter<'a, T>);

#[verifier::external_type_specification]
#[verifier::external_body]
pub struct ExImports<'a>(wasmparser::Imports<'a>);

#[verifier::external_type_specification]
#[verifier::external_body]
pub struct ExImportsIter<'a>(wasmparser::ImportsIter<'a>);

#[verifier::external_type_specification]
#[verifier::external_body]
pub struct ExImport<'a>(wasmparser::Import<'a>);

#[verifier::external_type_specification]
#[verifier::external_body]
pub struct ExExport<'a>(wasmparser::Export<'a>);

#[verifier::external_type_specification]
#[verifier::external_body]
pub struct ExName<'a>(wasmparser::Name<'a>);

#[verifier::external_type_specification]
#[verifier::external_body]
pub struct ExNaming<'a>(wasmparser::Naming<'a>);

#[verifier::external_type_specification]
#[verifier::external_body]
pub struct ExNameSectionReader<'a>(wasmparser::NameSectionReader<'a>);

#[verifier::external_type_specification]
#[verifier::external_body]
pub struct ExNameMap<'a>(wasmparser::NameMap<'a>);

#[verifier::external_type_specification]
#[verifier::external_body]
pub struct ExOperatorsReader<'a>(wasmparser::OperatorsReader<'a>);

/// What an import or export refers to.
pub enum ItemKind {
    Func,
    FuncExact,
    Table,
    Memory,
    Global,
    Tag,
}

/// An instruction, as far as the call graph cares.
pub enum CallSite {
    Call(u32),
    ReturnCall(u32),
    Other,
}

/// An import as the decoder reports it: module, name, kind.
pub type ImportView = (Seq<char>, Seq<char>, ItemKind);

/// An export as the decoder reports it: name, kind, index.
pub type ExportView = (Seq<char>, ItemKind, u32);

/// A debug-name entry as the decoder reports it: index, name.
pub type NamingView = (u32, Seq<char>);

/// A payload as the decoder reports it, as far as the call graph reads it.
/// Each sequence lists what successive reads yield, `None` for an error.
pub enum PayloadView {
    /// Import groups, each with its imports.
    Imports(Seq<Option<Seq<Option<ImportView>>>>),
    Exports(Seq<Option<ExportView>>),
    /// Subsections of the debug name section; the function-name map where
    /// a subsection is one.
    Names(Seq<Option<Option<Seq<Option<NamingView>>>>>),
    /// The instructions of a function body, `None` if they cannot be read.
    Code(Option<Seq<Option<CallSite>>>),
    Other,
}

/// The payloads wasmparser's `Parser::parse_all` reports for `bytes`, in
/// order, `None` for an error.
pub uninterp spec fn payloads_of(bytes: Seq<u8>) -> Seq<Option<PayloadView>>;

/// What a payload reports.
pub uninterp spec fn payload_view(p: wasmparser::Payload<'_>) -> PayloadView;

/// The import groups an import-section iterator has yet to yield.
pub uninterp spec fn held_groups(it: wasmparser::SectionLimitedIntoIter<'_, wasmparser::Imports<'_>>) -> Seq<
    Option<Seq<Option<ImportView>>>,
>;

/// The imports an import-group iterator has yet to yield.
pub uninterp spec fn held_imports(it: wasmparser::ImportsIter<'_>) -> Seq<Option<ImportView>>;

/// The exports an export-section iterator has yet to yield.
pub uninterp spec fn held_exports(it: wasmparser::SectionLimitedIntoIter<'_, wasmparser::Export<'_>>) -> Seq<
    Option<ExportView>,
>;

/// The subsections a name-section reader has yet to yield.
pub uninterp spec fn held_subsections(r: wasmparser::NameSectionReader<'_>) -> Seq<
    Option<Option<Seq<Option<NamingView>>>>,
>;

/// The entries a name map has yet to yield.
pub uninterp spec fn held_namings(m: wasmparser::NameMap<'_>) -> Seq<Option<NamingView>>;

/// The instructions an operator reader has yet to read, up to the end of the
/// body or the first that fails to read.
pub uninterp spec fn held_operators(r: wasmparser::OperatorsReader<'_>) -> Seq<Option<CallSite>>;

/// One payload's readers, as far as the call graph reads them.
enum Section<'a> {
    Imports(wasmparser::SectionLimitedIntoIter<'a, wasmparser::Imports<'a>>),
    Exports(wasmparser::SectionLimitedIntoIter<'a, wasmparser::Export<'a>>),
    Names(wasmparser::NameSectionReader<'a>),
    Code(Result<wasmparser::OperatorsReader<'a>, wasmparser::Error>),
    Other,
}

/// Relies on `wasmparser::Parser::parse_all` from offset 0: every payload of
/// the binary in order, nested modules included; nothing follows an error.
#[verifier::external_body]
fn all_payloads<'a>(bytes: &'a [u8]) -> (r: Vec<Result<wasmparser::Payload<'a>, wasmparser::Error>>)
    ensures
        r@.len() == payloads_of(bytes@).len(),
        forall|i: int|
            0 <= i < r@.len() ==> match #[trigger] r@[i] {
                Ok(p) => payloads_of(bytes@)[i] == Some(payload_view(p)),
                Err(_) => payloads_of(bytes@)[i] is None,
            },
{
    wasmparser::Parser::new(0).parse_all(bytes).collect()
}

/// Relies on the variants of `wasmparser::Payload`, on
/// `CustomSectionReader::as_known` and on `FunctionBody::get_operators_reader`:
/// fresh readers of the sections the call graph reads.
#[verifier::external_body]
fn classify<'a>(payload: &wasmparser::Payload<'a>) -> (r: Section<'a>)
    ensures
        match (r, payload_view(*payload)) {
            (Section::Imports(it), PayloadView::Imports(g)) => held_groups(it) == g,
            (Section::Exports(it), PayloadView::Exports(x)) => held_exports(it) == x,
            (Section::Names(n), PayloadView::Names(x)) => held_subsections(n) == x,
            (Section::Code(Ok(o)), PayloadView::Code(Some(x))) => held_operators(o) == x,
            (Section::Code(Err(_)), PayloadView::Code(None)) => true,
            (Section::Other, PayloadView::Other) => true,
            _ => false,
        },
{
    match payload {
        Payload::ImportSection(r) => Section::Imports(r.clone().into_iter()),
        Payload::ExportSection(r) => Section::Exports(r.clone().into_iter()),
        Payload::CustomSection(r) => match r.as_known() {
            wasmparser::KnownCustom::Name(names) => Section::Names(names),
            _ => Section::Other,
        },
        Payload::CodeSectionEntry(b) => Section::Code(b.get_operators_reader()),
        _ => Section::Other,
    }
}

/// Relies on `Iterator::next` of the import section's reader and on
/// `IntoIterator` of `wasmparser::Imports`: the next group's imports.
#[verifier::external_body]
fn next_import_group<'a>(it: &mut wasmparser::SectionLimitedIntoIter<'a, wasmparser::Imports<'a>>) -> (r: Option<
    Result<wasmparser::ImportsIter<'a>, wasmparser::Error>,
>)
    ensures
        r is None <==> held_groups(*old(it)).len() == 0,
        r is Some ==> held_groups(*final(it)) == held_groups(*old(it)).drop_first(),
        r is None ==> held_groups(*final(it)) == held_groups(*old(it)),
        r matches Some(Ok(g)) ==> held_groups(*old(it))[0] == Some(held_imports(g)),
        r matches Some(Err(_)) ==> held_groups(*old(it))[0] is None,
{
    it.next().map(|g| g.map(|g| g.into_iter()))
}

/// Relies on `Iterator::next` of `wasmparser::ImportsIter`: the next import
/// as (module, name, kind).
#[verifier::external_body]
fn next_import<'a>(it: &mut wasmparser::ImportsIter<'a>) -> (r: Option<Result<(String, String, ItemKind), wasmparser::Error>>)
    ensures
        r is None <==> held_imports(*old(it)).len() == 0,
        r is Some ==> held_imports(*final(it)) == held_imports(*old(it)).drop_first(),
        r is None ==> held_imports(*final(it)) == held_imports(*old(it)),
        r matches Some(Ok(i)) ==> held_imports(*old(it))[0] == Some((i.0@, i.1@, i.2)),
        r matches Some(Err(_)) ==> held_imports(*old(it))[0] is None,
{
    it.next().map(|r| r.map(|(_, i)| (i.module.to_string(), i.name.to_string(), match i.ty {
        TypeRef::Func(_) => ItemKind::Func,
        TypeRef::FuncExact(_) => ItemKind::FuncExact,
        TypeRef::Table(_) => ItemKind::Table,
        TypeRef::Memory(_) => ItemKind::Memory,
        TypeRef::Global(_) => ItemKind::Global,
        TypeRef::Tag(_) => ItemKind::Tag,
    })))
}

/// Relies on `Iterator::next` of the export section's reader: the next
/// export as (name, kind, index).
#[verifier::external_body]
fn next_export<'a>(it: &mut wasmparser::SectionLimitedIntoIter<'a, wasmparser::Export<'a>>) -> (r: Option<
    Result<(String, ItemKind, u32), wasmparser::Error>,
>)
    ensures
        r is None <==> held_exports(*old(it)).len() == 0,
        r is Some ==> held_exports(*final(it)) == held_exports(*old(it)).drop_first(),
        r is None ==> held_exports(*final(it)) == held_exports(*old(it)),
        r matches Some(Ok(e)) ==> held_exports(*old(it))[0] == Some((e.0@, e.1, e.2)),
        r matches Some(Err(_)) ==> held_exports(*old(it))[0] is None,
{
    it.next().map(|r| r.map(|e| (e.name.to_string(), match e.kind {
        ExternalKind::Func => ItemKind::Func,
        ExternalKind::FuncExact => ItemKind::FuncExact,
        ExternalKind::Table => ItemKind::Table,
        ExternalKind::Memory => ItemKind::Memory,
        ExternalKind::Global => ItemKind::Global,
        ExternalKind::Tag => ItemKind::Tag,
    }, e.index)))
}

/// Relies on `Iterator::next` of `wasmparser::NameSectionReader`: the next
/// subsection, with its map when it names functions.
#[verifier::external_body]
fn next_name_subsection<'a>(r: &mut wasmparser::NameSectionReader<'a>) -> (res: Option<
    Result<Option<wasmparser::NameMap<'a>>, wasmparser::Error>,
>)
    ensures
        res is None <==> held_subsections(*old(r)).len() == 0,
        res is Some ==> held_subsections(*final(r)) == held_subsections(*old(r)).drop_first(),
        res is None ==> held_subsections(*final(r)) == held_subsections(*old(r)),
        res matches Some(Ok(Some(m))) ==> held_subsections(*old(r))[0] == Some(Some(held_namings(m))),
        res matches Some(Ok(None)) ==> held_subsections(*old(r))[0] == Some(None::<Seq<Option<NamingView>>>),
        res matches Some(Err(_)) ==> held_subsections(*old(r))[0] is None,
{
    r.next().map(|s| s.map(|n| match n {
        Name::Function(map) => Some(map),
        _ => None,
    }))
}

/// Relies on `Iterator::next` of `wasmparser::NameMap`: the next (index, name) entry.
#[verifier::external_body]
fn next_naming<'a>(m: &mut wasmparser::NameMap<'a>) -> (r: Option<Result<(u32, String), wasmparser::Error>>)
    ensures
        r is None <==> held_namings(*old(m)).len() == 0,
        r is Some ==> held_namings(*final(m)) == held_namings(*old(m)).drop_first(),
        r is None ==> held_namings(*final(m)) == held_namings(*old(m)),
        r matches Some(Ok(n)) ==> held_namings(*old(m))[0] == Some((n.0, n.1@)),
        r matches Some(Err(_)) ==> held_namings(*old(m))[0] is None,
{
    m.next().map(|r| r.map(|n| (n.index, n.name.to_string())))
}

/// Relies on `wasmparser::OperatorsReader::eof`: whether every instruction was read.
#[verifier::external_body]
fn operators_done<'a>(r: &wasmparser::OperatorsReader<'a>) -> (done: bool)
    ensures
        done <==> held_operators(*r).len() == 0,
{
    r.eof()
}

/// Relies on `wasmparser::OperatorsReader::read`: the next instruction,
/// kept only as far as it is a direct or tail call.
#[verifier::external_body]
fn next_call_site<'a>(r: &mut wasmparser::OperatorsReader<'a>) -> (res: Result<CallSite, wasmparser::Error>)
    requires
        held_operators(*old(r)).len() > 0,
    ensures
        res matches Ok(c) ==> held_operators(*old(r))[0] == Some(c) && held_operators(*final(r))
            == held_operators(*old(r)).drop_first(),
        res is Err ==> held_operators(*old(r))[0] is None,
{
    Ok(match r.read()? {
        Operator::Call { function_index } => CallSite::Call(function_index),
        Operator::ReturnCall { function_index } => CallSite::ReturnCall(function_index),
        _ => CallSite::Other,
    })
}

/// Relies on `Display` of `wasmparser::Error`: its message and offset as text.
#[verifier::external_body]
fn error_text(e: &wasmparser::Error) -> String {
    e.to_string()
}

/// Why a module could not be decoded.
#[derive(Debug)]
pub enum DecodeError {
    /// The binary is malformed; the decoder's message.
    Malformed(String),
    /// The module has more functions than `u32` ids can number.
    TooManyFunctions,
}

pub open spec fn is_function_kind(k: ItemKind) -> bool {
    k is Func || k is FuncExact
}

/// The function imports among `items` as (module, name), or `None` when one
/// fails to decode.
pub open spec fn import_items(items: Seq<Option<ImportView>>) -> Option<Seq<(Seq<char>, Seq<char>)>>
    decreases items.len(),
{
    if items.len() == 0 {
        Some(Seq::empty())
    } else {
        match items[0] {
            None => None,
            Some(i) => match import_items(items.drop_first()) {
                None => None,
                Some(rest) => Some(
                    if is_function_kind(i.2) {
                        seq![(i.0, i.1)] + rest
                    } else {
                        rest
                    },
                ),
            },
        }
    }
}

/// The function imports of an import section's groups, in order, or `None`
/// when anything fails to decode.
pub open spec fn import_groups(groups: Seq<Option<Seq<Option<ImportView>>>>) -> Option<Seq<(Seq<char>, Seq<char>)>>
    decreases groups.len(),
{
    if groups.len() == 0 {
        Some(Seq::empty())
    } else {
        match groups[0] {
            None => None,
            Some(items) => match (import_items(items), import_groups(groups.drop_first())) {
                (Some(a), Some(b)) => Some(a + b),
                _ => None,
            },
        }
    }
}

/// The function exports among `items` as (name, index), or `None` when one
/// fails to decode.
pub open spec fn export_items(items: Seq<Option<ExportView>>) -> Option<Seq<(Seq<char>, u32)>>
    decreases items.len(),
{
    if items.len() == 0 {
        Some(Seq::empty())
    } else {
        match items[0] {
            None => None,
            Some(e) => match export_items(items.drop_first()) {
                None => None,
                Some(rest) => Some(
                    if is_function_kind(e.1) {
                        seq![(e.0, e.2)] + rest
                    } else {
                        rest
                    },
                ),
            },
        }
    }
}

/// The entries of a name map that decode.
pub open spec fn naming_items(items: Seq<Option<NamingView>>) -> Seq<NamingView>
    decreases items.len(),
{
    if items.len() == 0 {
        Seq::empty()
    } else {
        match items[0] {
            None => naming_items(items.drop_first()),
            Some(n) => seq![n] + naming_items(items.drop_first()),
        }
    }
}

/// The function names of a name section's subsections that decode.
pub open spec fn debug_name_items(subsections: Seq<Option<Option<Seq<Option<NamingView>>>>>) -> Seq<NamingView>
    decreases subsections.len(),
{
    if subsections.len() == 0 {
        Seq::empty()
    } else {
        match subsections[0] {
            Some(Some(map)) => naming_items(map) + debug_name_items(subsections.drop_first()),
            _ => debug_name_items(subsections.drop_first()),
        }
    }
}

/// The callees of a body's direct and tail calls in order, or `None` when an
/// instruction fails to decode.
pub open spec fn call_items(ops: Seq<Option<CallSite>>) -> Option<Seq<u32>>
    decreases ops.len(),
{
    if ops.len() == 0 {
        Some(Seq::empty())
    } else {
        match ops[0] {
            None => None,
            Some(op) => match call_items(ops.drop_first()) {
                None => None,
                Some(rest) => Some(
                    match op {
                        CallSite::Call(i) => seq![i] + rest,
                        CallSite::ReturnCall(i) => seq![i] + rest,
                        CallSite::Other => rest,
                    },
                ),
            },
        }
    }
}

/// `f` with what one payload adds, or `None` when it fails to decode.
pub open spec fn add_payload(f: FactsView, p: PayloadView) -> Option<FactsView> {
    match p {
        PayloadView::Imports(g) => match import_groups(g) {
            Some(a) => Some(FactsView { imports: f.imports + a, ..f }),
            None => None,
        },
        PayloadView::Exports(x) => match export_items(x) {
            Some(a) => Some(FactsView { exports: f.exports + a, ..f }),
            None => None,
        },
        PayloadView::Names(s) => Some(FactsView { debug_names: f.debug_names + debug_name_items(s), ..f }),
        PayloadView::Code(Some(ops)) => match call_items(ops) {
            Some(c) => Some(FactsView { bodies: f.bodies.push(c), ..f }),
            None => None,
        },
        PayloadView::Code(None) => None,
        PayloadView::Other => Some(f),
    }
}

/// `f` with what `payloads` add in order, or `None` when one fails to decode.
pub open spec fn facts_from(f: FactsView, payloads: Seq<Option<PayloadView>>) -> Option<FactsView>
    decreases payloads.len(),
{
    if payloads.len() == 0 {
        Some(f)
    } else {
        match payloads[0] {
            None => None,
            Some(p) => match add_payload(f, p) {
                None => None,
                Some(g) => facts_from(g, payloads.drop_first()),
            },
        }
    }
}

/// The facts a module's binary declares, or `None` when it fails to decode.
pub open spec fn facts_of(bytes: Seq<u8>) -> Option<FactsView> {
    facts_from(
        FactsView {
            imports: Seq::empty(),
            exports: Seq::empty(),
            debug_names: Seq::empty(),
            bodies: Seq::empty(),
        },
        payloads_of(bytes),
    )
}

/// `acc` in front of what `rest` gives, if anything.
pub open spec fn prefixed<A>(acc: Seq<A>, rest: Option<Seq<A>>) -> Option<Seq<A>> {
    match rest {
        Some(b) => Some(acc + b),
        None => None,
    }
}

pub open spec fn import_pairs(v: Seq<(String, String)>) -> Seq<(Seq<char>, Seq<char>)> {
    v.map_values(|p: (String, String)| (p.0@, p.1@))
}

pub open spec fn export_pairs(v: Seq<(String, u32)>) -> Seq<(Seq<char>, u32)> {
    v.map_values(|p: (String, u32)| (p.0@, p.1))
}

pub open spec fn naming_pairs(v: Seq<(u32, String)>) -> Seq<(u32, Seq<char>)> {
    v.map_values(|p: (u32, String)| (p.0, p.1@))
}

proof fn lemma_prefixed_push<A>(acc: Seq<A>, x: A, rest: Option<Seq<A>>)
    ensures
        prefixed(
            acc,
            match rest {
                Some(b) => Some(seq![x] + b),
                None => None,
            },
        ) == prefixed(acc.push(x), rest),
{
    match rest {
        Some(b) => {
            assert(acc + (seq![x] + b) =~= acc.push(x) + b);
        },
        None => {},
    }
}

fn is_function(kind: &ItemKind) -> (r: bool)
    ensures
        r == is_function_kind(*kind),
{
    match kind {
        ItemKind::Func => true,
        ItemKind::FuncExact => true,
        _ => false,
    }
}

fn malformed(e: &wasmparser::Error) -> (r: DecodeError)
    ensures
        r is Malformed,
{
    DecodeError::Malformed(error_text(e))
}

/// Appends the function imports of an import section to `imports`; fails
/// when anything in the section fails to decode.
fn read_imports<'a>(
    groups: &mut wasmparser::SectionLimitedIntoIter<'a, wasmparser::Imports<'a>>,
    imports: &mut Vec<(String, String)>,
) -> (r: Result<(), DecodeError>)
    ensures
        match import_groups(held_groups(*old(groups))) {
            Some(a) => r is Ok && import_pairs(final(imports)@) == import_pairs(old(imports)@) + a,
            None => r matches Err(DecodeError::Malformed(_)),
        },
{
    let ghost whole = import_groups(held_groups(*groups));
    let ghost start = import_pairs(imports@);
    let ghost mut acc: Seq<(Seq<char>, Seq<char>)> = Seq::empty();
    loop
        invariant
            whole == import_groups(held_groups(*old(groups))),
            start == import_pairs(old(imports)@),
            import_pairs(imports@) == start + acc,
            whole == prefixed(acc, import_groups(held_groups(*groups))),
        decreases held_groups(*groups).len(),
    {
        let ghost held = held_groups(*groups);
        match next_import_group(groups) {
            None => {
                assert(acc + Seq::empty() =~= acc);
                return Ok(());
            },
            Some(Err(e)) => {
                return Err(malformed(&e));
            },
            Some(Ok(mut items)) => {
                let ghost group = held_imports(items);
                let ghost mut taken: Seq<(Seq<char>, Seq<char>)> = Seq::empty();
                assert(held.drop_first() == held_groups(*groups));
                loop
                    invariant
                        whole == import_groups(held_groups(*old(groups))),
                        start == import_pairs(old(imports)@),
                        held.len() > 0,
                        held[0] == Some(group),
                        held.drop_first() == held_groups(*groups),
                        whole == prefixed(acc, import_groups(held)),
                        import_pairs(imports@) == start + acc + taken,
                        import_items(group) == prefixed(taken, import_items(held_imports(items))),
                    ensures
                        import_items(group) == Some(taken),
                    decreases held_imports(items).len(),
                {
                    let ghost before = held_imports(items);
                    let ghost prior = imports@;
                    match next_import(&mut items) {
                        None => {
                            assert(taken + Seq::empty() =~= taken);
                            assert(import_items(held_imports(items)) == Some(Seq::<(Seq<char>, Seq<char>)>::empty()));
                            break;
                        },
                        Some(Err(e)) => {
                            return Err(malformed(&e));
                        },
                        Some(Ok((module, name, kind))) => {
                            let ghost item = (module@, name@, kind);
                            if is_function(&kind) {
                                imports.push((module, name));
                                assert(import_pairs(imports@) =~= import_pairs(prior).push((item.0, item.1)));
                                proof {
                                    assert(import_items(group) == prefixed(
                                        taken.push((item.0, item.1)),
                                        import_items(held_imports(items)),
                                    )) by {
                                        match import_items(held_imports(items)) {
                                            Some(rest) => {
                                                assert(taken + (seq![(item.0, item.1)] + rest) =~= taken.push(
                                                    (item.0, item.1),
                                                ) + rest);
                                            },
                                            None => {},
                                        }
                                    }
                                    taken = taken.push((item.0, item.1));
                                }
                                assert(start + acc + taken =~= import_pairs(imports@));
                            }
                        },
                    }
                }
                proof {
                    assert(import_items(group) == Some(taken));
                    match import_groups(held_groups(*groups)) {
                        Some(b) => {
                            assert(acc + (taken + b) =~= (acc + taken) + b);
                        },
                        None => {},
                    }
                    acc = acc + taken;
                }
                assert(import_pairs(imports@) =~= start + acc);
            },
        }
    }
}

/// Appends the function exports of an export section to `exports`; fails
/// when an export fails to decode.
fn read_exports<'a>(
    items: &mut wasmparser::SectionLimitedIntoIter<'a, wasmparser::Export<'a>>,
    exports: &mut Vec<(String, u32)>,
) -> (r: Result<(), DecodeError>)
    ensures
        match export_items(held_exports(*old(items))) {
            Some(a) => r is Ok && export_pairs(final(exports)@) == export_pairs(old(exports)@) + a,
            None => r matches Err(DecodeError::Malformed(_)),
        },
{
    let ghost whole = export_items(held_exports(*items));
    let ghost start = export_pairs(exports@);
    let ghost mut taken: Seq<(Seq<char>, u32)> = Seq::empty();
    loop
        invariant
            whole == export_items(held_exports(*old(items))),
            start == export_pairs(old(exports)@),
            export_pairs(exports@) == start + taken,
            whole == prefixed(taken, export_items(held_exports(*items))),
        decreases held_exports(*items).len(),
    {
        let ghost prior = exports@;
        match next_export(items) {
            None => {
                assert(taken + Seq::empty() =~= taken);
                return Ok(());
            },
            Some(Err(e)) => {
                return Err(malformed(&e));
            },
            Some(Ok((name, kind, index))) => {
                let ghost item = (name@, index);
                if is_function(&kind) {
                    exports.push((name, index));
                    assert(export_pairs(exports@) =~= export_pairs(prior).push(item));
                    proof {
                        match export_items(held_exports(*items)) {
                            Some(rest) => {
                                assert(taken + (seq![item] + rest) =~= taken.push(item) + rest);
                            },
                            None => {},
                        }
                        taken = taken.push(item);
                    }
                    assert(start + taken =~= export_pairs(exports@));
                }
            },
        }
    }
}

/// Appends the function names of a debug name section to `names`; entries
/// and subsections that fail to decode are skipped.
fn read_debug_names<'a>(section: &mut wasmparser::NameSectionReader<'a>, names: &mut Vec<(u32, String)>)
    ensures
        naming_pairs(final(names)@) == naming_pairs(old(names)@) + debug_name_items(held_subsections(*old(section))),
{
    let ghost whole = debug_name_items(held_subsections(*section));
    let ghost start = naming_pairs(names@);
    let ghost mut acc: Seq<(u32, Seq<char>)> = Seq::empty();
    loop
        invariant
            whole == debug_name_items(held_subsections(*old(section))),
            start == naming_pairs(old(names)@),
            naming_pairs(names@) == start + acc,
            whole == acc + debug_name_items(held_subsections(*section)),
        decreases held_subsections(*section).len(),
    {
        let ghost held = held_subsections(*section);
        match next_name_subsection(section) {
            None => {
                assert(acc + Seq::empty() =~= acc);
                return;
            },
            Some(Ok(Some(mut map))) => {
                let ghost entries = held_namings(map);
                let ghost mut taken: Seq<(u32, Seq<char>)> = Seq::empty();
                loop
                    invariant
                        whole == debug_name_items(held_subsections(*old(section))),
                        start == naming_pairs(old(names)@),
                        held.len() > 0,
                        held[0] == Some(Some(entries)),
                        held.drop_first() == held_subsections(*section),
                        whole == acc + debug_name_items(held),
                        naming_pairs(names@) == start + acc + taken,
                        naming_items(entries) == taken + naming_items(held_namings(map)),
                    ensures
                        naming_items(entries) == taken,
                    decreases held_namings(map).len(),
                {
                    let ghost prior = names@;
                    match next_naming(&mut map) {
                        None => {
                            assert(taken + Seq::empty() =~= taken);
                            break;
                        },
                        Some(Ok(entry)) => {
                            let ghost item = (entry.0, entry.1@);
                            names.push(entry);
                            assert(naming_pairs(names@) =~= naming_pairs(prior).push(item));
                            proof {
                                assert(taken + (seq![item] + naming_items(held_namings(map))) =~= taken.push(item)
                                    + naming_items(held_namings(map)));
                                taken = taken.push(item);
                            }
                            assert(start + acc + taken =~= naming_pairs(names@));
                        },
                        Some(Err(_)) => {},
                    }
                }
                proof {
                    assert(acc + (taken + debug_name_items(held_subsections(*section))) =~= (acc + taken)
                        + debug_name_items(held_subsections(*section)));
                    acc = acc + taken;
                }
                assert(naming_pairs(names@) =~= start + acc);
            },
            Some(_) => {},
        }
    }
}

/// The callees of a body's direct and tail calls, in order; fails when an
/// instruction fails to decode.
fn read_calls<'a>(reader: &mut wasmparser::OperatorsReader<'a>) -> (r: Result<Vec<u32>, DecodeError>)
    ensures
        match call_items(held_operators(*old(reader))) {
            Some(c) => r matches Ok(v) && v@ == c,
            None => r matches Err(DecodeError::Malformed(_)),
        },
{
    let ghost whole = call_items(held_operators(*reader));
    let mut callees: Vec<u32> = Vec::new();
    while !operators_done(reader)
        invariant
            whole == call_items(held_operators(*old(reader))),
            whole == prefixed(callees@, call_items(held_operators(*reader))),
        decreases held_operators(*reader).len(),
    {
        let ghost prior = callees@;
        match next_call_site(reader) {
            Ok(site) => {
                let ghost rest = call_items(held_operators(*reader));
                match site {
                    CallSite::Call(id) => {
                        callees.push(id);
                        proof {
                            lemma_prefixed_push(prior, id, rest);
                        }
                    },
                    CallSite::ReturnCall(id) => {
                        callees.push(id);
                        proof {
                            lemma_prefixed_push(prior, id, rest);
                        }
                    },
                    CallSite::Other => {},
                }
            },
            Err(e) => {
                return Err(malformed(&e));
            },
        }
    }
    assert(callees@ + Seq::empty() =~= callees@);
    Ok(callees)
}

/// Reads what the call graph is built from out of a module's binary: its
/// function imports, function exports, debug function names, and the calls
/// of each function body, each in the order the binary gives them. Fails
/// exactly when a payload, an import, an export, or an instruction fails to
/// decode; debug-name entries that fail to decode are skipped.
pub fn read_module_facts(wasm_bytes: &[u8]) -> (r: Result<ModuleFacts, DecodeError>)
    ensures
        match facts_of(wasm_bytes@) {
            Some(f) => r matches Ok(m) && m@ == f,
            None => r matches Err(DecodeError::Malformed(_)),
        },
{
    let mut facts = ModuleFacts {
        imports: Vec::new(),
        exports: Vec::new(),
        debug_names: Vec::new(),
        bodies: Vec::new(),
    };
    let payloads = all_payloads(wasm_bytes);
    let ghost ps = payloads_of(wasm_bytes@);
    assert(facts@.imports =~= Seq::empty());
    assert(facts@.exports =~= Seq::empty());
    assert(facts@.debug_names =~= Seq::empty());
    assert(facts@.bodies =~= Seq::empty());
    assert(facts@ == (FactsView {
        imports: Seq::empty(),
        exports: Seq::empty(),
        debug_names: Seq::empty(),
        bodies: Seq::empty(),
    }));
    assert(ps.skip(0) =~= ps);
    let mut i: usize = 0;
    while i < payloads.len()
        invariant
            ps == payloads_of(wasm_bytes@),
            payloads@.len() == ps.len(),
            forall|j: int|
                0 <= j < payloads@.len() ==> match #[trigger] payloads@[j] {
                    Ok(p) => ps[j] == Some(payload_view(p)),
                    Err(_) => ps[j] is None,
                },
            i <= ps.len(),
            facts_of(wasm_bytes@) == facts_from(facts@, ps.skip(i as int)),
        decreases ps.len() - i,
    {
        let ghost before = facts@;
        assert(ps.skip(i as int)[0] == ps[i as int]);
        assert(ps.skip(i as int).drop_first() =~= ps.skip(i + 1));
        let payload = match &payloads[i] {
            Ok(p) => p,
            Err(e) => {
                assert(payloads@[i as int] is Err);
                return Err(malformed(e));
            },
        };
        assert(ps[i as int] == Some(payload_view(*payload)));
        match classify(payload) {
            Section::Imports(mut groups) => {
                match read_imports(&mut groups, &mut facts.imports) {
                    Ok(()) => {
                        assert(facts@ =~= add_payload(before, payload_view(*payload))->Some_0);
                    },
                    Err(e) => {
                        return Err(e);
                    },
                }
            },
            Section::Exports(mut items) => {
                match read_exports(&mut items, &mut facts.exports) {
                    Ok(()) => {
                        assert(facts@ =~= add_payload(before, payload_view(*payload))->Some_0);
                    },
                    Err(e) => {
                        return Err(e);
                    },
                }
            },
            Section::Names(mut names) => {
                read_debug_names(&mut names, &mut facts.debug_names);
                assert(facts@ =~= add_payload(before, payload_view(*payload))->Some_0);
            },
            Section::Code(Ok(mut reader)) => {
                match read_calls(&mut reader) {
                    Ok(callees) => {
                        let ghost c = callees@;
                        facts.bodies.push(callees);
                        assert(facts@.bodies =~= before.bodies.push(c));
                        assert(facts@ =~= add_payload(before, payload_view(*payload))->Some_0);
                    },
                    Err(e) => {
                        return Err(e);
                    },
                }
            },
            Section::Code(Err(e)) => {
                return Err(malformed(&e));
            },
            Section::Other => {
                assert(facts@ =~= add_payload(before, payload_view(*payload))->Some_0);
            },
        }
        i = i + 1;
    }
    assert(ps.skip(i as int).len() == 0);
    Ok(facts)
}

/// Parse a wasm module and extract call graph data
///
/// Decodes the binary with [`read_module_facts`], then builds its graph with
/// [`build_call_graph`], import names translated through `env_symbol_map`
/// when one is given. Fails when the binary does not decode, or when it has
/// more functions than `u32` ids can number.
pub fn parse_wasm_module(wasm_bytes: &[u8], env_symbol_map: Option<&NameTable>) -> (r: Result<CallGraphData, DecodeError>)
    ensures
        match facts_of(wasm_bytes@) {
            Some(f) => if f.total() <= u32::MAX {
                r matches Ok(g) && g@ == f.graph(opt_table(env_symbol_map)) && g@.wf()
            } else {
                r matches Err(DecodeError::TooManyFunctions)
            },
            None => r matches Err(DecodeError::Malformed(_)),
        },
{
    let facts = match read_module_facts(wasm_bytes) {
        Ok(f) => f,
        Err(e) => {
            return Err(e);
        },
    };
    if facts.imports.len() > u32::MAX as usize || facts.bodies.len() > u32::MAX as usize - facts.imports.len() {
        return Err(DecodeError::TooManyFunctions);
    }
    Ok(build_call_graph(&facts, env_symbol_map))
}

} // verus!
