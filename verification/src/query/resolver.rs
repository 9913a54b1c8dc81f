//! Resolves the names that calls use through the imports of a Python file,
//! with Python's scoping rules.
use vstd::prelude::*;
use crate::syntax::{SyntaxTree, TreeView};
use crate::text::{
    append_chars, chars_eq, find, is_name_char, slice_to_vec_range, spec_find, spec_is_name_char,
    string_of,
};
use crate::words::{
    w_aliased_import, w_alias, w_as_pattern, w_assignment, w_attribute, w_augmented_assignment,
    w_body, w_class_definition, w_dictionary_comprehension, w_dictionary_splat_pattern,
    w_except_clause, w_for_in_clause, w_for_statement, w_function_definition,
    w_generator_expression, w_global_statement, w_identifier, w_import_from_statement,
    w_import_statement, w_keyword_identifier, w_lambda, w_left, w_list_comprehension,
    w_list_splat_pattern, w_module_name, w_name, w_named_expression, w_nonlocal_statement,
    w_parameters, w_set_comprehension, w_subscript, w_tuple_pattern, word_aliased_import,
    word_alias, word_as_pattern, word_assignment, word_attribute, word_augmented_assignment,
    word_body, word_class_definition, word_dictionary_comprehension,
    word_dictionary_splat_pattern, word_except_clause, word_for_in_clause, word_for_statement,
    word_function_definition, word_generator_expression, word_global_statement, word_identifier,
    word_import_from_statement, word_import_statement, word_keyword_identifier, word_lambda,
    word_left, word_list_comprehension, word_list_splat_pattern, word_module_name, word_name,
    word_named_expression, word_nonlocal_statement, word_parameters, word_set_comprehension,
    word_subscript, word_tuple_pattern,
};

verus! {

#[derive(Clone, Copy, Debug, PartialEq, Eq, Structural)]
pub enum ScopeKind {
    Module,
    Function,
    Class,
    Lambda,
    Comprehension,
}

/// A name bound in a scope at a position: to an imported module or object
/// (its canonical dotted name), or to anything else.
pub struct Binding {
    pub name: Vec<char>,
    pub position: usize,
    pub import: Option<Vec<char>>,
}

pub struct Scope {
    pub kind: ScopeKind,
    pub start: usize,
    pub end: usize,
    pub parent: Option<usize>,
    pub bindings: Vec<Binding>,
    pub globals: Vec<Vec<char>>,
    pub nonlocals: Vec<Vec<char>>,
}

pub struct BindingView {
    pub name: Seq<char>,
    pub position: int,
    pub import: Option<Seq<char>>,
}

pub struct ScopeView {
    pub kind: ScopeKind,
    pub start: int,
    pub end: int,
    pub parent: Option<int>,
    pub bindings: Seq<BindingView>,
    pub globals: Seq<Seq<char>>,
    pub nonlocals: Seq<Seq<char>>,
}

impl View for Binding {
    type V = BindingView;

    open spec fn view(&self) -> BindingView {
        BindingView {
            name: self.name@,
            position: self.position as int,
            import: match &self.import {
                Some(m) => Some(m@),
                None => None,
            },
        }
    }
}

impl View for Scope {
    type V = ScopeView;

    open spec fn view(&self) -> ScopeView {
        ScopeView {
            kind: self.kind,
            start: self.start as int,
            end: self.end as int,
            parent: match self.parent {
                Some(p) => Some(p as int),
                None => None,
            },
            bindings: self.bindings@.map_values(|b: Binding| b@),
            globals: names_of(self.globals@),
            nonlocals: names_of(self.nonlocals@),
        }
    }
}

#[derive(Debug, PartialEq, Eq)]
pub enum NameResolution {
    Canonical(String),
    ShadowedImport,
    Unresolved,
}

pub enum NameResolutionView {
    Canonical(Seq<char>),
    ShadowedImport,
    Unresolved,
}

impl View for NameResolution {
    type V = NameResolutionView;

    open spec fn view(&self) -> NameResolutionView {
        match self {
            NameResolution::Canonical(s) => NameResolutionView::Canonical(s@),
            NameResolution::ShadowedImport => NameResolutionView::ShadowedImport,
            NameResolution::Unresolved => NameResolutionView::Unresolved,
        }
    }
}

/// What the first segment of a dotted name stands for.
pub enum RootResolution {
    Import(Seq<char>),
    ShadowedImport,
    Unresolved,
}

/// `RootResolution` with the module as characters.
pub enum RootLookup {
    Import(Vec<char>),
    ShadowedImport,
    Unresolved,
}

impl View for RootLookup {
    type V = RootResolution;

    open spec fn view(&self) -> RootResolution {
        match self {
            RootLookup::Import(m) => RootResolution::Import(m@),
            RootLookup::ShadowedImport => RootResolution::ShadowedImport,
            RootLookup::Unresolved => RootResolution::Unresolved,
        }
    }
}

pub struct NameResolver {
    pub scopes: Vec<Scope>,
}

// ---------------------------------------------------------------------------
// Resolution
// ---------------------------------------------------------------------------

pub open spec fn names_of(v: Seq<Vec<char>>) -> Seq<Seq<char>> {
    v.map_values(|x: Vec<char>| x@)
}

/// Scopes in which a function-like body runs: they see neither the names of
/// enclosing classes nor, for a name they bind, the enclosing binding.
pub open spec fn is_function_like(kind: ScopeKind) -> bool {
    kind == ScopeKind::Function || kind == ScopeKind::Lambda || kind == ScopeKind::Comprehension
}

/// The scope that takes over from `p` upwards when class scopes are skipped.
pub open spec fn skip_classes(scopes: Seq<ScopeView>, p: int) -> Option<int>
    decreases p,
{
    if p < 0 || p >= scopes.len() {
        None
    } else if scopes[p].kind == ScopeKind::Class {
        match scopes[p].parent {
            Some(q) => if 0 <= q < p {
                skip_classes(scopes, q)
            } else {
                None
            },
            None => None,
        }
    } else {
        Some(p)
    }
}

/// The scope where a lookup continues after scope `s`: its parent, skipping
/// class scopes for a function-like scope.
pub open spec fn next_scope(scopes: Seq<ScopeView>, s: int) -> Option<int> {
    match scopes[s].parent {
        None => None,
        Some(p) => if is_function_like(scopes[s].kind) {
            skip_classes(scopes, p)
        } else {
            Some(p)
        },
    }
}

/// Among the bindings of `name` at positions up to `position`, from the
/// `k`th binding on, the one with the greatest position (the last such one
/// on a tie), starting from the best one before `k`.
pub open spec fn previous_binding_from(
    bindings: Seq<BindingView>,
    name: Seq<char>,
    position: int,
    k: int,
    best: Option<int>,
) -> Option<int>
    decreases bindings.len() - k,
{
    if k < 0 || k >= bindings.len() {
        best
    } else if bindings[k].name == name && bindings[k].position <= position && (best is None
        || bindings[best->0].position <= bindings[k].position) {
        previous_binding_from(bindings, name, position, k + 1, Some(k))
    } else {
        previous_binding_from(bindings, name, position, k + 1, best)
    }
}

pub open spec fn previous_binding(bindings: Seq<BindingView>, name: Seq<char>, position: int) -> Option<
    int,
> {
    previous_binding_from(bindings, name, position, 0, None)
}

pub open spec fn binds(bindings: Seq<BindingView>, name: Seq<char>) -> bool {
    exists|k: int| 0 <= k < bindings.len() && bindings[k].name == name
}

/// Whether an import of `name` is bound before position `before`.
pub open spec fn import_before(bindings: Seq<BindingView>, name: Seq<char>, before: int) -> bool {
    exists|k: int|
        0 <= k < bindings.len() && bindings[k].name == name && bindings[k].position < before
            && bindings[k].import is Some
}

/// What `name` stands for at `position`, looked up from scope `s` outwards.
///
/// A `global` name is looked up in the module; a `nonlocal` one in the
/// enclosing scopes. Where the scope binds the name, the last binding at or
/// before the position decides: an import gives its module; any other
/// binding shadows, and it shadows an import where an import of the name
/// came before it or where the name resolves to an import outside. A
/// function-like scope that binds the name only later still shadows the
/// outer name for the whole scope. Otherwise the lookup goes on outwards.
pub open spec fn spec_resolve_root(scopes: Seq<ScopeView>, s: int, name: Seq<char>, position: int) -> RootResolution
    decreases s, 2nat,
{
    if s < 0 || s >= scopes.len() {
        RootResolution::Unresolved
    } else {
        let current = scopes[s];
        if s != 0 && current.globals.contains(name) {
            spec_resolve_root(scopes, 0, name, position)
        } else if current.nonlocals.contains(name) {
            spec_resolve_parent(scopes, s, name, position)
        } else if binds(current.bindings, name) {
            match previous_binding(current.bindings, name, position) {
                Some(k) => match current.bindings[k].import {
                    Some(module) => RootResolution::Import(module),
                    None => if import_before(current.bindings, name, current.bindings[k].position)
                        || spec_parent_resolves_import(scopes, s, name, position) {
                        RootResolution::ShadowedImport
                    } else {
                        RootResolution::Unresolved
                    },
                },
                None => if is_function_like(current.kind) {
                    if spec_parent_resolves_import(scopes, s, name, position) {
                        RootResolution::ShadowedImport
                    } else {
                        RootResolution::Unresolved
                    }
                } else {
                    spec_resolve_parent(scopes, s, name, position)
                },
            }
        } else {
            spec_resolve_parent(scopes, s, name, position)
        }
    }
}

pub open spec fn spec_parent_resolves_import(scopes: Seq<ScopeView>, s: int, name: Seq<char>, position: int) -> bool
    decreases s, 1nat,
{
    match spec_resolve_parent(scopes, s, name, position) {
        RootResolution::Unresolved => false,
        _ => true,
    }
}

pub open spec fn spec_resolve_parent(scopes: Seq<ScopeView>, s: int, name: Seq<char>, position: int) -> RootResolution
    decreases s, 0nat,
{
    if s < 0 || s >= scopes.len() {
        RootResolution::Unresolved
    } else {
        match next_scope(scopes, s) {
            Some(p) => if 0 <= p < s {
                spec_resolve_root(scopes, p, name, position)
            } else {
                RootResolution::Unresolved
            },
            None => RootResolution::Unresolved,
        }
    }
}

/// The innermost scope at `position`: among the scopes that span it, the
/// first of the smallest span, from the `k`th on; the module where none does.
pub open spec fn innermost_from(scopes: Seq<ScopeView>, position: int, k: int, best: Option<int>) -> Option<int>
    decreases scopes.len() - k,
{
    if k < 0 || k >= scopes.len() {
        best
    } else if scopes[k].start <= position <= scopes[k].end && (best is None || scopes[k].end
        - scopes[k].start < scopes[best->0].end - scopes[best->0].start) {
        innermost_from(scopes, position, k + 1, Some(k))
    } else {
        innermost_from(scopes, position, k + 1, best)
    }
}

pub open spec fn spec_innermost_scope(scopes: Seq<ScopeView>, position: int) -> int {
    match innermost_from(scopes, position, 0, None) {
        Some(s) => s,
        None => 0,
    }
}

/// Where a dotted name's first segment ends: at its first `.`, or at its end.
pub open spec fn split_point(name: Seq<char>) -> int {
    match spec_find(name, '.') {
        Some(i) => i,
        None => name.len() as int,
    }
}

pub open spec fn all_name_chars(s: Seq<char>) -> bool {
    forall|i: int| 0 <= i < s.len() ==> spec_is_name_char(#[trigger] s[i])
}

/// A dotted name split before its first `.`, where the first segment is a
/// nonempty run of `_` and ASCII letters and digits.
pub open spec fn spec_split_name(name: Seq<char>) -> Option<(Seq<char>, Seq<char>)> {
    let root = name.subrange(0, split_point(name));
    if root.len() > 0 && all_name_chars(root) {
        Some((root, name.subrange(split_point(name), name.len() as int)))
    } else {
        None
    }
}

/// What a called name stands for at `position`: the canonical dotted name
/// where its first segment resolves to an import, or why not.
pub open spec fn spec_resolve(scopes: Seq<ScopeView>, position: int, name: Seq<char>) -> NameResolutionView {
    match spec_split_name(name) {
        None => NameResolutionView::Unresolved,
        Some((root, suffix)) => match spec_resolve_root(
            scopes,
            spec_innermost_scope(scopes, position),
            root,
            position,
        ) {
            RootResolution::Import(module) => NameResolutionView::Canonical(module + suffix),
            RootResolution::ShadowedImport => NameResolutionView::ShadowedImport,
            RootResolution::Unresolved => NameResolutionView::Unresolved,
        },
    }
}


// ---------------------------------------------------------------------------
// Collecting the scopes and bindings of a file
// ---------------------------------------------------------------------------

pub open spec fn add_binding(
    st: Seq<ScopeView>,
    scope: int,
    name: Seq<char>,
    position: int,
    import: Option<Seq<char>>,
) -> Seq<ScopeView> {
    if 0 <= scope < st.len() {
        st.update(
            scope,
            ScopeView {
                bindings: st[scope].bindings.push(BindingView { name, position, import }),
                ..st[scope]
            },
        )
    } else {
        st
    }
}

pub open spec fn add_declaration(st: Seq<ScopeView>, scope: int, name: Seq<char>, global: bool) -> Seq<ScopeView> {
    if 0 <= scope < st.len() {
        if global {
            st.update(scope, ScopeView { globals: st[scope].globals.push(name), ..st[scope] })
        } else {
            st.update(scope, ScopeView { nonlocals: st[scope].nonlocals.push(name), ..st[scope] })
        }
    } else {
        st
    }
}

pub open spec fn new_scope(kind: ScopeKind, start: int, end: int, parent: int) -> ScopeView {
    ScopeView {
        kind,
        start,
        end,
        parent: Some(parent),
        bindings: seq![],
        globals: seq![],
        nonlocals: seq![],
    }
}

/// The text of a dotted name up to its first `.`.
pub open spec fn first_segment(name: Seq<char>) -> Seq<char> {
    match spec_find(name, '.') {
        Some(i) => name.subrange(0, i),
        None => name,
    }
}

pub open spec fn is_named_child(t: TreeView, node: int, k: int) -> bool {
    let c = t.child(node, k);
    node < c < t.len() && t.node(c).named
}

/// The names that an assignment target binds, each bound at `position`.
pub open spec fn c_targets(t: TreeView, target: int, scope: int, position: int, st: Seq<ScopeView>) -> Seq<
    ScopeView,
>
    decreases t.len() - target, 1nat, 0int,
{
    if !(0 <= target < t.len()) {
        st
    } else if t.is_kind(target, w_identifier()) || t.is_kind(target, w_keyword_identifier()) {
        add_binding(st, scope, t.text(target), position, None)
    } else if t.is_kind(target, w_attribute()) || t.is_kind(target, w_subscript()) {
        st
    } else {
        c_target_children(t, target, 0, scope, position, st)
    }
}

pub open spec fn c_target_children(
    t: TreeView,
    target: int,
    k: int,
    scope: int,
    position: int,
    st: Seq<ScopeView>,
) -> Seq<ScopeView>
    decreases t.len() - target, 0nat, t.child_count(target) - k,
{
    if !(0 <= target < t.len()) || k < 0 || k >= t.child_count(target) {
        st
    } else {
        let next = if is_named_child(t, target, k) {
            c_targets(t, t.child(target, k), scope, position, st)
        } else {
            st
        };
        c_target_children(t, target, k + 1, scope, position, next)
    }
}

/// The node that a parameter binds: itself for a name or a tuple, its
/// `name` field otherwise, or itself for a bare `*args` or `**kwargs`.
pub open spec fn parameter_target(t: TreeView, p: int) -> Option<int> {
    if t.is_kind(p, w_identifier()) || t.is_kind(p, w_tuple_pattern()) {
        Some(p)
    } else {
        match t.field_child(p, w_name()) {
            Some(n) => Some(n),
            None => if t.is_kind(p, w_list_splat_pattern()) || t.is_kind(
                p,
                w_dictionary_splat_pattern(),
            ) {
                Some(p)
            } else {
                None
            },
        }
    }
}

/// The parameters of a function or lambda, bound at position 0 of its scope.
pub open spec fn c_parameters(t: TreeView, params: int, k: int, scope: int, st: Seq<ScopeView>) -> Seq<
    ScopeView,
>
    decreases t.child_count(params) - k,
{
    if !(0 <= params < t.len()) || k < 0 || k >= t.child_count(params) {
        st
    } else {
        let next = if is_named_child(t, params, k) {
            match parameter_target(t, t.child(params, k)) {
                Some(target) => c_targets(t, target, scope, 0, st),
                None => st,
            }
        } else {
            st
        };
        c_parameters(t, params, k + 1, scope, next)
    }
}

/// The name that an import binds and the canonical name it stands for.
pub open spec fn import_binding(module: Option<Seq<char>>, name: Seq<char>, alias: Option<Seq<char>>) -> (
    Seq<char>,
    Seq<char>,
) {
    match module {
        Some(m) => (
            match alias {
                Some(a) => a,
                None => first_segment(name),
            },
            m + seq!['.'] + name,
        ),
        None => match alias {
            Some(a) => (a, name),
            None => (first_segment(name), first_segment(name)),
        },
    }
}

pub open spec fn field_text(t: TreeView, node: int, field: Seq<char>) -> Option<Seq<char>> {
    match t.field_child(node, field) {
        Some(c) => Some(t.text(c)),
        None => None,
    }
}

/// The names that an import statement binds, from its `k`th child on.
pub open spec fn c_imports(
    t: TreeView,
    node: int,
    k: int,
    scope: int,
    module: Option<Seq<char>>,
    st: Seq<ScopeView>,
) -> Seq<ScopeView>
    decreases t.child_count(node) - k,
{
    if !(0 <= node < t.len()) || k < 0 || k >= t.child_count(node) {
        st
    } else {
        let imported = t.child(node, k);
        let next = if t.child_has_field(node, k, w_name()) && node < imported < t.len() {
            let (name, alias) = if t.is_kind(imported, w_aliased_import()) {
                (field_text(t, imported, w_name()), field_text(t, imported, w_alias()))
            } else {
                (Some(t.text(imported)), None)
            };
            match name {
                Some(n) => {
                    let (bound, canonical) = import_binding(module, n, alias);
                    add_binding(st, scope, bound, t.node(node).start_byte as int, Some(canonical))
                },
                None => st,
            }
        } else {
            st
        };
        c_imports(t, node, k + 1, scope, module, next)
    }
}

/// The names that a `global` or `nonlocal` statement declares.
pub open spec fn c_declarations(
    t: TreeView,
    node: int,
    k: int,
    scope: int,
    global: bool,
    st: Seq<ScopeView>,
) -> Seq<ScopeView>
    decreases t.child_count(node) - k,
{
    if !(0 <= node < t.len()) || k < 0 || k >= t.child_count(node) {
        st
    } else {
        let next = if is_named_child(t, node, k) {
            add_declaration(st, scope, t.text(t.child(node, k)), global)
        } else {
            st
        };
        c_declarations(t, node, k + 1, scope, global, next)
    }
}

pub open spec fn c_field_targets(t: TreeView, node: int, field: Seq<char>, scope: int, st: Seq<ScopeView>) -> Seq<
    ScopeView,
> {
    match t.field_child(node, field) {
        Some(target) => c_targets(t, target, scope, t.node(node).start_byte as int, st),
        None => st,
    }
}

/// What a statement other than a definition binds in its scope.
pub open spec fn c_binding(t: TreeView, node: int, scope: int, st: Seq<ScopeView>) -> Seq<ScopeView> {
    if t.is_kind(node, w_import_statement()) {
        c_imports(t, node, 0, scope, None, st)
    } else if t.is_kind(node, w_import_from_statement()) {
        c_imports(t, node, 0, scope, field_text(t, node, w_module_name()), st)
    } else if t.is_kind(node, w_assignment()) || t.is_kind(node, w_augmented_assignment())
        || t.is_kind(node, w_for_statement()) || t.is_kind(node, w_for_in_clause()) {
        c_field_targets(t, node, w_left(), scope, st)
    } else if t.is_kind(node, w_named_expression()) {
        c_field_targets(t, node, w_name(), scope, st)
    } else if t.is_kind(node, w_except_clause()) || t.is_kind(node, w_as_pattern()) {
        c_field_targets(t, node, w_alias(), scope, st)
    } else if t.is_kind(node, w_global_statement()) {
        c_declarations(t, node, 0, scope, true, st)
    } else if t.is_kind(node, w_nonlocal_statement()) {
        c_declarations(t, node, 0, scope, false, st)
    } else {
        st
    }
}

/// A function or class binds its name where it is defined.
pub open spec fn c_definition(t: TreeView, node: int, scope: int, st: Seq<ScopeView>) -> Seq<ScopeView> {
    match field_text(t, node, w_name()) {
        Some(name) => add_binding(st, scope, name, t.node(node).start_byte as int, None),
        None => st,
    }
}

pub open spec fn is_comprehension(t: TreeView, node: int) -> bool {
    t.is_kind(node, w_list_comprehension()) || t.is_kind(node, w_set_comprehension()) || t.is_kind(
        node,
        w_dictionary_comprehension(),
    ) || t.is_kind(node, w_generator_expression())
}

/// The scopes and bindings that node `node`, in scope `scope`, adds to `st`.
pub open spec fn c_collect(t: TreeView, node: int, scope: int, st: Seq<ScopeView>) -> Seq<ScopeView>
    decreases t.len() - node, 2nat, 0int,
{
    if !(0 <= node < t.len()) {
        st
    } else if t.is_kind(node, w_function_definition()) {
        c_scoped_body(t, node, scope, ScopeKind::Function, c_definition(t, node, scope, st))
    } else if t.is_kind(node, w_class_definition()) {
        c_scoped_body(t, node, scope, ScopeKind::Class, c_definition(t, node, scope, st))
    } else if t.is_kind(node, w_lambda()) {
        c_scoped_body(t, node, scope, ScopeKind::Lambda, st)
    } else if is_comprehension(t, node) {
        c_scoped_node(t, node, scope, st)
    } else {
        c_children(t, node, 0, scope, c_binding(t, node, scope, st))
    }
}

pub open spec fn c_children(t: TreeView, node: int, k: int, scope: int, st: Seq<ScopeView>) -> Seq<
    ScopeView,
>
    decreases t.len() - node, 1nat, t.child_count(node) - k,
{
    if !(0 <= node < t.len()) || k < 0 || k >= t.child_count(node) {
        st
    } else {
        let next = if is_named_child(t, node, k) {
            c_collect(t, t.child(node, k), scope, st)
        } else {
            st
        };
        c_children(t, node, k + 1, scope, next)
    }
}

/// A function, class or lambda: its body is a new scope, holding its
/// parameters; its other parts belong to the enclosing scope.
pub open spec fn c_scoped_body(t: TreeView, node: int, parent: int, kind: ScopeKind, st: Seq<ScopeView>) -> Seq<
    ScopeView,
>
    decreases t.len() - node, 1nat, t.child_count(node) + 1,
{
    if !(0 <= node < t.len()) {
        st
    } else {
        match t.field_child(node, w_body()) {
            None => st,
            Some(body) => {
                let inner = st.len() as int;
                let with_scope = st.push(
                    new_scope(kind, t.node(body).start_byte as int, t.node(body).end_byte as int, parent),
                );
                let with_parameters = match t.field_child(node, w_parameters()) {
                    Some(p) => c_parameters(t, p, 0, inner, with_scope),
                    None => with_scope,
                };
                c_body_children(t, node, 0, body, inner, parent, with_parameters)
            },
        }
    }
}

pub open spec fn c_body_children(
    t: TreeView,
    node: int,
    k: int,
    body: int,
    inner: int,
    outer: int,
    st: Seq<ScopeView>,
) -> Seq<ScopeView>
    decreases t.len() - node, 1nat, t.child_count(node) - k,
{
    if !(0 <= node < t.len()) || k < 0 || k >= t.child_count(node) {
        st
    } else {
        let c = t.child(node, k);
        let next = if is_named_child(t, node, k) {
            if c == body {
                c_collect(t, c, inner, st)
            } else {
                c_collect(t, c, outer, st)
            }
        } else {
            st
        };
        c_body_children(t, node, k + 1, body, inner, outer, next)
    }
}

/// A comprehension is a scope of its own, spanning the whole expression.
pub open spec fn c_scoped_node(t: TreeView, node: int, parent: int, st: Seq<ScopeView>) -> Seq<ScopeView>
    decreases t.len() - node, 1nat, t.child_count(node) + 1,
{
    if !(0 <= node < t.len()) {
        st
    } else {
        let inner = st.len() as int;
        c_children(
            t,
            node,
            0,
            inner,
            st.push(
                new_scope(
                    ScopeKind::Comprehension,
                    t.node(node).start_byte as int,
                    t.node(node).end_byte as int,
                    parent,
                ),
            ),
        )
    }
}

/// The scopes of a file: the module, then each nested scope with its bindings.
pub open spec fn spec_scopes(t: TreeView) -> Seq<ScopeView> {
    let module = ScopeView {
        kind: ScopeKind::Module,
        start: t.node(0).start_byte as int,
        end: t.node(0).end_byte as int,
        parent: None,
        bindings: seq![],
        globals: seq![],
        nonlocals: seq![],
    };
    c_collect(t, 0, 0, seq![module])
}

fn contains_name(names: &Vec<Vec<char>>, name: &[char]) -> (r: bool)
    ensures
        r == names_of(names@).contains(name@),
{
    let mut i: usize = 0;
    while i < names.len()
        invariant
            i <= names@.len(),
            forall|j: int| 0 <= j < i ==> names@[j]@ != name@,
        decreases names@.len() - i,
    {
        if chars_eq(&names[i], name) {
            assert(names_of(names@)[i as int] == name@);
            return true;
        }
        i = i + 1;
    }
    false
}

pub open spec fn bindings_view(b: Seq<Binding>) -> Seq<BindingView> {
    b.map_values(|x: Binding| x@)
}

impl View for NameResolver {
    type V = Seq<ScopeView>;

    open spec fn view(&self) -> Seq<ScopeView> {
        self.scopes@.map_values(|s: Scope| s@)
    }
}

pub open spec fn scopes_wf(scopes: Seq<ScopeView>) -> bool {
    &&& scopes.len() > 0
    &&& forall|s: int| 0 <= s < scopes.len() ==> (#[trigger] scopes[s].parent matches Some(p) ==> 0 <= p < s)
}

impl NameResolver {
    pub open spec fn wf(&self) -> bool {
        scopes_wf(self@)
    }

    proof fn lemma_scope(&self, s: int)
        requires
            0 <= s < self.scopes@.len(),
        ensures
            self@[s] == self.scopes@[s]@,
            self@.len() == self.scopes@.len(),
    {
    }

    fn skip_class_scopes(&self, p: usize) -> (r: Option<usize>)
        requires
            self.wf(),
            p < self@.len(),
        ensures
            r matches Some(q) ==> skip_classes(self@, p as int) == Some(q as int),
            r is None ==> skip_classes(self@, p as int) is None,
            r matches Some(q) ==> q <= p,
        decreases p,
    {
        proof {
            self.lemma_scope(p as int);
        }
        if self.scopes[p].kind == ScopeKind::Class {
            match self.scopes[p].parent {
                Some(q) => {
                    assert(self@[p as int].parent == Some(q as int));
                    match self.skip_class_scopes(q) {
                        Some(x) => Some(x),
                        None => None,
                    }
                },
                None => None,
            }
        } else {
            Some(p)
        }
    }

    fn resolve_parent(&self, s: usize, name: &[char], position: usize) -> (r: RootLookup)
        requires
            self.wf(),
            s < self@.len(),
        ensures
            r@ == spec_resolve_parent(self@, s as int, name@, position as int),
        decreases s, 0nat,
    {
        proof {
            self.lemma_scope(s as int);
        }
        let next = match self.scopes[s].parent {
            None => None,
            Some(p) => {
                assert(self@[s as int].parent == Some(p as int));
                if self.scopes[s].kind == ScopeKind::Function || self.scopes[s].kind
                    == ScopeKind::Lambda || self.scopes[s].kind == ScopeKind::Comprehension {
                    self.skip_class_scopes(p)
                } else {
                    Some(p)
                }
            },
        };
        match next {
            Some(p) => self.resolve_root(p, name, position),
            None => RootLookup::Unresolved,
        }
    }

    fn parent_resolves_import(&self, s: usize, name: &[char], position: usize) -> (r: bool)
        requires
            self.wf(),
            s < self@.len(),
        ensures
            r == spec_parent_resolves_import(self@, s as int, name@, position as int),
        decreases s, 1nat,
    {
        match self.resolve_parent(s, name, position) {
            RootLookup::Unresolved => false,
            _ => true,
        }
    }

    /// The last binding of `name` at or before `position` (the last one on a
    /// tie), and whether the scope binds the name at all.
    fn previous_binding(&self, s: usize, name: &[char], position: usize) -> (r: (Option<usize>, bool))
        requires
            s < self@.len(),
        ensures
            r.0 matches Some(k) ==> previous_binding(self@[s as int].bindings, name@, position as int)
                == Some(k as int) && k < self@[s as int].bindings.len(),
            r.0 is None ==> previous_binding(self@[s as int].bindings, name@, position as int) is None,
            r.1 == binds(self@[s as int].bindings, name@),
    {
        proof {
            self.lemma_scope(s as int);
        }
        let bindings = &self.scopes[s].bindings;
        let ghost bs = bindings_view(bindings@);
        assert(bs == self@[s as int].bindings);
        let mut best: Option<usize> = None;
        let mut any = false;
        let mut k: usize = 0;
        while k < bindings.len()
            invariant
                bs == bindings_view(bindings@),
                k <= bs.len(),
                best matches Some(b) ==> b < k,
                previous_binding(bs, name@, position as int) == previous_binding_from(
                    bs,
                    name@,
                    position as int,
                    k as int,
                    match best {
                        Some(b) => Some(b as int),
                        None => None,
                    },
                ),
                any == exists|j: int| 0 <= j < k && bs[j].name == name@,
            decreases bs.len() - k,
        {
            if chars_eq(&bindings[k].name, name) {
                any = true;
                if bindings[k].position <= position {
                    let better = match best {
                        None => true,
                        Some(b) => bindings[b].position <= bindings[k].position,
                    };
                    if better {
                        best = Some(k);
                    }
                }
            }
            k = k + 1;
        }
        (best, any)
    }

    fn import_before(&self, s: usize, name: &[char], before: usize) -> (r: bool)
        requires
            s < self@.len(),
        ensures
            r == import_before(self@[s as int].bindings, name@, before as int),
    {
        proof {
            self.lemma_scope(s as int);
        }
        let bindings = &self.scopes[s].bindings;
        let ghost bs = bindings_view(bindings@);
        assert(bs == self@[s as int].bindings);
        let mut k: usize = 0;
        while k < bindings.len()
            invariant
                k <= bindings@.len(),
                bs == bindings_view(bindings@),
                s < self@.len(),
                bs == self@[s as int].bindings,
                forall|j: int|
                    0 <= j < k ==> !(bs[j].name == name@ && bs[j].position < before
                        && bs[j].import is Some),
            decreases bindings@.len() - k,
        {
            if chars_eq(&bindings[k].name, name) && bindings[k].position < before
                && bindings[k].import.is_some() {
                assert(bs[k as int] == bindings@[k as int]@);
                return true;
            }
            k = k + 1;
        }
        false
    }

    fn resolve_root(&self, s: usize, name: &[char], position: usize) -> (r: RootLookup)
        requires
            self.wf(),
            s < self@.len(),
        ensures
            r@ == spec_resolve_root(self@, s as int, name@, position as int),
        decreases s, 2nat,
    {
        proof {
            self.lemma_scope(s as int);
        }
        let current = &self.scopes[s];
        if s != 0 && contains_name(&current.globals, name) {
            return self.resolve_root(0, name, position);
        }
        if contains_name(&current.nonlocals, name) {
            return self.resolve_parent(s, name, position);
        }
        let (previous, any) = self.previous_binding(s, name, position);
        if any {
            match previous {
                Some(k) => {
                    assert(self@[s as int].bindings[k as int] == current.bindings@[k as int]@);
                    return match &current.bindings[k].import {
                        Some(module) => {
                            let m = slice_to_vec_range(module, 0, module.len());
                            assert(m@ =~= module@);
                            RootLookup::Import(m)
                        },
                        None => {
                            if self.import_before(s, name, current.bindings[k].position)
                                || self.parent_resolves_import(s, name, position) {
                                RootLookup::ShadowedImport
                            } else {
                                RootLookup::Unresolved
                            }
                        },
                    };
                },
                None => {
                    if current.kind == ScopeKind::Function || current.kind == ScopeKind::Lambda
                        || current.kind == ScopeKind::Comprehension {
                        return if self.parent_resolves_import(s, name, position) {
                            RootLookup::ShadowedImport
                        } else {
                            RootLookup::Unresolved
                        };
                    }
                },
            }
        }
        self.resolve_parent(s, name, position)
    }
}


pub open spec fn opt_chars(v: Option<Vec<char>>) -> Option<Seq<char>> {
    match v {
        Some(x) => Some(x@),
        None => None,
    }
}

impl NameResolver {
    fn push_binding(&mut self, scope: usize, name: Vec<char>, position: usize, import: Option<Vec<char>>)
        requires
            scope < old(self)@.len(),
            scopes_wf(old(self)@),
        ensures
            final(self)@ == add_binding(old(self)@, scope as int, name@, position as int, opt_chars(import)),
            scopes_wf(final(self)@),
    {
        let ghost old_view = self@;
        let ghost old_bindings = self.scopes@[scope as int].bindings@;
        let binding = Binding { name, position, import };
        let ghost bv = binding@;
        self.scopes[scope].bindings.push(binding);
        proof {
            assert(bindings_view(self.scopes@[scope as int].bindings@) =~= bindings_view(old_bindings).push(bv));
            assert(self@ =~= add_binding(old_view, scope as int, bv.name, bv.position, bv.import));
        }
    }

    fn push_declaration(&mut self, scope: usize, name: Vec<char>, global: bool)
        requires
            scope < old(self)@.len(),
            scopes_wf(old(self)@),
        ensures
            final(self)@ == add_declaration(old(self)@, scope as int, name@, global),
            scopes_wf(final(self)@),
    {
        let ghost old_view = self@;
        let ghost n = name@;
        if global {
            let ghost before = self.scopes@[scope as int].globals@;
            self.scopes[scope].globals.push(name);
            proof {
                assert(names_of(self.scopes@[scope as int].globals@) =~= names_of(before).push(n));
            }
        } else {
            let ghost before = self.scopes@[scope as int].nonlocals@;
            self.scopes[scope].nonlocals.push(name);
            proof {
                assert(names_of(self.scopes@[scope as int].nonlocals@) =~= names_of(before).push(n));
            }
        }
        assert(self@ =~= add_declaration(old_view, scope as int, n, global));
    }

    fn push_scope(&mut self, kind: ScopeKind, start: usize, end: usize, parent: usize) -> (index: usize)
        requires
            parent < old(self)@.len(),
            scopes_wf(old(self)@),
        ensures
            final(self)@ == old(self)@.push(new_scope(kind, start as int, end as int, parent as int)),
            index == old(self)@.len(),
            scopes_wf(final(self)@),
    {
        let index = self.scopes.len();
        let scope = Scope {
            kind,
            start,
            end,
            parent: Some(parent),
            bindings: Vec::new(),
            globals: Vec::new(),
            nonlocals: Vec::new(),
        };
        proof {
            assert(scope@.bindings =~= Seq::<BindingView>::empty());
            assert(scope@.globals =~= Seq::<Seq<char>>::empty());
            assert(scope@.nonlocals =~= Seq::<Seq<char>>::empty());
        }
        let ghost old_view = self@;
        self.scopes.push(scope);
        assert(self@ =~= old_view.push(new_scope(kind, start as int, end as int, parent as int)));
        index
    }

    fn collect_targets(&mut self, t: &SyntaxTree, target: usize, scope: usize, position: usize)
        requires
            t.wf(),
            target < t.nodes@.len(),
            scope < old(self)@.len(),
            scopes_wf(old(self)@),
        ensures
            final(self)@ == c_targets(t@, target as int, scope as int, position as int, old(self)@),
            scopes_wf(final(self)@),
            old(self)@.len() <= final(self)@.len(),
        decreases t.nodes@.len() - target,
    {
        if t.kind_is(target, word_identifier()) || t.kind_is(target, word_keyword_identifier()) {
            self.push_binding(scope, t.node_text(target), position, None);
            return;
        }
        if t.kind_is(target, word_attribute()) || t.kind_is(target, word_subscript()) {
            return;
        }
        let ghost st0 = self@;
        let mut k: usize = 0;
        assert(t.node_ok(target as int));
        while k < t.nodes[target].children.len()
            invariant
                t.wf(),
                target < t.nodes@.len(),
                k <= t.child_count(target as int),
                scope < self@.len(),
                scopes_wf(self@),
                st0.len() <= self@.len(),
                c_targets(t@, target as int, scope as int, position as int, st0) == c_target_children(
                    t@,
                    target as int,
                    k as int,
                    scope as int,
                    position as int,
                    self@,
                ),
            decreases t.child_count(target as int) - k,
        {
            assert(t.node_ok(target as int));
            let c = t.nodes[target].children[k];
            if t.nodes[c].named {
                self.collect_targets(t, c, scope, position);
            }
            k = k + 1;
        }
    }

    fn collect_parameters(&mut self, t: &SyntaxTree, params: usize, scope: usize)
        requires
            t.wf(),
            params < t.nodes@.len(),
            scope < old(self)@.len(),
            scopes_wf(old(self)@),
        ensures
            final(self)@ == c_parameters(t@, params as int, 0, scope as int, old(self)@),
            scopes_wf(final(self)@),
            old(self)@.len() <= final(self)@.len(),
    {
        let ghost st0 = self@;
        let mut k: usize = 0;
        assert(t.node_ok(params as int));
        while k < t.nodes[params].children.len()
            invariant
                t.wf(),
                params < t.nodes@.len(),
                k <= t.child_count(params as int),
                scope < self@.len(),
                scopes_wf(self@),
                st0.len() <= self@.len(),
                c_parameters(t@, params as int, 0, scope as int, st0) == c_parameters(
                    t@,
                    params as int,
                    k as int,
                    scope as int,
                    self@,
                ),
            decreases t.child_count(params as int) - k,
        {
            assert(t.node_ok(params as int));
            let p = t.nodes[params].children[k];
            if t.nodes[p].named {
                let target = if t.kind_is(p, word_identifier()) || t.kind_is(p, word_tuple_pattern()) {
                    Some(p)
                } else {
                    match t.child_by_field_name(p, word_name()) {
                        Some(n) => Some(n),
                        None => if t.kind_is(p, word_list_splat_pattern()) || t.kind_is(
                            p,
                            word_dictionary_splat_pattern(),
                        ) {
                            Some(p)
                        } else {
                            None
                        },
                    }
                };
                match target {
                    Some(x) => self.collect_targets(t, x, scope, 0),
                    None => {},
                }
            }
            k = k + 1;
        }
    }

    fn field_text(&self, t: &SyntaxTree, node: usize, field: &[char]) -> (r: Option<Vec<char>>)
        requires
            t.wf(),
            node < t.nodes@.len(),
        ensures
            opt_chars(r) == field_text(t@, node as int, field@),
    {
        match t.child_by_field_name(node, field) {
            Some(c) => Some(t.node_text(c)),
            None => None,
        }
    }

    fn collect_imports(&mut self, t: &SyntaxTree, node: usize, scope: usize, module: Option<Vec<char>>)
        requires
            t.wf(),
            node < t.nodes@.len(),
            scope < old(self)@.len(),
            scopes_wf(old(self)@),
        ensures
            final(self)@ == c_imports(t@, node as int, 0, scope as int, opt_chars(module), old(self)@),
            scopes_wf(final(self)@),
            old(self)@.len() <= final(self)@.len(),
    {
        let ghost st0 = self@;
        let ghost m = opt_chars(module);
        let mut k: usize = 0;
        assert(t.node_ok(node as int));
        while k < t.nodes[node].children.len()
            invariant
                t.wf(),
                node < t.nodes@.len(),
                k <= t.child_count(node as int),
                scope < self@.len(),
                scopes_wf(self@),
                st0.len() <= self@.len(),
                m == opt_chars(module),
                c_imports(t@, node as int, 0, scope as int, m, st0) == c_imports(
                    t@,
                    node as int,
                    k as int,
                    scope as int,
                    m,
                    self@,
                ),
            decreases t.child_count(node as int) - k,
        {
            assert(t.node_ok(node as int));
            let imported = t.nodes[node].children[k];
            if t.child_has_field_exec(node, k, word_name()) {
                let (name, alias) = if t.kind_is(imported, word_aliased_import()) {
                    (self.field_text(t, imported, word_name()), self.field_text(t, imported, word_alias()))
                } else {
                    (Some(t.node_text(imported)), None)
                };
                match name {
                    Some(n) => {
                        let (bound, canonical) = import_binding_exec(&module, n, alias);
                        self.push_binding(scope, bound, t.nodes[node].start_byte, Some(canonical));
                    },
                    None => {},
                }
            }
            k = k + 1;
        }
    }

    fn collect_declarations(&mut self, t: &SyntaxTree, node: usize, scope: usize, global: bool)
        requires
            t.wf(),
            node < t.nodes@.len(),
            scope < old(self)@.len(),
            scopes_wf(old(self)@),
        ensures
            final(self)@ == c_declarations(t@, node as int, 0, scope as int, global, old(self)@),
            scopes_wf(final(self)@),
            old(self)@.len() <= final(self)@.len(),
    {
        let ghost st0 = self@;
        let mut k: usize = 0;
        assert(t.node_ok(node as int));
        while k < t.nodes[node].children.len()
            invariant
                t.wf(),
                node < t.nodes@.len(),
                k <= t.child_count(node as int),
                scope < self@.len(),
                scopes_wf(self@),
                st0.len() <= self@.len(),
                c_declarations(t@, node as int, 0, scope as int, global, st0) == c_declarations(
                    t@,
                    node as int,
                    k as int,
                    scope as int,
                    global,
                    self@,
                ),
            decreases t.child_count(node as int) - k,
        {
            assert(t.node_ok(node as int));
            let c = t.nodes[node].children[k];
            if t.nodes[c].named {
                self.push_declaration(scope, t.node_text(c), global);
            }
            k = k + 1;
        }
    }

    fn collect_field_targets(&mut self, t: &SyntaxTree, node: usize, field: &[char], scope: usize)
        requires
            t.wf(),
            node < t.nodes@.len(),
            scope < old(self)@.len(),
            scopes_wf(old(self)@),
        ensures
            final(self)@ == c_field_targets(t@, node as int, field@, scope as int, old(self)@),
            scopes_wf(final(self)@),
            old(self)@.len() <= final(self)@.len(),
    {
        match t.child_by_field_name(node, field) {
            Some(target) => self.collect_targets(t, target, scope, t.nodes[node].start_byte),
            None => {},
        }
    }

    fn collect_binding(&mut self, t: &SyntaxTree, node: usize, scope: usize)
        requires
            t.wf(),
            node < t.nodes@.len(),
            scope < old(self)@.len(),
            scopes_wf(old(self)@),
        ensures
            final(self)@ == c_binding(t@, node as int, scope as int, old(self)@),
            scopes_wf(final(self)@),
            old(self)@.len() <= final(self)@.len(),
    {
        if t.kind_is(node, word_import_statement()) {
            self.collect_imports(t, node, scope, None);
        } else if t.kind_is(node, word_import_from_statement()) {
            let module = self.field_text(t, node, word_module_name());
            self.collect_imports(t, node, scope, module);
        } else if t.kind_is(node, word_assignment()) || t.kind_is(node, word_augmented_assignment())
            || t.kind_is(node, word_for_statement()) || t.kind_is(node, word_for_in_clause()) {
            self.collect_field_targets(t, node, word_left(), scope);
        } else if t.kind_is(node, word_named_expression()) {
            self.collect_field_targets(t, node, word_name(), scope);
        } else if t.kind_is(node, word_except_clause()) || t.kind_is(node, word_as_pattern()) {
            self.collect_field_targets(t, node, word_alias(), scope);
        } else if t.kind_is(node, word_global_statement()) {
            self.collect_declarations(t, node, scope, true);
        } else if t.kind_is(node, word_nonlocal_statement()) {
            self.collect_declarations(t, node, scope, false);
        }
    }

    fn collect_definition(&mut self, t: &SyntaxTree, node: usize, scope: usize)
        requires
            t.wf(),
            node < t.nodes@.len(),
            scope < old(self)@.len(),
            scopes_wf(old(self)@),
        ensures
            final(self)@ == c_definition(t@, node as int, scope as int, old(self)@),
            scopes_wf(final(self)@),
            old(self)@.len() <= final(self)@.len(),
    {
        match self.field_text(t, node, word_name()) {
            Some(name) => self.push_binding(scope, name, t.nodes[node].start_byte, None),
            None => {},
        }
    }

    fn collect(&mut self, t: &SyntaxTree, node: usize, scope: usize)
        requires
            t.wf(),
            node < t.nodes@.len(),
            scope < old(self)@.len(),
            scopes_wf(old(self)@),
        ensures
            final(self)@ == c_collect(t@, node as int, scope as int, old(self)@),
            scopes_wf(final(self)@),
            old(self)@.len() <= final(self)@.len(),
        decreases t.nodes@.len() - node, 2nat,
    {
        if t.kind_is(node, word_function_definition()) {
            self.collect_definition(t, node, scope);
            self.collect_scoped_body(t, node, scope, ScopeKind::Function);
        } else if t.kind_is(node, word_class_definition()) {
            self.collect_definition(t, node, scope);
            self.collect_scoped_body(t, node, scope, ScopeKind::Class);
        } else if t.kind_is(node, word_lambda()) {
            self.collect_scoped_body(t, node, scope, ScopeKind::Lambda);
        } else if t.kind_is(node, word_list_comprehension()) || t.kind_is(node, word_set_comprehension())
            || t.kind_is(node, word_dictionary_comprehension()) || t.kind_is(
            node,
            word_generator_expression(),
        ) {
            self.collect_scoped_node(t, node, scope);
        } else {
            self.collect_binding(t, node, scope);
            self.collect_children(t, node, scope);
        }
    }

    fn collect_children(&mut self, t: &SyntaxTree, node: usize, scope: usize)
        requires
            t.wf(),
            node < t.nodes@.len(),
            scope < old(self)@.len(),
            scopes_wf(old(self)@),
        ensures
            final(self)@ == c_children(t@, node as int, 0, scope as int, old(self)@),
            scopes_wf(final(self)@),
            old(self)@.len() <= final(self)@.len(),
        decreases t.nodes@.len() - node, 0nat,
    {
        let ghost st0 = self@;
        let mut k: usize = 0;
        assert(t.node_ok(node as int));
        while k < t.nodes[node].children.len()
            invariant
                t.wf(),
                node < t.nodes@.len(),
                k <= t.child_count(node as int),
                scope < self@.len(),
                scopes_wf(self@),
                st0.len() <= self@.len(),
                c_children(t@, node as int, 0, scope as int, st0) == c_children(
                    t@,
                    node as int,
                    k as int,
                    scope as int,
                    self@,
                ),
            decreases t.child_count(node as int) - k,
        {
            assert(t.node_ok(node as int));
            let c = t.nodes[node].children[k];
            if t.nodes[c].named {
                self.collect(t, c, scope);
            }
            k = k + 1;
        }
    }

    fn collect_scoped_body(&mut self, t: &SyntaxTree, node: usize, parent: usize, kind: ScopeKind)
        requires
            t.wf(),
            node < t.nodes@.len(),
            parent < old(self)@.len(),
            scopes_wf(old(self)@),
        ensures
            final(self)@ == c_scoped_body(t@, node as int, parent as int, kind, old(self)@),
            scopes_wf(final(self)@),
            old(self)@.len() <= final(self)@.len(),
        decreases t.nodes@.len() - node, 1nat,
    {
        let body = match t.child_by_field_name(node, word_body()) {
            Some(b) => b,
            None => {
                return;
            },
        };
        let inner = self.push_scope(kind, t.nodes[body].start_byte, t.nodes[body].end_byte, parent);
        match t.child_by_field_name(node, word_parameters()) {
            Some(p) => self.collect_parameters(t, p, inner),
            None => {},
        }
        let ghost st0 = self@;
        let mut k: usize = 0;
        assert(t.node_ok(node as int));
        while k < t.nodes[node].children.len()
            invariant
                t.wf(),
                node < t.nodes@.len(),
                k <= t.child_count(node as int),
                inner < self@.len(),
                parent < self@.len(),
                scopes_wf(self@),
                st0.len() <= self@.len(),
                c_body_children(t@, node as int, 0, body as int, inner as int, parent as int, st0)
                    == c_body_children(
                    t@,
                    node as int,
                    k as int,
                    body as int,
                    inner as int,
                    parent as int,
                    self@,
                ),
            decreases t.child_count(node as int) - k,
        {
            assert(t.node_ok(node as int));
            let c = t.nodes[node].children[k];
            if t.nodes[c].named {
                if c == body {
                    self.collect(t, c, inner);
                } else {
                    self.collect(t, c, parent);
                }
            }
            k = k + 1;
        }
    }

    fn collect_scoped_node(&mut self, t: &SyntaxTree, node: usize, parent: usize)
        requires
            t.wf(),
            node < t.nodes@.len(),
            parent < old(self)@.len(),
            scopes_wf(old(self)@),
        ensures
            final(self)@ == c_scoped_node(t@, node as int, parent as int, old(self)@),
            scopes_wf(final(self)@),
            old(self)@.len() <= final(self)@.len(),
        decreases t.nodes@.len() - node, 1nat,
    {
        let inner = self.push_scope(
            ScopeKind::Comprehension,
            t.nodes[node].start_byte,
            t.nodes[node].end_byte,
            parent,
        );
        self.collect_children(t, node, inner);
    }

    /// The scopes and bindings of a parsed file.
    pub fn new(t: &SyntaxTree) -> (r: Self)
        requires
            t.wf(),
        ensures
            r@ == spec_scopes(t@),
            r.wf(),
    {
        let module = Scope {
            kind: ScopeKind::Module,
            start: t.nodes[0].start_byte,
            end: t.nodes[0].end_byte,
            parent: None,
            bindings: Vec::new(),
            globals: Vec::new(),
            nonlocals: Vec::new(),
        };
        let mut scopes: Vec<Scope> = Vec::new();
        scopes.push(module);
        let mut resolver = NameResolver { scopes };
        proof {
            let m = resolver@[0];
            assert(m.bindings =~= Seq::<BindingView>::empty());
            assert(m.globals =~= Seq::<Seq<char>>::empty());
            assert(m.nonlocals =~= Seq::<Seq<char>>::empty());
            let module_view = ScopeView {
                kind: ScopeKind::Module,
                start: t.node(0).start_byte as int,
                end: t.node(0).end_byte as int,
                parent: None,
                bindings: seq![],
                globals: seq![],
                nonlocals: seq![],
            };
            assert(resolver@ =~= seq![module_view]);
        }
        resolver.collect(t, 0, 0);
        resolver
    }

    /// The innermost scope at `position`.
    fn innermost_scope(&self, position: usize) -> (r: usize)
        requires
            self.wf(),
        ensures
            r == spec_innermost_scope(self@, position as int),
            r < self@.len(),
    {
        let mut best: Option<usize> = None;
        let mut k: usize = 0;
        while k < self.scopes.len()
            invariant
                k <= self@.len(),
                self.wf(),
                best matches Some(b) ==> b < k,
                innermost_from(self@, position as int, 0, None) == innermost_from(
                    self@,
                    position as int,
                    k as int,
                    match best {
                        Some(b) => Some(b as int),
                        None => None,
                    },
                ),
            decreases self@.len() - k,
        {
            proof {
                self.lemma_scope(k as int);
            }
            let scope = &self.scopes[k];
            if scope.start <= position && position <= scope.end {
                let better = match best {
                    None => true,
                    Some(b) => {
                        proof {
                            self.lemma_scope(b as int);
                        }
                        (scope.end as i128 - scope.start as i128) < (self.scopes[b].end as i128
                            - self.scopes[b].start as i128)
                    },
                };
                if better {
                    best = Some(k);
                }
            }
            k = k + 1;
        }
        match best {
            Some(b) => b,
            None => 0,
        }
    }

    /// What a called name stands for at byte `position` of the file.
    pub fn resolve(&self, position: usize, name: &[char]) -> (r: NameResolution)
        requires
            self.wf(),
        ensures
            r@ == spec_resolve(self@, position as int, name@),
    {
        let (root, suffix) = match split_name(name) {
            Some(parts) => parts,
            None => {
                return NameResolution::Unresolved;
            },
        };
        let scope = self.innermost_scope(position);
        match self.resolve_root(scope, &root, position) {
            RootLookup::Import(module) => {
                let mut canonical = module;
                append_chars(&mut canonical, &suffix);
                NameResolution::Canonical(string_of(&canonical))
            },
            RootLookup::ShadowedImport => NameResolution::ShadowedImport,
            RootLookup::Unresolved => NameResolution::Unresolved,
        }
    }
}

fn first_segment_exec(name: &[char]) -> (r: Vec<char>)
    ensures
        r@ == first_segment(name@),
{
    match find(name, '.') {
        Some(i) => slice_to_vec_range(name, 0, i),
        None => {
            let r = slice_to_vec_range(name, 0, name.len());
            assert(r@ =~= name@);
            r
        },
    }
}

fn import_binding_exec(module: &Option<Vec<char>>, name: Vec<char>, alias: Option<Vec<char>>) -> (r: (
    Vec<char>,
    Vec<char>,
))
    ensures
        (r.0@, r.1@) == import_binding(opt_chars(*module), name@, opt_chars(alias)),
{
    match module {
        Some(m) => {
            let bound = match alias {
                Some(a) => a,
                None => first_segment_exec(&name),
            };
            let mut canonical = slice_to_vec_range(m, 0, m.len());
            assert(canonical@ =~= m@);
            canonical.push('.');
            append_chars(&mut canonical, &name);
            assert(canonical@ =~= m@ + seq!['.'] + name@);
            (bound, canonical)
        },
        None => match alias {
            Some(a) => (a, name),
            None => {
                let root = first_segment_exec(&name);
                let copy = slice_to_vec_range(&root, 0, root.len());
                assert(copy@ =~= root@);
                (root, copy)
            },
        },
    }
}

fn split_name(name: &[char]) -> (r: Option<(Vec<char>, Vec<char>)>)
    ensures
        r matches Some((a, b)) ==> spec_split_name(name@) == Some((a@, b@)),
        r is None ==> spec_split_name(name@) is None,
{
    let end = match find(name, '.') {
        Some(i) => i,
        None => name.len(),
    };
    let ghost spec_end: int = split_point(name@);
    assert(spec_end == end as int);
    let root = slice_to_vec_range(name, 0, end);
    if root.len() == 0 {
        return None;
    }
    let mut i: usize = 0;
    while i < root.len()
        invariant
            i <= root@.len(),
            root@ == name@.subrange(0, spec_end),
            spec_end == end as int,
            spec_end == split_point(name@),
            end <= name@.len(),
            forall|j: int| 0 <= j < i ==> spec_is_name_char(root@[j]),
        decreases root@.len() - i,
    {
        if !is_name_char(root[i]) {
            assert(!spec_is_name_char(root@[i as int]));
            return None;
        }
        i = i + 1;
    }
    Some((root, slice_to_vec_range(name, end, name.len())))
}

} // verus!
