//! Semantic analysis and code generation: two walks over the same tree with
//! independently reconstructed scope stacks. The validation walk collects
//! every scope error; the generation walk substitutes bound values and emits
//! HTML. Both walks are specified by the recursive functions `v_node` (state
//! after validation) and `e_node` (emitted text and state), and the
//! executable passes are proved equal to them.

use vstd::prelude::*;

use crate::parser::{ASTNode, AstView, ast_view, asts_view};

verus! {

/// The mathematical image of an `Option<String>` binding.
pub open spec fn binding_view(v: Option<String>) -> Option<Seq<char>> {
    match v {
        Some(x) => Some(x@),
        None => None,
    }
}

/// One lexical scope: variable names mapped to an optional bound value
/// (`None` = declared, unassigned), stored as an association list with
/// unique keys and viewed as a `Map`.
pub struct Scope {
    entries: Vec<(String, Option<String>)>,
}

/// The map an association list denotes; later entries would shadow earlier
/// ones, and the unique-keys invariant keeps the two readings equal.
pub open spec fn entries_map(s: Seq<(String, Option<String>)>) -> Map<
    Seq<char>,
    Option<Seq<char>>,
>
    decreases s.len(),
{
    if s.len() == 0 {
        Map::empty()
    } else {
        entries_map(s.drop_last()).insert(s.last().0@, binding_view(s.last().1))
    }
}

/// Keys of an association list are pairwise distinct.
pub open spec fn entries_unique(s: Seq<(String, Option<String>)>) -> bool {
    forall|i: int, j: int| 0 <= i < j < s.len() ==> (#[trigger] s[i]).0@ != (#[trigger] s[j]).0@
}

proof fn lemma_entries_map_absent(s: Seq<(String, Option<String>)>, k: Seq<char>)
    requires
        forall|m: int| 0 <= m < s.len() ==> (#[trigger] s[m]).0@ != k,
    ensures
        !entries_map(s).contains_key(k),
    decreases s.len(),
{
    if s.len() > 0 {
        assert(s.last() == s[s.len() - 1]);
        lemma_entries_map_absent(s.drop_last(), k);
    }
}

proof fn lemma_entries_map_found(s: Seq<(String, Option<String>)>, idx: int)
    requires
        entries_unique(s),
        0 <= idx < s.len(),
    ensures
        entries_map(s).contains_key(s[idx].0@),
        entries_map(s)[s[idx].0@] == binding_view(s[idx].1),
    decreases s.len(),
{
    assert(s.last() == s[s.len() - 1]);
    if idx == s.len() - 1 {
    } else {
        assert(s[idx].0@ != s.last().0@);
        assert(s.drop_last()[idx] == s[idx]);
        lemma_entries_map_found(s.drop_last(), idx);
    }
}

proof fn lemma_entries_map_update(s: Seq<(String, Option<String>)>, idx: int, e: (
    String,
    Option<String>,
))
    requires
        entries_unique(s),
        0 <= idx < s.len(),
        e.0@ == s[idx].0@,
    ensures
        entries_map(s.update(idx, e)) =~= entries_map(s).insert(e.0@, binding_view(e.1)),
    decreases s.len(),
{
    assert(s.last() == s[s.len() - 1]);
    let s2 = s.update(idx, e);
    assert(s2.last() == s2[s.len() - 1]);
    if idx == s.len() - 1 {
        assert(s2.drop_last() =~= s.drop_last());
    } else {
        assert(s2.drop_last() =~= s.drop_last().update(idx, e));
        assert(s.drop_last()[idx] == s[idx]);
        lemma_entries_map_update(s.drop_last(), idx, e);
        assert(s[idx].0@ != s.last().0@);
    }
}

impl Scope {
    /// The mapping this scope denotes.
    pub closed spec fn as_map(&self) -> Map<Seq<char>, Option<Seq<char>>> {
        entries_map(self.entries@)
    }

    /// The scope's invariant: no name occurs twice.
    pub closed spec fn wf(&self) -> bool {
        entries_unique(self.entries@)
    }

    /// An empty scope.
    pub fn new() -> (r: Self)
        ensures
            r.wf(),
            r.as_map() =~= Map::empty(),
    {
        Scope { entries: Vec::new() }
    }

    /// Whether `name` is declared in this scope.
    pub fn contains(&self, name: &str) -> (r: bool)
        requires
            self.wf(),
        ensures
            r == self.as_map().contains_key(name@),
    {
        let n = self.entries.len();
        let mut k: usize = 0;
        while k < n
            invariant
                n == self.entries@.len(),
                0 <= k <= n,
                self.wf(),
                forall|m: int| 0 <= m < k ==> (#[trigger] self.entries@[m]).0@ != name@,
            decreases n - k,
        {
            if crate::text::str_eq(self.entries[k].0.as_str(), name) {
                proof {
                    lemma_entries_map_found(self.entries@, k as int);
                }
                return true;
            }
            k += 1;
        }
        proof {
            lemma_entries_map_absent(self.entries@, name@);
        }
        false
    }

    /// The binding of `name` in this scope, if declared: `Some(None)` means
    /// declared but unassigned.
    pub fn get(&self, name: &str) -> (r: Option<Option<String>>)
        requires
            self.wf(),
        ensures
            (match r {
                Some(v) => self.as_map().contains_key(name@) && self.as_map()[name@]
                    == binding_view(v),
                None => !self.as_map().contains_key(name@),
            }),
    {
        let n = self.entries.len();
        let mut k: usize = 0;
        while k < n
            invariant
                n == self.entries@.len(),
                0 <= k <= n,
                self.wf(),
                forall|m: int| 0 <= m < k ==> (#[trigger] self.entries@[m]).0@ != name@,
            decreases n - k,
        {
            if crate::text::str_eq(self.entries[k].0.as_str(), name) {
                proof {
                    lemma_entries_map_found(self.entries@, k as int);
                }
                let v = match &self.entries[k].1 {
                    Some(x) => Some(x.clone()),
                    None => None,
                };
                return Some(v);
            }
            k += 1;
        }
        proof {
            lemma_entries_map_absent(self.entries@, name@);
        }
        None
    }

    /// Binds `name` to `value`, replacing any earlier binding.
    pub fn set(&mut self, name: &str, value: Option<String>)
        requires
            old(self).wf(),
        ensures
            final(self).wf(),
            final(self).as_map() =~= old(self).as_map().insert(name@, binding_view(value)),
    {
        let n = self.entries.len();
        let mut k: usize = 0;
        while k < n
            invariant
                n == self.entries@.len(),
                0 <= k <= n,
                self.wf(),
                self.entries@ == old(self).entries@,
                forall|m: int| 0 <= m < k ==> (#[trigger] self.entries@[m]).0@ != name@,
            decreases n - k,
        {
            if crate::text::str_eq(self.entries[k].0.as_str(), name) {
                let entry = (name.to_owned(), value);
                proof {
                    lemma_entries_map_update(self.entries@, k as int, entry);
                }
                self.entries[k] = entry;
                proof {
                    assert(entries_unique(self.entries@)) by {
                        assert forall|i: int, j: int| 0 <= i < j < self.entries@.len() implies (
                        #[trigger] self.entries@[i]).0@ != (#[trigger] self.entries@[j]).0@ by {
                            assert(old(self).entries@[i].0@ != old(self).entries@[j].0@);
                        }
                    }
                }
                return ;
            }
            k += 1;
        }
        let ghost before = self.entries@;
        self.entries.push((name.to_owned(), value));
        proof {
            assert(self.entries@.drop_last() =~= before);
            assert(self.entries@.last().0@ == name@);
            lemma_entries_map_absent(before, name@);
            assert(entries_unique(self.entries@)) by {
                assert forall|i: int, j: int| 0 <= i < j < self.entries@.len() implies (
                #[trigger] self.entries@[i]).0@ != (#[trigger] self.entries@[j]).0@ by {
                    if j < self.entries@.len() - 1 {
                        assert(before[i].0@ != before[j].0@);
                    } else {
                        assert(before[i].0@ != name@);
                    }
                }
            }
        }
    }
}

/// The state of a traversal pass: the scope stack (bottom = global), the
/// pending declaration awaiting its assignment, and the errors collected so
/// far.
pub struct TraversalState {
    pub stack: Seq<Map<Seq<char>, Option<Seq<char>>>>,
    pub pending: Option<Seq<char>>,
    pub errors: Seq<Seq<char>>,
}

/// The state both passes start from: one empty global scope, no pending
/// declaration, no errors.
pub open spec fn initial_state() -> TraversalState {
    TraversalState {
        stack: seq![Map::empty()],
        pending: None,
        errors: Seq::empty(),
    }
}

/// Popping a scope never removes the global one.
pub open spec fn popped(stack: Seq<Map<Seq<char>, Option<Seq<char>>>>) -> Seq<
    Map<Seq<char>, Option<Seq<char>>>,
> {
    if stack.len() > 1 {
        stack.drop_last()
    } else {
        stack
    }
}

/// Looks a name up from the innermost scope outward: `None` = undeclared,
/// `Some(None)` = declared but unassigned, `Some(Some(v))` = bound to `v`.
pub open spec fn lookup_in(
    stack: Seq<Map<Seq<char>, Option<Seq<char>>>>,
    name: Seq<char>,
) -> Option<Option<Seq<char>>>
    decreases stack.len(),
{
    if stack.len() == 0 {
        None
    } else if stack.last().contains_key(name) {
        Some(stack.last()[name])
    } else {
        lookup_in(stack.drop_last(), name)
    }
}

/// Assigns to the innermost scope that declares the name; `None` when no
/// scope does.
pub open spec fn assign_in(
    stack: Seq<Map<Seq<char>, Option<Seq<char>>>>,
    name: Seq<char>,
    value: Seq<char>,
) -> Option<Seq<Map<Seq<char>, Option<Seq<char>>>>>
    decreases stack.len(),
{
    if stack.len() == 0 {
        None
    } else if stack.last().contains_key(name) {
        Some(stack.drop_last().push(stack.last().insert(name, Some(value))))
    } else {
        match assign_in(stack.drop_last(), name, value) {
            None => None,
            Some(st) => Some(st.push(stack.last())),
        }
    }
}

/// "Variable 'name' is already declared in this scope"
pub open spec fn msg_redeclared(name: Seq<char>) -> Seq<char> {
    "Variable '"@ + name + "' is already declared in this scope"@
}

/// "Variable 'name' is used but never declared"
pub open spec fn msg_undeclared(name: Seq<char>) -> Seq<char> {
    "Variable '"@ + name + "' is used but never declared"@
}

/// "Variable 'name' is used but never assigned a value"
pub open spec fn msg_unassigned(name: Seq<char>) -> Seq<char> {
    "Variable '"@ + name + "' is used but never assigned a value"@
}

/// "Cannot assign to undeclared variable 'name'"
pub open spec fn msg_assign_undeclared(name: Seq<char>) -> Seq<char> {
    "Cannot assign to undeclared variable '"@ + name + "'"@
}

/// The state after declaring `name` in the innermost scope, validation
/// rules: redeclaration in the same scope is an error and inserts nothing;
/// either way `name` becomes the pending declaration.
pub open spec fn declare_step(st: TraversalState, name: Seq<char>) -> TraversalState {
    if st.stack.last().contains_key(name) {
        TraversalState {
            stack: st.stack,
            pending: Some(name),
            errors: st.errors.push(msg_redeclared(name)),
        }
    } else {
        TraversalState {
            stack: st.stack.drop_last().push(st.stack.last().insert(name, None)),
            pending: Some(name),
            errors: st.errors,
        }
    }
}

/// The state after an assignment: it binds the pending declaration, found
/// from the innermost scope outward; with no pending declaration it is a
/// no-op.
pub open spec fn assign_step(st: TraversalState, value: Seq<char>) -> TraversalState {
    match st.pending {
        None => st,
        Some(name) => match assign_in(st.stack, name, value) {
            Some(stack) => TraversalState { stack, pending: None, errors: st.errors },
            None => TraversalState {
                stack: st.stack,
                pending: None,
                errors: st.errors.push(msg_assign_undeclared(name)),
            },
        },
    }
}

/// The validation pass over one node: paragraph and list sections scope
/// their children, declarations and assignments drive the pending-binding
/// protocol, and every error is collected without stopping.
pub open spec fn v_node(n: AstView, st: TraversalState) -> TraversalState
    decreases n,
{
    match n {
        AstView::Program { children } => v_seq(children, st),
        AstView::HeadSection { children } => v_seq(children, st),
        AstView::ParagrafSection { children } => {
            let inner = v_seq(
                children,
                TraversalState {
                    stack: st.stack.push(Map::empty()),
                    pending: st.pending,
                    errors: st.errors,
                },
            );
            TraversalState {
                stack: popped(inner.stack),
                pending: inner.pending,
                errors: inner.errors,
            }
        },
        AstView::ListSection { children } => {
            let inner = v_seq(
                children,
                TraversalState {
                    stack: st.stack.push(Map::empty()),
                    pending: st.pending,
                    errors: st.errors,
                },
            );
            TraversalState {
                stack: popped(inner.stack),
                pending: inner.pending,
                errors: inner.errors,
            }
        },
        AstView::VariableDeclaration { name } => declare_step(st, name),
        AstView::VariableAssignment { name: _, value } => assign_step(st, value),
        AstView::VariableReference { name } => match lookup_in(st.stack, name) {
            None => TraversalState {
                stack: st.stack,
                pending: st.pending,
                errors: st.errors.push(msg_undeclared(name)),
            },
            Some(None) => TraversalState {
                stack: st.stack,
                pending: st.pending,
                errors: st.errors.push(msg_unassigned(name)),
            },
            Some(Some(_)) => st,
        },
        AstView::Bold { content } => v_seq(content, st),
        AstView::Italics { content } => v_seq(content, st),
        _ => st,
    }
}

/// The validation pass over a child list, left to right.
pub open spec fn v_seq(children: Seq<AstView>, st: TraversalState) -> TraversalState
    decreases children,
{
    if children.len() == 0 {
        st
    } else {
        v_seq(children.drop_first(), v_node(children.first(), st))
    }
}

/// The generation pass over one node: the emitted text and the state after
/// it. Scope handling mirrors validation, except that declaration inserts
/// unconditionally and a reference that is somehow unbound emits a visible
/// placeholder instead of failing.
pub open spec fn e_node(n: AstView, st: TraversalState) -> (Seq<char>, TraversalState)
    decreases n,
{
    match n {
        AstView::Program { children } => {
            let (body, st1) = e_seq(children, st);
            (html_prefix() + body + html_suffix(), st1)
        },
        AstView::HeadSection { children } => e_seq(children, st),
        AstView::ParagrafSection { children } => {
            let (body, inner) = e_seq(
                children,
                TraversalState {
                    stack: st.stack.push(Map::empty()),
                    pending: st.pending,
                    errors: st.errors,
                },
            );
            (
                "<p>\n"@ + body + "</p>\n"@,
                TraversalState {
                    stack: popped(inner.stack),
                    pending: inner.pending,
                    errors: inner.errors,
                },
            )
        },
        AstView::ListSection { children } => {
            let (body, inner) = e_seq(
                children,
                TraversalState {
                    stack: st.stack.push(Map::empty()),
                    pending: st.pending,
                    errors: st.errors,
                },
            );
            (
                "<ul>\n"@ + body + "</ul>\n"@,
                TraversalState {
                    stack: popped(inner.stack),
                    pending: inner.pending,
                    errors: inner.errors,
                },
            )
        },
        AstView::Title { content } => ("<h1>"@ + content + "</h1>\n"@, st),
        AstView::Text { content } => (content + " "@, st),
        AstView::Bold { content } => {
            let (body, st1) = e_seq(content, st);
            ("<b>"@ + body + "</b>"@, st1)
        },
        AstView::Italics { content } => {
            let (body, st1) = e_seq(content, st);
            ("<i>"@ + body + "</i>"@, st1)
        },
        AstView::Item { content } => {
            let (body, st1) = e_seq(content, st);
            ("<li>"@ + body + "</li>\n"@, st1)
        },
        AstView::Newline => ("<br>\n"@, st),
        AstView::Sound { url } => ("<audio controls src=\""@ + url + "\"></audio>\n"@, st),
        AstView::Video { url } => ("<video controls src=\""@ + url + "\"></video>\n"@, st),
        AstView::VariableDeclaration { name } => (
            Seq::empty(),
            TraversalState {
                stack: st.stack.drop_last().push(st.stack.last().insert(name, None)),
                pending: Some(name),
                errors: st.errors,
            },
        ),
        AstView::VariableAssignment { name: _, value } => (Seq::empty(), assign_step(st, value)),
        AstView::VariableReference { name } => match lookup_in(st.stack, name) {
            Some(Some(v)) => (v + " "@, st),
            _ => ("[undefined: "@ + name + "]"@, st),
        },
    }
}

/// The generation pass over a child list, left to right, concatenating the
/// emitted pieces.
pub open spec fn e_seq(children: Seq<AstView>, st: TraversalState) -> (Seq<char>, TraversalState)
    decreases children,
{
    if children.len() == 0 {
        (Seq::empty(), st)
    } else {
        let (head, st1) = e_node(children.first(), st);
        let (rest, st2) = e_seq(children.drop_first(), st1);
        (head + rest, st2)
    }
}

/// Everything the generated document places before the body's content.
pub open spec fn html_prefix() -> Seq<char> {
    "<!DOCTYPE html>\n<html>\n<head>\n<meta charset=\"UTF-8\">\n<title>LOLCODE Markdown</title>\n</head>\n<body>\n"@
}

/// Everything the generated document places after the body's content.
pub open spec fn html_suffix() -> Seq<char> {
    "</body>\n</html>"@
}

fn make_msg(prefix: &str, name: &str, suffix: &str) -> (r: String)
    ensures
        r@ == prefix@ + name@ + suffix@,
{
    let mut s = prefix.to_owned();
    s.append(name);
    s.append(suffix);
    proof {
        assert(s@ =~= prefix@ + name@ + suffix@);
    }
    s
}

/// The scope-aware analyzer: one instance drives the validation pass and,
/// when that pass finds no errors, the generation pass, re-deriving its
/// scope stack from scratch for each.
pub struct LolcodeSemanticAnalyzer {
    scope_stack: Vec<Scope>,
    current_assignment: Option<String>,
    errors: Vec<String>,
}

impl LolcodeSemanticAnalyzer {
    /// The scope stack as a sequence of maps, bottom first.
    pub closed spec fn stack_view(&self) -> Seq<Map<Seq<char>, Option<Seq<char>>>> {
        self.scope_stack@.map_values(|sc: Scope| sc.as_map())
    }

    /// The whole traversal state this analyzer is in.
    pub closed spec fn state_view(&self) -> TraversalState {
        TraversalState {
            stack: self.stack_view(),
            pending: binding_view(self.current_assignment),
            errors: self.errors@.map_values(|e: String| e@),
        }
    }

    /// The analyzer's invariant: the global scope is never popped, and every
    /// scope keeps its names unique.
    pub closed spec fn wf(&self) -> bool {
        &&& self.scope_stack@.len() >= 1
        &&& (forall|k: int| 0 <= k < self.scope_stack@.len() ==> (
        #[trigger] self.scope_stack@[k]).wf())
    }

    /// A fresh analyzer: one empty global scope, nothing pending, no errors.
    pub fn new() -> (r: Self)
        ensures
            r.wf(),
            r.state_view() == initial_state(),
    {
        let mut scope_stack: Vec<Scope> = Vec::new();
        scope_stack.push(Scope::new());
        let r = LolcodeSemanticAnalyzer {
            scope_stack,
            current_assignment: None,
            errors: Vec::new(),
        };
        proof {
            assert(r.stack_view() =~= seq![Map::<Seq<char>, Option<Seq<char>>>::empty()]);
            assert(r.state_view().errors =~= Seq::<Seq<char>>::empty());
        }
        r
    }

    /// The errors collected so far, in the order they were found.
    pub fn errors(&self) -> (r: &Vec<String>)
        ensures
            r@.map_values(|e: String| e@) == self.state_view().errors,
    {
        &self.errors
    }

    /// The innermost scope, for inspection.
    pub fn get_current_scope(&self) -> (r: &Scope)
        requires
            self.wf(),
        ensures
            r.wf(),
            r.as_map() == self.state_view().stack.last(),
    {
        let n = self.scope_stack.len();
        &self.scope_stack[n - 1]
    }

    /// Records one semantic error.
    fn semantic_error(&mut self, msg: String)
        requires
            old(self).wf(),
        ensures
            final(self).wf(),
            final(self).state_view() == (TraversalState {
                errors: old(self).state_view().errors.push(msg@),
                ..old(self).state_view()
            }),
    {
        let ghost msgv = msg@;
        self.errors.push(msg);
        proof {
            assert(self.state_view().errors =~= old(self).state_view().errors.push(msgv));
        }
    }

    /// Opens a new innermost scope.
    fn enter_scope(&mut self)
        requires
            old(self).wf(),
        ensures
            final(self).wf(),
            final(self).state_view() == (TraversalState {
                stack: old(self).state_view().stack.push(Map::empty()),
                ..old(self).state_view()
            }),
    {
        self.scope_stack.push(Scope::new());
        proof {
            assert(self.stack_view() =~= old(self).stack_view().push(
                Map::<Seq<char>, Option<Seq<char>>>::empty(),
            ));
        }
    }

    /// Closes the innermost scope; the global scope is never popped.
    fn exit_scope(&mut self)
        requires
            old(self).wf(),
        ensures
            final(self).wf(),
            final(self).state_view() == (TraversalState {
                stack: popped(old(self).state_view().stack),
                ..old(self).state_view()
            }),
    {
        if self.scope_stack.len() > 1 {
            self.scope_stack.pop();
            proof {
                assert(self.stack_view() =~= old(self).stack_view().drop_last());
            }
        } else {
            proof {
                assert(self.stack_view() =~= popped(old(self).stack_view()));
            }
        }
    }

    /// Looks `name` up from the innermost scope outward.
    pub fn lookup_variable(&self, name: &str) -> (r: Option<Option<String>>)
        requires
            self.wf(),
        ensures
            (match r {
                None => lookup_in(self.state_view().stack, name@) is None,
                Some(v) => lookup_in(self.state_view().stack, name@) == Some(binding_view(v)),
            }),
    {
        let ghost stack = self.stack_view();
        let mut k = self.scope_stack.len();
        proof {
            assert(stack.take(k as int) =~= stack);
        }
        while k > 0
            invariant
                self.wf(),
                stack == self.stack_view(),
                0 <= k <= self.scope_stack@.len(),
                lookup_in(stack, name@) == lookup_in(stack.take(k as int), name@),
            decreases k,
        {
            k -= 1;
            proof {
                assert(stack.take(k + 1).last() == stack[k as int]);
                assert(stack.take(k + 1).drop_last() =~= stack.take(k as int));
            }
            match self.scope_stack[k].get(name) {
                Some(v) => {
                    return Some(v);
                },
                None => {},
            }
        }
        proof {
            assert(stack.take(0) =~= Seq::<Map<Seq<char>, Option<Seq<char>>>>::empty());
        }
        None
    }

    /// Declares `name` in the innermost scope, validation rules: a name
    /// already present there is an error and nothing is inserted.
    fn declare_variable(&mut self, name: String)
        requires
            old(self).wf(),
        ensures
            final(self).wf(),
            final(self).state_view() == (TraversalState {
                pending: old(self).state_view().pending,
                ..declare_step(old(self).state_view(), name@)
            }),
    {
        let ghost st0 = self.state_view();
        let n = self.scope_stack.len();
        let present = self.scope_stack[n - 1].contains(name.as_str());
        if present {
            let msg = make_msg("Variable '", name.as_str(), "' is already declared in this scope");
            self.semantic_error(msg);
        } else {
            let mut sc = match self.scope_stack.pop() {
                Some(sc) => sc,
                None => {
                    proof {
                        assert(false);
                    }
                    Scope::new()
                },
            };
            sc.set(name.as_str(), None);
            self.scope_stack.push(sc);
            proof {
                assert(self.stack_view() =~= st0.stack.drop_last().push(
                    st0.stack.last().insert(name@, None),
                ));
            }
        }
    }

    /// Declares `name` in the innermost scope, generation rules: inserted
    /// unconditionally, shadowing nothing and reporting nothing.
    fn declare_variable_codegen(&mut self, name: String)
        requires
            old(self).wf(),
        ensures
            final(self).wf(),
            final(self).state_view() == (TraversalState {
                stack: old(self).state_view().stack.drop_last().push(
                    old(self).state_view().stack.last().insert(name@, None),
                ),
                ..old(self).state_view()
            }),
    {
        let ghost st0 = self.state_view();
        let mut sc = match self.scope_stack.pop() {
            Some(sc) => sc,
            None => {
                proof {
                    assert(false);
                }
                Scope::new()
            },
        };
        sc.set(name.as_str(), None);
        self.scope_stack.push(sc);
        proof {
            assert(self.stack_view() =~= st0.stack.drop_last().push(
                st0.stack.last().insert(name@, None),
            ));
        }
    }

    /// Assigns `value` to the innermost declaration of `name`; assigning to
    /// a name no scope declares is recorded as an error.
    #[verifier::loop_isolation(false)]
    #[verifier::rlimit(50)]
    fn assign_variable(&mut self, name: &str, value: String)
        requires
            old(self).wf(),
        ensures
            final(self).wf(),
            final(self).state_view() == (match assign_in(
                old(self).state_view().stack,
                name@,
                value@,
            ) {
                Some(stack) => TraversalState { stack, ..old(self).state_view() },
                None => TraversalState {
                    errors: old(self).state_view().errors.push(msg_assign_undeclared(name@)),
                    ..old(self).state_view()
                },
            }),
    {
        let ghost stack = self.stack_view();
        let ghost valv = value@;
        let mut k = self.scope_stack.len();
        proof {
            assert(stack.take(k as int) =~= stack);
            match assign_in(stack, name@, valv) {
                Some(st) => {
                    assert(st + stack.skip(k as int) =~= st);
                },
                None => {},
            }
        }
        while k > 0
            invariant
                self.wf(),
                stack == self.stack_view(),
                valv == value@,
                self.state_view().pending == old(self).state_view().pending,
                self.state_view().errors == old(self).state_view().errors,
                0 <= k <= self.scope_stack@.len(),
                assign_in(stack, name@, valv) == (match assign_in(
                    stack.take(k as int),
                    name@,
                    valv,
                ) {
                    Some(st) => Some(st + stack.skip(k as int)),
                    None => None::<Seq<Map<Seq<char>, Option<Seq<char>>>>>,
                }),
            decreases k,
        {
            k -= 1;
            proof {
                assert(stack.take(k + 1).last() == stack[k as int]);
                assert(stack.take(k + 1).drop_last() =~= stack.take(k as int));
            }
            let present = self.scope_stack[k].contains(name);
            if present {
                let sc_removed = self.scope_stack.remove(k);
                let mut sc = sc_removed;
                sc.set(name, Some(value));
                self.scope_stack.insert(k, sc);
                proof {
                    let updated = stack.update(k as int, stack[k as int].insert(name@, Some(valv)));
                    assert(self.stack_view() =~= updated);
                    assert(stack.take(k + 1).len() > 0);
                    assert(assign_in(stack.take(k + 1), name@, valv) == Some(
                        stack.take(k + 1).drop_last().push(
                            stack.take(k + 1).last().insert(name@, Some(valv)),
                        ),
                    ));
                    assert(stack.take(k + 1).drop_last().push(
                        stack.take(k + 1).last().insert(name@, Some(valv)),
                    ) + stack.skip(k + 1) =~= updated);
                    assert(assign_in(stack, name@, valv) == Some(updated));
                }
                return ;
            }
            proof {
                assert(stack.take(k + 1).drop_last().push(stack.take(k + 1).last()) =~= stack.take(
                    k + 1,
                ));
                match assign_in(stack.take(k as int), name@, valv) {
                    Some(st) => {
                        assert((st.push(stack[k as int])) + stack.skip(k + 1) =~= st + stack.skip(
                            k as int,
                        ));
                    },
                    None => {},
                }
            }
        }
        proof {
            assert(stack.take(0) =~= Seq::<Map<Seq<char>, Option<Seq<char>>>>::empty());
            assert(assign_in(stack.take(0), name@, valv) is None);
            assert(assign_in(stack, name@, valv) is None);
        }
        let msg = make_msg("Cannot assign to undeclared variable '", name, "'");
        self.semantic_error(msg);
    }
}

impl LolcodeSemanticAnalyzer {
    /// The validation pass over one node: exactly `v_node` on the current
    /// state. Paragraph and list sections open and close a scope; head
    /// sections and styled runs recurse without one; declarations,
    /// assignments and references drive the scope stack and collect errors.
    #[verifier::loop_isolation(false)]
    pub fn traverse(&mut self, node: &ASTNode)
        requires
            old(self).wf(),
        ensures
            final(self).wf(),
            final(self).state_view() == v_node(node@, old(self).state_view()),
        decreases node,
    {
        match node {
            ASTNode::Program { children } => {
                self.traverse_seq(children);
            },
            ASTNode::HeadSection { children } => {
                self.traverse_seq(children);
            },
            ASTNode::ParagrafSection { children } => {
                self.enter_scope();
                self.traverse_seq(children);
                self.exit_scope();
            },
            ASTNode::ListSection { children } => {
                self.enter_scope();
                self.traverse_seq(children);
                self.exit_scope();
            },
            ASTNode::VariableDeclaration { name } => {
                self.declare_variable(name.clone());
                self.current_assignment = Some(name.clone());
            },
            ASTNode::VariableAssignment { name: _, value } => {
                let pending: Option<String> = match &self.current_assignment {
                    Some(x) => Some(x.clone()),
                    None => None,
                };
                match pending {
                    Some(var_name) => {
                        self.assign_variable(var_name.as_str(), value.clone());
                        self.current_assignment = None;
                    },
                    None => {},
                }
            },
            ASTNode::VariableReference { name } => {
                match self.lookup_variable(name.as_str()) {
                    None => {
                        let msg = make_msg(
                            "Variable '",
                            name.as_str(),
                            "' is used but never declared",
                        );
                        self.semantic_error(msg);
                    },
                    Some(None) => {
                        let msg = make_msg(
                            "Variable '",
                            name.as_str(),
                            "' is used but never assigned a value",
                        );
                        self.semantic_error(msg);
                    },
                    Some(Some(_)) => {},
                }
            },
            ASTNode::Bold { content } => {
                self.traverse_seq(content);
            },
            ASTNode::Italics { content } => {
                self.traverse_seq(content);
            },
            ASTNode::Title { .. } => {},
            ASTNode::Text { .. } => {},
            ASTNode::Item { .. } => {},
            ASTNode::Newline => {},
            ASTNode::Sound { .. } => {},
            ASTNode::Video { .. } => {},
        }
    }

    /// The validation pass over a child list, left to right: exactly
    /// `v_seq`.
    #[verifier::loop_isolation(false)]
    fn traverse_seq(&mut self, children: &Vec<ASTNode>)
        requires
            old(self).wf(),
        ensures
            final(self).wf(),
            final(self).state_view() == v_seq(asts_view(children@), old(self).state_view()),
        decreases children,
    {
        let ghost cv = asts_view(children@);
        let ghost st0 = self.state_view();
        proof {
            crate::parser::lemma_asts_view_len(children@);
            assert(cv.skip(0) =~= cv);
        }
        let n = children.len();
        let mut k: usize = 0;
        while k < n
            invariant
                self.wf(),
                n == children@.len(),
                cv.len() == n,
                0 <= k <= n,
                v_seq(cv, st0) == v_seq(cv.skip(k as int), self.state_view()),
            decreases n - k,
        {
            proof {
                crate::parser::lemma_asts_view_index(children@, k as int);
                assert(cv.skip(k as int).first() == cv[k as int]);
            }
            self.traverse(&children[k]);
            proof {
                assert(cv.skip(k as int).drop_first() =~= cv.skip(k + 1));
            }
            k += 1;
        }
        proof {
            assert(cv.skip(n as int) =~= Seq::<AstView>::empty());
        }
    }

    /// The generation pass over one node: exactly `e_node` on the current
    /// state, returning the emitted HTML fragment.
    #[verifier::loop_isolation(false)]
    pub fn generate_html_with_traversal(&mut self, node: &ASTNode) -> (r: String)
        requires
            old(self).wf(),
        ensures
            final(self).wf(),
            r@ == e_node(node@, old(self).state_view()).0,
            final(self).state_view() == e_node(node@, old(self).state_view()).1,
        decreases node,
    {
        match node {
            ASTNode::Program { children } => {
                let inner = self.generate_seq(children);
                let mut out =
                    "<!DOCTYPE html>\n<html>\n<head>\n<meta charset=\"UTF-8\">\n<title>LOLCODE Markdown</title>\n</head>\n<body>\n".to_owned();
                out.append(inner.as_str());
                out.append("</body>\n</html>");
                proof {
                    assert(out@ =~= e_node(node@, old(self).state_view()).0);
                }
                out
            },
            ASTNode::HeadSection { children } => self.generate_seq(children),
            ASTNode::ParagrafSection { children } => {
                self.enter_scope();
                let inner = self.generate_seq(children);
                self.exit_scope();
                let mut out = "<p>\n".to_owned();
                out.append(inner.as_str());
                out.append("</p>\n");
                proof {
                    assert(out@ =~= e_node(node@, old(self).state_view()).0);
                }
                out
            },
            ASTNode::ListSection { children } => {
                self.enter_scope();
                let inner = self.generate_seq(children);
                self.exit_scope();
                let mut out = "<ul>\n".to_owned();
                out.append(inner.as_str());
                out.append("</ul>\n");
                proof {
                    assert(out@ =~= e_node(node@, old(self).state_view()).0);
                }
                out
            },
            ASTNode::Title { content } => {
                let mut out = "<h1>".to_owned();
                out.append(content.as_str());
                out.append("</h1>\n");
                proof {
                    assert(out@ =~= e_node(node@, old(self).state_view()).0);
                }
                out
            },
            ASTNode::Text { content } => {
                let mut out = content.clone();
                out.append(" ");
                proof {
                    assert(out@ =~= e_node(node@, old(self).state_view()).0);
                }
                out
            },
            ASTNode::Bold { content } => {
                let inner = self.generate_seq(content);
                let mut out = "<b>".to_owned();
                out.append(inner.as_str());
                out.append("</b>");
                proof {
                    assert(out@ =~= e_node(node@, old(self).state_view()).0);
                }
                out
            },
            ASTNode::Italics { content } => {
                let inner = self.generate_seq(content);
                let mut out = "<i>".to_owned();
                out.append(inner.as_str());
                out.append("</i>");
                proof {
                    assert(out@ =~= e_node(node@, old(self).state_view()).0);
                }
                out
            },
            ASTNode::Item { content } => {
                let inner = self.generate_seq(content);
                let mut out = "<li>".to_owned();
                out.append(inner.as_str());
                out.append("</li>\n");
                proof {
                    assert(out@ =~= e_node(node@, old(self).state_view()).0);
                }
                out
            },
            ASTNode::Newline => "<br>\n".to_owned(),
            ASTNode::Sound { url } => {
                let mut out = "<audio controls src=\"".to_owned();
                out.append(url.as_str());
                out.append("\"></audio>\n");
                proof {
                    assert(out@ =~= e_node(node@, old(self).state_view()).0);
                }
                out
            },
            ASTNode::Video { url } => {
                let mut out = "<video controls src=\"".to_owned();
                out.append(url.as_str());
                out.append("\"></video>\n");
                proof {
                    assert(out@ =~= e_node(node@, old(self).state_view()).0);
                }
                out
            },
            ASTNode::VariableDeclaration { name } => {
                self.current_assignment = Some(name.clone());
                self.declare_variable_codegen(name.clone());
                let out = String::new();
                proof {
                    assert(out@ =~= e_node(node@, old(self).state_view()).0);
                }
                out
            },
            ASTNode::VariableAssignment { name: _, value } => {
                let pending: Option<String> = match &self.current_assignment {
                    Some(x) => Some(x.clone()),
                    None => None,
                };
                match pending {
                    Some(var_name) => {
                        self.assign_variable(var_name.as_str(), value.clone());
                        self.current_assignment = None;
                    },
                    None => {},
                }
                let out = String::new();
                proof {
                    assert(out@ =~= e_node(node@, old(self).state_view()).0);
                }
                out
            },
            ASTNode::VariableReference { name } => {
                match self.lookup_variable(name.as_str()) {
                    Some(Some(value)) => {
                        let mut out = value;
                        out.append(" ");
                        proof {
                            assert(out@ =~= e_node(node@, old(self).state_view()).0);
                        }
                        out
                    },
                    _ => {
                        let out = make_msg("[undefined: ", name.as_str(), "]");
                        proof {
                            assert(out@ =~= e_node(node@, old(self).state_view()).0);
                        }
                        out
                    },
                }
            },
        }
    }

    /// The generation pass over a child list, left to right: exactly
    /// `e_seq`, concatenating the children's fragments.
    #[verifier::loop_isolation(false)]
    fn generate_seq(&mut self, children: &Vec<ASTNode>) -> (r: String)
        requires
            old(self).wf(),
        ensures
            final(self).wf(),
            r@ == e_seq(asts_view(children@), old(self).state_view()).0,
            final(self).state_view() == e_seq(asts_view(children@), old(self).state_view()).1,
        decreases children,
    {
        let ghost cv = asts_view(children@);
        let ghost st0 = self.state_view();
        proof {
            crate::parser::lemma_asts_view_len(children@);
            assert(cv.skip(0) =~= cv);
        }
        let mut out = String::new();
        proof {
            assert(out@ + e_seq(cv, st0).0 =~= e_seq(cv, st0).0);
        }
        let n = children.len();
        let mut k: usize = 0;
        while k < n
            invariant
                self.wf(),
                n == children@.len(),
                cv.len() == n,
                0 <= k <= n,
                e_seq(cv, st0).0 == out@ + e_seq(cv.skip(k as int), self.state_view()).0,
                e_seq(cv, st0).1 == e_seq(cv.skip(k as int), self.state_view()).1,
            decreases n - k,
        {
            proof {
                crate::parser::lemma_asts_view_index(children@, k as int);
                assert(cv.skip(k as int).first() == cv[k as int]);
            }
            let piece = self.generate_html_with_traversal(&children[k]);
            proof {
                assert(cv.skip(k as int).drop_first() =~= cv.skip(k + 1));
            }
            let ghost out_before = out@;
            out.append(piece.as_str());
            proof {
                assert(e_seq(cv, st0).0 == out@ + e_seq(cv.skip(k + 1), self.state_view()).0) by {
                    assert(out_before + (piece@ + e_seq(cv.skip(k + 1), self.state_view()).0)
                        =~= out@ + e_seq(cv.skip(k + 1), self.state_view()).0);
                }
            }
            k += 1;
        }
        proof {
            assert(cv.skip(n as int) =~= Seq::<AstView>::empty());
            assert(out@ + Seq::<char>::empty() =~= out@);
        }
        out
    }

    /// Validates the tree and, when it is error-free, re-derives a fresh
    /// scope stack and generates its HTML; otherwise returns every error
    /// the validation pass collected, in order.
    pub fn analyze_tree(&mut self, tree: &ASTNode) -> (r: Result<String, Vec<String>>)
        requires
            old(self).wf(),
        ensures
            final(self).wf(),
            (match r {
                Ok(html) => v_node(tree@, old(self).state_view()).errors.len() == 0 && html@
                    == e_node(tree@, initial_state()).0,
                Err(errs) => {
                    &&& v_node(tree@, old(self).state_view()).errors.len() > 0
                    &&& errs@.map_values(|e: String| e@) == v_node(
                        tree@,
                        old(self).state_view(),
                    ).errors
                },
            }),
    {
        self.traverse(tree);
        if self.errors.len() > 0 {
            let mut out: Vec<String> = Vec::new();
            let n = self.errors.len();
            let mut k: usize = 0;
            while k < n
                invariant
                    n == self.errors@.len(),
                    0 <= k <= n,
                    out@.len() == k,
                    forall|j: int| 0 <= j < k ==> (#[trigger] out@[j])@ == self.errors@[j]@,
                decreases n - k,
            {
                out.push(self.errors[k].clone());
                k += 1;
            }
            proof {
                assert(out@.map_values(|e: String| e@) =~= self.state_view().errors);
            }
            return Err(out);
        }
        // generation re-derives its scope state from scratch
        let mut fresh: Vec<Scope> = Vec::new();
        fresh.push(Scope::new());
        self.scope_stack = fresh;
        self.current_assignment = None;
        proof {
            assert(self.state_view().stack =~~= initial_state().stack);
            assert(self.state_view().errors =~= initial_state().errors);
            assert(self.state_view() == initial_state());
        }
        let html = self.generate_html_with_traversal(tree);
        Ok(html)
    }
}

} // verus!
