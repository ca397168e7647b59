//! The rules. Each reads a file's text and syntax tree and appends its
//! findings to a shared list; none keeps state between files.

use vstd::prelude::*;
use vstd::string::StringExecFns;
use crate::lint::syntax::{NodeKind, SyntaxTree, SyntaxTreeView};
use crate::lint::text::{column_at, line_at, span_text, str_eq, text_between};
use crate::lint::types::{diagnostics_view, Diagnostic, DiagnosticView, RuleCode, Severity};
use crate::lint::FileContext;

verus! {

/// A declared name and the byte offset of the identifier that declares it.
#[derive(Debug)]
pub struct Declaration {
    pub name: String,
    pub offset: usize,
}

/// The mathematical value of a [`Declaration`].
pub struct DeclarationView {
    pub name: Seq<char>,
    pub offset: usize,
}

impl View for Declaration {
    type V = DeclarationView;

    open spec fn view(&self) -> DeclarationView {
        DeclarationView { name: self.name@, offset: self.offset }
    }
}

/// The values of a sequence of declarations, in order.
pub open spec fn declarations_view(decls: Seq<Declaration>) -> Seq<DeclarationView> {
    decls.map_values(|d: Declaration| d@)
}

/// The text of node `i`, if its span is UTF-8.
pub open spec fn node_text(bytes: Seq<u8>, tree: SyntaxTreeView, i: usize) -> Option<Seq<char>> {
    span_text(bytes, tree.nodes[i as int].start_byte as int, tree.nodes[i as int].end_byte as int)
}

/// What the identifiers `idents` declare, in order: each one that has a
/// text, with its starting offset.
pub open spec fn named_declarations(
    bytes: Seq<u8>,
    tree: SyntaxTreeView,
    idents: Seq<usize>,
) -> Seq<DeclarationView>
    decreases idents.len(),
{
    if idents.len() == 0 {
        seq![]
    } else {
        let before = named_declarations(bytes, tree, idents.drop_last());
        match node_text(bytes, tree, idents.last()) {
            Some(name) => before.push(
                DeclarationView { name, offset: tree.nodes[idents.last() as int].start_byte },
            ),
            None => before,
        }
    }
}

/// What node `i` declares: nothing unless it is a declaration, else what
/// its identifier children name.
pub open spec fn node_declarations(bytes: Seq<u8>, tree: SyntaxTreeView, i: usize) -> Seq<
    DeclarationView,
> {
    if i < tree.nodes.len() && tree.nodes[i as int].kind.declares() {
        named_declarations(bytes, tree, tree.identifier_children(i))
    } else {
        seq![]
    }
}

/// Every declaration met on a walk through `order`, in the order met.
pub open spec fn declarations(bytes: Seq<u8>, tree: SyntaxTreeView, order: Seq<usize>) -> Seq<
    DeclarationView,
>
    decreases order.len(),
{
    if order.len() == 0 {
        seq![]
    } else {
        declarations(bytes, tree, order.drop_last()) + node_declarations(bytes, tree, order.last())
    }
}

/// Whether entry `k` of `table` is the first that holds `name`.
pub open spec fn names_entry(table: Seq<DeclarationView>, name: Seq<char>, k: int) -> bool {
    &&& 0 <= k < table.len()
    &&& table[k].name == name
    &&& forall|j: int| 0 <= j < k ==> table[j].name != name
}

/// The table after one more declaration: a name that it holds keeps its
/// place and takes the new offset; a new name goes to the end.
pub open spec fn record(table: Seq<DeclarationView>, d: DeclarationView) -> Seq<DeclarationView> {
    if exists|k: int| names_entry(table, d.name, k) {
        table.update(choose|k: int| names_entry(table, d.name, k), d)
    } else {
        table.push(d)
    }
}

/// The table of declared names: each name once, in the order in which the
/// names were first declared, with the offset of its last declaration.
pub open spec fn declared_names(decls: Seq<DeclarationView>) -> Seq<DeclarationView>
    decreases decls.len(),
{
    if decls.len() == 0 {
        seq![]
    } else {
        record(declared_names(decls.drop_last()), decls.last())
    }
}

/// Enters one declaration in the table of declared names.
pub fn record_declaration(table: &mut Vec<Declaration>, d: Declaration)
    ensures
        declarations_view(final(table)@) == record(declarations_view(old(table)@), d@),
{
    let ghost before = declarations_view(table@);
    let mut k: usize = 0;
    while k < table.len()
        invariant
            k <= table@.len(),
            declarations_view(table@) == before,
            before == declarations_view(old(table)@),
            forall|j: int| 0 <= j < k ==> before[j].name != d@.name,
        decreases table@.len() - k,
    {
        if str_eq(table[k].name.as_str(), d.name.as_str()) {
            proof {
                assert(names_entry(before, d@.name, k as int));
                let c = choose|c: int| names_entry(before, d@.name, c);
                assert(c == k);
                assert(record(before, d@) == before.update(k as int, d@));
            }
            let ghost entry = d@;
            table.set(k, d);
            assert(declarations_view(table@) =~= before.update(k as int, entry));
            return ;
        }
        k += 1;
    }
    table.push(d);
    assert(declarations_view(table@) =~= before.push(d@));
}

/// Recording a declaration keeps every offset in the table within a bound
/// that the table and the declaration respect.
pub proof fn lemma_record_offsets(table: Seq<DeclarationView>, d: DeclarationView, bound: nat)
    requires
        forall|k: int| 0 <= k < table.len() ==> (#[trigger] table[k]).offset <= bound,
        d.offset <= bound,
    ensures
        forall|k: int|
            0 <= k < record(table, d).len() ==> (#[trigger] record(table, d)[k]).offset <= bound,
{
}

/// Walks `order` and builds the table of declared names: for every
/// declaration node, each identifier child that has a text is recorded
/// with its starting offset.
pub fn collect_declarations(ctx: &FileContext, tree: &SyntaxTree, order: &Vec<usize>) -> (table:
    Vec<Declaration>)
    requires
        tree@.wf(),
        tree@.fits(ctx.bytes().len()),
        forall|j: int| 0 <= j < order@.len() ==> (#[trigger] order@[j]) < tree@.nodes.len(),
    ensures
        declarations_view(table@) == declared_names(declarations(ctx.bytes(), tree@, order@)),
        forall|k: int|
            0 <= k < table@.len() ==> (#[trigger] declarations_view(table@)[k]).offset
                <= ctx.bytes().len(),
{
    let ghost bytes = ctx.bytes();
    let mut table: Vec<Declaration> = Vec::new();
    let mut m: usize = 0;
    assert(declarations_view(table@) =~= Seq::<DeclarationView>::empty());
    while m < order.len()
        invariant
            tree@.wf(),
            tree@.fits(bytes.len()),
            bytes == ctx.bytes(),
            forall|j: int| 0 <= j < order@.len() ==> (#[trigger] order@[j]) < tree@.nodes.len(),
            m <= order@.len(),
            declarations_view(table@) == declared_names(
                declarations(bytes, tree@, order@.take(m as int)),
            ),
            forall|k: int|
                0 <= k < table@.len() ==> (#[trigger] declarations_view(table@)[k]).offset
                    <= bytes.len(),
        decreases order@.len() - m,
    {
        let i = order[m];
        let ghost met = declarations(bytes, tree@, order@.take(m as int));
        assert(order@.take(m + 1).drop_last() =~= order@.take(m as int));
        if tree.node(i).kind.is_declaration() {
            let idents = tree.child_identifiers(i);
            let mut c: usize = 0;
            assert(met + named_declarations(bytes, tree@, idents@.take(0)) =~= met);
            while c < idents.len()
                invariant
                    tree@.wf(),
                    tree@.fits(bytes.len()),
                    bytes == ctx.bytes(),
                    c <= idents@.len(),
                    forall|j: int|
                        0 <= j < idents@.len() ==> (#[trigger] idents@[j]) < tree@.nodes.len(),
                    declarations_view(table@) == declared_names(
                        met + named_declarations(bytes, tree@, idents@.take(c as int)),
                    ),
                    forall|k: int|
                        0 <= k < table@.len() ==> (#[trigger] declarations_view(table@)[k]).offset
                            <= bytes.len(),
                decreases idents@.len() - c,
            {
                let ident = idents[c];
                let node = tree.node(ident);
                let ghost named = named_declarations(bytes, tree@, idents@.take(c as int));
                assert(idents@.take(c + 1).drop_last() =~= idents@.take(c as int));
                match text_between(ctx.src.as_str(), node.start_byte, node.end_byte) {
                    Some(text) => {
                        let d = Declaration { name: text.to_owned(), offset: node.start_byte };
                        proof {
                            assert((met + named.push(d@)).drop_last() =~= met + named);
                            lemma_record_offsets(declarations_view(table@), d@, bytes.len());
                        }
                        record_declaration(&mut table, d);
                    },
                    None => {},
                }
                c += 1;
            }
            assert(idents@.take(c as int) =~= idents@);
        } else {
            assert(met + node_declarations(bytes, tree@, i) =~= met);
        }
        m += 1;
    }
    assert(order@.take(m as int) =~= order@);
    table
}

/// Whether node `i` uses a name: it is an identifier or a reference to
/// one, and its parent is not a declaration.
pub open spec fn is_use(tree: SyntaxTreeView, i: usize) -> bool {
    &&& i < tree.nodes.len()
    &&& tree.nodes[i as int].kind.names()
    &&& !(tree.nodes[i as int].parent matches Some(p) && p < tree.nodes.len()
        && tree.nodes[p as int].kind.declares())
}

/// Whether a walk through `order` meets a use of `name`.
pub open spec fn uses(
    bytes: Seq<u8>,
    tree: SyntaxTreeView,
    order: Seq<usize>,
    name: Seq<char>,
) -> bool {
    exists|k: int|
        0 <= k < order.len() && is_use(tree, #[trigger] order[k]) && node_text(
            bytes,
            tree,
            order[k],
        ) == Some(name)
}

/// Whether `name` is among `names`.
pub open spec fn holds_name(names: Seq<String>, name: Seq<char>) -> bool {
    exists|k: int| 0 <= k < names.len() && (#[trigger] names[k])@ == name
}

/// A walk one node longer meets the uses of the shorter walk and, where the
/// new node is a use, its name.
pub proof fn lemma_uses_step(
    bytes: Seq<u8>,
    tree: SyntaxTreeView,
    order: Seq<usize>,
    m: int,
    name: Seq<char>,
)
    requires
        0 <= m < order.len(),
    ensures
        uses(bytes, tree, order.take(m + 1), name) <==> uses(bytes, tree, order.take(m), name) || (
        is_use(tree, order[m]) && node_text(bytes, tree, order[m]) == Some(name)),
{
    let short = order.take(m);
    let long = order.take(m + 1);
    if uses(bytes, tree, long, name) {
        let k = choose|k: int|
            0 <= k < long.len() && is_use(tree, #[trigger] long[k]) && node_text(
                bytes,
                tree,
                long[k],
            ) == Some(name);
        if k < m {
            assert(short[k] == long[k]);
        }
    }
    if uses(bytes, tree, short, name) {
        let k = choose|k: int|
            0 <= k < short.len() && is_use(tree, #[trigger] short[k]) && node_text(
                bytes,
                tree,
                short[k],
            ) == Some(name);
        assert(long[k] == short[k]);
    }
    if is_use(tree, order[m]) && node_text(bytes, tree, order[m]) == Some(name) {
        assert(long[m] == order[m]);
    }
}

/// One more name in a list is held besides those already held.
pub proof fn lemma_holds_name_push(names: Seq<String>, added: String, name: Seq<char>)
    ensures
        holds_name(names.push(added), name) <==> holds_name(names, name) || added@ == name,
{
    let longer = names.push(added);
    if holds_name(longer, name) {
        let k = choose|k: int| 0 <= k < longer.len() && (#[trigger] longer[k])@ == name;
        if k < names.len() {
            assert(names[k]@ == name);
        }
    }
    if holds_name(names, name) {
        let k = choose|k: int| 0 <= k < names.len() && (#[trigger] names[k])@ == name;
        assert(longer[k]@ == name);
    }
    if added@ == name {
        assert(longer[names.len() as int]@ == name);
    }
}

/// Walks `order` and lists the names that are used: the text of every
/// identifier or reference whose parent is not a declaration.
pub fn collect_uses(ctx: &FileContext, tree: &SyntaxTree, order: &Vec<usize>) -> (used: Vec<String>)
    requires
        tree@.wf(),
        tree@.fits(ctx.bytes().len()),
        forall|j: int| 0 <= j < order@.len() ==> (#[trigger] order@[j]) < tree@.nodes.len(),
    ensures
        forall|name: Seq<char>|
            holds_name(used@, name) <==> uses(ctx.bytes(), tree@, order@, name),
{
    let ghost bytes = ctx.bytes();
    let mut used: Vec<String> = Vec::new();
    let mut m: usize = 0;
    while m < order.len()
        invariant
            tree@.wf(),
            tree@.fits(bytes.len()),
            bytes == ctx.bytes(),
            forall|j: int| 0 <= j < order@.len() ==> (#[trigger] order@[j]) < tree@.nodes.len(),
            m <= order@.len(),
            forall|name: Seq<char>|
                holds_name(used@, name) <==> uses(bytes, tree@, order@.take(m as int), name),
        decreases order@.len() - m,
    {
        let i = order[m];
        let node = tree.node(i);
        let ghost before = used@;
        let mut counts = node.kind.is_identifier_use();
        if counts {
            match node.parent {
                Some(p) => {
                    if tree.node(p).kind.is_declaration() {
                        counts = false;
                    }
                },
                None => {},
            }
        }
        assert(counts == is_use(tree@, i));
        if counts {
            match text_between(ctx.src.as_str(), node.start_byte, node.end_byte) {
                Some(text) => {
                    let name = text.to_owned();
                    used.push(name);
                    proof {
                        assert forall|n: Seq<char>|
                            holds_name(used@, n) <==> uses(
                                bytes,
                                tree@,
                                order@.take(m + 1),
                                n,
                            ) by {
                            lemma_uses_step(bytes, tree@, order@, m as int, n);
                            lemma_holds_name_push(before, name, n);
                        }
                    }
                },
                None => {
                    proof {
                        assert forall|n: Seq<char>|
                            holds_name(used@, n) <==> uses(
                                bytes,
                                tree@,
                                order@.take(m + 1),
                                n,
                            ) by {
                            lemma_uses_step(bytes, tree@, order@, m as int, n);
                        }
                    }
                },
            }
        } else {
            proof {
                assert forall|n: Seq<char>|
                    holds_name(used@, n) <==> uses(bytes, tree@, order@.take(m + 1), n) by {
                    lemma_uses_step(bytes, tree@, order@, m as int, n);
                }
            }
        }
        m += 1;
    }
    assert(order@.take(m as int) =~= order@);
    used
}

/// Whether `name` is among `names`.
pub fn contains_name(names: &Vec<String>, name: &str) -> (r: bool)
    ensures
        r == holds_name(names@, name@),
{
    let mut k: usize = 0;
    while k < names.len()
        invariant
            k <= names@.len(),
            forall|j: int| 0 <= j < k ==> (#[trigger] names@[j])@ != name@,
        decreases names@.len() - k,
    {
        if str_eq(names[k].as_str(), name) {
            return true;
        }
        k += 1;
    }
    false
}

/// What the finding for an unused name says.
pub open spec fn unused_message(name: Seq<char>) -> Seq<char> {
    "Variable `"@ + name + "` is declared but never used"@
}

/// The finding for an unused name: a warning at the line and column of the
/// declaring identifier.
pub open spec fn unused_diagnostic(
    path: Seq<char>,
    bytes: Seq<u8>,
    d: DeclarationView,
) -> DiagnosticView {
    DiagnosticView {
        file: path,
        line: line_at(bytes, d.offset as int),
        column: column_at(bytes, d.offset as int),
        severity: Severity::Warning,
        code: RuleCode::TLA001,
        message: unused_message(d.name),
    }
}

/// The findings for the names of `table` that a walk through `order` does
/// not use, in the table's order.
pub open spec fn unused_findings(
    path: Seq<char>,
    bytes: Seq<u8>,
    tree: SyntaxTreeView,
    order: Seq<usize>,
    table: Seq<DeclarationView>,
) -> Seq<DiagnosticView>
    decreases table.len(),
{
    if table.len() == 0 {
        seq![]
    } else {
        let before = unused_findings(path, bytes, tree, order, table.drop_last());
        if uses(bytes, tree, order, table.last().name) {
            before
        } else {
            before.push(unused_diagnostic(path, bytes, table.last()))
        }
    }
}

/// What the unused-declaration rule finds in a file: one warning for every
/// declared name that no node outside a declaration uses.
pub open spec fn unused_declarations(path: Seq<char>, bytes: Seq<u8>, tree: SyntaxTreeView) -> Seq<
    DiagnosticView,
> {
    unused_findings(
        path,
        bytes,
        tree,
        tree.preorder(),
        declared_names(declarations(bytes, tree, tree.preorder())),
    )
}

/// The unused-declaration rule. Names are reported in the order in which
/// they were first declared; a name declared more than once is reported at
/// its last declaration.
pub fn rule_unused_variables(ctx: &FileContext, tree: &SyntaxTree, diags: &mut Vec<Diagnostic>)
    requires
        ctx.wf(),
        tree@.wf(),
        tree@.fits(ctx.bytes().len()),
    ensures
        diagnostics_view(final(diags)@) == diagnostics_view(old(diags)@) + unused_declarations(
            ctx.path@,
            ctx.bytes(),
            tree@,
        ),
{
    let ghost bytes = ctx.bytes();
    let ghost before = diagnostics_view(diags@);
    let order = tree.traverse();
    let table = collect_declarations(ctx, tree, &order);
    let used = collect_uses(ctx, tree, &order);
    let ghost names = declarations_view(table@);
    let mut k: usize = 0;
    assert(before + unused_findings(ctx.path@, bytes, tree@, order@, names.take(0)) =~= before);
    while k < table.len()
        invariant
            ctx.wf(),
            bytes == ctx.bytes(),
            before == diagnostics_view(old(diags)@),
            names == declarations_view(table@),
            k <= table@.len(),
            forall|j: int| 0 <= j < names.len() ==> (#[trigger] names[j]).offset <= bytes.len(),
            forall|name: Seq<char>| holds_name(used@, name) <==> uses(bytes, tree@, order@, name),
            diagnostics_view(diags@) == before + unused_findings(
                ctx.path@,
                bytes,
                tree@,
                order@,
                names.take(k as int),
            ),
        decreases table@.len() - k,
    {
        let d = &table[k];
        assert(names.take(k + 1).drop_last() =~= names.take(k as int));
        assert(names[k as int] == d@);
        if !contains_name(&used, d.name.as_str()) {
            let (line, column) = ctx.position(d.offset);
            let mut message = String::from_str("Variable `");
            message.append(d.name.as_str());
            message.append("` is declared but never used");
            let found = Diagnostic {
                file: ctx.path.clone(),
                line,
                column,
                severity: Severity::Warning,
                code: RuleCode::TLA001,
                message,
            };
            let ghost sofar = diagnostics_view(diags@);
            assert(found@ == unused_diagnostic(ctx.path@, bytes, d@));
            diags.push(found);
            assert(diagnostics_view(diags@) =~= sofar.push(found@));
        }
        k += 1;
    }
    assert(names.take(k as int) =~= names);
}

/// Whether a walk through `order` meets a declaration node.
pub open spec fn has_declaration(tree: SyntaxTreeView, order: Seq<usize>) -> bool {
    exists|k: int|
        0 <= k < order.len() && (#[trigger] order[k]) < tree.nodes.len()
            && tree.nodes[order[k] as int].kind.declares()
}

/// The name that node `i` defines: the text of its first identifier child,
/// where the node is an operator definition.
pub open spec fn operator_name(bytes: Seq<u8>, tree: SyntaxTreeView, i: usize) -> Option<
    Seq<char>,
> {
    if i < tree.nodes.len() && tree.nodes[i as int].kind == NodeKind::OperatorDefinition
        && tree.identifier_children(i).len() > 0 {
        node_text(bytes, tree, tree.identifier_children(i)[0])
    } else {
        None
    }
}

/// Whether a walk through `order` meets a definition of the operator
/// `name`.
pub open spec fn defines(
    bytes: Seq<u8>,
    tree: SyntaxTreeView,
    order: Seq<usize>,
    name: Seq<char>,
) -> bool {
    exists|k: int|
        0 <= k < order.len() && operator_name(bytes, tree, #[trigger] order[k]) == Some(name)
}

/// What the finding for a missing initial-state operator says.
pub open spec fn missing_init_message() -> Seq<char> {
    "Module declares VARIABLES but is missing Init operator"@
}

/// What the finding for a missing next-state operator says.
pub open spec fn missing_next_message() -> Seq<char> {
    "Module declares VARIABLES but is missing Next operator"@
}

/// The finding for a missing operator: an error at the start of the file.
pub open spec fn missing_diagnostic(path: Seq<char>, message: Seq<char>) -> DiagnosticView {
    DiagnosticView {
        file: path,
        line: 1,
        column: 1,
        severity: Severity::Error,
        code: RuleCode::TLA002,
        message,
    }
}

/// What the required-operators rule finds in a file: nothing where the
/// file declares nothing; else one error for `Init` and one for `Next`,
/// each only where no operator definition has that name.
pub open spec fn missing_operators(path: Seq<char>, bytes: Seq<u8>, tree: SyntaxTreeView) -> Seq<
    DiagnosticView,
> {
    let order = tree.preorder();
    if !has_declaration(tree, order) {
        seq![]
    } else {
        (if defines(bytes, tree, order, "Init"@) {
            seq![]
        } else {
            seq![missing_diagnostic(path, missing_init_message())]
        }) + (if defines(bytes, tree, order, "Next"@) {
            seq![]
        } else {
            seq![missing_diagnostic(path, missing_next_message())]
        })
    }
}

/// A walk one node longer meets a declaration where the shorter walk does
/// or the new node is one.
pub proof fn lemma_has_declaration_step(tree: SyntaxTreeView, order: Seq<usize>, m: int)
    requires
        0 <= m < order.len(),
    ensures
        has_declaration(tree, order.take(m + 1)) <==> has_declaration(tree, order.take(m)) || (
        order[m] < tree.nodes.len() && tree.nodes[order[m] as int].kind.declares()),
{
    let short = order.take(m);
    let long = order.take(m + 1);
    if has_declaration(tree, long) {
        let k = choose|k: int|
            0 <= k < long.len() && (#[trigger] long[k]) < tree.nodes.len()
                && tree.nodes[long[k] as int].kind.declares();
        if k < m {
            assert(short[k] == long[k]);
        }
    }
    if has_declaration(tree, short) {
        let k = choose|k: int|
            0 <= k < short.len() && (#[trigger] short[k]) < tree.nodes.len()
                && tree.nodes[short[k] as int].kind.declares();
        assert(long[k] == short[k]);
    }
    if order[m] < tree.nodes.len() && tree.nodes[order[m] as int].kind.declares() {
        assert(long[m] == order[m]);
    }
}

/// A walk one node longer meets a definition of `name` where the shorter
/// walk does or the new node defines it.
pub proof fn lemma_defines_step(
    bytes: Seq<u8>,
    tree: SyntaxTreeView,
    order: Seq<usize>,
    m: int,
    name: Seq<char>,
)
    requires
        0 <= m < order.len(),
    ensures
        defines(bytes, tree, order.take(m + 1), name) <==> defines(
            bytes,
            tree,
            order.take(m),
            name,
        ) || operator_name(bytes, tree, order[m]) == Some(name),
{
    let short = order.take(m);
    let long = order.take(m + 1);
    if defines(bytes, tree, long, name) {
        let k = choose|k: int|
            0 <= k < long.len() && operator_name(bytes, tree, #[trigger] long[k]) == Some(name);
        if k < m {
            assert(short[k] == long[k]);
        }
    }
    if defines(bytes, tree, short, name) {
        let k = choose|k: int|
            0 <= k < short.len() && operator_name(bytes, tree, #[trigger] short[k]) == Some(name);
        assert(long[k] == short[k]);
    }
    if operator_name(bytes, tree, order[m]) == Some(name) {
        assert(long[m] == order[m]);
    }
}

/// The required-operators rule: a file that declares variables or
/// constants must define `Init` and `Next`.
pub fn rule_missing_init_next(ctx: &FileContext, tree: &SyntaxTree, diags: &mut Vec<Diagnostic>)
    requires
        tree@.wf(),
        tree@.fits(ctx.bytes().len()),
    ensures
        diagnostics_view(final(diags)@) == diagnostics_view(old(diags)@) + missing_operators(
            ctx.path@,
            ctx.bytes(),
            tree@,
        ),
{
    let ghost bytes = ctx.bytes();
    let ghost before = diagnostics_view(diags@);
    let order = tree.traverse();
    let mut has_variables = false;
    let mut has_init = false;
    let mut has_next = false;
    let mut m: usize = 0;
    while m < order.len()
        invariant
            tree@.wf(),
            tree@.fits(bytes.len()),
            bytes == ctx.bytes(),
            forall|j: int| 0 <= j < order@.len() ==> (#[trigger] order@[j]) < tree@.nodes.len(),
            m <= order@.len(),
            has_variables == has_declaration(tree@, order@.take(m as int)),
            has_init == defines(bytes, tree@, order@.take(m as int), "Init"@),
            has_next == defines(bytes, tree@, order@.take(m as int), "Next"@),
        decreases order@.len() - m,
    {
        let i = order[m];
        let node = tree.node(i);
        proof {
            lemma_has_declaration_step(tree@, order@, m as int);
            lemma_defines_step(bytes, tree@, order@, m as int, "Init"@);
            lemma_defines_step(bytes, tree@, order@, m as int, "Next"@);
            reveal_strlit("Init");
            reveal_strlit("Next");
            assert("Init"@[0] != "Next"@[0]);
        }
        if node.kind.is_declaration() {
            has_variables = true;
        }
        if node.kind == NodeKind::OperatorDefinition {
            let idents = tree.child_identifiers(i);
            if idents.len() > 0 {
                let name_node = tree.node(idents[0]);
                match text_between(ctx.src.as_str(), name_node.start_byte, name_node.end_byte) {
                    Some(text) => {
                        if str_eq(text, "Init") {
                            has_init = true;
                        } else if str_eq(text, "Next") {
                            has_next = true;
                        }
                    },
                    None => {},
                }
            }
        }
        m += 1;
    }
    assert(order@.take(m as int) =~= order@);
    if !has_variables {
        assert(diagnostics_view(diags@) =~= before + missing_operators(ctx.path@, bytes, tree@));
        return ;
    }
    if !has_init {
        let found = Diagnostic {
            file: ctx.path.clone(),
            line: 1,
            column: 1,
            severity: Severity::Error,
            code: RuleCode::TLA002,
            message: String::from_str("Module declares VARIABLES but is missing Init operator"),
        };
        let ghost sofar = diagnostics_view(diags@);
        diags.push(found);
        assert(diagnostics_view(diags@) =~= sofar.push(found@));
    }
    if !has_next {
        let found = Diagnostic {
            file: ctx.path.clone(),
            line: 1,
            column: 1,
            severity: Severity::Error,
            code: RuleCode::TLA002,
            message: String::from_str("Module declares VARIABLES but is missing Next operator"),
        };
        let ghost sofar = diagnostics_view(diags@);
        diags.push(found);
        assert(diagnostics_view(diags@) =~= sofar.push(found@));
    }
    assert(diagnostics_view(diags@) =~= before + missing_operators(ctx.path@, bytes, tree@));
}

/// What all rules find in a file: the unused declarations, then the
/// missing operators.
pub open spec fn all_findings(path: Seq<char>, bytes: Seq<u8>, tree: SyntaxTreeView) -> Seq<
    DiagnosticView,
> {
    unused_declarations(path, bytes, tree) + missing_operators(path, bytes, tree)
}

/// Runs every rule on one file, in a fixed order, and appends what they
/// find to `diags`.
pub fn run_all_rules(ctx: &FileContext, tree: &SyntaxTree, diags: &mut Vec<Diagnostic>)
    requires
        ctx.wf(),
        tree@.wf(),
        tree@.fits(ctx.bytes().len()),
    ensures
        diagnostics_view(final(diags)@) == diagnostics_view(old(diags)@) + all_findings(
            ctx.path@,
            ctx.bytes(),
            tree@,
        ),
{
    rule_unused_variables(ctx, tree, diags);
    rule_missing_init_next(ctx, tree, diags);
    assert(diagnostics_view(diags@) =~= diagnostics_view(old(diags)@) + all_findings(
        ctx.path@,
        ctx.bytes(),
        tree@,
    ));
}

} // verus!
