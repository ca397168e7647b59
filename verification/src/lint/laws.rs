//! What the rules guarantee, stated over the findings of a file and
//! proved.

use vstd::prelude::*;
use crate::lint::rules::{
    all_findings, declarations, declared_names, defines, has_declaration, missing_diagnostic,
    missing_init_message, missing_next_message, missing_operators, names_entry, node_declarations,
    record, unused_declarations, unused_diagnostic, unused_findings, unused_message, uses,
    DeclarationView,
};
use crate::lint::reporter::{human_text, json_text};
use crate::lint::syntax::SyntaxTreeView;
use crate::lint::types::{DiagnosticView, Severity};
use crate::lint::{collected, sources_view, SourceFile};

verus! {

/// The findings that are errors, in order.
pub open spec fn errors_of(diags: Seq<DiagnosticView>) -> Seq<DiagnosticView>
    decreases diags.len(),
{
    if diags.len() == 0 {
        seq![]
    } else if diags.last().severity == Severity::Error {
        errors_of(diags.drop_last()).push(diags.last())
    } else {
        errors_of(diags.drop_last())
    }
}

/// The errors of two lists of findings put together are the errors of the
/// one followed by the errors of the other.
pub proof fn lemma_errors_of_concat(a: Seq<DiagnosticView>, b: Seq<DiagnosticView>)
    ensures
        errors_of(a + b) == errors_of(a) + errors_of(b),
    decreases b.len(),
{
    if b.len() == 0 {
        assert(a + b =~= a);
        assert(errors_of(a) + errors_of(b) =~= errors_of(a));
    } else {
        lemma_errors_of_concat(a, b.drop_last());
        assert((a + b).drop_last() =~= a + b.drop_last());
        assert((a + b).last() == b.last());
        if b.last().severity == Severity::Error {
            assert(errors_of(a + b) =~= errors_of(a) + errors_of(b));
        }
    }
}

/// A single error is its own list of errors.
pub proof fn lemma_errors_of_one(d: DiagnosticView)
    requires
        d.severity == Severity::Error,
    ensures
        errors_of(seq![d]) == seq![d],
{
    let one = seq![d];
    assert(one.last() == d);
    assert(one.drop_last() =~= Seq::<DiagnosticView>::empty());
    assert(errors_of(one.drop_last()) =~= Seq::<DiagnosticView>::empty());
    assert(errors_of(one) =~= seq![d]);
}

/// The unused-declaration rule reports warnings only.
pub proof fn lemma_unused_findings_are_warnings(
    path: Seq<char>,
    bytes: Seq<u8>,
    tree: SyntaxTreeView,
    order: Seq<usize>,
    table: Seq<DeclarationView>,
)
    ensures
        errors_of(unused_findings(path, bytes, tree, order, table)) == Seq::<
            DiagnosticView,
        >::empty(),
    decreases table.len(),
{
    if table.len() > 0 {
        lemma_unused_findings_are_warnings(path, bytes, tree, order, table.drop_last());
        let before = unused_findings(path, bytes, tree, order, table.drop_last());
        if !uses(bytes, tree, order, table.last().name) {
            let found = unused_diagnostic(path, bytes, table.last());
            assert(before.push(found).drop_last() =~= before);
        }
    }
}

/// A walk through nodes that declare nothing meets no declaration.
pub proof fn lemma_no_declaration_met(bytes: Seq<u8>, tree: SyntaxTreeView, order: Seq<usize>)
    requires
        forall|i: int| 0 <= i < tree.nodes.len() ==> !(#[trigger] tree.nodes[i]).kind.declares(),
    ensures
        declarations(bytes, tree, order) == Seq::<DeclarationView>::empty(),
        !has_declaration(tree, order),
    decreases order.len(),
{
    if order.len() > 0 {
        lemma_no_declaration_met(bytes, tree, order.drop_last());
        assert(node_declarations(bytes, tree, order.last()) =~= Seq::<DeclarationView>::empty());
    }
    if has_declaration(tree, order) {
        let k = choose|k: int|
            0 <= k < order.len() && (#[trigger] order[k]) < tree.nodes.len()
                && tree.nodes[order[k] as int].kind.declares();
        assert(!tree.nodes[order[k] as int].kind.declares());
    }
}

/// A file without a declaration node has no findings.
pub proof fn lemma_nothing_declared_nothing_found(
    path: Seq<char>,
    bytes: Seq<u8>,
    tree: SyntaxTreeView,
)
    requires
        forall|i: int| 0 <= i < tree.nodes.len() ==> !(#[trigger] tree.nodes[i]).kind.declares(),
    ensures
        all_findings(path, bytes, tree) == Seq::<DiagnosticView>::empty(),
{
    lemma_no_declaration_met(bytes, tree, tree.preorder());
    assert(all_findings(path, bytes, tree) =~= Seq::<DiagnosticView>::empty());
}

/// A file that declares something and defines neither `Init` nor `Next`
/// has exactly two errors: that `Init` is missing and that `Next` is, both
/// at line 1, column 1.
pub proof fn lemma_both_operators_missing(path: Seq<char>, bytes: Seq<u8>, tree: SyntaxTreeView)
    requires
        has_declaration(tree, tree.preorder()),
        !defines(bytes, tree, tree.preorder(), "Init"@),
        !defines(bytes, tree, tree.preorder(), "Next"@),
    ensures
        errors_of(all_findings(path, bytes, tree)) == seq![
            missing_diagnostic(path, missing_init_message()),
            missing_diagnostic(path, missing_next_message()),
        ],
{
    let order = tree.preorder();
    let found = missing_operators(path, bytes, tree);
    let init = missing_diagnostic(path, missing_init_message());
    let next = missing_diagnostic(path, missing_next_message());
    lemma_unused_findings_are_warnings(
        path,
        bytes,
        tree,
        order,
        declared_names(declarations(bytes, tree, order)),
    );
    lemma_errors_of_concat(unused_declarations(path, bytes, tree), found);
    assert(found =~= seq![init, next]);
    assert(found.drop_last() =~= seq![init]);
    lemma_errors_of_one(init);
    assert(errors_of(found) =~= seq![init, next]);
    assert(errors_of(all_findings(path, bytes, tree)) =~= seq![init, next]);
}

/// A file that declares something and defines one of `Init` and `Next` has
/// exactly one error, which names the other.
pub proof fn lemma_one_operator_missing(path: Seq<char>, bytes: Seq<u8>, tree: SyntaxTreeView)
    requires
        has_declaration(tree, tree.preorder()),
        defines(bytes, tree, tree.preorder(), "Init"@) != defines(
            bytes,
            tree,
            tree.preorder(),
            "Next"@,
        ),
    ensures
        errors_of(all_findings(path, bytes, tree)) == seq![
            missing_diagnostic(
                path,
                if defines(bytes, tree, tree.preorder(), "Init"@) {
                    missing_next_message()
                } else {
                    missing_init_message()
                },
            ),
        ],
{
    let order = tree.preorder();
    let found = missing_operators(path, bytes, tree);
    let only = missing_diagnostic(
        path,
        if defines(bytes, tree, order, "Init"@) {
            missing_next_message()
        } else {
            missing_init_message()
        },
    );
    lemma_unused_findings_are_warnings(
        path,
        bytes,
        tree,
        order,
        declared_names(declarations(bytes, tree, order)),
    );
    lemma_errors_of_concat(unused_declarations(path, bytes, tree), found);
    assert(found =~= seq![only]);
    lemma_errors_of_one(only);
    assert(errors_of(all_findings(path, bytes, tree)) =~= seq![only]);
}

/// Two names with the same message are one name.
pub proof fn lemma_unused_message_names(a: Seq<char>, b: Seq<char>)
    requires
        unused_message(a) == unused_message(b),
    ensures
        a == b,
{
    let head = "Variable `"@;
    let tail = "` is declared but never used"@;
    assert(unused_message(a).len() == head.len() + a.len() + tail.len());
    assert(unused_message(b).len() == head.len() + b.len() + tail.len());
    assert forall|i: int| 0 <= i < a.len() implies a[i] == b[i] by {
        assert(unused_message(a)[head.len() + i] == a[i]);
        assert(unused_message(b)[head.len() + i] == b[i]);
    }
    assert(a =~= b);
}

/// Every finding of the unused-declaration rule is that of an entry of the
/// table whose name is not used.
pub proof fn lemma_unused_finding_origin(
    path: Seq<char>,
    bytes: Seq<u8>,
    tree: SyntaxTreeView,
    order: Seq<usize>,
    table: Seq<DeclarationView>,
    k: int,
) -> (m: int)
    requires
        0 <= k < unused_findings(path, bytes, tree, order, table).len(),
    ensures
        0 <= m < table.len(),
        !uses(bytes, tree, order, table[m].name),
        unused_findings(path, bytes, tree, order, table)[k] == unused_diagnostic(
            path,
            bytes,
            table[m],
        ),
    decreases table.len(),
{
    let before = unused_findings(path, bytes, tree, order, table.drop_last());
    if k < before.len() {
        let m = lemma_unused_finding_origin(path, bytes, tree, order, table.drop_last(), k);
        assert(table.drop_last()[m] == table[m]);
        m
    } else {
        table.len() - 1
    }
}

/// A name that is used outside declarations is not reported as unused.
pub proof fn lemma_used_name_not_reported(
    path: Seq<char>,
    bytes: Seq<u8>,
    tree: SyntaxTreeView,
    name: Seq<char>,
)
    requires
        uses(bytes, tree, tree.preorder(), name),
    ensures
        forall|k: int|
            0 <= k < unused_declarations(path, bytes, tree).len() ==> (#[trigger] unused_declarations(
                path,
                bytes,
                tree,
            )[k]).message != unused_message(name),
{
    let order = tree.preorder();
    let table = declared_names(declarations(bytes, tree, order));
    let out = unused_declarations(path, bytes, tree);
    assert forall|k: int| 0 <= k < out.len() implies (#[trigger] out[k]).message != unused_message(
        name,
    ) by {
        let m = lemma_unused_finding_origin(path, bytes, tree, order, table, k);
        if out[k].message == unused_message(name) {
            lemma_unused_message_names(table[m].name, name);
        }
    }
}

/// Whether `name` is among the declarations.
pub open spec fn declares_name(decls: Seq<DeclarationView>, name: Seq<char>) -> bool {
    exists|k: int| 0 <= k < decls.len() && (#[trigger] decls[k]).name == name
}

/// The offset of the last declaration of `name`.
pub open spec fn last_offset(decls: Seq<DeclarationView>, name: Seq<char>) -> usize
    decreases decls.len(),
{
    if decls.len() == 0 {
        0
    } else if decls.last().name == name {
        decls.last().offset
    } else {
        last_offset(decls.drop_last(), name)
    }
}

/// A table that holds a name has a first entry with it.
pub proof fn lemma_first_entry(table: Seq<DeclarationView>, name: Seq<char>, i: int) -> (k: int)
    requires
        0 <= i < table.len(),
        table[i].name == name,
    ensures
        names_entry(table, name, k),
    decreases i,
{
    if exists|j: int| 0 <= j < i && (#[trigger] table[j]).name == name {
        let j = choose|j: int| 0 <= j < i && (#[trigger] table[j]).name == name;
        lemma_first_entry(table, name, j)
    } else {
        i
    }
}

/// The table of declared names holds each declared name once, with the
/// offset of its last declaration, and no other name.
pub proof fn lemma_declared_names(decls: Seq<DeclarationView>)
    ensures
        forall|i: int, j: int|
            0 <= i < j < declared_names(decls).len() ==> (#[trigger] declared_names(decls)[i]).name
                != (#[trigger] declared_names(decls)[j]).name,
        forall|i: int|
            0 <= i < declared_names(decls).len() ==> declares_name(
                decls,
                (#[trigger] declared_names(decls)[i]).name,
            ) && declared_names(decls)[i].offset == last_offset(
                decls,
                declared_names(decls)[i].name,
            ),
        forall|name: Seq<char>| #[trigger]
            declares_name(decls, name) ==> declares_name(declared_names(decls), name),
    decreases decls.len(),
{
    if decls.len() > 0 {
        let earlier = decls.drop_last();
        let d = decls.last();
        let prev = declared_names(earlier);
        let table = declared_names(decls);
        lemma_declared_names(earlier);
        assert(table == record(prev, d));
        assert forall|name: Seq<char>| declares_name(earlier, name) implies declares_name(
            decls,
            name,
        ) by {
            let k = choose|k: int| 0 <= k < earlier.len() && (#[trigger] earlier[k]).name == name;
            assert(decls[k].name == name);
        }
        assert(declares_name(decls, d.name)) by {
            assert(decls[decls.len() - 1].name == d.name);
        }
        if exists|k: int| names_entry(prev, d.name, k) {
            let c = choose|k: int| names_entry(prev, d.name, k);
            assert(table == prev.update(c, d));
            assert forall|i: int| 0 <= i < table.len() implies declares_name(
                decls,
                (#[trigger] table[i]).name,
            ) && table[i].offset == last_offset(decls, table[i].name) by {
                if i != c {
                    assert(table[i] == prev[i]);
                    if i < c {
                        assert(prev[i].name != prev[c].name);
                    } else {
                        assert(prev[c].name != prev[i].name);
                    }
                }
            }
            assert forall|name: Seq<char>| #[trigger]
                declares_name(decls, name) implies declares_name(table, name) by {
                let k = choose|k: int| 0 <= k < decls.len() && (#[trigger] decls[k]).name == name;
                if k < earlier.len() {
                    assert(earlier[k].name == name);
                    assert(declares_name(earlier, name));
                    let i = choose|i: int| 0 <= i < prev.len() && (#[trigger] prev[i]).name == name;
                    assert(table[i].name == name);
                } else {
                    assert(table[c].name == name);
                }
            }
        } else {
            assert(table == prev.push(d));
            assert forall|i: int| 0 <= i < prev.len() implies (#[trigger] prev[i]).name
                != d.name by {
                if prev[i].name == d.name {
                    let k = lemma_first_entry(prev, d.name, i);
                }
            }
            assert forall|i: int| 0 <= i < table.len() implies declares_name(
                decls,
                (#[trigger] table[i]).name,
            ) && table[i].offset == last_offset(decls, table[i].name) by {
                if i < prev.len() {
                    assert(table[i] == prev[i]);
                }
            }
            assert forall|name: Seq<char>| #[trigger]
                declares_name(decls, name) implies declares_name(table, name) by {
                let k = choose|k: int| 0 <= k < decls.len() && (#[trigger] decls[k]).name == name;
                if k < earlier.len() {
                    assert(earlier[k].name == name);
                    assert(declares_name(earlier, name));
                    let i = choose|i: int| 0 <= i < prev.len() && (#[trigger] prev[i]).name == name;
                    assert(table[i].name == name);
                } else {
                    assert(table[prev.len() as int].name == name);
                }
            }
        }
    }
}

/// In a table without a repeated name, an entry whose name is not used
/// gives one finding, and no other finding is about that name.
pub proof fn lemma_entry_reported_once(
    path: Seq<char>,
    bytes: Seq<u8>,
    tree: SyntaxTreeView,
    order: Seq<usize>,
    table: Seq<DeclarationView>,
    i: int,
) -> (k: int)
    requires
        forall|a: int, b: int|
            0 <= a < b < table.len() ==> (#[trigger] table[a]).name != (#[trigger] table[b]).name,
        0 <= i < table.len(),
        !uses(bytes, tree, order, table[i].name),
    ensures
        0 <= k < unused_findings(path, bytes, tree, order, table).len(),
        unused_findings(path, bytes, tree, order, table)[k] == unused_diagnostic(
            path,
            bytes,
            table[i],
        ),
        forall|j: int|
            0 <= j < unused_findings(path, bytes, tree, order, table).len() && j != k ==> (
            #[trigger] unused_findings(path, bytes, tree, order, table)[j]).message
                != unused_message(table[i].name),
    decreases table.len(),
{
    let shorter = table.drop_last();
    let before = unused_findings(path, bytes, tree, order, shorter);
    let out = unused_findings(path, bytes, tree, order, table);
    let name = table[i].name;
    if i == table.len() - 1 {
        let k = before.len() as int;
        assert forall|j: int| 0 <= j < out.len() && j != k implies (#[trigger] out[j]).message
            != unused_message(name) by {
            let m = lemma_unused_finding_origin(path, bytes, tree, order, shorter, j);
            assert(shorter[m] == table[m]);
            if out[j].message == unused_message(name) {
                lemma_unused_message_names(table[m].name, name);
            }
        }
        k
    } else {
        assert(shorter[i] == table[i]);
        assert forall|a: int, b: int| 0 <= a < b < shorter.len() implies (#[trigger] shorter[a]).name
            != (#[trigger] shorter[b]).name by {
            assert(shorter[a] == table[a] && shorter[b] == table[b]);
        }
        let k = lemma_entry_reported_once(path, bytes, tree, order, shorter, i);
        assert forall|j: int| 0 <= j < out.len() && j != k implies (#[trigger] out[j]).message
            != unused_message(name) by {
            if j >= before.len() {
                if out[j].message == unused_message(name) {
                    lemma_unused_message_names(table.last().name, name);
                }
            }
        }
        k
    }
}

/// A declared name that is not used outside declarations is reported
/// exactly once: by a warning of the unused-declaration rule, at the line
/// and column of the identifier that declared it last.
pub proof fn lemma_unused_name_reported_once(
    path: Seq<char>,
    bytes: Seq<u8>,
    tree: SyntaxTreeView,
    name: Seq<char>,
)
    requires
        declares_name(declarations(bytes, tree, tree.preorder()), name),
        !uses(bytes, tree, tree.preorder(), name),
    ensures
        exists|k: int|
            0 <= k < unused_declarations(path, bytes, tree).len() && (#[trigger] unused_declarations(
                path,
                bytes,
                tree,
            )[k]) == unused_diagnostic(
                path,
                bytes,
                DeclarationView {
                    name,
                    offset: last_offset(declarations(bytes, tree, tree.preorder()), name),
                },
            ) && forall|j: int|
                0 <= j < unused_declarations(path, bytes, tree).len() && j != k ==> (
                #[trigger] unused_declarations(path, bytes, tree)[j]).message != unused_message(
                    name,
                ),
{
    let order = tree.preorder();
    let decls = declarations(bytes, tree, order);
    let table = declared_names(decls);
    lemma_declared_names(decls);
    assert(declares_name(table, name));
    let i = choose|i: int| 0 <= i < table.len() && (#[trigger] table[i]).name == name;
    let k = lemma_entry_reported_once(path, bytes, tree, order, table, i);
    assert(table[i] == DeclarationView { name, offset: last_offset(decls, name) });
    assert(unused_declarations(path, bytes, tree)[k] == unused_diagnostic(path, bytes, table[i]));
}

/// Linting again what has not changed changes nothing: files with the same
/// paths and texts, in the same order and with the same syntax trees, give
/// the same findings in the same order, the same JSON document and the
/// same lines of text.
pub proof fn lemma_rerun_is_identical(
    first: Seq<SourceFile>,
    second: Seq<SourceFile>,
    trees: Seq<Option<SyntaxTreeView>>,
)
    requires
        sources_view(first) == sources_view(second),
    ensures
        collected(sources_view(first), trees) == collected(sources_view(second), trees),
        json_text(collected(sources_view(first), trees)) == json_text(
            collected(sources_view(second), trees),
        ),
        human_text(collected(sources_view(first), trees)) == human_text(
            collected(sources_view(second), trees),
        ),
{
}

} // verus!
