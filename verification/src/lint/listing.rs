//! Why a listing is read the way it is: the tree built from a pre-order
//! listing, walked in pre-order, gives the records back in the order in
//! which they were listed.

use vstd::prelude::*;
use crate::lint::syntax::{
    children_in_listing, is_listing, nearest_at_depth, parent_in_listing, record_fits, tree_of,
    NodeRecordView,
};

verus! {

/// The first record from `j` on that does not lie deeper than `depth`, or
/// the end of the listing.
pub open spec fn first_not_deeper(records: Seq<NodeRecordView>, j: int, depth: int) -> int
    decreases records.len() - j,
{
    if j >= records.len() || records[j].depth <= depth {
        j
    } else {
        first_not_deeper(records, j + 1, depth)
    }
}

/// Where the subtree of record `i` ends: at the first later record that
/// does not lie deeper than it.
pub open spec fn subtree_end(records: Seq<NodeRecordView>, i: int) -> int {
    first_not_deeper(records, i + 1, records[i].depth as int)
}

/// The indices from `from` up to, not including, `to`.
pub open spec fn indices(from: int, to: int) -> Seq<usize> {
    Seq::new((to - from) as nat, |t: int| (from + t) as usize)
}

/// Up to the first record that does not lie deeper, every record lies
/// deeper.
pub proof fn lemma_first_not_deeper(records: Seq<NodeRecordView>, j: int, depth: int)
    requires
        0 <= j <= records.len(),
    ensures
        j <= first_not_deeper(records, j, depth) <= records.len(),
        forall|t: int|
            j <= t < first_not_deeper(records, j, depth) ==> (#[trigger] records[t]).depth > depth,
        first_not_deeper(records, j, depth) < records.len() ==> records[first_not_deeper(
            records,
            j,
            depth,
        )].depth <= depth,
    decreases records.len() - j,
{
    if j < records.len() && records[j].depth > depth {
        lemma_first_not_deeper(records, j + 1, depth);
    }
}

/// Going back from a record that lies at `depth` or deeper, a record at
/// `depth` is met before any record that lies higher.
pub proof fn lemma_nearest_found(
    records: Seq<NodeRecordView>,
    text_len: nat,
    j: int,
    depth: int,
)
    requires
        is_listing(records, text_len),
        1 <= j <= records.len(),
        0 <= depth <= records[j - 1].depth,
    ensures
        0 <= nearest_at_depth(records, j, depth) < j,
        records[nearest_at_depth(records, j, depth)].depth == depth,
        forall|t: int|
            nearest_at_depth(records, j, depth) < t < j ==> (#[trigger] records[t]).depth > depth,
    decreases j,
{
    if records[j - 1].depth != depth {
        assert(record_fits(records, text_len, j - 1));
        lemma_nearest_found(records, text_len, j - 1, depth);
    }
}

/// Going back over records that all lie deeper than record `i`, the first
/// record met at the depth of `i` is `i`.
pub proof fn lemma_nearest_is(records: Seq<NodeRecordView>, i: int, j: int)
    requires
        0 <= i < j <= records.len(),
        forall|t: int| i < t < j ==> (#[trigger] records[t]).depth > records[i].depth,
    ensures
        nearest_at_depth(records, j, records[i].depth as int) == i,
    decreases j,
{
    if j - 1 != i {
        lemma_nearest_is(records, i, j - 1);
    }
}

/// Record `i` is the parent of record `j` exactly when `j` lies in the
/// subtree of `i`, one level below it.
pub proof fn lemma_parent_in_listing(
    records: Seq<NodeRecordView>,
    text_len: nat,
    i: int,
    j: int,
)
    requires
        is_listing(records, text_len),
        records.len() <= usize::MAX,
        0 <= i < records.len(),
        0 <= j < records.len(),
    ensures
        parent_in_listing(records, j) == Some(i as usize) <==> i < j < subtree_end(records, i)
            && records[j].depth == records[i].depth + 1,
{
    let depth = records[i].depth as int;
    lemma_first_not_deeper(records, i + 1, depth);
    if i < j < subtree_end(records, i) && records[j].depth == depth + 1 {
        lemma_nearest_is(records, i, j);
    }
    if parent_in_listing(records, j) == Some(i as usize) {
        assert(record_fits(records, text_len, j));
        assert(j > 0) by {
            assert(record_fits(records, text_len, 0));
        }
        lemma_nearest_found(records, text_len, j, records[j].depth - 1);
        let p = nearest_at_depth(records, j, records[j].depth - 1);
        assert(p == i);
        if subtree_end(records, i) <= j {
            let e = subtree_end(records, i);
            assert(records[e].depth <= depth);
        }
    }
}

/// The children listed for a record are the records whose parent it is,
/// in increasing order.
pub proof fn lemma_children_in_listing(records: Seq<NodeRecordView>, i: int, upto: int)
    requires
        0 <= i < records.len(),
        0 <= upto <= records.len(),
        records.len() <= usize::MAX,
    ensures
        forall|k: int|
            0 <= k < children_in_listing(records, i, upto).len() ==> {
                &&& (#[trigger] children_in_listing(records, i, upto)[k]) < upto
                &&& parent_in_listing(records, children_in_listing(records, i, upto)[k] as int)
                    == Some(i as usize)
            },
        forall|k: int, l: int|
            0 <= k < l < children_in_listing(records, i, upto).len() ==> children_in_listing(
                records,
                i,
                upto,
            )[k] < children_in_listing(records, i, upto)[l],
        forall|j: int|
            0 <= j < upto && parent_in_listing(records, j) == Some(i as usize)
                ==> children_in_listing(records, i, upto).contains(j as usize),
    decreases upto,
{
    if upto > 0 {
        lemma_children_in_listing(records, i, upto - 1);
        let before = children_in_listing(records, i, upto - 1);
        let now = children_in_listing(records, i, upto);
        assert forall|j: int|
            0 <= j < upto && parent_in_listing(records, j) == Some(i as usize) implies now.contains(
            j as usize,
        ) by {
            if j < upto - 1 {
                assert(before.contains(j as usize));
                let k = choose|k: int| 0 <= k < before.len() && before[k] == j as usize;
                assert(now[k] == j as usize);
            } else {
                assert(now[before.len() as int] == j as usize);
            }
        }
    }
}

/// The children of a record follow one another without a gap: the first
/// is the record after their parent, each next one begins where the
/// subtree of the one before ends, and the subtree of the last ends where
/// that of the parent does.
pub proof fn lemma_child_in_listing(records: Seq<NodeRecordView>, text_len: nat, i: int, k: int)
    requires
        is_listing(records, text_len),
        records.len() <= usize::MAX,
        0 <= i < records.len(),
        0 <= k < children_in_listing(records, i, records.len() as int).len(),
    ensures
        ({
            let kids = children_in_listing(records, i, records.len() as int);
            &&& i < kids[k] < subtree_end(records, i)
            &&& k == 0 ==> kids[k] == i + 1
            &&& k + 1 < kids.len() ==> kids[k + 1] == subtree_end(records, kids[k] as int)
            &&& k + 1 == kids.len() ==> subtree_end(records, kids[k] as int) == subtree_end(
                records,
                i,
            )
        }),
{
    let n = records.len() as int;
    let kids = children_in_listing(records, i, n);
    let c = kids[k] as int;
    let end = subtree_end(records, i);
    let depth = records[i].depth as int;
    lemma_children_in_listing(records, i, n);
    lemma_parent_in_listing(records, text_len, i, c);
    lemma_first_not_deeper(records, i + 1, depth);
    lemma_first_not_deeper(records, c + 1, depth + 1);
    let e = subtree_end(records, c);
    assert(e <= end) by {
        if end < n && e > end {
            assert(records[end].depth > depth + 1);
        }
    }
    if k == 0 && c != i + 1 {
        assert(record_fits(records, text_len, i + 1));
        assert(records[i + 1].depth > depth);
        lemma_parent_in_listing(records, text_len, i, i + 1);
        assert(kids.contains((i + 1) as usize));
        let m = choose|m: int| 0 <= m < kids.len() && kids[m] == (i + 1) as usize;
        if m > 0 {
            assert(kids[0] < kids[m]);
        }
    }
    if e < end {
        assert(records[e].depth > depth);
        lemma_parent_in_listing(records, text_len, i, e);
        assert(kids.contains(e as usize));
        let m = choose|m: int| 0 <= m < kids.len() && kids[m] == e as usize;
        assert(m > k) by {
            if m < k {
                assert(kids[m] < kids[k]);
            }
        }
        let next = kids[k + 1] as int;
        lemma_parent_in_listing(records, text_len, i, next);
        if k + 1 < m {
            assert(kids[k + 1] < kids[m]);
        }
        if next < e {
            assert(kids[k] < kids[k + 1]);
            assert(records[next].depth > depth + 1);
        }
    } else {
        if k + 1 < kids.len() {
            let next = kids[k + 1] as int;
            lemma_parent_in_listing(records, text_len, i, next);
            assert(kids[k] < kids[k + 1]);
            assert(records[next].depth > depth + 1);
        }
    }
}

/// A record without children is its whole subtree.
pub proof fn lemma_no_child_in_listing(records: Seq<NodeRecordView>, text_len: nat, i: int)
    requires
        is_listing(records, text_len),
        records.len() <= usize::MAX,
        0 <= i < records.len(),
        children_in_listing(records, i, records.len() as int).len() == 0,
    ensures
        subtree_end(records, i) == i + 1,
{
    let n = records.len() as int;
    let depth = records[i].depth as int;
    lemma_first_not_deeper(records, i + 1, depth);
    if subtree_end(records, i) > i + 1 {
        assert(record_fits(records, text_len, i + 1));
        assert(records[i + 1].depth > depth);
        lemma_parent_in_listing(records, text_len, i, i + 1);
        lemma_children_in_listing(records, i, n);
        assert(children_in_listing(records, i, n).contains((i + 1) as usize));
    }
}

/// Walked in pre-order, the subtree of a record is the run of records
/// from it to where its subtree ends.
pub proof fn lemma_subtree_is_run(records: Seq<NodeRecordView>, text_len: nat, i: int)
    requires
        is_listing(records, text_len),
        records.len() <= usize::MAX,
        0 <= i < records.len(),
    ensures
        tree_of(records).subtree(i as usize) == indices(i, subtree_end(records, i)),
    decreases records.len() - i, children_in_listing(records, i, records.len() as int).len() + 1,
{
    let tree = tree_of(records);
    let kids = children_in_listing(records, i, records.len() as int);
    assert(tree.nodes[i].children == kids);
    lemma_first_not_deeper(records, i + 1, records[i].depth as int);
    lemma_forest_is_run(records, text_len, i, 0);
    if kids.len() == 0 {
        lemma_no_child_in_listing(records, text_len, i);
    } else {
        lemma_child_in_listing(records, text_len, i, 0);
    }
    assert(tree.subtree(i as usize) =~= indices(i, subtree_end(records, i)));
}

/// Walked in pre-order, the subtrees of the children of a record from the
/// `k`-th on are the run of records from that child to where the subtree
/// of the record ends.
pub proof fn lemma_forest_is_run(records: Seq<NodeRecordView>, text_len: nat, i: int, k: nat)
    requires
        is_listing(records, text_len),
        records.len() <= usize::MAX,
        0 <= i < records.len(),
        k <= children_in_listing(records, i, records.len() as int).len(),
    ensures
        tree_of(records).forest(i as usize, k) == indices(
            if k < children_in_listing(records, i, records.len() as int).len() {
                children_in_listing(records, i, records.len() as int)[k as int] as int
            } else {
                subtree_end(records, i)
            },
            subtree_end(records, i),
        ),
    decreases records.len() - i, children_in_listing(records, i, records.len() as int).len() - k,
{
    let tree = tree_of(records);
    let kids = children_in_listing(records, i, records.len() as int);
    let end = subtree_end(records, i);
    assert(tree.nodes[i].children == kids);
    lemma_first_not_deeper(records, i + 1, records[i].depth as int);
    if k < kids.len() {
        let c = kids[k as int] as int;
        lemma_child_in_listing(records, text_len, i, k as int);
        lemma_first_not_deeper(records, c + 1, records[c].depth as int);
        lemma_subtree_is_run(records, text_len, c);
        lemma_forest_is_run(records, text_len, i, k + 1);
        assert(tree.forest(i as usize, k) == tree.subtree(c as usize) + tree.forest(
            i as usize,
            k + 1,
        ));
        assert(tree.forest(i as usize, k) =~= indices(c, end));
    } else {
        assert(tree.forest(i as usize, k) =~= indices(end, end));
    }
}

/// The tree built from a listing, walked in pre-order, gives the records
/// in the order of the listing.
pub proof fn lemma_listing_is_preorder(records: Seq<NodeRecordView>, text_len: nat)
    requires
        is_listing(records, text_len),
        records.len() <= usize::MAX,
    ensures
        tree_of(records).preorder() == indices(0, records.len() as int),
{
    if records.len() > 0 {
        lemma_subtree_is_run(records, text_len, 0);
        lemma_first_not_deeper(records, 1, 0);
        let end = subtree_end(records, 0);
        assert(record_fits(records, text_len, 0));
        if end < records.len() {
            assert(record_fits(records, text_len, end));
        }
    } else {
        assert(tree_of(records).preorder() =~= indices(0, 0));
    }
}

} // verus!
