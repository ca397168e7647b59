//! File selection: which of the paths met on the way are TLA+ sources, and
//! in what order they are linted.
//!
//! Walking directories is left to the caller. It hands in, for every path
//! met, the path, its file name and whether it is a symbolic link; the
//! rules for hidden entries, links and extensions are decided here.

use vstd::prelude::*;
use vstd::string::StrSliceExecFns;
use crate::lint::paths::{
    lemma_path_le_antisymmetric, lemma_path_le_follows_names, lemma_path_le_is_total_order,
    lemma_path_le_total, lemma_path_le_transitive, names_order, path_le, path_precedes,
};

verus! {

/// The index of the last dot of a name, or -1 where it has none.
pub open spec fn last_dot(name: Seq<char>) -> int
    decreases name.len(),
{
    if name.len() == 0 {
        -1
    } else if name.last() == '.' {
        name.len() - 1
    } else {
        last_dot(name.drop_last())
    }
}

/// The extension of a file name: what follows its last dot. A name without
/// a dot has none, nor has a name whose only dot is its first character.
pub open spec fn extension_of(name: Seq<char>) -> Option<Seq<char>> {
    if last_dot(name) <= 0 {
        None
    } else {
        Some(name.subrange(last_dot(name) + 1, name.len() as int))
    }
}

/// Whether an extension is `tla`, in any mix of upper and lower case.
pub open spec fn is_tla_extension(ext: Seq<char>) -> bool {
    &&& ext.len() == 3
    &&& (ext[0] == 't' || ext[0] == 'T')
    &&& (ext[1] == 'l' || ext[1] == 'L')
    &&& (ext[2] == 'a' || ext[2] == 'A')
}

/// Whether a file name is that of a TLA+ source.
pub open spec fn is_tla_name(name: Option<Seq<char>>) -> bool {
    name matches Some(n) && extension_of(n) matches Some(ext) && is_tla_extension(ext)
}

/// Whether a file name is hidden: it begins with a dot.
pub open spec fn is_hidden_name(name: Option<Seq<char>>) -> bool {
    name matches Some(n) && n.len() > 0 && n[0] == '.'
}

/// The last dot of a name that ends in a dot and three other characters is
/// that dot.
pub proof fn lemma_last_dot_before_three(name: Seq<char>)
    requires
        name.len() >= 4,
        name[name.len() - 4] == '.',
        name[name.len() - 3] != '.',
        name[name.len() - 2] != '.',
        name[name.len() - 1] != '.',
    ensures
        last_dot(name) == name.len() - 4,
{
    let a = name.drop_last();
    let b = a.drop_last();
    let c = b.drop_last();
    assert(last_dot(name) == last_dot(a));
    assert(last_dot(a) == last_dot(b));
    assert(last_dot(b) == last_dot(c));
    assert(c.last() == '.');
}

/// The last dot of a name is a dot, and no dot follows it.
pub proof fn lemma_last_dot(name: Seq<char>)
    ensures
        -1 <= last_dot(name) < name.len(),
        last_dot(name) >= 0 ==> name[last_dot(name)] == '.',
        forall|i: int| last_dot(name) < i < name.len() ==> name[i] != '.',
    decreases name.len(),
{
    if name.len() > 0 && name.last() != '.' {
        let head = name.drop_last();
        lemma_last_dot(head);
        assert forall|i: int| last_dot(name) < i < name.len() implies name[i] != '.' by {
            if i < head.len() {
                assert(head[i] == name[i]);
            }
        }
    }
}

/// Whether a file name is that of a TLA+ source: its extension is `tla`,
/// whatever the case of the letters.
pub fn is_tla_file(file_name: Option<&str>) -> (r: bool)
    ensures
        r == is_tla_name(
            match file_name {
                Some(n) => Some(n@),
                None => None,
            },
        ),
{
    match file_name {
        Some(name) => {
            let n = name.unicode_len();
            proof {
                lemma_last_dot(name@);
            }
            if n < 5 {
                proof {
                    if extension_of(name@) is Some {
                        let ext = extension_of(name@)->0;
                        assert(ext.len() == name@.len() - last_dot(name@) - 1);
                    }
                }
                return false;
            }
            let dot = name.get_char(n - 4);
            let c0 = name.get_char(n - 3);
            let c1 = name.get_char(n - 2);
            let c2 = name.get_char(n - 1);
            let r = dot == '.' && (c0 == 't' || c0 == 'T') && (c1 == 'l' || c1 == 'L') && (c2 == 'a'
                || c2 == 'A');
            proof {
                if r {
                    lemma_last_dot_before_three(name@);
                    let ext = name@.subrange(n - 3, n as int);
                    assert(ext[0] == c0 && ext[1] == c1 && ext[2] == c2);
                } else {
                    if extension_of(name@) is Some {
                        let ext = extension_of(name@)->0;
                        if is_tla_extension(ext) {
                            assert(last_dot(name@) == n - 4);
                            assert(ext[0] == name@[n - 3]);
                            assert(ext[1] == name@[n - 2]);
                            assert(ext[2] == name@[n - 1]);
                        }
                    }
                }
            }
            r
        },
        None => false,
    }
}

/// Whether a file name is hidden: it begins with a dot.
pub fn is_hidden(file_name: Option<&str>) -> (r: bool)
    ensures
        r == is_hidden_name(
            match file_name {
                Some(n) => Some(n@),
                None => None,
            },
        ),
{
    match file_name {
        Some(name) => name.unicode_len() > 0 && name.get_char(0) == '.',
        None => false,
    }
}

/// A path met on the way, as the file system shows it: the path, its file
/// name where it has one, and whether it is a symbolic link.
#[derive(Debug)]
pub struct PathEntry {
    pub path: String,
    pub file_name: Option<String>,
    pub is_symlink: bool,
}

/// The mathematical value of a [`PathEntry`].
pub struct PathEntryView {
    pub path: Seq<char>,
    pub file_name: Option<Seq<char>>,
    pub is_symlink: bool,
}

impl View for PathEntry {
    type V = PathEntryView;

    open spec fn view(&self) -> PathEntryView {
        PathEntryView {
            path: self.path@,
            file_name: match self.file_name {
                Some(n) => Some(n@),
                None => None,
            },
            is_symlink: self.is_symlink,
        }
    }
}

/// The values of a sequence of entries, in order.
pub open spec fn entries_view(entries: Seq<PathEntry>) -> Seq<PathEntryView> {
    entries.map_values(|e: PathEntry| e@)
}

/// The values of a sequence of paths, in order.
pub open spec fn paths_view(paths: Seq<String>) -> Seq<Seq<char>> {
    paths.map_values(|p: String| p@)
}

/// Whether a walk goes on with an entry and below it: the entry is neither
/// hidden nor a symbolic link.
pub open spec fn is_walked(entry: PathEntryView) -> bool {
    !is_hidden_name(entry.file_name) && !entry.is_symlink
}

/// Whether an entry is linted: its name is that of a TLA+ source, and it
/// is neither hidden nor a symbolic link.
pub open spec fn is_eligible(entry: PathEntryView) -> bool {
    is_tla_name(entry.file_name) && is_walked(entry)
}

impl PathEntry {
    /// The file name, where there is one.
    pub fn name(&self) -> (name: Option<&str>)
        ensures
            match name {
                Some(n) => self@.file_name == Some(n@),
                None => self@.file_name is None,
            },
    {
        match &self.file_name {
            Some(n) => Some(n.as_str()),
            None => None,
        }
    }
}

/// Whether an entry met on a walk is hidden.
pub fn is_hidden_entry(entry: &PathEntry) -> (r: bool)
    ensures
        r == is_hidden_name(entry@.file_name),
{
    is_hidden(entry.name())
}

/// Whether a walk goes on with an entry and below it.
pub fn keeps_walking(entry: &PathEntry) -> (r: bool)
    ensures
        r == is_walked(entry@),
{
    !is_hidden_entry(entry) && !entry.is_symlink
}

/// Whether a walk goes on with the entry met at `depth` below the
/// directory that was named, and below it. The directory that was named,
/// at depth 0, is walked whatever its name; below it a walk passes over
/// what is hidden or a symbolic link.
pub fn descends(entry: &PathEntry, depth: usize) -> (r: bool)
    ensures
        r == (depth == 0 || is_walked(entry@)),
{
    depth == 0 || keeps_walking(entry)
}

/// Whether an entry is linted.
pub fn selects(entry: &PathEntry) -> (r: bool)
    ensures
        r == is_eligible(entry@),
{
    is_tla_file(entry.name()) && !is_hidden(entry.name()) && !entry.is_symlink
}

/// Whether a sequence of paths is in the order of their names: no path
/// comes after one whose list of names comes before its own.
pub open spec fn is_ordered_by_names(paths: Seq<Seq<char>>) -> bool {
    forall|i: int, j: int| 0 <= i < j < paths.len() ==> names_order(paths[i], paths[j])
}

/// Whether a sequence of paths is in order: by their names, and two
/// spellings of one list of names by their bytes.
pub open spec fn is_ordered(paths: Seq<Seq<char>>) -> bool {
    forall|i: int, j: int| 0 <= i < j < paths.len() ==> path_le(paths[i], paths[j])
}

/// The paths of the entries that are linted, in the order of the entries.
pub open spec fn eligible_paths(entries: Seq<PathEntryView>) -> Seq<Seq<char>>
    decreases entries.len(),
{
    if entries.len() == 0 {
        seq![]
    } else {
        let before = eligible_paths(entries.drop_last());
        if is_eligible(entries.last()) {
            before.push(entries.last().path)
        } else {
            before
        }
    }
}

/// Puts a path in its place in an ordered list that holds no path twice,
/// unless the list holds it already.
pub fn insert_ordered(files: &mut Vec<String>, path: String)
    requires
        is_ordered(paths_view(old(files)@)),
        paths_view(old(files)@).no_duplicates(),
    ensures
        is_ordered(paths_view(final(files)@)),
        paths_view(final(files)@).no_duplicates(),
        paths_view(final(files)@).to_set() == paths_view(old(files)@).to_set().insert(path@),
{
    let ghost before = paths_view(files@);
    let ghost added = path@;
    let mut k: usize = 0;
    let mut placed = false;
    while k < files.len() && !placed
        invariant
            k <= files@.len(),
            before == paths_view(files@),
            before == paths_view(old(files)@),
            added == path@,
            forall|j: int| 0 <= j < k ==> path_le(#[trigger] before[j], added),
            placed ==> k < files@.len() && !path_le(before[k as int], added),
        decreases files@.len() - k + if placed { 0int } else { 1int },
    {
        if path_precedes(files[k].as_str(), path.as_str()) {
            k += 1;
        } else {
            placed = true;
        }
    }
    if k > 0 && path_precedes(path.as_str(), files[k - 1].as_str()) {
        proof {
            lemma_path_le_antisymmetric(added, before[k - 1]);
            assert(before.contains(added));
            assert(before.to_set() =~= before.to_set().insert(added));
        }
        return ;
    }
    files.insert(k, path);
    proof {
        let after = paths_view(files@);
        assert(after =~= before.insert(k as int, added));
        lemma_path_le_total(added, added);
        assert forall|j: int| 0 <= j < before.len() implies before[j] != added by {
            if before[j] == added {
                if j < k {
                    if j < k - 1 {
                        assert(path_le(before[j], before[k - 1]));
                    }
                } else {
                    if j > k {
                        assert(path_le(before[k as int], before[j]));
                    }
                }
            }
        }
        assert forall|i: int, j: int| 0 <= i < j < after.len() implies path_le(
            after[i],
            after[j],
        ) by {
            if j < k {
                assert(after[i] == before[i] && after[j] == before[j]);
            } else if j == k {
                assert(after[i] == before[i]);
            } else if i < k {
                assert(after[i] == before[i] && after[j] == before[j - 1]);
            } else if i == k {
                assert(after[j] == before[j - 1]);
                lemma_path_le_total(before[k as int], added);
                if j - 1 > k {
                    assert(path_le(before[k as int], before[j - 1]));
                    lemma_path_le_transitive(added, before[k as int], before[j - 1]);
                }
            } else {
                assert(after[i] == before[i - 1] && after[j] == before[j - 1]);
            }
        }
        assert forall|i: int, j: int|
            0 <= i < after.len() && 0 <= j < after.len() && i != j implies after[i] != after[j] by {
            let from = |t: int| if t < k { t } else { t - 1 };
            if i != k && j != k {
                assert(after[i] == before[from(i)] && after[j] == before[from(j)]);
            } else if i == k {
                assert(after[j] == before[from(j)]);
            } else {
                assert(after[i] == before[from(i)]);
            }
        }
        assert forall|p: Seq<char>| after.to_set().contains(p) <==> before.to_set().insert(
            added,
        ).contains(p) by {
            if after.contains(p) {
                let t = choose|t: int| 0 <= t < after.len() && after[t] == p;
                if t < k {
                    assert(before[t] == p);
                } else if t > k {
                    assert(before[t - 1] == p);
                }
            }
            if before.contains(p) {
                let t = choose|t: int| 0 <= t < before.len() && before[t] == p;
                if t < k {
                    assert(after[t] == p);
                } else {
                    assert(after[t + 1] == p);
                }
            }
            if p == added {
                assert(after[k as int] == p);
            }
        }
        assert(after.to_set() =~= before.to_set().insert(added));
    }
}

/// Selects the files to lint from the entries met, and puts them in order.
/// What comes out are the paths of the entries that are TLA+ sources,
/// neither hidden nor symbolic links, each once however often it was met.
pub fn collect_tla_files(entries: &Vec<PathEntry>) -> (files: Vec<String>)
    ensures
        is_ordered(paths_view(files@)),
        is_ordered_by_names(paths_view(files@)),
        paths_view(files@).no_duplicates(),
        paths_view(files@).to_set() == eligible_paths(entries_view(entries@)).to_set(),
{
    let ghost met = entries_view(entries@);
    let mut files: Vec<String> = Vec::new();
    let mut i: usize = 0;
    assert(paths_view(files@) =~= eligible_paths(met.take(0)));
    while i < entries.len()
        invariant
            met == entries_view(entries@),
            i <= entries@.len(),
            is_ordered(paths_view(files@)),
            paths_view(files@).no_duplicates(),
            paths_view(files@).to_set() == eligible_paths(met.take(i as int)).to_set(),
        decreases entries@.len() - i,
    {
        let entry = &entries[i];
        assert(met.take(i + 1).drop_last() =~= met.take(i as int));
        assert(met[i as int] == entry@);
        if selects(entry) {
            proof {
                eligible_paths(met.take(i as int)).lemma_push_to_set_commute(entry@.path);
            }
            insert_ordered(&mut files, entry.path.clone());
        }
        i += 1;
    }
    assert(met.take(i as int) =~= met);
    proof {
        lemma_ordered_by_names(paths_view(files@));
    }
    files
}

/// Paths in order are in the order of their names.
pub proof fn lemma_ordered_by_names(paths: Seq<Seq<char>>)
    requires
        is_ordered(paths),
    ensures
        is_ordered_by_names(paths),
{
    assert forall|i: int, j: int| 0 <= i < j < paths.len() implies names_order(
        paths[i],
        paths[j],
    ) by {
        assert(path_le(paths[i], paths[j]));
        lemma_path_le_follows_names(paths[i], paths[j]);
    }
}

/// What is selected, and in what order, is settled by the entries met: two
/// ordered lists without a repeated path that hold the same paths are one
/// list.
pub proof fn lemma_selection_is_settled(first: Seq<Seq<char>>, second: Seq<Seq<char>>)
    requires
        is_ordered(first),
        is_ordered(second),
        first.no_duplicates(),
        second.no_duplicates(),
        first.to_set() == second.to_set(),
    ensures
        first == second,
{
    let leq = |a: Seq<char>, b: Seq<char>| path_le(a, b);
    lemma_path_le_is_total_order();
    assert(vstd::relations::sorted_by(first, leq)) by {
        assert forall|i: int, j: int| 0 <= i < j < first.len() implies #[trigger] leq(
            first[i],
            first[j],
        ) by {
            assert(path_le(first[i], first[j]));
        }
    }
    assert(vstd::relations::sorted_by(second, leq)) by {
        assert forall|i: int, j: int| 0 <= i < j < second.len() implies #[trigger] leq(
            second[i],
            second[j],
        ) by {
            assert(path_le(second[i], second[j]));
        }
    }
    assert(first.to_multiset() =~= second.to_multiset()) by {
        first.lemma_multiset_has_no_duplicates();
        second.lemma_multiset_has_no_duplicates();
        assert forall|p: Seq<char>| first.to_multiset().count(p) == second.to_multiset().count(
            p,
        ) by {
            vstd::seq_lib::to_multiset_contains(first, p);
            vstd::seq_lib::to_multiset_contains(second, p);
            assert(first.to_set().contains(p) == first.contains(p));
            assert(second.to_set().contains(p) == second.contains(p));
            assert(first.to_multiset().contains(p) == (first.to_multiset().count(p) > 0));
            assert(second.to_multiset().contains(p) == (second.to_multiset().count(p) > 0));
        }
    }
    vstd::seq_lib::lemma_sorted_unique(first, second, leq);
}

} // verus!
