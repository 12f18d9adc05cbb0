//! Grouping of surviving candidates by parent directory and the final
//! three-way decision.

use vstd::prelude::*;

use crate::classify::filter_entries;
use crate::classify::is_descriptor;
use crate::classify::is_workspace_path;
use crate::classify::is_xcworkspace;
use crate::classify::lemma_no_descriptors_empty;
use crate::classify::lemma_single_survivor;
use crate::classify::survives;
use crate::classify::surviving;
use crate::paths::parent_of;
use crate::paths::parent_string;
use crate::paths::str_eq;

verus! {

/// The distinct parent directories of `entries`, in first-occurrence order.
pub open spec fn group_keys(entries: Seq<Seq<char>>) -> Seq<Seq<char>>
    decreases entries.len(),
{
    if entries.len() == 0 {
        Seq::empty()
    } else {
        let rest = group_keys(entries.drop_last());
        if rest.contains(parent_of(entries.last())) {
            rest
        } else {
            rest.push(parent_of(entries.last()))
        }
    }
}

/// The entries whose parent directory is `k`, in input order.
pub open spec fn entries_under(entries: Seq<Seq<char>>, k: Seq<char>) -> Seq<Seq<char>>
    decreases entries.len(),
{
    if entries.len() == 0 {
        Seq::empty()
    } else {
        let rest = entries_under(entries.drop_last(), k);
        if parent_of(entries.last()) == k {
            rest.push(entries.last())
        } else {
            rest
        }
    }
}

/// The grouping of `entries` by parent directory: one pair per distinct
/// parent, in first-occurrence order, each holding the entries immediately
/// inside it in input order.
pub open spec fn grouping_of(entries: Seq<Seq<char>>) -> Seq<(Seq<char>, Seq<Seq<char>>)> {
    group_keys(entries).map_values(|k: Seq<char>| (k, entries_under(entries, k)))
}

/// Appending one entry adds its parent to the keys exactly when the parent is
/// new.
pub proof fn lemma_group_keys_push(prefix: Seq<Seq<char>>, x: Seq<char>)
    ensures
        group_keys(prefix.push(x)) == if group_keys(prefix).contains(parent_of(x)) {
            group_keys(prefix)
        } else {
            group_keys(prefix).push(parent_of(x))
        },
{
    assert(prefix.push(x).drop_last() =~= prefix);
}

/// Appending one entry appends it to its parent's member list and no other.
pub proof fn lemma_entries_under_push(prefix: Seq<Seq<char>>, x: Seq<char>, k: Seq<char>)
    ensures
        entries_under(prefix.push(x), k) == if parent_of(x) == k {
            entries_under(prefix, k).push(x)
        } else {
            entries_under(prefix, k)
        },
{
    assert(prefix.push(x).drop_last() =~= prefix);
}

/// The keys of a grouping are pairwise distinct.
pub proof fn lemma_group_keys_distinct(entries: Seq<Seq<char>>)
    ensures
        forall|a: int, b: int|
            0 <= a < b < group_keys(entries).len() ==> #[trigger] group_keys(entries)[a]
                != #[trigger] group_keys(entries)[b],
    decreases entries.len(),
{
    if entries.len() > 0 {
        let prefix = entries.drop_last();
        let rest = group_keys(prefix);
        lemma_group_keys_distinct(prefix);
        if !rest.contains(parent_of(entries.last())) {
            assert forall|a: int, b: int|
                0 <= a < b < group_keys(entries).len() implies #[trigger] group_keys(entries)[a]
                != #[trigger] group_keys(entries)[b] by {
                if b < rest.len() {
                    assert(group_keys(entries)[a] == rest[a]);
                    assert(group_keys(entries)[b] == rest[b]);
                } else {
                    assert(group_keys(entries)[a] == rest[a]);
                    assert(rest.contains(rest[a]));
                }
            }
        }
    }
}

/// Every key of a grouping is the parent of some entry, and every entry's
/// parent is a key.
pub proof fn lemma_group_keys_members(entries: Seq<Seq<char>>)
    ensures
        forall|i: int|
            0 <= i < entries.len() ==> group_keys(entries).contains(
                parent_of(#[trigger] entries[i]),
            ),
        forall|g: int|
            0 <= g < group_keys(entries).len() ==> exists|i: int|
                0 <= i < entries.len() && #[trigger] group_keys(entries)[g] == parent_of(
                    entries[i],
                ),
    decreases entries.len(),
{
    let keys = group_keys(entries);
    if entries.len() > 0 {
        let prefix = entries.drop_last();
        let rest = group_keys(prefix);
        lemma_group_keys_members(prefix);
        assert forall|i: int| 0 <= i < entries.len() implies keys.contains(
            parent_of(#[trigger] entries[i]),
        ) by {
            if i < entries.len() - 1 {
                assert(prefix[i] == entries[i]);
                assert(rest.contains(parent_of(entries[i])));
                let j = choose|j: int| 0 <= j < rest.len() && rest[j] == parent_of(entries[i]);
                assert(keys[j] == parent_of(entries[i]));
            } else {
                assert(entries[i] == entries.last());
                if rest.contains(parent_of(entries.last())) {
                    let j = choose|j: int|
                        0 <= j < rest.len() && rest[j] == parent_of(entries.last());
                    assert(keys[j] == parent_of(entries.last()));
                } else {
                    assert(keys[keys.len() - 1] == parent_of(entries.last()));
                }
            }
        }
        assert forall|g: int| 0 <= g < keys.len() implies exists|i: int|
            0 <= i < entries.len() && #[trigger] keys[g] == parent_of(entries[i]) by {
            if g < rest.len() {
                assert(keys[g] == rest[g]);
                let i = choose|i: int| 0 <= i < prefix.len() && rest[g] == parent_of(prefix[i]);
                assert(entries[i] == prefix[i]);
                assert(keys[g] == parent_of(entries[i]));
            } else {
                assert(keys[g] == parent_of(entries.last()));
                assert(entries[entries.len() - 1] == entries.last());
                assert(keys[g] == parent_of(entries[entries.len() - 1]));
            }
        }
    }
}

/// The members of each group are exactly the entries whose parent is its key:
/// they lie immediately inside it, they come from the input, and every input
/// entry appears in the group keyed by its parent.
pub proof fn lemma_entries_under_members(entries: Seq<Seq<char>>, k: Seq<char>)
    ensures
        forall|i: int|
            0 <= i < entries_under(entries, k).len() ==> parent_of(
                #[trigger] entries_under(entries, k)[i],
            ) == k && entries.contains(entries_under(entries, k)[i]),
        forall|i: int|
            0 <= i < entries.len() && parent_of(#[trigger] entries[i]) == k ==> entries_under(
                entries,
                k,
            ).contains(entries[i]),
    decreases entries.len(),
{
    let s = entries_under(entries, k);
    if entries.len() > 0 {
        let prefix = entries.drop_last();
        let sp = entries_under(prefix, k);
        lemma_entries_under_members(prefix, k);
        assert forall|i: int| 0 <= i < s.len() implies parent_of(#[trigger] s[i]) == k
            && entries.contains(s[i]) by {
            if i < sp.len() {
                assert(s[i] == sp[i]);
                assert(prefix.contains(sp[i]));
                let j = choose|j: int| 0 <= j < prefix.len() && prefix[j] == sp[i];
                assert(entries[j] == sp[i]);
            } else {
                assert(s[i] == entries.last());
                assert(entries[entries.len() - 1] == entries.last());
            }
        }
        assert forall|i: int|
            0 <= i < entries.len() && parent_of(#[trigger] entries[i]) == k implies s.contains(
            entries[i],
        ) by {
            if i < entries.len() - 1 {
                assert(prefix[i] == entries[i]);
                assert(sp.contains(entries[i]));
                let j = choose|j: int| 0 <= j < sp.len() && sp[j] == entries[i];
                assert(s[j] == entries[i]);
            } else {
                assert(entries[i] == entries.last());
                assert(s[s.len() - 1] == entries[i]);
            }
        }
    }
}

/// When every entry lies in the same parent directory, that parent is the
/// only key.
proof fn lemma_same_parent_keys(s: Seq<Seq<char>>, k: Seq<char>)
    requires
        s.len() > 0,
        forall|i: int| 0 <= i < s.len() ==> parent_of(#[trigger] s[i]) == k,
    ensures
        group_keys(s) =~= seq![k],
    decreases s.len(),
{
    assert(s[s.len() - 1] == s.last());
    if s.len() == 1 {
        let empty = Seq::<Seq<char>>::empty();
        assert(s.drop_last() =~= empty);
        assert(group_keys(empty) =~= empty);
        assert(!empty.contains(parent_of(s.last())));
        assert(group_keys(s) =~= empty.push(k));
        assert(empty.push(k) =~= seq![k]);
    } else {
        let prefix = s.drop_last();
        assert forall|i: int| 0 <= i < prefix.len() implies parent_of(#[trigger] prefix[i])
            == k by {
            assert(prefix[i] == s[i]);
        }
        lemma_same_parent_keys(prefix, k);
        assert(group_keys(prefix)[0] == k);
        assert(group_keys(prefix).contains(k));
    }
}

/// When every entry lies in the same parent directory, its member list is the
/// whole input.
proof fn lemma_entries_under_all(s: Seq<Seq<char>>, k: Seq<char>)
    requires
        forall|i: int| 0 <= i < s.len() ==> parent_of(#[trigger] s[i]) == k,
    ensures
        entries_under(s, k) =~= s,
    decreases s.len(),
{
    if s.len() > 0 {
        let prefix = s.drop_last();
        assert(s[s.len() - 1] == s.last());
        assert forall|i: int| 0 <= i < prefix.len() implies parent_of(#[trigger] prefix[i])
            == k by {
            assert(prefix[i] == s[i]);
        }
        lemma_entries_under_all(prefix, k);
    }
}

/// The status of a directory.
#[derive(Debug, PartialEq, Eq, Clone)]
pub enum DirStatus {
    /// The directory contains one project to open.
    Project(String),
    /// The directory contains multiple projects, grouped by parent directory.
    Groups(Vec<(String, Vec<String>)>),
    /// The directory doesn't have any projects.
    NoEntries,
}

/// The mathematical value of a [`DirStatus`].
pub enum StatusView {
    Project(Seq<char>),
    Groups(Seq<(Seq<char>, Seq<Seq<char>>)>),
    NoEntries,
}

impl View for DirStatus {
    type V = StatusView;

    open spec fn view(&self) -> StatusView {
        match self {
            DirStatus::Project(p) => StatusView::Project(p@),
            DirStatus::Groups(g) => StatusView::Groups(g.deep_view()),
            DirStatus::NoEntries => StatusView::NoEntries,
        }
    }
}

/// The decision for a set of surviving candidates: nothing, exactly one
/// survivor, a lone sibling pair of which exactly one is a workspace (the
/// workspace wins), or the full grouping as an ambiguous result.
pub open spec fn decision_of(survivors: Seq<Seq<char>>) -> StatusView {
    if survivors.len() == 0 {
        StatusView::NoEntries
    } else if survivors.len() == 1 {
        StatusView::Project(survivors[0])
    } else {
        let groups = grouping_of(survivors);
        if groups.len() == 1 && groups[0].1.len() == 2 {
            let a = groups[0].1[0];
            let b = groups[0].1[1];
            if is_workspace_path(a) && !is_workspace_path(b) {
                StatusView::Project(a)
            } else if !is_workspace_path(a) && is_workspace_path(b) {
                StatusView::Project(b)
            } else {
                StatusView::Groups(groups)
            }
        } else {
            StatusView::Groups(groups)
        }
    }
}

/// The full resolution: filter the raw entries, then decide.
pub open spec fn status_of(
    root: Seq<char>,
    dirs: Seq<Seq<char>>,
    entries: Seq<Seq<char>>,
) -> StatusView {
    decision_of(surviving(root, dirs, entries))
}

/// Groups `entries` by parent directory: one pair per distinct parent, in
/// first-occurrence order, each holding the entries immediately inside it in
/// input order.
pub fn grouped(entries: Vec<String>) -> (r: Vec<(String, Vec<String>)>)
    ensures
        r.deep_view() == grouping_of(entries.deep_view()),
{
    let ghost all = entries.deep_view();
    let mut keys: Vec<String> = Vec::new();
    let mut i: usize = 0;
    while i < entries.len()
        invariant
            i <= entries@.len(),
            all == entries.deep_view(),
            keys.deep_view() == group_keys(all.subrange(0, i as int)),
        decreases entries@.len() - i,
    {
        let p = parent_string(entries[i].as_str());
        assert(p@ == parent_of(all[i as int]));
        let mut found = false;
        let mut j: usize = 0;
        while j < keys.len()
            invariant
                j <= keys@.len(),
                p@ == parent_of(all[i as int]),
                found == exists|t: int|
                    0 <= t < j && #[trigger] keys.deep_view()[t] == p@,
            decreases keys@.len() - j,
        {
            if str_eq(keys[j].as_str(), p.as_str()) {
                assert(keys.deep_view()[j as int] == p@);
                found = true;
            }
            j = j + 1;
        }
        proof {
            lemma_group_keys_push(all.subrange(0, i as int), all[i as int]);
            assert(all.subrange(0, i as int).push(all[i as int]) =~= all.subrange(
                0,
                i + 1 as int,
            ));
            if found {
                assert(keys.deep_view().contains(p@));
            } else {
                if keys.deep_view().contains(p@) {
                    let t = choose|t: int|
                        0 <= t < keys.deep_view().len() && keys.deep_view()[t] == p@;
                    assert(false);
                }
            }
        }
        if !found {
            let ghost old_keys = keys.deep_view();
            keys.push(p);
            proof {
                assert(keys.deep_view() =~= old_keys.push(parent_of(all[i as int])));
            }
        }
        i = i + 1;
    }
    proof {
        assert(all.subrange(0, all.len() as int) =~= all);
    }
    let mut r: Vec<(String, Vec<String>)> = Vec::new();
    let mut g: usize = 0;
    while g < keys.len()
        invariant
            g <= keys@.len(),
            all == entries.deep_view(),
            keys.deep_view() == group_keys(all),
            r.deep_view().len() == g,
            forall|t: int|
                0 <= t < g ==> #[trigger] r.deep_view()[t] == (
                keys.deep_view()[t],
                entries_under(all, keys.deep_view()[t]),
            ),
        decreases keys@.len() - g,
    {
        let key = keys[g].clone();
        assert(key@ == keys.deep_view()[g as int]);
        let mut members: Vec<String> = Vec::new();
        let mut i2: usize = 0;
        while i2 < entries.len()
            invariant
                i2 <= entries@.len(),
                all == entries.deep_view(),
                key@ == keys.deep_view()[g as int],
                g < keys@.len(),
                members.deep_view() == entries_under(all.subrange(0, i2 as int), key@),
            decreases entries@.len() - i2,
        {
            let p = parent_string(entries[i2].as_str());
            proof {
                lemma_entries_under_push(all.subrange(0, i2 as int), all[i2 as int], key@);
                assert(all.subrange(0, i2 as int).push(all[i2 as int]) =~= all.subrange(
                    0,
                    i2 + 1 as int,
                ));
            }
            if str_eq(p.as_str(), key.as_str()) {
                let ghost old_members = members.deep_view();
                members.push(entries[i2].clone());
                proof {
                    assert(members.deep_view() =~= old_members.push(all[i2 as int]));
                }
            }
            i2 = i2 + 1;
        }
        proof {
            assert(all.subrange(0, all.len() as int) =~= all);
        }
        let ghost old_r = r.deep_view();
        r.push((key, members));
        proof {
            assert(r.deep_view() =~= old_r.push(
                (keys.deep_view()[g as int], entries_under(all, keys.deep_view()[g as int])),
            ));
        }
        g = g + 1;
    }
    proof {
        assert(r.deep_view() =~= grouping_of(all));
    }
    r
}

/// Resolves the status of the directory `root` from the filesystem entries
/// reachable under it: nothing found, exactly one project to open, or an
/// ambiguous grouping that needs a user choice.
pub fn dir_status(root: &str, entries: &Vec<String>, special_dirs: &Vec<String>) -> (r: DirStatus)
    ensures
        r@ == status_of(root@, special_dirs.deep_view(), entries.deep_view()),
{
    let ghost survivors = surviving(root@, special_dirs.deep_view(), entries.deep_view());
    let mut filtered = filter_entries(root, entries, special_dirs);
    assert(filtered.deep_view() == survivors);
    if filtered.len() == 0 {
        DirStatus::NoEntries
    } else if filtered.len() == 1 {
        let only = filtered.pop().unwrap();
        assert(only@ == survivors[0]);
        DirStatus::Project(only)
    } else {
        let groups = grouped(filtered);
        let ghost gv = grouping_of(survivors);
        assert(groups.deep_view() == gv);
        let mut single: Option<DirStatus> = None;
        if groups.len() == 1 {
            assert(groups.deep_view()[0] == (groups@[0].0@, groups@[0].1.deep_view()));
            let first = &groups[0];
            if first.1.len() == 2 {
                let a_is_ws = is_xcworkspace(first.1[0].as_str());
                let b_is_ws = is_xcworkspace(first.1[1].as_str());
                assert(first.1[0]@ == gv[0].1[0]);
                assert(first.1[1]@ == gv[0].1[1]);
                if a_is_ws && !b_is_ws {
                    single = Some(DirStatus::Project(first.1[0].clone()));
                } else if !a_is_ws && b_is_ws {
                    single = Some(DirStatus::Project(first.1[1].clone()));
                }
            }
        }
        match single {
            Some(status) => status,
            None => DirStatus::Groups(groups),
        }
    }
}

/// A set of raw entries holding no recognized descriptor resolves to
/// `NoEntries`.
pub proof fn lemma_status_no_descriptors(
    root: Seq<char>,
    dirs: Seq<Seq<char>>,
    entries: Seq<Seq<char>>,
)
    requires
        forall|i: int| 0 <= i < entries.len() ==> !is_descriptor(#[trigger] entries[i]),
    ensures
        status_of(root, dirs, entries) == StatusView::NoEntries,
{
    lemma_no_descriptors_empty(root, dirs, entries);
}

/// With exactly one entry surviving filtering, the decision opens exactly
/// that entry, wherever it stands in the input order.
pub proof fn lemma_status_single_survivor(
    root: Seq<char>,
    dirs: Seq<Seq<char>>,
    entries: Seq<Seq<char>>,
    k: int,
)
    requires
        0 <= k < entries.len(),
        survives(root, dirs, entries[k]),
        forall|i: int|
            0 <= i < entries.len() && i != k ==> !survives(root, dirs, #[trigger] entries[i]),
    ensures
        status_of(root, dirs, entries) == StatusView::Project(entries[k]),
{
    lemma_single_survivor(root, dirs, entries, k);
}

/// Exactly two candidates survive, siblings in the same parent directory, and
/// exactly one of the two is a workspace: the workspace is opened, whichever
/// of the two was discovered first.
pub proof fn lemma_status_workspace_supersedes(
    root: Seq<char>,
    dirs: Seq<Seq<char>>,
    entries: Seq<Seq<char>>,
)
    requires
        surviving(root, dirs, entries).len() == 2,
        parent_of(surviving(root, dirs, entries)[0]) == parent_of(
            surviving(root, dirs, entries)[1],
        ),
        is_workspace_path(surviving(root, dirs, entries)[0]) != is_workspace_path(
            surviving(root, dirs, entries)[1],
        ),
    ensures
        status_of(root, dirs, entries) == StatusView::Project(
            if is_workspace_path(surviving(root, dirs, entries)[0]) {
                surviving(root, dirs, entries)[0]
            } else {
                surviving(root, dirs, entries)[1]
            },
        ),
{
    let s = surviving(root, dirs, entries);
    let k = parent_of(s[0]);
    assert forall|i: int| 0 <= i < s.len() implies parent_of(#[trigger] s[i]) == k by {
        assert(i == 0 || i == 1);
    }
    lemma_same_parent_keys(s, k);
    lemma_entries_under_all(s, k);
    let groups = grouping_of(s);
    assert(groups.len() == 1);
    assert(groups[0] == (k, entries_under(s, k)));
    assert(groups[0].1 == s);
}

/// Two or more candidates that are not a lone same-directory pair of exactly
/// one workspace beside one non-workspace resolve to the ambiguous grouping,
/// whose keys are pairwise distinct, whose members lie immediately inside
/// their group's key, and in which every candidate appears in the group keyed
/// by its exact parent path.
pub proof fn lemma_status_ambiguous(root: Seq<char>, dirs: Seq<Seq<char>>, entries: Seq<Seq<char>>)
    requires
        surviving(root, dirs, entries).len() >= 2,
        (exists|i: int, j: int|
            0 <= i < j < surviving(root, dirs, entries).len() && parent_of(
                #[trigger] surviving(root, dirs, entries)[i],
            ) != parent_of(#[trigger] surviving(root, dirs, entries)[j])) || surviving(
            root,
            dirs,
            entries,
        ).len() != 2 || is_workspace_path(surviving(root, dirs, entries)[0]) == is_workspace_path(
            surviving(root, dirs, entries)[1],
        ),
    ensures
        status_of(root, dirs, entries) == StatusView::Groups(
            grouping_of(surviving(root, dirs, entries)),
        ),
        forall|a: int, b: int|
            0 <= a < b < group_keys(surviving(root, dirs, entries)).len()
                ==> #[trigger] group_keys(surviving(root, dirs, entries))[a]
                != #[trigger] group_keys(surviving(root, dirs, entries))[b],
        forall|g: int|
            0 <= g < group_keys(surviving(root, dirs, entries)).len()
                ==> #[trigger] grouping_of(surviving(root, dirs, entries))[g] == (
                group_keys(surviving(root, dirs, entries))[g],
                entries_under(
                    surviving(root, dirs, entries),
                    group_keys(surviving(root, dirs, entries))[g],
                ),
            ),
        forall|i: int|
            0 <= i < surviving(root, dirs, entries).len() ==> group_keys(
                surviving(root, dirs, entries),
            ).contains(parent_of(#[trigger] surviving(root, dirs, entries)[i])),
        forall|i: int|
            0 <= i < surviving(root, dirs, entries).len() ==> entries_under(
                surviving(root, dirs, entries),
                parent_of(#[trigger] surviving(root, dirs, entries)[i]),
            ).contains(surviving(root, dirs, entries)[i]),
        forall|k: Seq<char>, m: int|
            0 <= m < entries_under(surviving(root, dirs, entries), k).len() ==> parent_of(
                #[trigger] entries_under(surviving(root, dirs, entries), k)[m],
            ) == k && surviving(root, dirs, entries).contains(
                entries_under(surviving(root, dirs, entries), k)[m],
            ),
{
    let s = surviving(root, dirs, entries);
    let groups = grouping_of(s);
    lemma_group_keys_distinct(s);
    lemma_group_keys_members(s);
    assert forall|i: int| 0 <= i < s.len() implies entries_under(
        s,
        parent_of(#[trigger] s[i]),
    ).contains(s[i]) by {
        lemma_entries_under_members(s, parent_of(s[i]));
    }
    assert forall|k: Seq<char>, m: int|
        0 <= m < entries_under(s, k).len() implies parent_of(#[trigger] entries_under(s, k)[m])
        == k && s.contains(entries_under(s, k)[m]) by {
        lemma_entries_under_members(s, k);
    }
    if exists|i: int, j: int|
        0 <= i < j < s.len() && parent_of(#[trigger] s[i]) != parent_of(#[trigger] s[j]) {
        let (i, j) = choose|i: int, j: int|
            0 <= i < j < s.len() && parent_of(#[trigger] s[i]) != parent_of(#[trigger] s[j]);
        let keys = group_keys(s);
        assert(keys.contains(parent_of(s[i])));
        assert(keys.contains(parent_of(s[j])));
        let gi = choose|g: int| 0 <= g < keys.len() && keys[g] == parent_of(s[i]);
        let gj = choose|g: int| 0 <= g < keys.len() && keys[g] == parent_of(s[j]);
        assert(gi != gj);
        assert(groups.len() >= 2);
    } else {
        let k = parent_of(s[0]);
        assert forall|i: int| 0 <= i < s.len() implies parent_of(#[trigger] s[i]) == k by {
            if i != 0 {
                assert(!(0 <= 0 < i < s.len() && parent_of(s[0]) != parent_of(s[i])));
            }
        }
        lemma_same_parent_keys(s, k);
        lemma_entries_under_all(s, k);
        assert(groups.len() == 1);
        assert(groups[0] == (k, entries_under(s, k)));
        assert(groups[0].1 == s);
    }
}

} // verus!
