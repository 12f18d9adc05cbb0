//! Recognition of descriptor paths and the filtering rules: nested-workspace
//! suppression and special-directory exclusion.

use vstd::prelude::*;

use crate::paths::extension_matches;
use crate::paths::file_name_of;
use crate::paths::has_ancestor_segment;
use crate::paths::has_extension;
use crate::paths::file_name_is;
use crate::paths::has_parent;
use crate::paths::parent_of;
use crate::paths::parent_string;

verus! {

/// The path is a project descriptor: its final segment has the project
/// extension.
pub open spec fn is_project_path(s: Seq<char>) -> bool {
    extension_matches(s, "xcodeproj"@)
}

/// The path is a workspace descriptor: its final segment has the workspace
/// extension.
pub open spec fn is_workspace_path(s: Seq<char>) -> bool {
    extension_matches(s, "xcworkspace"@)
}

/// The path is a package manifest: its final segment is the fixed manifest
/// file name.
pub open spec fn is_package_path(s: Seq<char>) -> bool {
    file_name_of(s) == "Package.swift"@
}

/// The path is recognized as one of the three descriptor kinds.
pub open spec fn is_descriptor(s: Seq<char>) -> bool {
    is_project_path(s) || is_workspace_path(s) || is_package_path(s)
}

/// A workspace descriptor lying immediately inside a project descriptor
/// directory; such entries are auto-generated and redundant.
pub open spec fn is_nested_workspace(s: Seq<char>) -> bool {
    is_workspace_path(s) && is_project_path(parent_of(s))
}

/// Some name in `dirs` occurs as a segment of `s`'s ancestry (including its
/// own final segment).
pub open spec fn under_special(s: Seq<char>, dirs: Seq<Seq<char>>) -> bool {
    exists|i: int| 0 <= i < dirs.len() && has_ancestor_segment(s, dirs[i])
}

/// An entry survives classification and filtering: it is a recognized
/// descriptor, not a workspace nested in a project directory, and it is not
/// hidden by the special-directory rule. Special-directory exclusion is
/// disabled entirely when the search root itself lies under a special
/// directory.
pub open spec fn survives(root: Seq<char>, dirs: Seq<Seq<char>>, s: Seq<char>) -> bool {
    &&& is_descriptor(s)
    &&& !is_nested_workspace(s)
    &&& (under_special(root, dirs) || !under_special(s, dirs))
}

/// The subsequence of entries that survive filtering, in input order.
pub open spec fn surviving(
    root: Seq<char>,
    dirs: Seq<Seq<char>>,
    entries: Seq<Seq<char>>,
) -> Seq<Seq<char>>
    decreases entries.len(),
{
    if entries.len() == 0 {
        Seq::empty()
    } else {
        let rest = surviving(root, dirs, entries.drop_last());
        if survives(root, dirs, entries.last()) {
            rest.push(entries.last())
        } else {
            rest
        }
    }
}

/// Appending one entry appends it to the survivors exactly when it survives.
pub proof fn lemma_surviving_push(
    root: Seq<char>,
    dirs: Seq<Seq<char>>,
    prefix: Seq<Seq<char>>,
    x: Seq<char>,
)
    ensures
        surviving(root, dirs, prefix.push(x)) == if survives(root, dirs, x) {
            surviving(root, dirs, prefix).push(x)
        } else {
            surviving(root, dirs, prefix)
        },
{
    assert(prefix.push(x).drop_last() =~= prefix);
}

/// The survivors are exactly the entries that satisfy `survives`: every
/// survivor comes from the input and passes the filter, and every input entry
/// that passes the filter is among the survivors.
pub proof fn lemma_surviving_members(root: Seq<char>, dirs: Seq<Seq<char>>, entries: Seq<Seq<char>>)
    ensures
        forall|i: int|
            0 <= i < surviving(root, dirs, entries).len() ==> survives(
                root,
                dirs,
                #[trigger] surviving(root, dirs, entries)[i],
            ) && entries.contains(surviving(root, dirs, entries)[i]),
        forall|i: int|
            0 <= i < entries.len() && survives(root, dirs, #[trigger] entries[i]) ==> surviving(
                root,
                dirs,
                entries,
            ).contains(entries[i]),
    decreases entries.len(),
{
    let s = surviving(root, dirs, entries);
    if entries.len() > 0 {
        let prefix = entries.drop_last();
        let sp = surviving(root, dirs, prefix);
        lemma_surviving_members(root, dirs, prefix);
        assert forall|i: int| 0 <= i < s.len() implies survives(root, dirs, #[trigger] s[i])
            && entries.contains(s[i]) by {
            if i < sp.len() {
                assert(prefix.contains(sp[i]));
                let j = choose|j: int| 0 <= j < prefix.len() && prefix[j] == sp[i];
                assert(entries[j] == sp[i]);
            } else {
                assert(s[i] == entries.last());
                assert(entries[entries.len() - 1] == entries.last());
            }
        }
        assert forall|i: int|
            0 <= i < entries.len() && survives(root, dirs, #[trigger] entries[i]) implies s
            .contains(entries[i]) by {
            if i < entries.len() - 1 {
                assert(prefix[i] == entries[i]);
                assert(sp.contains(entries[i]));
                let j = choose|j: int| 0 <= j < sp.len() && sp[j] == entries[i];
                if survives(root, dirs, entries.last()) {
                    assert(s[j] == entries[i]);
                } else {
                    assert(s[j] == entries[i]);
                }
            } else {
                assert(s[s.len() - 1] == entries[i]);
            }
        }
    }
}

/// With no recognized descriptor among the entries, nothing survives.
pub proof fn lemma_no_descriptors_empty(
    root: Seq<char>,
    dirs: Seq<Seq<char>>,
    entries: Seq<Seq<char>>,
)
    requires
        forall|i: int| 0 <= i < entries.len() ==> !is_descriptor(#[trigger] entries[i]),
    ensures
        surviving(root, dirs, entries).len() == 0,
    decreases entries.len(),
{
    if entries.len() > 0 {
        lemma_no_descriptors_empty(root, dirs, entries.drop_last());
        assert(entries[entries.len() - 1] == entries.last());
    }
}

/// With no surviving entry at all, the survivor list is empty.
pub proof fn lemma_no_survivors_empty(root: Seq<char>, dirs: Seq<Seq<char>>, entries: Seq<Seq<char>>)
    requires
        forall|i: int| 0 <= i < entries.len() ==> !survives(root, dirs, #[trigger] entries[i]),
    ensures
        surviving(root, dirs, entries).len() == 0,
    decreases entries.len(),
{
    if entries.len() > 0 {
        lemma_no_survivors_empty(root, dirs, entries.drop_last());
        assert(entries[entries.len() - 1] == entries.last());
    }
}

/// With exactly one entry passing the filter, the survivor list is exactly
/// that entry, wherever it stands in the input order.
pub proof fn lemma_single_survivor(
    root: Seq<char>,
    dirs: Seq<Seq<char>>,
    entries: Seq<Seq<char>>,
    k: int,
)
    requires
        0 <= k < entries.len(),
        survives(root, dirs, entries[k]),
        forall|i: int|
            0 <= i < entries.len() && i != k ==> !survives(root, dirs, #[trigger] entries[i]),
    ensures
        surviving(root, dirs, entries) =~= seq![entries[k]],
    decreases entries.len(),
{
    let prefix = entries.drop_last();
    if k == entries.len() - 1 {
        lemma_no_survivors_empty(root, dirs, prefix);
        assert(entries[entries.len() - 1] == entries.last());
    } else {
        lemma_single_survivor(root, dirs, prefix, k);
        assert(entries[entries.len() - 1] == entries.last());
    }
}

/// A workspace descriptor immediately inside a project descriptor directory
/// never survives filtering, in any input order.
pub proof fn lemma_nested_workspace_excluded(
    root: Seq<char>,
    dirs: Seq<Seq<char>>,
    entries: Seq<Seq<char>>,
    e: Seq<char>,
)
    requires
        is_workspace_path(e),
        is_project_path(parent_of(e)),
    ensures
        !surviving(root, dirs, entries).contains(e),
{
    lemma_surviving_members(root, dirs, entries);
}

/// With a search root outside every special directory, an entry lying under a
/// special directory never survives.
pub proof fn lemma_special_excluded(
    root: Seq<char>,
    dirs: Seq<Seq<char>>,
    entries: Seq<Seq<char>>,
    e: Seq<char>,
)
    requires
        !under_special(root, dirs),
        under_special(e, dirs),
    ensures
        !surviving(root, dirs, entries).contains(e),
{
    lemma_surviving_members(root, dirs, entries);
}

/// With a search root that itself lies under a special directory, no entry is
/// hidden by the special-directory rule: every recognized descriptor that is
/// not a nested workspace survives.
pub proof fn lemma_special_root_disables_exclusion(
    root: Seq<char>,
    dirs: Seq<Seq<char>>,
    e: Seq<char>,
)
    requires
        under_special(root, dirs),
        is_descriptor(e),
        !is_nested_workspace(e),
    ensures
        survives(root, dirs, e),
{
}

/// With a search root that itself lies under a special directory, a
/// recognized descriptor among the entries is kept as a candidate even when
/// it lies under a special directory itself.
pub proof fn lemma_special_root_keeps(
    root: Seq<char>,
    dirs: Seq<Seq<char>>,
    entries: Seq<Seq<char>>,
    e: Seq<char>,
)
    requires
        under_special(root, dirs),
        is_descriptor(e),
        !is_nested_workspace(e),
        entries.contains(e),
    ensures
        surviving(root, dirs, entries).contains(e),
{
    lemma_surviving_members(root, dirs, entries);
    let i = choose|i: int| 0 <= i < entries.len() && entries[i] == e;
    assert(survives(root, dirs, entries[i]));
}

/// Whether `path` is a project descriptor.
pub fn is_xcodeproj(path: &str) -> (r: bool)
    ensures
        r == is_project_path(path@),
{
    has_extension(path, "xcodeproj")
}

/// Whether `path` is a workspace descriptor.
pub fn is_xcworkspace(path: &str) -> (r: bool)
    ensures
        r == is_workspace_path(path@),
{
    has_extension(path, "xcworkspace")
}

/// Whether `path` is a package manifest.
pub fn is_package(path: &str) -> (r: bool)
    ensures
        r == is_package_path(path@),
{
    file_name_is(path, "Package.swift")
}

/// Whether any name in `special_dirs` occurs as a segment of `path`'s
/// ancestry.
fn in_special_dirs(path: &str, special_dirs: &Vec<String>) -> (r: bool)
    ensures
        r == under_special(path@, special_dirs.deep_view()),
{
    let ghost dirs = special_dirs.deep_view();
    let mut i: usize = 0;
    while i < special_dirs.len()
        invariant
            i <= special_dirs@.len(),
            dirs == special_dirs.deep_view(),
            forall|j: int| 0 <= j < i ==> !has_ancestor_segment(path@, #[trigger] dirs[j]),
        decreases special_dirs@.len() - i,
    {
        if has_parent(path, special_dirs[i].as_str()) {
            assert(has_ancestor_segment(path@, dirs[i as int]));
            return true;
        }
        i = i + 1;
    }
    false
}

/// Reduces the raw entries to the final candidate list: recognized
/// descriptors, minus workspaces nested in project directories, minus entries
/// hidden by the special-directory rule.
pub fn filter_entries(root: &str, entries: &Vec<String>, special_dirs: &Vec<String>) -> (r: Vec<
    String,
>)
    ensures
        r.deep_view() == surviving(root@, special_dirs.deep_view(), entries.deep_view()),
{
    let ghost dirs = special_dirs.deep_view();
    let ghost all = entries.deep_view();
    let root_is_special = in_special_dirs(root, special_dirs);
    let mut r: Vec<String> = Vec::new();
    let mut i: usize = 0;
    while i < entries.len()
        invariant
            i <= entries@.len(),
            dirs == special_dirs.deep_view(),
            all == entries.deep_view(),
            root_is_special == under_special(root@, dirs),
            r.deep_view() == surviving(root@, dirs, all.subrange(0, i as int)),
        decreases entries@.len() - i,
    {
        let e = &entries[i];
        assert(e@ == all[i as int]);
        let is_desc = is_xcodeproj(e.as_str()) || is_xcworkspace(e.as_str()) || is_package(
            e.as_str(),
        );
        let parent = parent_string(e.as_str());
        let nested = is_xcworkspace(e.as_str()) && is_xcodeproj(parent.as_str());
        let hidden = !root_is_special && in_special_dirs(e.as_str(), special_dirs);
        let keep = is_desc && !nested && !hidden;
        assert(keep == survives(root@, dirs, all[i as int]));
        proof {
            lemma_surviving_push(root@, dirs, all.subrange(0, i as int), all[i as int]);
            assert(all.subrange(0, i as int).push(all[i as int]) =~= all.subrange(
                0,
                i + 1 as int,
            ));
        }
        if keep {
            let ghost old_r = r.deep_view();
            r.push(e.clone());
            proof {
                assert(r.deep_view() =~= old_r.push(all[i as int]));
            }
        }
        i = i + 1;
    }
    proof {
        assert(all.subrange(0, all.len() as int) =~= all);
    }
    r
}

} // verus!
