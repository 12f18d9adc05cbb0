//! Presentation of an ambiguous grouping: groups sorted by parent directory,
//! members sorted by file name, and a stable numbering of every candidate so
//! that a user can pick one by its number.

use vstd::prelude::*;
use vstd::seq_lib::to_multiset_build;
use vstd::seq_lib::to_multiset_insert;

use crate::paths::file_name_of;
use crate::paths::file_name_string;
use crate::paths::str_eq;

verus! {

/// Lexicographic order on strings, by character code point; a prefix sorts
/// before every extension of it.
pub open spec fn lex_le(a: Seq<char>, b: Seq<char>) -> bool
    decreases a.len(),
{
    if a.len() == 0 {
        true
    } else if b.len() == 0 {
        false
    } else if (a[0] as u32) == (b[0] as u32) {
        lex_le(a.drop_first(), b.drop_first())
    } else {
        (a[0] as u32) < (b[0] as u32)
    }
}

/// Any two strings are comparable.
pub proof fn lemma_lex_le_total(a: Seq<char>, b: Seq<char>)
    ensures
        lex_le(a, b) || lex_le(b, a),
    decreases a.len(),
{
    if a.len() > 0 && b.len() > 0 && (a[0] as u32) == (b[0] as u32) {
        lemma_lex_le_total(a.drop_first(), b.drop_first());
    }
}

/// The order is transitive.
pub proof fn lemma_lex_le_trans(a: Seq<char>, b: Seq<char>, c: Seq<char>)
    requires
        lex_le(a, b),
        lex_le(b, c),
    ensures
        lex_le(a, c),
    decreases a.len(),
{
    if a.len() > 0 && b.len() > 0 && c.len() > 0 && (a[0] as u32) == (b[0] as u32) && (b[0] as u32)
        == (c[0] as u32) {
        lemma_lex_le_trans(a.drop_first(), b.drop_first(), c.drop_first());
    }
}

/// Comparing whole strings equals comparing their suffixes past a common
/// prefix.
proof fn lemma_lex_le_skip(a: Seq<char>, b: Seq<char>, i: int)
    requires
        0 <= i <= a.len(),
        i <= b.len(),
        forall|j: int| 0 <= j < i ==> a[j] == b[j],
    ensures
        lex_le(a, b) == lex_le(a.skip(i), b.skip(i)),
    decreases i,
{
    if i == 0 {
        assert(a.skip(0) =~= a);
        assert(b.skip(0) =~= b);
    } else {
        lemma_lex_le_skip(a, b, i - 1);
        let sa = a.skip(i - 1);
        let sb = b.skip(i - 1);
        assert(sa[0] == a[i - 1]);
        assert(sb[0] == b[i - 1]);
        assert(sa.drop_first() =~= a.skip(i));
        assert(sb.drop_first() =~= b.skip(i));
    }
}

/// Whether `a` sorts at or before `b` in lexicographic order.
pub fn str_le(a: &str, b: &str) -> (r: bool)
    ensures
        r == lex_le(a@, b@),
{
    let an = a.unicode_len();
    let bn = b.unicode_len();
    let mut i: usize = 0;
    while i < an && i < bn
        invariant
            i <= an,
            i <= bn,
            an == a@.len(),
            bn == b@.len(),
            forall|j: int| 0 <= j < i ==> a@[j] == b@[j],
        decreases an - i,
    {
        let ca = a.get_char(i);
        let cb = b.get_char(i);
        if ca != cb {
            proof {
                lemma_lex_le_skip(a@, b@, i as int);
                assert(a@.skip(i as int)[0] == a@[i as int]);
                assert(b@.skip(i as int)[0] == b@[i as int]);
            }
            return (ca as u32) < (cb as u32);
        }
        i = i + 1;
    }
    proof {
        lemma_lex_le_skip(a@, b@, i as int);
        if i == an {
            assert(a@.skip(i as int) =~= Seq::<char>::empty());
        } else {
            assert(b@.skip(i as int) =~= Seq::<char>::empty());
            assert(a@.skip(i as int).len() > 0);
        }
    }
    an <= bn
}

/// Whether the file name of `a` sorts at or before the file name of `b`.
fn file_name_le(a: &str, b: &str) -> (r: bool)
    ensures
        r == lex_le(file_name_of(a@), file_name_of(b@)),
{
    let fa = file_name_string(a);
    let fb = file_name_string(b);
    str_le(fa.as_str(), fb.as_str())
}

/// Sorts candidate paths by their file names.
pub fn sort_by_file_name(members: Vec<String>) -> (r: Vec<String>)
    ensures
        r.deep_view().to_multiset() == members.deep_view().to_multiset(),
        r@.len() == members@.len(),
        forall|a: int, b: int|
            0 <= a < b < r.deep_view().len() ==> lex_le(
                file_name_of(#[trigger] r.deep_view()[a]),
                file_name_of(#[trigger] r.deep_view()[b]),
            ),
{
    let ghost all = members.deep_view();
    let mut out: Vec<String> = Vec::new();
    proof {
        assert(out.deep_view() =~= all.subrange(0, 0));
    }
    let mut i: usize = 0;
    while i < members.len()
        invariant
            i <= members@.len(),
            all == members.deep_view(),
            out.deep_view().to_multiset() == all.subrange(0, i as int).to_multiset(),
            out@.len() == i,
            forall|a: int, b: int|
                0 <= a < b < out.deep_view().len() ==> lex_le(
                    file_name_of(#[trigger] out.deep_view()[a]),
                    file_name_of(#[trigger] out.deep_view()[b]),
                ),
        decreases members@.len() - i,
    {
        let x = members[i].clone();
        assert(x@ == all[i as int]);
        let ghost xk = file_name_of(x@);
        let mut pos: usize = 0;
        let mut m: usize = 0;
        while m < out.len()
            invariant
                pos <= m <= out@.len(),
                xk == file_name_of(x@),
                forall|t: int|
                    0 <= t < pos ==> lex_le(file_name_of(#[trigger] out.deep_view()[t]), xk),
                pos < m ==> !lex_le(file_name_of(out.deep_view()[pos as int]), xk),
            decreases out@.len() - m,
        {
            if pos == m && file_name_le(out[m].as_str(), x.as_str()) {
                assert(out[m as int]@ == out.deep_view()[m as int]);
                pos = m + 1;
            }
            m = m + 1;
        }
        proof {
            assert forall|t: int| pos <= t < out.deep_view().len() implies lex_le(
                xk,
                file_name_of(#[trigger] out.deep_view()[t]),
            ) by {
                let kt = file_name_of(out.deep_view()[t]);
                let kp = file_name_of(out.deep_view()[pos as int]);
                lemma_lex_le_total(kt, xk);
                if lex_le(kt, xk) {
                    if t > pos {
                        lemma_lex_le_trans(kp, kt, xk);
                    }
                    assert(false);
                }
            }
        }
        let ghost old_out = out.deep_view();
        out.insert(pos, x);
        proof {
            assert(out.deep_view() =~= old_out.insert(pos as int, all[i as int]));
            to_multiset_insert(old_out, pos as int, all[i as int]);
            to_multiset_build(all.subrange(0, i as int), all[i as int]);
            assert(all.subrange(0, i as int).push(all[i as int]) =~= all.subrange(
                0,
                i + 1 as int,
            ));
            assert forall|a: int, b: int| 0 <= a < b < out.deep_view().len() implies lex_le(
                file_name_of(#[trigger] out.deep_view()[a]),
                file_name_of(#[trigger] out.deep_view()[b]),
            ) by {
                let d = out.deep_view();
                if b < pos {
                } else if a < pos && b == pos {
                } else if a < pos && b > pos {
                } else if a == pos {
                } else {
                }
                assert(a < pos ==> d[a] == old_out[a]);
                assert(a > pos ==> d[a] == old_out[a - 1]);
                assert(b < pos ==> d[b] == old_out[b]);
                assert(b > pos ==> d[b] == old_out[b - 1]);
            }
        }
        i = i + 1;
    }
    proof {
        assert(all.subrange(0, all.len() as int) =~= all);
    }
    out
}

/// Sorts the groups of a grouping by parent-directory path.
pub fn sort_groups(groups: Vec<(String, Vec<String>)>) -> (r: Vec<(String, Vec<String>)>)
    ensures
        r.deep_view().to_multiset() == groups.deep_view().to_multiset(),
        r@.len() == groups@.len(),
        forall|a: int, b: int|
            0 <= a < b < r.deep_view().len() ==> lex_le(
                (#[trigger] r.deep_view()[a]).0,
                (#[trigger] r.deep_view()[b]).0,
            ),
        member_count(r.deep_view()) == member_count(groups.deep_view()),
{
    let ghost all = groups.deep_view();
    let mut src = groups;
    let mut out: Vec<(String, Vec<String>)> = Vec::new();
    proof {
        assert(src.deep_view() =~= all.skip(0));
        assert(all.skip(all.len() as int) =~= Seq::<(Seq<char>, Seq<Seq<char>>)>::empty());
        assert(out.deep_view() =~= all.skip(all.len() as int));
    }
    while src.len() > 0
        invariant
            src.deep_view() == all.subrange(0, src@.len() as int),
            out.deep_view().to_multiset() == all.skip(src@.len() as int).to_multiset(),
            out@.len() + src@.len() == all.len(),
            member_count(out.deep_view()) == member_count(all.skip(src@.len() as int)),
            forall|a: int, b: int|
                0 <= a < b < out.deep_view().len() ==> lex_le(
                    (#[trigger] out.deep_view()[a]).0,
                    (#[trigger] out.deep_view()[b]).0,
                ),
        decreases src@.len(),
    {
        let ghost j = src@.len() - 1;
        proof {
            assert(src.deep_view()[j] == src@[j].deep_view());
            assert(src.deep_view()[j] == all[j]);
        }
        let x = src.pop().unwrap();
        proof {
            assert(x.deep_view() == all[j]);
            assert(src.deep_view() =~= all.subrange(0, j));
        }
        let ghost xk = all[j].0;
        assert(x.0@ == xk);
        let mut pos: usize = 0;
        let mut m: usize = 0;
        while m < out.len()
            invariant
                pos <= m <= out@.len(),
                xk == x.0@,
                forall|t: int| 0 <= t < pos ==> lex_le((#[trigger] out.deep_view()[t]).0, xk),
                pos < m ==> !lex_le(out.deep_view()[pos as int].0, xk),
            decreases out@.len() - m,
        {
            if pos == m && str_le(out[m].0.as_str(), x.0.as_str()) {
                assert(out[m as int].deep_view() == out.deep_view()[m as int]);
                pos = m + 1;
            }
            m = m + 1;
        }
        proof {
            assert forall|t: int| pos <= t < out.deep_view().len() implies lex_le(
                xk,
                (#[trigger] out.deep_view()[t]).0,
            ) by {
                let kt = out.deep_view()[t].0;
                let kp = out.deep_view()[pos as int].0;
                lemma_lex_le_total(kt, xk);
                if lex_le(kt, xk) {
                    if t > pos {
                        lemma_lex_le_trans(kp, kt, xk);
                    }
                    assert(false);
                }
            }
        }
        let ghost old_out = out.deep_view();
        out.insert(pos, x);
        proof {
            assert(out.deep_view() =~= old_out.insert(pos as int, all[j]));
            to_multiset_insert(old_out, pos as int, all[j]);
            lemma_member_count_insert(old_out, pos as int, all[j]);
            assert(all.skip(j + 1).insert(0, all[j]) =~= all.skip(j));
            to_multiset_insert(all.skip(j + 1), 0, all[j]);
            lemma_member_count_insert(all.skip(j + 1), 0, all[j]);
            assert forall|a: int, b: int| 0 <= a < b < out.deep_view().len() implies lex_le(
                (#[trigger] out.deep_view()[a]).0,
                (#[trigger] out.deep_view()[b]).0,
            ) by {
                let d = out.deep_view();
                assert(a < pos ==> d[a] == old_out[a]);
                assert(a > pos ==> d[a] == old_out[a - 1]);
                assert(b < pos ==> d[b] == old_out[b]);
                assert(b > pos ==> d[b] == old_out[b - 1]);
            }
        }
    }
    proof {
        assert(all.skip(0) =~= all);
    }
    out
}

/// The total number of candidates held by a grouping.
pub open spec fn member_count(groups: Seq<(Seq<char>, Seq<Seq<char>>)>) -> nat
    decreases groups.len(),
{
    if groups.len() == 0 {
        0
    } else {
        groups.first().1.len() + member_count(groups.drop_first())
    }
}

/// The candidate count of two groupings in a row is the sum of their counts.
proof fn lemma_member_count_concat(a: Seq<(Seq<char>, Seq<Seq<char>>)>, b: Seq<(Seq<char>, Seq<Seq<char>>)>)
    ensures
        member_count(a + b) == member_count(a) + member_count(b),
    decreases a.len(),
{
    if a.len() == 0 {
        assert(a + b =~= b);
    } else {
        assert((a + b).drop_first() =~= a.drop_first() + b);
        assert((a + b).first() == a.first());
        lemma_member_count_concat(a.drop_first(), b);
    }
}

/// Inserting one group adds its member count.
proof fn lemma_member_count_insert(s: Seq<(Seq<char>, Seq<Seq<char>>)>, i: int, x: (Seq<char>, Seq<Seq<char>>))
    requires
        0 <= i <= s.len(),
    ensures
        member_count(s.insert(i, x)) == member_count(s) + x.1.len(),
{
    let s0 = s.subrange(0, i);
    let s1 = s.subrange(i, s.len() as int);
    assert(s =~= s0 + s1);
    assert(s.insert(i, x) =~= s0 + (seq![x] + s1));
    assert((seq![x] + s1).first() == x);
    assert((seq![x] + s1).drop_first() =~= s1);
    lemma_member_count_concat(s0, s1);
    lemma_member_count_concat(s0, seq![x] + s1);
}

/// The labeled candidates of all groups, in display order.
pub open spec fn flat_labels(groups: Seq<(Seq<char>, Seq<(u32, Seq<char>)>)>) -> Seq<
    (u32, Seq<char>),
>
    decreases groups.len(),
{
    if groups.len() == 0 {
        Seq::empty()
    } else {
        flat_labels(groups.drop_last()) + groups.last().1
    }
}

/// Appending one group appends its labeled candidates.
proof fn lemma_flat_labels_push(
    groups: Seq<(Seq<char>, Seq<(u32, Seq<char>)>)>,
    g: (Seq<char>, Seq<(u32, Seq<char>)>),
)
    ensures
        flat_labels(groups.push(g)) == flat_labels(groups) + g.1,
{
    assert(groups.push(g).drop_last() =~= groups);
}

/// The paths of a labeled member list, labels dropped.
pub open spec fn member_paths(members: Seq<(u32, Seq<char>)>) -> Seq<Seq<char>> {
    members.map_values(|lm: (u32, Seq<char>)| lm.1)
}

/// Arranges an ambiguous grouping for display and selection: groups sorted by
/// parent-directory path, candidates within each group sorted by file name,
/// and every candidate labeled with its display number, numbered from one in
/// display order.
#[verifier::rlimit(100)]
pub fn selection_groups(groups: Vec<(String, Vec<String>)>) -> (r: Vec<
    (String, Vec<(u32, String)>),
>)
    requires
        member_count(groups.deep_view()) < 0xffffffff,
    ensures
        r.deep_view().len() == groups.deep_view().len(),
        forall|a: int, b: int|
            0 <= a < b < r.deep_view().len() ==> lex_le(
                (#[trigger] r.deep_view()[a]).0,
                (#[trigger] r.deep_view()[b]).0,
            ),
        forall|g: int, a: int, b: int|
            0 <= g < r.deep_view().len() && 0 <= a < b < r.deep_view()[g].1.len() ==> lex_le(
                file_name_of((#[trigger] r.deep_view()[g].1[a]).1),
                file_name_of((#[trigger] r.deep_view()[g].1[b]).1),
            ),
        flat_labels(r.deep_view()).len() == member_count(groups.deep_view()),
        forall|t: int|
            0 <= t < flat_labels(r.deep_view()).len() ==> (#[trigger] flat_labels(
                r.deep_view(),
            )[t]).0 as int == t + 1,
        forall|g: int|
            0 <= g < r.deep_view().len() ==> exists|h: int|
                0 <= h < groups.deep_view().len() && (#[trigger] r.deep_view()[g]).0
                    == groups.deep_view()[h].0 && member_paths(r.deep_view()[g].1).to_multiset()
                    == groups.deep_view()[h].1.to_multiset(),
        forall|h: int|
            0 <= h < groups.deep_view().len() ==> exists|g: int|
                0 <= g < r.deep_view().len() && (#[trigger] groups.deep_view()[h]).0
                    == r.deep_view()[g].0 && member_paths(r.deep_view()[g].1).to_multiset()
                    == groups.deep_view()[h].1.to_multiset(),
{
    let ghost gv = groups.deep_view();
    let mut src = sort_groups(groups);
    let ghost sv = src.deep_view();
    let mut r: Vec<(String, Vec<(u32, String)>)> = Vec::new();
    let mut n: u32 = 1;
    proof {
        assert(src.deep_view() =~= sv.skip(0));
        assert(flat_labels(r.deep_view()) =~= Seq::<(u32, Seq<char>)>::empty());
    }
    while src.len() > 0
        invariant
            member_count(sv) == member_count(gv),
            member_count(gv) < 0xffffffff,
            sv.to_multiset() == gv.to_multiset(),
            r@.len() + src@.len() == sv.len(),
            src.deep_view() == sv.skip(r@.len() as int),
            n as int == 1 + flat_labels(r.deep_view()).len(),
            flat_labels(r.deep_view()).len() + member_count(sv.skip(r@.len() as int))
                == member_count(sv),
            forall|t: int|
                0 <= t < flat_labels(r.deep_view()).len() ==> (#[trigger] flat_labels(
                    r.deep_view(),
                )[t]).0 as int == t + 1,
            forall|t: int| 0 <= t < r@.len() ==> (#[trigger] r.deep_view()[t]).0 == sv[t].0,
            forall|t: int|
                0 <= t < r@.len() ==> member_paths((#[trigger] r.deep_view()[t]).1).to_multiset()
                    == sv[t].1.to_multiset(),
            forall|g: int, a: int, b: int|
                0 <= g < r@.len() && 0 <= a < b < r.deep_view()[g].1.len() ==> lex_le(
                    file_name_of((#[trigger] r.deep_view()[g].1[a]).1),
                    file_name_of((#[trigger] r.deep_view()[g].1[b]).1),
                ),
        decreases src@.len(),
    {
        let ghost g = r@.len() as int;
        proof {
            assert(src.deep_view()[0] == src@[0].deep_view());
            assert(src.deep_view()[0] == sv[g]);
            assert(sv.skip(g).first() == sv[g]);
            assert(sv.skip(g).drop_first() =~= sv.skip(g + 1));
            assert(member_count(sv.skip(g)) == sv[g].1.len() + member_count(sv.skip(g + 1)));
        }
        let pair = src.remove(0);
        let key = pair.0;
        let members = pair.1;
        proof {
            assert(key@ == sv[g].0);
            assert(members.deep_view() == sv[g].1);
            assert(src.deep_view() =~= sv.skip(g + 1));
        }
        let ms = sort_by_file_name(members);
        let ghost msv = ms.deep_view();
        let ghost n0 = n as int;
        proof {
            assert(n0 - 1 + msv.len() + member_count(sv.skip(g + 1)) == member_count(sv));
            assert(n0 - 1 + msv.len() < 0xffffffff);
        }
        let mut labeled: Vec<(u32, String)> = Vec::new();
        let mut m: usize = 0;
        while m < ms.len()
            invariant
                m <= ms@.len(),
                msv == ms.deep_view(),
                msv.len() == ms@.len(),
                n as int == n0 + m,
                1 <= n0,
                n0 - 1 + msv.len() < 0xffffffff,
                labeled.deep_view().len() == m,
                forall|t: int|
                    0 <= t < m ==> #[trigger] labeled.deep_view()[t] == (
                    ((n0 + t) as u32),
                    msv[t],
                ),
            decreases ms@.len() - m,
        {
            let x = ms[m].clone();
            assert(x@ == msv[m as int]);
            let ghost old_l = labeled.deep_view();
            labeled.push((n, x));
            proof {
                assert(labeled.deep_view() =~= old_l.push((n, msv[m as int])));
            }
            n = n + 1;
            m = m + 1;
        }
        let ghost old_r = r.deep_view();
        let ghost lv = labeled.deep_view();
        r.push((key, labeled));
        proof {
            assert(r.deep_view() =~= old_r.push((sv[g].0, lv)));
            lemma_flat_labels_push(old_r, (sv[g].0, lv));
            let old_flat = flat_labels(old_r);
            let new_flat = flat_labels(r.deep_view());
            assert(new_flat == old_flat + lv);
            assert forall|t: int| 0 <= t < new_flat.len() implies (#[trigger] new_flat[t]).0 as int
                == t + 1 by {
                if t < old_flat.len() {
                    assert(new_flat[t] == old_flat[t]);
                } else {
                    assert(new_flat[t] == lv[t - old_flat.len()]);
                }
            }
            assert(member_paths(lv) =~= msv);
            assert(member_paths(lv).to_multiset() == sv[g].1.to_multiset());
        }
    }
    proof {
        assert(sv.skip(r@.len() as int).len() == 0);
        assert(member_count(sv.skip(r@.len() as int)) == 0);
        sv.to_multiset_ensures();
        gv.to_multiset_ensures();
        assert(sv.len() == gv.len()) by {
            assert(sv.to_multiset().len() == gv.to_multiset().len());
        }
        assert forall|g: int| 0 <= g < r.deep_view().len() implies exists|h: int|
            0 <= h < gv.len() && (#[trigger] r.deep_view()[g]).0 == gv[h].0 && member_paths(
                r.deep_view()[g].1,
            ).to_multiset() == gv[h].1.to_multiset() by {
            assert(sv.contains(sv[g]));
            assert(sv.to_multiset().count(sv[g]) > 0);
            assert(gv.to_multiset().count(sv[g]) > 0);
            assert(gv.contains(sv[g]));
            let h = choose|h: int| 0 <= h < gv.len() && gv[h] == sv[g];
            assert(0 <= h < gv.len() && r.deep_view()[g].0 == gv[h].0 && member_paths(
                r.deep_view()[g].1,
            ).to_multiset() == gv[h].1.to_multiset());
        }
        assert forall|h: int| 0 <= h < gv.len() implies exists|g: int|
            0 <= g < r.deep_view().len() && (#[trigger] gv[h]).0 == r.deep_view()[g].0
                && member_paths(r.deep_view()[g].1).to_multiset()
                == gv[h].1.to_multiset() by {
            assert(gv.contains(gv[h]));
            assert(gv.to_multiset().count(gv[h]) > 0);
            assert(sv.to_multiset().count(gv[h]) > 0);
            assert(sv.contains(gv[h]));
            let g = choose|g: int| 0 <= g < sv.len() && sv[g] == gv[h];
            assert(0 <= g < r.deep_view().len() && gv[h].0 == r.deep_view()[g].0 && member_paths(
                r.deep_view()[g].1,
            ).to_multiset() == gv[h].1.to_multiset());
        }
    }
    r
}

/// Finds the candidate path labeled `number` in a selection list, if any.
pub fn find_numbered(list: &Vec<(String, Vec<(u32, String)>)>, number: u32) -> (r: Option<String>)
    ensures
        match r {
            Some(p) => exists|g: int, m: int|
                0 <= g < list.deep_view().len() && 0 <= m < list.deep_view()[g].1.len()
                    && #[trigger] list.deep_view()[g].1[m] == (number, p@),
            None => forall|g: int, m: int|
                0 <= g < list.deep_view().len() && 0 <= m < list.deep_view()[g].1.len() ==> (
                #[trigger] list.deep_view()[g].1[m]).0 != number,
        },
{
    let ghost lv = list.deep_view();
    let mut g: usize = 0;
    while g < list.len()
        invariant
            g <= list@.len(),
            lv == list.deep_view(),
            forall|g2: int, m2: int|
                0 <= g2 < g && 0 <= m2 < lv[g2].1.len() ==> (#[trigger] lv[g2].1[m2]).0 != number,
        decreases list@.len() - g,
    {
        proof {
            assert(lv[g as int] == list@[g as int].deep_view());
        }
        let members = &list[g].1;
        let mut m: usize = 0;
        while m < members.len()
            invariant
                m <= members@.len(),
                g < list@.len(),
                lv == list.deep_view(),
                members == &list@[g as int].1,
                members.deep_view() == lv[g as int].1,
                forall|m2: int|
                    0 <= m2 < m ==> (#[trigger] lv[g as int].1[m2]).0 != number,
            decreases members@.len() - m,
        {
            proof {
                assert(lv[g as int].1[m as int] == (members@[m as int].0, members@[m as int].1@));
            }
            if members[m].0 == number {
                let p = members[m].1.clone();
                assert(lv[g as int].1[m as int] == (number, p@));
                return Some(p);
            }
            m = m + 1;
        }
        g = g + 1;
    }
    None
}

} // verus!
