//! Strike combinations: grouping of strike candidates by category,
//! and exhaustive enumeration of every way to strike at most one
//! candidate per category.
use vstd::prelude::*;
use crate::average::{
    avg_eq, avg_eq_exec, avg_le, avg_le_exec, avg_wf, calculate_grade, eval_avg,
    lemma_avg_le_refl, lemma_avg_le_total, lemma_avg_le_trans, lemma_eval_same_membership,
    Average, AverageView,
};
use crate::records::{is_candidate, Module, ModuleView};
use crate::text::str_eq;

verus! {

/// A strike set, given by record indices: every index names a strike
/// candidate, and no two struck records share a category.
pub open spec fn valid_strike(ms: Seq<ModuleView>, s: Seq<int>) -> bool {
    &&& forall|k: int|
        0 <= k < s.len() ==> 0 <= #[trigger] s[k] < ms.len() && is_candidate(ms[s[k]])
    &&& forall|k1: int, k2: int|
        0 <= k1 < k2 < s.len() ==> ms[s[k1]].category != ms[s[k2]].category
}

/// Total credit volume of the struck records.
pub open spec fn struck_credits(ms: Seq<ModuleView>, s: Seq<int>) -> int
    decreases s.len(),
{
    if s.len() == 0 {
        0
    } else {
        struck_credits(ms, s.drop_last()) + ms[s.last()].credits
    }
}

/// The labels of the struck records.
pub open spec fn labels_of(ms: Seq<ModuleView>, s: Seq<int>) -> Seq<Seq<char>> {
    s.map_values(|e: int| ms[e].label)
}

/// The distinct categories that hold at least one strike candidate, in
/// order of first appearance.
pub open spec fn cand_cats(ms: Seq<ModuleView>) -> Seq<Seq<char>>
    decreases ms.len(),
{
    if ms.len() == 0 {
        Seq::empty()
    } else {
        let pre = cand_cats(ms.drop_last());
        if is_candidate(ms.last()) && !pre.contains(ms.last().category) {
            pre.push(ms.last().category)
        } else {
            pre
        }
    }
}

/// The indices of the strike candidates of one category, ascending.
pub open spec fn cat_members(ms: Seq<ModuleView>, cat: Seq<char>) -> Seq<int>
    decreases ms.len(),
{
    if ms.len() == 0 {
        Seq::empty()
    } else {
        let pre = cat_members(ms.drop_last(), cat);
        if is_candidate(ms.last()) && ms.last().category == cat {
            pre.push(ms.len() - 1)
        } else {
            pre
        }
    }
}

/// The strike candidates, grouped by category.
pub struct Group {
    pub category: String,
    pub members: Vec<usize>,
}

pub struct GroupView {
    pub category: Seq<char>,
    pub members: Seq<int>,
}

pub open spec fn idxs(v: Seq<usize>) -> Seq<int> {
    v.map_values(|e: usize| e as int)
}

impl View for Group {
    type V = GroupView;

    open spec fn view(&self) -> GroupView {
        GroupView { category: self.category@, members: idxs(self.members@) }
    }
}

pub open spec fn gviews(gs: Seq<Group>) -> Seq<GroupView> {
    gs.map_values(|g: Group| g@)
}

pub open spec fn groups_of(ms: Seq<ModuleView>) -> Seq<GroupView> {
    cand_cats(ms).map_values(|c: Seq<char>| GroupView { category: c, members: cat_members(ms, c) })
}

pub proof fn lemma_cand_cats_distinct(ms: Seq<ModuleView>)
    ensures
        forall|i: int, j: int|
            0 <= i < j < cand_cats(ms).len() ==> cand_cats(ms)[i] != cand_cats(ms)[j],
    decreases ms.len(),
{
    if ms.len() > 0 {
        lemma_cand_cats_distinct(ms.drop_last());
        let pre = cand_cats(ms.drop_last());
        if is_candidate(ms.last()) && !pre.contains(ms.last().category) {
            assert forall|i: int, j: int|
                0 <= i < j < cand_cats(ms).len() implies cand_cats(ms)[i] != cand_cats(ms)[j] by {
                if j == cand_cats(ms).len() - 1 {
                    assert(pre.contains(pre[i]));
                }
            }
        }
    }
}

/// A category that holds no candidate has no members.
pub proof fn lemma_cat_members_absent(ms: Seq<ModuleView>, cat: Seq<char>)
    requires
        !cand_cats(ms).contains(cat),
    ensures
        cat_members(ms, cat) == Seq::<int>::empty(),
    decreases ms.len(),
{
    if ms.len() > 0 {
        let pre = cand_cats(ms.drop_last());
        if is_candidate(ms.last()) && !pre.contains(ms.last().category) {
            assert(cand_cats(ms) == pre.push(ms.last().category));
            assert(forall|x: Seq<char>| pre.contains(x) ==> cand_cats(ms).contains(x)) by {
                assert(forall|i: int|
                    0 <= i < pre.len() ==> cand_cats(ms)[i] == #[trigger] pre[i]);
            }
            assert(cand_cats(ms).contains(cand_cats(ms)[cand_cats(ms).len() - 1]));
            lemma_cat_members_absent(ms.drop_last(), cat);
        } else {
            if is_candidate(ms.last()) && pre.contains(ms.last().category) {
                lemma_cat_members_absent(ms.drop_last(), cat);
            } else {
                lemma_cat_members_absent(ms.drop_last(), cat);
            }
        }
    }
}

/// Every member of a category's group names a candidate of that
/// category.
pub proof fn lemma_cat_members_sound(ms: Seq<ModuleView>, cat: Seq<char>)
    ensures
        forall|k: int|
            0 <= k < cat_members(ms, cat).len() ==> {
                let e = #[trigger] cat_members(ms, cat)[k];
                0 <= e < ms.len() && is_candidate(ms[e]) && ms[e].category == cat
            },
    decreases ms.len(),
{
    if ms.len() > 0 {
        lemma_cat_members_sound(ms.drop_last(), cat);
        let pre = cat_members(ms.drop_last(), cat);
        assert(forall|k: int| 0 <= k < pre.len() ==> 0 <= #[trigger] pre[k] < ms.len() - 1
            ==> true);
        assert forall|k: int| 0 <= k < cat_members(ms, cat).len() implies {
            let e = #[trigger] cat_members(ms, cat)[k];
            0 <= e < ms.len() && is_candidate(ms[e]) && ms[e].category == cat
        } by {
            if k < pre.len() {
                let e = pre[k];
                assert(0 <= e < ms.len() - 1);
                assert(ms.drop_last()[e] == ms[e]);
            }
        }
    }
}

/// Every candidate is a member of its category's group.
pub proof fn lemma_candidate_in_group(ms: Seq<ModuleView>, e: int)
    requires
        0 <= e < ms.len(),
        is_candidate(ms[e]),
    ensures
        cand_cats(ms).contains(ms[e].category),
        cat_members(ms, ms[e].category).contains(e),
    decreases ms.len(),
{
    let cat = ms[e].category;
    let pre_cats = cand_cats(ms.drop_last());
    let pre_mem = cat_members(ms.drop_last(), cat);
    if e == ms.len() - 1 {
        assert(ms.last() == ms[e]);
        if !pre_cats.contains(cat) {
            assert(cand_cats(ms) == pre_cats.push(cat));
            assert(cand_cats(ms)[cand_cats(ms).len() - 1] == cat);
            assert(cand_cats(ms).contains(cat));
        } else {
            assert(forall|i: int|
                0 <= i < pre_cats.len() ==> cand_cats(ms)[i] == #[trigger] pre_cats[i]);
            let i = choose|i: int| 0 <= i < pre_cats.len() && pre_cats[i] == cat;
            assert(cand_cats(ms)[i] == cat);
        }
        assert(cat_members(ms, cat) == pre_mem.push(e));
        assert(cat_members(ms, cat)[cat_members(ms, cat).len() - 1] == e);
    } else {
        assert(ms.drop_last()[e] == ms[e]);
        lemma_candidate_in_group(ms.drop_last(), e);
        // the category list only grows
        assert(cand_cats(ms).contains(cat)) by {
            let i = choose|i: int| 0 <= i < pre_cats.len() && pre_cats[i] == cat;
            if is_candidate(ms.last()) && !pre_cats.contains(ms.last().category) {
                assert(cand_cats(ms)[i] == cat);
            } else {
                assert(cand_cats(ms)[i] == cat);
            }
        }
        assert(cat_members(ms, cat).contains(e)) by {
            let k = choose|k: int| 0 <= k < pre_mem.len() && pre_mem[k] == e;
            if is_candidate(ms.last()) && ms.last().category == cat {
                assert(cat_members(ms, cat)[k] == e);
            } else {
                assert(cat_members(ms, cat)[k] == e);
            }
        }
    }
}

/// The index of the group with this category, if one exists.
fn find_group(groups: &Vec<Group>, cat: &str) -> (r: Option<usize>)
    ensures
        match r {
            Some(j) => j < groups@.len() && gviews(groups@)[j as int].category == cat@,
            None => forall|t: int| 0 <= t < groups@.len() ==> gviews(groups@)[t].category != cat@,
        },
{
    let mut j: usize = 0;
    while j < groups.len()
        invariant
            j <= groups@.len(),
            forall|t: int| 0 <= t < j ==> gviews(groups@)[t].category != cat@,
        decreases groups@.len() - j,
    {
        if str_eq(groups[j].category.as_str(), cat) {
            proof {
                assert(gviews(groups@)[j as int] == groups@[j as int]@);
            }
            return Some(j);
        }
        proof {
            assert(gviews(groups@)[j as int] == groups@[j as int]@);
        }
        j += 1;
    }
    None
}

/// Groups the strike candidates of `modules` by category, categories
/// in order of first appearance, members in record order.
pub fn group_candidates(modules: &Vec<Module>) -> (groups: Vec<Group>)
    ensures
        gviews(groups@) == groups_of(crate::records::views(modules@)),
{
    let ghost ms = crate::records::views(modules@);
    let mut groups: Vec<Group> = Vec::new();
    let mut i: usize = 0;
    proof {
        assert(ms.take(0) =~= Seq::<ModuleView>::empty());
        assert(gviews(groups@) =~= groups_of(ms.take(0)));
    }
    while i < modules.len()
        invariant
            ms == crate::records::views(modules@),
            ms.len() == modules@.len(),
            i <= modules@.len(),
            gviews(groups@) == groups_of(ms.take(i as int)),
        decreases modules@.len() - i,
    {
        let ghost pre = ms.take(i as int);
        let ghost cur = ms.take(i + 1);
        proof {
            assert(cur.drop_last() =~= pre);
            assert(cur.last() == ms[i as int]);
            assert(ms[i as int] == modules@[i as int]@);
            lemma_cand_cats_distinct(pre);
        }
        let m = &modules[i];
        if crate::records::check_candidate(m) {
            match find_group(&groups, m.category.as_str()) {
                Some(j) => {
                    proof {
                        assert(gviews(groups@).len() == groups@.len());
                        assert(groups_of(pre).len() == cand_cats(pre).len());
                        assert((j as int) < cand_cats(pre).len());
                        assert(gviews(groups@)[j as int] == groups_of(pre)[j as int]);
                        assert(groups_of(pre)[j as int].category == cand_cats(pre)[j as int]);
                        assert(cand_cats(pre)[j as int] == ms[i as int].category);
                        assert(cand_cats(pre).contains(ms[i as int].category));
                        assert(cand_cats(cur) == cand_cats(pre));
                    }
                    let ghost gold = groups@;
                    let mut grp = groups.remove(j);
                    grp.members.push(i);
                    let ghost grpg = grp;
                    groups.insert(j, grp);
                    proof {
                        let cat = ms[i as int].category;
                        assert(groups@ =~= gold.update(j as int, grpg));
                        assert(grpg.members@ == gold[j as int].members@.push(i));
                        assert(grpg@.members =~= idxs(gold[j as int].members@).push(i as int));
                        assert(gviews(gold)[j as int] == gold[j as int]@);
                        assert(idxs(gold[j as int].members@) == cat_members(pre, cat)) by {
                            assert(groups_of(pre)[j as int].members == cat_members(pre, cat));
                        }
                        assert forall|t: int| 0 <= t < cand_cats(cur).len() implies gviews(
                            groups@,
                        )[t] == groups_of(cur)[t] by {
                            let c = cand_cats(cur)[t];
                            if t == j {
                                assert(c == cat);
                                assert(cat_members(cur, c) == cat_members(pre, c).push(i as int));
                                assert(groups@[t] == grpg);
                                assert(gviews(groups@)[t] == grpg@);
                            } else {
                                assert(c != cat);
                                assert(cat_members(cur, c) == cat_members(pre, c));
                                assert(groups@[t] == gold[t]);
                                assert(gviews(groups@)[t] == gviews(gold)[t]);
                                assert(gviews(gold)[t] == groups_of(pre)[t]);
                            }
                        }
                        assert(gviews(groups@) =~= groups_of(cur));
                    }
                },
                None => {
                    proof {
                        assert(gviews(groups@).len() == groups@.len());
                        assert(groups_of(pre).len() == cand_cats(pre).len());
                        assert forall|t: int| 0 <= t < cand_cats(pre).len() implies cand_cats(
                            pre,
                        )[t] != ms[i as int].category by {
                            assert(gviews(groups@)[t] == groups_of(pre)[t]);
                            assert(groups_of(pre)[t].category == cand_cats(pre)[t]);
                        }
                        assert(!cand_cats(pre).contains(ms[i as int].category));
                        lemma_cat_members_absent(pre, ms[i as int].category);
                    }
                    let mut members: Vec<usize> = Vec::new();
                    members.push(i);
                    let category = m.category.clone();
                    let ghost gold = groups@;
                    groups.push(Group { category, members });
                    proof {
                        let cat = ms[i as int].category;
                        assert(cand_cats(cur) == cand_cats(pre).push(cat));
                        assert(cat_members(cur, cat) =~= cat_members(pre, cat).push(i as int));
                        assert forall|t: int| 0 <= t < cand_cats(cur).len() implies gviews(
                            groups@,
                        )[t] == groups_of(cur)[t] by {
                            let c = cand_cats(cur)[t];
                            if t == cand_cats(cur).len() - 1 {
                                assert(c == cat);
                                assert(groups@[t] == groups@[groups@.len() - 1]);
                                assert(idxs(groups@[t].members@) =~= Seq::<int>::empty().push(
                                    i as int));
                                assert(cat_members(cur, cat) =~= Seq::<int>::empty().push(
                                    i as int));
                            } else {
                                assert(cand_cats(pre)[t] == c);
                                assert(c != cat);
                                assert(cat_members(cur, c) == cat_members(pre, c));
                                assert(groups@[t] == gold[t]);
                                assert(gviews(gold)[t] == groups_of(pre)[t]);
                            }
                        }
                        assert(gviews(groups@) =~= groups_of(cur));
                    }
                },
            }
        } else {
            proof {
                assert(cand_cats(cur) == cand_cats(pre));
                assert forall|t: int| 0 <= t < cand_cats(cur).len() implies groups_of(cur)[t]
                    == groups_of(pre)[t] by {
                    assert(cat_members(cur, cand_cats(cur)[t]) == cat_members(
                        pre,
                        cand_cats(cur)[t],
                    ));
                }
                assert(groups_of(cur) =~= groups_of(pre));
            }
        }
        i += 1;
    }
    proof {
        assert(ms.take(i as int) =~= ms);
    }
    groups
}

/// Every tail of `tails` with `x` prepended.
pub open spec fn prepend_all(x: int, tails: Seq<Seq<int>>) -> Seq<Seq<int>> {
    tails.map_values(|t: Seq<int>| seq![x] + t)
}

/// Every way to prepend one element of `members` to one of `tails`.
pub open spec fn cross(members: Seq<int>, tails: Seq<Seq<int>>) -> Seq<Seq<int>>
    decreases members.len(),
{
    if members.len() == 0 {
        Seq::empty()
    } else {
        cross(members.drop_last(), tails) + prepend_all(members.last(), tails)
    }
}

/// Every selection of at most one member per group, in group order:
/// either a selection over the remaining groups, or a member of the
/// first group followed by one.
pub open spec fn sels(gs: Seq<Seq<int>>) -> Seq<Seq<int>>
    decreases gs.len(),
{
    if gs.len() == 0 {
        seq![Seq::<int>::empty()]
    } else {
        sels(gs.drop_first()) + cross(gs.first(), sels(gs.drop_first()))
    }
}

/// The groups' member lists.
pub open spec fn members_seq(gs: Seq<GroupView>) -> Seq<Seq<int>> {
    gs.map_values(|g: GroupView| g.members)
}

/// The index selections as mathematics.
pub open spec fn pviews(ps: Seq<Vec<usize>>) -> Seq<Seq<int>> {
    ps.map_values(|p: Vec<usize>| idxs(p@))
}

proof fn lemma_pviews_push(ps: Seq<Vec<usize>>, p: Vec<usize>)
    ensures
        pviews(ps.push(p)) =~= pviews(ps).push(idxs(p@)),
{
    assert forall|t: int| 0 <= t < ps.len() + 1 implies pviews(ps.push(p))[t] == pviews(ps).push(
        idxs(p@),
    )[t] by {
        if t < ps.len() {
            assert(ps.push(p)[t] == ps[t]);
        } else {
            assert(ps.push(p)[t] == p);
        }
    }
}

fn copy_indices(v: &Vec<usize>) -> (r: Vec<usize>)
    ensures
        r@ == v@,
{
    let mut r: Vec<usize> = Vec::new();
    let mut i: usize = 0;
    while i < v.len()
        invariant
            i <= v@.len(),
            r@ == v@.subrange(0, i as int),
        decreases v@.len() - i,
    {
        r.push(v[i]);
        proof {
            assert(r@ =~= v@.subrange(0, i + 1));
        }
        i += 1;
    }
    proof {
        assert(r@ =~= v@);
    }
    r
}

/// A pick takes at most one member from each group, in group order:
/// either it ignores the first group, or it starts with one of its
/// members.
pub open spec fn is_pick(gs: Seq<Seq<int>>, p: Seq<int>) -> bool
    decreases gs.len(),
{
    if gs.len() == 0 {
        p.len() == 0
    } else {
        is_pick(gs.drop_first(), p) || (p.len() > 0 && gs.first().contains(p.first()) && is_pick(
            gs.drop_first(),
            p.drop_first(),
        ))
    }
}

/// Each entry of a cross is one member prepended to one tail; yields
/// the two positions.
proof fn lemma_cross_elem(members: Seq<int>, tails: Seq<Seq<int>>, i: int) -> (r: (int, int))
    requires
        0 <= i < cross(members, tails).len(),
    ensures
        0 <= r.0 < members.len(),
        0 <= r.1 < tails.len(),
        cross(members, tails)[i] == seq![members[r.0]] + tails[r.1],
    decreases members.len(),
{
    let pre = cross(members.drop_last(), tails);
    if i < pre.len() {
        let r = lemma_cross_elem(members.drop_last(), tails, i);
        assert(members.drop_last()[r.0] == members[r.0]);
        r
    } else {
        let b = i - pre.len();
        assert(prepend_all(members.last(), tails)[b] == seq![members.last()] + tails[b]);
        (members.len() - 1, b)
    }
}

/// Every enumerated selection is a pick.
pub proof fn lemma_sels_sound(gs: Seq<Seq<int>>, i: int)
    requires
        0 <= i < sels(gs).len(),
    ensures
        is_pick(gs, sels(gs)[i]),
    decreases gs.len(),
{
    if gs.len() == 0 {
        assert(sels(gs)[i] == Seq::<int>::empty());
    } else {
        let rest = sels(gs.drop_first());
        if i < rest.len() {
            lemma_sels_sound(gs.drop_first(), i);
            assert(sels(gs)[i] == rest[i]);
        } else {
            let j = i - rest.len();
            let ab = lemma_cross_elem(gs.first(), rest, j);
            lemma_sels_sound(gs.drop_first(), ab.1);
            let p = sels(gs)[i];
            assert(p == cross(gs.first(), rest)[j]);
            assert(p == seq![gs.first()[ab.0]] + rest[ab.1]);
            assert(p.first() == gs.first()[ab.0]);
            assert(gs.first().contains(p.first()));
            assert(p.drop_first() =~= rest[ab.1]);
        }
    }
}

proof fn lemma_cross_complete(members: Seq<int>, tails: Seq<Seq<int>>, a: int, b: int)
    requires
        0 <= a < members.len(),
        0 <= b < tails.len(),
    ensures
        cross(members, tails).contains(seq![members[a]] + tails[b]),
    decreases members.len(),
{
    let pre = cross(members.drop_last(), tails);
    if a == members.len() - 1 {
        assert(prepend_all(members.last(), tails)[b] == seq![members.last()] + tails[b]);
        assert(cross(members, tails)[pre.len() + b] == seq![members[a]] + tails[b]);
    } else {
        assert(members.drop_last()[a] == members[a]);
        lemma_cross_complete(members.drop_last(), tails, a, b);
        let s = seq![members[a]] + tails[b];
        let k = choose|k: int| 0 <= k < pre.len() && pre[k] == s;
        assert(cross(members, tails)[k] == s);
    }
}

/// Every pick is enumerated.
pub proof fn lemma_sels_complete(gs: Seq<Seq<int>>, p: Seq<int>)
    requires
        is_pick(gs, p),
    ensures
        sels(gs).contains(p),
    decreases gs.len(),
{
    if gs.len() == 0 {
        assert(p =~= Seq::<int>::empty());
        assert(sels(gs)[0] == Seq::<int>::empty());
    } else {
        let rest = sels(gs.drop_first());
        if is_pick(gs.drop_first(), p) {
            lemma_sels_complete(gs.drop_first(), p);
            let k = choose|k: int| 0 <= k < rest.len() && rest[k] == p;
            assert(sels(gs)[k] == p);
        } else {
            lemma_sels_complete(gs.drop_first(), p.drop_first());
            let b = choose|b: int| 0 <= b < rest.len() && rest[b] == p.drop_first();
            let a = choose|a: int| 0 <= a < gs.first().len() && gs.first()[a] == p.first();
            lemma_cross_complete(gs.first(), rest, a, b);
            assert(seq![p.first()] + p.drop_first() =~= p);
            let s = seq![gs.first()[a]] + rest[b];
            let k = choose|k: int|
                0 <= k < cross(gs.first(), rest).len() && cross(gs.first(), rest)[k] == s;
            assert(sels(gs)[rest.len() + k] == s);
            assert(sels(gs).contains(p));
        }
    }
}

/// The empty selection is always enumerated.
pub proof fn lemma_sels_has_empty(gs: Seq<Seq<int>>)
    ensures
        sels(gs).contains(Seq::<int>::empty()),
    decreases gs.len(),
{
    if gs.len() == 0 {
        assert(sels(gs)[0] == Seq::<int>::empty());
    } else {
        lemma_sels_has_empty(gs.drop_first());
        let rest = sels(gs.drop_first());
        let k = choose|k: int| 0 <= k < rest.len() && rest[k] == Seq::<int>::empty();
        assert(sels(gs)[k] == Seq::<int>::empty());
    }
}

/// A pick over the groups of `ms` is a valid strike set, and each of
/// its entries sits in a group at or after position `j`.
pub proof fn lemma_pick_valid(ms: Seq<ModuleView>, j: int, p: Seq<int>)
    requires
        0 <= j <= groups_of(ms).len(),
        is_pick(members_seq(groups_of(ms)).skip(j), p),
    ensures
        valid_strike(ms, p),
        forall|k: int|
            0 <= k < p.len() ==> exists|g: int|
                j <= g < groups_of(ms).len() && (#[trigger] groups_of(ms)[g]).members.contains(
                    #[trigger] p[k],
                ),
    decreases groups_of(ms).len() - j,
{
    let gvs = groups_of(ms);
    let gseq = members_seq(gvs);
    lemma_cand_cats_distinct(ms);
    if j == gvs.len() {
        assert(gseq.skip(j).len() == 0);
        assert(p.len() == 0);
    } else {
        assert(gseq.skip(j).drop_first() =~= gseq.skip(j + 1));
        assert(gseq.skip(j).first() == gseq[j]);
        assert(gseq[j] == gvs[j].members);
        assert(gvs[j].members == cat_members(ms, cand_cats(ms)[j]));
        if is_pick(gseq.skip(j + 1), p) {
            lemma_pick_valid(ms, j + 1, p);
            assert forall|k: int| 0 <= k < p.len() implies exists|g: int|
                j <= g < gvs.len() && (#[trigger] gvs[g]).members.contains(#[trigger] p[k]) by {
                let g0 = choose|g: int|
                    j + 1 <= g < gvs.len() && (#[trigger] gvs[g]).members.contains(p[k]);
                assert(j <= g0 < gvs.len() && gvs[g0].members.contains(p[k]));
            }
        } else {
            let e = p.first();
            let p2 = p.drop_first();
            assert(gvs[j].members.contains(e));
            lemma_cat_members_sound(ms, cand_cats(ms)[j]);
            assert(0 <= e < ms.len() && is_candidate(ms[e]) && ms[e].category == cand_cats(ms)[j]);
            lemma_pick_valid(ms, j + 1, p2);
            assert forall|k: int| 0 <= k < p.len() implies exists|g: int|
                j <= g < gvs.len() && (#[trigger] gvs[g]).members.contains(#[trigger] p[k]) by {
                if k == 0 {
                    assert(j <= j < gvs.len() && gvs[j].members.contains(p[0]));
                } else {
                    assert(p[k] == p2[k - 1]);
                    let g0 = choose|g: int|
                        j + 1 <= g < gvs.len() && (#[trigger] gvs[g]).members.contains(p2[k - 1]);
                    assert(j <= g0 < gvs.len() && gvs[g0].members.contains(p[k]));
                }
            }
            // categories of later entries differ from the first entry's
            assert forall|k2: int| 1 <= k2 < p.len() implies ms[p[0]].category
                != ms[#[trigger] p[k2]].category by {
                let g0 = choose|g: int|
                    j + 1 <= g < gvs.len() && (#[trigger] gvs[g]).members.contains(p2[k2 - 1]);
                lemma_cat_members_sound(ms, cand_cats(ms)[g0]);
                assert(gvs[g0].members == cat_members(ms, cand_cats(ms)[g0]));
                assert(p[k2] == p2[k2 - 1]);
                assert(ms[p[k2]].category == cand_cats(ms)[g0]);
                assert(cand_cats(ms)[j] != cand_cats(ms)[g0]);
            }
            assert(valid_strike(ms, p)) by {
                assert(forall|k: int| 1 <= k < p.len() ==> #[trigger] p[k] == p2[k - 1]);
                assert forall|k1: int, k2: int| 0 <= k1 < k2 < p.len() implies
                    ms[#[trigger] p[k1]].category != ms[#[trigger] p[k2]].category by {
                    if k1 > 0 {
                        assert(ms[p2[k1 - 1]].category != ms[p2[k2 - 1]].category);
                    }
                }
            }
        }
    }
}

/// Credits split off one entry at a time.
proof fn lemma_struck_credits_remove(ms: Seq<ModuleView>, s: Seq<int>, k: int)
    requires
        0 <= k < s.len(),
    ensures
        struck_credits(ms, s) == struck_credits(ms, s.remove(k)) + ms[s[k]].credits,
    decreases s.len(),
{
    if k == s.len() - 1 {
        assert(s.remove(k) =~= s.drop_last());
    } else {
        lemma_struck_credits_remove(ms, s.drop_last(), k);
        assert(s.remove(k).drop_last() =~= s.drop_last().remove(k));
        assert(s.remove(k).last() == s.last());
        assert(s.drop_last()[k] == s[k]);
    }
}

/// Removing one entry keeps a strike set valid.
proof fn lemma_valid_strike_remove(ms: Seq<ModuleView>, s: Seq<int>, k: int)
    requires
        0 <= k < s.len(),
        valid_strike(ms, s),
    ensures
        valid_strike(ms, s.remove(k)),
{
    let s2 = s.remove(k);
    assert forall|t: int| 0 <= t < s2.len() implies 0 <= #[trigger] s2[t] < ms.len()
        && is_candidate(ms[s2[t]]) by {
        if t < k {
            assert(s2[t] == s[t]);
        } else {
            assert(s2[t] == s[t + 1]);
        }
    }
    assert forall|t1: int, t2: int| 0 <= t1 < t2 < s2.len() implies
        ms[#[trigger] s2[t1]].category != ms[#[trigger] s2[t2]].category by {
        let u1: int = if t1 < k {
            t1
        } else {
            t1 + 1
        };
        let u2: int = if t2 < k {
            t2
        } else {
            t2 + 1
        };
        assert(s2[t1] == s[u1]);
        assert(s2[t2] == s[u2]);
    }
}

/// The position of a category in the candidate category list.
pub open spec fn cat_index(ms: Seq<ModuleView>, cat: Seq<char>) -> int {
    choose|g: int| 0 <= g < cand_cats(ms).len() && cand_cats(ms)[g] == cat
}

/// Every entry of `s` belongs to a category whose group sits at or
/// after position `j`.
pub open spec fn entries_from(ms: Seq<ModuleView>, j: int, s: Seq<int>) -> bool {
    forall|k: int|
        0 <= k < s.len() ==> j <= #[trigger] cat_index(ms, ms[s[k]].category)
}

/// For a candidate, `cat_index` names its category's position.
proof fn lemma_cat_index(ms: Seq<ModuleView>, e: int)
    requires
        0 <= e < ms.len(),
        is_candidate(ms[e]),
    ensures
        0 <= cat_index(ms, ms[e].category) < cand_cats(ms).len(),
        cand_cats(ms)[cat_index(ms, ms[e].category)] == ms[e].category,
        groups_of(ms)[cat_index(ms, ms[e].category)].members.contains(e),
{
    lemma_candidate_in_group(ms, e);
    let cat = ms[e].category;
    let w = choose|g: int| 0 <= g < cand_cats(ms).len() && cand_cats(ms)[g] == cat;
    assert(cand_cats(ms).contains(cat));
    assert(cand_cats(ms)[w] == cat);
    assert(0 <= cat_index(ms, cat) < cand_cats(ms).len() && cand_cats(ms)[cat_index(ms, cat)]
        == cat);
    assert(groups_of(ms)[cat_index(ms, cat)].members == cat_members(ms, cat));
}

/// Every valid strike set has an equivalent canonical pick: same
/// entries, same credit total.
pub proof fn lemma_canonical_pick(ms: Seq<ModuleView>, j: int, s: Seq<int>) -> (p: Seq<int>)
    requires
        0 <= j <= groups_of(ms).len(),
        valid_strike(ms, s),
        entries_from(ms, j, s),
    ensures
        is_pick(members_seq(groups_of(ms)).skip(j), p),
        forall|e: int| p.contains(e) <==> s.contains(e),
        struck_credits(ms, p) == struck_credits(ms, s),
    decreases groups_of(ms).len() - j,
{
    let gvs = groups_of(ms);
    let gseq = members_seq(gvs);
    lemma_cand_cats_distinct(ms);
    if j == gvs.len() {
        assert(gseq.skip(j).len() == 0);
        if s.len() > 0 {
            lemma_cat_index(ms, s[0]);
            assert(false);
        }
        assert(s =~= Seq::<int>::empty());
        let p = Seq::<int>::empty();
        assert(forall|e: int| !p.contains(e) && !s.contains(e));
        p
    } else {
        assert(gseq.skip(j).drop_first() =~= gseq.skip(j + 1));
        assert(gseq.skip(j).first() == gseq[j]);
        assert(gseq[j] == gvs[j].members);
        assert(gvs[j].members == cat_members(ms, cand_cats(ms)[j]));
        lemma_cat_members_sound(ms, cand_cats(ms)[j]);
        if exists|k: int| 0 <= k < s.len() && #[trigger] cat_index(ms, ms[s[k]].category) == j {
            let idx = choose|k: int|
                0 <= k < s.len() && #[trigger] cat_index(ms, ms[s[k]].category) == j;
            let e = s[idx];
            lemma_cat_index(ms, e);
            assert(ms[e].category == cand_cats(ms)[j]);
            assert(gvs[j].members.contains(e));
            let s2 = s.remove(idx);
            lemma_valid_strike_remove(ms, s, idx);
            lemma_struck_credits_remove(ms, s, idx);
            // the remaining entries sit in strictly later groups
            assert forall|k: int| 0 <= k < s2.len() implies j + 1 <= #[trigger] cat_index(
                ms,
                ms[s2[k]].category,
            ) by {
                let u: int = if k < idx {
                    k
                } else {
                    k + 1
                };
                assert(s2[k] == s[u]);
                assert(j <= cat_index(ms, ms[s[u]].category));
                if cat_index(ms, ms[s[u]].category) == j {
                    lemma_cat_index(ms, s[u]);
                    assert(ms[s[u]].category == cand_cats(ms)[j]);
                    assert(u != idx);
                    if u < idx {
                        assert(ms[s[u]].category != ms[s[idx]].category);
                    } else {
                        assert(ms[s[idx]].category != ms[s[u]].category);
                    }
                    assert(false);
                }
            }
            assert(entries_from(ms, j + 1, s2));
            let p2 = lemma_canonical_pick(ms, j + 1, s2);
            let p = seq![e] + p2;
            assert(p.first() == e);
            assert(p.drop_first() =~= p2);
            assert(is_pick(gseq.skip(j), p));
            lemma_struck_credits_remove(ms, p, 0);
            assert(p.remove(0) =~= p2);
            assert(struck_credits(ms, p) == struck_credits(ms, p2) + ms[e].credits);
            assert forall|x: int| p.contains(x) <==> s.contains(x) by {
                if p.contains(x) {
                    let t = choose|t: int| 0 <= t < p.len() && p[t] == x;
                    if t == 0 {
                        assert(s[idx] == x);
                    } else {
                        assert(p2[t - 1] == x);
                        assert(s2.contains(x));
                        let w = choose|w: int| 0 <= w < s2.len() && s2[w] == x;
                        let u: int = if w < idx {
                            w
                        } else {
                            w + 1
                        };
                        assert(s[u] == x);
                    }
                }
                if s.contains(x) {
                    let u = choose|u: int| 0 <= u < s.len() && s[u] == x;
                    if u == idx {
                        assert(p[0] == x);
                    } else {
                        let w: int = if u < idx {
                            u
                        } else {
                            u - 1
                        };
                        assert(s2[w] == x);
                        assert(p2.contains(x));
                        let t = choose|t: int| 0 <= t < p2.len() && p2[t] == x;
                        assert(p[t + 1] == x);
                    }
                }
            }
            p
        } else {
            assert forall|k: int| 0 <= k < s.len() implies j + 1 <= #[trigger] cat_index(
                ms,
                ms[s[k]].category,
            ) by {
                assert(j <= cat_index(ms, ms[s[k]].category));
                assert(cat_index(ms, ms[s[k]].category) != j);
            }
            assert(entries_from(ms, j + 1, s));
            let p = lemma_canonical_pick(ms, j + 1, s);
            assert(is_pick(gseq.skip(j), p));
            p
        }
    }
}

/// Every valid strike set has a canonical pick over all groups.
pub proof fn lemma_valid_strike_pick(ms: Seq<ModuleView>, s: Seq<int>) -> (p: Seq<int>)
    requires
        valid_strike(ms, s),
    ensures
        is_pick(members_seq(groups_of(ms)), p),
        forall|e: int| p.contains(e) <==> s.contains(e),
        struck_credits(ms, p) == struck_credits(ms, s),
{
    assert forall|k: int| 0 <= k < s.len() implies 0 <= #[trigger] cat_index(
        ms,
        ms[s[k]].category,
    ) by {
        lemma_cat_index(ms, s[k]);
    }
    assert(entries_from(ms, 0, s));
    let p = lemma_canonical_pick(ms, 0, s);
    assert(members_seq(groups_of(ms)).skip(0) =~= members_seq(groups_of(ms)));
    p
}

/// The labels struck by two strike sets with the same entries have the
/// same membership.
pub proof fn lemma_labels_membership(ms: Seq<ModuleView>, p: Seq<int>, s: Seq<int>)
    requires
        forall|e: int| p.contains(e) <==> s.contains(e),
    ensures
        forall|x: Seq<char>| labels_of(ms, p).contains(x) <==> labels_of(ms, s).contains(x),
{
    assert forall|x: Seq<char>| labels_of(ms, p).contains(x) <==> labels_of(ms, s).contains(
        x,
    ) by {
        if labels_of(ms, p).contains(x) {
            let k = choose|k: int| 0 <= k < p.len() && labels_of(ms, p)[k] == x;
            assert(labels_of(ms, p)[k] == ms[p[k]].label);
            assert(p.contains(p[k]));
            assert(s.contains(p[k]));
            let u = choose|u: int| 0 <= u < s.len() && s[u] == p[k];
            assert(labels_of(ms, s)[u] == x);
            assert(labels_of(ms, s).contains(x));
        }
        if labels_of(ms, s).contains(x) {
            let k = choose|k: int| 0 <= k < s.len() && labels_of(ms, s)[k] == x;
            assert(labels_of(ms, s)[k] == ms[s[k]].label);
            assert(s.contains(s[k]));
            assert(p.contains(s[k]));
            let u = choose|u: int| 0 <= u < p.len() && p[u] == s[k];
            assert(labels_of(ms, p)[u] == x);
            assert(labels_of(ms, p).contains(x));
        }
    }
}

/// Enumerates every selection over the groups from position `from` on.
pub fn picks_from(groups: &Vec<Group>, from: usize) -> (r: Vec<Vec<usize>>)
    requires
        from <= groups@.len(),
    ensures
        pviews(r@) == sels(members_seq(gviews(groups@)).skip(from as int)),
    decreases groups@.len() - from,
{
    let ghost gs = members_seq(gviews(groups@));
    if from == groups.len() {
        let mut r: Vec<Vec<usize>> = Vec::new();
        let empty_pick: Vec<usize> = Vec::new();
        let ghost ep = empty_pick;
        r.push(empty_pick);
        proof {
            assert(gs.skip(from as int).len() == 0);
            lemma_pviews_push(Seq::<Vec<usize>>::empty(), ep);
            assert(r@ =~= Seq::<Vec<usize>>::empty().push(ep));
            assert(pviews(Seq::<Vec<usize>>::empty()) =~= Seq::<Seq<int>>::empty());
            assert(idxs(ep@) =~= Seq::<int>::empty());
            assert(pviews(r@) =~= seq![Seq::<int>::empty()]);
            assert(pviews(r@) =~= sels(gs.skip(from as int)));
        }
        return r;
    }
    let tails = picks_from(groups, from + 1);
    let ghost tv = pviews(tails@);
    proof {
        assert(gs.skip(from as int).drop_first() =~= gs.skip(from + 1));
        assert(gs.skip(from as int).first() == gs[from as int]);
        assert(gs[from as int] == gviews(groups@)[from as int].members);
        assert(gviews(groups@)[from as int] == groups@[from as int]@);
    }
    let mut r: Vec<Vec<usize>> = Vec::new();
    let mut k: usize = 0;
    while k < tails.len()
        invariant
            tv == pviews(tails@),
            tv.len() == tails@.len(),
            k <= tails@.len(),
            pviews(r@) == tv.take(k as int),
        decreases tails@.len() - k,
    {
        let copied = copy_indices(&tails[k]);
        let ghost cg = copied;
        let ghost rold = r@;
        proof {
            assert(idxs(cg@) == idxs(tails@[k as int]@));
            assert(tv[k as int] == idxs(tails@[k as int]@));
        }
        r.push(copied);
        k += 1;
        proof {
            lemma_pviews_push(rold, cg);
            assert(r@ == rold.push(cg));
            assert(pviews(r@) =~= tv.take(k as int));
        }
    }
    proof {
        assert(tv.take(tails@.len() as int) =~= tv);
    }
    let members = copy_indices(&groups[from].members);
    let ghost mv = idxs(members@);
    proof {
        assert(mv == gs[from as int]);
        assert(cross(mv.take(0), tv) =~= Seq::<Seq<int>>::empty());
        assert(pviews(r@) =~= tv + cross(mv.take(0), tv));
    }
    let mut a: usize = 0;
    while a < members.len()
        invariant
            tv == pviews(tails@),
            tv.len() == tails@.len(),
            mv == idxs(members@),
            mv.len() == members@.len(),
            a <= members@.len(),
            pviews(r@) == tv + cross(mv.take(a as int), tv),
        decreases members@.len() - a,
    {
        let ghost crossed = cross(mv.take(a as int), tv);
        let x = members[a];
        let mut b: usize = 0;
        while b < tails.len()
            invariant
                tv == pviews(tails@),
                tv.len() == tails@.len(),
                mv == idxs(members@),
                mv.len() == members@.len(),
                a < members@.len(),
                x == members@[a as int],
                mv[a as int] == x as int,
                b <= tails@.len(),
                pviews(r@) == tv + crossed + prepend_all(x as int, tv).take(b as int),
            decreases tails@.len() - b,
        {
            let mut nv: Vec<usize> = Vec::new();
            nv.push(x);
            let tail = &tails[b];
            let mut c: usize = 0;
            while c < tail.len()
                invariant
                    c <= tail@.len(),
                    nv@.len() == c + 1,
                    nv@[0] == x,
                    forall|q: int| 0 <= q < c ==> nv@[q + 1] == #[trigger] tail@[q],
                decreases tail@.len() - c,
            {
                nv.push(tail[c]);
                c += 1;
            }
            let ghost nvg = nv;
            let ghost rold = r@;
            proof {
                assert(idxs(nvg@) =~= seq![x as int] + idxs(tails@[b as int]@));
                assert(tv[b as int] == idxs(tails@[b as int]@));
                assert(prepend_all(x as int, tv)[b as int] == seq![x as int] + tv[b as int]);
            }
            r.push(nv);
            b += 1;
            proof {
                lemma_pviews_push(rold, nvg);
                assert(r@ == rold.push(nvg));
                assert(prepend_all(x as int, tv).take(b as int) =~= prepend_all(
                    x as int,
                    tv,
                ).take(b - 1).push(prepend_all(x as int, tv)[b - 1]));
                assert(pviews(r@) =~= tv + crossed + prepend_all(x as int, tv).take(b as int));
            }
        }
        a += 1;
        proof {
            assert(prepend_all(x as int, tv).take(tails@.len() as int) =~= prepend_all(
                x as int,
                tv,
            ));
            assert(mv.take(a as int).drop_last() =~= mv.take(a - 1));
            assert(mv.take(a as int).last() == mv[a - 1]);
            assert(cross(mv.take(a as int), tv) == cross(mv.take(a - 1), tv) + prepend_all(
                mv[a - 1],
                tv,
            ));
            assert(pviews(r@) =~= tv + cross(mv.take(a as int), tv));
        }
    }
    proof {
        assert(mv.take(members@.len() as int) =~= mv);
        assert(pviews(r@) =~= sels(gs.skip(from as int)));
    }
    r
}


/// A strike set is admissible when it is valid and its credit total
/// stays within the cap.
pub open spec fn admissible(ms: Seq<ModuleView>, s: Seq<int>) -> bool {
    valid_strike(ms, s) && struck_credits(ms, s) <= crate::STRIKE_CAP_CENTI as int
}

/// `b` is at most the average of every admissible strike set.
pub open spec fn is_best_avg(ms: Seq<ModuleView>, b: AverageView) -> bool {
    forall|s: Seq<int>|
        #[trigger] admissible(ms, s) ==> avg_le(b, eval_avg(ms, labels_of(ms, s)))
}

/// Two label lists that strike the same labels.
pub open spec fn same_members(l1: Seq<Seq<char>>, l2: Seq<Seq<char>>) -> bool {
    forall|x: Seq<char>| l1.contains(x) <==> l2.contains(x)
}

/// One stored evaluation: the labels and average of the admissible
/// pick at position `q`.
pub open spec fn stored_entry(
    ms: Seq<ModuleView>,
    pvs: Seq<Seq<int>>,
    combo: Seq<Seq<char>>,
    av: AverageView,
    q: int,
) -> bool {
    &&& 0 <= q < pvs.len()
    &&& struck_credits(ms, pvs[q]) <= crate::STRIKE_CAP_CENTI as int
    &&& combo == labels_of(ms, pvs[q])
    &&& av == eval_avg(ms, labels_of(ms, pvs[q]))
}

fn pick_credits(modules: &Vec<Module>, pick: &Vec<usize>) -> (r: u128)
    requires
        crate::records::records_wf(crate::records::views(modules@)),
        forall|k: int|
            0 <= k < pick@.len() ==> (#[trigger] pick@[k]) < modules@.len(),
    ensures
        r == struck_credits(crate::records::views(modules@), idxs(pick@)),
{
    let ghost ms = crate::records::views(modules@);
    let ghost pv = idxs(pick@);
    let mut acc: u128 = 0;
    let mut k: usize = 0;
    proof {
        assert(pv.take(0) =~= Seq::<int>::empty());
    }
    while k < pick.len()
        invariant
            ms == crate::records::views(modules@),
            pv == idxs(pick@),
            crate::records::records_wf(ms),
            ms.len() == modules@.len(),
            pv.len() == pick@.len(),
            forall|t: int| 0 <= t < pick@.len() ==> (#[trigger] pick@[t]) < modules@.len(),
            k <= pick@.len(),
            acc == struck_credits(ms, pv.take(k as int)),
            acc <= (k as int) * 100000,
        decreases pick@.len() - k,
    {
        let e = pick[k];
        proof {
            assert(pv[k as int] == pick@[k as int] as int);
            assert(pv.take(k + 1).drop_last() =~= pv.take(k as int));
            assert(pv.take(k + 1).last() == pv[k as int]);
            assert(ms[e as int] == modules@[e as int]@);
            assert(crate::records::module_wf(ms[e as int]));
            assert((k as int) * 100000 + 100000 == (k + 1) * 100000) by (nonlinear_arith);
            assert((k + 1) * 100000 <= 0x10000000000000000 * 100000) by (nonlinear_arith)
                requires
                    k + 1 <= 0x10000000000000000,
            ;
        }
        acc = acc + (modules[e].credits as u128);
        k += 1;
    }
    proof {
        assert(pv.take(k as int) =~= pv);
    }
    acc
}

fn pick_labels(modules: &Vec<Module>, pick: &Vec<usize>) -> (r: Vec<String>)
    requires
        forall|k: int|
            0 <= k < pick@.len() ==> (#[trigger] pick@[k]) < modules@.len(),
    ensures
        r.deep_view() == labels_of(crate::records::views(modules@), idxs(pick@)),
{
    let ghost ms = crate::records::views(modules@);
    let ghost pv = idxs(pick@);
    let mut r: Vec<String> = Vec::new();
    let mut k: usize = 0;
    while k < pick.len()
        invariant
            ms == crate::records::views(modules@),
            pv == idxs(pick@),
            ms.len() == modules@.len(),
            pv.len() == pick@.len(),
            forall|t: int| 0 <= t < pick@.len() ==> (#[trigger] pick@[t]) < modules@.len(),
            k <= pick@.len(),
            r@.len() == k,
            forall|t: int| 0 <= t < k ==> r@[t]@ == ms[#[trigger] pv[t]].label,
        decreases pick@.len() - k,
    {
        let e = pick[k];
        let lab = modules[e].label.clone();
        proof {
            assert(pv[k as int] == pick@[k as int] as int);
            assert(ms[e as int] == modules@[e as int]@);
            assert(lab@ == ms[e as int].label);
        }
        r.push(lab);
        k += 1;
    }
    proof {
        assert forall|t: int| 0 <= t < pv.len() implies r.deep_view()[t] == labels_of(ms, pv)[t] by {
            assert(labels_of(ms, pv)[t] == ms[pv[t]].label);
            assert(r.deep_view()[t] == r@[t]@);
        }
        assert(r.deep_view() =~= labels_of(ms, pv));
    }
    r
}


/// The evaluation table is sound and complete for the admissible picks
/// of `pvs`: row `t` evaluates the admissible pick `qmap[t]`, and every
/// admissible pick `q` is evaluated at row `tmap[q]`.
pub open spec fn eval_table_ok(
    ms: Seq<ModuleView>,
    pvs: Seq<Seq<int>>,
    combosv: Seq<Vec<String>>,
    avgsv: Seq<Average>,
    qmap: Seq<int>,
    tmap: Seq<int>,
) -> bool {
    &&& combosv.len() == avgsv.len()
    &&& qmap.len() == avgsv.len()
    &&& tmap.len() == pvs.len()
    &&& forall|t: int| 0 <= t < avgsv.len() ==> avg_wf((#[trigger] avgsv[t])@)
    &&& forall|t: int|
        0 <= t < avgsv.len() ==> stored_entry(
            ms,
            pvs,
            (#[trigger] combosv[t]).deep_view(),
            avgsv[t]@,
            qmap[t],
        )
    &&& forall|q: int|
        0 <= q < pvs.len() && struck_credits(ms, #[trigger] pvs[q])
            <= crate::STRIKE_CAP_CENTI as int ==> 0 <= tmap[q] < avgsv.len() && stored_entry(
            ms,
            pvs,
            combosv[tmap[q]].deep_view(),
            avgsv[tmap[q]]@,
            q,
        )
}

/// `best` is the table's average at `bt` and at most all of them.
pub open spec fn min_of_table(avgsv: Seq<Average>, best: AverageView, bt: int) -> bool {
    &&& 0 <= bt < avgsv.len() && best == avgsv[bt]@
    &&& forall|t: int| 0 <= t < avgsv.len() ==> avg_le(best, (#[trigger] avgsv[t])@)
}

/// `resultv` holds exactly the distinct label lists of the table rows
/// whose average equals `best`: entry `i` copies row `wmap[i]`, and a
/// winning row `t` is copied at entry `imap[t]`.
pub open spec fn winners_ok(
    combosv: Seq<Vec<String>>,
    avgsv: Seq<Average>,
    best: AverageView,
    resultv: Seq<Vec<String>>,
    wmap: Seq<int>,
    imap: Seq<int>,
) -> bool {
    &&& wmap.len() == resultv.len()
    &&& imap.len() == avgsv.len()
    &&& forall|i: int, j: int|
        0 <= i < j < resultv.len() ==> (#[trigger] resultv[i]).deep_view() != (
        #[trigger] resultv[j]).deep_view()
    &&& forall|i: int|
        0 <= i < resultv.len() ==> 0 <= #[trigger] wmap[i] < avgsv.len() && resultv[i].deep_view()
            == combosv[wmap[i]].deep_view() && avg_eq(avgsv[wmap[i]]@, best)
    &&& forall|t: int|
        0 <= t < avgsv.len() && avg_eq((#[trigger] avgsv[t])@, best) ==> 0 <= imap[t]
            < resultv.len() && resultv[imap[t]].deep_view() == combosv[t].deep_view()
}

/// What the strike search promises: the best average is minimal over
/// all admissible strike sets and attained by one; each reported
/// combination is the label list of a winning admissible strike set;
/// every winning admissible strike set is represented up to label
/// membership; and no combination is reported twice.
pub open spec fn report_ok(
    ms: Seq<ModuleView>,
    best: AverageView,
    combs: Seq<Vec<String>>,
    sets: Seq<Seq<int>>,
) -> bool {
    &&& is_best_avg(ms, best)
    &&& exists|s: Seq<int>| #[trigger] admissible(ms, s) && eval_avg(ms, labels_of(ms, s)) == best
    &&& sets.len() == combs.len()
    &&& forall|i: int|
        0 <= i < combs.len() ==> admissible(ms, #[trigger] sets[i]) && combs[i].deep_view()
            == labels_of(ms, sets[i]) && avg_eq(eval_avg(ms, labels_of(ms, sets[i])), best)
    &&& forall|s: Seq<int>|
        #![trigger admissible(ms, s)]
        admissible(ms, s) && avg_eq(eval_avg(ms, labels_of(ms, s)), best) ==> exists|i: int|
            #![trigger combs[i]]
            0 <= i < combs.len() && same_members(combs[i].deep_view(), labels_of(ms, s))
    &&& forall|i: int, j: int|
        0 <= i < j < combs.len() ==> (#[trigger] combs[i]).deep_view() != (
        #[trigger] combs[j]).deep_view()
}

/// The result of the strike search: the best attainable average, and
/// every set of struck labels that attains it.
pub struct StrikeReport {
    pub best: Average,
    pub combinations: Vec<Vec<String>>,
    /// For each reported combination, an admissible strike set it
    /// struck (a witness for the contract; carries no runtime data).
    pub strike_sets: Ghost<Seq<Seq<int>>>,
}

/// Evaluates every admissible pick: its struck labels and its average.
fn evaluate_admissible(modules: &Vec<Module>, groups: &Vec<Group>, picks: &Vec<Vec<usize>>) -> (r:
    (Vec<Vec<String>>, Vec<Average>, Ghost<Seq<int>>, Ghost<Seq<int>>))
    requires
        crate::records::records_wf(crate::records::views(modules@)),
        modules@.len() <= crate::MAX_RECORDS as int,
        gviews(groups@) == groups_of(crate::records::views(modules@)),
        pviews(picks@) == sels(members_seq(gviews(groups@))),
    ensures
        eval_table_ok(
            crate::records::views(modules@),
            pviews(picks@),
            r.0@,
            r.1@,
            r.2@,
            r.3@,
        ),
{
    let ghost ms = crate::records::views(modules@);
    let ghost gseq = members_seq(gviews(groups@));
    let ghost pvs = pviews(picks@);
    let mut combos: Vec<Vec<String>> = Vec::new();
    let mut avgs: Vec<Average> = Vec::new();
    let ghost mut qmap: Seq<int> = Seq::empty();
    let ghost mut tmap: Seq<int> = Seq::empty();
    let mut k: usize = 0;
    while k < picks.len()
        invariant
            ms == crate::records::views(modules@),
            crate::records::records_wf(ms),
            ms.len() == modules@.len() <= crate::MAX_RECORDS as int,
            gviews(groups@) == groups_of(ms),
            gseq == members_seq(gviews(groups@)),
            pvs == pviews(picks@),
            pvs == sels(gseq),
            pvs.len() == picks@.len(),
            k <= picks@.len(),
            combos@.len() == avgs@.len(),
            qmap.len() == avgs@.len(),
            tmap.len() == k,
            forall|t: int| 0 <= t < avgs@.len() ==> avg_wf((#[trigger] avgs@[t])@),
            forall|t: int|
                0 <= t < avgs@.len() ==> stored_entry(
                    ms,
                    pvs,
                    (#[trigger] combos@[t]).deep_view(),
                    avgs@[t]@,
                    qmap[t],
                ),
            forall|q: int|
                0 <= q < k && struck_credits(ms, #[trigger] pvs[q])
                    <= crate::STRIKE_CAP_CENTI as int ==> 0 <= tmap[q] < avgs@.len()
                    && stored_entry(
                    ms,
                    pvs,
                    combos@[tmap[q]].deep_view(),
                    avgs@[tmap[q]]@,
                    q,
                ),
        decreases picks@.len() - k,
    {
        proof {
            lemma_sels_sound(gseq, k as int);
            assert(members_seq(groups_of(ms)).skip(0) =~= gseq);
            lemma_pick_valid(ms, 0, pvs[k as int]);
            assert(pvs[k as int] == idxs(picks@[k as int]@));
            assert forall|t: int| 0 <= t < picks@[k as int]@.len() implies
                (#[trigger] picks@[k as int]@[t]) < modules@.len() by {
                assert(idxs(picks@[k as int]@)[t] == picks@[k as int]@[t] as int);
                assert(0 <= pvs[k as int][t] < ms.len());
            }
        }
        let c = pick_credits(modules, &picks[k]);
        if c <= 3000 {
            let labels = pick_labels(modules, &picks[k]);
            let avg = calculate_grade(modules, &labels);
            let ghost lg = labels;
            let ghost combos_old = combos@;
            let ghost avgs_old = avgs@;
            combos.push(labels);
            avgs.push(avg);
            proof {
                qmap = qmap.push(k as int);
                tmap = tmap.push(avgs@.len() - 1);
                assert(combos@ == combos_old.push(lg));
                assert(avgs@ == avgs_old.push(avg));
                assert(labels_of(ms, pvs[k as int]) == lg.deep_view());
                assert(stored_entry(ms, pvs, lg.deep_view(), avg@, k as int));
                assert forall|t: int| 0 <= t < avgs@.len() implies stored_entry(
                    ms,
                    pvs,
                    (#[trigger] combos@[t]).deep_view(),
                    avgs@[t]@,
                    qmap[t],
                ) by {
                    if t < avgs@.len() - 1 {
                        assert(combos@[t] == combos_old[t]);
                        assert(avgs@[t] == avgs_old[t]);
                    } else {
                        assert(combos@[t] == lg && avgs@[t] == avg);
                        assert(qmap[t] == k as int);
                    }
                }
                assert forall|q: int|
                    0 <= q < k + 1 && struck_credits(ms, #[trigger] pvs[q])
                        <= crate::STRIKE_CAP_CENTI as int implies 0 <= tmap[q] < avgs@.len()
                    && stored_entry(
                    ms,
                    pvs,
                    combos@[tmap[q]].deep_view(),
                    avgs@[tmap[q]]@,
                    q,
                ) by {
                    if q < k {
                        assert(combos@[tmap[q]] == combos_old[tmap[q]]);
                        assert(avgs@[tmap[q]] == avgs_old[tmap[q]]);
                    } else {
                        assert(tmap[q] == avgs@.len() - 1);
                        assert(combos@[tmap[q]] == lg && avgs@[tmap[q]] == avg);
                    }
                }
            }
        } else {
            proof {
                tmap = tmap.push(-1);
                assert(struck_credits(ms, pvs[k as int]) > crate::STRIKE_CAP_CENTI as int);
            }
        }
        k += 1;
    }
    let ghost qm = qmap;
    let ghost tm = tmap;
    (combos, avgs, Ghost(qm), Ghost(tm))
}

/// The minimal average of a non-empty list, and its position.
fn select_min(avgs: &Vec<Average>) -> (r: (Average, Ghost<int>))
    requires
        avgs@.len() >= 1,
        forall|t: int| 0 <= t < avgs@.len() ==> avg_wf((#[trigger] avgs@[t])@),
    ensures
        avg_wf(r.0@),
        min_of_table(avgs@, r.0@, r.1@),
{
    let mut best: Average = avgs[0];
    let ghost mut best_t: int = 0;
    let mut k2: usize = 1;
    proof {
        lemma_avg_le_refl(best@);
    }
    while k2 < avgs.len()
        invariant
            1 <= k2 <= avgs@.len(),
            avgs@.len() >= 1,
            forall|t: int| 0 <= t < avgs@.len() ==> avg_wf((#[trigger] avgs@[t])@),
            0 <= best_t < avgs@.len(),
            best@ == avgs@[best_t]@,
            avg_wf(best@),
            forall|t: int| 0 <= t < k2 ==> avg_le(best@, (#[trigger] avgs@[t])@),
        decreases avgs@.len() - k2,
    {
        let cand = avgs[k2];
        if avg_le_exec(&cand, &best) {
            proof {
                assert forall|t: int| 0 <= t < k2 + 1 implies avg_le(
                    cand@,
                    (#[trigger] avgs@[t])@,
                ) by {
                    if t < k2 {
                        lemma_avg_le_trans(cand@, best@, avgs@[t]@);
                    } else {
                        lemma_avg_le_refl(cand@);
                    }
                }
            }
            best = cand;
            proof {
                best_t = k2 as int;
            }
        } else {
            proof {
                lemma_avg_le_total(best@, cand@);
            }
        }
        k2 += 1;
    }
    let ghost bt = best_t;
    (best, Ghost(bt))
}

/// The distinct label lists whose average equals `best`.
fn collect_winners(combos: &Vec<Vec<String>>, avgs: &Vec<Average>, best: &Average) -> (r: (
    Vec<Vec<String>>,
    Ghost<Seq<int>>,
    Ghost<Seq<int>>,
))
    requires
        combos@.len() == avgs@.len(),
        forall|t: int| 0 <= t < avgs@.len() ==> avg_wf((#[trigger] avgs@[t])@),
        avg_wf(best@),
    ensures
        winners_ok(combos@, avgs@, best@, r.0@, r.1@, r.2@),
{
    let ghost bestv = best@;
    let best = *best;
    let mut result: Vec<Vec<String>> = Vec::new();
    let ghost mut wmap: Seq<int> = Seq::empty();
    let ghost mut imap: Seq<int> = Seq::empty();
    let mut k3: usize = 0;
    while k3 < avgs.len()
        invariant
            combos@.len() == avgs@.len(),
            forall|t: int| 0 <= t < avgs@.len() ==> avg_wf((#[trigger] avgs@[t])@),
            avg_wf(best@),
            best@ == bestv,
            k3 <= avgs@.len(),
            wmap.len() == result@.len(),
            imap.len() == k3,
            forall|i: int, j: int|
                0 <= i < j < result@.len() ==> (#[trigger] result@[i]).deep_view() != (
                #[trigger] result@[j]).deep_view(),
            forall|i: int|
                0 <= i < result@.len() ==> 0 <= #[trigger] wmap[i] < avgs@.len() && result@[
                    i
                ].deep_view() == combos@[wmap[i]].deep_view() && avg_eq(avgs@[wmap[i]]@, best@),
            forall|t: int|
                0 <= t < k3 && avg_eq((#[trigger] avgs@[t])@, best@) ==> 0 <= imap[t]
                    < result@.len() && result@[imap[t]].deep_view() == combos@[t].deep_view(),
        decreases avgs@.len() - k3,
    {
        let cand = avgs[k3];
        if avg_eq_exec(&cand, &best) {
            match find_combo(&result, &combos[k3]) {
                Some(i0) => {
                    proof {
                        imap = imap.push(i0 as int);
                    }
                },
                None => {
                    let copied = crate::text::clone_string_vec(&combos[k3]);
                    let ghost cg = copied;
                    let ghost result_old = result@;
                    result.push(copied);
                    proof {
                        let newi = result@.len() - 1;
                        wmap = wmap.push(k3 as int);
                        imap = imap.push(newi);
                        assert(result@ == result_old.push(cg));
                        assert(cg.deep_view() == combos@[k3 as int].deep_view());
                        assert forall|i: int, j: int|
                            0 <= i < j < result@.len() implies (#[trigger] result@[i]).deep_view()
                            != (#[trigger] result@[j]).deep_view() by {
                            if j < newi {
                                assert(result@[i] == result_old[i] && result@[j] == result_old[j]);
                            } else {
                                assert(result@[i] == result_old[i] && result@[j] == cg);
                                assert(result_old[i].deep_view() != combos@[
                                    k3 as int
                                ].deep_view());
                            }
                        }
                        assert forall|i: int| 0 <= i < result@.len() implies 0 <= #[trigger] wmap[i]
                            < avgs@.len() && result@[i].deep_view() == combos@[
                            wmap[i]
                        ].deep_view() && avg_eq(avgs@[wmap[i]]@, best@) by {
                            if i < newi {
                                assert(result@[i] == result_old[i]);
                            } else {
                                assert(result@[i] == cg && wmap[i] == k3 as int);
                            }
                        }
                        assert forall|t: int|
                            0 <= t < k3 + 1 && avg_eq((#[trigger] avgs@[t])@, best@) implies 0
                            <= imap[t] < result@.len() && result@[imap[t]].deep_view() == combos@[
                            t
                        ].deep_view() by {
                            if t < k3 {
                                assert(result@[imap[t]] == result_old[imap[t]]);
                            } else {
                                assert(imap[t] == newi);
                                assert(result@[newi] == cg);
                            }
                        }
                    }
                },
            }
        } else {
            proof {
                imap = imap.push(-1);
            }
        }
        k3 += 1;
    }
    let ghost wm = wmap;
    let ghost im = imap;
    (result, Ghost(wm), Ghost(im))
}

/// The position of a label list equal to `c`, if one is stored.
fn find_combo(found: &Vec<Vec<String>>, c: &Vec<String>) -> (r: Option<usize>)
    ensures
        match r {
            Some(i) => i < found@.len() && found@[i as int].deep_view() == c.deep_view(),
            None => forall|i: int|
                0 <= i < found@.len() ==> (#[trigger] found@[i]).deep_view() != c.deep_view(),
        },
{
    let mut i: usize = 0;
    while i < found.len()
        invariant
            i <= found@.len(),
            forall|t: int| 0 <= t < i ==> (#[trigger] found@[t]).deep_view() != c.deep_view(),
        decreases found@.len() - i,
    {
        if crate::text::string_vec_eq(&found[i], c) {
            return Some(i);
        }
        i += 1;
    }
    None
}

#[verifier::rlimit(100)]
proof fn lemma_report_min(
    ms: Seq<ModuleView>,
    pvs: Seq<Seq<int>>,
    combosv: Seq<Vec<String>>,
    avgsv: Seq<Average>,
    best: AverageView,
    qmap: Seq<int>,
    tmap: Seq<int>,
    bt: int,
)
    requires
        pvs == sels(members_seq(groups_of(ms))),
        eval_table_ok(ms, pvs, combosv, avgsv, qmap, tmap),
        min_of_table(avgsv, best, bt),
    ensures
        is_best_avg(ms, best),
{
    let gseq = members_seq(groups_of(ms));
    assert forall|s: Seq<int>| #[trigger] admissible(ms, s) implies avg_le(
        best,
        eval_avg(ms, labels_of(ms, s)),
    ) by {
        let p = lemma_valid_strike_pick(ms, s);
        lemma_sels_complete(gseq, p);
        let q = choose|q: int| 0 <= q < pvs.len() && pvs[q] == p;
        assert(struck_credits(ms, pvs[q]) <= crate::STRIKE_CAP_CENTI as int);
        let t = tmap[q];
        assert(stored_entry(ms, pvs, combosv[t].deep_view(), avgsv[t]@, q));
        lemma_labels_membership(ms, p, s);
        lemma_eval_same_membership(ms, labels_of(ms, p), labels_of(ms, s));
        assert(avg_le(best, avgsv[t]@));
    }
}

#[verifier::rlimit(100)]
proof fn lemma_report_attained(
    ms: Seq<ModuleView>,
    pvs: Seq<Seq<int>>,
    combosv: Seq<Vec<String>>,
    avgsv: Seq<Average>,
    best: AverageView,
    qmap: Seq<int>,
    tmap: Seq<int>,
    bt: int,
)
    requires
        pvs == sels(members_seq(groups_of(ms))),
        eval_table_ok(ms, pvs, combosv, avgsv, qmap, tmap),
        min_of_table(avgsv, best, bt),
    ensures
        exists|s: Seq<int>|
            #[trigger] admissible(ms, s) && eval_avg(ms, labels_of(ms, s)) == best,
{
    let gseq = members_seq(groups_of(ms));
    let q = qmap[bt];
    assert(stored_entry(ms, pvs, combosv[bt].deep_view(), avgsv[bt]@, q));
    lemma_sels_sound(gseq, q);
    assert(members_seq(groups_of(ms)).skip(0) =~= gseq);
    lemma_pick_valid(ms, 0, pvs[q]);
    assert(admissible(ms, pvs[q]));
    assert(eval_avg(ms, labels_of(ms, pvs[q])) == best);
}

#[verifier::rlimit(100)]
proof fn lemma_report_sound(
    ms: Seq<ModuleView>,
    pvs: Seq<Seq<int>>,
    combosv: Seq<Vec<String>>,
    avgsv: Seq<Average>,
    best: AverageView,
    resultv: Seq<Vec<String>>,
    qmap: Seq<int>,
    tmap: Seq<int>,
    wmap: Seq<int>,
    imap: Seq<int>,
) -> (sets: Seq<Seq<int>>)
    requires
        pvs == sels(members_seq(groups_of(ms))),
        eval_table_ok(ms, pvs, combosv, avgsv, qmap, tmap),
        winners_ok(combosv, avgsv, best, resultv, wmap, imap),
    ensures
        sets.len() == resultv.len(),
        forall|i: int|
            0 <= i < resultv.len() ==> admissible(ms, #[trigger] sets[i]) && resultv[
                i
            ].deep_view() == labels_of(ms, sets[i]) && avg_eq(
                eval_avg(ms, labels_of(ms, sets[i])),
                best,
            ),
{
    let gseq = members_seq(groups_of(ms));
    let sets = Seq::new(resultv.len(), |i: int| pvs[qmap[wmap[i]]]);
    assert forall|i: int| 0 <= i < resultv.len() implies admissible(ms, #[trigger] sets[i])
        && resultv[i].deep_view() == labels_of(ms, sets[i]) && avg_eq(
        eval_avg(ms, labels_of(ms, sets[i])),
        best,
    ) by {
        let t = wmap[i];
        let q = qmap[t];
        assert(stored_entry(ms, pvs, combosv[t].deep_view(), avgsv[t]@, q));
        lemma_sels_sound(gseq, q);
        assert(members_seq(groups_of(ms)).skip(0) =~= gseq);
        lemma_pick_valid(ms, 0, pvs[q]);
        assert(sets[i] == pvs[q]);
        assert(admissible(ms, pvs[q]));
        assert(resultv[i].deep_view() == labels_of(ms, pvs[q]));
        assert(avg_eq(eval_avg(ms, labels_of(ms, pvs[q])), best));
    }
    sets
}

#[verifier::rlimit(100)]
proof fn lemma_report_complete(
    ms: Seq<ModuleView>,
    pvs: Seq<Seq<int>>,
    combosv: Seq<Vec<String>>,
    avgsv: Seq<Average>,
    best: AverageView,
    resultv: Seq<Vec<String>>,
    qmap: Seq<int>,
    tmap: Seq<int>,
    wmap: Seq<int>,
    imap: Seq<int>,
)
    requires
        pvs == sels(members_seq(groups_of(ms))),
        eval_table_ok(ms, pvs, combosv, avgsv, qmap, tmap),
        winners_ok(combosv, avgsv, best, resultv, wmap, imap),
    ensures
        forall|s: Seq<int>|
            #![trigger admissible(ms, s)]
            admissible(ms, s) && avg_eq(eval_avg(ms, labels_of(ms, s)), best) ==> exists|i: int|
                #![trigger resultv[i]]
                0 <= i < resultv.len() && same_members(resultv[i].deep_view(), labels_of(ms, s)),
{
    let gseq = members_seq(groups_of(ms));
    assert forall|s: Seq<int>|
        #![trigger admissible(ms, s)]
        admissible(ms, s) && avg_eq(eval_avg(ms, labels_of(ms, s)), best) implies exists|i: int|
        #![trigger resultv[i]]
        0 <= i < resultv.len() && same_members(resultv[i].deep_view(), labels_of(ms, s)) by {
        let p = lemma_valid_strike_pick(ms, s);
        lemma_sels_complete(gseq, p);
        let q = choose|q: int| 0 <= q < pvs.len() && pvs[q] == p;
        let t = tmap[q];
        assert(stored_entry(ms, pvs, combosv[t].deep_view(), avgsv[t]@, q));
        lemma_labels_membership(ms, p, s);
        lemma_eval_same_membership(ms, labels_of(ms, p), labels_of(ms, s));
        assert(avg_eq(avgsv[t]@, best));
        let i = imap[t];
        assert(resultv[i].deep_view() == combosv[t].deep_view());
        assert(resultv[i].deep_view() == labels_of(ms, p));
        assert(same_members(resultv[i].deep_view(), labels_of(ms, s)));
    }
}

#[verifier::rlimit(100)]
proof fn lemma_report_all(
    ms: Seq<ModuleView>,
    pvs: Seq<Seq<int>>,
    combosv: Seq<Vec<String>>,
    avgsv: Seq<Average>,
    best: AverageView,
    resultv: Seq<Vec<String>>,
    qmap: Seq<int>,
    tmap: Seq<int>,
    wmap: Seq<int>,
    imap: Seq<int>,
    bt: int,
) -> (r: Seq<Seq<int>>)
    requires
        pvs == sels(members_seq(groups_of(ms))),
        eval_table_ok(ms, pvs, combosv, avgsv, qmap, tmap),
        min_of_table(avgsv, best, bt),
        winners_ok(combosv, avgsv, best, resultv, wmap, imap),
    ensures
        report_ok(ms, best, resultv, r),
{
    lemma_report_min(ms, pvs, combosv, avgsv, best, qmap, tmap, bt);
    lemma_report_attained(ms, pvs, combosv, avgsv, best, qmap, tmap, bt);
    let sets = lemma_report_sound(ms, pvs, combosv, avgsv, best, resultv, qmap, tmap, wmap, imap);
    lemma_report_complete(ms, pvs, combosv, avgsv, best, resultv, qmap, tmap, wmap, imap);
    sets
}

/// Searches every admissible strike combination for the minimal
/// weighted average.
///
/// The reported best average is attained by an admissible strike set
/// and is at most the average of every admissible strike set. Each
/// reported combination is the label list of an admissible strike set
/// attaining the best average; every admissible strike set attaining
/// it is represented (up to label membership) among the reported
/// combinations, and no two reported combinations are equal.
#[verifier::rlimit(100)]
#[verifier::spinoff_prover]
pub fn calculate_best_strike_combination(modules: &Vec<Module>) -> (r: StrikeReport)
    requires
        crate::records::records_wf(crate::records::views(modules@)),
        modules@.len() <= crate::MAX_RECORDS as int,
    ensures
        avg_wf(r.best@),
        report_ok(
            crate::records::views(modules@),
            r.best@,
            r.combinations@,
            r.strike_sets@,
        ),
{
    let ghost ms = crate::records::views(modules@);
    let groups = group_candidates(modules);
    let ghost gseq = members_seq(gviews(groups@));
    let picks = picks_from(&groups, 0);
    let ghost pvs = pviews(picks@);
    proof {
        assert(gseq.skip(0) =~= gseq);
        assert(pvs == sels(gseq));
    }
    let table = evaluate_admissible(modules, &groups, &picks);
    let combos = table.0;
    let avgs = table.1;
    let ghost qmap = table.2@;
    let ghost tmap = table.3@;
    proof {
        lemma_sels_has_empty(gseq);
        let q0 = choose|q: int| 0 <= q < pvs.len() && pvs[q] == Seq::<int>::empty();
        assert(struck_credits(ms, pvs[q0]) == 0);
        assert(avgs@.len() > 0);
    }
    let found = select_min(&avgs);
    let best = found.0;
    let ghost bt = found.1@;
    let winners = collect_winners(&combos, &avgs, &best);
    let result = winners.0;
    let ghost wmap = winners.1@;
    let ghost imap = winners.2@;
    let ghost sets = Seq::<Seq<int>>::empty();
    proof {
        sets = lemma_report_all(ms, pvs, combos@, avgs@, best@, result@, qmap, tmap, wmap, imap, bt);
    }
    StrikeReport { best, combinations: result, strike_sets: Ghost(sets) }
}

} // verus!
