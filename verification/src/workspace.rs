//! The descriptor registry.
//!
//! A workspace owns the ordered descriptor list — a descriptor's index in it
//! is the stable handle used everywhere downstream — together with display
//! groups derived from the schema's categories. Each category, in declaration
//! order, takes the descriptors its id list names and has not been taken by
//! an earlier category; descriptors left over land in one synthetic
//! "Uncategorized" group, appended only when it would not be empty.

use vstd::prelude::*;
use vstd::pervasive::VecAdditionalExecFns;
use crate::color::ColorValue;
use crate::color::NamedColor;
use crate::nodes::NodeDescription;
use crate::nodes::find_desc;
use crate::nodes::find_descriptor;
use crate::schema::WorkspaceSchema;

verus! {

/// A display group of the registry: a category name, the common color of its
/// members (a neutral default when they disagree or the group is empty), and
/// the member descriptor indices.
#[derive(Debug)]
pub struct NodeGroup {
    pub name: String,
    pub color: ColorValue,
    pub members: Vec<usize>,
}

/// The registry: the schema it was built from, the ordered descriptor list,
/// and the derived display groups.
#[derive(Debug)]
pub struct Workspace {
    pub schema: WorkspaceSchema,
    pub nodes: Vec<NodeDescription>,
    pub groups: Vec<NodeGroup>,
}

/// Why registry construction was refused.
#[derive(Debug)]
pub enum ConstructError {
    /// Two descriptors carry the same id; the id is named.
    DuplicateDescriptorId { id: String },
}

/// The mathematical shape of a [`NodeGroup`].
pub struct GroupView {
    pub name: Seq<char>,
    pub color: ColorValue,
    pub members: Seq<usize>,
}

pub open spec fn group_view(g: NodeGroup) -> GroupView {
    GroupView { name: g.name@, color: g.color, members: g.members@ }
}

pub open spec fn groups_view(gs: Seq<NodeGroup>) -> Seq<GroupView> {
    Seq::new(gs.len(), |i: int| group_view(gs[i]))
}

/// No two descriptors share an id.
pub open spec fn ids_unique(descs: Seq<NodeDescription>) -> bool {
    forall|a: int, b: int|
        0 <= a < b < descs.len() ==> descs[a].id@ != descs[b].id@
}

/// Position `j` holds the first descriptor whose id already occurred.
pub open spec fn is_first_dup(descs: Seq<NodeDescription>, j: int) -> bool {
    &&& 0 <= j < descs.len()
    &&& exists|a: int| 0 <= a < j && descs[a].id@ == descs[j].id@
    &&& forall|a: int, b: int| 0 <= a < b < j ==> descs[a].id@ != descs[b].id@
}

/// The neutral default color.
pub open spec fn default_color() -> ColorValue {
    ColorValue::Named(NamedColor::Grey)
}

/// The color of a group: the color its members share, when they all share
/// one, else the neutral default.
pub open spec fn group_color(descs: Seq<NodeDescription>, members: Seq<usize>) -> ColorValue {
    if members.len() > 0 && (forall|k: int|
        0 <= k < members.len() ==> descs[#[trigger] members[k] as int].color == descs[members[0] as int].color) {
        descs[members[0] as int].color
    } else {
        default_color()
    }
}

/// The members a category id list takes: for each listed id, in list order,
/// the index of the descriptor with that id, provided one exists and was not
/// consumed before. Returns the members and the updated consumption marks.
pub open spec fn pick_members(
    descs: Seq<NodeDescription>,
    ids: Seq<String>,
    consumed: Seq<bool>,
) -> (Seq<usize>, Seq<bool>)
    decreases ids.len(),
{
    if ids.len() == 0 {
        (Seq::empty(), consumed)
    } else {
        match find_desc(descs, ids[0]@) {
            Some(i) => {
                if 0 <= i < consumed.len() && !consumed[i] {
                    let r = pick_members(descs, ids.drop_first(), consumed.update(i, true));
                    (seq![i as usize] + r.0, r.1)
                } else {
                    pick_members(descs, ids.drop_first(), consumed)
                }
            },
            None => pick_members(descs, ids.drop_first(), consumed),
        }
    }
}

/// The groups the categories produce, in category order, threading the
/// consumption marks from one category to the next.
pub open spec fn build_groups(
    descs: Seq<NodeDescription>,
    cats: Seq<(String, Vec<String>)>,
    consumed: Seq<bool>,
) -> (Seq<GroupView>, Seq<bool>)
    decreases cats.len(),
{
    if cats.len() == 0 {
        (Seq::empty(), consumed)
    } else {
        let picked = pick_members(descs, cats[0].1@, consumed);
        let g0 = GroupView {
            name: cats[0].0@,
            color: group_color(descs, picked.0),
            members: picked.0,
        };
        let rest = build_groups(descs, cats.drop_first(), picked.1);
        (seq![g0] + rest.0, rest.1)
    }
}

/// The indices not consumed by any category, in ascending order, starting
/// the scan at `i`.
pub open spec fn uncat_from(consumed: Seq<bool>, i: int) -> Seq<usize>
    decreases consumed.len() - i,
{
    if i < 0 || i >= consumed.len() {
        Seq::empty()
    } else if !consumed[i] {
        seq![i as usize] + uncat_from(consumed, i + 1)
    } else {
        uncat_from(consumed, i + 1)
    }
}

/// `n` consumption marks, all clear.
pub open spec fn blank_marks(n: nat) -> Seq<bool> {
    Seq::new(n, |i: int| false)
}

/// The groups of a registry built over `descs` and `cats`: one group per
/// category in order, then the "Uncategorized" group when any descriptor is
/// left over.
pub open spec fn spec_groups(
    descs: Seq<NodeDescription>,
    cats: Seq<(String, Vec<String>)>,
) -> Seq<GroupView> {
    let built = build_groups(descs, cats, blank_marks(descs.len()));
    let uncat = uncat_from(built.1, 0);
    if uncat.len() == 0 {
        built.0
    } else {
        built.0.push(
            GroupView { name: "Uncategorized"@, color: default_color(), members: uncat },
        )
    }
}

/// Processing one more category appends one more group and continues the
/// marks from where the earlier categories left them.
proof fn lemma_build_groups_snoc(
    descs: Seq<NodeDescription>,
    cats: Seq<(String, Vec<String>)>,
    cat: (String, Vec<String>),
    consumed: Seq<bool>,
)
    ensures
        ({
            let whole = build_groups(descs, cats.push(cat), consumed);
            let front = build_groups(descs, cats, consumed);
            let picked = pick_members(descs, cat.1@, front.1);
            let g = GroupView {
                name: cat.0@,
                color: group_color(descs, picked.0),
                members: picked.0,
            };
            whole.0 == front.0.push(g) && whole.1 == picked.1
        }),
    decreases cats.len(),
{
    reveal_with_fuel(build_groups, 3);
    let whole = build_groups(descs, cats.push(cat), consumed);
    let front = build_groups(descs, cats, consumed);
    let picked = pick_members(descs, cat.1@, front.1);
    let g = GroupView { name: cat.0@, color: group_color(descs, picked.0), members: picked.0 };
    if cats.len() == 0 {
        assert(cats.push(cat)[0] == cat);
        assert(cats.push(cat).drop_first() =~= Seq::<(String, Vec<String>)>::empty());
        assert(whole.0 =~= front.0.push(g));
    } else {
        assert(cats.push(cat)[0] == cats[0]);
        assert(cats.push(cat).drop_first() =~= cats.drop_first().push(cat));
        let picked0 = pick_members(descs, cats[0].1@, consumed);
        lemma_build_groups_snoc(descs, cats.drop_first(), cat, picked0.1);
        let front_rest = build_groups(descs, cats.drop_first(), picked0.1);
        assert(whole.0 =~= front.0.push(g));
    }
}

/// Picking preserves mark-vector length and never clears a mark.
proof fn lemma_pick_marks(descs: Seq<NodeDescription>, ids: Seq<String>, consumed: Seq<bool>)
    ensures
        pick_members(descs, ids, consumed).1.len() == consumed.len(),
        forall|j: int|
            0 <= j < consumed.len() && consumed[j] ==> pick_members(descs, ids, consumed).1[j],
    decreases ids.len(),
{
    if ids.len() > 0 {
        match find_desc(descs, ids[0]@) {
            Some(i) => {
                if 0 <= i < consumed.len() && !consumed[i] {
                    let c2 = consumed.update(i, true);
                    lemma_pick_marks(descs, ids.drop_first(), c2);
                    assert forall|j: int|
                        0 <= j < consumed.len() && consumed[j] implies pick_members(
                        descs,
                        ids,
                        consumed,
                    ).1[j] by {
                        assert(c2[j]);
                        assert(pick_members(descs, ids.drop_first(), c2).1[j]);
                    }
                } else {
                    lemma_pick_marks(descs, ids.drop_first(), consumed);
                }
            },
            None => {
                lemma_pick_marks(descs, ids.drop_first(), consumed);
            },
        }
    }
}

/// A descriptor whose id a list names, and which `find_desc` locates, is
/// marked consumed after picking.
proof fn lemma_pick_marks_covers(
    descs: Seq<NodeDescription>,
    ids: Seq<String>,
    consumed: Seq<bool>,
    i: int,
)
    requires
        consumed.len() == descs.len(),
        0 <= i < descs.len(),
        find_desc(descs, descs[i].id@) == Some(i),
        exists|p: int| 0 <= p < ids.len() && (#[trigger] ids[p])@ == descs[i].id@,
    ensures
        pick_members(descs, ids, consumed).1[i],
    decreases ids.len(),
{
    let p = choose|p: int| 0 <= p < ids.len() && (#[trigger] ids[p])@ == descs[i].id@;
    lemma_pick_marks(descs, ids, consumed);
    if ids[0]@ == descs[i].id@ {
        if !consumed[i] {
            let c2 = consumed.update(i, true);
            lemma_pick_marks(descs, ids.drop_first(), c2);
            assert(c2[i]);
            assert(pick_members(descs, ids.drop_first(), c2).1[i]);
        } else {
            lemma_pick_marks(descs, ids.drop_first(), consumed);
            assert(pick_members(descs, ids.drop_first(), consumed).1[i]);
        }
    } else {
        assert(p >= 1);
        assert(ids.drop_first()[p - 1] == ids[p]);
        match find_desc(descs, ids[0]@) {
            Some(k) => {
                if 0 <= k < consumed.len() && !consumed[k] {
                    lemma_pick_marks_covers(descs, ids.drop_first(), consumed.update(k, true), i);
                } else {
                    lemma_pick_marks_covers(descs, ids.drop_first(), consumed, i);
                }
            },
            None => {
                lemma_pick_marks_covers(descs, ids.drop_first(), consumed, i);
            },
        }
    }
}

/// A descriptor whose id a list never names is left unmarked by picking.
proof fn lemma_pick_marks_unlisted(
    descs: Seq<NodeDescription>,
    ids: Seq<String>,
    consumed: Seq<bool>,
    i: int,
)
    requires
        consumed.len() == descs.len(),
        0 <= i < descs.len(),
        !consumed[i],
        forall|p: int| 0 <= p < ids.len() ==> (#[trigger] ids[p])@ != descs[i].id@,
    ensures
        !pick_members(descs, ids, consumed).1[i],
    decreases ids.len(),
{
    if ids.len() > 0 {
        assert(ids[0]@ != descs[i].id@);
        assert(forall|p: int|
            0 <= p < ids.drop_first().len() ==> (#[trigger] ids.drop_first()[p]) == ids[p + 1]);
        match find_desc(descs, ids[0]@) {
            Some(k) => {
                crate::nodes::lemma_find_desc(descs, ids[0]@);
                assert(k != i);
                if 0 <= k < consumed.len() && !consumed[k] {
                    lemma_pick_marks_unlisted(descs, ids.drop_first(), consumed.update(k, true), i);
                } else {
                    lemma_pick_marks_unlisted(descs, ids.drop_first(), consumed, i);
                }
            },
            None => {
                lemma_pick_marks_unlisted(descs, ids.drop_first(), consumed, i);
            },
        }
    }
}

/// Grouping preserves mark-vector length, never clears a mark, and emits one
/// group per category.
proof fn lemma_build_marks(
    descs: Seq<NodeDescription>,
    cats: Seq<(String, Vec<String>)>,
    consumed: Seq<bool>,
)
    ensures
        build_groups(descs, cats, consumed).1.len() == consumed.len(),
        build_groups(descs, cats, consumed).0.len() == cats.len(),
        forall|j: int|
            0 <= j < consumed.len() && consumed[j] ==> build_groups(descs, cats, consumed).1[j],
    decreases cats.len(),
{
    if cats.len() > 0 {
        lemma_pick_marks(descs, cats[0].1@, consumed);
        lemma_build_marks(descs, cats.drop_first(), pick_members(descs, cats[0].1@, consumed).1);
    }
}

/// A descriptor named by some category, and which `find_desc` locates, is
/// marked consumed after grouping.
proof fn lemma_build_marks_covers(
    descs: Seq<NodeDescription>,
    cats: Seq<(String, Vec<String>)>,
    consumed: Seq<bool>,
    i: int,
)
    requires
        consumed.len() == descs.len(),
        0 <= i < descs.len(),
        find_desc(descs, descs[i].id@) == Some(i),
        exists|c: int, p: int|
            0 <= c < cats.len() && 0 <= p < (#[trigger] cats[c]).1@.len() && (#[trigger] cats[
                c
            ].1@[p])@ == descs[i].id@,
    ensures
        build_groups(descs, cats, consumed).1[i],
    decreases cats.len(),
{
    let (c, p) = choose|c: int, p: int|
        0 <= c < cats.len() && 0 <= p < (#[trigger] cats[c]).1@.len() && (#[trigger] cats[
            c
        ].1@[p])@ == descs[i].id@;
    let c1 = pick_members(descs, cats[0].1@, consumed).1;
    lemma_pick_marks(descs, cats[0].1@, consumed);
    if c == 0 {
        lemma_pick_marks_covers(descs, cats[0].1@, consumed, i);
        lemma_build_marks(descs, cats.drop_first(), c1);
    } else {
        assert(cats.drop_first()[c - 1] == cats[c]);
        lemma_build_marks_covers(descs, cats.drop_first(), c1, i);
    }
}

/// A descriptor no category names is left unmarked by grouping.
proof fn lemma_build_marks_unlisted(
    descs: Seq<NodeDescription>,
    cats: Seq<(String, Vec<String>)>,
    consumed: Seq<bool>,
    i: int,
)
    requires
        consumed.len() == descs.len(),
        0 <= i < descs.len(),
        !consumed[i],
        forall|c: int, p: int|
            0 <= c < cats.len() && 0 <= p < (#[trigger] cats[c]).1@.len() ==> (#[trigger] cats[
                c
            ].1@[p])@ != descs[i].id@,
    ensures
        !build_groups(descs, cats, consumed).1[i],
    decreases cats.len(),
{
    if cats.len() > 0 {
        lemma_pick_marks(descs, cats[0].1@, consumed);
        lemma_pick_marks_unlisted(descs, cats[0].1@, consumed, i);
        let c1 = pick_members(descs, cats[0].1@, consumed).1;
        assert(forall|c: int|
            0 <= c < cats.drop_first().len() ==> (#[trigger] cats.drop_first()[c]) == cats[c + 1]);
        lemma_build_marks_unlisted(descs, cats.drop_first(), c1, i);
    }
}

/// With every mark set, nothing is left uncategorized.
proof fn lemma_all_marked_uncat_empty(consumed: Seq<bool>, k: int)
    requires
        0 <= k,
        forall|j: int| 0 <= j < consumed.len() ==> consumed[j],
    ensures
        uncat_from(consumed, k).len() == 0,
    decreases consumed.len() - k,
{
    if k < consumed.len() {
        lemma_all_marked_uncat_empty(consumed, k + 1);
    }
}

/// An unmarked index appears among the uncategorized members.
proof fn lemma_uncat_contains(consumed: Seq<bool>, k: int, i: int)
    requires
        0 <= k <= i < consumed.len(),
        !consumed[i],
    ensures
        uncat_from(consumed, k).contains(i as usize),
    decreases consumed.len() - k,
{
    if k < i {
        lemma_uncat_contains(consumed, k + 1, i);
        if !consumed[k] {
            assert(uncat_from(consumed, k)[uncat_from(consumed, k + 1).index_of(i as usize) + 1]
                == i as usize);
        }
    } else {
        assert(uncat_from(consumed, k)[0] == i as usize);
    }
}

/// Under unique ids, a descriptor's own id locates exactly itself.
proof fn lemma_unique_find_self(descs: Seq<NodeDescription>, i: int)
    requires
        ids_unique(descs),
        0 <= i < descs.len(),
    ensures
        find_desc(descs, descs[i].id@) == Some(i),
{
    crate::nodes::lemma_find_desc(descs, descs[i].id@);
}

/// Membership in a one-element-prepended sequence.
proof fn lemma_contains_cons(x: usize, m: Seq<usize>, y: usize)
    ensures
        (seq![x] + m).contains(y) <==> (y == x || m.contains(y)),
{
    assert((seq![x] + m)[0] == x);
    if m.contains(y) {
        let k = choose|k: int| 0 <= k < m.len() && m[k] == y;
        assert((seq![x] + m)[k + 1] == y);
    }
    if (seq![x] + m).contains(y) {
        let k = choose|k: int| 0 <= k < (seq![x] + m).len() && (seq![x] + m)[k] == y;
        if k > 0 {
            assert(m[k - 1] == y);
        }
    }
}

/// A category's members are exactly the descriptor indices its picking newly
/// marks.
proof fn lemma_pick_semantics(
    descs: Seq<NodeDescription>,
    ids: Seq<String>,
    c: Seq<bool>,
    j: int,
)
    requires
        c.len() == descs.len(),
        descs.len() <= usize::MAX,
        0 <= j < c.len(),
    ensures
        ({
            let r = pick_members(descs, ids, c);
            r.0.contains(j as usize) <==> (!c[j] && r.1[j])
        }),
    decreases ids.len(),
{
    lemma_pick_marks(descs, ids, c);
    let r = pick_members(descs, ids, c);
    if ids.len() > 0 {
        match find_desc(descs, ids[0]@) {
            Some(i) => {
                if 0 <= i < c.len() && !c[i] {
                    let c2 = c.update(i, true);
                    let rr = pick_members(descs, ids.drop_first(), c2);
                    lemma_pick_semantics(descs, ids.drop_first(), c2, j);
                    lemma_pick_marks(descs, ids.drop_first(), c2);
                    lemma_contains_cons(i as usize, rr.0, j as usize);
                    if j == i {
                        assert(c2[i]);
                        assert(rr.1[i]);
                        assert(r.0.contains(j as usize));
                    }
                } else {
                    lemma_pick_semantics(descs, ids.drop_first(), c, j);
                }
            },
            None => {
                lemma_pick_semantics(descs, ids.drop_first(), c, j);
            },
        }
    }
}

/// Group `g` of `gs` holds descriptor index `j`.
pub open spec fn group_member(gs: Seq<GroupView>, g: int, j: int) -> bool {
    0 <= g < gs.len() && gs[g].members.contains(j as usize)
}

/// Some group of `gs` holds descriptor index `j`.
pub open spec fn member_somewhere(gs: Seq<GroupView>, j: int) -> bool {
    exists|g: int| group_member(gs, g, j)
}

/// Across the category groups, descriptor `j` is a member exactly when
/// grouping newly marks it, and of at most one group.
proof fn lemma_build_semantics(
    descs: Seq<NodeDescription>,
    cats: Seq<(String, Vec<String>)>,
    c: Seq<bool>,
    j: int,
)
    requires
        c.len() == descs.len(),
        descs.len() <= usize::MAX,
        0 <= j < c.len(),
    ensures
        ({
            let r = build_groups(descs, cats, c);
            &&& member_somewhere(r.0, j) <==> (!c[j] && r.1[j])
            &&& forall|g1: int, g2: int|
                #[trigger] group_member(r.0, g1, j) && #[trigger] group_member(r.0, g2, j)
                    ==> g1 == g2
        }),
    decreases cats.len(),
{
    lemma_build_marks(descs, cats, c);
    let r = build_groups(descs, cats, c);
    if cats.len() == 0 {
        assert(!member_somewhere(r.0, j)) by {
            if member_somewhere(r.0, j) {
                let g = choose|g: int| group_member(r.0, g, j);
            }
        }
    } else {
        let picked = pick_members(descs, cats[0].1@, c);
        let g0 = GroupView {
            name: cats[0].0@,
            color: group_color(descs, picked.0),
            members: picked.0,
        };
        let rest = build_groups(descs, cats.drop_first(), picked.1);
        lemma_pick_semantics(descs, cats[0].1@, c, j);
        lemma_pick_marks(descs, cats[0].1@, c);
        lemma_build_semantics(descs, cats.drop_first(), picked.1, j);
        lemma_build_marks(descs, cats.drop_first(), picked.1);
        assert(r.0 =~= seq![g0] + rest.0);
        assert(r.0[0] == g0);
        assert(forall|g: int| 1 <= g < r.0.len() ==> r.0[g] == rest.0[g - 1]);

        if member_somewhere(r.0, j) {
            let g = choose|g: int| group_member(r.0, g, j);
            if g == 0 {
                assert(picked.0.contains(j as usize));
                assert(!c[j] && picked.1[j]);
            } else {
                assert(group_member(rest.0, g - 1, j));
                assert(member_somewhere(rest.0, j));
                assert(!picked.1[j] && rest.1[j]);
            }
            assert(!c[j] && r.1[j]);
        }
        if !c[j] && r.1[j] {
            if picked.1[j] {
                assert(picked.0.contains(j as usize));
                assert(group_member(r.0, 0, j));
            } else {
                assert(member_somewhere(rest.0, j));
                let g = choose|g: int| group_member(rest.0, g, j);
                assert(r.0[g + 1] == rest.0[g]);
                assert(group_member(r.0, g + 1, j));
            }
            assert(member_somewhere(r.0, j));
        }
        assert forall|g1: int, g2: int|
            #[trigger] group_member(r.0, g1, j) && #[trigger] group_member(
                r.0,
                g2,
                j,
            ) implies g1 == g2 by {
            if g1 != g2 {
                let ga = if g1 < g2 {
                    g1
                } else {
                    g2
                };
                let gb = if g1 < g2 {
                    g2
                } else {
                    g1
                };
                assert(group_member(r.0, ga, j) && group_member(r.0, gb, j));
                if ga == 0 {
                    assert(picked.0.contains(j as usize));
                    assert(picked.1[j]);
                    assert(group_member(rest.0, gb - 1, j));
                    assert(member_somewhere(rest.0, j));
                    assert(!picked.1[j]);
                } else {
                    assert(group_member(rest.0, ga - 1, j));
                    assert(group_member(rest.0, gb - 1, j));
                }
            }
        }
    }
}

/// An uncategorized member is an unmarked index at or after the scan start.
proof fn lemma_uncat_member(consumed: Seq<bool>, k: int, u: usize)
    requires
        0 <= k,
        consumed.len() <= usize::MAX,
        uncat_from(consumed, k).contains(u),
    ensures
        k <= u as int,
        (u as int) < consumed.len(),
        !consumed[u as int],
    decreases consumed.len() - k,
{
    if k < consumed.len() {
        if !consumed[k] {
            lemma_contains_cons(k as usize, uncat_from(consumed, k + 1), u);
            if u as int != k {
                lemma_uncat_member(consumed, k + 1, u);
            }
        } else {
            lemma_uncat_member(consumed, k + 1, u);
        }
    }
}

/// Every descriptor belongs to exactly one group of the registry: it is a
/// member of some group — a category group or the "Uncategorized" group —
/// and of no second one.
pub proof fn lemma_descriptor_in_exactly_one_group(
    descs: Seq<NodeDescription>,
    cats: Seq<(String, Vec<String>)>,
    i: int,
)
    requires
        0 <= i < descs.len(),
        descs.len() <= usize::MAX,
    ensures
        member_somewhere(spec_groups(descs, cats), i),
        forall|g1: int, g2: int|
            #[trigger] group_member(spec_groups(descs, cats), g1, i) && #[trigger] group_member(
                spec_groups(descs, cats),
                g2,
                i,
            ) ==> g1 == g2,
{
    let base = blank_marks(descs.len());
    let built = build_groups(descs, cats, base);
    let uncat = uncat_from(built.1, 0);
    let gs = spec_groups(descs, cats);
    lemma_build_semantics(descs, cats, base, i);
    lemma_build_marks(descs, cats, base);
    let ug = GroupView { name: "Uncategorized"@, color: default_color(), members: uncat };
    if uncat.len() == 0 {
        assert(gs == built.0);
        if !built.1[i] {
            lemma_uncat_contains(built.1, 0, i);
        }
        assert(built.1[i]);
        assert(member_somewhere(built.0, i));
    } else {
        assert(gs == built.0.push(ug));
        assert(gs[gs.len() - 1] == ug);
        assert(forall|g: int| 0 <= g < built.0.len() ==> gs[g] == built.0[g]);
        if built.1[i] {
            assert(member_somewhere(built.0, i));
            let g = choose|g: int| group_member(built.0, g, i);
            assert(group_member(gs, g, i));
            assert(member_somewhere(gs, i));
        } else {
            lemma_uncat_contains(built.1, 0, i);
            assert(group_member(gs, gs.len() - 1, i));
            assert(member_somewhere(gs, i));
        }
        assert forall|g1: int, g2: int|
            #[trigger] group_member(gs, g1, i) && #[trigger] group_member(
                gs,
                g2,
                i,
            ) implies g1 == g2 by {
            if g1 < gs.len() - 1 && g2 < gs.len() - 1 {
                assert(group_member(built.0, g1, i));
                assert(group_member(built.0, g2, i));
            } else if g1 == gs.len() - 1 && g2 == gs.len() - 1 {
            } else {
                let gin = if g1 == gs.len() - 1 {
                    g2
                } else {
                    g1
                };
                assert(uncat.contains(i as usize));
                lemma_uncat_member(built.1, 0, i as usize);
                assert(!built.1[i]);
                assert(group_member(built.0, gin, i));
                assert(member_somewhere(built.0, i));
                assert(built.1[i]);
            }
        }
    }
}

/// When the categories name every descriptor id, no "Uncategorized" group is
/// formed: the registry's groups are exactly one group per category.
pub proof fn lemma_partition_no_uncategorized(
    descs: Seq<NodeDescription>,
    cats: Seq<(String, Vec<String>)>,
)
    requires
        ids_unique(descs),
        forall|i: int|
            0 <= i < descs.len() ==> exists|c: int, p: int|
                0 <= c < cats.len() && 0 <= p < (#[trigger] cats[c]).1@.len() && (#[trigger] cats[
                    c
                ].1@[p])@ == (#[trigger] descs[i]).id@,
    ensures
        uncat_from(build_groups(descs, cats, blank_marks(descs.len())).1, 0).len() == 0,
        spec_groups(descs, cats) == build_groups(descs, cats, blank_marks(descs.len())).0,
        spec_groups(descs, cats).len() == cats.len(),
{
    let base = blank_marks(descs.len());
    let built = build_groups(descs, cats, base);
    lemma_build_marks(descs, cats, base);
    assert forall|i: int| 0 <= i < built.1.len() implies built.1[i] by {
        lemma_unique_find_self(descs, i);
        lemma_build_marks_covers(descs, cats, base, i);
    }
    lemma_all_marked_uncat_empty(built.1, 0);
}

/// A descriptor whose id no category names surfaces in the "Uncategorized"
/// group, which is then appended after the category groups.
pub proof fn lemma_unlisted_descriptor_uncategorized(
    descs: Seq<NodeDescription>,
    cats: Seq<(String, Vec<String>)>,
    i: int,
)
    requires
        0 <= i < descs.len(),
        forall|c: int, p: int|
            0 <= c < cats.len() && 0 <= p < (#[trigger] cats[c]).1@.len() ==> (#[trigger] cats[
                c
            ].1@[p])@ != descs[i].id@,
    ensures
        ({
            let built = build_groups(descs, cats, blank_marks(descs.len()));
            let uncat = uncat_from(built.1, 0);
            &&& uncat.contains(i as usize)
            &&& spec_groups(descs, cats) == built.0.push(
                GroupView { name: "Uncategorized"@, color: default_color(), members: uncat },
            )
        }),
{
    let base = blank_marks(descs.len());
    let built = build_groups(descs, cats, base);
    lemma_build_marks(descs, cats, base);
    lemma_build_marks_unlisted(descs, cats, base, i);
    lemma_uncat_contains(built.1, 0, i);
    let uncat = uncat_from(built.1, 0);
    assert(uncat.len() > 0) by {
        assert(uncat.contains(i as usize));
    }
}

/// Processing one more listed id appends at most one member and marks it
/// consumed.
proof fn lemma_pick_members_snoc(
    descs: Seq<NodeDescription>,
    ids: Seq<String>,
    id: String,
    consumed: Seq<bool>,
)
    ensures
        ({
            let whole = pick_members(descs, ids.push(id), consumed);
            let front = pick_members(descs, ids, consumed);
            match find_desc(descs, id@) {
                Some(i) => {
                    if 0 <= i < front.1.len() && !front.1[i] {
                        whole.0 == front.0.push(i as usize) && whole.1 == front.1.update(i, true)
                    } else {
                        whole.0 == front.0 && whole.1 == front.1
                    }
                },
                None => whole.0 == front.0 && whole.1 == front.1,
            }
        }),
    decreases ids.len(),
{
    reveal_with_fuel(pick_members, 3);
    let whole = pick_members(descs, ids.push(id), consumed);
    let front = pick_members(descs, ids, consumed);
    if ids.len() == 0 {
        assert(ids.push(id)[0] == id);
        assert(ids.push(id).drop_first() =~= Seq::<String>::empty());
        match find_desc(descs, id@) {
            Some(i) => {
                if 0 <= i < consumed.len() && !consumed[i] {
                    assert(whole.0 =~= front.0.push(i as usize));
                }
            },
            None => {},
        }
    } else {
        assert(ids.push(id)[0] == ids[0]);
        assert(ids.push(id).drop_first() =~= ids.drop_first().push(id));
        match find_desc(descs, ids[0]@) {
            Some(i) => {
                if 0 <= i < consumed.len() && !consumed[i] {
                    lemma_pick_members_snoc(descs, ids.drop_first(), id, consumed.update(i, true));
                    let front_rest = pick_members(descs, ids.drop_first(), consumed.update(i, true));
                    match find_desc(descs, id@) {
                        Some(k) => {
                            if 0 <= k < front.1.len() && !front.1[k] {
                                assert(whole.0 =~= front.0.push(k as usize));
                            } else {
                                assert(whole.0 =~= front.0);
                            }
                        },
                        None => {
                            assert(whole.0 =~= front.0);
                        },
                    }
                } else {
                    lemma_pick_members_snoc(descs, ids.drop_first(), id, consumed);
                    match find_desc(descs, id@) {
                        Some(k) => {
                            if 0 <= k < front.1.len() && !front.1[k] {
                                assert(whole.0 =~= front.0.push(k as usize));
                            } else {
                                assert(whole.0 =~= front.0);
                            }
                        },
                        None => {
                            assert(whole.0 =~= front.0);
                        },
                    }
                }
            },
            None => {
                lemma_pick_members_snoc(descs, ids.drop_first(), id, consumed);
                match find_desc(descs, id@) {
                    Some(k) => {
                        if 0 <= k < front.1.len() && !front.1[k] {
                            assert(whole.0 =~= front.0.push(k as usize));
                        } else {
                            assert(whole.0 =~= front.0);
                        }
                    },
                    None => {
                        assert(whole.0 =~= front.0);
                    },
                }
            },
        }
    }
}

/// The group color a member list determines.
fn compute_group_color(descs: &Vec<NodeDescription>, members: &Vec<usize>) -> (c: ColorValue)
    requires
        forall|k: int| 0 <= k < members@.len() ==> members@[k] < descs@.len(),
    ensures
        c == group_color(descs@, members@),
{
    if members.len() == 0 {
        return ColorValue::default();
    }
    let first = descs[members[0]].color;
    let mut uniform = true;
    let mut i: usize = 1;
    while i < members.len()
        invariant
            1 <= i <= members@.len(),
            members@.len() > 0,
            forall|k: int| 0 <= k < members@.len() ==> members@[k] < descs@.len(),
            first == descs@[members@[0] as int].color,
            uniform == (forall|k: int|
                0 <= k < i ==> descs@[#[trigger] members@[k] as int].color == descs@[
                    members@[0] as int
                ].color),
        decreases members@.len() - i,
    {
        if !(descs[members[i]].color == first) {
            uniform = false;
        }
        i = i + 1;
    }
    if uniform {
        first
    } else {
        ColorValue::default()
    }
}

impl Workspace {
    /// Builds the registry over `nodes`, whose order fixes the index space.
    ///
    /// Fails, naming the id, when two descriptors share an id. Otherwise the
    /// groups are exactly one group per category in declaration order — each
    /// taking, in list order, the descriptors its ids name that no earlier
    /// category took — followed by an "Uncategorized" group holding the
    /// remaining descriptors in index order, appended only when any remain.
    /// A category id naming no descriptor is skipped without error.
    #[verifier::loop_isolation(false)]
    pub fn construct(schema: WorkspaceSchema, nodes: Vec<NodeDescription>) -> (r: Result<
        Workspace,
        ConstructError,
    >)
        ensures
            match r {
                Ok(ws) => {
                    &&& ids_unique(nodes@)
                    &&& ws.schema == schema
                    &&& ws.nodes == nodes
                    &&& groups_view(ws.groups@) == spec_groups(nodes@, schema.node_categories@)
                },
                Err(e) => {
                    &&& !ids_unique(nodes@)
                    &&& match e {
                        ConstructError::DuplicateDescriptorId { id } => exists|j: int|
                            is_first_dup(nodes@, j) && id@ == nodes@[j].id@,
                    }
                },
            },
    {
        // Refuse duplicate descriptor ids, naming the first repeated one.
        let mut j: usize = 1;
        while j < nodes.len()
            invariant
                forall|a: int, b: int| 0 <= a < b < j ==> nodes@[a].id@ != nodes@[b].id@,
            decreases nodes@.len() - j,
        {
            let mut i: usize = 0;
            while i < j
                invariant
                    i <= j < nodes@.len(),
                    forall|k: int| 0 <= k < i ==> nodes@[k].id@ != nodes@[j as int].id@,
                decreases j - i,
            {
                if nodes[i].id == nodes[j].id {
                    proof {
                        assert(is_first_dup(nodes@, j as int));
                    }
                    return Err(
                        ConstructError::DuplicateDescriptorId { id: nodes[j].id.clone() },
                    );
                }
                i = i + 1;
            }
            j = j + 1;
        }

        // Form one group per category, in declaration order.
        let ghost base = blank_marks(nodes@.len());
        let mut consumed: Vec<bool> = vec![false; nodes.len()];
        proof {
            assert(consumed@ =~= base);
        }
        let mut groups: Vec<NodeGroup> = Vec::new();
        let mut c: usize = 0;
        while c < schema.node_categories.len()
            invariant
                c <= schema.node_categories@.len(),
                consumed@.len() == nodes@.len(),
                ({
                    let r = build_groups(
                        nodes@,
                        schema.node_categories@.subrange(0, c as int),
                        base,
                    );
                    groups_view(groups@) == r.0 && consumed@ == r.1
                }),
            decreases schema.node_categories@.len() - c,
        {
            let ghost c0 = consumed@;
            let ghost cats = schema.node_categories@;
            let mut members: Vec<usize> = Vec::new();
            let mut p: usize = 0;
            while p < schema.node_categories[c].1.len()
                invariant
                    consumed@.len() == nodes@.len(),
                    p <= cats[c as int].1@.len(),
                    forall|k: int| 0 <= k < members@.len() ==> members@[k] < nodes@.len(),
                    ({
                        let r = pick_members(nodes@, cats[c as int].1@.subrange(0, p as int), c0);
                        members@ == r.0 && consumed@ == r.1
                    }),
                decreases cats[c as int].1@.len() - p,
            {
                let ghost pre = cats[c as int].1@.subrange(0, p as int);
                proof {
                    lemma_pick_members_snoc(nodes@, pre, cats[c as int].1@[p as int], c0);
                    assert(cats[c as int].1@.subrange(0, p as int + 1) =~= pre.push(
                        cats[c as int].1@[p as int],
                    ));
                }
                match find_descriptor(&nodes, &schema.node_categories[c].1[p]) {
                    Some(i) => {
                        proof {
                            crate::nodes::lemma_find_desc(nodes@, cats[c as int].1@[p as int]@);
                        }
                        if !consumed[i] {
                            consumed.set(i, true);
                            members.push(i);
                        }
                    },
                    None => {},
                }
                p = p + 1;
            }
            proof {
                assert(cats[c as int].1@.subrange(0, cats[c as int].1@.len() as int) =~= cats[
                    c as int
                ].1@);
            }
            let color = compute_group_color(&nodes, &members);
            let name = schema.node_categories[c].0.clone();
            let ng = NodeGroup { name, color, members };
            proof {
                lemma_build_groups_snoc(nodes@, cats.subrange(0, c as int), cats[c as int], base);
                assert(cats.subrange(0, c as int + 1) =~= cats.subrange(0, c as int).push(
                    cats[c as int],
                ));
                assert(groups_view(groups@.push(ng)) =~= groups_view(groups@).push(group_view(ng)));
            }
            groups.push(ng);
            c = c + 1;
        }
        proof {
            assert(schema.node_categories@.subrange(0, schema.node_categories@.len() as int)
                =~= schema.node_categories@);
        }

        // Collect what no category consumed, in index order.
        let mut uncat: Vec<usize> = Vec::new();
        let mut u: usize = 0;
        while u < consumed.len()
            invariant
                u <= consumed@.len(),
                uncat_from(consumed@, 0) == uncat@ + uncat_from(consumed@, u as int),
                forall|k: int| 0 <= k < uncat@.len() ==> uncat@[k] < consumed@.len(),
            decreases consumed@.len() - u,
        {
            if !consumed[u] {
                proof {
                    assert(uncat@ + (seq![u] + uncat_from(consumed@, u as int + 1)) =~= uncat@.push(
                        u,
                    ) + uncat_from(consumed@, u as int + 1));
                }
                uncat.push(u);
            }
            u = u + 1;
        }
        proof {
            assert(uncat_from(consumed@, consumed@.len() as int) =~= Seq::<usize>::empty());
            assert(uncat@ + Seq::<usize>::empty() =~= uncat@);
        }
        proof {
            let built = build_groups(nodes@, schema.node_categories@, base);
            assert(groups_view(groups@) == built.0);
            assert(consumed@ == built.1);
            assert(uncat@ == uncat_from(built.1, 0));
        }
        if uncat.len() > 0 {
            let name = "Uncategorized".to_owned();
            let ng = NodeGroup { name, color: ColorValue::default(), members: uncat };
            proof {
                assert(group_view(ng) == (GroupView {
                    name: "Uncategorized"@,
                    color: default_color(),
                    members: uncat_from(consumed@, 0),
                }));
                assert(groups_view(groups@.push(ng)) =~= groups_view(groups@).push(group_view(ng)));
            }
            groups.push(ng);
            proof {
                assert(groups_view(groups@) == spec_groups(nodes@, schema.node_categories@));
            }
            return Ok(Workspace { schema, nodes, groups });
        }
        proof {
            assert(groups_view(groups@) == spec_groups(nodes@, schema.node_categories@));
        }
        Ok(Workspace { schema, nodes, groups })
    }
}

} // verus!
