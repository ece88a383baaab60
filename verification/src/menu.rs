//! The permission resolver's data: flat, role-scoped menu rows, and
//! the navigation forest built from them.
//!
//! Button rows carry permission strings but are never navigable; the
//! remaining rows are ordered by `(sort, id)` — a total order, ids
//! being unique — deduplicated by id, and attached to their parents.
//! A row whose declared parent is absent from the role-scoped set (or
//! is itself) becomes a root. The forest is an arena: nodes own no
//! child nodes, only indices into the one node list.

use vstd::prelude::*;

verus! {

/// The menu type of rows that are permission carriers, not navigable
/// route nodes.
pub const MENU_TYPE_BUTTON: i16 = 3;

/// One flat menu row, as the role-scoped join returns it.
#[derive(Debug)]
pub struct MenuRow {
    pub id: i64,
    pub parent_id: i64,
    pub title: String,
    pub menu_type: i16,
    pub path: String,
    pub name: String,
    pub component: String,
    pub redirect: String,
    pub icon: String,
    pub is_external: bool,
    pub is_hidden: bool,
    pub is_cache: bool,
    pub permission: String,
    pub sort: i32,
    pub status: i16,
}

/// The mathematical image of a menu row.
pub struct MenuRowV {
    pub id: int,
    pub parent_id: int,
    pub title: Seq<char>,
    pub menu_type: int,
    pub path: Seq<char>,
    pub name: Seq<char>,
    pub component: Seq<char>,
    pub redirect: Seq<char>,
    pub icon: Seq<char>,
    pub is_external: bool,
    pub is_hidden: bool,
    pub is_cache: bool,
    pub permission: Seq<char>,
    pub sort: int,
    pub status: int,
}

impl View for MenuRow {
    type V = MenuRowV;

    open spec fn view(&self) -> MenuRowV {
        MenuRowV {
            id: self.id as int,
            parent_id: self.parent_id as int,
            title: self.title@,
            menu_type: self.menu_type as int,
            path: self.path@,
            name: self.name@,
            component: self.component@,
            redirect: self.redirect@,
            icon: self.icon@,
            is_external: self.is_external,
            is_hidden: self.is_hidden,
            is_cache: self.is_cache,
            permission: self.permission@,
            sort: self.sort as int,
            status: self.status as int,
        }
    }
}

/// The images of a sequence of rows.
pub open spec fn views_of(s: Seq<MenuRow>) -> Seq<MenuRowV> {
    s.map_values(|r: MenuRow| r@)
}

/// The navigable rows: everything but buttons, in order.
pub open spec fn nav_rows(s: Seq<MenuRowV>) -> Seq<MenuRowV>
    decreases s.len(),
{
    if s.len() == 0 {
        s
    } else {
        let rest = nav_rows(s.drop_last());
        if s.last().menu_type != MENU_TYPE_BUTTON as int {
            rest.push(s.last())
        } else {
            rest
        }
    }
}

/// Some row of the sequence carries the given id.
pub open spec fn contains_id(s: Seq<MenuRowV>, id: int) -> bool {
    exists|j: int| 0 <= j < s.len() && s[j].id == id
}

/// The rows with every repeated id dropped, keeping first occurrences,
/// in order.
pub open spec fn dedup_rows(s: Seq<MenuRowV>) -> Seq<MenuRowV>
    decreases s.len(),
{
    if s.len() == 0 {
        s
    } else {
        let rest = dedup_rows(s.drop_last());
        if contains_id(s.drop_last(), s.last().id) {
            rest
        } else {
            rest.push(s.last())
        }
    }
}

/// The strict `(sort, id)` order on rows.
pub open spec fn row_lt(a: MenuRowV, b: MenuRowV) -> bool {
    a.sort < b.sort || (a.sort == b.sort && a.id < b.id)
}

/// The sequence ascends strictly in the `(sort, id)` order.
pub open spec fn strictly_sorted(s: Seq<MenuRowV>) -> bool {
    forall|i: int, j: int| 0 <= i < j < s.len() ==> row_lt(#[trigger] s[i], #[trigger] s[j])
}

/// No two rows of the sequence share an id.
pub open spec fn distinct_ids(s: Seq<MenuRowV>) -> bool {
    forall|i: int, j: int|
        0 <= i < j < s.len() ==> (#[trigger] s[i]).id != (#[trigger] s[j]).id
}

/// Deduplication keeps exactly the ids of the input.
proof fn lemma_dedup_contains(s: Seq<MenuRowV>, id: int)
    ensures
        contains_id(dedup_rows(s), id) == contains_id(s, id),
    decreases s.len(),
{
    if s.len() > 0 {
        let last = s.last();
        let pre = s.drop_last();
        let rest = dedup_rows(pre);
        lemma_dedup_contains(pre, id);
        assert(contains_id(s, id) == (contains_id(pre, id) || last.id == id)) by {
            if contains_id(s, id) {
                let j = choose|j: int| 0 <= j < s.len() && s[j].id == id;
                if j < pre.len() {
                    assert(pre[j].id == id);
                }
            }
            if contains_id(pre, id) {
                let j = choose|j: int| 0 <= j < pre.len() && pre[j].id == id;
                assert(s[j].id == id);
            }
            if last.id == id {
                assert(s[s.len() - 1].id == id);
            }
        }
        if contains_id(pre, last.id) {
            assert(dedup_rows(s) == rest);
            if last.id == id {
                assert(contains_id(pre, id));
            }
        } else {
            let d = rest.push(last);
            assert(dedup_rows(s) == d);
            assert(contains_id(d, id) == (contains_id(rest, id) || last.id == id)) by {
                if contains_id(d, id) {
                    let j = choose|j: int| 0 <= j < d.len() && d[j].id == id;
                    if j < rest.len() {
                        assert(rest[j].id == id);
                    } else {
                        assert(d[j] == last);
                    }
                }
                if contains_id(rest, id) {
                    let j = choose|j: int| 0 <= j < rest.len() && rest[j].id == id;
                    assert(d[j].id == id);
                }
                assert(d[rest.len() as int].id == last.id);
            }
        }
    }
}

/// Mapping to views commutes with taking an element off the front,
/// with pushing, and with inserting.
proof fn lemma_views_remove_front(old_in: Seq<MenuRow>, new_in: Seq<MenuRow>, row: MenuRow, all: Seq<MenuRowV>, i: int)
    requires
        0 <= i <= all.len(),
        views_of(old_in) == all.skip(i),
        old_in.len() > 0,
        row == old_in[0],
        new_in == old_in.remove(0),
    ensures
        i < all.len(),
        row@ == all[i],
        views_of(new_in) == all.skip(i + 1),
{
    assert(views_of(old_in).len() == old_in.len());
    assert(all.skip(i).len() == all.len() - i);
    assert(views_of(old_in)[0] == old_in[0]@);
    assert(all.skip(i)[0] == all[i]);
    assert forall|k: int| 0 <= k < new_in.len() implies views_of(new_in)[k] == all.skip(i + 1)[k] by {
        assert(new_in[k] == old_in[k + 1]);
        assert(views_of(new_in)[k] == new_in[k]@);
        assert(views_of(old_in)[k + 1] == old_in[k + 1]@);
        assert(all.skip(i)[k + 1] == all[i + 1 + k]);
        assert(all.skip(i + 1)[k] == all[i + 1 + k]);
    }
    assert(views_of(new_in) =~= all.skip(i + 1));
}

/// See [`lemma_views_remove_front`].
proof fn lemma_views_push(old_out: Seq<MenuRow>, new_out: Seq<MenuRow>, row: MenuRow)
    requires
        new_out == old_out.push(row),
    ensures
        views_of(new_out) == views_of(old_out).push(row@),
{
    assert forall|k: int| 0 <= k < new_out.len() implies views_of(new_out)[k] == views_of(
        old_out,
    ).push(row@)[k] by {
        assert(views_of(new_out)[k] == new_out[k]@);
        if k < old_out.len() {
            assert(new_out[k] == old_out[k]);
            assert(views_of(old_out)[k] == old_out[k]@);
        } else {
            assert(new_out[k] == row);
        }
    }
    assert(views_of(new_out) =~= views_of(old_out).push(row@));
}

/// See [`lemma_views_remove_front`].
proof fn lemma_views_insert(old_out: Seq<MenuRow>, new_out: Seq<MenuRow>, pos: int, row: MenuRow)
    requires
        0 <= pos <= old_out.len(),
        new_out == old_out.insert(pos, row),
    ensures
        views_of(new_out) == views_of(old_out).insert(pos, row@),
{
    old_out.insert_ensures(pos, row);
    views_of(old_out).insert_ensures(pos, row@);
    assert forall|k: int| 0 <= k < new_out.len() implies views_of(new_out)[k] == views_of(
        old_out,
    ).insert(pos, row@)[k] by {
        assert(views_of(new_out)[k] == new_out[k]@);
        if k < pos {
            assert(new_out[k] == old_out[k]);
            assert(views_of(old_out)[k] == old_out[k]@);
        } else if k == pos {
            assert(new_out[k] == row);
        } else {
            assert(new_out[k] == old_out[k - 1]);
            assert(views_of(old_out)[k - 1] == old_out[k - 1]@);
        }
    }
    assert(views_of(new_out) =~= views_of(old_out).insert(pos, row@));
}

/// Deduplicated rows carry pairwise distinct ids.
proof fn lemma_dedup_distinct(s: Seq<MenuRowV>)
    ensures
        distinct_ids(dedup_rows(s)),
    decreases s.len(),
{
    if s.len() > 0 {
        lemma_dedup_distinct(s.drop_last());
        if !contains_id(s.drop_last(), s.last().id) {
            lemma_dedup_contains(s.drop_last(), s.last().id);
            let d = dedup_rows(s);
            let rest = dedup_rows(s.drop_last());
            assert forall|i: int, j: int| 0 <= i < j < d.len() implies (#[trigger] d[i]).id != (
            #[trigger] d[j]).id by {
                if j < d.len() - 1 {
                    assert(d[i] == rest[i] && d[j] == rest[j]);
                } else {
                    assert(d[i] == rest[i]);
                    if d[i].id == s.last().id {
                        assert(contains_id(rest, s.last().id));
                    }
                }
            }
        }
    }
}

/// Inserting an element adds exactly it to the multiset of a sequence.
proof fn lemma_insert_to_multiset<A>(s: Seq<A>, pos: int, v: A)
    requires
        0 <= pos <= s.len(),
    ensures
        s.insert(pos, v).to_multiset() == s.to_multiset().insert(v),
{
    broadcast use vstd::seq_lib::group_to_multiset_ensures;

    let a = s.subrange(0, pos);
    let b = s.subrange(pos, s.len() as int);
    assert(s.insert(pos, v) == a.push(v) + b);
    vstd::seq_lib::lemma_multiset_commutative(a.push(v), b);
    vstd::seq_lib::lemma_multiset_commutative(a, b);
    assert(a + b =~= s);
    assert(a.push(v).to_multiset() == a.to_multiset().insert(v));
    assert(s.insert(pos, v).to_multiset() =~= s.to_multiset().insert(v));
}

/// Keep only the navigable rows, preserving order.
fn filter_nav(rows: Vec<MenuRow>) -> (r: Vec<MenuRow>)
    ensures
        views_of(r@) == nav_rows(views_of(rows@)),
{
    let ghost all = views_of(rows@);
    let mut input = rows;
    let mut out: Vec<MenuRow> = Vec::new();
    let ghost mut i: int = 0;
    proof {
        assert(all.take(0) =~= Seq::<MenuRowV>::empty());
        assert(nav_rows(all.take(0)) =~= Seq::<MenuRowV>::empty());
        assert(views_of(out@) =~= nav_rows(all.take(0)));
        assert(views_of(input@) =~= all.skip(0));
    }
    while input.len() > 0
        invariant
            0 <= i <= all.len(),
            views_of(input@) == all.skip(i),
            views_of(out@) == nav_rows(all.take(i)),
        decreases input@.len(),
    {
        let ghost old_in = input@;
        let ghost old_out = out@;
        let row = input.remove(0);
        proof {
            lemma_views_remove_front(old_in, input@, row, all, i);
            assert(all.take(i + 1).drop_last() =~= all.take(i));
            assert(all.take(i + 1).last() == all[i]);
        }
        if row.menu_type != MENU_TYPE_BUTTON {
            out.push(row);
            proof {
                lemma_views_push(old_out, out@, row);
                assert(views_of(out@) =~= nav_rows(all.take(i + 1)));
            }
        } else {
            proof {
                assert(views_of(out@) =~= nav_rows(all.take(i + 1)));
            }
        }
        proof {
            i = i + 1;
        }
    }
    proof {
        assert(all.take(all.len() as int) =~= all);
    }
    out
}

/// Drop every row whose id already occurred, preserving order.
fn dedup_by_id(rows: Vec<MenuRow>) -> (r: Vec<MenuRow>)
    ensures
        views_of(r@) == dedup_rows(views_of(rows@)),
{
    let ghost all = views_of(rows@);
    let mut input = rows;
    let mut out: Vec<MenuRow> = Vec::new();
    let ghost mut i: int = 0;
    proof {
        assert(views_of(out@) =~= dedup_rows(all.take(0)));
        assert(views_of(input@) =~= all.skip(0));
    }
    while input.len() > 0
        invariant
            0 <= i <= all.len(),
            views_of(input@) == all.skip(i),
            views_of(out@) == dedup_rows(all.take(i)),
        decreases input@.len(),
    {
        let ghost old_in = input@;
        let row = input.remove(0);
        proof {
            lemma_views_remove_front(old_in, input@, row, all, i);
            assert(all.take(i + 1).drop_last() =~= all.take(i));
            assert(all.take(i + 1).last() == all[i]);
        }
        let mut seen = false;
        let mut k: usize = 0;
        while k < out.len()
            invariant
                k <= out@.len(),
                seen == exists|j: int| 0 <= j < k && views_of(out@)[j].id == row@.id,
                views_of(out@) == dedup_rows(all.take(i)),
                row@ == all[i],
            decreases out@.len() - k,
        {
            if out[k].id == row.id {
                proof {
                    assert(views_of(out@)[k as int].id == row@.id);
                }
                seen = true;
            }
            k = k + 1;
        }
        proof {
            assert(seen == contains_id(views_of(out@), row@.id));
            lemma_dedup_contains(all.take(i), row@.id);
            assert(seen == contains_id(all.take(i), all[i].id));
        }
        if !seen {
            let ghost old_out = out@;
            out.push(row);
            proof {
                lemma_views_push(old_out, out@, row);
                assert(views_of(out@) =~= dedup_rows(all.take(i + 1)));
            }
        } else {
            proof {
                assert(views_of(out@) =~= dedup_rows(all.take(i + 1)));
            }
        }
        proof {
            i = i + 1;
        }
    }
    proof {
        assert(all.take(all.len() as int) =~= all);
    }
    out
}

/// Sort rows by `(sort, id)`, strictly: the input carries pairwise
/// distinct ids, so the order is total and the result unique.
fn sort_rows(rows: Vec<MenuRow>) -> (r: Vec<MenuRow>)
    requires
        distinct_ids(views_of(rows@)),
    ensures
        strictly_sorted(views_of(r@)),
        distinct_ids(views_of(r@)),
        views_of(r@).to_multiset() == views_of(rows@).to_multiset(),
        views_of(r@).len() == views_of(rows@).len(),
{
    broadcast use vstd::seq_lib::group_to_multiset_ensures;

    let ghost all = views_of(rows@);
    let mut input = rows;
    let mut out: Vec<MenuRow> = Vec::new();
    let ghost mut i: int = 0;
    proof {
        assert(views_of(input@) =~= all.skip(0));
        assert(views_of(out@) =~= Seq::<MenuRowV>::empty());
        assert(all.take(0) =~= Seq::<MenuRowV>::empty());
        assert(views_of(out@).to_multiset() =~= all.take(0).to_multiset());
    }
    while input.len() > 0
        invariant
            0 <= i <= all.len(),
            views_of(input@) == all.skip(i),
            views_of(out@).to_multiset() == all.take(i).to_multiset(),
            views_of(out@).len() == i,
            strictly_sorted(views_of(out@)),
            distinct_ids(views_of(out@)),
            forall|k: int| 0 <= k < i ==> all.take(i).contains(#[trigger] views_of(out@)[k]),
            distinct_ids(all),
        decreases input@.len(),
    {
        let ghost old_in = input@;
        let row = input.remove(0);
        proof {
            lemma_views_remove_front(old_in, input@, row, all, i);
        }
        let mut pos: usize = 0;
        while pos < out.len() && !(out[pos].sort > row.sort || (out[pos].sort == row.sort
            && out[pos].id > row.id))
            invariant
                pos <= out@.len(),
                forall|k: int| 0 <= k < pos ==> !row_lt(row@, #[trigger] views_of(out@)[k]),
                views_of(out@).len() == i,
                row@ == all[i],
            decreases out@.len() - pos,
        {
            proof {
                assert(views_of(out@)[pos as int] == out@[pos as int]@);
            }
            pos = pos + 1;
        }
        let ghost before = views_of(out@);
        proof {
            assert(pos < out@.len() ==> row_lt(all[i], before[pos as int])) by {
                if pos < out@.len() {
                    assert(before[pos as int] == out@[pos as int]@);
                }
            }
            // The new row's id differs from everything already placed.
            assert forall|k: int| 0 <= k < before.len() implies (#[trigger] before[k]).id
                != all[i].id by {
                assert(all.take(i).contains(before[k]));
                let w = choose|w: int| 0 <= w < i && all.take(i)[w] == before[k];
                assert(all[w] == before[k]);
            }
        }
        let ghost old_out = out@;
        out.insert(pos, row);
        proof {
            lemma_views_insert(old_out, out@, pos as int, row);
            lemma_insert_to_multiset(before, pos as int, all[i]);
            assert(all.take(i + 1).drop_last() =~= all.take(i));
            assert(all.take(i + 1) =~= all.take(i).push(all[i]));
            all.take(i).to_multiset_ensures();
            assert(all.take(i).push(all[i]).to_multiset() =~= all.take(i).to_multiset().insert(
                all[i],
            ));
            assert(views_of(out@).to_multiset() =~= all.take(i + 1).to_multiset());
            before.insert_ensures(pos as int, all[i]);
            let now = views_of(out@);
            // Strict order and distinct ids are kept: everything before
            // the insertion point is strictly below the new row,
            // everything after is strictly above, and the new row's id
            // is fresh.
            assert forall|a: int, b: int| 0 <= a < b < now.len() implies row_lt(
                #[trigger] now[a],
                #[trigger] now[b],
            ) && now[a].id != now[b].id by {
                if b < pos {
                    assert(now[a] == before[a] && now[b] == before[b]);
                    assert(row_lt(before[a], before[b]));
                } else if b == pos {
                    assert(now[a] == before[a] && now[b] == all[i]);
                    assert(!row_lt(all[i], before[a]));
                    assert(before[a].id != all[i].id);
                } else {
                    assert(now[b] == before[b - 1]);
                    if a < pos {
                        assert(now[a] == before[a]);
                        assert(row_lt(before[a], before[b - 1]));
                    } else if a == pos {
                        assert(now[a] == all[i]);
                        assert(row_lt(all[i], before[pos as int]));
                        if b - 1 > pos {
                            assert(row_lt(before[pos as int], before[b - 1]));
                        }
                        assert(before[b - 1].id != all[i].id);
                    } else {
                        assert(now[a] == before[a - 1]);
                        assert(row_lt(before[a - 1], before[b - 1]));
                    }
                }
            }
            // Everything placed so far came from the consumed prefix.
            assert forall|k: int| 0 <= k < i + 1 implies all.take(i + 1).contains(
                #[trigger] views_of(out@)[k],
            ) by {
                if k == pos {
                    assert(all.take(i + 1)[i] == all[i]);
                    assert(views_of(out@)[k] == all[i]);
                } else {
                    let prev: int = if k < pos {
                        k
                    } else {
                        k - 1
                    };
                    assert(views_of(out@)[k] == before[prev]);
                    assert(all.take(i).contains(before[prev]));
                    let w = choose|w: int| 0 <= w < i && all.take(i)[w] == before[prev];
                    assert(all.take(i + 1)[w] == before[prev]);
                }
            }
            i = i + 1;
        }
    }
    proof {
        assert(all.take(all.len() as int) =~= all);
    }
    out
}

/// Filter, deduplicate and sort the role-scoped rows: the flat node
/// list of the navigation forest.
fn normalize_rows(rows: Vec<MenuRow>) -> (r: Vec<MenuRow>)
    ensures
        strictly_sorted(views_of(r@)),
        distinct_ids(views_of(r@)),
        views_of(r@).to_multiset() == dedup_rows(nav_rows(views_of(rows@))).to_multiset(),
        views_of(r@).len() == dedup_rows(nav_rows(views_of(rows@))).len(),
{
    let ghost all = views_of(rows@);
    let kept = filter_nav(rows);
    let deduped = dedup_by_id(kept);
    proof {
        lemma_dedup_distinct(nav_rows(all));
    }
    sort_rows(deduped)
}

/// One node of the navigation forest: a navigable menu row, the
/// requesting identity's role codes, and the arena indices of its
/// children. Presentation fields that the original rows do not carry
/// are fixed defaults.
#[derive(Debug)]
pub struct RouteItem {
    pub id: i64,
    pub parent_id: i64,
    pub title: String,
    pub menu_type: i16,
    pub path: String,
    pub name: String,
    pub component: String,
    pub redirect: String,
    pub icon: String,
    pub is_external: bool,
    pub is_hidden: bool,
    pub is_cache: bool,
    pub permission: String,
    pub roles: Vec<String>,
    pub sort: i32,
    pub status: i16,
    pub children: Vec<usize>,
    pub active_menu: String,
    pub always_show: bool,
    pub breadcrumb: bool,
    pub show_in_tabs: bool,
    pub affix: bool,
}

/// The navigation forest as an arena: one flat node list, root indices
/// into it, child indices inside each node.
#[derive(Debug)]
pub struct RouteForest {
    pub items: Vec<RouteItem>,
    pub roots: Vec<usize>,
}

/// The menu row a forest node was built from.
pub open spec fn row_of_item(it: RouteItem) -> MenuRowV {
    MenuRowV {
        id: it.id as int,
        parent_id: it.parent_id as int,
        title: it.title@,
        menu_type: it.menu_type as int,
        path: it.path@,
        name: it.name@,
        component: it.component@,
        redirect: it.redirect@,
        icon: it.icon@,
        is_external: it.is_external,
        is_hidden: it.is_hidden,
        is_cache: it.is_cache,
        permission: it.permission@,
        sort: it.sort as int,
        status: it.status as int,
    }
}

/// The menu rows of a node list.
pub open spec fn item_rows(items: Seq<RouteItem>) -> Seq<MenuRowV> {
    items.map_values(|it: RouteItem| row_of_item(it))
}

/// A row stands at a root: its declared parent is zero, or no other
/// row of the set carries the parent's id.
pub open spec fn is_root_row(s: Seq<MenuRowV>, k: int) -> bool {
    s[k].parent_id == 0 || !(exists|j: int| 0 <= j < s.len() && j != k && s[j].id == s[k].parent_id)
}

/// The fixed presentation defaults of every built node.
pub open spec fn item_defaults(it: RouteItem) -> bool {
    &&& it.active_menu@ == Seq::<char>::empty()
    &&& !it.always_show
    &&& it.breadcrumb
    &&& it.show_in_tabs
    &&& !it.affix
}

/// Clone the role code list with its contents known.
fn clone_codes(v: &Vec<String>) -> (r: Vec<String>)
    ensures
        r.deep_view() == v.deep_view(),
{
    let r = v.clone();
    proof {
        assert forall|k: int| 0 <= k < v@.len() implies r.deep_view()[k] == v.deep_view()[k] by {
            assert(cloned::<String>(v@[k], r@[k]));
        }
        assert(r.deep_view() =~= v.deep_view());
    }
    r
}

/// Whether the row at `k` stands at a root of the normalized set.
fn is_root_at(flat: &Vec<MenuRow>, k: usize) -> (r: bool)
    requires
        k < flat@.len(),
    ensures
        r == is_root_row(views_of(flat@), k as int),
{
    let s = Ghost(views_of(flat@));
    if flat[k].parent_id == 0 {
        return true;
    }
    let pid = flat[k].parent_id;
    let n = flat.len();
    let mut j: usize = 0;
    while j < n
        invariant
            j <= n,
            n == flat@.len(),
            k < n,
            pid == flat@[k as int].parent_id,
            pid != 0,
            s@ == views_of(flat@),
            forall|w: int| 0 <= w < j && w != k ==> s@[w].id != s@[k as int].parent_id,
        decreases n - j,
    {
        if j != k && flat[j].id == pid {
            proof {
                assert(s@[j as int].id == s@[k as int].parent_id);
            }
            return false;
        }
        j = j + 1;
    }
    true
}

/// Build the navigation forest for one identity: filter the buttons
/// out, order by `(sort, id)`, drop repeated ids, and attach every row
/// to its parent — or to the root when the parent is absent — with
/// the identity's full role code list on every node.
pub fn build_route_forest(rows: Vec<MenuRow>, role_codes: Vec<String>) -> (f: RouteForest)
    ensures
        ({
            let flat = item_rows(f.items@);
            &&& strictly_sorted(flat)
            &&& distinct_ids(flat)
            &&& flat.to_multiset() == dedup_rows(nav_rows(views_of(rows@))).to_multiset()
            &&& flat.len() == dedup_rows(nav_rows(views_of(rows@))).len()
            &&& (forall|j: int|
                0 <= j < flat.len() ==> item_defaults(#[trigger] f.items@[j])
                    && f.items@[j].roles.deep_view() == role_codes.deep_view())
            &&& (forall|a: int| 0 <= a < f.roots@.len() ==> (#[trigger] f.roots@[a]) < flat.len())
            &&& (forall|a: int, b: int|
                0 <= a < b < f.roots@.len() ==> (#[trigger] f.roots@[a]) < (#[trigger] f.roots@[b]))
            &&& (forall|k: usize|
                k < flat.len() ==> (f.roots@.contains(k) <==> is_root_row(flat, k as int)))
            &&& (forall|j: int, a: int|
                0 <= j < flat.len() && 0 <= a < f.items@[j].children@.len()
                    ==> (#[trigger] f.items@[j].children@[a]) < flat.len())
            &&& (forall|j: int, a: int, b: int|
                0 <= j < flat.len() && 0 <= a < b < f.items@[j].children@.len()
                    ==> (#[trigger] f.items@[j].children@[a]) < (#[trigger] f.items@[j].children@[b]))
            &&& (forall|j: int, k: usize|
                0 <= j < flat.len() && k < flat.len() ==> ((#[trigger] f.items@[j].children@.contains(
                    k,
                )) <==> (!is_root_row(flat, k as int) && flat[k as int].parent_id == flat[j].id)))
            &&& (rows@.len() == 0 ==> flat.len() == 0 && f.roots@.len() == 0)
        }),
{
    proof {
        if views_of(rows@).len() == 0 {
            assert(views_of(rows@) =~= Seq::<MenuRowV>::empty());
            assert(nav_rows(views_of(rows@)).len() == 0);
            assert(dedup_rows(nav_rows(views_of(rows@))).len() == 0);
        }
    }
    let mut flat = normalize_rows(rows);
    let ghost fv = views_of(flat@);
    let n = flat.len();
    // Which rows stand at a root.
    let mut root_flag: Vec<bool> = Vec::new();
    let mut k: usize = 0;
    while k < n
        invariant
            k <= n,
            n == flat@.len(),
            fv == views_of(flat@),
            root_flag@.len() == k,
            forall|w: int| 0 <= w < k ==> #[trigger] root_flag@[w] == is_root_row(fv, w),
        decreases n - k,
    {
        let b = is_root_at(&flat, k);
        root_flag.push(b);
        k = k + 1;
    }
    // The root index list, ascending.
    let mut roots: Vec<usize> = Vec::new();
    let mut k2: usize = 0;
    while k2 < n
        invariant
            k2 <= n,
            n == flat@.len(),
            fv == views_of(flat@),
            root_flag@.len() == n,
            forall|w: int| 0 <= w < n ==> #[trigger] root_flag@[w] == is_root_row(fv, w),
            forall|a: int| 0 <= a < roots@.len() ==> (#[trigger] roots@[a]) < k2,
            forall|a: int, b: int|
                0 <= a < b < roots@.len() ==> (#[trigger] roots@[a]) < (#[trigger] roots@[b]),
            forall|w: usize| w < k2 ==> (roots@.contains(w) <==> is_root_row(fv, w as int)),
        decreases n - k2,
    {
        let ghost before = roots@;
        if root_flag[k2] {
            roots.push(k2);
        }
        proof {
            assert forall|w: usize| w < k2 + 1 implies (roots@.contains(w) <==> is_root_row(
                fv,
                w as int,
            )) by {
                if w < k2 {
                    if before.contains(w) {
                        let a = choose|a: int| 0 <= a < before.len() && before[a] == w;
                        assert(roots@[a] == w);
                    }
                    if roots@.contains(w) {
                        let a = choose|a: int| 0 <= a < roots@.len() && roots@[a] == w;
                        if a < before.len() {
                            assert(before[a] == w);
                        }
                    }
                } else {
                    if is_root_row(fv, w as int) {
                        assert(roots@[roots@.len() - 1] == k2);
                    }
                    if roots@.contains(w) {
                        let a = choose|a: int| 0 <= a < roots@.len() && roots@[a] == w;
                        if a < before.len() {
                            assert(before[a] == w && before[a] < k2);
                        }
                    }
                }
            }
        }
        k2 = k2 + 1;
    }
    // Each row's children, ascending.
    let mut kids: Vec<Vec<usize>> = Vec::new();
    let mut j: usize = 0;
    while j < n
        invariant
            j <= n,
            n == flat@.len(),
            fv == views_of(flat@),
            root_flag@.len() == n,
            forall|w: int| 0 <= w < n ==> #[trigger] root_flag@[w] == is_root_row(fv, w),
            kids@.len() == j,
            forall|w: int, a: int|
                0 <= w < j && 0 <= a < kids@[w]@.len() ==> (#[trigger] kids@[w]@[a]) < n,
            forall|w: int, a: int, b: int|
                0 <= w < j && 0 <= a < b < kids@[w]@.len() ==> (#[trigger] kids@[w]@[a]) < (
                #[trigger] kids@[w]@[b]),
            forall|w: int, c: usize|
                0 <= w < j && c < n ==> ((#[trigger] kids@[w]@.contains(c)) <==> (!is_root_row(
                    fv,
                    c as int,
                ) && fv[c as int].parent_id == fv[w].id)),
        decreases n - j,
    {
        let mut c: Vec<usize> = Vec::new();
        let mut k3: usize = 0;
        while k3 < n
            invariant
                k3 <= n,
                j < n,
                n == flat@.len(),
                fv == views_of(flat@),
                root_flag@.len() == n,
                forall|w: int| 0 <= w < n ==> #[trigger] root_flag@[w] == is_root_row(fv, w),
                forall|a: int| 0 <= a < c@.len() ==> (#[trigger] c@[a]) < k3,
                forall|a: int, b: int|
                    0 <= a < b < c@.len() ==> (#[trigger] c@[a]) < (#[trigger] c@[b]),
                forall|w: usize|
                    w < k3 ==> (c@.contains(w) <==> (!is_root_row(fv, w as int) && fv[w as int].parent_id
                        == fv[j as int].id)),
            decreases n - k3,
        {
            let ghost before = c@;
            proof {
                assert(views_of(flat@)[k3 as int] == flat@[k3 as int]@);
                assert(views_of(flat@)[j as int] == flat@[j as int]@);
            }
            if flat[k3].parent_id == flat[j].id && !root_flag[k3] {
                c.push(k3);
            }
            proof {
                assert forall|w: usize| w < k3 + 1 implies (c@.contains(w) <==> (!is_root_row(
                    fv,
                    w as int,
                ) && fv[w as int].parent_id == fv[j as int].id)) by {
                    if w < k3 {
                        if before.contains(w) {
                            let a = choose|a: int| 0 <= a < before.len() && before[a] == w;
                            assert(c@[a] == w);
                        }
                        if c@.contains(w) {
                            let a = choose|a: int| 0 <= a < c@.len() && c@[a] == w;
                            if a < before.len() {
                                assert(before[a] == w);
                            }
                        }
                    } else {
                        if !is_root_row(fv, w as int) && fv[w as int].parent_id == fv[j as int].id {
                            assert(c@[c@.len() - 1] == k3);
                        }
                        if c@.contains(w) {
                            let a = choose|a: int| 0 <= a < c@.len() && c@[a] == w;
                            if a < before.len() {
                                assert(before[a] == w && before[a] < k3);
                            }
                        }
                    }
                }
            }
            k3 = k3 + 1;
        }
        kids.push(c);
        j = j + 1;
    }
    // Assemble the nodes, consuming rows and child lists in step.
    let ghost kids0 = kids@;
    let mut items: Vec<RouteItem> = Vec::new();
    let ghost mut i: int = 0;
    proof {
        assert(item_rows(items@) =~= fv.take(0));
        assert(views_of(flat@) =~= fv.skip(0));
        assert(kids@ =~= kids0.skip(0));
    }
    while flat.len() > 0
        invariant
            0 <= i <= fv.len(),
            fv.len() == n,
            kids0.len() == n,
            views_of(flat@) == fv.skip(i),
            kids@ == kids0.skip(i),
            items@.len() == i,
            item_rows(items@) == fv.take(i),
            forall|w: int|
                0 <= w < i ==> item_defaults(#[trigger] items@[w]) && items@[w].roles.deep_view()
                    == role_codes.deep_view(),
            forall|w: int| 0 <= w < i ==> (#[trigger] items@[w]).children@ == kids0[w]@,
        decreases flat@.len(),
    {
        let ghost old_in = flat@;
        let ghost old_items = items@;
        proof {
            assert(views_of(flat@).len() == flat@.len());
            assert(fv.skip(i).len() == fv.len() - i);
            assert(kids0.skip(i).len() == kids0.len() - i);
        }
        let row = flat.remove(0);
        let c = kids.remove(0);
        proof {
            lemma_views_remove_front(old_in, flat@, row, fv, i);
            assert(kids@ =~= kids0.skip(i + 1));
            assert(kids0.skip(i)[0] == kids0[i]);
        }
        let roles = clone_codes(&role_codes);
        let item = RouteItem {
            id: row.id,
            parent_id: row.parent_id,
            title: row.title,
            menu_type: row.menu_type,
            path: row.path,
            name: row.name,
            component: row.component,
            redirect: row.redirect,
            icon: row.icon,
            is_external: row.is_external,
            is_hidden: row.is_hidden,
            is_cache: row.is_cache,
            permission: row.permission,
            roles,
            sort: row.sort,
            status: row.status,
            children: c,
            active_menu: String::new(),
            always_show: false,
            breadcrumb: true,
            show_in_tabs: true,
            affix: false,
        };
        items.push(item);
        proof {
            assert(row_of_item(items@[i]) == fv[i]);
            assert forall|w: int| 0 <= w < i + 1 implies item_rows(items@)[w] == fv.take(i + 1)[w] by {
                assert(item_rows(items@)[w] == row_of_item(items@[w]));
                if w < i {
                    assert(items@[w] == old_items[w]);
                    assert(item_rows(old_items)[w] == row_of_item(old_items[w]));
                }
            }
            assert(item_rows(items@) =~= fv.take(i + 1));
            i = i + 1;
        }
    }
    proof {
        assert(fv.take(n as int) =~= fv);
    }
    let f = RouteForest { items, roots };
    proof {
        assert(item_rows(f.items@) == fv);
        assert forall|j2: int, k4: usize|
            0 <= j2 < fv.len() && k4 < fv.len() implies ((#[trigger] f.items@[j2].children@.contains(
            k4,
        )) <==> (!is_root_row(fv, k4 as int) && fv[k4 as int].parent_id == fv[j2].id)) by {
            assert(f.items@[j2].children@ == kids0[j2]@);
        }
        assert forall|j2: int, a: int|
            0 <= j2 < fv.len() && 0 <= a < f.items@[j2].children@.len() implies (
        #[trigger] f.items@[j2].children@[a]) < fv.len() by {
            assert(f.items@[j2].children@ == kids0[j2]@);
        }
        assert forall|j2: int, a: int, b: int|
            0 <= j2 < fv.len() && 0 <= a < b < f.items@[j2].children@.len() implies (
        #[trigger] f.items@[j2].children@[a]) < (#[trigger] f.items@[j2].children@[b]) by {
            assert(f.items@[j2].children@ == kids0[j2]@);
        }
        if fv.len() == 0 && f.roots@.len() > 0 {
            assert(f.roots@[0] < fv.len());
        }
    }
    f
}

/// One row of the permission join: a menu entry's enablement status
/// and its permission string, when it has one.
#[derive(Debug)]
pub struct PermissionRow {
    pub status: i16,
    pub permission: Option<String>,
}

/// The mathematical image of a permission row.
pub struct PermissionRowV {
    pub status: int,
    pub permission: Option<Seq<char>>,
}

impl View for PermissionRow {
    type V = PermissionRowV;

    open spec fn view(&self) -> PermissionRowV {
        PermissionRowV {
            status: self.status as int,
            permission: match self.permission {
                Some(p) => Some(p@),
                None => None,
            },
        }
    }
}

/// The images of a sequence of permission rows.
pub open spec fn perm_views(s: Seq<PermissionRow>) -> Seq<PermissionRowV> {
    s.map_values(|r: PermissionRow| r@)
}

/// The permission strings granted by the rows: those carried by
/// enabled entries, in row order, duplicates still present.
pub open spec fn granted(s: Seq<PermissionRowV>) -> Seq<Seq<char>>
    decreases s.len(),
{
    if s.len() == 0 {
        Seq::empty()
    } else {
        let rest = granted(s.drop_last());
        match s.last().permission {
            Some(p) => if s.last().status == 1 {
                rest.push(p)
            } else {
                rest
            },
            None => rest,
        }
    }
}

/// Some string of the sequence equals the given one.
pub open spec fn contains_str(q: Seq<Seq<char>>, x: Seq<char>) -> bool {
    exists|j: int| 0 <= j < q.len() && q[j] == x
}

/// The strings with every repetition dropped, keeping first
/// occurrences, in order.
pub open spec fn dedup_strs(q: Seq<Seq<char>>) -> Seq<Seq<char>>
    decreases q.len(),
{
    if q.len() == 0 {
        q
    } else {
        let rest = dedup_strs(q.drop_last());
        if contains_str(q.drop_last(), q.last()) {
            rest
        } else {
            rest.push(q.last())
        }
    }
}

/// Deduplication keeps exactly the strings of the input.
proof fn lemma_dedup_strs_contains(q: Seq<Seq<char>>, x: Seq<char>)
    ensures
        contains_str(dedup_strs(q), x) == contains_str(q, x),
    decreases q.len(),
{
    if q.len() > 0 {
        let last = q.last();
        let pre = q.drop_last();
        let rest = dedup_strs(pre);
        lemma_dedup_strs_contains(pre, x);
        assert(contains_str(q, x) == (contains_str(pre, x) || last == x)) by {
            if contains_str(q, x) {
                let j = choose|j: int| 0 <= j < q.len() && q[j] == x;
                if j < pre.len() {
                    assert(pre[j] == x);
                }
            }
            if contains_str(pre, x) {
                let j = choose|j: int| 0 <= j < pre.len() && pre[j] == x;
                assert(q[j] == x);
            }
            if last == x {
                assert(q[q.len() - 1] == x);
            }
        }
        if contains_str(pre, last) {
            assert(dedup_strs(q) == rest);
        } else {
            let d = rest.push(last);
            assert(dedup_strs(q) == d);
            assert(contains_str(d, x) == (contains_str(rest, x) || last == x)) by {
                if contains_str(d, x) {
                    let j = choose|j: int| 0 <= j < d.len() && d[j] == x;
                    if j < rest.len() {
                        assert(rest[j] == x);
                    } else {
                        assert(d[j] == last);
                    }
                }
                if contains_str(rest, x) {
                    let j = choose|j: int| 0 <= j < rest.len() && rest[j] == x;
                    assert(d[j] == x);
                }
                assert(d[rest.len() as int] == last);
            }
        }
    }
}

/// Deduplicated strings are pairwise distinct.
proof fn lemma_dedup_strs_distinct(q: Seq<Seq<char>>)
    ensures
        forall|a: int, b: int|
            0 <= a < b < dedup_strs(q).len() ==> dedup_strs(q)[a] != dedup_strs(q)[b],
    decreases q.len(),
{
    if q.len() > 0 {
        lemma_dedup_strs_distinct(q.drop_last());
        if !contains_str(q.drop_last(), q.last()) {
            lemma_dedup_strs_contains(q.drop_last(), q.last());
            let d = dedup_strs(q);
            let rest = dedup_strs(q.drop_last());
            assert forall|a: int, b: int| 0 <= a < b < d.len() implies d[a] != d[b] by {
                if b < d.len() - 1 {
                    assert(d[a] == rest[a] && d[b] == rest[b]);
                } else {
                    assert(d[a] == rest[a]);
                    if d[a] == q.last() {
                        assert(contains_str(rest, q.last()));
                    }
                }
            }
        }
    }
}

/// The distinct permission strings carried by enabled rows, first
/// occurrences first: overlapping grants from several roles collapse
/// to one entry each.
pub fn permission_strings(rows: Vec<PermissionRow>) -> (r: Vec<String>)
    ensures
        r.deep_view() == dedup_strs(granted(perm_views(rows@))),
        forall|a: int, b: int| 0 <= a < b < r.deep_view().len() ==> r.deep_view()[a] != r.deep_view()[b],
        rows@.len() == 0 ==> r@.len() == 0,
{
    let ghost all = perm_views(rows@);
    let mut input = rows;
    let mut out: Vec<String> = Vec::new();
    let ghost mut i: int = 0;
    proof {
        assert(perm_views(input@) =~= all.skip(0));
        assert(all.take(0) =~= Seq::<PermissionRowV>::empty());
        assert(granted(all.take(0)) =~= Seq::<Seq<char>>::empty());
        assert(out.deep_view() =~= dedup_strs(granted(all.take(0))));
    }
    while input.len() > 0
        invariant
            0 <= i <= all.len(),
            perm_views(input@) == all.skip(i),
            out.deep_view() == dedup_strs(granted(all.take(i))),
        decreases input@.len(),
    {
        let ghost old_in = input@;
        proof {
            assert(perm_views(old_in).len() == old_in.len());
            assert(all.skip(i).len() == all.len() - i);
        }
        let row = input.remove(0);
        proof {
            assert(perm_views(old_in)[0] == old_in[0]@);
            assert(all.skip(i)[0] == all[i]);
            assert forall|k: int| 0 <= k < input@.len() implies perm_views(input@)[k] == all.skip(
                i + 1,
            )[k] by {
                assert(input@[k] == old_in[k + 1]);
                assert(perm_views(input@)[k] == input@[k]@);
                assert(perm_views(old_in)[k + 1] == old_in[k + 1]@);
                assert(all.skip(i)[k + 1] == all[i + 1 + k]);
                assert(all.skip(i + 1)[k] == all[i + 1 + k]);
            }
            assert(perm_views(input@) =~= all.skip(i + 1));
            assert(all.take(i + 1).drop_last() =~= all.take(i));
            assert(all.take(i + 1).last() == all[i]);
        }
        let ghost g_pre = granted(all.take(i));
        let status = row.status;
        match row.permission {
            Some(p) => {
                if status == 1 {
                    proof {
                        assert(granted(all.take(i + 1)) == g_pre.push(p@));
                    }
                    let mut seen = false;
                    let mut k: usize = 0;
                    while k < out.len()
                        invariant
                            k <= out@.len(),
                            seen == exists|j: int| 0 <= j < k && out.deep_view()[j] == p@,
                            out.deep_view() == dedup_strs(granted(all.take(i))),
                        decreases out@.len() - k,
                    {
                        if out[k] == p {
                            proof {
                                assert(out.deep_view()[k as int] == p@);
                            }
                            seen = true;
                        } else {
                            proof {
                                assert(out.deep_view()[k as int] == out@[k as int]@);
                            }
                        }
                        k = k + 1;
                    }
                    proof {
                        assert(seen == contains_str(out.deep_view(), p@));
                        lemma_dedup_strs_contains(g_pre, p@);
                        assert(seen == contains_str(g_pre, p@));
                        assert(granted(all.take(i + 1)).drop_last() =~= g_pre);
                    }
                    if !seen {
                        let ghost before = out.deep_view();
                        out.push(p);
                        proof {
                            assert forall|w: int| 0 <= w < out@.len() implies out.deep_view()[w]
                                == before.push(p@)[w] by {
                                assert(out.deep_view()[w] == out@[w]@);
                            }
                            assert(out.deep_view() =~= before.push(p@));
                            assert(out.deep_view() =~= dedup_strs(granted(all.take(i + 1))));
                        }
                    } else {
                        proof {
                            assert(out.deep_view() =~= dedup_strs(granted(all.take(i + 1))));
                        }
                    }
                } else {
                    proof {
                        assert(granted(all.take(i + 1)) == g_pre);
                    }
                }
            },
            None => {
                proof {
                    assert(granted(all.take(i + 1)) == g_pre);
                }
            },
        }
        proof {
            i = i + 1;
        }
    }
    proof {
        assert(all.take(all.len() as int) =~= all);
        lemma_dedup_strs_distinct(granted(all));
        assert(out@.len() == out.deep_view().len());
    }
    out
}

} // verus!
