use admin_auth::menu::build_route_forest;
use admin_auth::menu::permission_strings;
use admin_auth::menu::MenuRow;
use admin_auth::menu::PermissionRow;

fn row(id: i64, parent_id: i64, title: &str, menu_type: i16) -> MenuRow {
    MenuRow {
        id,
        parent_id,
        title: title.to_string(),
        menu_type,
        path: String::new(),
        name: String::new(),
        component: String::new(),
        redirect: String::new(),
        icon: String::new(),
        is_external: false,
        is_hidden: false,
        is_cache: false,
        permission: String::new(),
        sort: 0,
        status: 1,
    }
}

fn sorted_row(id: i64, parent_id: i64, title: &str, sort: i32) -> MenuRow {
    let mut r = row(id, parent_id, title, 2);
    r.sort = sort;
    r
}

#[test]
fn buttons_are_excluded_and_orphans_promoted() {
    let rows = vec![
        row(1, 0, "A", 1),
        row(2, 1, "B", 2),
        row(3, 1, "X", 3),
        row(4, 99, "C", 2),
    ];
    let forest = build_route_forest(rows, vec!["admin".to_string()]);
    // The button row 3 is gone; nodes come sorted by (sort, id).
    let titles: Vec<&str> = forest.items.iter().map(|i| i.title.as_str()).collect();
    assert_eq!(titles, vec!["A", "B", "C"]);
    // Roots: A, and C whose parent 99 is absent.
    let root_titles: Vec<&str> =
        forest.roots.iter().map(|&r| forest.items[r].title.as_str()).collect();
    assert_eq!(root_titles, vec!["A", "C"]);
    // A's children hold exactly B.
    assert_eq!(forest.items[0].children, vec![1usize]);
    assert_eq!(forest.items[1].children, Vec::<usize>::new());
    assert_eq!(forest.items[2].children, Vec::<usize>::new());
    // Current behavior, kept on purpose: every node carries the
    // identity's full role list, not just the role that granted it.
    for item in &forest.items {
        assert_eq!(item.roles, vec!["admin".to_string()]);
    }
}

#[test]
fn no_rows_build_an_empty_forest() {
    let forest = build_route_forest(Vec::new(), vec!["admin".to_string()]);
    assert!(forest.items.is_empty());
    assert!(forest.roots.is_empty());
}

#[test]
fn siblings_order_by_sort_key_then_id() {
    let rows = vec![
        sorted_row(10, 0, "third", 5),
        sorted_row(2, 0, "second", 1),
        sorted_row(7, 0, "first", 0),
        sorted_row(3, 0, "fourth", 5),
    ];
    let forest = build_route_forest(rows, Vec::new());
    let titles: Vec<&str> = forest.items.iter().map(|i| i.title.as_str()).collect();
    // sort 0 first, then sort 1, then the two with sort 5 by id (3 before 10).
    assert_eq!(titles, vec!["first", "second", "fourth", "third"]);
}

#[test]
fn a_menu_granted_twice_appears_once() {
    let rows = vec![row(1, 0, "A", 1), row(1, 0, "A", 1), row(2, 1, "B", 2)];
    let forest = build_route_forest(rows, Vec::new());
    assert_eq!(forest.items.len(), 2);
    assert_eq!(forest.roots.len(), 1);
}

#[test]
fn self_parented_rows_become_roots() {
    let rows = vec![row(5, 5, "loop", 2)];
    let forest = build_route_forest(rows, Vec::new());
    assert_eq!(forest.roots, vec![0usize]);
    assert_eq!(forest.items[0].children, Vec::<usize>::new());
}

#[test]
fn grandchildren_nest_under_their_parents() {
    let rows = vec![row(1, 0, "top", 1), row(2, 1, "mid", 1), row(5, 2, "leaf", 2)];
    let forest = build_route_forest(rows, Vec::new());
    assert_eq!(forest.roots, vec![0usize]);
    assert_eq!(forest.items[0].children, vec![1usize]);
    assert_eq!(forest.items[1].children, vec![2usize]);
    assert_eq!(forest.items[2].children, Vec::<usize>::new());
}

fn perm(status: i16, permission: Option<&str>) -> PermissionRow {
    PermissionRow { status, permission: permission.map(|p| p.to_string()) }
}

#[test]
fn overlapping_grants_collapse_to_one_entry() {
    let rows = vec![
        perm(1, Some("system:user:list")),
        perm(1, Some("system:user:add")),
        perm(1, Some("system:user:list")),
        perm(1, Some("system:user:add")),
    ];
    let perms = permission_strings(rows);
    assert_eq!(perms, vec!["system:user:list".to_string(), "system:user:add".to_string()]);
}

#[test]
fn disabled_and_empty_permission_rows_grant_nothing() {
    let rows = vec![
        perm(0, Some("hidden:by:status")),
        perm(1, None),
        perm(1, Some("kept:one")),
    ];
    let perms = permission_strings(rows);
    assert_eq!(perms, vec!["kept:one".to_string()]);
    assert!(permission_strings(Vec::new()).is_empty());
}
