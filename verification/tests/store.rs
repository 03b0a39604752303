//! The persistent store: workspaces, request history with its search
//! index, tabs and settings.
use reqstudio::model::{CreateRequestInput, TabState};
use reqstudio::store::Database;

fn input(ws: &str, method: &str, url: &str, body: Option<&str>, resp: Option<&str>) -> CreateRequestInput {
    CreateRequestInput {
        workspace_id: ws.to_string(),
        method: method.to_string(),
        url: url.to_string(),
        params: None,
        headers: None,
        body_type: Some("json".to_string()),
        body_content: body.map(|s| s.to_string()),
        response_status: Some(200),
        response_status_text: Some("OK".to_string()),
        response_headers: None,
        response_body: resp.map(|s| s.to_string()),
        response_time_ms: Some(12),
        response_size_bytes: Some(34),
    }
}

fn ws_id(db: &Database) -> String {
    db.get_all_workspaces().unwrap()[0].id.clone()
}

#[test]
fn a_fresh_store_holds_the_default_workspace() {
    let db = Database::new();
    let all = db.get_all_workspaces().unwrap();
    assert_eq!(all.len(), 1);
    assert_eq!(all[0].name, "Default Workspace");
    let active = db.get_setting("active_workspace_id").unwrap();
    assert_eq!(active.as_deref(), Some(all[0].id.as_str()));
}

#[test]
fn workspaces_are_listed_oldest_first() {
    let mut db = Database::new_with("w0".to_string(), 50);
    db.create_workspace_with("w2".to_string(), 200, "Two").unwrap();
    db.create_workspace_with("w1".to_string(), 100, "One").unwrap();
    let names: Vec<String> =
        db.get_all_workspaces().unwrap().into_iter().map(|w| w.name).collect();
    assert_eq!(names, vec!["Default Workspace", "One", "Two"]);
    assert!(db.create_workspace_with("w1".to_string(), 300, "Dup").is_err());
}

#[test]
fn updating_a_workspace_renames_it_and_keeps_its_creation_time() {
    let mut db = Database::new_with("w0".to_string(), 50);
    let w = db.update_workspace_with("w0", "Renamed", 75).unwrap();
    assert_eq!(w.name, "Renamed");
    assert_eq!(w.created_at, 50);
    assert_eq!(w.updated_at, 75);
    let err = db.update_workspace_with("missing", "X", 80).unwrap_err();
    assert_eq!(err, "Workspace not found");
}

#[test]
fn the_last_workspace_cannot_be_deleted() {
    let mut db = Database::new();
    let id = ws_id(&db);
    let err = db.delete_workspace(&id).unwrap_err();
    assert_eq!(err, "Cannot delete the last workspace");
    assert_eq!(db.get_all_workspaces().unwrap().len(), 1);
}

#[test]
fn deleting_a_workspace_cascades_to_its_requests_and_tabs() {
    let mut db = Database::new_with("w0".to_string(), 50);
    db.create_workspace_with("w1".to_string(), 100, "Side").unwrap();
    db.create_request_with("r1".to_string(), 110, input("w1", "GET", "http://h/a", None, None))
        .unwrap();
    db.create_tab_with("t1".to_string(), "w1", None).unwrap();
    db.delete_workspace("w1").unwrap();
    assert_eq!(db.get_all_workspaces().unwrap().len(), 1);
    assert_eq!(db.get_request_count("w1").unwrap(), 0);
    assert_eq!(db.get_tab_count("w1").unwrap(), 0);
    assert!(db.get_request("r1").unwrap().is_none());
}

#[test]
fn a_created_request_gets_its_derived_name_and_equal_timestamps() {
    let mut db = Database::new_with("w0".to_string(), 50);
    let rec = db
        .create_request_with(
            "r1".to_string(),
            120,
            input("w0", "POST", "https://api.example.com/v1/users", None, None),
        )
        .unwrap();
    assert_eq!(rec.name, "POST /v1/users");
    assert_eq!(rec.created_at, 120);
    assert_eq!(rec.updated_at, 120);
    let again = db.get_request("r1").unwrap().unwrap();
    assert_eq!(again.name, "POST /v1/users");
    // A URL without a path keeps the whole URL in the name.
    let rec2 = db
        .create_request_with(
            "r2".to_string(),
            130,
            input("w0", "GET", "https://example.com", None, None),
        )
        .unwrap();
    assert_eq!(rec2.name, "GET https://example.com");
    assert!(db
        .create_request_with("r1".to_string(), 140, input("w0", "GET", "u", None, None))
        .is_err());
}

#[test]
fn history_lists_newest_first_with_limit_and_offset() {
    let mut db = Database::new_with("w0".to_string(), 50);
    for (id, at) in [("a", 100i64), ("b", 300), ("c", 200)] {
        db.create_request_with(id.to_string(), at, input("w0", "GET", "http://h/x", None, None))
            .unwrap();
    }
    let ids = |v: Vec<reqstudio::model::SavedRequest>| -> Vec<String> {
        v.into_iter().map(|r| r.id).collect()
    };
    assert_eq!(ids(db.get_requests_by_workspace("w0", None, None).unwrap()), vec!["b", "c", "a"]);
    assert_eq!(ids(db.get_requests_by_workspace("w0", Some(2), None).unwrap()), vec!["b", "c"]);
    assert_eq!(
        ids(db.get_requests_by_workspace("w0", Some(2), Some(1)).unwrap()),
        vec!["c", "a"]
    );
    assert_eq!(ids(db.get_requests_by_workspace("w0", None, Some(5)).unwrap()).len(), 0);
    // A negative limit takes everything; a negative offset skips nothing.
    assert_eq!(
        ids(db.get_requests_by_workspace("w0", Some(-1), Some(-3)).unwrap()),
        vec!["b", "c", "a"]
    );
    assert_eq!(ids(db.get_requests_by_workspace("other", None, None).unwrap()).len(), 0);
    assert_eq!(db.get_request_count("w0").unwrap(), 3);
}

#[test]
fn search_finds_prefixes_case_insensitively_in_indexed_fields() {
    let mut db = Database::new_with("w0".to_string(), 50);
    db.create_request_with(
        "r1".to_string(),
        100,
        input("w0", "GET", "http://h/zebra", Some("{\"Flamingo\":1}"), None),
    )
    .unwrap();
    db.create_request_with(
        "r2".to_string(),
        200,
        input("w0", "GET", "http://h/other", None, Some("charcoal body")),
    )
    .unwrap();
    let ids = |v: Vec<reqstudio::model::SavedRequest>| -> Vec<String> {
        v.into_iter().map(|r| r.id).collect()
    };
    // Prefix match in the URL.
    assert_eq!(ids(db.search_requests("w0", "zeb", None).unwrap()), vec!["r1"]);
    // Case-folded match in the body.
    assert_eq!(ids(db.search_requests("w0", "flamin", None).unwrap()), vec!["r1"]);
    // Match in the response body.
    assert_eq!(ids(db.search_requests("w0", "charcoal", None).unwrap()), vec!["r2"]);
    // Match in the derived name.
    assert_eq!(ids(db.search_requests("w0", "GET", None).unwrap()), vec!["r2", "r1"]);
    // Embedded quotes are stripped.
    assert_eq!(ids(db.search_requests("w0", "\"zeb\"", None).unwrap()), vec!["r1"]);
    // A two-token phrase matches consecutively, last token as prefix.
    assert_eq!(ids(db.search_requests("w0", "charcoal bo", None).unwrap()), vec!["r2"]);
    assert_eq!(ids(db.search_requests("w0", "body charcoal", None).unwrap()).len(), 0);
    // The limit caps the newest-first result.
    assert_eq!(ids(db.search_requests("w0", "h", Some(1)).unwrap()), vec!["r2"]);
}

#[test]
fn search_never_errors_and_is_scoped_to_the_workspace() {
    let mut db = Database::new_with("w0".to_string(), 50);
    db.create_workspace_with("w1".to_string(), 60, "Other").unwrap();
    db.create_request_with(
        "r1".to_string(),
        100,
        input("w0", "GET", "http://h/unicorn", None, None),
    )
    .unwrap();
    // An empty query is a valid empty match, not an error.
    assert_eq!(db.search_requests("w0", "", None).unwrap().len(), 0);
    // Results never leak across workspaces.
    assert_eq!(db.search_requests("w1", "unicorn", None).unwrap().len(), 0);
    assert_eq!(db.search_requests("w0", "unicorn", None).unwrap().len(), 1);
}

#[test]
fn a_deleted_request_never_surfaces_in_search_again() {
    let mut db = Database::new_with("w0".to_string(), 50);
    db.create_request_with(
        "r1".to_string(),
        100,
        input("w0", "GET", "http://h/x", Some("quetzalcoatl"), None),
    )
    .unwrap();
    assert_eq!(db.search_requests("w0", "quetzal", None).unwrap().len(), 1);
    db.delete_request("r1").unwrap();
    assert_eq!(db.search_requests("w0", "quetzal", None).unwrap().len(), 0);
    // Deleting an unknown identifier is a no-op.
    db.delete_request("r1").unwrap();
}

#[test]
fn clearing_a_workspace_reports_how_many_records_went() {
    let mut db = Database::new_with("w0".to_string(), 50);
    db.create_workspace_with("w1".to_string(), 60, "Other").unwrap();
    for (id, ws) in [("a", "w0"), ("b", "w1"), ("c", "w0")] {
        db.create_request_with(
            id.to_string(),
            100,
            input(ws, "GET", "http://h/x", None, None),
        )
        .unwrap();
    }
    assert_eq!(db.clear_workspace_history("w0").unwrap(), 2);
    assert_eq!(db.get_request_count("w0").unwrap(), 0);
    assert_eq!(db.get_request_count("w1").unwrap(), 1);
}

#[test]
fn scenario_two_tabs_delete_the_active_one_reactivates_the_other() {
    // Create workspace "W"; tab A becomes active at position 0; tab B
    // deactivates A at position 1; deleting B returns A's identifier and
    // reactivates it.
    let mut db = Database::new_with("w0".to_string(), 50);
    db.create_workspace_with("W".to_string(), 60, "W").unwrap();
    let a = db.create_tab_with("A".to_string(), "W", None).unwrap();
    assert!(a.is_active);
    assert_eq!(a.position, 0);
    let b = db.create_tab_with("B".to_string(), "W", None).unwrap();
    assert!(b.is_active);
    assert_eq!(b.position, 1);
    let listed = db.get_tabs_by_workspace("W").unwrap();
    assert_eq!(listed.len(), 2);
    assert!(!listed[0].is_active && listed[0].id == "A");
    assert!(listed[1].is_active && listed[1].id == "B");
    let next = db.delete_tab("B").unwrap();
    assert_eq!(next.as_deref(), Some("A"));
    let listed = db.get_tabs_by_workspace("W").unwrap();
    assert_eq!(listed.len(), 1);
    assert!(listed[0].is_active);
}

#[test]
fn deleting_the_sole_tab_returns_no_next_identifier() {
    let mut db = Database::new_with("w0".to_string(), 50);
    db.create_tab_with("A".to_string(), "w0", None).unwrap();
    assert_eq!(db.delete_tab("A").unwrap(), None);
    assert_eq!(db.get_tab_count("w0").unwrap(), 0);
    // An unknown tab is a no-op.
    assert_eq!(db.delete_tab("A").unwrap(), None);
}

#[test]
fn deleting_an_inactive_tab_keeps_the_active_one() {
    let mut db = Database::new_with("w0".to_string(), 50);
    db.create_tab_with("A".to_string(), "w0", None).unwrap();
    db.create_tab_with("B".to_string(), "w0", None).unwrap();
    assert_eq!(db.delete_tab("A").unwrap(), None);
    let listed = db.get_tabs_by_workspace("w0").unwrap();
    assert_eq!(listed.len(), 1);
    assert_eq!(listed[0].id, "B");
    assert!(listed[0].is_active);
}

#[test]
fn the_nearest_sibling_by_position_is_reactivated() {
    let mut db = Database::new_with("w0".to_string(), 50);
    for id in ["A", "B", "C", "D"] {
        db.create_tab_with(id.to_string(), "w0", None).unwrap();
    }
    // Positions: A=0, B=1, C=2, D=3; D is active. Activate then delete C.
    db.set_active_tab("w0", "C").unwrap();
    let next = db.delete_tab("C").unwrap();
    // B (distance 1) beats A (distance 2); D (distance 1) ties with B and
    // the earlier-held tab wins.
    assert_eq!(next.as_deref(), Some("B"));
}

#[test]
fn a_new_draft_has_the_documented_defaults() {
    let mut db = Database::new_with("w0".to_string(), 50);
    let t = db.create_tab_with("A".to_string(), "w0", None).unwrap();
    assert_eq!(t.state.method, "GET");
    assert_eq!(t.state.url, "");
    assert_eq!(t.state.body_type, "none");
    assert_eq!(t.state.body_content, "");
    assert!(t.state.params.is_empty());
    assert!(t.state.headers.is_empty());
    assert!(!t.state.is_dirty);
    assert!(t.request_id.is_none());
}

#[test]
fn updating_a_tab_replaces_the_draft_but_not_position_or_activity() {
    let mut db = Database::new_with("w0".to_string(), 50);
    db.create_tab_with("A".to_string(), "w0", None).unwrap();
    db.create_tab_with("B".to_string(), "w0", None).unwrap();
    let mut st = TabState::default();
    st.method = "PUT".to_string();
    st.url = "http://h/q".to_string();
    st.is_dirty = true;
    db.update_tab("A", st, Some("r9".to_string())).unwrap();
    let listed = db.get_tabs_by_workspace("w0").unwrap();
    let a = listed.iter().find(|t| t.id == "A").unwrap();
    assert_eq!(a.state.method, "PUT");
    assert_eq!(a.request_id.as_deref(), Some("r9"));
    assert_eq!(a.position, 0);
    assert!(!a.is_active);
}

#[test]
fn set_active_switches_within_the_workspace_only() {
    let mut db = Database::new_with("w0".to_string(), 50);
    db.create_tab_with("A".to_string(), "w0", None).unwrap();
    db.create_tab_with("B".to_string(), "w0", None).unwrap();
    db.set_active_tab("w0", "A").unwrap();
    let listed = db.get_tabs_by_workspace("w0").unwrap();
    assert!(listed.iter().find(|t| t.id == "A").unwrap().is_active);
    assert!(!listed.iter().find(|t| t.id == "B").unwrap().is_active);
    // A tab of another workspace is not found in this one.
    db.create_workspace_with("w1".to_string(), 60, "Other").unwrap();
    db.create_tab_with("C".to_string(), "w1", None).unwrap();
    let err = db.set_active_tab("w0", "C").unwrap_err();
    assert_eq!(err, "Tab not found in workspace");
}

#[test]
fn reorder_assigns_listed_positions_and_is_idempotent() {
    let mut db = Database::new_with("w0".to_string(), 50);
    for id in ["A", "B", "C"] {
        db.create_tab_with(id.to_string(), "w0", None).unwrap();
    }
    let order = vec!["C".to_string(), "A".to_string(), "B".to_string()];
    db.reorder_tabs("w0", order.clone()).unwrap();
    let first: Vec<String> =
        db.get_tabs_by_workspace("w0").unwrap().into_iter().map(|t| t.id).collect();
    assert_eq!(first, vec!["C", "A", "B"]);
    // Applying the same ordering again yields the same assignment.
    db.reorder_tabs("w0", order).unwrap();
    let second: Vec<String> =
        db.get_tabs_by_workspace("w0").unwrap().into_iter().map(|t| t.id).collect();
    assert_eq!(first, second);
    // Identifiers outside the workspace are silently ignored.
    db.reorder_tabs("w0", vec!["ghost".to_string()]).unwrap();
    assert_eq!(db.get_tab_count("w0").unwrap(), 3);
}

#[test]
fn settings_are_last_write_wins_with_typed_defaults() {
    let mut db = Database::new_with("w0".to_string(), 50);
    assert!(db.get_setting("theme").unwrap().is_none());
    let defaults = db.get_all_settings().unwrap();
    assert_eq!(defaults.theme, "dark");
    assert!(!defaults.sidebar_collapsed);
    assert_eq!(defaults.active_workspace_id.as_deref(), Some("w0"));
    db.set_setting("theme", "light").unwrap();
    db.set_setting("theme", "solarized").unwrap();
    assert_eq!(db.get_setting("theme").unwrap().as_deref(), Some("solarized"));
    let mut s = db.get_all_settings().unwrap();
    s.sidebar_collapsed = true;
    s.theme = "light".to_string();
    s.active_workspace_id = None;
    db.save_all_settings(&s).unwrap();
    let back = db.get_all_settings().unwrap();
    assert_eq!(back.theme, "light");
    assert!(back.sidebar_collapsed);
    // An unset active workspace leaves the stored one alone.
    assert_eq!(back.active_workspace_id.as_deref(), Some("w0"));
}
