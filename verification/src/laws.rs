//! The store's cross-cutting guarantees, stated and proved once: the
//! single-active-tab invariant, idempotence of reordering, the scoping of
//! search results, and the permanence of the last workspace.
use crate::model::TabV;
use crate::store::{
    count_active_tabs, count_ws_tabs, filter_where, last_index_of, lemma_filter_where_contains,
    matching_reqs, reorder_spec, req_matches, take_n, Database,
};
use vstd::prelude::*;

verus! {

/// Whenever a workspace has at least one tab, exactly one of them is
/// active — before and after every store operation, since each preserves
/// [`Database::wf`].
pub proof fn lemma_single_active_tab(db: Database, w: Seq<char>)
    requires
        db.wf(),
        count_ws_tabs(db.s_tabs(), w) > 0,
    ensures
        count_active_tabs(db.s_tabs(), w) == 1,
{
}

/// Reordering is idempotent: applying the same identifier ordering twice
/// yields the same position assignment as applying it once.
pub proof fn lemma_reorder_idempotent(s: Seq<TabV>, w: Seq<char>, ids: Seq<Seq<char>>)
    ensures
        reorder_spec(reorder_spec(s, w, ids), w, ids) == reorder_spec(s, w, ids),
{
    let r1 = reorder_spec(s, w, ids);
    let r2 = reorder_spec(r1, w, ids);
    assert forall|l: int| 0 <= l < s.len() implies r2[l] == r1[l] by {
        assert(r1[l].id == s[l].id);
        assert(r1[l].workspace_id == s[l].workspace_id);
    }
    assert(r2 =~= r1);
}

/// Search results are always drawn from the store's current records,
/// scoped to the requested workspace, and matching the query phrase.
/// In particular, once a request is deleted, no term can surface it again.
pub proof fn lemma_search_scoped(db: Database, w: Seq<char>, ph: Seq<Seq<u32>>, lim: int)
    requires
        db.wf(),
    ensures
        forall|k: int|
            0 <= k < take_n(matching_reqs(db.s_requests(), w, ph), lim).len() ==> {
                let rec = #[trigger] take_n(matching_reqs(db.s_requests(), w, ph), lim)[k];
                &&& db.s_requests().contains(rec)
                &&& rec.workspace_id == w
                &&& req_matches(rec, ph)
            },
{
    let keep = |r: crate::model::SavedRequestV| r.workspace_id == w && req_matches(r, ph);
    let m = filter_where(db.s_requests(), keep);
    lemma_filter_where_contains(db.s_requests(), keep);
    assert forall|k: int| 0 <= k < take_n(m, lim).len() implies {
        let rec = #[trigger] take_n(m, lim)[k];
        &&& db.s_requests().contains(rec)
        &&& rec.workspace_id == w
        &&& req_matches(rec, ph)
    } by {
        assert(take_n(m, lim)[k] == m[k]);
    }
}

/// The search index never resurrects a deleted record: when no stored
/// request bears an identifier, no search result does either.
pub proof fn lemma_search_misses_deleted(
    db: Database,
    w: Seq<char>,
    ph: Seq<Seq<u32>>,
    lim: int,
    id: Seq<char>,
)
    requires
        db.wf(),
        forall|j: int| 0 <= j < db.s_requests().len() ==> db.s_requests()[j].id != id,
    ensures
        forall|k: int|
            0 <= k < take_n(matching_reqs(db.s_requests(), w, ph), lim).len() ==> #[trigger] take_n(
                matching_reqs(db.s_requests(), w, ph),
                lim,
            )[k].id != id,
{
    lemma_search_scoped(db, w, ph, lim);
    assert forall|k: int|
        0 <= k < take_n(matching_reqs(db.s_requests(), w, ph), lim).len() implies #[trigger] take_n(
        matching_reqs(db.s_requests(), w, ph),
        lim,
    )[k].id != id by {
        let rec = take_n(matching_reqs(db.s_requests(), w, ph), lim)[k];
        let j = choose|j: int|
            0 <= j < db.s_requests().len() && db.s_requests()[j] == rec;
        assert(db.s_requests()[j].id != id);
    }
}

/// The workspace count never reaches zero: a well-formed store always
/// holds a workspace, and every operation preserves well-formedness —
/// deleting the last workspace fails instead.
pub proof fn lemma_workspace_count_positive(db: Database)
    requires
        db.wf(),
    ensures
        db.s_workspaces().len() >= 1,
{
}

} // verus!
