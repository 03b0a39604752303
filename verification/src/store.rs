//! The persistent store: workspaces, request history with its derived
//! search index, tabs and settings, behind one owner with transactional,
//! contract-specified operations. The store's well-formedness invariant
//! carries the system's integrity guarantees: at least one workspace always
//! exists, the search index is exactly the projection of the request
//! records, and every non-empty workspace has exactly one active tab.
use crate::model::{
    default_tab_state_v, opt_str_v, AppSettings, CreateRequestInput, SavedRequest, SavedRequestV,
    Tab, TabState, TabV, Workspace, WorkspaceV,
};
use crate::outside::{fresh_id, now_millis};
use crate::text::{
    extract_path, extract_path_spec, phrase_of, phrase_of_x, str_eq, text_matches_x, tok_views,
};
use vstd::prelude::*;
use vstd::string::StringExecFns;

verus! {

/// The most records one table holds: every count fits an `i64`.
pub const STORE_CAP: u64 = 0x7fff_ffff_ffff_ffff;

/// The highest tab position the store assigns; one below `i32::MAX`, so
/// the next position always exists.
pub const TAB_POS_CAP: i32 = 0x7fff_fffe;

// ---------------------------------------------------------------------------
// Sequence toolbox
// ---------------------------------------------------------------------------

/// How many elements of `s` satisfy `f`.
pub open spec fn count_where<T>(s: Seq<T>, f: spec_fn(T) -> bool) -> int
    decreases s.len(),
{
    if s.len() == 0 {
        0
    } else {
        count_where(s.drop_last(), f) + if f(s.last()) {
            1int
        } else {
            0int
        }
    }
}

/// The elements of `s` that satisfy `f`, in order.
pub open spec fn filter_where<T>(s: Seq<T>, f: spec_fn(T) -> bool) -> Seq<T>
    decreases s.len(),
{
    if s.len() == 0 {
        Seq::<T>::empty()
    } else if f(s.last()) {
        filter_where(s.drop_last(), f).push(s.last())
    } else {
        filter_where(s.drop_last(), f)
    }
}

pub proof fn lemma_count_where_bounds<T>(s: Seq<T>, f: spec_fn(T) -> bool)
    ensures
        0 <= count_where(s, f) <= s.len(),
    decreases s.len(),
{
    if s.len() > 0 {
        lemma_count_where_bounds(s.drop_last(), f);
    }
}

pub proof fn lemma_count_where_push<T>(s: Seq<T>, f: spec_fn(T) -> bool, t: T)
    ensures
        count_where(s.push(t), f) == count_where(s, f) + if f(t) {
            1int
        } else {
            0int
        },
{
    assert(s.push(t).drop_last() =~= s);
    assert(s.push(t).last() == t);
}

pub proof fn lemma_count_where_remove<T>(s: Seq<T>, f: spec_fn(T) -> bool, i: int)
    requires
        0 <= i < s.len(),
    ensures
        count_where(s.remove(i), f) == count_where(s, f) - if f(s[i]) {
            1int
        } else {
            0int
        },
    decreases s.len(),
{
    if i == s.len() - 1 {
        assert(s.remove(i) =~= s.drop_last());
    } else {
        assert(s.remove(i).drop_last() =~= s.drop_last().remove(i));
        assert(s.remove(i).last() == s.last());
        lemma_count_where_remove(s.drop_last(), f, i);
    }
}

pub proof fn lemma_count_where_update<T>(s: Seq<T>, f: spec_fn(T) -> bool, i: int, t: T)
    requires
        0 <= i < s.len(),
    ensures
        count_where(s.update(i, t), f) == count_where(s, f) - (if f(s[i]) {
            1int
        } else {
            0int
        }) + (if f(t) {
            1int
        } else {
            0int
        }),
    decreases s.len(),
{
    if i == s.len() - 1 {
        assert(s.update(i, t).drop_last() =~= s.drop_last());
        assert(s.update(i, t).last() == t);
    } else {
        assert(s.update(i, t).drop_last() =~= s.drop_last().update(i, t));
        assert(s.update(i, t).last() == s.last());
        lemma_count_where_update(s.drop_last(), f, i, t);
    }
}

/// Counting sees only what `f` sees: two pointwise `f`-equal sequences have
/// the same count.
pub proof fn lemma_count_where_pointwise<T>(s1: Seq<T>, s2: Seq<T>, f: spec_fn(T) -> bool)
    requires
        s1.len() == s2.len(),
        forall|i: int| 0 <= i < s1.len() ==> f(s1[i]) == f(s2[i]),
    ensures
        count_where(s1, f) == count_where(s2, f),
    decreases s1.len(),
{
    if s1.len() > 0 {
        lemma_count_where_pointwise(s1.drop_last(), s2.drop_last(), f);
    }
}

pub proof fn lemma_count_where_zero<T>(s: Seq<T>, f: spec_fn(T) -> bool)
    requires
        forall|i: int| 0 <= i < s.len() ==> !f(s[i]),
    ensures
        count_where(s, f) == 0,
    decreases s.len(),
{
    if s.len() > 0 {
        lemma_count_where_zero(s.drop_last(), f);
    }
}

pub proof fn lemma_count_where_one<T>(s: Seq<T>, f: spec_fn(T) -> bool, j: int)
    requires
        0 <= j < s.len(),
        f(s[j]),
        forall|k: int| 0 <= k < s.len() && k != j ==> !f(s[k]),
    ensures
        count_where(s, f) == 1,
    decreases s.len(),
{
    if j == s.len() - 1 {
        lemma_count_where_zero(s.drop_last(), f);
    } else {
        lemma_count_where_one(s.drop_last(), f, j);
    }
}

/// Filtering away `g`-elements leaves an `f`-count untouched when no
/// `f`-element is a `g`-element, and empties it when every `f`-element is.
pub proof fn lemma_count_where_filter<T>(s: Seq<T>, keep: spec_fn(T) -> bool, f: spec_fn(
    T,
) -> bool)
    ensures
        (forall|i: int| 0 <= i < s.len() && f(s[i]) ==> keep(s[i])) ==> count_where(
            filter_where(s, keep),
            f,
        ) == count_where(s, f),
        (forall|i: int| 0 <= i < s.len() && f(s[i]) ==> !keep(s[i])) ==> count_where(
            filter_where(s, keep),
            f,
        ) == 0,
    decreases s.len(),
{
    if s.len() > 0 {
        lemma_count_where_filter(s.drop_last(), keep, f);
        if keep(s.last()) {
            lemma_count_where_push(filter_where(s.drop_last(), keep), f, s.last());
        }
    }
}

pub proof fn lemma_filter_where_len<T>(s: Seq<T>, f: spec_fn(T) -> bool)
    ensures
        filter_where(s, f).len() == count_where(s, f),
    decreases s.len(),
{
    if s.len() > 0 {
        lemma_filter_where_len(s.drop_last(), f);
    }
}

/// Every element of a filtered sequence is an element of the original that
/// satisfies the filter.
pub proof fn lemma_filter_where_contains<T>(s: Seq<T>, f: spec_fn(T) -> bool)
    ensures
        forall|k: int|
            0 <= k < filter_where(s, f).len() ==> s.contains(#[trigger] filter_where(s, f)[k])
                && f(filter_where(s, f)[k]),
    decreases s.len(),
{
    if s.len() > 0 {
        lemma_filter_where_contains(s.drop_last(), f);
        assert forall|k: int| 0 <= k < filter_where(s, f).len() implies s.contains(
            #[trigger] filter_where(s, f)[k],
        ) && f(filter_where(s, f)[k]) by {
            let prev = filter_where(s.drop_last(), f);
            if k < prev.len() {
                assert(filter_where(s, f)[k] == prev[k]);
                let j = choose|j: int| 0 <= j < s.drop_last().len() && s.drop_last()[j] == prev[k];
                assert(s[j] == prev[k]);
            } else {
                assert(filter_where(s, f)[k] == s.last());
                assert(s[s.len() - 1] == s.last());
            }
        }
    }
}

// ---------------------------------------------------------------------------
// Views of record sequences
// ---------------------------------------------------------------------------

/// Views of a workspace vector.
pub open spec fn wss_v(s: Seq<Workspace>) -> Seq<WorkspaceV> {
    s.map(|i: int, w: Workspace| w@)
}

/// Views of a request vector.
pub open spec fn reqs_v(s: Seq<SavedRequest>) -> Seq<SavedRequestV> {
    s.map(|i: int, r: SavedRequest| r@)
}

/// Views of a tab vector.
pub open spec fn tabs_v(s: Seq<Tab>) -> Seq<TabV> {
    s.map(|i: int, t: Tab| t@)
}

// ---------------------------------------------------------------------------
// The search index
// ---------------------------------------------------------------------------

/// Mathematical view of an index entry.
pub ghost struct IndexEntryV {
    pub id: Seq<char>,
    pub name: Seq<char>,
    pub url: Seq<char>,
    pub body_content: Option<Seq<char>>,
    pub response_body: Option<Seq<char>>,
}

/// One derived search-index entry: the searchable projection of a request
/// record.
struct IndexEntry {
    id: String,
    name: String,
    url: String,
    body_content: Option<String>,
    response_body: Option<String>,
}

impl View for IndexEntry {
    type V = IndexEntryV;

    closed spec fn view(&self) -> IndexEntryV {
        IndexEntryV {
            id: self.id@,
            name: self.name@,
            url: self.url@,
            body_content: opt_str_v(self.body_content),
            response_body: opt_str_v(self.response_body),
        }
    }
}

/// The index entry that a request record projects to.
pub open spec fn entry_of(r: SavedRequestV) -> IndexEntryV {
    IndexEntryV {
        id: r.id,
        name: r.name,
        url: r.url,
        body_content: r.body_content,
        response_body: r.response_body,
    }
}

/// The search index is exactly the projection of the request records,
/// entry by entry.
pub open spec fn index_synced(reqs: Seq<SavedRequestV>, idx: Seq<IndexEntryV>) -> bool {
    idx.len() == reqs.len() && forall|i: int| 0 <= i < reqs.len() ==> idx[i] == entry_of(reqs[i])
}

// ---------------------------------------------------------------------------
// Well-formedness pieces
// ---------------------------------------------------------------------------

/// Workspace identifiers are unique.
pub open spec fn unique_ws_ids(s: Seq<WorkspaceV>) -> bool {
    forall|a: int, b: int| 0 <= a < b < s.len() ==> s[a].id != s[b].id
}

/// Workspaces are held oldest first.
pub open spec fn ws_sorted(s: Seq<WorkspaceV>) -> bool {
    forall|a: int, b: int| 0 <= a < b < s.len() ==> s[a].created_at <= s[b].created_at
}

/// Request identifiers are unique.
pub open spec fn unique_req_ids(s: Seq<SavedRequestV>) -> bool {
    forall|a: int, b: int| 0 <= a < b < s.len() ==> s[a].id != s[b].id
}

/// Requests are held newest first.
pub open spec fn reqs_sorted(s: Seq<SavedRequestV>) -> bool {
    forall|a: int, b: int| 0 <= a < b < s.len() ==> s[a].created_at >= s[b].created_at
}

/// Tab identifiers are unique.
pub open spec fn unique_tab_ids(s: Seq<TabV>) -> bool {
    forall|a: int, b: int| 0 <= a < b < s.len() ==> s[a].id != s[b].id
}

/// Tab positions stay in the range the store assigns from.
pub open spec fn tab_pos_ok(s: Seq<TabV>) -> bool {
    forall|i: int| 0 <= i < s.len() ==> 0 <= #[trigger] s[i].position <= TAB_POS_CAP as int
}

/// How many tabs of workspace `w` the store holds.
pub open spec fn count_ws_tabs(s: Seq<TabV>, w: Seq<char>) -> int {
    count_where(s, |t: TabV| t.workspace_id == w)
}

/// How many of them are active.
pub open spec fn count_active_tabs(s: Seq<TabV>, w: Seq<char>) -> int {
    count_where(s, |t: TabV| t.workspace_id == w && t.is_active)
}

/// Every workspace that has tabs has exactly one active tab.
pub open spec fn one_active_per_ws(s: Seq<TabV>) -> bool {
    forall|w: Seq<char>| #[trigger] count_ws_tabs(s, w) > 0 ==> count_active_tabs(s, w) == 1
}

/// How many requests of workspace `w` the store holds.
pub open spec fn count_ws_reqs(s: Seq<SavedRequestV>, w: Seq<char>) -> int {
    count_where(s, |r: SavedRequestV| r.workspace_id == w)
}

// ---------------------------------------------------------------------------
// The store
// ---------------------------------------------------------------------------

struct Setting {
    key: String,
    value: String,
}

/// The persistent store. Construction guarantees a workspace exists; every
/// operation preserves [`Database::wf`].
pub struct Database {
    workspaces: Vec<Workspace>,
    requests: Vec<SavedRequest>,
    index: Vec<IndexEntry>,
    tabs: Vec<Tab>,
    settings: Vec<Setting>,
}

/// The first position at or after `i` whose setting has key `key`.
spec fn find_setting(s: Seq<Setting>, key: Seq<char>, i: int) -> Option<int>
    decreases s.len() - i when 0 <= i
{
    if i >= s.len() {
        Option::<int>::None
    } else if s[i].key@ == key {
        Option::Some(i)
    } else {
        find_setting(s, key, i + 1)
    }
}

impl Database {
    /// The workspaces, oldest first.
    pub closed spec fn s_workspaces(self) -> Seq<WorkspaceV> {
        wss_v(self.workspaces@)
    }

    /// The request history, newest first.
    pub closed spec fn s_requests(self) -> Seq<SavedRequestV> {
        reqs_v(self.requests@)
    }

    /// The derived search index, aligned with the request history.
    pub closed spec fn s_index(self) -> Seq<IndexEntryV> {
        self.index@.map(|i: int, e: IndexEntry| e@)
    }

    /// The tabs, in creation order.
    pub closed spec fn s_tabs(self) -> Seq<TabV> {
        tabs_v(self.tabs@)
    }

    /// The value stored under a settings key, if any.
    pub closed spec fn setting_of(self, key: Seq<char>) -> Option<Seq<char>> {
        match find_setting(self.settings@, key, 0) {
            Option::None => Option::<Seq<char>>::None,
            Option::Some(i) => Option::Some(self.settings@[i].value@),
        }
    }

    /// Settings keys are unique.
    pub closed spec fn settings_ok(self) -> bool {
        forall|a: int, b: int|
            0 <= a < b < self.settings@.len() ==> self.settings@[a].key@ != self.settings@[b].key@
    }

    /// The store's invariant: a workspace always exists, identifiers are
    /// unique, workspaces and requests keep their listing orders, the
    /// search index is exactly the projection of the request records, and
    /// every non-empty workspace has exactly one active tab.
    pub open spec fn wf(self) -> bool {
        &&& self.s_workspaces().len() >= 1
        &&& self.s_workspaces().len() <= STORE_CAP as int
        &&& unique_ws_ids(self.s_workspaces())
        &&& ws_sorted(self.s_workspaces())
        &&& self.s_requests().len() <= STORE_CAP as int
        &&& unique_req_ids(self.s_requests())
        &&& reqs_sorted(self.s_requests())
        &&& index_synced(self.s_requests(), self.s_index())
        &&& self.s_tabs().len() <= STORE_CAP as int
        &&& unique_tab_ids(self.s_tabs())
        &&& tab_pos_ok(self.s_tabs())
        &&& one_active_per_ws(self.s_tabs())
        &&& self.settings_ok()
    }

    // -----------------------------------------------------------------------
    // Construction
    // -----------------------------------------------------------------------

    /// Builds a store that holds exactly one workspace, named "Default
    /// Workspace" and recorded as the active workspace, with the given
    /// identifier and creation time, and nothing else.
    pub fn new_with(id: String, now: i64) -> (r: Self)
        requires
            now >= 0,
        ensures
            r.wf(),
            r.s_workspaces().len() == 1,
            r.s_workspaces()[0].id == id@,
            r.s_workspaces()[0].name == "Default Workspace"@,
            r.s_workspaces()[0].created_at == now as int,
            r.s_workspaces()[0].updated_at == now as int,
            r.s_requests() == Seq::<SavedRequestV>::empty(),
            r.s_tabs() == Seq::<TabV>::empty(),
            r.setting_of("active_workspace_id"@) == Option::Some(id@),
            forall|k: Seq<char>| k != "active_workspace_id"@ ==> r.setting_of(k) is None,
    {
        let ws = Workspace {
            id: id.clone(),
            name: String::from_str("Default Workspace"),
            created_at: now,
            updated_at: now,
        };
        let entry = Setting { key: String::from_str("active_workspace_id"), value: id };
        let mut workspaces: Vec<Workspace> = Vec::new();
        workspaces.push(ws);
        let mut settings: Vec<Setting> = Vec::new();
        settings.push(entry);
        let r = Database {
            workspaces,
            requests: Vec::new(),
            index: Vec::new(),
            tabs: Vec::new(),
            settings,
        };
        proof {
            assert(r.s_requests() =~= Seq::<SavedRequestV>::empty());
            assert(r.s_tabs() =~= Seq::<TabV>::empty());
            assert(r.s_index() =~= Seq::<IndexEntryV>::empty());
            assert(r.s_workspaces().len() == 1);
            assert(r.s_workspaces()[0].id == id@);
            assert(find_setting(r.settings@, "active_workspace_id"@, 0) == Option::Some(0int));
            assert forall|k: Seq<char>| k != "active_workspace_id"@ implies r.setting_of(
                k,
            ) is None by {
                assert(find_setting(r.settings@, k, 0) == find_setting(r.settings@, k, 1));
            }
            assert forall|w: Seq<char>| #[trigger] count_ws_tabs(r.s_tabs(), w) > 0 implies
            count_active_tabs(r.s_tabs(), w) == 1 by {
                lemma_count_where_bounds(r.s_tabs(), |t: TabV| t.workspace_id == w);
            }
        }
        r
    }

    /// Builds a store with a freshly drawn workspace identifier and the
    /// clock's current time. The single workspace is the active one.
    pub fn new() -> (r: Self)
        ensures
            r.wf(),
            r.s_workspaces().len() == 1,
            r.s_workspaces()[0].name == "Default Workspace"@,
            r.s_requests() == Seq::<SavedRequestV>::empty(),
            r.s_tabs() == Seq::<TabV>::empty(),
            r.setting_of("active_workspace_id"@) == Option::Some(r.s_workspaces()[0].id),
    {
        let id = fresh_id();
        let mut now = now_millis();
        if now < 0 {
            now = 0;
        }
        Self::new_with(id, now)
    }

    // -----------------------------------------------------------------------
    // Workspaces
    // -----------------------------------------------------------------------

    /// Lists every workspace, oldest first.
    pub fn get_all_workspaces(&self) -> (r: Result<Vec<Workspace>, String>)
        ensures
            r matches Ok(v) && wss_v(v@) == self.s_workspaces(),
    {
        let n = self.workspaces.len();
        let mut out: Vec<Workspace> = Vec::new();
        let mut i: usize = 0;
        while i < n
            invariant
                n == self.workspaces@.len(),
                i <= n,
                out@.len() == i,
                forall|j: int| 0 <= j < i ==> out@[j]@ == self.workspaces@[j]@,
            decreases n - i,
        {
            out.push(self.workspaces[i].clone());
            i = i + 1;
        }
        proof {
            assert(wss_v(out@) =~= self.s_workspaces());
        }
        Ok(out)
    }

    /// The first position at or after `i` whose workspace has identifier
    /// `id`.
    pub open spec fn find_ws(s: Seq<WorkspaceV>, id: Seq<char>, i: int) -> Option<int>
        decreases s.len() - i when 0 <= i
    {
        if i >= s.len() {
            Option::<int>::None
        } else if s[i].id == id {
            Option::Some(i)
        } else {
            Self::find_ws(s, id, i + 1)
        }
    }

    fn ws_position(&self, id: &str) -> (r: Option<usize>)
        ensures
            match r {
                Option::Some(i) => Self::find_ws(self.s_workspaces(), id@, 0) == Option::Some(
                    i as int,
                ) && i < self.s_workspaces().len() && self.s_workspaces()[i as int].id == id@,
                Option::None => Self::find_ws(self.s_workspaces(), id@, 0) is None && forall|
                    j: int,
                |
                    0 <= j < self.s_workspaces().len() ==> self.s_workspaces()[j].id != id@,
            },
    {
        let n = self.workspaces.len();
        let mut i: usize = 0;
        while i < n
            invariant
                n == self.workspaces@.len(),
                i <= n,
                Self::find_ws(self.s_workspaces(), id@, 0) == Self::find_ws(
                    self.s_workspaces(),
                    id@,
                    i as int,
                ),
                forall|j: int| 0 <= j < i ==> self.s_workspaces()[j].id != id@,
            decreases n - i,
        {
            if str_eq(self.workspaces[i].id.as_str(), id) {
                return Option::Some(i);
            }
            i = i + 1;
        }
        Option::None
    }

    /// Looks a workspace up by identifier; an unknown identifier is an
    /// absent result, not an error.
    pub fn get_workspace(&self, id: &str) -> (r: Result<Option<Workspace>, String>)
        ensures
            r matches Ok(o),
            r matches Ok(o) ==> match o {
                Option::Some(w) => {
                    &&& Self::find_ws(self.s_workspaces(), id@, 0) matches Option::Some(i)
                    &&& w@ == self.s_workspaces()[Self::find_ws(
                        self.s_workspaces(),
                        id@,
                        0,
                    ).unwrap()]
                },
                Option::None => forall|j: int|
                    0 <= j < self.s_workspaces().len() ==> self.s_workspaces()[j].id != id@,
            },
    {
        match self.ws_position(id) {
            Option::Some(i) => Ok(Option::Some(self.workspaces[i].clone())),
            Option::None => Ok(Option::None),
        }
    }

    /// The position a workspace created at `t` is inserted at: after every
    /// older or equally old workspace.
    pub open spec fn ws_insert_pos(s: Seq<WorkspaceV>, t: int, i: int) -> int
        decreases s.len() - i when 0 <= i
    {
        if i >= s.len() {
            i
        } else if s[i].created_at > t {
            i
        } else {
            Self::ws_insert_pos(s, t, i + 1)
        }
    }

    proof fn lemma_ws_insert_pos(s: Seq<WorkspaceV>, t: int, i: int)
        requires
            0 <= i <= s.len(),
        ensures
            i <= Self::ws_insert_pos(s, t, i) <= s.len(),
            forall|j: int| i <= j < Self::ws_insert_pos(s, t, i) ==> s[j].created_at <= t,
            Self::ws_insert_pos(s, t, i) < s.len() ==> s[Self::ws_insert_pos(
                s,
                t,
                i,
            )].created_at > t,
        decreases s.len() - i,
    {
        if i < s.len() && !(s[i].created_at > t) {
            Self::lemma_ws_insert_pos(s, t, i + 1);
        }
    }

    /// Creates a workspace under the given identifier with the given
    /// creation time: inserted in timestamp order, both timestamps equal.
    /// Fails only when the identifier is already taken.
    pub fn create_workspace_with(&mut self, id: String, now: i64, name: &str) -> (r: Result<
        Workspace,
        String,
    >)
        requires
            old(self).wf(),
            now >= 0,
        ensures
            final(self).wf(),
            r is Ok <==> (forall|j: int|
                0 <= j < old(self).s_workspaces().len() ==> old(self).s_workspaces()[j].id != id@)
                && old(self).s_workspaces().len() < STORE_CAP as int,
            r matches Ok(w) ==> {
                &&& w@.id == id@
                &&& w@.name == name@
                &&& w@.created_at == now as int
                &&& w@.updated_at == now as int
                &&& final(self).s_workspaces() == old(self).s_workspaces().insert(
                    Self::ws_insert_pos(old(self).s_workspaces(), now as int, 0),
                    w@,
                )
            },
            r is Err ==> final(self).s_workspaces() == old(self).s_workspaces(),
            r matches Err(e) ==> e@ == "workspace id already exists"@ || e@
                == "workspace store is full"@,
            final(self).s_requests() == old(self).s_requests(),
            final(self).s_tabs() == old(self).s_tabs(),
            forall|k: Seq<char>| final(self).setting_of(k) == old(self).setting_of(k),
    {
        if self.ws_position(id.as_str()).is_some() {
            return Err(String::from_str("workspace id already exists"));
        }
        if !((self.workspaces.len() as u64) < STORE_CAP) {
            return Err(String::from_str("workspace store is full"));
        }
        let w = Workspace { id, name: String::from_str(name), created_at: now, updated_at: now };
        let ghost s = self.s_workspaces();
        let ghost pos = Self::ws_insert_pos(s, now as int, 0);
        proof {
            Self::lemma_ws_insert_pos(s, now as int, 0);
        }
        let n = self.workspaces.len();
        let mut i: usize = 0;
        while i < n && self.workspaces[i].created_at <= now
            invariant
                n == self.workspaces@.len(),
                s == self.s_workspaces(),
                i <= n,
                pos == Self::ws_insert_pos(s, now as int, 0),
                Self::ws_insert_pos(s, now as int, i as int) == Self::ws_insert_pos(
                    s,
                    now as int,
                    0,
                ),
                forall|j: int| 0 <= j < i ==> s[j].created_at <= now as int,
            decreases n - i,
        {
            i = i + 1;
        }
        proof {
            assert(i as int == pos);
        }
        let result = w.clone();
        self.workspaces.insert(i, w);
        proof {
            let new_s = final(self).s_workspaces();
            assert(new_s =~= s.insert(pos, result@));
            assert forall|a: int, b: int| 0 <= a < b < new_s.len() implies new_s[a].id
                != new_s[b].id by {
                assert(forall|j: int| 0 <= j < s.len() ==> s[j].id != result@.id);
            }
            assert forall|a: int, b: int| 0 <= a < b < new_s.len() implies new_s[a].created_at
                <= new_s[b].created_at by {}
            assert(final(self).s_requests() =~= old(self).s_requests());
            assert(final(self).s_index() =~= old(self).s_index());
            assert(final(self).s_tabs() =~= old(self).s_tabs());
        }
        Ok(result)
    }

    /// Creates a workspace with a freshly drawn identifier at the clock's
    /// current time.
    pub fn create_workspace(&mut self, name: &str) -> (r: Result<Workspace, String>)
        requires
            old(self).wf(),
        ensures
            final(self).wf(),
            r matches Ok(w) ==> {
                &&& w@.name == name@
                &&& w@.created_at == w@.updated_at
                &&& final(self).s_workspaces() == old(self).s_workspaces().insert(
                    Self::ws_insert_pos(old(self).s_workspaces(), w@.created_at, 0),
                    w@,
                )
            },
            r is Err ==> final(self).s_workspaces() == old(self).s_workspaces(),
            final(self).s_requests() == old(self).s_requests(),
            final(self).s_tabs() == old(self).s_tabs(),
            forall|k: Seq<char>| final(self).setting_of(k) == old(self).setting_of(k),
    {
        let id = fresh_id();
        let mut now = now_millis();
        if now < 0 {
            now = 0;
        }
        self.create_workspace_with(id, now, name)
    }

    /// Renames a workspace, refreshing its update time; its identifier,
    /// creation time and position are kept. Fails exactly on an unknown
    /// identifier.
    pub fn update_workspace_with(&mut self, id: &str, name: &str, now: i64) -> (r: Result<
        Workspace,
        String,
    >)
        requires
            old(self).wf(),
            now >= 0,
        ensures
            final(self).wf(),
            r is Ok <==> Self::find_ws(old(self).s_workspaces(), id@, 0) is Some,
            r matches Ok(w) ==> {
                let i = Self::find_ws(old(self).s_workspaces(), id@, 0).unwrap();
                &&& w@.id == id@
                &&& w@.name == name@
                &&& w@.created_at == old(self).s_workspaces()[i].created_at
                &&& w@.updated_at == now as int
                &&& final(self).s_workspaces() == old(self).s_workspaces().update(i, w@)
            },
            r matches Err(e) ==> e@ == "Workspace not found"@ && final(self).s_workspaces() == old(
                self,
            ).s_workspaces(),
            final(self).s_requests() == old(self).s_requests(),
            final(self).s_tabs() == old(self).s_tabs(),
            forall|k: Seq<char>| final(self).setting_of(k) == old(self).setting_of(k),
    {
        match self.ws_position(id) {
            Option::None => Err(String::from_str("Workspace not found")),
            Option::Some(i) => {
                let ghost s = self.s_workspaces();
                let old_ws = self.workspaces.remove(i);
                let w = Workspace {
                    id: old_ws.id,
                    name: String::from_str(name),
                    created_at: old_ws.created_at,
                    updated_at: now,
                };
                let result = w.clone();
                self.workspaces.insert(i, w);
                proof {
                    let new_s = final(self).s_workspaces();
                    assert(new_s =~= s.update(i as int, result@));
                    assert(final(self).s_requests() =~= old(self).s_requests());
                    assert(final(self).s_index() =~= old(self).s_index());
                    assert(final(self).s_tabs() =~= old(self).s_tabs());
                }
                Ok(result)
            },
        }
    }

    /// Renames a workspace at the clock's current time.
    pub fn update_workspace(&mut self, id: &str, name: &str) -> (r: Result<Workspace, String>)
        requires
            old(self).wf(),
        ensures
            final(self).wf(),
            r is Ok <==> Self::find_ws(old(self).s_workspaces(), id@, 0) is Some,
            r matches Ok(w) ==> {
                let i = Self::find_ws(old(self).s_workspaces(), id@, 0).unwrap();
                &&& w@.id == id@
                &&& w@.name == name@
                &&& w@.created_at == old(self).s_workspaces()[i].created_at
                &&& final(self).s_workspaces() == old(self).s_workspaces().update(i, w@)
            },
            r matches Err(e) ==> e@ == "Workspace not found"@ && final(self).s_workspaces() == old(
                self,
            ).s_workspaces(),
            final(self).s_requests() == old(self).s_requests(),
            final(self).s_tabs() == old(self).s_tabs(),
            forall|k: Seq<char>| final(self).setting_of(k) == old(self).setting_of(k),
    {
        let mut now = now_millis();
        if now < 0 {
            now = 0;
        }
        self.update_workspace_with(id, name, now)
    }

    /// Deletes a workspace, cascading to its requests, index entries and
    /// tabs. Deleting the last remaining workspace fails with an integrity
    /// error and changes nothing; the workspace count never reaches zero.
    /// An unknown identifier (with two or more workspaces present) is a
    /// no-op.
    pub fn delete_workspace(&mut self, id: &str) -> (r: Result<(), String>)
        requires
            old(self).wf(),
        ensures
            final(self).wf(),
            r is Ok <==> old(self).s_workspaces().len() > 1,
            r matches Err(e) ==> e@ == "Cannot delete the last workspace"@ && *final(self)
                == *old(self),
            r is Ok ==> {
                &&& final(self).s_workspaces() == filter_where(
                    old(self).s_workspaces(),
                    |w: WorkspaceV| w.id != id@,
                )
                &&& final(self).s_requests() == filter_where(
                    old(self).s_requests(),
                    |q: SavedRequestV| q.workspace_id != id@,
                )
                &&& final(self).s_tabs() == filter_where(
                    old(self).s_tabs(),
                    |t: TabV| t.workspace_id != id@,
                )
            },
            final(self).s_workspaces().len() >= 1,
            forall|k: Seq<char>| final(self).setting_of(k) == old(self).setting_of(k),
    {
        if self.workspaces.len() <= 1 {
            return Err(String::from_str("Cannot delete the last workspace"));
        }
        let ghost old_ws = self.s_workspaces();
        let ghost old_reqs = self.s_requests();
        let ghost old_idx = self.s_index();
        let ghost old_tabs = self.s_tabs();

        // Remove the workspace itself (it occurs at most once).
        let mut kept_ws: Vec<Workspace> = Vec::new();
        let n = self.workspaces.len();
        let mut i: usize = 0;
        while i < n
            invariant
                n == self.workspaces@.len(),
                old_ws == self.s_workspaces(),
                i <= n,
                wss_v(kept_ws@) == filter_where(
                    old_ws.subrange(0, i as int),
                    |w: WorkspaceV| w.id != id@,
                ),
            decreases n - i,
        {
            let ghost prefix = old_ws.subrange(0, i as int);
            let ghost ext = old_ws.subrange(0, i + 1);
            proof {
                assert(ext.drop_last() =~= prefix);
                assert(ext.last() == old_ws[i as int]);
            }
            if !str_eq(self.workspaces[i].id.as_str(), id) {
                kept_ws.push(self.workspaces[i].clone());
                proof {
                    assert(wss_v(kept_ws@) =~= filter_where(
                        prefix,
                        |w: WorkspaceV| w.id != id@,
                    ).push(old_ws[i as int]));
                }
            }
            i = i + 1;
        }
        proof {
            assert(old_ws.subrange(0, n as int) =~= old_ws);
        }

        // Cascade: drop the workspace's requests together with their index
        // entries.
        let mut kept_reqs: Vec<SavedRequest> = Vec::new();
        let mut kept_idx: Vec<IndexEntry> = Vec::new();
        let m = self.requests.len();
        let mut j: usize = 0;
        while j < m
            invariant
                m == self.requests@.len(),
                m == self.index@.len(),
                old_reqs == self.s_requests(),
                old_idx == self.s_index(),
                index_synced(old_reqs, old_idx),
                j <= m,
                reqs_v(kept_reqs@) == filter_where(
                    old_reqs.subrange(0, j as int),
                    |q: SavedRequestV| q.workspace_id != id@,
                ),
                kept_idx@.len() == kept_reqs@.len(),
                forall|k: int|
                    0 <= k < kept_idx@.len() ==> kept_idx@[k]@ == entry_of(reqs_v(kept_reqs@)[k]),
            decreases m - j,
        {
            let ghost prefix = old_reqs.subrange(0, j as int);
            let ghost ext = old_reqs.subrange(0, j + 1);
            proof {
                assert(ext.drop_last() =~= prefix);
                assert(ext.last() == old_reqs[j as int]);
            }
            if !str_eq(self.requests[j].workspace_id.as_str(), id) {
                kept_reqs.push(self.requests[j].clone());
                let e = &self.index[j];
                kept_idx.push(
                    IndexEntry {
                        id: e.id.clone(),
                        name: e.name.clone(),
                        url: e.url.clone(),
                        body_content: clone_opt_str(&e.body_content),
                        response_body: clone_opt_str(&e.response_body),
                    },
                );
                proof {
                    assert(reqs_v(kept_reqs@) =~= filter_where(
                        prefix,
                        |q: SavedRequestV| q.workspace_id != id@,
                    ).push(old_reqs[j as int]));
                    assert(old_idx[j as int] == entry_of(old_reqs[j as int]));
                }
            }
            j = j + 1;
        }
        proof {
            assert(old_reqs.subrange(0, m as int) =~= old_reqs);
        }

        // Cascade: drop the workspace's tabs.
        let mut kept_tabs: Vec<Tab> = Vec::new();
        let tn = self.tabs.len();
        let mut t: usize = 0;
        while t < tn
            invariant
                tn == self.tabs@.len(),
                old_tabs == self.s_tabs(),
                t <= tn,
                tabs_v(kept_tabs@) == filter_where(
                    old_tabs.subrange(0, t as int),
                    |x: TabV| x.workspace_id != id@,
                ),
            decreases tn - t,
        {
            let ghost prefix = old_tabs.subrange(0, t as int);
            let ghost ext = old_tabs.subrange(0, t + 1);
            proof {
                assert(ext.drop_last() =~= prefix);
                assert(ext.last() == old_tabs[t as int]);
            }
            if !str_eq(self.tabs[t].workspace_id.as_str(), id) {
                kept_tabs.push(self.tabs[t].clone());
                proof {
                    assert(tabs_v(kept_tabs@) =~= filter_where(
                        prefix,
                        |x: TabV| x.workspace_id != id@,
                    ).push(old_tabs[t as int]));
                }
            }
            t = t + 1;
        }
        proof {
            assert(old_tabs.subrange(0, tn as int) =~= old_tabs);
        }

        self.workspaces = kept_ws;
        self.requests = kept_reqs;
        self.index = kept_idx;
        self.tabs = kept_tabs;

        proof {
            let keep_ws = |w: WorkspaceV| w.id != id@;
            let keep_req = |q: SavedRequestV| q.workspace_id != id@;
            let keep_tab = |x: TabV| x.workspace_id != id@;
            lemma_filter_where_len(old_ws, keep_ws);
            lemma_count_where_bounds(old_ws, keep_ws);
            // At most one workspace bears the identifier, so at least one
            // other remains.
            assert(final(self).s_workspaces().len() >= 1) by {
                if filter_where(old_ws, keep_ws).len() == 0 {
                    assert forall|a: int| 0 <= a < old_ws.len() implies !keep_ws(old_ws[a]) by {
                        if keep_ws(old_ws[a]) {
                            lemma_count_where_one_min(old_ws, keep_ws, a);
                        }
                    }
                    assert(old_ws[0].id == id@);
                    assert(old_ws[1].id == id@);
                    assert(false);
                }
            }
            lemma_filter_where_contains(old_ws, keep_ws);
            lemma_filter_where_contains(old_reqs, keep_req);
            lemma_filter_where_contains(old_tabs, keep_tab);
            assert(unique_ws_ids(final(self).s_workspaces())) by {
                lemma_filter_where_unique_ws(old_ws, keep_ws);
            }
            assert(ws_sorted(final(self).s_workspaces())) by {
                lemma_filter_where_sorted_ws(old_ws, keep_ws);
            }
            assert(unique_req_ids(final(self).s_requests())) by {
                lemma_filter_where_unique_req(old_reqs, keep_req);
            }
            assert(reqs_sorted(final(self).s_requests())) by {
                lemma_filter_where_sorted_req(old_reqs, keep_req);
            }
            assert(index_synced(final(self).s_requests(), final(self).s_index()));
            assert(unique_tab_ids(final(self).s_tabs())) by {
                lemma_filter_where_unique_tab(old_tabs, keep_tab);
            }
            assert(tab_pos_ok(final(self).s_tabs()));
            assert(one_active_per_ws(final(self).s_tabs())) by {
                assert forall|w: Seq<char>| #[trigger] count_ws_tabs(
                    final(self).s_tabs(),
                    w,
                ) > 0 implies count_active_tabs(final(self).s_tabs(), w) == 1 by {
                    let in_ws = |x: TabV| x.workspace_id == w;
                    let in_ws_active = |x: TabV| x.workspace_id == w && x.is_active;
                    lemma_count_where_filter(old_tabs, keep_tab, in_ws);
                    lemma_count_where_filter(old_tabs, keep_tab, in_ws_active);
                    if w == id@ {
                        lemma_count_where_bounds(filter_where(old_tabs, keep_tab), in_ws);
                        assert(count_ws_tabs(final(self).s_tabs(), w) == 0);
                    } else {
                        assert(count_ws_tabs(old_tabs, w) > 0);
                        assert(count_active_tabs(final(self).s_tabs(), w) == count_active_tabs(
                            old_tabs,
                            w,
                        ));
                    }
                }
            }
            lemma_filter_where_len(old_reqs, keep_req);
            lemma_count_where_bounds(old_reqs, keep_req);
            lemma_filter_where_len(old_tabs, keep_tab);
            lemma_count_where_bounds(old_tabs, keep_tab);
        }
        Ok(())
    }
}

/// A satisfied position makes the count at least one.
proof fn lemma_count_where_one_min<T>(s: Seq<T>, f: spec_fn(T) -> bool, j: int)
    requires
        0 <= j < s.len(),
        f(s[j]),
    ensures
        count_where(s, f) >= 1,
    decreases s.len(),
{
    lemma_count_where_bounds(s.drop_last(), f);
    if j < s.len() - 1 {
        lemma_count_where_one_min(s.drop_last(), f, j);
    }
}

proof fn lemma_filter_where_unique_ws(s: Seq<WorkspaceV>, f: spec_fn(WorkspaceV) -> bool)
    requires
        unique_ws_ids(s),
    ensures
        unique_ws_ids(filter_where(s, f)),
    decreases s.len(),
{
    if s.len() > 0 {
        lemma_filter_where_unique_ws(s.drop_last(), f);
        if f(s.last()) {
            lemma_filter_where_contains(s.drop_last(), f);
            let prev = filter_where(s.drop_last(), f);
            assert forall|a: int, b: int|
                0 <= a < b < prev.push(s.last()).len() implies prev.push(s.last())[a].id
                != prev.push(s.last())[b].id by {
                if b == prev.len() {
                    let x = prev[a];
                    let k = choose|k: int|
                        0 <= k < s.drop_last().len() && s.drop_last()[k] == x;
                    assert(s[k] == x);
                    assert(s[s.len() - 1] == s.last());
                }
            }
        }
    }
}

proof fn lemma_filter_where_sorted_ws(s: Seq<WorkspaceV>, f: spec_fn(WorkspaceV) -> bool)
    requires
        ws_sorted(s),
    ensures
        ws_sorted(filter_where(s, f)),
    decreases s.len(),
{
    if s.len() > 0 {
        assert(ws_sorted(s.drop_last()));
        lemma_filter_where_sorted_ws(s.drop_last(), f);
        if f(s.last()) {
            lemma_filter_where_contains(s.drop_last(), f);
            let prev = filter_where(s.drop_last(), f);
            assert forall|a: int, b: int|
                0 <= a < b < prev.push(s.last()).len() implies prev.push(s.last())[a].created_at
                <= prev.push(s.last())[b].created_at by {
                if b == prev.len() {
                    let x = prev[a];
                    let k = choose|k: int|
                        0 <= k < s.drop_last().len() && s.drop_last()[k] == x;
                    assert(s[k] == x);
                    assert(s[s.len() - 1] == s.last());
                }
            }
        }
    }
}

proof fn lemma_filter_where_unique_req(s: Seq<SavedRequestV>, f: spec_fn(SavedRequestV) -> bool)
    requires
        unique_req_ids(s),
    ensures
        unique_req_ids(filter_where(s, f)),
    decreases s.len(),
{
    if s.len() > 0 {
        lemma_filter_where_unique_req(s.drop_last(), f);
        if f(s.last()) {
            lemma_filter_where_contains(s.drop_last(), f);
            let prev = filter_where(s.drop_last(), f);
            assert forall|a: int, b: int|
                0 <= a < b < prev.push(s.last()).len() implies prev.push(s.last())[a].id
                != prev.push(s.last())[b].id by {
                if b == prev.len() {
                    let x = prev[a];
                    let k = choose|k: int|
                        0 <= k < s.drop_last().len() && s.drop_last()[k] == x;
                    assert(s[k] == x);
                    assert(s[s.len() - 1] == s.last());
                }
            }
        }
    }
}

proof fn lemma_filter_where_sorted_req(s: Seq<SavedRequestV>, f: spec_fn(SavedRequestV) -> bool)
    requires
        reqs_sorted(s),
    ensures
        reqs_sorted(filter_where(s, f)),
    decreases s.len(),
{
    if s.len() > 0 {
        assert(reqs_sorted(s.drop_last()));
        lemma_filter_where_sorted_req(s.drop_last(), f);
        if f(s.last()) {
            lemma_filter_where_contains(s.drop_last(), f);
            let prev = filter_where(s.drop_last(), f);
            assert forall|a: int, b: int|
                0 <= a < b < prev.push(s.last()).len() implies prev.push(s.last())[a].created_at
                >= prev.push(s.last())[b].created_at by {
                if b == prev.len() {
                    let x = prev[a];
                    let k = choose|k: int|
                        0 <= k < s.drop_last().len() && s.drop_last()[k] == x;
                    assert(s[k] == x);
                    assert(s[s.len() - 1] == s.last());
                }
            }
        }
    }
}

proof fn lemma_filter_where_unique_tab(s: Seq<TabV>, f: spec_fn(TabV) -> bool)
    requires
        unique_tab_ids(s),
    ensures
        unique_tab_ids(filter_where(s, f)),
    decreases s.len(),
{
    if s.len() > 0 {
        lemma_filter_where_unique_tab(s.drop_last(), f);
        if f(s.last()) {
            lemma_filter_where_contains(s.drop_last(), f);
            let prev = filter_where(s.drop_last(), f);
            assert forall|a: int, b: int|
                0 <= a < b < prev.push(s.last()).len() implies prev.push(s.last())[a].id
                != prev.push(s.last())[b].id by {
                if b == prev.len() {
                    let x = prev[a];
                    let k = choose|k: int|
                        0 <= k < s.drop_last().len() && s.drop_last()[k] == x;
                    assert(s[k] == x);
                    assert(s[s.len() - 1] == s.last());
                }
            }
        }
    }
}

fn clone_opt_str(o: &Option<String>) -> (r: Option<String>)
    ensures
        opt_str_v(r) == opt_str_v(*o),
{
    match o {
        Option::None => Option::None,
        Option::Some(s) => Option::Some(s.clone()),
    }
}

// ---------------------------------------------------------------------------
// Settings
// ---------------------------------------------------------------------------

/// Two settings sequences with pointwise equal keys are searched alike.
proof fn lemma_find_setting_pointwise(s1: Seq<Setting>, s2: Seq<Setting>, key: Seq<char>, i: int)
    requires
        0 <= i,
        s1.len() == s2.len(),
        forall|j: int| 0 <= j < s1.len() ==> s1[j].key@ == s2[j].key@,
    ensures
        find_setting(s1, key, i) == find_setting(s2, key, i),
    decreases s1.len() - i,
{
    if i < s1.len() {
        lemma_find_setting_pointwise(s1, s2, key, i + 1);
    }
}

/// A hit names a position in range bearing the key.
proof fn lemma_find_setting_some(s: Seq<Setting>, key: Seq<char>, i: int)
    requires
        0 <= i,
    ensures
        find_setting(s, key, i) matches Option::Some(j) ==> i <= j < s.len() && s[j].key@ == key,
    decreases s.len() - i,
{
    if i < s.len() && s[i].key@ != key {
        lemma_find_setting_some(s, key, i + 1);
    }
}

/// Searching past a pushed entry: an earlier hit is kept; a miss hits the
/// new entry exactly when its key matches.
proof fn lemma_find_setting_push(s: Seq<Setting>, e: Setting, key: Seq<char>, i: int)
    requires
        0 <= i <= s.len(),
    ensures
        find_setting(s, key, i) matches Option::Some(j) ==> find_setting(s.push(e), key, i)
            == Option::Some(j),
        find_setting(s, key, i) is None && e.key@ == key ==> find_setting(s.push(e), key, i)
            == Option::Some(s.len() as int),
        find_setting(s, key, i) is None && e.key@ != key ==> find_setting(s.push(e), key, i)
            is None,
    decreases s.len() - i,
{
    assert(s.push(e).len() == s.len() + 1);
    assert(s.push(e)[s.len() as int] == e);
    if i < s.len() {
        assert(s.push(e)[i] == s[i]);
        lemma_find_setting_push(s, e, key, i + 1);
    }
}

impl Database {
    fn setting_position(&self, key: &str) -> (r: Option<usize>)
        ensures
            match r {
                Option::Some(i) => find_setting(self.settings@, key@, 0) == Option::Some(i as int)
                    && i < self.settings@.len() && self.settings@[i as int].key@ == key@,
                Option::None => find_setting(self.settings@, key@, 0) is None && forall|j: int|
                    0 <= j < self.settings@.len() ==> self.settings@[j].key@ != key@,
            },
    {
        let n = self.settings.len();
        let mut i: usize = 0;
        while i < n
            invariant
                n == self.settings@.len(),
                i <= n,
                find_setting(self.settings@, key@, 0) == find_setting(
                    self.settings@,
                    key@,
                    i as int,
                ),
                forall|j: int| 0 <= j < i ==> self.settings@[j].key@ != key@,
            decreases n - i,
        {
            if str_eq(self.settings[i].key.as_str(), key) {
                return Option::Some(i);
            }
            i = i + 1;
        }
        Option::None
    }

    /// Reads a setting; an unknown key is an absent value, not an error.
    pub fn get_setting(&self, key: &str) -> (r: Result<Option<String>, String>)
        ensures
            r matches Ok(o),
            r matches Ok(o) ==> match o {
                Option::Some(v) => self.setting_of(key@) == Option::Some(v@),
                Option::None => self.setting_of(key@) is None,
            },
    {
        match self.setting_position(key) {
            Option::Some(i) => Ok(Option::Some(self.settings[i].value.clone())),
            Option::None => Ok(Option::None),
        }
    }

    /// Writes a setting, last write wins; every other key is untouched.
    pub fn set_setting(&mut self, key: &str, value: &str) -> (r: Result<(), String>)
        requires
            old(self).wf(),
        ensures
            final(self).wf(),
            r is Ok,
            final(self).setting_of(key@) == Option::Some(value@),
            forall|k: Seq<char>|
                k != key@ ==> final(self).setting_of(k) == old(self).setting_of(k),
            final(self).s_workspaces() == old(self).s_workspaces(),
            final(self).s_requests() == old(self).s_requests(),
            final(self).s_tabs() == old(self).s_tabs(),
    {
        match self.setting_position(key) {
            Option::Some(i) => {
                let prev = self.settings.remove(i);
                let ghost prev_v = prev;
                let entry = Setting { key: prev.key, value: String::from_str(value) };
                let ghost entry_v = entry;
                self.settings.insert(i, entry);
                proof {
                    let s1 = old(self).settings@;
                    let s2 = self.settings@;
                    assert(s2 =~= s1.remove(i as int).insert(i as int, entry_v));
                    assert(s2.len() == s1.len());
                    assert forall|j: int| 0 <= j < s2.len() && j != i as int implies s2[j]
                        == s1[j] by {
                        if j < i as int {
                            assert(s1.remove(i as int)[j] == s1[j]);
                        } else {
                            assert(s1.remove(i as int)[j - 1] == s1[j]);
                        }
                    }
                    assert(s2[i as int] == entry_v);
                    assert(entry_v.key@ == prev_v.key@);
                    assert(prev_v == s1[i as int]);
                    assert(forall|j: int| 0 <= j < s1.len() ==> s1[j].key@ == s2[j].key@);
                    assert forall|k: Seq<char>| true implies find_setting(s1, k, 0)
                        == find_setting(s2, k, 0) by {
                        lemma_find_setting_pointwise(s1, s2, k, 0);
                    }
                    assert(final(self).setting_of(key@) == Option::Some(value@));
                    assert forall|k: Seq<char>| k != key@ implies final(self).setting_of(k) == old(
                        self,
                    ).setting_of(k) by {
                        lemma_find_setting_some(s2, k, 0);
                        match find_setting(s2, k, 0) {
                            Option::Some(j) => {
                                assert(s2[j].key@ == k);
                                assert(j != i as int);
                                assert(s2[j] == s1[j]);
                            },
                            Option::None => {},
                        }
                    }
                }
                Ok(())
            },
            Option::None => {
                let entry = Setting { key: String::from_str(key), value: String::from_str(value) };
                self.settings.push(entry);
                proof {
                    let s1 = old(self).settings@;
                    let s2 = self.settings@;
                    let e = s2[s2.len() - 1];
                    assert(s2 =~= s1.push(e));
                    assert forall|k: Seq<char>| true implies find_setting(s1.push(e), k, 0)
                        == find_setting(s2, k, 0) by {}
                    lemma_find_setting_push(s1, e, key@, 0);
                    assert forall|k: Seq<char>| k != key@ implies final(self).setting_of(k) == old(
                        self,
                    ).setting_of(k) by {
                        lemma_find_setting_push(s1, e, k, 0);
                        lemma_find_setting_some(s1, k, 0);
                        match find_setting(s1, k, 0) {
                            Option::Some(j) => {
                                assert(s2[j] == s1[j]);
                            },
                            Option::None => {
                                assert(e.key@ == key@);
                            },
                        }
                    }
                }
                Ok(())
            },
        }
    }

    /// Reads the typed application settings, with their defaults: dark
    /// theme, expanded sidebar, and the recorded active workspace, if any.
    pub fn get_all_settings(&self) -> (r: Result<AppSettings, String>)
        ensures
            r matches Ok(a),
            r matches Ok(a) ==> {
                &&& a@.theme == match self.setting_of("theme"@) {
                    Option::Some(v) => v,
                    Option::None => "dark"@,
                }
                &&& a@.sidebar_collapsed == (self.setting_of("sidebar_collapsed"@)
                    == Option::Some("true"@))
                &&& a@.active_workspace_id == self.setting_of("active_workspace_id"@)
            },
    {
        let theme = match self.get_setting("theme") {
            Ok(Option::Some(v)) => v,
            _ => String::from_str("dark"),
        };
        let sidebar_collapsed = match self.get_setting("sidebar_collapsed") {
            Ok(Option::Some(v)) => str_eq(v.as_str(), "true"),
            _ => false,
        };
        let active_workspace_id = match self.get_setting("active_workspace_id") {
            Ok(o) => o,
            Err(_) => Option::None,
        };
        Ok(AppSettings { theme, sidebar_collapsed, active_workspace_id })
    }

    /// Writes the typed application settings back: theme and sidebar state
    /// always, the active workspace only when one is set.
    pub fn save_all_settings(&mut self, settings: &AppSettings) -> (r: Result<(), String>)
        requires
            old(self).wf(),
        ensures
            final(self).wf(),
            r is Ok,
            final(self).setting_of("theme"@) == Option::Some(settings@.theme),
            final(self).setting_of("sidebar_collapsed"@) == Option::Some(
                if settings@.sidebar_collapsed {
                    "true"@
                } else {
                    "false"@
                },
            ),
            settings@.active_workspace_id matches Option::Some(v) ==> final(self).setting_of(
                "active_workspace_id"@,
            ) == Option::Some(v),
            settings@.active_workspace_id is None ==> final(self).setting_of(
                "active_workspace_id"@,
            ) == old(self).setting_of("active_workspace_id"@),
            forall|k: Seq<char>|
                k != "theme"@ && k != "sidebar_collapsed"@ && k != "active_workspace_id"@
                    ==> final(self).setting_of(k) == old(self).setting_of(k),
            final(self).s_workspaces() == old(self).s_workspaces(),
            final(self).s_requests() == old(self).s_requests(),
            final(self).s_tabs() == old(self).s_tabs(),
    {
        proof {
            reveal_strlit("theme");
            reveal_strlit("sidebar_collapsed");
            reveal_strlit("active_workspace_id");
            assert("theme"@.len() == 5);
            assert("sidebar_collapsed"@.len() == 17);
            assert("active_workspace_id"@.len() == 19);
            assert("theme"@ != "sidebar_collapsed"@);
            assert("theme"@ != "active_workspace_id"@);
            assert("sidebar_collapsed"@ != "active_workspace_id"@);
        }
        let r1 = self.set_setting("theme", settings.theme.as_str());
        if r1.is_err() {
            return r1;
        }
        let flag = if settings.sidebar_collapsed {
            "true"
        } else {
            "false"
        };
        let r2 = self.set_setting("sidebar_collapsed", flag);
        if r2.is_err() {
            return r2;
        }
        match &settings.active_workspace_id {
            Option::Some(id) => self.set_setting("active_workspace_id", id.as_str()),
            Option::None => Ok(()),
        }
    }
}

// ---------------------------------------------------------------------------
// Request history
// ---------------------------------------------------------------------------

// ---------------------------------------------------------------------------
// Tabs
// ---------------------------------------------------------------------------

/// The first position at or after `i` whose tab has identifier `id`.
pub open spec fn find_tab(s: Seq<TabV>, id: Seq<char>, i: int) -> Option<int>
    decreases s.len() - i when 0 <= i
{
    if i >= s.len() {
        Option::<int>::None
    } else if s[i].id == id {
        Option::Some(i)
    } else {
        find_tab(s, id, i + 1)
    }
}

proof fn lemma_find_tab_some(s: Seq<TabV>, id: Seq<char>, i: int)
    requires
        0 <= i,
    ensures
        find_tab(s, id, i) matches Option::Some(j) ==> i <= j < s.len() && s[j].id == id,
    decreases s.len() - i,
{
    if i < s.len() && s[i].id != id {
        lemma_find_tab_some(s, id, i + 1);
    }
}

/// The views of a vector of identifiers.
pub open spec fn strs_v(s: Seq<String>) -> Seq<Seq<char>> {
    s.map(|i: int, x: String| x@)
}

/// The highest position among workspace `w`'s tabs, or `-1` with none.
pub open spec fn max_pos(s: Seq<TabV>, w: Seq<char>) -> int
    decreases s.len(),
{
    if s.len() == 0 {
        -1
    } else {
        let m = max_pos(s.drop_last(), w);
        if s.last().workspace_id == w && s.last().position > m {
            s.last().position
        } else {
            m
        }
    }
}

/// Every tab of workspace `w` deactivated; the rest untouched.
pub open spec fn deactivate_ws(s: Seq<TabV>, w: Seq<char>) -> Seq<TabV> {
    s.map(
        |i: int, t: TabV|
            if t.workspace_id == w {
                TabV {
                    id: t.id,
                    workspace_id: t.workspace_id,
                    request_id: t.request_id,
                    state: t.state,
                    position: t.position,
                    is_active: false,
                }
            } else {
                t
            },
    )
}

/// Within workspace `w`, exactly the tab named `id` active; other
/// workspaces untouched.
pub open spec fn set_active_spec(s: Seq<TabV>, w: Seq<char>, id: Seq<char>) -> Seq<TabV> {
    s.map(
        |i: int, t: TabV|
            if t.workspace_id == w {
                TabV {
                    id: t.id,
                    workspace_id: t.workspace_id,
                    request_id: t.request_id,
                    state: t.state,
                    position: t.position,
                    is_active: t.id == id,
                }
            } else {
                t
            },
    )
}

/// The position of the last occurrence of `x` in `ids`.
pub open spec fn last_index_of(ids: Seq<Seq<char>>, x: Seq<char>) -> Option<int>
    decreases ids.len(),
{
    if ids.len() == 0 {
        Option::<int>::None
    } else if ids.last() == x {
        Option::Some(ids.len() - 1)
    } else {
        last_index_of(ids.drop_last(), x)
    }
}

proof fn lemma_last_index_of_bounds(ids: Seq<Seq<char>>, x: Seq<char>)
    ensures
        last_index_of(ids, x) matches Option::Some(j) ==> 0 <= j < ids.len(),
    decreases ids.len(),
{
    if ids.len() > 0 && ids.last() != x {
        lemma_last_index_of_bounds(ids.drop_last(), x);
    }
}

/// Each listed tab of workspace `w` at the index of its identifier's last
/// occurrence; everything else untouched.
pub open spec fn reorder_spec(s: Seq<TabV>, w: Seq<char>, ids: Seq<Seq<char>>) -> Seq<TabV> {
    s.map(
        |i: int, t: TabV|
            if t.workspace_id == w && last_index_of(ids, t.id) is Some {
                TabV {
                    id: t.id,
                    workspace_id: t.workspace_id,
                    request_id: t.request_id,
                    state: t.state,
                    position: last_index_of(ids, t.id).unwrap(),
                    is_active: t.is_active,
                }
            } else {
                t
            },
    )
}

/// Stable insertion of a tab into a position-sorted sequence: it lands
/// after every tab whose position is not greater.
pub open spec fn insert_by_pos(sorted: Seq<TabV>, t: TabV) -> Seq<TabV>
    decreases sorted.len(),
{
    if sorted.len() == 0 {
        seq![t]
    } else if t.position < sorted.last().position {
        insert_by_pos(sorted.drop_last(), t).push(sorted.last())
    } else {
        sorted.push(t)
    }
}

/// Stable sort by position: each element inserted in turn.
pub open spec fn sort_by_pos(s: Seq<TabV>) -> Seq<TabV>
    decreases s.len(),
{
    if s.len() == 0 {
        Seq::<TabV>::empty()
    } else {
        insert_by_pos(sort_by_pos(s.drop_last()), s.last())
    }
}

/// Positions never decrease along a sequence.
pub open spec fn pos_sorted(s: Seq<TabV>) -> bool {
    forall|a: int, b: int| 0 <= a < b < s.len() ==> s[a].position <= s[b].position
}

/// Every element of a stable insertion is the inserted tab or one of the
/// original elements.
proof fn lemma_insert_by_pos_contains(sorted: Seq<TabV>, t: TabV)
    ensures
        forall|k: int|
            0 <= k < insert_by_pos(sorted, t).len() ==> #[trigger] insert_by_pos(sorted, t)[k]
                == t || sorted.contains(insert_by_pos(sorted, t)[k]),
    decreases sorted.len(),
{
    if sorted.len() > 0 && t.position < sorted.last().position {
        lemma_insert_by_pos_contains(sorted.drop_last(), t);
        assert forall|k: int|
            0 <= k < insert_by_pos(sorted, t).len() implies #[trigger] insert_by_pos(sorted, t)[k]
            == t || sorted.contains(insert_by_pos(sorted, t)[k]) by {
            let prev = insert_by_pos(sorted.drop_last(), t);
            if k < prev.len() {
                assert(insert_by_pos(sorted, t)[k] == prev[k]);
                if prev[k] != t {
                    let j = choose|j: int|
                        0 <= j < sorted.drop_last().len() && sorted.drop_last()[j] == prev[k];
                    assert(sorted[j] == prev[k]);
                }
            } else {
                assert(insert_by_pos(sorted, t)[k] == sorted.last());
                assert(sorted[sorted.len() - 1] == sorted.last());
            }
        }
    } else if sorted.len() > 0 {
        assert forall|k: int|
            0 <= k < insert_by_pos(sorted, t).len() implies #[trigger] insert_by_pos(sorted, t)[k]
            == t || sorted.contains(insert_by_pos(sorted, t)[k]) by {
            if k < sorted.len() {
                assert(sorted[k] == insert_by_pos(sorted, t)[k]);
            }
        }
    }
}

proof fn lemma_insert_by_pos_sorted(sorted: Seq<TabV>, t: TabV)
    requires
        pos_sorted(sorted),
    ensures
        pos_sorted(insert_by_pos(sorted, t)),
    decreases sorted.len(),
{
    if sorted.len() > 0 && t.position < sorted.last().position {
        assert(pos_sorted(sorted.drop_last()));
        lemma_insert_by_pos_sorted(sorted.drop_last(), t);
        lemma_insert_by_pos_contains(sorted.drop_last(), t);
        let prev = insert_by_pos(sorted.drop_last(), t);
        assert forall|a: int, b: int|
            0 <= a < b < prev.push(sorted.last()).len() implies prev.push(sorted.last())[
            a].position <= prev.push(sorted.last())[b].position by {
            if b == prev.len() {
                let x = prev[a];
                if x != t {
                    let j = choose|j: int|
                        0 <= j < sorted.drop_last().len() && sorted.drop_last()[j] == x;
                    assert(sorted[j] == x);
                    assert(sorted[sorted.len() - 1] == sorted.last());
                }
            }
        }
    }
}

/// The tab listing really is ordered: positions never decrease along
/// [`sort_by_pos`] of any tab sequence.
pub proof fn lemma_sort_by_pos_sorted(s: Seq<TabV>)
    ensures
        pos_sorted(sort_by_pos(s)),
    decreases s.len(),
{
    if s.len() > 0 {
        lemma_sort_by_pos_sorted(s.drop_last());
        lemma_insert_by_pos_sorted(sort_by_pos(s.drop_last()), s.last());
    }
}

/// Where the insertion point is known — everything at or after `k` is
/// greater, everything before is not — the insertion splits the sequence
/// there.
proof fn lemma_insert_by_pos_split(sorted: Seq<TabV>, t: TabV, k: int)
    requires
        0 <= k <= sorted.len(),
        forall|j: int| k <= j < sorted.len() ==> sorted[j].position > t.position,
        k == 0 || sorted[k - 1].position <= t.position,
    ensures
        insert_by_pos(sorted, t) == sorted.subrange(0, k).push(t) + sorted.subrange(
            k,
            sorted.len() as int,
        ),
    decreases sorted.len() - k,
{
    if k == sorted.len() {
        if sorted.len() == 0 {
            assert(insert_by_pos(sorted, t) =~= sorted.subrange(0, k).push(t) + sorted.subrange(
                k,
                sorted.len() as int,
            ));
        } else {
            assert(insert_by_pos(sorted, t) == sorted.push(t));
            assert(sorted.push(t) =~= sorted.subrange(0, k).push(t) + sorted.subrange(
                k,
                sorted.len() as int,
            ));
        }
    } else {
        assert(sorted.len() > 0);
        assert(sorted.last().position > t.position);
        assert(insert_by_pos(sorted, t) == insert_by_pos(sorted.drop_last(), t).push(
            sorted.last(),
        ));
        lemma_insert_by_pos_split(sorted.drop_last(), t, k);
        assert(sorted.drop_last().subrange(0, k) =~= sorted.subrange(0, k));
        assert(insert_by_pos(sorted, t) =~= sorted.subrange(0, k).push(t) + sorted.subrange(
            k,
            sorted.len() as int,
        ));
    }
}

/// The numeric distance between a tab's position and `p`.
pub open spec fn tab_dist(t: TabV, p: int) -> int {
    if t.position >= p {
        t.position - p
    } else {
        p - t.position
    }
}

/// The scan that picks the re-activation target: from position `k` on,
/// the first tab of workspace `w` that strictly beats the best so far in
/// distance to `p`.
pub open spec fn nearest_from(
    s: Seq<TabV>,
    w: Seq<char>,
    p: int,
    k: int,
    best: Option<int>,
) -> Option<int>
    decreases s.len() - k when 0 <= k
{
    if k >= s.len() {
        best
    } else {
        let better = s[k].workspace_id == w && (match best {
            Option::None => true,
            Option::Some(b) => tab_dist(s[k], p) < tab_dist(s[b], p),
        });
        nearest_from(
            s,
            w,
            p,
            k + 1,
            if better {
                Option::Some(k)
            } else {
                best
            },
        )
    }
}

/// What the scan yields: nothing exactly when the workspace has no tab;
/// otherwise the first tab of the workspace at the least distance from
/// `p`.
pub proof fn lemma_nearest_from_props(s: Seq<TabV>, w: Seq<char>, p: int, k: int, best: Option<
    int,
>)
    requires
        0 <= k <= s.len(),
        match best {
            Option::None => forall|l: int| 0 <= l < k ==> s[l].workspace_id != w,
            Option::Some(b) => {
                &&& 0 <= b < k
                &&& s[b].workspace_id == w
                &&& forall|l: int|
                    0 <= l < k && s[l].workspace_id == w ==> tab_dist(s[b], p) <= tab_dist(
                        s[l],
                        p,
                    )
                &&& forall|l: int|
                    0 <= l < b && s[l].workspace_id == w ==> tab_dist(s[l], p) > tab_dist(
                        s[b],
                        p,
                    )
            },
        },
    ensures
        match nearest_from(s, w, p, k, best) {
            Option::None => forall|l: int| 0 <= l < s.len() ==> s[l].workspace_id != w,
            Option::Some(j) => {
                &&& 0 <= j < s.len()
                &&& s[j].workspace_id == w
                &&& forall|l: int|
                    0 <= l < s.len() && s[l].workspace_id == w ==> tab_dist(s[j], p) <= tab_dist(
                        s[l],
                        p,
                    )
                &&& forall|l: int|
                    0 <= l < j && s[l].workspace_id == w ==> tab_dist(s[l], p) > tab_dist(
                        s[j],
                        p,
                    )
            },
        },
    decreases s.len() - k,
{
    if k < s.len() {
        let better = s[k].workspace_id == w && (match best {
            Option::None => true,
            Option::Some(b) => tab_dist(s[k], p) < tab_dist(s[b], p),
        });
        if better {
            lemma_nearest_from_props(s, w, p, k + 1, Option::Some(k));
        } else {
            lemma_nearest_from_props(s, w, p, k + 1, best);
        }
    }
}

/// Removing an inactive tab keeps the tab invariants.
proof fn lemma_delete_tab_wf_inactive(s: Seq<TabV>, removed: Seq<TabV>, i: int)
    requires
        0 <= i < s.len(),
        removed == s.remove(i),
        unique_tab_ids(s),
        tab_pos_ok(s),
        one_active_per_ws(s),
        !s[i].is_active,
    ensures
        unique_tab_ids(removed),
        tab_pos_ok(removed),
        one_active_per_ws(removed),
{
    assert forall|a: int, b: int| 0 <= a < b < removed.len() implies removed[a].id
        != removed[b].id by {}
    assert forall|w: Seq<char>| #[trigger] count_ws_tabs(removed, w) > 0 implies
    count_active_tabs(removed, w) == 1 by {
        lemma_count_where_remove(s, |x: TabV| x.workspace_id == w, i);
        lemma_count_where_remove(s, |x: TabV| x.workspace_id == w && x.is_active, i);
        assert(count_ws_tabs(s, w) >= count_ws_tabs(removed, w));
        assert(count_ws_tabs(s, w) > 0);
        assert(count_active_tabs(s, w) == 1);
        assert(count_active_tabs(removed, w) == count_active_tabs(s, w) - if s[i].workspace_id
            == w && s[i].is_active {
            1int
        } else {
            0int
        });
    }
}

/// Removing the active tab of a workspace that then has no tabs keeps the
/// tab invariants.
proof fn lemma_delete_tab_wf_active_none(
    s: Seq<TabV>,
    removed: Seq<TabV>,
    i: int,
    w: Seq<char>,
    p: int,
)
    requires
        0 <= i < s.len(),
        removed == s.remove(i),
        unique_tab_ids(s),
        tab_pos_ok(s),
        one_active_per_ws(s),
        s[i].is_active,
        s[i].workspace_id == w,
        nearest_from(removed, w, p, 0, Option::None) is None,
    ensures
        unique_tab_ids(removed),
        tab_pos_ok(removed),
        one_active_per_ws(removed),
{
    lemma_nearest_from_props(removed, w, p, 0, Option::None);
    assert forall|a: int, b: int| 0 <= a < b < removed.len() implies removed[a].id
        != removed[b].id by {}
    assert forall|w2: Seq<char>| #[trigger] count_ws_tabs(removed, w2) > 0 implies
    count_active_tabs(removed, w2) == 1 by {
        lemma_count_where_remove(s, |x: TabV| x.workspace_id == w2, i);
        lemma_count_where_remove(s, |x: TabV| x.workspace_id == w2 && x.is_active, i);
        if w2 == w {
            lemma_count_where_zero(removed, |x: TabV| x.workspace_id == w2);
            assert(count_ws_tabs(removed, w2) == 0);
        } else {
            assert(count_ws_tabs(s, w2) == count_ws_tabs(removed, w2) + if s[i].workspace_id
                == w2 {
                1int
            } else {
                0int
            });
            assert(count_ws_tabs(s, w2) > 0);
            assert(count_active_tabs(s, w2) == 1);
            assert(count_active_tabs(removed, w2) == count_active_tabs(s, w2));
        }
    }
}

/// Removing the active tab and activating a remaining sibling of the same
/// workspace keeps the tab invariants.
proof fn lemma_delete_tab_wf_active_some(
    s: Seq<TabV>,
    removed: Seq<TabV>,
    f: Seq<TabV>,
    i: int,
    j: int,
    w: Seq<char>,
)
    requires
        0 <= i < s.len(),
        removed == s.remove(i),
        unique_tab_ids(s),
        tab_pos_ok(s),
        one_active_per_ws(s),
        s[i].is_active,
        s[i].workspace_id == w,
        0 <= j < removed.len(),
        removed[j].workspace_id == w,
        f.len() == removed.len(),
        f[j].id == removed[j].id,
        f[j].workspace_id == removed[j].workspace_id,
        f[j].position == removed[j].position,
        f[j].is_active,
        forall|l: int| 0 <= l < removed.len() && l != j ==> f[l] == removed[l],
    ensures
        unique_tab_ids(f),
        tab_pos_ok(f),
        one_active_per_ws(f),
{
    assert forall|a: int, b: int| 0 <= a < b < removed.len() implies removed[a].id
        != removed[b].id by {}
    assert forall|a: int, b: int| 0 <= a < b < f.len() implies f[a].id != f[b].id by {}
    assert forall|w2: Seq<char>| #[trigger] count_ws_tabs(f, w2) > 0 implies count_active_tabs(
        f,
        w2,
    ) == 1 by {
        let in_ws = |x: TabV| x.workspace_id == w2;
        let in_ws_active = |x: TabV| x.workspace_id == w2 && x.is_active;
        lemma_count_where_pointwise(removed, f, in_ws);
        assert(count_ws_tabs(f, w2) == count_ws_tabs(removed, w2));
        lemma_count_where_remove(s, in_ws, i);
        lemma_count_where_remove(s, in_ws_active, i);
        if w2 == w {
            // The workspace lost its one active tab, then gained exactly
            // one back.
            assert(count_ws_tabs(s, w) > 0) by {
                lemma_count_where_one_min(s, in_ws, i);
            }
            assert(count_active_tabs(s, w) == 1);
            assert(count_active_tabs(removed, w) == 0);
            assert(!removed[j].is_active) by {
                if removed[j].is_active {
                    lemma_count_where_one_min(removed, in_ws_active, j);
                }
            }
            lemma_count_where_update_gen(removed, f, in_ws_active, j);
            assert(count_active_tabs(f, w2) == 1);
        } else {
            lemma_count_where_pointwise(removed, f, in_ws_active);
            assert(count_active_tabs(f, w2) == count_active_tabs(removed, w2));
            assert(count_ws_tabs(s, w2) == count_ws_tabs(removed, w2) + if s[i].workspace_id
                == w2 {
                1int
            } else {
                0int
            });
            assert(count_ws_tabs(s, w2) > 0);
            assert(count_active_tabs(s, w2) == 1);
            assert(count_active_tabs(removed, w2) == count_active_tabs(s, w2));
        }
    }
}

/// Counting across a pointwise change at one position.
proof fn lemma_count_where_update_gen<T>(s1: Seq<T>, s2: Seq<T>, f: spec_fn(T) -> bool, j: int)
    requires
        s1.len() == s2.len(),
        0 <= j < s1.len(),
        forall|l: int| 0 <= l < s1.len() && l != j ==> s1[l] == s2[l],
    ensures
        count_where(s2, f) == count_where(s1, f) - (if f(s1[j]) {
            1int
        } else {
            0int
        }) + (if f(s2[j]) {
            1int
        } else {
            0int
        }),
{
    assert(s2 =~= s1.update(j, s2[j]));
    lemma_count_where_update(s1, f, j, s2[j]);
}

/// The first position at or after `i` whose request has identifier `id`.
pub open spec fn find_req(s: Seq<SavedRequestV>, id: Seq<char>, i: int) -> Option<int>
    decreases s.len() - i when 0 <= i
{
    if i >= s.len() {
        Option::<int>::None
    } else if s[i].id == id {
        Option::Some(i)
    } else {
        find_req(s, id, i + 1)
    }
}

/// The position a request created at `t` is inserted at: before every
/// older or equally old request (the history is newest first).
pub open spec fn req_insert_pos(s: Seq<SavedRequestV>, t: int, i: int) -> int
    decreases s.len() - i when 0 <= i
{
    if i >= s.len() {
        i
    } else if s[i].created_at <= t {
        i
    } else {
        req_insert_pos(s, t, i + 1)
    }
}

proof fn lemma_req_insert_pos(s: Seq<SavedRequestV>, t: int, i: int)
    requires
        0 <= i <= s.len(),
    ensures
        i <= req_insert_pos(s, t, i) <= s.len(),
        forall|j: int| i <= j < req_insert_pos(s, t, i) ==> s[j].created_at > t,
        req_insert_pos(s, t, i) < s.len() ==> s[req_insert_pos(s, t, i)].created_at <= t,
    decreases s.len() - i,
{
    if i < s.len() && !(s[i].created_at <= t) {
        lemma_req_insert_pos(s, t, i + 1);
    }
}

/// The requests of workspace `w`, newest first.
pub open spec fn ws_reqs(s: Seq<SavedRequestV>, w: Seq<char>) -> Seq<SavedRequestV> {
    filter_where(s, |r: SavedRequestV| r.workspace_id == w)
}

/// A request record matches a prepared query phrase when one of its
/// indexed texts does: the derived name, the URL, the body, or the
/// response body.
pub open spec fn entry_matches_v(e: IndexEntryV, ph: Seq<Seq<u32>>) -> bool {
    ||| crate::text::text_matches_phrase(e.name, ph)
    ||| crate::text::text_matches_phrase(e.url, ph)
    ||| (e.body_content matches Option::Some(c) && crate::text::text_matches_phrase(c, ph))
    ||| (e.response_body matches Option::Some(c) && crate::text::text_matches_phrase(c, ph))
}

/// A request matches a phrase exactly when its search-index projection
/// does.
pub open spec fn req_matches(r: SavedRequestV, ph: Seq<Seq<u32>>) -> bool {
    entry_matches_v(entry_of(r), ph)
}

/// The requests of workspace `w` that match the phrase, newest first.
pub open spec fn matching_reqs(s: Seq<SavedRequestV>, w: Seq<char>, ph: Seq<Seq<u32>>) -> Seq<
    SavedRequestV,
> {
    filter_where(s, |r: SavedRequestV| r.workspace_id == w && req_matches(r, ph))
}

/// The first `lim` elements of `s`; all of them under a negative limit.
pub open spec fn take_n(s: Seq<SavedRequestV>, lim: int) -> Seq<SavedRequestV> {
    if lim < 0 || lim > s.len() {
        s
    } else {
        s.subrange(0, lim)
    }
}

/// The listing window: `offset` elements are skipped (clamped to the
/// range), then `limit` are taken; a negative limit takes all.
pub open spec fn window(s: Seq<SavedRequestV>, limit: int, offset: int) -> Seq<SavedRequestV> {
    let o = if offset < 0 {
        0
    } else if offset > s.len() {
        s.len() as int
    } else {
        offset
    };
    let e = if limit < 0 || o + limit > s.len() {
        s.len() as int
    } else {
        o + limit
    };
    s.subrange(o, e)
}

fn entry_matches_x(e: &IndexEntry, ph: &Vec<Vec<u32>>) -> (r: bool)
    ensures
        r == entry_matches_v(e@, tok_views(ph@)),
{
    if text_matches_x(e.name.as_str(), ph) {
        return true;
    }
    if text_matches_x(e.url.as_str(), ph) {
        return true;
    }
    match &e.body_content {
        Option::Some(c) => {
            if text_matches_x(c.as_str(), ph) {
                return true;
            }
        },
        Option::None => {},
    }
    match &e.response_body {
        Option::Some(c) => {
            if text_matches_x(c.as_str(), ph) {
                return true;
            }
        },
        Option::None => {},
    }
    false
}

impl Database {
    fn req_position(&self, id: &str) -> (r: Option<usize>)
        ensures
            match r {
                Option::Some(i) => find_req(self.s_requests(), id@, 0) == Option::Some(i as int)
                    && i < self.s_requests().len() && self.s_requests()[i as int].id == id@,
                Option::None => find_req(self.s_requests(), id@, 0) is None && forall|j: int|
                    0 <= j < self.s_requests().len() ==> self.s_requests()[j].id != id@,
            },
    {
        let n = self.requests.len();
        let mut i: usize = 0;
        while i < n
            invariant
                n == self.requests@.len(),
                i <= n,
                find_req(self.s_requests(), id@, 0) == find_req(
                    self.s_requests(),
                    id@,
                    i as int,
                ),
                forall|j: int| 0 <= j < i ==> self.s_requests()[j].id != id@,
            decreases n - i,
        {
            if str_eq(self.requests[i].id.as_str(), id) {
                return Option::Some(i);
            }
            i = i + 1;
        }
        Option::None
    }

    /// Records a new request under the given identifier and creation time.
    /// The record's name is derived as `"<METHOD> <path>"` from the method
    /// and the URL's path component, its two timestamps are equal, and it
    /// is inserted newest-first; the search index gains exactly its
    /// projection. Fails only when the identifier is taken or the store is
    /// full.
    pub fn create_request_with(&mut self, id: String, now: i64, input: CreateRequestInput) -> (r:
        Result<SavedRequest, String>)
        requires
            old(self).wf(),
            now >= 0,
        ensures
            final(self).wf(),
            r is Ok <==> (forall|j: int|
                0 <= j < old(self).s_requests().len() ==> old(self).s_requests()[j].id != id@)
                && old(self).s_requests().len() < STORE_CAP as int,
            r matches Ok(rec) ==> {
                &&& rec@.id == id@
                &&& rec@.workspace_id == input@.workspace_id
                &&& rec@.name == input@.method + " "@ + extract_path_spec(input@.url)
                &&& rec@.method == input@.method
                &&& rec@.url == input@.url
                &&& rec@.params == input@.params
                &&& rec@.headers == input@.headers
                &&& rec@.body_type == input@.body_type
                &&& rec@.body_content == input@.body_content
                &&& rec@.response_status == input@.response_status
                &&& rec@.response_status_text == input@.response_status_text
                &&& rec@.response_headers == input@.response_headers
                &&& rec@.response_body == input@.response_body
                &&& rec@.response_time_ms == input@.response_time_ms
                &&& rec@.response_size_bytes == input@.response_size_bytes
                &&& rec@.created_at == now as int
                &&& rec@.updated_at == now as int
                &&& final(self).s_requests() == old(self).s_requests().insert(
                    req_insert_pos(old(self).s_requests(), now as int, 0),
                    rec@,
                )
            },
            r is Err ==> final(self).s_requests() == old(self).s_requests(),
            r matches Err(e) ==> e@ == "request id already exists"@ || e@
                == "request store is full"@,
            final(self).s_workspaces() == old(self).s_workspaces(),
            final(self).s_tabs() == old(self).s_tabs(),
            forall|k: Seq<char>| final(self).setting_of(k) == old(self).setting_of(k),
    {
        if self.req_position(id.as_str()).is_some() {
            proof {
                let i = find_req(self.s_requests(), id@, 0).unwrap();
                assert(self.s_requests()[i].id == id@);
            }
            return Err(String::from_str("request id already exists"));
        }
        if !((self.requests.len() as u64) < STORE_CAP) {
            return Err(String::from_str("request store is full"));
        }
        let CreateRequestInput {
            workspace_id,
            method,
            url,
            params,
            headers,
            body_type,
            body_content,
            response_status,
            response_status_text,
            response_headers,
            response_body,
            response_time_ms,
            response_size_bytes,
        } = input;
        let name = method.clone().concat(" ").concat(extract_path(url.as_str()));
        let rec = SavedRequest {
            id,
            workspace_id,
            name,
            method,
            url,
            params,
            headers,
            body_type,
            body_content,
            response_status,
            response_status_text,
            response_headers,
            response_body,
            response_time_ms,
            response_size_bytes,
            created_at: now,
            updated_at: now,
        };
        let entry = IndexEntry {
            id: rec.id.clone(),
            name: rec.name.clone(),
            url: rec.url.clone(),
            body_content: clone_opt_str(&rec.body_content),
            response_body: clone_opt_str(&rec.response_body),
        };
        let ghost s = self.s_requests();
        let ghost pos = req_insert_pos(s, now as int, 0);
        proof {
            lemma_req_insert_pos(s, now as int, 0);
        }
        let n = self.requests.len();
        let mut i: usize = 0;
        while i < n && self.requests[i].created_at > now
            invariant
                n == self.requests@.len(),
                s == self.s_requests(),
                i <= n,
                pos == req_insert_pos(s, now as int, 0),
                req_insert_pos(s, now as int, i as int) == pos,
                forall|j: int| 0 <= j < i ==> s[j].created_at > now as int,
            decreases n - i,
        {
            i = i + 1;
        }
        proof {
            assert(i as int == pos);
        }
        let result = rec.clone();
        self.requests.insert(i, rec);
        self.index.insert(i, entry);
        proof {
            let new_s = final(self).s_requests();
            let new_i = final(self).s_index();
            assert(new_s =~= s.insert(pos, result@));
            assert(new_i =~= old(self).s_index().insert(pos, entry_of(result@)));
            assert forall|a: int, b: int| 0 <= a < b < new_s.len() implies new_s[a].id
                != new_s[b].id by {
                assert(forall|j: int| 0 <= j < s.len() ==> s[j].id != result@.id);
            }
            assert forall|a: int, b: int| 0 <= a < b < new_s.len() implies new_s[a].created_at
                >= new_s[b].created_at by {}
            assert forall|k: int| 0 <= k < new_s.len() implies new_i[k] == entry_of(
                new_s[k],
            ) by {}
            assert(final(self).s_workspaces() =~= old(self).s_workspaces());
            assert(final(self).s_tabs() =~= old(self).s_tabs());
        }
        Ok(result)
    }

    /// Records a new request with a freshly drawn identifier at the
    /// clock's current time.
    pub fn create_request(&mut self, input: CreateRequestInput) -> (r: Result<
        SavedRequest,
        String,
    >)
        requires
            old(self).wf(),
        ensures
            final(self).wf(),
            r matches Ok(rec) ==> {
                &&& rec@.workspace_id == input@.workspace_id
                &&& rec@.name == input@.method + " "@ + extract_path_spec(input@.url)
                &&& rec@.method == input@.method
                &&& rec@.url == input@.url
                &&& rec@.body_content == input@.body_content
                &&& rec@.response_body == input@.response_body
                &&& rec@.created_at == rec@.updated_at
                &&& final(self).s_requests() == old(self).s_requests().insert(
                    req_insert_pos(old(self).s_requests(), rec@.created_at, 0),
                    rec@,
                )
            },
            r is Err ==> final(self).s_requests() == old(self).s_requests(),
            final(self).s_workspaces() == old(self).s_workspaces(),
            final(self).s_tabs() == old(self).s_tabs(),
            forall|k: Seq<char>| final(self).setting_of(k) == old(self).setting_of(k),
    {
        let id = fresh_id();
        let mut now = now_millis();
        if now < 0 {
            now = 0;
        }
        self.create_request_with(id, now, input)
    }

    /// Looks a request up by identifier; an unknown identifier is an
    /// absent result, not an error.
    pub fn get_request(&self, id: &str) -> (r: Result<Option<SavedRequest>, String>)
        ensures
            r matches Ok(o),
            r matches Ok(o) ==> match o {
                Option::Some(rec) => {
                    &&& find_req(self.s_requests(), id@, 0) matches Option::Some(i)
                    &&& rec@ == self.s_requests()[find_req(self.s_requests(), id@, 0).unwrap()]
                },
                Option::None => forall|j: int|
                    0 <= j < self.s_requests().len() ==> self.s_requests()[j].id != id@,
            },
    {
        match self.req_position(id) {
            Option::Some(i) => Ok(Option::Some(self.requests[i].clone())),
            Option::None => Ok(Option::None),
        }
    }

    /// Lists a workspace's request history, newest first, after applying
    /// the offset (default 0) and the limit (default 100; negative takes
    /// all).
    pub fn get_requests_by_workspace(
        &self,
        workspace_id: &str,
        limit: Option<i64>,
        offset: Option<i64>,
    ) -> (r: Result<Vec<SavedRequest>, String>)
        requires
            self.wf(),
        ensures
            r matches Ok(v) && reqs_v(v@) == window(
                ws_reqs(self.s_requests(), workspace_id@),
                match limit {
                    Option::Some(l) => l as int,
                    Option::None => 100,
                },
                match offset {
                    Option::Some(o) => o as int,
                    Option::None => 0,
                },
            ),
    {
        let ghost s = self.s_requests();
        let ghost keep = |q: SavedRequestV| q.workspace_id == workspace_id@;
        let n = self.requests.len();
        let mut filtered: Vec<SavedRequest> = Vec::new();
        proof {
            assert(s.subrange(0, 0) =~= Seq::<SavedRequestV>::empty());
            assert(reqs_v(filtered@) =~= filter_where(s.subrange(0, 0), keep));
        }
        let mut i: usize = 0;
        while i < n
            invariant
                n == self.requests@.len(),
                s == self.s_requests(),
                keep == (|q: SavedRequestV| q.workspace_id == workspace_id@),
                i <= n,
                reqs_v(filtered@) == filter_where(s.subrange(0, i as int), keep),
            decreases n - i,
        {
            let ghost prefix = s.subrange(0, i as int);
            let ghost ext = s.subrange(0, i + 1);
            proof {
                assert(ext.drop_last() =~= prefix);
                assert(ext.last() == s[i as int]);
            }
            if str_eq(self.requests[i].workspace_id.as_str(), workspace_id) {
                filtered.push(self.requests[i].clone());
                proof {
                    assert(reqs_v(filtered@) =~= filter_where(prefix, keep).push(s[i as int]));
                }
            }
            i = i + 1;
        }
        proof {
            assert(s.subrange(0, n as int) =~= s);
        }
        let lim: i64 = match limit {
            Option::Some(l) => l,
            Option::None => 100,
        };
        let off: i64 = match offset {
            Option::Some(o) => o,
            Option::None => 0,
        };
        let flen = filtered.len();
        let start: usize = if off < 0 {
            0
        } else if (off as u64) > (flen as u64) {
            flen
        } else {
            off as usize
        };
        let end: usize = if lim < 0 {
            flen
        } else {
            let room = flen - start;
            if (lim as u64) > (room as u64) {
                flen
            } else {
                start + (lim as usize)
            }
        };
        let mut out: Vec<SavedRequest> = Vec::new();
        let mut k: usize = start;
        while k < end
            invariant
                start <= k <= end <= flen,
                flen == filtered@.len(),
                out@.len() == k - start,
                forall|j: int| 0 <= j < out@.len() ==> out@[j]@ == filtered@[start + j]@,
            decreases end - k,
        {
            out.push(filtered[k].clone());
            k = k + 1;
        }
        proof {
            let full = filter_where(s, keep);
            assert(reqs_v(filtered@) == full);
            assert(flen == full.len());
            assert(reqs_v(out@) =~= window(
                full,
                match limit {
                    Option::Some(l) => l as int,
                    Option::None => 100,
                },
                match offset {
                    Option::Some(o) => o as int,
                    Option::None => 0,
                },
            ));
        }
        Ok(out)
    }

    /// Searches a workspace's request history: tokenizes the query for
    /// prefix matching (stripping embedded quotes), consults the search
    /// index, restricts to the workspace, and returns the newest matches
    /// first, up to the limit (default 50; negative takes all). Never
    /// errors; an empty query matches nothing.
    pub fn search_requests(&self, workspace_id: &str, query: &str, limit: Option<i64>) -> (r:
        Result<Vec<SavedRequest>, String>)
        requires
            self.wf(),
        ensures
            r matches Ok(v) && reqs_v(v@) == take_n(
                matching_reqs(self.s_requests(), workspace_id@, phrase_of(query@)),
                match limit {
                    Option::Some(l) => l as int,
                    Option::None => 50,
                },
            ),
    {
        let ph = phrase_of_x(query);
        let lim: i64 = match limit {
            Option::Some(l) => l,
            Option::None => 50,
        };
        let ghost s = self.s_requests();
        let ghost phv = phrase_of(query@);
        let ghost keep = |q: SavedRequestV| q.workspace_id == workspace_id@ && req_matches(
            q,
            phv,
        );
        let ghost limi = lim as int;
        let n = self.requests.len();
        let mut out: Vec<SavedRequest> = Vec::new();
        proof {
            assert(s.subrange(0, 0) =~= Seq::<SavedRequestV>::empty());
            assert(reqs_v(out@) =~= take_n(filter_where(s.subrange(0, 0), keep), limi));
        }
        let mut i: usize = 0;
        while i < n
            invariant
                self.wf(),
                n == self.requests@.len(),
                s == self.s_requests(),
                keep == (|q: SavedRequestV| q.workspace_id == workspace_id@ && req_matches(
                    q,
                    phv,
                )),
                tok_views(ph@) == phv,
                limi == lim as int,
                i <= n,
                out@.len() <= i,
                reqs_v(out@) == take_n(filter_where(s.subrange(0, i as int), keep), limi),
            decreases n - i,
        {
            let ghost prefix = s.subrange(0, i as int);
            let ghost ext = s.subrange(0, i + 1);
            proof {
                assert(ext.drop_last() =~= prefix);
                assert(ext.last() == s[i as int]);
                assert(self.s_index()[i as int] == entry_of(s[i as int]));
            }
            let under = lim < 0 || ((out.len() as i64) < lim);
            if str_eq(self.requests[i].workspace_id.as_str(), workspace_id) && entry_matches_x(
                &self.index[i],
                &ph,
            ) {
                proof {
                    assert(filter_where(ext, keep) =~= filter_where(prefix, keep).push(
                        s[i as int],
                    ));
                }
                let ghost fp = filter_where(prefix, keep);
                let ghost fe = filter_where(ext, keep);
                if under {
                    proof {
                        // Under the limit, everything kept so far was
                        // taken whole, so the new match extends the take.
                        if limi >= 0 {
                            if limi <= fp.len() {
                                assert(reqs_v(out@) =~= fp.subrange(0, limi));
                                assert(reqs_v(out@).len() == limi);
                                assert(false);
                            }
                            assert(take_n(fp, limi) == fp);
                        }
                        assert(reqs_v(out@) == fp);
                    }
                    out.push(self.requests[i].clone());
                    proof {
                        assert(reqs_v(out@) =~= fp.push(s[i as int]));
                        if limi >= 0 {
                            assert(fe.len() == fp.len() + 1 <= limi);
                            if limi > fe.len() {
                                assert(take_n(fe, limi) == fe);
                            } else {
                                assert(take_n(fe, limi) =~= fe);
                            }
                        }
                        assert(reqs_v(out@) =~= take_n(fe, limi));
                    }
                } else {
                    proof {
                        // At the limit, the take is already full and the
                        // new match falls off its end.
                        assert(limi >= 0 && reqs_v(out@).len() == limi);
                        if limi > fp.len() {
                            assert(reqs_v(out@) =~= fp);
                            assert(false);
                        }
                        assert(reqs_v(out@) =~= fp.subrange(0, limi));
                        assert(take_n(fe, limi) =~= fp.subrange(0, limi));
                        assert(reqs_v(out@) =~= take_n(fe, limi));
                    }
                }
            } else {
                proof {
                    assert(filter_where(ext, keep) =~= filter_where(prefix, keep));
                }
            }
            i = i + 1;
        }
        proof {
            assert(s.subrange(0, n as int) =~= s);
        }
        Ok(out)
    }

    /// Deletes a request record by identifier, together with its search
    /// index entry; an unknown identifier is a no-op.
    pub fn delete_request(&mut self, id: &str) -> (r: Result<(), String>)
        requires
            old(self).wf(),
        ensures
            final(self).wf(),
            r is Ok,
            match find_req(old(self).s_requests(), id@, 0) {
                Option::Some(i) => final(self).s_requests() == old(self).s_requests().remove(i),
                Option::None => final(self).s_requests() == old(self).s_requests(),
            },
            final(self).s_workspaces() == old(self).s_workspaces(),
            final(self).s_tabs() == old(self).s_tabs(),
            forall|k: Seq<char>| final(self).setting_of(k) == old(self).setting_of(k),
    {
        match self.req_position(id) {
            Option::None => Ok(()),
            Option::Some(i) => {
                let ghost s = self.s_requests();
                self.requests.remove(i);
                self.index.remove(i);
                proof {
                    assert(final(self).s_requests() =~= s.remove(i as int));
                    assert(final(self).s_index() =~= old(self).s_index().remove(i as int));
                    assert(final(self).s_workspaces() =~= old(self).s_workspaces());
                    assert(final(self).s_tabs() =~= old(self).s_tabs());
                }
                Ok(())
            },
        }
    }

    /// Clears a workspace's request history, index entries included, and
    /// reports how many records were deleted.
    pub fn clear_workspace_history(&mut self, workspace_id: &str) -> (r: Result<i64, String>)
        requires
            old(self).wf(),
        ensures
            final(self).wf(),
            r matches Ok(n) && n == count_ws_reqs(old(self).s_requests(), workspace_id@),
            final(self).s_requests() == filter_where(
                old(self).s_requests(),
                |q: SavedRequestV| q.workspace_id != workspace_id@,
            ),
            final(self).s_workspaces() == old(self).s_workspaces(),
            final(self).s_tabs() == old(self).s_tabs(),
            forall|k: Seq<char>| final(self).setting_of(k) == old(self).setting_of(k),
    {
        let ghost s = self.s_requests();
        let ghost keep = |q: SavedRequestV| q.workspace_id != workspace_id@;
        let ghost inws = |q: SavedRequestV| q.workspace_id == workspace_id@;
        let n = self.requests.len();
        let mut kept_reqs: Vec<SavedRequest> = Vec::new();
        let mut kept_idx: Vec<IndexEntry> = Vec::new();
        let mut removed: i64 = 0;
        proof {
            assert(s.subrange(0, 0) =~= Seq::<SavedRequestV>::empty());
            assert(reqs_v(kept_reqs@) =~= filter_where(s.subrange(0, 0), keep));
        }
        let mut i: usize = 0;
        while i < n
            invariant
                old(self).wf(),
                *self == *old(self),
                n == self.requests@.len(),
                s == self.s_requests(),
                keep == (|q: SavedRequestV| q.workspace_id != workspace_id@),
                inws == (|q: SavedRequestV| q.workspace_id == workspace_id@),
                i <= n,
                reqs_v(kept_reqs@) == filter_where(s.subrange(0, i as int), keep),
                kept_idx@.len() == kept_reqs@.len(),
                forall|k: int|
                    0 <= k < kept_idx@.len() ==> kept_idx@[k]@ == entry_of(
                        reqs_v(kept_reqs@)[k],
                    ),
                removed == count_where(s.subrange(0, i as int), inws),
                0 <= removed <= i,
            decreases n - i,
        {
            let ghost prefix = s.subrange(0, i as int);
            let ghost ext = s.subrange(0, i + 1);
            proof {
                assert(ext.drop_last() =~= prefix);
                assert(ext.last() == s[i as int]);
                assert(self.s_index()[i as int] == entry_of(s[i as int]));
            }
            if !str_eq(self.requests[i].workspace_id.as_str(), workspace_id) {
                kept_reqs.push(self.requests[i].clone());
                let e = &self.index[i];
                kept_idx.push(
                    IndexEntry {
                        id: e.id.clone(),
                        name: e.name.clone(),
                        url: e.url.clone(),
                        body_content: clone_opt_str(&e.body_content),
                        response_body: clone_opt_str(&e.response_body),
                    },
                );
                proof {
                    assert(reqs_v(kept_reqs@) =~= filter_where(prefix, keep).push(s[i as int]));
                }
            } else {
                removed = removed + 1;
            }
            i = i + 1;
        }
        proof {
            assert(s.subrange(0, n as int) =~= s);
        }
        self.requests = kept_reqs;
        self.index = kept_idx;
        proof {
            lemma_filter_where_unique_req(s, keep);
            lemma_filter_where_sorted_req(s, keep);
            lemma_filter_where_len(s, keep);
            lemma_count_where_bounds(s, keep);
            assert(final(self).s_workspaces() =~= old(self).s_workspaces());
            assert(final(self).s_tabs() =~= old(self).s_tabs());
        }
        Ok(removed)
    }

    /// Looks a tab up by identifier.
    fn tab_position(&self, id: &str) -> (r: Option<usize>)
        ensures
            match r {
                Option::Some(i) => find_tab(self.s_tabs(), id@, 0) == Option::Some(i as int) && i
                    < self.s_tabs().len() && self.s_tabs()[i as int].id == id@,
                Option::None => find_tab(self.s_tabs(), id@, 0) is None && forall|j: int|
                    0 <= j < self.s_tabs().len() ==> self.s_tabs()[j].id != id@,
            },
    {
        let n = self.tabs.len();
        let mut i: usize = 0;
        while i < n
            invariant
                n == self.tabs@.len(),
                i <= n,
                find_tab(self.s_tabs(), id@, 0) == find_tab(self.s_tabs(), id@, i as int),
                forall|j: int| 0 <= j < i ==> self.s_tabs()[j].id != id@,
            decreases n - i,
        {
            if str_eq(self.tabs[i].id.as_str(), id) {
                return Option::Some(i);
            }
            i = i + 1;
        }
        Option::None
    }

    /// Lists a workspace's tabs, ordered by position ascending, ties in
    /// creation order.
    pub fn get_tabs_by_workspace(&self, workspace_id: &str) -> (r: Result<Vec<Tab>, String>)
        ensures
            r matches Ok(v) && tabs_v(v@) == sort_by_pos(
                filter_where(self.s_tabs(), |t: TabV| t.workspace_id == workspace_id@),
            ),
    {
        let ghost s = self.s_tabs();
        let ghost keep = |t: TabV| t.workspace_id == workspace_id@;
        let n = self.tabs.len();
        let mut picked: Vec<Tab> = Vec::new();
        proof {
            assert(s.subrange(0, 0) =~= Seq::<TabV>::empty());
            assert(tabs_v(picked@) =~= filter_where(s.subrange(0, 0), keep));
        }
        let mut i: usize = 0;
        while i < n
            invariant
                n == self.tabs@.len(),
                s == self.s_tabs(),
                keep == (|t: TabV| t.workspace_id == workspace_id@),
                i <= n,
                tabs_v(picked@) == filter_where(s.subrange(0, i as int), keep),
            decreases n - i,
        {
            let ghost prefix = s.subrange(0, i as int);
            let ghost ext = s.subrange(0, i + 1);
            proof {
                assert(ext.drop_last() =~= prefix);
                assert(ext.last() == s[i as int]);
            }
            if str_eq(self.tabs[i].workspace_id.as_str(), workspace_id) {
                picked.push(self.tabs[i].clone());
                proof {
                    assert(tabs_v(picked@) =~= filter_where(prefix, keep).push(s[i as int]));
                }
            }
            i = i + 1;
        }
        proof {
            assert(s.subrange(0, n as int) =~= s);
        }
        // Stable insertion sort by position.
        let ghost pv = tabs_v(picked@);
        let m = picked.len();
        let mut out: Vec<Tab> = Vec::new();
        proof {
            assert(pv.subrange(0, 0) =~= Seq::<TabV>::empty());
            assert(tabs_v(out@) =~= sort_by_pos(pv.subrange(0, 0)));
        }
        let mut j: usize = 0;
        while j < m
            invariant
                m == picked@.len(),
                pv == tabs_v(picked@),
                j <= m,
                tabs_v(out@) == sort_by_pos(pv.subrange(0, j as int)),
            decreases m - j,
        {
            let ghost sorted = tabs_v(out@);
            let t = picked[j].clone();
            let olen = out.len();
            let mut k: usize = olen;
            while k > 0 && out[k - 1].position > t.position
                invariant
                    olen == out@.len(),
                    k <= olen,
                    tabs_v(out@) == sorted,
                    t@ == pv[j as int],
                    j < m,
                    pv == tabs_v(picked@),
                    forall|l: int| k <= l < olen ==> sorted[l].position > t@.position,
                decreases k,
            {
                k = k - 1;
            }
            proof {
                lemma_insert_by_pos_split(sorted, t@, k as int);
            }
            out.insert(k, t);
            proof {
                assert(tabs_v(out@) =~= sorted.subrange(0, k as int).push(t@) + sorted.subrange(
                    k as int,
                    sorted.len() as int,
                ));
                assert(pv.subrange(0, j + 1).drop_last() =~= pv.subrange(0, j as int));
                assert(pv.subrange(0, j + 1).last() == pv[j as int]);
                assert(tabs_v(out@) == sort_by_pos(pv.subrange(0, j + 1)));
            }
            j = j + 1;
        }
        proof {
            assert(pv.subrange(0, m as int) =~= pv);
        }
        Ok(out)
    }

    /// Creates a tab in a workspace under the given identifier: its
    /// position is one past the workspace's highest, its state is the
    /// given draft or a fresh default, and it becomes the active tab while
    /// every sibling is deactivated — one atomic step. Fails only when the
    /// identifier is taken or a bound is hit.
    pub fn create_tab_with(&mut self, id: String, workspace_id: &str, state: Option<TabState>) -> (
        r: Result<Tab, String>)
        requires
            old(self).wf(),
        ensures
            final(self).wf(),
            r is Ok <==> (forall|j: int|
                0 <= j < old(self).s_tabs().len() ==> old(self).s_tabs()[j].id != id@) && max_pos(
                old(self).s_tabs(),
                workspace_id@,
            ) < TAB_POS_CAP as int && old(self).s_tabs().len() < STORE_CAP as int,
            r matches Ok(t) ==> {
                &&& t@.id == id@
                &&& t@.workspace_id == workspace_id@
                &&& t@.request_id is None
                &&& match state {
                    Option::Some(st) => t@.state == st@,
                    Option::None => t@.state == default_tab_state_v(),
                }
                &&& t@.position == max_pos(old(self).s_tabs(), workspace_id@) + 1
                &&& t@.is_active
                &&& final(self).s_tabs() == deactivate_ws(old(self).s_tabs(), workspace_id@).push(
                    t@,
                )
            },
            r is Err ==> final(self).s_tabs() == old(self).s_tabs(),
            r matches Err(e) ==> e@ == "tab id already exists"@ || e@ == "tab store is full"@,
            final(self).s_workspaces() == old(self).s_workspaces(),
            final(self).s_requests() == old(self).s_requests(),
            forall|k: Seq<char>| final(self).setting_of(k) == old(self).setting_of(k),
    {
        if self.tab_position(id.as_str()).is_some() {
            proof {
                let i = find_tab(self.s_tabs(), id@, 0).unwrap();
                lemma_find_tab_some(self.s_tabs(), id@, 0);
                assert(self.s_tabs()[i].id == id@);
            }
            return Err(String::from_str("tab id already exists"));
        }
        if !((self.tabs.len() as u64) < STORE_CAP) {
            return Err(String::from_str("tab store is full"));
        }
        let ghost s = self.s_tabs();
        // The workspace's highest position so far.
        let n = self.tabs.len();
        let mut maxp: i32 = -1;
        proof {
            assert(s.subrange(0, 0) =~= Seq::<TabV>::empty());
        }
        let mut i: usize = 0;
        while i < n
            invariant
                old(self).wf(),
                *self == *old(self),
                n == self.tabs@.len(),
                s == self.s_tabs(),
                i <= n,
                maxp as int == max_pos(s.subrange(0, i as int), workspace_id@),
                -1 <= maxp as int <= TAB_POS_CAP as int,
            decreases n - i,
        {
            let ghost prefix = s.subrange(0, i as int);
            let ghost ext = s.subrange(0, i + 1);
            proof {
                assert(ext.drop_last() =~= prefix);
                assert(ext.last() == s[i as int]);
            }
            if str_eq(self.tabs[i].workspace_id.as_str(), workspace_id) && self.tabs[i].position
                > maxp {
                maxp = self.tabs[i].position;
            }
            i = i + 1;
        }
        proof {
            assert(s.subrange(0, n as int) =~= s);
        }
        if !(maxp < TAB_POS_CAP) {
            return Err(String::from_str("tab store is full"));
        }
        let position = maxp + 1;
        let st = match state {
            Option::Some(st) => st,
            Option::None => TabState::default(),
        };
        let t = Tab {
            id,
            workspace_id: String::from_str(workspace_id),
            request_id: Option::None,
            state: st,
            position,
            is_active: true,
        };
        let result = t.clone();
        // Deactivate every sibling, then insert the new tab as active: one
        // atomic step from the caller's point of view.
        let mut rebuilt: Vec<Tab> = Vec::new();
        proof {
            assert(tabs_v(rebuilt@) =~= deactivate_ws(s, workspace_id@).subrange(0, 0));
        }
        let mut k: usize = 0;
        while k < n
            invariant
                old(self).wf(),
                *self == *old(self),
                n == self.tabs@.len(),
                s == self.s_tabs(),
                k <= n,
                rebuilt@.len() == k,
                forall|l: int|
                    0 <= l < k ==> tabs_v(rebuilt@)[l] == #[trigger] deactivate_ws(
                        s,
                        workspace_id@,
                    )[l],
            decreases n - k,
        {
            let mut c = self.tabs[k].clone();
            if str_eq(c.workspace_id.as_str(), workspace_id) {
                c.is_active = false;
            }
            let ghost cv = c@;
            rebuilt.push(c);
            proof {
                assert(tabs_v(rebuilt@)[k as int] == cv);
                assert(deactivate_ws(s, workspace_id@)[k as int] == cv);
            }
            k = k + 1;
        }
        rebuilt.push(t);
        self.tabs = rebuilt;
        proof {
            let d = deactivate_ws(s, workspace_id@);
            assert forall|l: int| 0 <= l < s.len() implies d[l].workspace_id
                == s[l].workspace_id && d[l].id == s[l].id && d[l].position == s[l].position && (
            s[l].workspace_id == workspace_id@ ==> !d[l].is_active) && (s[l].workspace_id
                != workspace_id@ ==> d[l] == s[l]) by {}
            let f = final(self).s_tabs();
            assert(f =~= d.push(result@));
            assert(final(self).s_workspaces() =~= old(self).s_workspaces());
            assert(final(self).s_requests() =~= old(self).s_requests());
            assert(final(self).s_index() =~= old(self).s_index());
            assert forall|w: Seq<char>| #[trigger] count_ws_tabs(f, w) > 0 implies
            count_active_tabs(f, w) == 1 by {
                let in_ws = |x: TabV| x.workspace_id == w;
                let in_ws_active = |x: TabV| x.workspace_id == w && x.is_active;
                lemma_count_where_pointwise(s, d, in_ws);
                lemma_count_where_push(d, in_ws, result@);
                lemma_count_where_push(d, in_ws_active, result@);
                assert(count_ws_tabs(f, w) == count_ws_tabs(s, w) + if result@.workspace_id
                    == w {
                    1int
                } else {
                    0int
                });
                if w == workspace_id@ {
                    lemma_count_where_zero(d, in_ws_active);
                    assert(count_active_tabs(f, w) == 1);
                } else {
                    lemma_count_where_pointwise(s, d, in_ws_active);
                    assert(count_ws_tabs(s, w) > 0);
                    assert(count_active_tabs(f, w) == count_active_tabs(s, w));
                }
            }
            assert(unique_tab_ids(f)) by {
                assert forall|a: int, b: int| 0 <= a < b < f.len() implies f[a].id != f[b].id by {}
            }
        }
        Ok(result)
    }

    /// Creates a tab with a freshly drawn identifier.
    pub fn create_tab(&mut self, workspace_id: &str, state: Option<TabState>) -> (r: Result<
        Tab,
        String,
    >)
        requires
            old(self).wf(),
        ensures
            final(self).wf(),
            r matches Ok(t) ==> {
                &&& t@.workspace_id == workspace_id@
                &&& t@.request_id is None
                &&& match state {
                    Option::Some(st) => t@.state == st@,
                    Option::None => t@.state == default_tab_state_v(),
                }
                &&& t@.position == max_pos(old(self).s_tabs(), workspace_id@) + 1
                &&& t@.is_active
                &&& final(self).s_tabs() == deactivate_ws(old(self).s_tabs(), workspace_id@).push(
                    t@,
                )
            },
            r is Err ==> final(self).s_tabs() == old(self).s_tabs(),
            final(self).s_workspaces() == old(self).s_workspaces(),
            final(self).s_requests() == old(self).s_requests(),
            forall|k: Seq<char>| final(self).setting_of(k) == old(self).setting_of(k),
    {
        let id = fresh_id();
        self.create_tab_with(id, workspace_id, state)
    }

    /// Replaces a tab's draft state and linked request; its position and
    /// active flag are untouched. An unknown identifier is a no-op.
    pub fn update_tab(&mut self, id: &str, state: TabState, request_id: Option<String>) -> (r:
        Result<(), String>)
        requires
            old(self).wf(),
        ensures
            final(self).wf(),
            r is Ok,
            match find_tab(old(self).s_tabs(), id@, 0) {
                Option::Some(i) => final(self).s_tabs() == old(self).s_tabs().update(
                    i,
                    TabV {
                        id: old(self).s_tabs()[i].id,
                        workspace_id: old(self).s_tabs()[i].workspace_id,
                        request_id: opt_str_v(request_id),
                        state: state@,
                        position: old(self).s_tabs()[i].position,
                        is_active: old(self).s_tabs()[i].is_active,
                    },
                ),
                Option::None => final(self).s_tabs() == old(self).s_tabs(),
            },
            final(self).s_workspaces() == old(self).s_workspaces(),
            final(self).s_requests() == old(self).s_requests(),
            forall|k: Seq<char>| final(self).setting_of(k) == old(self).setting_of(k),
    {
        match self.tab_position(id) {
            Option::None => Ok(()),
            Option::Some(i) => {
                let ghost s = self.s_tabs();
                let mut t = self.tabs.remove(i);
                t.state = state;
                t.request_id = request_id;
                self.tabs.insert(i, t);
                proof {
                    let f = final(self).s_tabs();
                    assert(f =~= s.update(i as int, f[i as int]));
                    assert(final(self).s_workspaces() =~= old(self).s_workspaces());
                    assert(final(self).s_requests() =~= old(self).s_requests());
                    assert(final(self).s_index() =~= old(self).s_index());
                    assert(forall|l: int|
                        0 <= l < s.len() ==> f[l].workspace_id == s[l].workspace_id
                            && f[l].id == s[l].id && f[l].position == s[l].position
                            && f[l].is_active == s[l].is_active);
                    assert forall|w: Seq<char>| #[trigger] count_ws_tabs(f, w) > 0 implies
                    count_active_tabs(f, w) == 1 by {
                        lemma_count_where_pointwise(s, f, |x: TabV| x.workspace_id == w);
                        lemma_count_where_pointwise(
                            s,
                            f,
                            |x: TabV| x.workspace_id == w && x.is_active,
                        );
                        assert(count_ws_tabs(f, w) == count_ws_tabs(s, w));
                        assert(count_ws_tabs(s, w) > 0);
                        assert(count_active_tabs(f, w) == count_active_tabs(s, w));
                    }
                }
                Ok(())
            },
        }
    }

    /// Makes the named tab the workspace's active one, deactivating every
    /// sibling in the same atomic step. Fails exactly when the workspace
    /// holds no tab with that identifier, leaving the store unchanged.
    pub fn set_active_tab(&mut self, workspace_id: &str, tab_id: &str) -> (r: Result<(), String>)
        requires
            old(self).wf(),
        ensures
            final(self).wf(),
            r is Ok <==> exists|i: int|
                0 <= i < old(self).s_tabs().len() && old(self).s_tabs()[i].id == tab_id@ && old(
                    self,
                ).s_tabs()[i].workspace_id == workspace_id@,
            r is Ok ==> final(self).s_tabs() == set_active_spec(
                old(self).s_tabs(),
                workspace_id@,
                tab_id@,
            ),
            r matches Err(e) ==> e@ == "Tab not found in workspace"@ && final(self).s_tabs()
                == old(self).s_tabs(),
            final(self).s_workspaces() == old(self).s_workspaces(),
            final(self).s_requests() == old(self).s_requests(),
            forall|k: Seq<char>| final(self).setting_of(k) == old(self).setting_of(k),
    {
        let found = match self.tab_position(tab_id) {
            Option::Some(i) => str_eq(self.tabs[i].workspace_id.as_str(), workspace_id),
            Option::None => false,
        };
        if !found {
            proof {
                let s = self.s_tabs();
                assert forall|i: int|
                    0 <= i < s.len() && s[i].id == tab_id@ implies s[i].workspace_id
                    != workspace_id@ by {
                    match find_tab(s, tab_id@, 0) {
                        Option::Some(j) => {
                            lemma_find_tab_some(s, tab_id@, 0);
                            assert(i == j);
                        },
                        Option::None => {},
                    }
                }
            }
            return Err(String::from_str("Tab not found in workspace"));
        }
        let ghost s = self.s_tabs();
        let ghost pivot = find_tab(s, tab_id@, 0).unwrap();
        proof {
            lemma_find_tab_some(s, tab_id@, 0);
        }
        let n = self.tabs.len();
        let mut rebuilt: Vec<Tab> = Vec::new();
        let mut k: usize = 0;
        while k < n
            invariant
                old(self).wf(),
                *self == *old(self),
                n == self.tabs@.len(),
                s == self.s_tabs(),
                k <= n,
                rebuilt@.len() == k,
                forall|l: int|
                    0 <= l < k ==> tabs_v(rebuilt@)[l] == #[trigger] set_active_spec(
                        s,
                        workspace_id@,
                        tab_id@,
                    )[l],
            decreases n - k,
        {
            let mut c = self.tabs[k].clone();
            if str_eq(c.workspace_id.as_str(), workspace_id) {
                c.is_active = str_eq(c.id.as_str(), tab_id);
            }
            let ghost cv = c@;
            rebuilt.push(c);
            proof {
                assert(tabs_v(rebuilt@)[k as int] == cv);
                assert(set_active_spec(s, workspace_id@, tab_id@)[k as int] == cv);
            }
            k = k + 1;
        }
        self.tabs = rebuilt;
        proof {
            let f = final(self).s_tabs();
            assert(f =~= set_active_spec(s, workspace_id@, tab_id@));
            assert forall|l: int| 0 <= l < s.len() implies f[l].workspace_id
                == s[l].workspace_id && f[l].id == s[l].id && f[l].position == s[l].position && (
            f[l].is_active <==> (if s[l].workspace_id == workspace_id@ {
                s[l].id == tab_id@
            } else {
                s[l].is_active
            })) by {}
            assert(final(self).s_workspaces() =~= old(self).s_workspaces());
            assert(final(self).s_requests() =~= old(self).s_requests());
            assert(final(self).s_index() =~= old(self).s_index());
            assert(s[pivot].workspace_id == workspace_id@);
            assert forall|w: Seq<char>| #[trigger] count_ws_tabs(f, w) > 0 implies
            count_active_tabs(f, w) == 1 by {
                let in_ws = |x: TabV| x.workspace_id == w;
                let in_ws_active = |x: TabV| x.workspace_id == w && x.is_active;
                lemma_count_where_pointwise(s, f, in_ws);
                assert(count_ws_tabs(f, w) == count_ws_tabs(s, w));
                if w == workspace_id@ {
                    assert(f[pivot].workspace_id == w && f[pivot].is_active);
                    assert forall|l: int|
                        0 <= l < f.len() && l != pivot implies !in_ws_active(f[l]) by {
                        if f[l].workspace_id == w && f[l].is_active {
                            assert(s[l].id == tab_id@);
                            assert(s[pivot].id == tab_id@);
                        }
                    }
                    lemma_count_where_one(f, in_ws_active, pivot);
                } else {
                    lemma_count_where_pointwise(s, f, in_ws_active);
                    assert(count_ws_tabs(s, w) > 0);
                    assert(count_active_tabs(f, w) == count_active_tabs(s, w));
                }
            }
        }
        Ok(())
    }

    /// Deletes a tab. If it was the workspace's active tab and siblings
    /// remain, the sibling whose position is numerically closest to the
    /// deleted tab's former position is activated — atomically with the
    /// deletion — and its identifier returned; otherwise no identifier is
    /// returned. An unknown identifier is a no-op.
    pub fn delete_tab(&mut self, id: &str) -> (r: Result<Option<String>, String>)
        requires
            old(self).wf(),
        ensures
            final(self).wf(),
            r is Ok,
            match find_tab(old(self).s_tabs(), id@, 0) {
                Option::None => final(self).s_tabs() == old(self).s_tabs() && (r matches Ok(o)
                    && o is None),
                Option::Some(i) => {
                    let t = old(self).s_tabs()[i];
                    let removed = old(self).s_tabs().remove(i);
                    if !t.is_active {
                        final(self).s_tabs() == removed && (r matches Ok(o) && o is None)
                    } else {
                        match nearest_from(removed, t.workspace_id, t.position, 0, Option::None) {
                            Option::None => final(self).s_tabs() == removed && (r matches Ok(o)
                                && o is None),
                            Option::Some(j) => final(self).s_tabs() == removed.update(
                                j,
                                TabV {
                                    id: removed[j].id,
                                    workspace_id: removed[j].workspace_id,
                                    request_id: removed[j].request_id,
                                    state: removed[j].state,
                                    position: removed[j].position,
                                    is_active: true,
                                },
                            ) && (r matches Ok(o) && o matches Option::Some(nid) && nid@
                                == removed[j].id),
                        }
                    }
                },
            },
            final(self).s_workspaces() == old(self).s_workspaces(),
            final(self).s_requests() == old(self).s_requests(),
            forall|k: Seq<char>| final(self).setting_of(k) == old(self).setting_of(k),
    {
        let pos = match self.tab_position(id) {
            Option::None => {
                return Ok(Option::None);
            },
            Option::Some(i) => i,
        };
        let ghost s = self.s_tabs();
        let t = self.tabs.remove(pos);
        let ghost removed = s.remove(pos as int);
        proof {
            assert(self.s_tabs() =~= removed);
            assert(self.s_workspaces() =~= old(self).s_workspaces());
            assert(self.s_requests() =~= old(self).s_requests());
            assert(self.s_index() =~= old(self).s_index());
        }
        if !t.is_active {
            proof {
                lemma_delete_tab_wf_inactive(s, removed, pos as int);
            }
            return Ok(Option::None);
        }
        // The deleted tab was active: activate the nearest sibling.
        let w = t.workspace_id;
        let p = t.position;
        let n = self.tabs.len();
        let mut best: Option<usize> = Option::None;
        let mut best_dist: i64 = 0;
        let mut k: usize = 0;
        while k < n
            invariant
                n == self.tabs@.len(),
                removed == self.s_tabs(),
                k <= n,
                match best {
                    Option::Some(b) => b < k && removed[b as int].workspace_id == w@ && best_dist
                        == tab_dist(removed[b as int], p as int),
                    Option::None => true,
                },
                nearest_from(removed, w@, p as int, 0, Option::None) == nearest_from(
                    removed,
                    w@,
                    p as int,
                    k as int,
                    match best {
                        Option::Some(b) => Option::Some(b as int),
                        Option::None => Option::<int>::None,
                    },
                ),
            decreases n - k,
        {
            if str_eq(self.tabs[k].workspace_id.as_str(), w.as_str()) {
                let tp = self.tabs[k].position;
                let d: i64 = if tp >= p {
                    (tp as i64) - (p as i64)
                } else {
                    (p as i64) - (tp as i64)
                };
                proof {
                    assert(d == tab_dist(removed[k as int], p as int));
                }
                let better = match best {
                    Option::None => true,
                    Option::Some(_) => d < best_dist,
                };
                if better {
                    best = Option::Some(k);
                    best_dist = d;
                }
            }
            k = k + 1;
        }
        match best {
            Option::None => {
                proof {
                    lemma_delete_tab_wf_active_none(s, removed, pos as int, w@, p as int);
                }
                Ok(Option::None)
            },
            Option::Some(j) => {
                let mut tb = self.tabs.remove(j);
                tb.is_active = true;
                let next_id = tb.id.clone();
                self.tabs.insert(j, tb);
                proof {
                    let f = final(self).s_tabs();
                    assert(f =~= removed.update(j as int, f[j as int]));
                    assert(f[j as int].is_active);
                    assert(f[j as int].id == removed[j as int].id);
                    lemma_delete_tab_wf_active_some(s, removed, f, pos as int, j as int, w@);
                    assert(final(self).s_workspaces() =~= old(self).s_workspaces());
                    assert(final(self).s_requests() =~= old(self).s_requests());
                    assert(final(self).s_index() =~= old(self).s_index());
                }
                Ok(Option::Some(next_id))
            },
        }
    }

    /// Reassigns positions in a workspace: each listed tab of the
    /// workspace gets the index of its identifier's last occurrence in the
    /// given order; identifiers outside the workspace, and tabs not
    /// listed, are untouched. Applying the same order twice yields the
    /// same assignment.
    pub fn reorder_tabs(&mut self, workspace_id: &str, tab_ids: Vec<String>) -> (r: Result<
        (),
        String,
    >)
        requires
            old(self).wf(),
            tab_ids@.len() <= TAB_POS_CAP as int,
        ensures
            final(self).wf(),
            r is Ok,
            final(self).s_tabs() == reorder_spec(
                old(self).s_tabs(),
                workspace_id@,
                strs_v(tab_ids@),
            ),
            final(self).s_workspaces() == old(self).s_workspaces(),
            final(self).s_requests() == old(self).s_requests(),
            forall|k: Seq<char>| final(self).setting_of(k) == old(self).setting_of(k),
    {
        let ghost s = self.s_tabs();
        let ghost ids = strs_v(tab_ids@);
        let n = self.tabs.len();
        let mut rebuilt: Vec<Tab> = Vec::new();
        let mut k: usize = 0;
        while k < n
            invariant
                old(self).wf(),
                *self == *old(self),
                tab_ids@.len() <= TAB_POS_CAP as int,
                ids == strs_v(tab_ids@),
                n == self.tabs@.len(),
                s == self.s_tabs(),
                k <= n,
                rebuilt@.len() == k,
                forall|l: int|
                    0 <= l < k ==> tabs_v(rebuilt@)[l] == #[trigger] reorder_spec(
                        s,
                        workspace_id@,
                        ids,
                    )[l],
            decreases n - k,
        {
            let mut c = self.tabs[k].clone();
            if str_eq(c.workspace_id.as_str(), workspace_id) {
                // The last occurrence wins, as sequential updates would
                // have it.
                let m = tab_ids.len();
                let mut j: usize = m;
                let mut hit: Option<usize> = Option::None;
                proof {
                    assert(ids.subrange(0, m as int) =~= ids);
                }
                while hit.is_none() && j > 0
                    invariant
                        m == tab_ids@.len(),
                        ids == strs_v(tab_ids@),
                        j <= m,
                        match hit {
                            Option::None => last_index_of(ids, c.id@) == last_index_of(
                                ids.subrange(0, j as int),
                                c.id@,
                            ),
                            Option::Some(h) => h < m && last_index_of(ids, c.id@)
                                == Option::Some(h as int),
                        },
                    decreases (match hit {
                        Option::None => 1int,
                        Option::Some(_) => 0int,
                    }), j,
                {
                    proof {
                        assert(ids.subrange(0, j as int).drop_last() =~= ids.subrange(
                            0,
                            j - 1,
                        ));
                        assert(ids.subrange(0, j as int).last() == ids[j - 1]);
                    }
                    if str_eq(tab_ids[j - 1].as_str(), c.id.as_str()) {
                        hit = Option::Some(j - 1);
                    } else {
                        j = j - 1;
                    }
                }
                proof {
                    match hit {
                        Option::Some(h) => {},
                        Option::None => {
                            assert(ids.subrange(0, 0) =~= Seq::<Seq<char>>::empty());
                            assert(last_index_of(ids, c.id@) is None);
                        },
                    }
                }
                match hit {
                    Option::Some(h) => {
                        c.position = h as i32;
                    },
                    Option::None => {},
                }
            }
            let ghost cv = c@;
            rebuilt.push(c);
            proof {
                assert(tabs_v(rebuilt@)[k as int] == cv);
                assert(reorder_spec(s, workspace_id@, ids)[k as int] == cv);
            }
            k = k + 1;
        }
        self.tabs = rebuilt;
        proof {
            let f = final(self).s_tabs();
            assert(f =~= reorder_spec(s, workspace_id@, ids));
            assert forall|l: int| 0 <= l < s.len() implies f[l].workspace_id
                == s[l].workspace_id && f[l].id == s[l].id && f[l].is_active == s[l].is_active
                && 0 <= f[l].position <= TAB_POS_CAP as int by {
                if s[l].workspace_id == workspace_id@ && last_index_of(ids, s[l].id) is Some {
                    lemma_last_index_of_bounds(ids, s[l].id);
                }
            }
            assert(final(self).s_workspaces() =~= old(self).s_workspaces());
            assert(final(self).s_requests() =~= old(self).s_requests());
            assert(final(self).s_index() =~= old(self).s_index());
            assert forall|w: Seq<char>| #[trigger] count_ws_tabs(f, w) > 0 implies
            count_active_tabs(f, w) == 1 by {
                lemma_count_where_pointwise(s, f, |x: TabV| x.workspace_id == w);
                lemma_count_where_pointwise(s, f, |x: TabV| x.workspace_id == w && x.is_active);
                assert(count_ws_tabs(f, w) == count_ws_tabs(s, w));
                assert(count_ws_tabs(s, w) > 0);
                assert(count_active_tabs(f, w) == count_active_tabs(s, w));
            }
        }
        Ok(())
    }

    /// Counts a workspace's tabs.
    pub fn get_tab_count(&self, workspace_id: &str) -> (r: Result<i64, String>)
        requires
            self.wf(),
        ensures
            r matches Ok(n) && n == count_ws_tabs(self.s_tabs(), workspace_id@),
    {
        let ghost s = self.s_tabs();
        let ghost inws = |t: TabV| t.workspace_id == workspace_id@;
        let n = self.tabs.len();
        let mut count: i64 = 0;
        proof {
            assert(s.subrange(0, 0) =~= Seq::<TabV>::empty());
        }
        let mut i: usize = 0;
        while i < n
            invariant
                self.wf(),
                n == self.tabs@.len(),
                s == self.s_tabs(),
                inws == (|t: TabV| t.workspace_id == workspace_id@),
                i <= n,
                count == count_where(s.subrange(0, i as int), inws),
                0 <= count <= i,
            decreases n - i,
        {
            let ghost prefix = s.subrange(0, i as int);
            let ghost ext = s.subrange(0, i + 1);
            proof {
                assert(ext.drop_last() =~= prefix);
                assert(ext.last() == s[i as int]);
            }
            if str_eq(self.tabs[i].workspace_id.as_str(), workspace_id) {
                count = count + 1;
            }
            i = i + 1;
        }
        proof {
            assert(s.subrange(0, n as int) =~= s);
        }
        Ok(count)
    }

    /// Counts a workspace's request history records.
    pub fn get_request_count(&self, workspace_id: &str) -> (r: Result<i64, String>)
        requires
            self.wf(),
        ensures
            r matches Ok(n) && n == count_ws_reqs(self.s_requests(), workspace_id@),
    {
        let ghost s = self.s_requests();
        let ghost inws = |q: SavedRequestV| q.workspace_id == workspace_id@;
        let n = self.requests.len();
        let mut count: i64 = 0;
        proof {
            assert(s.subrange(0, 0) =~= Seq::<SavedRequestV>::empty());
        }
        let mut i: usize = 0;
        while i < n
            invariant
                self.wf(),
                n == self.requests@.len(),
                s == self.s_requests(),
                inws == (|q: SavedRequestV| q.workspace_id == workspace_id@),
                i <= n,
                count == count_where(s.subrange(0, i as int), inws),
                0 <= count <= i,
            decreases n - i,
        {
            let ghost prefix = s.subrange(0, i as int);
            let ghost ext = s.subrange(0, i + 1);
            proof {
                assert(ext.drop_last() =~= prefix);
                assert(ext.last() == s[i as int]);
            }
            if str_eq(self.requests[i].workspace_id.as_str(), workspace_id) {
                count = count + 1;
            }
            i = i + 1;
        }
        proof {
            assert(s.subrange(0, n as int) =~= s);
        }
        Ok(count)
    }
}

} // verus!
