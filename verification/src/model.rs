//! The data model of the store and of the HTTP executor: plain records for
//! workspaces, saved requests, tabs and settings, each with a mathematical
//! view used by the contracts.
use vstd::prelude::*;

verus! {

// ---------------------------------------------------------------------------
// Ghost views
// ---------------------------------------------------------------------------

/// Mathematical view of a [`KeyValue`] row.
pub ghost struct KeyValueV {
    pub key: Seq<char>,
    pub value: Seq<char>,
    pub enabled: bool,
    pub description: Option<Seq<char>>,
}

/// Mathematical view of a [`Workspace`].
pub ghost struct WorkspaceV {
    pub id: Seq<char>,
    pub name: Seq<char>,
    pub created_at: int,
    pub updated_at: int,
}

/// Mathematical view of a [`SavedRequest`].
pub ghost struct SavedRequestV {
    pub id: Seq<char>,
    pub workspace_id: Seq<char>,
    pub name: Seq<char>,
    pub method: Seq<char>,
    pub url: Seq<char>,
    pub params: Option<Seq<KeyValueV>>,
    pub headers: Option<Seq<KeyValueV>>,
    pub body_type: Option<Seq<char>>,
    pub body_content: Option<Seq<char>>,
    pub response_status: Option<int>,
    pub response_status_text: Option<Seq<char>>,
    pub response_headers: Option<Seq<KeyValueV>>,
    pub response_body: Option<Seq<char>>,
    pub response_time_ms: Option<int>,
    pub response_size_bytes: Option<int>,
    pub created_at: int,
    pub updated_at: int,
}

/// Mathematical view of a [`CreateRequestInput`].
pub ghost struct CreateRequestInputV {
    pub workspace_id: Seq<char>,
    pub method: Seq<char>,
    pub url: Seq<char>,
    pub params: Option<Seq<KeyValueV>>,
    pub headers: Option<Seq<KeyValueV>>,
    pub body_type: Option<Seq<char>>,
    pub body_content: Option<Seq<char>>,
    pub response_status: Option<int>,
    pub response_status_text: Option<Seq<char>>,
    pub response_headers: Option<Seq<KeyValueV>>,
    pub response_body: Option<Seq<char>>,
    pub response_time_ms: Option<int>,
    pub response_size_bytes: Option<int>,
}

/// Mathematical view of a [`TabState`].
pub ghost struct TabStateV {
    pub method: Seq<char>,
    pub url: Seq<char>,
    pub params: Seq<KeyValueV>,
    pub headers: Seq<KeyValueV>,
    pub body_type: Seq<char>,
    pub body_content: Seq<char>,
    pub is_dirty: bool,
}

/// Mathematical view of a [`Tab`].
pub ghost struct TabV {
    pub id: Seq<char>,
    pub workspace_id: Seq<char>,
    pub request_id: Option<Seq<char>>,
    pub state: TabStateV,
    pub position: int,
    pub is_active: bool,
}

/// Mathematical view of an [`AppSettings`] record.
pub ghost struct AppSettingsV {
    pub theme: Seq<char>,
    pub sidebar_collapsed: bool,
    pub active_workspace_id: Option<Seq<char>>,
}

/// Mathematical view of an [`HttpRequestInput`].
pub ghost struct HttpRequestInputV {
    pub method: Seq<char>,
    pub url: Seq<char>,
    pub headers: Seq<KeyValueV>,
    pub body_type: Seq<char>,
    pub body_content: Option<Seq<char>>,
}

/// Mathematical view of an [`HttpResponse`].
pub ghost struct HttpResponseV {
    pub status: int,
    pub status_text: Seq<char>,
    pub headers: Seq<KeyValueV>,
    pub body: Seq<char>,
    pub time_ms: int,
    pub size_bytes: int,
}

// ---------------------------------------------------------------------------
// View helpers
// ---------------------------------------------------------------------------

/// View of an optional string.
pub open spec fn opt_str_v(o: Option<String>) -> Option<Seq<char>> {
    match o {
        Option::None => Option::None,
        Option::Some(s) => Option::Some(s@),
    }
}

/// Views of a sequence of rows.
pub open spec fn kvs_v(s: Seq<KeyValue>) -> Seq<KeyValueV> {
    s.map(|i: int, kv: KeyValue| kv@)
}

/// View of an optional row list.
pub open spec fn opt_kvs_v(o: Option<Vec<KeyValue>>) -> Option<Seq<KeyValueV>> {
    match o {
        Option::None => Option::None,
        Option::Some(v) => Option::Some(kvs_v(v@)),
    }
}

/// View of an optional `i32`.
pub open spec fn opt_i32_v(o: Option<i32>) -> Option<int> {
    match o {
        Option::None => Option::None,
        Option::Some(n) => Option::Some(n as int),
    }
}

/// View of an optional `i64`.
pub open spec fn opt_i64_v(o: Option<i64>) -> Option<int> {
    match o {
        Option::None => Option::None,
        Option::Some(n) => Option::Some(n as int),
    }
}

// ---------------------------------------------------------------------------
// Executable records
// ---------------------------------------------------------------------------

/// One header / parameter / form-field row; `enabled = false` rows are kept
/// for display but excluded from effect.
#[derive(Debug)]
pub struct KeyValue {
    pub key: String,
    pub value: String,
    pub enabled: bool,
    pub description: Option<String>,
}

impl View for KeyValue {
    type V = KeyValueV;

    open spec fn view(&self) -> KeyValueV {
        KeyValueV {
            key: self.key@,
            value: self.value@,
            enabled: self.enabled,
            description: opt_str_v(self.description),
        }
    }
}

fn clone_opt_string(o: &Option<String>) -> (r: Option<String>)
    ensures
        opt_str_v(r) == opt_str_v(*o),
{
    match o {
        Option::None => Option::None,
        Option::Some(s) => Option::Some(s.clone()),
    }
}

impl Clone for KeyValue {
    fn clone(&self) -> (r: Self)
        ensures
            r@ == self@,
    {
        KeyValue {
            key: self.key.clone(),
            value: self.value.clone(),
            enabled: self.enabled,
            description: clone_opt_string(&self.description),
        }
    }
}

/// Clones a row list, keeping the view of every row.
pub fn clone_kv_vec(v: &Vec<KeyValue>) -> (r: Vec<KeyValue>)
    ensures
        kvs_v(r@) == kvs_v(v@),
{
    let mut r: Vec<KeyValue> = Vec::new();
    let mut i: usize = 0;
    while i < v.len()
        invariant
            i <= v.len(),
            r@.len() == i,
            forall|j: int| 0 <= j < i ==> r@[j]@ == v@[j]@,
        decreases v.len() - i,
    {
        r.push(v[i].clone());
        i = i + 1;
    }
    proof {
        assert(kvs_v(r@) =~= kvs_v(v@));
    }
    r
}

fn clone_opt_kv_vec(o: &Option<Vec<KeyValue>>) -> (r: Option<Vec<KeyValue>>)
    ensures
        opt_kvs_v(r) == opt_kvs_v(*o),
{
    match o {
        Option::None => Option::None,
        Option::Some(v) => Option::Some(clone_kv_vec(v)),
    }
}

/// A top-level container of requests and tabs.
#[derive(Debug)]
pub struct Workspace {
    pub id: String,
    pub name: String,
    pub created_at: i64,
    pub updated_at: i64,
}

impl View for Workspace {
    type V = WorkspaceV;

    open spec fn view(&self) -> WorkspaceV {
        WorkspaceV {
            id: self.id@,
            name: self.name@,
            created_at: self.created_at as int,
            updated_at: self.updated_at as int,
        }
    }
}

impl Clone for Workspace {
    fn clone(&self) -> (r: Self)
        ensures
            r@ == self@,
    {
        Workspace {
            id: self.id.clone(),
            name: self.name.clone(),
            created_at: self.created_at,
            updated_at: self.updated_at,
        }
    }
}

/// An immutable historical record of an executed (or manually saved) HTTP
/// call and its response.
#[derive(Debug)]
pub struct SavedRequest {
    pub id: String,
    pub workspace_id: String,
    pub name: String,
    pub method: String,
    pub url: String,
    pub params: Option<Vec<KeyValue>>,
    pub headers: Option<Vec<KeyValue>>,
    pub body_type: Option<String>,
    pub body_content: Option<String>,
    pub response_status: Option<i32>,
    pub response_status_text: Option<String>,
    pub response_headers: Option<Vec<KeyValue>>,
    pub response_body: Option<String>,
    pub response_time_ms: Option<i64>,
    pub response_size_bytes: Option<i64>,
    pub created_at: i64,
    pub updated_at: i64,
}

impl View for SavedRequest {
    type V = SavedRequestV;

    open spec fn view(&self) -> SavedRequestV {
        SavedRequestV {
            id: self.id@,
            workspace_id: self.workspace_id@,
            name: self.name@,
            method: self.method@,
            url: self.url@,
            params: opt_kvs_v(self.params),
            headers: opt_kvs_v(self.headers),
            body_type: opt_str_v(self.body_type),
            body_content: opt_str_v(self.body_content),
            response_status: opt_i32_v(self.response_status),
            response_status_text: opt_str_v(self.response_status_text),
            response_headers: opt_kvs_v(self.response_headers),
            response_body: opt_str_v(self.response_body),
            response_time_ms: opt_i64_v(self.response_time_ms),
            response_size_bytes: opt_i64_v(self.response_size_bytes),
            created_at: self.created_at as int,
            updated_at: self.updated_at as int,
        }
    }
}

impl Clone for SavedRequest {
    fn clone(&self) -> (r: Self)
        ensures
            r@ == self@,
    {
        SavedRequest {
            id: self.id.clone(),
            workspace_id: self.workspace_id.clone(),
            name: self.name.clone(),
            method: self.method.clone(),
            url: self.url.clone(),
            params: clone_opt_kv_vec(&self.params),
            headers: clone_opt_kv_vec(&self.headers),
            body_type: clone_opt_string(&self.body_type),
            body_content: clone_opt_string(&self.body_content),
            response_status: self.response_status,
            response_status_text: clone_opt_string(&self.response_status_text),
            response_headers: clone_opt_kv_vec(&self.response_headers),
            response_body: clone_opt_string(&self.response_body),
            response_time_ms: self.response_time_ms,
            response_size_bytes: self.response_size_bytes,
            created_at: self.created_at,
            updated_at: self.updated_at,
        }
    }
}

/// The caller-supplied part of a new [`SavedRequest`]: everything but the
/// identifier, the derived name and the timestamps.
#[derive(Debug)]
pub struct CreateRequestInput {
    pub workspace_id: String,
    pub method: String,
    pub url: String,
    pub params: Option<Vec<KeyValue>>,
    pub headers: Option<Vec<KeyValue>>,
    pub body_type: Option<String>,
    pub body_content: Option<String>,
    pub response_status: Option<i32>,
    pub response_status_text: Option<String>,
    pub response_headers: Option<Vec<KeyValue>>,
    pub response_body: Option<String>,
    pub response_time_ms: Option<i64>,
    pub response_size_bytes: Option<i64>,
}

impl View for CreateRequestInput {
    type V = CreateRequestInputV;

    open spec fn view(&self) -> CreateRequestInputV {
        CreateRequestInputV {
            workspace_id: self.workspace_id@,
            method: self.method@,
            url: self.url@,
            params: opt_kvs_v(self.params),
            headers: opt_kvs_v(self.headers),
            body_type: opt_str_v(self.body_type),
            body_content: opt_str_v(self.body_content),
            response_status: opt_i32_v(self.response_status),
            response_status_text: opt_str_v(self.response_status_text),
            response_headers: opt_kvs_v(self.response_headers),
            response_body: opt_str_v(self.response_body),
            response_time_ms: opt_i64_v(self.response_time_ms),
            response_size_bytes: opt_i64_v(self.response_size_bytes),
        }
    }
}

impl Clone for CreateRequestInput {
    fn clone(&self) -> (r: Self)
        ensures
            r@ == self@,
    {
        CreateRequestInput {
            workspace_id: self.workspace_id.clone(),
            method: self.method.clone(),
            url: self.url.clone(),
            params: clone_opt_kv_vec(&self.params),
            headers: clone_opt_kv_vec(&self.headers),
            body_type: clone_opt_string(&self.body_type),
            body_content: clone_opt_string(&self.body_content),
            response_status: self.response_status,
            response_status_text: clone_opt_string(&self.response_status_text),
            response_headers: clone_opt_kv_vec(&self.response_headers),
            response_body: clone_opt_string(&self.response_body),
            response_time_ms: self.response_time_ms,
            response_size_bytes: self.response_size_bytes,
        }
    }
}

/// The editable draft document held by a tab.
#[derive(Debug)]
pub struct TabState {
    pub method: String,
    pub url: String,
    pub params: Vec<KeyValue>,
    pub headers: Vec<KeyValue>,
    pub body_type: String,
    pub body_content: String,
    pub is_dirty: bool,
}

impl View for TabState {
    type V = TabStateV;

    open spec fn view(&self) -> TabStateV {
        TabStateV {
            method: self.method@,
            url: self.url@,
            params: kvs_v(self.params@),
            headers: kvs_v(self.headers@),
            body_type: self.body_type@,
            body_content: self.body_content@,
            is_dirty: self.is_dirty,
        }
    }
}

impl Clone for TabState {
    fn clone(&self) -> (r: Self)
        ensures
            r@ == self@,
    {
        TabState {
            method: self.method.clone(),
            url: self.url.clone(),
            params: clone_kv_vec(&self.params),
            headers: clone_kv_vec(&self.headers),
            body_type: self.body_type.clone(),
            body_content: self.body_content.clone(),
            is_dirty: self.is_dirty,
        }
    }
}

/// The view of a freshly opened draft: `GET`, empty URL, no rows, no body.
pub open spec fn default_tab_state_v() -> TabStateV {
    TabStateV {
        method: "GET"@,
        url: Seq::<char>::empty(),
        params: Seq::<KeyValueV>::empty(),
        headers: Seq::<KeyValueV>::empty(),
        body_type: "none"@,
        body_content: Seq::<char>::empty(),
        is_dirty: false,
    }
}

impl Default for TabState {
    /// A new draft: `GET`, empty URL, no rows, body type `none`, clean.
    fn default() -> (r: Self)
        ensures
            r@ == default_tab_state_v(),
    {
        let r = TabState {
            method: String::from_str("GET"),
            url: String::new(),
            params: Vec::new(),
            headers: Vec::new(),
            body_type: String::from_str("none"),
            body_content: String::new(),
            is_dirty: false,
        };
        proof {
            assert(kvs_v(Seq::<KeyValue>::empty()) =~= Seq::<KeyValueV>::empty());
        }
        r
    }
}

/// An editable, ordered draft slot of a workspace; at most one tab per
/// workspace is active.
#[derive(Debug)]
pub struct Tab {
    pub id: String,
    pub workspace_id: String,
    pub request_id: Option<String>,
    pub state: TabState,
    pub position: i32,
    pub is_active: bool,
}

impl View for Tab {
    type V = TabV;

    open spec fn view(&self) -> TabV {
        TabV {
            id: self.id@,
            workspace_id: self.workspace_id@,
            request_id: opt_str_v(self.request_id),
            state: self.state@,
            position: self.position as int,
            is_active: self.is_active,
        }
    }
}

impl Clone for Tab {
    fn clone(&self) -> (r: Self)
        ensures
            r@ == self@,
    {
        Tab {
            id: self.id.clone(),
            workspace_id: self.workspace_id.clone(),
            request_id: clone_opt_string(&self.request_id),
            state: self.state.clone(),
            position: self.position,
            is_active: self.is_active,
        }
    }
}

/// The typed application settings: a projection of the key-value settings
/// store.
#[derive(Debug)]
pub struct AppSettings {
    pub theme: String,
    pub sidebar_collapsed: bool,
    pub active_workspace_id: Option<String>,
}

impl View for AppSettings {
    type V = AppSettingsV;

    open spec fn view(&self) -> AppSettingsV {
        AppSettingsV {
            theme: self.theme@,
            sidebar_collapsed: self.sidebar_collapsed,
            active_workspace_id: opt_str_v(self.active_workspace_id),
        }
    }
}

impl Clone for AppSettings {
    fn clone(&self) -> (r: Self)
        ensures
            r@ == self@,
    {
        AppSettings {
            theme: self.theme.clone(),
            sidebar_collapsed: self.sidebar_collapsed,
            active_workspace_id: clone_opt_string(&self.active_workspace_id),
        }
    }
}

impl Default for AppSettings {
    /// Dark theme, expanded sidebar, no active workspace.
    fn default() -> (r: Self)
        ensures
            r@.theme == "dark"@,
            r@.sidebar_collapsed == false,
            r@.active_workspace_id is None,
    {
        AppSettings {
            theme: String::from_str("dark"),
            sidebar_collapsed: false,
            active_workspace_id: Option::None,
        }
    }
}

/// What the HTTP executor is asked to send.
#[derive(Debug)]
pub struct HttpRequestInput {
    pub method: String,
    pub url: String,
    pub headers: Vec<KeyValue>,
    pub body_type: String,
    pub body_content: Option<String>,
}

impl View for HttpRequestInput {
    type V = HttpRequestInputV;

    open spec fn view(&self) -> HttpRequestInputV {
        HttpRequestInputV {
            method: self.method@,
            url: self.url@,
            headers: kvs_v(self.headers@),
            body_type: self.body_type@,
            body_content: opt_str_v(self.body_content),
        }
    }
}

/// What a completed HTTP exchange yields.
#[derive(Debug)]
pub struct HttpResponse {
    pub status: u16,
    pub status_text: String,
    pub headers: Vec<KeyValue>,
    pub body: String,
    pub time_ms: u64,
    pub size_bytes: u64,
}

impl View for HttpResponse {
    type V = HttpResponseV;

    open spec fn view(&self) -> HttpResponseV {
        HttpResponseV {
            status: self.status as int,
            status_text: self.status_text@,
            headers: kvs_v(self.headers@),
            body: self.body@,
            time_ms: self.time_ms as int,
            size_bytes: self.size_bytes as int,
        }
    }
}

} // verus!
