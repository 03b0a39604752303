//! The pure part of the HTTP request executor: method validation, header
//! selection and body construction. The driver that owns the network I/O
//! performs exactly what these functions decide.
use crate::model::{kvs_v, opt_str_v, KeyValue, KeyValueV};
use crate::text::{chars_of, eq_folded, folded, str_eq};
use vstd::prelude::*;
use vstd::string::StringExecFns;

verus! {

// ---------------------------------------------------------------------------
// Methods
// ---------------------------------------------------------------------------

/// The method name is one of the seven supported ones, up to ASCII case.
pub open spec fn supported_method(s: Seq<char>) -> bool {
    ||| folded(s) == folded("GET"@)
    ||| folded(s) == folded("POST"@)
    ||| folded(s) == folded("PUT"@)
    ||| folded(s) == folded("PATCH"@)
    ||| folded(s) == folded("DELETE"@)
    ||| folded(s) == folded("HEAD"@)
    ||| folded(s) == folded("OPTIONS"@)
}

/// The canonical upper-case spelling of a supported method name.
pub open spec fn canonical_method(s: Seq<char>) -> Seq<char> {
    if folded(s) == folded("GET"@) {
        "GET"@
    } else if folded(s) == folded("POST"@) {
        "POST"@
    } else if folded(s) == folded("PUT"@) {
        "PUT"@
    } else if folded(s) == folded("PATCH"@) {
        "PATCH"@
    } else if folded(s) == folded("DELETE"@) {
        "DELETE"@
    } else if folded(s) == folded("HEAD"@) {
        "HEAD"@
    } else if folded(s) == folded("OPTIONS"@) {
        "OPTIONS"@
    } else {
        Seq::<char>::empty()
    }
}

/// Validates a method name, case-insensitively, before any network
/// activity: a supported one is returned in its canonical spelling, any
/// other fails with an unsupported-method error.
pub fn validate_method(m: &str) -> (r: Result<String, String>)
    ensures
        r is Ok <==> supported_method(m@),
        r matches Ok(u) ==> u@ == canonical_method(m@),
        r matches Err(e) ==> e@ == "Unsupported method: "@ + m@,
{
    if eq_folded(m, "GET") {
        Ok(String::from_str("GET"))
    } else if eq_folded(m, "POST") {
        Ok(String::from_str("POST"))
    } else if eq_folded(m, "PUT") {
        Ok(String::from_str("PUT"))
    } else if eq_folded(m, "PATCH") {
        Ok(String::from_str("PATCH"))
    } else if eq_folded(m, "DELETE") {
        Ok(String::from_str("DELETE"))
    } else if eq_folded(m, "HEAD") {
        Ok(String::from_str("HEAD"))
    } else if eq_folded(m, "OPTIONS") {
        Ok(String::from_str("OPTIONS"))
    } else {
        Err(String::from_str("Unsupported method: ").concat(m))
    }
}

// ---------------------------------------------------------------------------
// Headers
// ---------------------------------------------------------------------------

/// A character allowed in an HTTP header field name (an RFC 7230 token
/// character; upper-case letters are accepted and normalized downstream).
pub open spec fn is_header_name_char(c: char) -> bool {
    ||| ('a' <= c && c <= 'z')
    ||| ('A' <= c && c <= 'Z')
    ||| ('0' <= c && c <= '9')
    ||| c == '!' || c == '#' || c == '$' || c == '%' || c == '&' || c == '\'' || c == '*'
    ||| c == '+' || c == '-' || c == '.' || c == '^' || c == '_' || c == '`' || c == '|'
    ||| c == '~'
}

/// A nonempty token: what a header name must be to encode.
pub open spec fn is_valid_header_name(s: Seq<char>) -> bool {
    s.len() > 0 && forall|i: int| 0 <= i < s.len() ==> is_header_name_char(s[i])
}

/// A character allowed in an HTTP header field value: visible or non-ASCII
/// text, space, or horizontal tab, but no other control character.
pub open spec fn is_header_value_char(c: char) -> bool {
    c == '\t' || (' ' <= c && c != '\u{7f}')
}

/// What a header value must be to encode.
pub open spec fn is_valid_header_value(s: Seq<char>) -> bool {
    forall|i: int| 0 <= i < s.len() ==> is_header_value_char(s[i])
}

fn is_valid_header_name_x(s: &str) -> (r: bool)
    ensures
        r == is_valid_header_name(s@),
{
    let cs = chars_of(s);
    let n = cs.len();
    if n == 0 {
        return false;
    }
    let mut i: usize = 0;
    while i < n
        invariant
            n == s@.len(),
            cs@ == s@,
            i <= n,
            forall|j: int| 0 <= j < i ==> is_header_name_char(s@[j]),
        decreases n - i,
    {
        let c = cs[i];
        let ok = ('a' <= c && c <= 'z') || ('A' <= c && c <= 'Z') || ('0' <= c && c <= '9') || c
            == '!' || c == '#' || c == '$' || c == '%' || c == '&' || c == '\'' || c == '*' || c
            == '+' || c == '-' || c == '.' || c == '^' || c == '_' || c == '`' || c == '|' || c
            == '~';
        if !ok {
            return false;
        }
        i = i + 1;
    }
    true
}

fn is_valid_header_value_x(s: &str) -> (r: bool)
    ensures
        r == is_valid_header_value(s@),
{
    let cs = chars_of(s);
    let n = cs.len();
    let mut i: usize = 0;
    while i < n
        invariant
            n == s@.len(),
            cs@ == s@,
            i <= n,
            forall|j: int| 0 <= j < i ==> is_header_value_char(s@[j]),
        decreases n - i,
    {
        let c = cs[i];
        if !(c == '\t' || (' ' <= c && c != '\u{7f}')) {
            return false;
        }
        i = i + 1;
    }
    true
}

/// A row survives header selection: it is enabled and both sides encode.
pub open spec fn header_kept(kv: KeyValueV) -> bool {
    kv.enabled && is_valid_header_name(kv.key) && is_valid_header_value(kv.value)
}

/// The rows that header selection keeps, in order.
pub open spec fn kept_headers(s: Seq<KeyValueV>) -> Seq<KeyValueV>
    decreases s.len(),
{
    if s.len() == 0 {
        Seq::<KeyValueV>::empty()
    } else if header_kept(s.last()) {
        kept_headers(s.drop_last()).push(s.last())
    } else {
        kept_headers(s.drop_last())
    }
}

/// Selects the headers that the outgoing request carries: enabled rows
/// whose name and value encode as HTTP header tokens; the rest are silently
/// dropped rather than failing the request.
pub fn prepare_headers(headers: &Vec<KeyValue>) -> (r: Vec<KeyValue>)
    ensures
        kvs_v(r@) == kept_headers(kvs_v(headers@)),
{
    let n = headers.len();
    let mut r: Vec<KeyValue> = Vec::new();
    proof {
        assert(kvs_v(headers@.subrange(0, 0)) =~= Seq::<KeyValueV>::empty());
        assert(kvs_v(r@) =~= Seq::<KeyValueV>::empty());
    }
    let mut i: usize = 0;
    while i < n
        invariant
            n == headers@.len(),
            i <= n,
            kvs_v(r@) == kept_headers(kvs_v(headers@.subrange(0, i as int))),
        decreases n - i,
    {
        let ghost prefix = kvs_v(headers@.subrange(0, i as int));
        let ghost ext = kvs_v(headers@.subrange(0, i + 1));
        proof {
            assert(ext.drop_last() =~= prefix);
            assert(ext.last() == headers@[i as int]@);
        }
        let kv = &headers[i];
        if kv.enabled && is_valid_header_name_x(kv.key.as_str()) && is_valid_header_value_x(
            kv.value.as_str(),
        ) {
            r.push(kv.clone());
            proof {
                assert(kvs_v(r@) =~= kept_headers(prefix).push(headers@[i as int]@));
            }
        }
        i = i + 1;
    }
    proof {
        assert(headers@.subrange(0, n as int) =~= headers@);
    }
    r
}

// ---------------------------------------------------------------------------
// Bodies
// ---------------------------------------------------------------------------

/// Mathematical view of a [`BodyPlan`].
pub ghost enum BodyPlanV {
    Empty,
    Payload { content_type: Option<Seq<char>>, content: Seq<char> },
    Multipart { raw: Seq<char> },
}

/// How the outgoing request's body is to be built.
pub enum BodyPlan {
    /// No body is sent.
    Empty,
    /// The content is sent verbatim, with the given content type injected,
    /// if any.
    Payload { content_type: Option<String>, content: String },
    /// The content is a serialized field list: the driver decodes it and
    /// builds a multipart form from the enabled fields only, via
    /// [`enabled_fields`]; malformed content degrades to no body.
    Multipart { raw: String },
}

impl View for BodyPlan {
    type V = BodyPlanV;

    open spec fn view(&self) -> BodyPlanV {
        match self {
            BodyPlan::Empty => BodyPlanV::Empty,
            BodyPlan::Payload { content_type, content } => BodyPlanV::Payload {
                content_type: opt_str_v(*content_type),
                content: content@,
            },
            BodyPlan::Multipart { raw } => BodyPlanV::Multipart { raw: raw@ },
        }
    }
}

/// What the body of a request with the given body type and content must
/// be: `json` and `x-www-form-urlencoded` send the content verbatim with
/// their content type injected, `raw` sends it verbatim with none,
/// `form-data` builds a multipart form, and an absent, empty or
/// unrecognized body sends nothing.
pub open spec fn body_plan_spec(bt: Seq<char>, bc: Option<Seq<char>>) -> BodyPlanV {
    match bc {
        Option::None => BodyPlanV::Empty,
        Option::Some(c) => {
            if c.len() == 0 {
                BodyPlanV::Empty
            } else if bt == "json"@ {
                BodyPlanV::Payload {
                    content_type: Option::Some("application/json"@),
                    content: c,
                }
            } else if bt == "raw"@ {
                BodyPlanV::Payload { content_type: Option::None, content: c }
            } else if bt == "x-www-form-urlencoded"@ {
                BodyPlanV::Payload {
                    content_type: Option::Some("application/x-www-form-urlencoded"@),
                    content: c,
                }
            } else if bt == "form-data"@ {
                BodyPlanV::Multipart { raw: c }
            } else {
                BodyPlanV::Empty
            }
        },
    }
}

/// Decides how the body is to be built from the body type tag and the
/// optional content.
pub fn plan_body(body_type: &str, body_content: Option<String>) -> (r: BodyPlan)
    ensures
        r@ == body_plan_spec(body_type@, opt_str_v(body_content)),
{
    match body_content {
        Option::None => BodyPlan::Empty,
        Option::Some(c) => {
            if c.unicode_len() == 0 {
                BodyPlan::Empty
            } else if str_eq(body_type, "json") {
                BodyPlan::Payload {
                    content_type: Option::Some(String::from_str("application/json")),
                    content: c,
                }
            } else if str_eq(body_type, "raw") {
                BodyPlan::Payload { content_type: Option::None, content: c }
            } else if str_eq(body_type, "x-www-form-urlencoded") {
                BodyPlan::Payload {
                    content_type: Option::Some(
                        String::from_str("application/x-www-form-urlencoded"),
                    ),
                    content: c,
                }
            } else if str_eq(body_type, "form-data") {
                BodyPlan::Multipart { raw: c }
            } else {
                BodyPlan::Empty
            }
        },
    }
}

/// The rows of a decoded form-data field list that reach the multipart
/// form: the enabled ones, in order.
pub open spec fn enabled_only(s: Seq<KeyValueV>) -> Seq<KeyValueV>
    decreases s.len(),
{
    if s.len() == 0 {
        Seq::<KeyValueV>::empty()
    } else if s.last().enabled {
        enabled_only(s.drop_last()).push(s.last())
    } else {
        enabled_only(s.drop_last())
    }
}

/// Selects the enabled fields of a decoded form-data field list.
pub fn enabled_fields(fields: &Vec<KeyValue>) -> (r: Vec<KeyValue>)
    ensures
        kvs_v(r@) == enabled_only(kvs_v(fields@)),
{
    let n = fields.len();
    let mut r: Vec<KeyValue> = Vec::new();
    proof {
        assert(kvs_v(fields@.subrange(0, 0)) =~= Seq::<KeyValueV>::empty());
        assert(kvs_v(r@) =~= Seq::<KeyValueV>::empty());
    }
    let mut i: usize = 0;
    while i < n
        invariant
            n == fields@.len(),
            i <= n,
            kvs_v(r@) == enabled_only(kvs_v(fields@.subrange(0, i as int))),
        decreases n - i,
    {
        let ghost prefix = kvs_v(fields@.subrange(0, i as int));
        let ghost ext = kvs_v(fields@.subrange(0, i + 1));
        proof {
            assert(ext.drop_last() =~= prefix);
            assert(ext.last() == fields@[i as int]@);
        }
        if fields[i].enabled {
            r.push(fields[i].clone());
            proof {
                assert(kvs_v(r@) =~= enabled_only(prefix).push(fields@[i as int]@));
            }
        }
        i = i + 1;
    }
    proof {
        assert(fields@.subrange(0, n as int) =~= fields@);
    }
    r
}

} // verus!
