//! Reading database connection settings out of the reply of an
//! OpenAI-compatible chat service: where the service is reached, which
//! settings it must be given, how a JSON object is found in a free-text
//! reply, and how missing settings are filled in.
//!
//! The HTTP exchange and the JSON decoding are the caller's; the model's
//! confidence, a fraction, is kept by the caller beside [`ParsedDbInfo`].
use vstd::prelude::*;
use vstd::string::*;
use crate::models::{DatabaseConfig, LlmConfig};
use crate::text::{is_blank, substring, to_chars, trim, trim_bounds};

verus! {

// ---------------------------------------------------------------------------
// Settings
// ---------------------------------------------------------------------------
/// `s` without trailing `/`.
pub open spec fn trim_end_slashes(s: Seq<char>) -> Seq<char>
    decreases s.len(),
{
    if s.len() > 0 && s.last() == '/' {
        trim_end_slashes(s.drop_last())
    } else {
        s
    }
}

/// The chat completions address under the service's base address.
pub open spec fn spec_chat_endpoint(api_url: Seq<char>) -> Seq<char> {
    trim_end_slashes(api_url) + "/chat/completions"@
}

/// The chat completions address of the service at `api_url`, whatever
/// slashes end it.
pub fn chat_endpoint(api_url: &str) -> (r: String)
    ensures
        r@ == spec_chat_endpoint(api_url@),
{
    let cs = to_chars(api_url);
    let mut e = cs.len();
    assert(cs@.subrange(0, e as int) =~= cs@);
    while e > 0 && cs[e - 1] == '/'
        invariant
            e <= cs@.len(),
            cs@ == api_url@,
            trim_end_slashes(cs@) == trim_end_slashes(cs@.subrange(0, e as int)),
        decreases e,
    {
        assert(cs@.subrange(0, e as int).drop_last() =~= cs@.subrange(0, e - 1));
        e = e - 1;
    }
    let mut s = substring(api_url, 0, e);
    s.append("/chat/completions");
    s
}

/// A setting of the chat service that was left blank.
#[derive(Debug, Clone, Copy, PartialEq, Eq, Structural)]
pub enum LlmConfigError {
    EmptyApiUrl,
    EmptyApiKey,
    EmptyModel,
}

impl LlmConfigError {
    pub open spec fn spec_message(self) -> Seq<char> {
        match self {
            LlmConfigError::EmptyApiUrl => "api_url 不能为空"@,
            LlmConfigError::EmptyApiKey => "api_key 不能为空"@,
            LlmConfigError::EmptyModel => "model 不能为空"@,
        }
    }

    pub fn message(&self) -> (r: String)
        ensures
            r@ == self.spec_message(),
    {
        match self {
            LlmConfigError::EmptyApiUrl => String::from_str("api_url 不能为空"),
            LlmConfigError::EmptyApiKey => String::from_str("api_key 不能为空"),
            LlmConfigError::EmptyModel => String::from_str("model 不能为空"),
        }
    }
}

/// The first blank setting, in the order address, key, model.
pub open spec fn spec_config_problem(c: LlmConfig) -> Option<LlmConfigError> {
    if trim(c.api_url@).len() == 0 {
        Some(LlmConfigError::EmptyApiUrl)
    } else if trim(c.api_key@).len() == 0 {
        Some(LlmConfigError::EmptyApiKey)
    } else if trim(c.model@).len() == 0 {
        Some(LlmConfigError::EmptyModel)
    } else {
        None
    }
}

/// Checks, before the service is tried, that no setting is blank.
pub fn config_problem(config: &LlmConfig) -> (r: Option<LlmConfigError>)
    ensures
        r == spec_config_problem(*config),
{
    if is_blank(config.api_url.as_str()) {
        Some(LlmConfigError::EmptyApiUrl)
    } else if is_blank(config.api_key.as_str()) {
        Some(LlmConfigError::EmptyApiKey)
    } else if is_blank(config.model.as_str()) {
        Some(LlmConfigError::EmptyModel)
    } else {
        None
    }
}

/// Whether a reply status refuses the credentials (401 or 403).
pub open spec fn is_auth_status(status: u16) -> bool {
    status == 401 || status == 403
}

pub open spec fn spec_chat_error(status: u16, status_text: Seq<char>, body: Seq<char>) -> Seq<char> {
    (if is_auth_status(status) {
        "LLM 认证失败 (HTTP "@
    } else {
        "LLM 接口异常 (HTTP "@
    }) + status_text + "): "@ + body
}

/// The error for a reply with the unsuccessful status `status`, shown as
/// `status_text`, and the body `body`.
pub fn chat_error_message(status: u16, status_text: &str, body: &str) -> (r: String)
    ensures
        r@ == spec_chat_error(status, status_text@, body@),
{
    let mut s = if status == 401 || status == 403 {
        String::from_str("LLM 认证失败 (HTTP ")
    } else {
        String::from_str("LLM 接口异常 (HTTP ")
    };
    s.append(status_text);
    s.append("): ");
    s.append(body);
    s
}

// ---------------------------------------------------------------------------
// Finding the JSON object in a reply
// ---------------------------------------------------------------------------
/// Where a scan for a JSON object stands: brace depth outside strings,
/// inside a string or not, after a backslash in a string or not, and where
/// the outermost open object started.
pub struct JsonScan {
    pub depth: int,
    pub in_string: bool,
    pub escape: bool,
    pub start: Option<int>,
}

pub open spec fn scan_initial() -> JsonScan {
    JsonScan { depth: 0, in_string: false, escape: false, start: None }
}

/// The bounds (inclusive) of the first object closed back to depth zero,
/// scanning `s` from `i` in state `st`. Braces inside strings do not count,
/// and a `}` outside any object is passed over.
pub open spec fn scan_from(s: Seq<char>, i: int, st: JsonScan) -> Option<(int, int)>
    decreases s.len() - i,
{
    if i < 0 || i >= s.len() {
        None
    } else {
        let c = s[i];
        if st.in_string {
            let next = if st.escape {
                JsonScan { escape: false, ..st }
            } else if c == '\\' {
                JsonScan { escape: true, ..st }
            } else if c == '"' {
                JsonScan { in_string: false, ..st }
            } else {
                st
            };
            scan_from(s, i + 1, next)
        } else if c == '"' {
            scan_from(s, i + 1, JsonScan { in_string: true, ..st })
        } else if c == '{' {
            scan_from(
                s,
                i + 1,
                JsonScan {
                    depth: st.depth + 1,
                    start: if st.depth == 0 {
                        Some(i)
                    } else {
                        st.start
                    },
                    ..st
                },
            )
        } else if c == '}' {
            if st.depth <= 0 {
                scan_from(s, i + 1, st)
            } else if st.depth - 1 == 0 && st.start is Some {
                Some((st.start->0, i))
            } else {
                scan_from(s, i + 1, JsonScan { depth: st.depth - 1, ..st })
            }
        } else {
            scan_from(s, i + 1, st)
        }
    }
}

/// The first complete JSON object in `s`, found by balancing braces.
pub open spec fn spec_extract_json_object(s: Seq<char>) -> Option<Seq<char>> {
    match scan_from(s, 0, scan_initial()) {
        Some((a, b)) => Some(s.subrange(a, b + 1)),
        None => None,
    }
}

/// The text of the first complete JSON object in `text`: from a `{` at
/// depth zero to the `}` that closes it; braces inside strings,
/// characters after a backslash in a string, and a `}` outside any object
/// are passed over.
pub fn extract_json_object(text: &str) -> (r: Option<String>)
    ensures
        match r {
            Some(v) => spec_extract_json_object(text@) == Some(v@),
            None => spec_extract_json_object(text@) is None,
        },
{
    let cs = to_chars(text);
    let n = cs.len();
    let mut i: usize = 0;
    let mut depth: usize = 0;
    let mut in_string = false;
    let mut escape = false;
    let mut start: Option<usize> = None;
    while i < n
        invariant
            cs@ == text@,
            n == cs@.len(),
            i <= n,
            depth <= i,
            start matches Some(a) ==> a < i,
            scan_from(cs@, 0, scan_initial()) == scan_from(
                cs@,
                i as int,
                JsonScan {
                    depth: depth as int,
                    in_string,
                    escape,
                    start: match start {
                        Some(a) => Some(a as int),
                        None => None,
                    },
                },
            ),
        decreases n - i,
    {
        let c = cs[i];
        if in_string {
            if escape {
                escape = false;
            } else if c == '\\' {
                escape = true;
            } else if c == '"' {
                in_string = false;
            }
        } else if c == '"' {
            in_string = true;
        } else if c == '{' {
            if depth == 0 {
                start = Some(i);
            }
            depth = depth + 1;
        } else if c == '}' {
            if depth > 0 {
                depth = depth - 1;
                if depth == 0 {
                    match start {
                        Some(a) => {
                            return Some(substring(text, a, i + 1));
                        },
                        None => {},
                    }
                }
            }
        }
        i = i + 1;
    }
    None
}

/// Slashes that end the base address do not change the chat address.
pub proof fn law_endpoint_ignores_trailing_slash(api_url: Seq<char>)
    ensures
        spec_chat_endpoint(api_url.push('/')) == spec_chat_endpoint(api_url),
{
    assert(api_url.push('/').drop_last() =~= api_url);
}

/// A scan from a state whose open object started at a `{` finds, if
/// anything, an object from a `{` to a `}`.
proof fn lemma_scan_bounds(s: Seq<char>, i: int, st: JsonScan)
    requires
        0 <= i,
        st.start matches Some(a) ==> 0 <= a < i && a < s.len() && s[a] == '{',
    ensures
        scan_from(s, i, st) matches Some((a, b)) ==> 0 <= a < b < s.len() && s[a] == '{' && s[b]
            == '}',
    decreases s.len() - i,
{
    if i < s.len() {
        let c = s[i];
        if st.in_string {
            let next = if st.escape {
                JsonScan { escape: false, ..st }
            } else if c == '\\' {
                JsonScan { escape: true, ..st }
            } else if c == '"' {
                JsonScan { in_string: false, ..st }
            } else {
                st
            };
            lemma_scan_bounds(s, i + 1, next);
        } else if c == '"' {
            lemma_scan_bounds(s, i + 1, JsonScan { in_string: true, ..st });
        } else if c == '{' {
            lemma_scan_bounds(
                s,
                i + 1,
                JsonScan {
                    depth: st.depth + 1,
                    start: if st.depth == 0 {
                        Some(i)
                    } else {
                        st.start
                    },
                    ..st
                },
            );
        } else if c == '}' {
            if st.depth <= 0 {
                lemma_scan_bounds(s, i + 1, st);
            } else if !(st.depth - 1 == 0 && st.start is Some) {
                lemma_scan_bounds(s, i + 1, JsonScan { depth: st.depth - 1, ..st });
            }
        } else {
            lemma_scan_bounds(s, i + 1, st);
        }
    }
}

/// What is found in a reply is a piece of it that opens with `{` and
/// closes with `}`.
pub proof fn law_extracted_object_is_braced(s: Seq<char>)
    ensures
        spec_extract_json_object(s) matches Some(o) ==> o.len() >= 2 && o[0] == '{' && o.last() == '}'
            && exists|a: int| 0 <= a && a + o.len() <= s.len() && #[trigger] s.subrange(a, a + o.len()) == o,
{
    lemma_scan_bounds(s, 0, scan_initial());
    match scan_from(s, 0, scan_initial()) {
        Some((a, b)) => {
            let o = s.subrange(a, b + 1);
            assert(o[0] == s[a]);
            assert(o.last() == s[b]);
            assert(s.subrange(a, a + o.len()) == o);
        },
        None => {},
    }
}

/// The texts to decode a reply from, in order: the whole reply trimmed,
/// then the first JSON object in it, if there is one.
pub open spec fn spec_payload_candidates(raw: Seq<char>) -> Seq<Seq<char>> {
    match spec_extract_json_object(trim(raw)) {
        Some(o) => seq![trim(raw), o],
        None => seq![trim(raw)],
    }
}

pub fn payload_candidates(raw: &str) -> (r: Vec<String>)
    ensures
        r@.map_values(|s: String| s@) == spec_payload_candidates(raw@),
{
    let cs = to_chars(raw);
    let (a, b) = trim_bounds(&cs, 0, cs.len());
    assert(cs@.subrange(0, cs@.len() as int) =~= cs@);
    let t = substring(raw, a, b);
    let snippet = extract_json_object(t.as_str());
    let mut r: Vec<String> = Vec::new();
    r.push(t);
    match snippet {
        Some(o) => {
            r.push(o);
        },
        None => {},
    }
    assert(r@.map_values(|s: String| s@) =~= spec_payload_candidates(raw@));
    r
}

// ---------------------------------------------------------------------------
// Parsed settings
// ---------------------------------------------------------------------------
/// The connection settings that the service read from a text; each is
/// `None` where it could not be read.
#[derive(Debug, Clone)]
pub struct ParsedDbInfo {
    pub db_type: Option<String>,
    pub host: Option<String>,
    pub port: Option<u16>,
    pub database: Option<String>,
    pub username: Option<String>,
    pub password: Option<String>,
    pub schema: Option<String>,
}

pub open spec fn text_or(o: Option<String>, d: Seq<char>) -> Seq<char> {
    match o {
        Some(s) => s@,
        None => d,
    }
}

fn string_or(o: &Option<String>, d: &str) -> (r: String)
    ensures
        r@ == text_or(*o, d@),
{
    match o {
        Some(s) => s.clone(),
        None => String::from_str(d),
    }
}

impl ParsedDbInfo {
    /// Nothing read.
    pub fn empty() -> (r: ParsedDbInfo)
        ensures
            r.db_type is None,
            r.host is None,
            r.port is None,
            r.database is None,
            r.username is None,
            r.password is None,
            r.schema is None,
    {
        ParsedDbInfo {
            db_type: None,
            host: None,
            port: None,
            database: None,
            username: None,
            password: None,
            schema: None,
        }
    }

    /// The connection settings, missing ones filled in: type `mysql`, host
    /// `localhost`, port 3306, and empty database, user and password; the
    /// schema stays absent when it is.
    pub fn to_database_config(&self) -> (r: DatabaseConfig)
        ensures
            r.db_type@ == text_or(self.db_type, "mysql"@),
            r.host@ == text_or(self.host, "localhost"@),
            r.port == (match self.port {
                Some(p) => p,
                None => 3306u16,
            }),
            r.database@ == text_or(self.database, ""@),
            r.username@ == text_or(self.username, ""@),
            r.password@ == text_or(self.password, ""@),
            crate::database::opt_view(r.schema) == crate::database::opt_view(self.schema),
    {
        DatabaseConfig {
            db_type: string_or(&self.db_type, "mysql"),
            host: string_or(&self.host, "localhost"),
            port: match self.port {
                Some(p) => p,
                None => 3306,
            },
            database: string_or(&self.database, ""),
            username: string_or(&self.username, ""),
            password: string_or(&self.password, ""),
            schema: match &self.schema {
                Some(s) => Some(s.clone()),
                None => None,
            },
        }
    }
}

impl Default for ParsedDbInfo {
    fn default() -> (r: ParsedDbInfo)
        ensures
            r.db_type is None,
            r.host is None,
            r.port is None,
            r.database is None,
            r.username is None,
            r.password is None,
            r.schema is None,
    {
        ParsedDbInfo::empty()
    }
}

} // verus!
