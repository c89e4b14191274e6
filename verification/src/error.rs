//! The proxy's errors and the HTTP responses that report them.
use vstd::prelude::*;

verus! {

/// An error of the proxy, with its detail message.
#[derive(Debug)]
pub enum AppError {
    Destination(String),
    Internal(String),
    Parsing(String),
    Config(String),
}

pub enum AppErrorView {
    Destination(Seq<char>),
    Internal(Seq<char>),
    Parsing(Seq<char>),
    Config(Seq<char>),
}

impl View for AppError {
    type V = AppErrorView;

    open spec fn view(&self) -> AppErrorView {
        match self {
            AppError::Destination(m) => AppErrorView::Destination(m@),
            AppError::Internal(m) => AppErrorView::Internal(m@),
            AppError::Parsing(m) => AppErrorView::Parsing(m@),
            AppError::Config(m) => AppErrorView::Config(m@),
        }
    }
}

impl AppErrorView {
    /// The detail message.
    pub open spec fn message(self) -> Seq<char> {
        match self {
            AppErrorView::Destination(m) => m,
            AppErrorView::Internal(m) => m,
            AppErrorView::Parsing(m) => m,
            AppErrorView::Config(m) => m,
        }
    }

    /// The HTTP status that reports the error: 502 for the destination,
    /// 500 for internal errors, 400 for parsing, 503 for configuration.
    pub open spec fn status(self) -> u16 {
        match self {
            AppErrorView::Destination(_) => 502,
            AppErrorView::Internal(_) => 500,
            AppErrorView::Parsing(_) => 400,
            AppErrorView::Config(_) => 503,
        }
    }

    /// The `type` field of the JSON error body.
    pub open spec fn error_type(self) -> Seq<char> {
        match self {
            AppErrorView::Destination(_) => "destination_error"@,
            AppErrorView::Internal(_) => "internal_error"@,
            AppErrorView::Parsing(_) => "parsing_error"@,
            AppErrorView::Config(_) => "config_error"@,
        }
    }

    /// The human-readable text of the error.
    pub open spec fn description(self) -> Seq<char> {
        match self {
            AppErrorView::Destination(m) => "Destination Error: "@ + m,
            AppErrorView::Internal(m) => "Internal Server Error: "@ + m,
            AppErrorView::Parsing(m) => "Parsing Error: "@ + m,
            AppErrorView::Config(m) => "Configuration Error: "@ + m,
        }
    }
}

/// `a` followed by `b`, as a new string.
pub fn concat_str(a: &str, b: &str) -> (r: String)
    ensures
        r@ == a@ + b@,
{
    let mut r = a.to_owned();
    r.append(b);
    r
}

/* ---------- JSON string literals (`serde_json`) ---------- */

/// The lowercase hexadecimal digit of `d` (below 16).
pub open spec fn hex_digit(d: u32) -> char {
    if d == 0 { '0' } else if d == 1 { '1' } else if d == 2 { '2' } else if d == 3 { '3' }
    else if d == 4 { '4' } else if d == 5 { '5' } else if d == 6 { '6' } else if d == 7 { '7' }
    else if d == 8 { '8' } else if d == 9 { '9' } else if d == 10 { 'a' } else if d == 11 { 'b' }
    else if d == 12 { 'c' } else if d == 13 { 'd' } else if d == 14 { 'e' } else { 'f' }
}

/// How JSON writes one character inside a string literal: quote and
/// backslash escaped, the short escapes for backspace, form feed, line feed,
/// carriage return and tab, `\u00XX` for the other control characters below
/// 0x20, and every other character as itself.
pub open spec fn json_escape_char(c: char) -> Seq<char> {
    if c == '"' {
        seq!['\\', '"']
    } else if c == '\\' {
        seq!['\\', '\\']
    } else if c == '\u{8}' {
        seq!['\\', 'b']
    } else if c == '\u{c}' {
        seq!['\\', 'f']
    } else if c == '\n' {
        seq!['\\', 'n']
    } else if c == '\r' {
        seq!['\\', 'r']
    } else if c == '\t' {
        seq!['\\', 't']
    } else if (c as u32) < 0x20 {
        seq!['\\', 'u', '0', '0', hex_digit((c as u32) / 16), hex_digit((c as u32) % 16)]
    } else {
        seq![c]
    }
}

/// The escaped characters of a JSON string literal's contents.
pub open spec fn json_escape(s: Seq<char>) -> Seq<char>
    decreases s.len(),
{
    if s.len() == 0 {
        Seq::empty()
    } else {
        json_escape_char(s[0]) + json_escape(s.drop_first())
    }
}

/// A JSON string literal holding `s`.
pub open spec fn json_string(s: Seq<char>) -> Seq<char> {
    seq!['"'] + json_escape(s) + seq!['"']
}

/// The JSON text `{"error":{"message":M,"type":T}}`: an object under
/// `"error"` with the two fields in the order serde_json's map keeps them
/// (sorted by key), written compactly.
pub open spec fn error_body(error_type: Seq<char>, message: Seq<char>) -> Seq<char> {
    "{\"error\":{\"message\":"@ + json_string(message) + ",\"type\":"@ + json_string(error_type)
        + "}}"@
}

/* ---------- JSON objects ---------- */

/// Whether `a` comes before `b` in the order of their characters' code
/// points, which for UTF-8 text is the order of their bytes.
pub open spec fn key_precedes(a: Seq<char>, b: Seq<char>) -> bool
    decreases a.len(),
{
    if b.len() == 0 {
        false
    } else if a.len() == 0 {
        true
    } else if a[0] != b[0] {
        (a[0] as u32) < (b[0] as u32)
    } else {
        key_precedes(a.drop_first(), b.drop_first())
    }
}

/// Keys in strictly increasing order.
pub open spec fn keys_ascending(keys: Seq<Seq<char>>) -> bool {
    forall|i: int, j: int| 0 <= i < j < keys.len() ==> key_precedes(#[trigger] keys[i], #[trigger] keys[j])
}

/// The members of a JSON object, each a key and the JSON text of its value,
/// separated by commas.
pub open spec fn json_members(entries: Seq<(Seq<char>, Seq<char>)>) -> Seq<char>
    decreases entries.len(),
{
    if entries.len() == 0 {
        Seq::empty()
    } else {
        let last = json_string(entries.last().0) + seq![':'] + entries.last().1;
        if entries.len() == 1 {
            last
        } else {
            json_members(entries.drop_last()) + seq![','] + last
        }
    }
}

/// The compact JSON text of an object with these members, in this order.
pub open spec fn json_object(entries: Seq<(Seq<char>, Seq<char>)>) -> Seq<char> {
    seq!['{'] + json_members(entries) + seq!['}']
}

/// Fields whose values are strings, with the JSON text of each value.
pub open spec fn string_members(fields: Seq<(String, String)>) -> Seq<(Seq<char>, Seq<char>)> {
    fields.map_values(|f: (String, String)| (f.0@, json_string(f.1@)))
}

/// An object's fields, each itself an object of string fields, with the
/// JSON text of each value.
pub open spec fn object_members(fields: Seq<(String, Vec<(String, String)>)>) -> Seq<(Seq<char>, Seq<char>)> {
    fields.map_values(|f: (String, Vec<(String, String)>)| (f.0@, json_object(string_members(f.1@))))
}

/// The keys of an object, and of every object inside it, in increasing order.
pub open spec fn fields_ascending(fields: Seq<(String, Vec<(String, String)>)>) -> bool {
    &&& keys_ascending(fields.map_values(|f: (String, Vec<(String, String)>)| f.0@))
    &&& forall|i: int|
        0 <= i < fields.len() ==> keys_ascending(
            (#[trigger] fields[i]).1@.map_values(|f: (String, String)| f.0@),
        )
}

/// `serde_json::Value::to_string` on an object whose fields are objects of
/// string fields, each key and value converted one for one into
/// `serde_json::Map` entries, `Value::Object` and `Value::String`. The
/// contract claims the compact text serde_json writes: its `Map` is a
/// `BTreeMap` in this build (no `preserve_order` feature), so keys given in
/// increasing order come out in the order given; the compact formatter
/// writes no spaces; strings are escaped by `format_escaped_str` (its
/// `ESCAPE` table, with `\u00xx` in lowercase hex); and writing a `Value`
/// with string keys into a `String` cannot fail.
#[verifier::external_body]
fn json_object_text(fields: &Vec<(String, Vec<(String, String)>)>) -> (r: String)
    requires
        fields_ascending(fields@),
    ensures
        r@ == json_object(object_members(fields@)),
{
    let mut map = serde_json::Map::new();
    for (key, inner) in fields.iter() {
        let object = inner.iter().map(|(k, v)| (k.clone(), serde_json::Value::String(v.clone()))).collect();
        map.insert(key.clone(), serde_json::Value::Object(object));
    }
    serde_json::Value::Object(map).to_string()
}

/// A character that JSON writes as itself inside a string literal.
pub open spec fn plain_json_char(c: char) -> bool {
    0x20 <= (c as u32) && c != '"' && c != '\\'
}

proof fn lemma_json_escape_plain(s: Seq<char>)
    requires
        forall|i: int| 0 <= i < s.len() ==> plain_json_char(#[trigger] s[i]),
    ensures
        json_escape(s) == s,
    decreases s.len(),
{
    if s.len() > 0 {
        let rest = s.drop_first();
        assert forall|i: int| 0 <= i < rest.len() implies plain_json_char(#[trigger] rest[i]) by {
            assert(rest[i] == s[i + 1]);
        }
        lemma_json_escape_plain(rest);
        assert(plain_json_char(s[0]));
        assert(s =~= seq![s[0]] + rest);
    }
}

/// The error body is the object with one field `"error"`, itself the object
/// with the fields `"message"` and `"type"`.
pub proof fn lemma_error_body_is_object(error_type: Seq<char>, message: Seq<char>)
    ensures
        error_body(error_type, message) == json_object(
            seq![
                ("error"@, json_object(seq![("message"@, json_string(message)), ("type"@, json_string(error_type))])),
            ],
        ),
{
    reveal_strlit("error");
    reveal_strlit("message");
    reveal_strlit("type");
    reveal_strlit("{\"error\":{\"message\":");
    reveal_strlit(",\"type\":");
    reveal_strlit("}}");
    assert forall|i: int| 0 <= i < "error"@.len() implies plain_json_char(#[trigger] "error"@[i]) by {
        if i == 0 {} else if i == 1 {} else if i == 2 {} else if i == 3 {} else {}
    }
    assert forall|i: int| 0 <= i < "message"@.len() implies plain_json_char(#[trigger] "message"@[i]) by {
        if i == 0 {} else if i == 1 {} else if i == 2 {} else if i == 3 {} else if i == 4 {} else if i == 5 {} else {}
    }
    assert forall|i: int| 0 <= i < "type"@.len() implies plain_json_char(#[trigger] "type"@[i]) by {
        if i == 0 {} else if i == 1 {} else if i == 2 {} else {}
    }
    lemma_json_escape_plain("error"@);
    lemma_json_escape_plain("message"@);
    lemma_json_escape_plain("type"@);
    let jm = json_string(message);
    let jt = json_string(error_type);
    let first = seq![("message"@, jm)];
    let inner = seq![("message"@, jm), ("type"@, jt)];
    assert(inner.drop_last() =~= first);
    assert(json_members(first) == json_string("message"@) + seq![':'] + jm);
    assert(json_members(inner) == json_members(first) + seq![','] + (json_string("type"@) + seq![':'] + jt));
    let outer = seq![("error"@, json_object(inner))];
    assert(json_members(outer) == json_string("error"@) + seq![':'] + json_object(inner));
    let open_lit = seq!['{', '"'] + "error"@ + seq!['"', ':', '{', '"'] + "message"@ + seq!['"', ':'];
    let mid_lit = seq![',', '"'] + "type"@ + seq!['"', ':'];
    assert("{\"error\":{\"message\":"@ =~= open_lit);
    assert(",\"type\":"@ =~= mid_lit);
    assert("}}"@ =~= seq!['}', '}']);
    assert(json_object(outer) =~= open_lit + jm + mid_lit + jt + seq!['}', '}']);
    assert(json_object(outer) =~= error_body(error_type, message));
}

/* ---------- reading a JSON string literal back ---------- */

/// The value of a hexadecimal digit.
pub open spec fn hex_value(c: char) -> Option<u32> {
    if '0' <= c <= '9' {
        Some(((c as u32) - 48) as u32)
    } else if 'a' <= c <= 'f' {
        Some(((c as u32) - 87) as u32)
    } else if 'A' <= c <= 'F' {
        Some(((c as u32) - 55) as u32)
    } else {
        None
    }
}

/// The character a two-character escape `\e` stands for.
pub open spec fn json_short_escape(e: char) -> Option<char> {
    if e == '"' {
        Some('"')
    } else if e == '\\' {
        Some('\\')
    } else if e == '/' {
        Some('/')
    } else if e == 'b' {
        Some('\u{8}')
    } else if e == 'f' {
        Some('\u{c}')
    } else if e == 'n' {
        Some('\n')
    } else if e == 'r' {
        Some('\r')
    } else if e == 't' {
        Some('\t')
    } else {
        None
    }
}

/// The value of the four hexadecimal digits of a `\uXXXX` escape.
pub open spec fn unicode_escape_value(t: Seq<char>) -> Option<u32> {
    match (hex_value(t[2]), hex_value(t[3]), hex_value(t[4]), hex_value(t[5])) {
        (Some(a), Some(b), Some(c), Some(d)) => Some((4096 * a + 256 * b + 16 * c + d) as u32),
        _ => None,
    }
}

/// Reads the contents of a JSON string literal (RFC 8259) whose opening
/// quote has been read: the characters it stands for, and the offset of its
/// closing quote. `None` where the text is not such a literal. (A `\uXXXX`
/// escape is read here only for a value outside the surrogate range.)
pub open spec fn read_json_string(t: Seq<char>) -> Option<(Seq<char>, int)>
    decreases t.len(),
{
    if t.len() == 0 {
        None
    } else if t[0] == '"' {
        Some((Seq::empty(), 0))
    } else if t[0] == '\\' {
        if t.len() < 2 {
            None
        } else if t[1] == 'u' {
            if t.len() < 6 {
                None
            } else {
                match unicode_escape_value(t) {
                    Some(v) => if v < 0xD800 || 0xDFFF < v {
                        match read_json_string(t.skip(6)) {
                            Some((s, k)) => Some((seq![v as char] + s, k + 6)),
                            None => None,
                        }
                    } else {
                        None
                    },
                    None => None,
                }
            }
        } else {
            match json_short_escape(t[1]) {
                Some(c) => match read_json_string(t.skip(2)) {
                    Some((s, k)) => Some((seq![c] + s, k + 2)),
                    None => None,
                },
                None => None,
            }
        }
    } else if (t[0] as u32) < 0x20 {
        None
    } else {
        match read_json_string(t.drop_first()) {
            Some((s, k)) => Some((seq![t[0]] + s, k + 1)),
            None => None,
        }
    }
}

proof fn lemma_hex_round_trip(d: u32)
    requires
        d < 16,
    ensures
        hex_value(hex_digit(d)) == Some(d),
{
}

/// Reading back what JSON escaping wrote gives the original characters, and
/// stops at the quote that closes the literal.
pub proof fn lemma_json_escape_reads_back(s: Seq<char>, rest: Seq<char>)
    ensures
        read_json_string(json_escape(s) + seq!['"'] + rest) == Some((s, json_escape(s).len() as int)),
    decreases s.len(),
{
    broadcast use vstd::utf8::char_u32_cast;

    let t = json_escape(s) + seq!['"'] + rest;
    if s.len() == 0 {
        assert(json_escape(s) =~= Seq::<char>::empty());
        assert(t[0] == '"');
    } else {
        let c = s[0];
        let tail = s.drop_first();
        let e = json_escape_char(c);
        let after = json_escape(tail) + seq!['"'] + rest;
        lemma_json_escape_reads_back(tail, rest);
        assert(t =~= e + after);
        assert(seq![c] + tail =~= s);
        assert(t.skip(e.len() as int) =~= after);
        if c == '"' || c == '\\' || c == '\u{8}' || c == '\u{c}' || c == '\n' || c == '\r' || c == '\t' {
            assert(t[0] == '\\');
            assert(t[1] == e[1]);
        } else if (c as u32) < 0x20 {
            let v = c as u32;
            lemma_hex_round_trip(v / 16);
            lemma_hex_round_trip(v % 16);
            assert(t[0] == '\\' && t[1] == 'u' && t[2] == '0' && t[3] == '0');
            assert(t[4] == hex_digit(v / 16) && t[5] == hex_digit(v % 16));
            assert(unicode_escape_value(t) == Some(v));
            vstd::utf8::char_u32_cast(c, v);
            assert((v as char) == c);
        } else {
            assert(t[0] == c);
            assert(t.drop_first() =~= after);
        }
    }
}

/// The error body reads back as JSON: after `{"error":{"message":` comes a
/// string literal holding exactly the message, then `,"type":` and a string
/// literal holding exactly the error type, then `}}`.
pub proof fn lemma_error_body_reads_back(error_type: Seq<char>, message: Seq<char>)
    ensures
        ({
            let body = error_body(error_type, message);
            let p = "{\"error\":{\"message\":"@;
            let q = ",\"type\":"@;
            let m_end = p.len() + 1 + json_escape(message).len() as int;
            let t_end = m_end + 1 + q.len() + 1 + json_escape(error_type).len() as int;
            &&& body.subrange(0, p.len() as int) == p
            &&& body[p.len() as int] == '"'
            &&& read_json_string(body.skip((p.len() + 1) as int)) == Some(
                (message, json_escape(message).len() as int),
            )
            &&& body.subrange(m_end + 1, m_end + 1 + q.len()) == q
            &&& body[m_end + 1 + q.len()] == '"'
            &&& read_json_string(body.skip(m_end + 1 + q.len() + 1)) == Some(
                (error_type, json_escape(error_type).len() as int),
            )
            &&& body.skip(t_end + 1) == "}}"@
        }),
{
    let body = error_body(error_type, message);
    let p = "{\"error\":{\"message\":"@;
    let q = ",\"type\":"@;
    let close = "}}"@;
    let em = json_escape(message);
    let et = json_escape(error_type);
    let m_end = p.len() + 1 + em.len() as int;
    let t_end = m_end + 1 + q.len() + 1 + et.len() as int;
    assert(body =~= p + seq!['"'] + em + seq!['"'] + q + seq!['"'] + et + seq!['"'] + close);
    lemma_json_escape_reads_back(message, q + seq!['"'] + et + seq!['"'] + close);
    lemma_json_escape_reads_back(error_type, close);
    assert(body.skip((p.len() + 1) as int) =~= em + seq!['"'] + (q + seq!['"'] + et + seq!['"'] + close));
    assert(body.skip(m_end + 1 + q.len() + 1) =~= et + seq!['"'] + close);
    assert(body.subrange(0, p.len() as int) =~= p);
    assert(body.subrange(m_end + 1, m_end + 1 + q.len()) =~= q);
    assert(body.skip(t_end + 1) =~= close);
}

/// An HTTP response that reports an error.
pub struct ErrorResponse {
    pub status: u16,
    pub content_type: String,
    pub body: String,
}

impl AppError {
    /// The human-readable text of the error.
    pub fn description(&self) -> (s: String)
        ensures
            s@ == self@.description(),
    {
        match self {
            AppError::Destination(m) => concat_str("Destination Error: ", m.as_str()),
            AppError::Internal(m) => concat_str("Internal Server Error: ", m.as_str()),
            AppError::Parsing(m) => concat_str("Parsing Error: ", m.as_str()),
            AppError::Config(m) => concat_str("Configuration Error: ", m.as_str()),
        }
    }

    /// The response that reports the error: its status, JSON content type,
    /// and the body `{"error":{"message":..,"type":..}}`.
    pub fn to_response(&self) -> (r: ErrorResponse)
        ensures
            r.status == self@.status(),
            r.content_type@ == "application/json"@,
            r.body@ == error_body(self@.error_type(), self@.message()),
    {
        let (status, error_type, message): (u16, &str, &String) = match self {
            AppError::Destination(m) => (502, "destination_error", m),
            AppError::Internal(m) => (500, "internal_error", m),
            AppError::Parsing(m) => (400, "parsing_error", m),
            AppError::Config(m) => (503, "config_error", m),
        };
        let inner: Vec<(String, String)> = vec![
            ("message".to_owned(), message.as_str().to_owned()),
            ("type".to_owned(), error_type.to_owned()),
        ];
        let fields: Vec<(String, Vec<(String, String)>)> = vec![("error".to_owned(), inner)];
        proof {
            reveal_strlit("message");
            reveal_strlit("type");
            lemma_error_body_is_object(self@.error_type(), self@.message());
            assert(fields@[0].1@.map_values(|f: (String, String)| f.0@) =~= seq!["message"@, "type"@]);
            assert(key_precedes("message"@, "type"@));
            assert(fields@.map_values(|f: (String, Vec<(String, String)>)| f.0@) =~= seq!["error"@]);
            assert(string_members(fields@[0].1@) =~= seq![("message"@, json_string(self@.message())), ("type"@, json_string(self@.error_type()))]);
            assert(object_members(fields@) =~= seq![("error"@, json_object(string_members(fields@[0].1@)))]);
        }
        let body = json_object_text(&fields);
        ErrorResponse { status, content_type: "application/json".to_owned(), body }
    }
}

} // verus!
