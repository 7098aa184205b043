//! The wire protocol: a small JSON codec for the request and acknowledgement
//! shapes the relay speaks, verified against a character-level grammar.
//!
//! An inbound request is a JSON object holding a `"method"` string and,
//! optionally, a `"resources"` array of strings, in either key order, with
//! JSON whitespace anywhere between tokens. String values are taken verbatim
//! between their quotes; a string holding `"` or `\` (which would need escape
//! handling) and any other shape of input are treated as malformed, and
//! malformed input is dropped silently by the protocol handler.

use crate::messages::{WsRequest, WsResponse};
use vstd::prelude::*;
use vstd::string::StrSliceExecFns;
use vstd::string::StringExecFns;

verus! {

/// JSON whitespace.
pub open spec fn is_ws(c: char) -> bool {
    c == ' ' || c == '\t' || c == '\n' || c == '\r'
}

/// A character that may stand inside an unescaped JSON string value.
pub open spec fn str_char_ok(c: char) -> bool {
    c != '"' && c != '\\'
}

/// The first position at or after `i` that does not hold whitespace.
pub open spec fn spec_skip_ws(s: Seq<char>, i: int) -> int
    decreases s.len() - i,
    when 0 <= i <= s.len()
{
    if i < s.len() && is_ws(s[i]) {
        spec_skip_ws(s, i + 1)
    } else {
        i
    }
}

proof fn lemma_skip_ws_bounds(s: Seq<char>, i: int)
    requires
        0 <= i <= s.len(),
    ensures
        i <= spec_skip_ws(s, i) <= s.len(),
    decreases s.len() - i,
{
    if i < s.len() && is_ws(s[i]) {
        lemma_skip_ws_bounds(s, i + 1);
    }
}

/// The first position at or after `j` that ends a string value: a quote, a
/// backslash, or the end of input.
pub open spec fn spec_str_end(s: Seq<char>, j: int) -> int
    decreases s.len() - j,
    when 0 <= j <= s.len()
{
    if j < s.len() && str_char_ok(s[j]) {
        spec_str_end(s, j + 1)
    } else {
        j
    }
}

proof fn lemma_str_end_bounds(s: Seq<char>, j: int)
    requires
        0 <= j <= s.len(),
    ensures
        j <= spec_str_end(s, j) <= s.len(),
    decreases s.len() - j,
{
    if j < s.len() && str_char_ok(s[j]) {
        lemma_str_end_bounds(s, j + 1);
    }
}

/// A JSON string value starting at `i`: an opening quote, escape-free
/// content, a closing quote. Yields the content and the position after the
/// closing quote.
pub open spec fn spec_parse_string(s: Seq<char>, i: int) -> Option<(Seq<char>, int)> {
    if 0 <= i < s.len() && s[i] == '"' {
        let j = spec_str_end(s, i + 1);
        if j < s.len() && s[j] == '"' {
            Some((s.subrange(i + 1, j), j + 1))
        } else {
            None
        }
    } else {
        None
    }
}

proof fn lemma_parse_string_bounds(s: Seq<char>, i: int)
    requires
        0 <= i <= s.len(),
        spec_parse_string(s, i) is Some,
    ensures
        i + 2 <= (spec_parse_string(s, i)->0).1 <= s.len(),
{
    lemma_str_end_bounds(s, i + 1);
}

/// The tail of a JSON string array, entered after a complete element:
/// either a closing bracket, or a comma and a further string.
pub open spec fn spec_array_rest(s: Seq<char>, i: int, acc: Seq<Seq<char>>) -> Option<
    (Seq<Seq<char>>, int),
>
    decreases s.len() - i,
    when 0 <= i <= s.len()
    via spec_array_rest_decreases
{
    let j = spec_skip_ws(s, i);
    if j < s.len() && s[j] == ']' {
        Some((acc, j + 1))
    } else if j < s.len() && s[j] == ',' {
        let k = spec_skip_ws(s, j + 1);
        match spec_parse_string(s, k) {
            Some(ve) => spec_array_rest(s, ve.1, acc.push(ve.0)),
            None => None,
        }
    } else {
        None
    }
}

#[via_fn]
proof fn spec_array_rest_decreases(s: Seq<char>, i: int, acc: Seq<Seq<char>>) {
    lemma_skip_ws_bounds(s, i);
    let j = spec_skip_ws(s, i);
    if j < s.len() && s[j] == ',' {
        lemma_skip_ws_bounds(s, j + 1);
        let k = spec_skip_ws(s, j + 1);
        if spec_parse_string(s, k) is Some {
            lemma_parse_string_bounds(s, k);
        }
    }
}

/// A JSON array of strings starting at `i`. Yields the element contents in
/// order and the position after the closing bracket.
pub open spec fn spec_parse_array(s: Seq<char>, i: int) -> Option<(Seq<Seq<char>>, int)> {
    if 0 <= i < s.len() && s[i] == '[' {
        let j = spec_skip_ws(s, i + 1);
        if j < s.len() && s[j] == ']' {
            Some((Seq::empty(), j + 1))
        } else {
            match spec_parse_string(s, j) {
                Some(ve) => spec_array_rest(s, ve.1, seq![ve.0]),
                None => None,
            }
        }
    } else {
        None
    }
}

/// The closing of a request object after its last member: a `}`, trailing
/// whitespace, and the end of input.
pub open spec fn spec_object_end(s: Seq<char>, i: int) -> bool {
    let t = spec_skip_ws(s, i);
    t < s.len() && s[t] == '}' && spec_skip_ws(s, t + 1) == s.len()
}

/// A `: <string>` member value starting at `i` (just after the member's key).
pub open spec fn spec_member_string(s: Seq<char>, i: int) -> Option<(Seq<char>, int)> {
    let c = spec_skip_ws(s, i);
    if c < s.len() && s[c] == ':' {
        spec_parse_string(s, spec_skip_ws(s, c + 1))
    } else {
        None
    }
}

/// A `: <array>` member value starting at `i` (just after the member's key).
pub open spec fn spec_member_array(s: Seq<char>, i: int) -> Option<(Seq<Seq<char>>, int)> {
    let c = spec_skip_ws(s, i);
    if c < s.len() && s[c] == ':' {
        spec_parse_array(s, spec_skip_ws(s, c + 1))
    } else {
        None
    }
}

/// An entire inbound request: a JSON object holding a `"method"` string and
/// optionally a `"resources"` array of strings, in either order, and nothing
/// else. Yields the method and the resource list, or `None` for any input
/// that does not match.
pub open spec fn spec_parse_request(s: Seq<char>) -> Option<(Seq<char>, Option<Seq<Seq<char>>>)> {
    let i = spec_skip_ws(s, 0);
    if !(i < s.len() && s[i] == '{') {
        None
    } else {
        match spec_parse_string(s, spec_skip_ws(s, i + 1)) {
            None => None,
            Some(key1) => {
                if key1.0 == "method"@ {
                    match spec_member_string(s, key1.1) {
                        None => None,
                        Some(m) => {
                            let t = spec_skip_ws(s, m.1);
                            if spec_object_end(s, m.1) {
                                Some((m.0, None))
                            } else if t < s.len() && s[t] == ',' {
                                match spec_parse_string(s, spec_skip_ws(s, t + 1)) {
                                    None => None,
                                    Some(key2) => {
                                        if key2.0 == "resources"@ {
                                            match spec_member_array(s, key2.1) {
                                                None => None,
                                                Some(rs) => {
                                                    if spec_object_end(s, rs.1) {
                                                        Some((m.0, Some(rs.0)))
                                                    } else {
                                                        None
                                                    }
                                                },
                                            }
                                        } else {
                                            None
                                        }
                                    },
                                }
                            } else {
                                None
                            }
                        },
                    }
                } else if key1.0 == "resources"@ {
                    match spec_member_array(s, key1.1) {
                        None => None,
                        Some(rs) => {
                            let t = spec_skip_ws(s, rs.1);
                            if !(t < s.len() && s[t] == ',') {
                                None
                            } else {
                                match spec_parse_string(s, spec_skip_ws(s, t + 1)) {
                                    None => None,
                                    Some(key2) => {
                                        if key2.0 == "method"@ {
                                            match spec_member_string(s, key2.1) {
                                                None => None,
                                                Some(m) => {
                                                    if spec_object_end(s, m.1) {
                                                        Some((m.0, Some(rs.0)))
                                                    } else {
                                                        None
                                                    }
                                                },
                                            }
                                        } else {
                                            None
                                        }
                                    },
                                }
                            }
                        },
                    }
                } else {
                    None
                }
            },
        }
    }
}

fn is_ws_char(c: char) -> (r: bool)
    ensures
        r == is_ws(c),
{
    c == ' ' || c == '\t' || c == '\n' || c == '\r'
}

fn char_ok(c: char) -> (r: bool)
    ensures
        r == str_char_ok(c),
{
    c != '"' && c != '\\'
}

fn skip_ws(s: &str, n: usize, i: usize) -> (r: usize)
    requires
        n as nat == s@.len(),
        i <= n,
    ensures
        r as int == spec_skip_ws(s@, i as int),
        i <= r <= n,
{
    let mut j = i;
    while j < n && is_ws_char(s.get_char(j))
        invariant
            n as nat == s@.len(),
            i <= j <= n,
            spec_skip_ws(s@, i as int) == spec_skip_ws(s@, j as int),
        decreases n - j,
    {
        j = j + 1;
    }
    j
}

fn parse_string_at(s: &str, n: usize, i: usize) -> (r: Option<(String, usize)>)
    requires
        n as nat == s@.len(),
        i <= n,
    ensures
        (r is Some) == (spec_parse_string(s@, i as int) is Some),
        r is Some ==> (r->0).0@ == (spec_parse_string(s@, i as int)->0).0,
        r is Some ==> (r->0).1 as int == (spec_parse_string(s@, i as int)->0).1,
        r is Some ==> i < (r->0).1 <= n,
{
    if i >= n {
        return None;
    }
    if s.get_char(i) != '"' {
        return None;
    }
    let mut j = i + 1;
    while j < n && char_ok(s.get_char(j))
        invariant
            n as nat == s@.len(),
            i + 1 <= j <= n,
            spec_str_end(s@, i + 1) == spec_str_end(s@, j as int),
        decreases n - j,
    {
        j = j + 1;
    }
    if j >= n {
        return None;
    }
    if s.get_char(j) != '"' {
        return None;
    }
    let content = s.substring_char(i + 1, j).to_owned();
    Some((content, j + 1))
}

fn parse_array_at(s: &str, n: usize, i: usize) -> (r: Option<(Vec<String>, usize)>)
    requires
        n as nat == s@.len(),
        i <= n,
    ensures
        (r is Some) == (spec_parse_array(s@, i as int) is Some),
        r is Some ==> (r->0).0.deep_view() == (spec_parse_array(s@, i as int)->0).0,
        r is Some ==> (r->0).1 as int == (spec_parse_array(s@, i as int)->0).1,
        r is Some ==> i < (r->0).1 <= n,
{
    if i >= n {
        return None;
    }
    if s.get_char(i) != '[' {
        return None;
    }
    let j = skip_ws(s, n, i + 1);
    if j < n && s.get_char(j) == ']' {
        let acc: Vec<String> = Vec::new();
        proof {
            assert(acc.deep_view() =~= Seq::<Seq<char>>::empty());
        }
        return Some((acc, j + 1));
    }
    let mut acc: Vec<String>;
    let mut pos: usize;
    match parse_string_at(s, n, j) {
        None => {
            return None;
        },
        Some(ve) => {
            acc = Vec::new();
            acc.push(ve.0);
            pos = ve.1;
            proof {
                let sv = (spec_parse_string(s@, j as int)->0).0;
                assert(acc.deep_view() =~= seq![sv]);
            }
        },
    }
    loop
        invariant
            n as nat == s@.len(),
            i < pos <= n,
            spec_parse_array(s@, i as int) == spec_array_rest(s@, pos as int, acc.deep_view()),
        decreases n - pos,
    {
        let ghost acc0 = acc.deep_view();
        let t = skip_ws(s, n, pos);
        if t < n && s.get_char(t) == ']' {
            return Some((acc, t + 1));
        }
        if !(t < n && s.get_char(t) == ',') {
            return None;
        }
        let k = skip_ws(s, n, t + 1);
        match parse_string_at(s, n, k) {
            None => {
                return None;
            },
            Some(ve) => {
                proof {
                    let sv = (spec_parse_string(s@, k as int)->0).0;
                    assert(acc.deep_view().push(ve.0@) =~= acc0.push(sv));
                }
                acc.push(ve.0);
                pos = ve.1;
                proof {
                    assert(acc.deep_view() =~= acc0.push((spec_parse_string(s@, k as int)->0).0));
                }
            },
        }
    }
}

/// Parses one inbound text frame into a request, or `None` for anything
/// that does not match the request grammar.
pub fn parse_request(text: &str) -> (r: Option<WsRequest>)
    ensures
        (r is Some) == (spec_parse_request(text@) is Some),
        r is Some ==> (r->0)@ == spec_parse_request(text@)->0,
{
    let n = text.unicode_len();
    let i = skip_ws(text, n, 0);
    if !(i < n) {
        return None;
    }
    if text.get_char(i) != '{' {
        return None;
    }
    let j = skip_ws(text, n, i + 1);
    let key1 = match parse_string_at(text, n, j) {
        None => {
            return None;
        },
        Some(kv) => kv,
    };
    let method_name = String::from_str("method");
    let resources_name = String::from_str("resources");
    if key1.0 == method_name {
        let m = match member_string(text, n, key1.1) {
            None => {
                return None;
            },
            Some(mv) => mv,
        };
        let t = skip_ws(text, n, m.1);
        if object_end(text, n, m.1) {
            return Some(WsRequest { method: m.0, resources: None });
        }
        if !(t < n && text.get_char(t) == ',') {
            return None;
        }
        let key2 = match parse_string_at(text, n, skip_ws(text, n, t + 1)) {
            None => {
                return None;
            },
            Some(kv) => kv,
        };
        if !(key2.0 == resources_name) {
            return None;
        }
        let rs = match member_array(text, n, key2.1) {
            None => {
                return None;
            },
            Some(rv) => rv,
        };
        if object_end(text, n, rs.1) {
            Some(WsRequest { method: m.0, resources: Some(rs.0) })
        } else {
            None
        }
    } else if key1.0 == resources_name {
        let rs = match member_array(text, n, key1.1) {
            None => {
                return None;
            },
            Some(rv) => rv,
        };
        let t = skip_ws(text, n, rs.1);
        if !(t < n && text.get_char(t) == ',') {
            return None;
        }
        let key2 = match parse_string_at(text, n, skip_ws(text, n, t + 1)) {
            None => {
                return None;
            },
            Some(kv) => kv,
        };
        if !(key2.0 == method_name) {
            return None;
        }
        let m = match member_string(text, n, key2.1) {
            None => {
                return None;
            },
            Some(mv) => mv,
        };
        if object_end(text, n, m.1) {
            Some(WsRequest { method: m.0, resources: Some(rs.0) })
        } else {
            None
        }
    } else {
        None
    }
}

fn member_string(s: &str, n: usize, i: usize) -> (r: Option<(String, usize)>)
    requires
        n as nat == s@.len(),
        i <= n,
    ensures
        (r is Some) == (spec_member_string(s@, i as int) is Some),
        r is Some ==> (r->0).0@ == (spec_member_string(s@, i as int)->0).0,
        r is Some ==> (r->0).1 as int == (spec_member_string(s@, i as int)->0).1,
        r is Some ==> i < (r->0).1 <= n,
{
    let c = skip_ws(s, n, i);
    if !(c < n) {
        return None;
    }
    if s.get_char(c) != ':' {
        return None;
    }
    parse_string_at(s, n, skip_ws(s, n, c + 1))
}

fn member_array(s: &str, n: usize, i: usize) -> (r: Option<(Vec<String>, usize)>)
    requires
        n as nat == s@.len(),
        i <= n,
    ensures
        (r is Some) == (spec_member_array(s@, i as int) is Some),
        r is Some ==> (r->0).0.deep_view() == (spec_member_array(s@, i as int)->0).0,
        r is Some ==> (r->0).1 as int == (spec_member_array(s@, i as int)->0).1,
        r is Some ==> i < (r->0).1 <= n,
{
    let c = skip_ws(s, n, i);
    if !(c < n) {
        return None;
    }
    if s.get_char(c) != ':' {
        return None;
    }
    parse_array_at(s, n, skip_ws(s, n, c + 1))
}

fn object_end(s: &str, n: usize, i: usize) -> (r: bool)
    requires
        n as nat == s@.len(),
        i <= n,
    ensures
        r == spec_object_end(s@, i as int),
{
    let t = skip_ws(s, n, i);
    if !(t < n) {
        return false;
    }
    if s.get_char(t) != '}' {
        return false;
    }
    let e = skip_ws(s, n, t + 1);
    e == n
}

/// The acknowledgement text for a status and a message: a two-member JSON
/// object. The two fields are emitted verbatim; the relay only ever sends
/// plain ASCII constants through them.
pub open spec fn spec_response_text(status: Seq<char>, message: Seq<char>) -> Seq<char> {
    "{\"status\":\""@ + status + "\",\"message\":\""@ + message + "\"}"@
}

/// Renders one acknowledgement frame.
pub fn encode_response(resp: &WsResponse) -> (r: String)
    ensures
        r@ == spec_response_text(resp.status@, resp.message@),
{
    let mut out = String::from_str("{\"status\":\"");
    out.append(resp.status.as_str());
    out.append("\",\"message\":\"");
    out.append(resp.message.as_str());
    out.append("\"}");
    proof {
        assert(out@ =~= spec_response_text(resp.status@, resp.message@));
    }
    out
}

} // verus!
