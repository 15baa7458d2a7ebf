//! The persisted file format: a JSON array of objects, each holding a
//! `description` string and a `completed` boolean, written with two-space
//! indentation.  The grammar below is the reference for both the renderer
//! and the parser; the round-trip lemma ties the two together.

use crate::task::Task;
use crate::task::TaskView;
use crate::task::task_views;
use vstd::prelude::*;

verus! {

// ---------------------------------------------------------------------------
// Characters
// ---------------------------------------------------------------------------
/// JSON insignificant whitespace.
pub open spec fn is_json_ws(c: char) -> bool {
    c == ' ' || c == '\t' || c == '\n' || c == '\r'
}

/// Control characters must be escaped inside JSON strings.
pub open spec fn is_control(c: char) -> bool {
    (c as u32) < 0x20
}

/// The lower-case hexadecimal digit for a value below sixteen.
pub open spec fn hex_digit(n: int) -> char {
    if n == 0 {
        '0'
    } else if n == 1 {
        '1'
    } else if n == 2 {
        '2'
    } else if n == 3 {
        '3'
    } else if n == 4 {
        '4'
    } else if n == 5 {
        '5'
    } else if n == 6 {
        '6'
    } else if n == 7 {
        '7'
    } else if n == 8 {
        '8'
    } else if n == 9 {
        '9'
    } else if n == 10 {
        'a'
    } else if n == 11 {
        'b'
    } else if n == 12 {
        'c'
    } else if n == 13 {
        'd'
    } else if n == 14 {
        'e'
    } else if n == 15 {
        'f'
    } else {
        '0'
    }
}

/// The value of a hexadecimal digit, upper or lower case; -1 if `c` is none.
pub open spec fn hex_val(c: char) -> int {
    let v = c as u32;
    if 0x30 <= v <= 0x39 {
        v - 0x30
    } else if 0x61 <= v <= 0x66 {
        v - 0x57
    } else if 0x41 <= v <= 0x46 {
        v - 0x37
    } else {
        -1
    }
}

// ---------------------------------------------------------------------------
// Rendering
// ---------------------------------------------------------------------------
/// How one character is written inside a JSON string.
pub open spec fn escape_char(c: char) -> Seq<char> {
    if c == '"' {
        seq!['\\', '"']
    } else if c == '\\' {
        seq!['\\', '\\']
    } else if c == '\n' {
        seq!['\\', 'n']
    } else if c == '\r' {
        seq!['\\', 'r']
    } else if c == '\t' {
        seq!['\\', 't']
    } else if is_control(c) {
        seq!['\\', 'u', '0', '0', hex_digit(c as u32 as int / 16), hex_digit(c as u32 as int % 16)]
    } else {
        seq![c]
    }
}

/// A whole string, escaped character by character.
pub open spec fn escape_string(s: Seq<char>) -> Seq<char>
    decreases s.len(),
{
    if s.len() == 0 {
        Seq::empty()
    } else {
        escape_char(s[0]) + escape_string(s.skip(1))
    }
}

pub open spec fn desc_key() -> Seq<char> {
    seq!['d', 'e', 's', 'c', 'r', 'i', 'p', 't', 'i', 'o', 'n']
}

pub open spec fn comp_key() -> Seq<char> {
    seq!['c', 'o', 'm', 'p', 'l', 'e', 't', 'e', 'd']
}

pub open spec fn render_bool(b: bool) -> Seq<char> {
    if b {
        seq!['t', 'r', 'u', 'e']
    } else {
        seq!['f', 'a', 'l', 's', 'e']
    }
}

/// Opening of a task object, up to the quote that starts the description.
pub open spec fn obj_open() -> Seq<char> {
    seq!['{', '\n', ' ', ' ', ' ', ' ', '"'] + desc_key() + seq!['"', ':', ' ', '"']
}

/// Between the description value and the completion value.
pub open spec fn obj_mid() -> Seq<char> {
    seq!['"', ',', '\n', ' ', ' ', ' ', ' ', '"'] + comp_key() + seq!['"', ':', ' ']
}

/// Closing of a task object.
pub open spec fn obj_close() -> Seq<char> {
    seq!['\n', ' ', ' ', '}']
}

/// One task object as it stands inside the rendered array.
pub open spec fn render_task_pretty(t: TaskView) -> Seq<char> {
    obj_open() + escape_string(t.description) + obj_mid() + render_bool(t.completed) + obj_close()
}

/// The second and later elements, each preceded by a separator.
pub open spec fn render_rest(ts: Seq<TaskView>) -> Seq<char>
    decreases ts.len(),
{
    if ts.len() == 0 {
        Seq::empty()
    } else {
        seq![',', '\n', ' ', ' '] + render_task_pretty(ts[0]) + render_rest(ts.skip(1))
    }
}

/// The whole rendered document.
pub open spec fn render_tasks(ts: Seq<TaskView>) -> Seq<char> {
    if ts.len() == 0 {
        seq!['[', ']']
    } else {
        seq!['[', '\n', ' ', ' '] + render_task_pretty(ts[0]) + render_rest(ts.skip(1)) + seq![
            '\n',
            ']',
        ]
    }
}

/// One task object on a single line, as a task serialises on its own.
pub open spec fn render_task_compact(t: TaskView) -> Seq<char> {
    seq!['{', '"'] + desc_key() + seq!['"', ':', '"'] + escape_string(t.description) + seq![
        '"',
        ',',
        '"',
    ] + comp_key() + seq!['"', ':'] + render_bool(t.completed) + seq!['}']
}

// ---------------------------------------------------------------------------
// Parsing
// ---------------------------------------------------------------------------
/// The first position at or after `i` holding no whitespace.
pub open spec fn skip_ws(s: Seq<char>, i: int) -> int
    decreases s.len() - i when 0 <= i <= s.len()
{
    if i < s.len() && is_json_ws(s[i]) {
        skip_ws(s, i + 1)
    } else {
        i
    }
}

/// Four hexadecimal digits starting at `i`, as a value; -1 if absent.
pub open spec fn hex4(s: Seq<char>, i: int) -> int {
    if 0 <= i && i + 4 <= s.len() && hex_val(s[i]) >= 0 && hex_val(s[i + 1]) >= 0 && hex_val(
        s[i + 2],
    ) >= 0 && hex_val(s[i + 3]) >= 0 {
        hex_val(s[i]) * 0x1000 + hex_val(s[i + 1]) * 0x100 + hex_val(s[i + 2]) * 16 + hex_val(
            s[i + 3],
        )
    } else {
        -1
    }
}

/// An escape sequence, entered just after the backslash; the character it
/// stands for and the position after it.  A `\u` escape may be a surrogate
/// pair, which names one character in two halves.
pub open spec fn parse_escape(s: Seq<char>, i: int) -> Option<(char, int)> {
    if !(0 <= i < s.len()) {
        None
    } else if s[i] == '"' {
        Some(('"', i + 1))
    } else if s[i] == '\\' {
        Some(('\\', i + 1))
    } else if s[i] == '/' {
        Some(('/', i + 1))
    } else if s[i] == 'b' {
        Some(('\u{0008}', i + 1))
    } else if s[i] == 'f' {
        Some(('\u{000C}', i + 1))
    } else if s[i] == 'n' {
        Some(('\n', i + 1))
    } else if s[i] == 'r' {
        Some(('\r', i + 1))
    } else if s[i] == 't' {
        Some(('\t', i + 1))
    } else if s[i] == 'u' {
        let code = hex4(s, i + 1);
        if code < 0 {
            None
        } else if 0xD800 <= code < 0xDC00 {
            if i + 7 <= s.len() && s[i + 5] == '\\' && s[i + 6] == 'u' {
                let lo = hex4(s, i + 7);
                if 0xDC00 <= lo < 0xE000 {
                    Some(((0x10000 + (code - 0xD800) * 0x400 + (lo - 0xDC00)) as u32 as char, i + 11))
                } else {
                    None
                }
            } else {
                None
            }
        } else if 0xDC00 <= code < 0xE000 {
            None
        } else {
            Some((code as u32 as char, i + 5))
        }
    } else {
        None
    }
}

/// The body of a string, entered just after the opening quote; the decoded
/// characters and the position after the closing quote.
pub open spec fn parse_string_body(s: Seq<char>, i: int) -> Option<(Seq<char>, int)>
    decreases s.len() - i when 0 <= i
{
    if i >= s.len() {
        None
    } else if s[i] == '"' {
        Some((Seq::empty(), i + 1))
    } else if s[i] == '\\' {
        match parse_escape(s, i + 1) {
            None => None,
            Some((c, j)) => if j <= i + 1 || j > s.len() {
                None
            } else {
                match parse_string_body(s, j) {
                    None => None,
                    Some((t, k)) => Some((seq![c] + t, k)),
                }
            },
        }
    } else if is_control(s[i]) {
        None
    } else {
        match parse_string_body(s, i + 1) {
            None => None,
            Some((t, k)) => Some((seq![s[i]] + t, k)),
        }
    }
}

/// A quoted string starting at `i`.
pub open spec fn parse_string(s: Seq<char>, i: int) -> Option<(Seq<char>, int)> {
    if 0 <= i < s.len() && s[i] == '"' {
        parse_string_body(s, i + 1)
    } else {
        None
    }
}

/// A boolean literal starting at `i`.
pub open spec fn parse_bool(s: Seq<char>, i: int) -> Option<(bool, int)> {
    if 0 <= i && i + 4 <= s.len() && s[i] == 't' && s[i + 1] == 'r' && s[i + 2] == 'u' && s[i + 3]
        == 'e' {
        Some((true, i + 4))
    } else if 0 <= i && i + 5 <= s.len() && s[i] == 'f' && s[i + 1] == 'a' && s[i + 2] == 'l'
        && s[i + 3] == 's' && s[i + 4] == 'e' {
        Some((false, i + 5))
    } else {
        None
    }
}

/// A task object starting at `i`: both members, in either order, each
/// exactly once.
pub open spec fn parse_task(s: Seq<char>, i: int) -> Option<(TaskView, int)> {
    if !(0 <= i < s.len() && s[i] == '{') {
        None
    } else {
        match parse_string(s, skip_ws(s, i + 1)) {
            None => None,
            Some((key1, j1)) => {
                let j2 = skip_ws(s, j1);
                if !(j2 < s.len() && s[j2] == ':') {
                    None
                } else {
                    let j3 = skip_ws(s, j2 + 1);
                    if key1 == desc_key() {
                        match parse_string(s, j3) {
                            None => None,
                            Some((d, j4)) => {
                                let j5 = skip_ws(s, j4);
                                if !(j5 < s.len() && s[j5] == ',') {
                                    None
                                } else {
                                    match parse_string(s, skip_ws(s, j5 + 1)) {
                                        None => None,
                                        Some((key2, j6)) => if key2 != comp_key() {
                                            None
                                        } else {
                                            let j7 = skip_ws(s, j6);
                                            if !(j7 < s.len() && s[j7] == ':') {
                                                None
                                            } else {
                                                match parse_bool(s, skip_ws(s, j7 + 1)) {
                                                    None => None,
                                                    Some((b, j8)) => {
                                                        let j9 = skip_ws(s, j8);
                                                        if j9 < s.len() && s[j9] == '}' {
                                                            Some(
                                                                (
                                                                    TaskView {
                                                                        description: d,
                                                                        completed: b,
                                                                    },
                                                                    j9 + 1,
                                                                ),
                                                            )
                                                        } else {
                                                            None
                                                        }
                                                    },
                                                }
                                            }
                                        },
                                    }
                                }
                            },
                        }
                    } else if key1 == comp_key() {
                        match parse_bool(s, j3) {
                            None => None,
                            Some((b, j4)) => {
                                let j5 = skip_ws(s, j4);
                                if !(j5 < s.len() && s[j5] == ',') {
                                    None
                                } else {
                                    match parse_string(s, skip_ws(s, j5 + 1)) {
                                        None => None,
                                        Some((key2, j6)) => if key2 != desc_key() {
                                            None
                                        } else {
                                            let j7 = skip_ws(s, j6);
                                            if !(j7 < s.len() && s[j7] == ':') {
                                                None
                                            } else {
                                                match parse_string(s, skip_ws(s, j7 + 1)) {
                                                    None => None,
                                                    Some((d, j8)) => {
                                                        let j9 = skip_ws(s, j8);
                                                        if j9 < s.len() && s[j9] == '}' {
                                                            Some(
                                                                (
                                                                    TaskView {
                                                                        description: d,
                                                                        completed: b,
                                                                    },
                                                                    j9 + 1,
                                                                ),
                                                            )
                                                        } else {
                                                            None
                                                        }
                                                    },
                                                }
                                            }
                                        },
                                    }
                                }
                            },
                        }
                    } else {
                        None
                    }
                }
            },
        }
    }
}

/// The elements after the first: either the closing bracket, or a comma and
/// a further task, repeated.
pub open spec fn parse_elems_rest(s: Seq<char>, i: int) -> Option<(Seq<TaskView>, int)>
    decreases s.len() - i when 0 <= i <= s.len()
{
    let j = skip_ws(s, i);
    if j < s.len() && s[j] == ']' {
        Some((Seq::empty(), j + 1))
    } else if j < s.len() && s[j] == ',' {
        match parse_task(s, skip_ws(s, j + 1)) {
            None => None,
            Some((t, m)) => if m <= i || m > s.len() {
                None
            } else {
                match parse_elems_rest(s, m) {
                    None => None,
                    Some((ts, e)) => Some((seq![t] + ts, e)),
                }
            },
        }
    } else {
        None
    }
}

/// A whole document: one array of task objects and nothing after it.
pub open spec fn parse_tasks(s: Seq<char>) -> Option<Seq<TaskView>> {
    let i = skip_ws(s, 0);
    if !(i < s.len() && s[i] == '[') {
        None
    } else {
        let j = skip_ws(s, i + 1);
        if j < s.len() && s[j] == ']' {
            if skip_ws(s, j + 1) == s.len() {
                Some(Seq::empty())
            } else {
                None
            }
        } else {
            match parse_task(s, j) {
                None => None,
                Some((t, k)) => if !(k <= s.len()) {
                    None
                } else {
                    match parse_elems_rest(s, k) {
                        None => None,
                        Some((ts, e)) => if 0 <= e <= s.len() && skip_ws(s, e) == s.len() {
                            Some(seq![t] + ts)
                        } else {
                            None
                        },
                    }
                },
            }
        }
    }
}

// ---------------------------------------------------------------------------
// The round trip: rendered text parses back to the value it came from
// ---------------------------------------------------------------------------
/// `pat` stands letter for letter at position `i` of `text`.
pub open spec fn has_at(text: Seq<char>, i: int, pat: Seq<char>) -> bool {
    &&& 0 <= i
    &&& i + pat.len() <= text.len()
    &&& forall|k: int| 0 <= k < pat.len() ==> text[i + k] == pat[k]
}

proof fn lemma_has_at_concat(text: Seq<char>, i: int, a: Seq<char>, b: Seq<char>)
    requires
        has_at(text, i, a + b),
    ensures
        has_at(text, i, a),
        has_at(text, i + a.len(), b),
{
    assert forall|k: int| 0 <= k < a.len() implies text[i + k] == a[k] by {
        assert((a + b)[k] == a[k]);
    }
    assert forall|k: int| 0 <= k < b.len() implies text[i + a.len() + k] == b[k] by {
        assert((a + b)[a.len() + k] == b[k]);
        assert(text[i + (a.len() + k)] == (a + b)[a.len() + k]);
    }
}

/// Escaping distributes over concatenation.
proof fn lemma_escape_concat(a: Seq<char>, b: Seq<char>)
    ensures
        escape_string(a + b) == escape_string(a) + escape_string(b),
    decreases a.len(),
{
    if a.len() == 0 {
        assert(a + b =~= b);
        assert(escape_string(a) + escape_string(b) =~= escape_string(b));
    } else {
        assert((a + b).skip(1) =~= a.skip(1) + b);
        lemma_escape_concat(a.skip(1), b);
        assert((a + b)[0] == a[0]);
        assert(escape_char(a[0]) + (escape_string(a.skip(1)) + escape_string(b)) =~= (escape_char(
            a[0],
        ) + escape_string(a.skip(1))) + escape_string(b));
    }
}

/// A character that is written as itself inside a JSON string.
pub open spec fn is_plain(c: char) -> bool {
    c != '"' && c != '\\' && !is_control(c)
}

proof fn lemma_escape_plain(s: Seq<char>)
    requires
        forall|k: int| 0 <= k < s.len() ==> is_plain(s[k]),
    ensures
        escape_string(s) == s,
    decreases s.len(),
{
    if s.len() > 0 {
        assert(is_plain(s[0]));
        assert(escape_char(s[0]) == seq![s[0]]);
        lemma_escape_plain(s.skip(1));
        assert(seq![s[0]] + s.skip(1) =~= s);
    }
}

proof fn lemma_hex_digit_val(n: int)
    requires
        0 <= n < 16,
    ensures
        hex_val(hex_digit(n)) == n,
{
}

/// After an opening quote, an escaped string followed by a closing quote
/// parses back to the string itself.
proof fn lemma_parse_escaped_string(text: Seq<char>, i: int, t: Seq<char>)
    requires
        has_at(text, i, escape_string(t) + seq!['"']),
    ensures
        parse_string_body(text, i) == Some((t, i + escape_string(t).len() + 1)),
    decreases t.len(),
{
    if t.len() == 0 {
        assert(text[i] == (escape_string(t) + seq!['"'])[0]);
        assert(text[i] == '"');
        assert(t =~= Seq::<char>::empty());
    } else {
        let c = t[0];
        let e = escape_char(c);
        let r = escape_string(t.skip(1));
        assert(escape_string(t) == e + r);
        assert(escape_string(t) + seq!['"'] =~= e + (r + seq!['"']));
        lemma_has_at_concat(text, i, e, r + seq!['"']);
        lemma_parse_escaped_string(text, i + e.len(), t.skip(1));
        let after = i + escape_string(t).len() + 1;
        assert(i + e.len() + r.len() + 1 == after);
        assert(text[i + 0] == e[0]);
        if c == '"' || c == '\\' {
            assert(text[i] == '\\');
            assert(text[i + 1] == e[1]);
            assert(parse_escape(text, i + 1) == Some((c, i + 2)));
            assert(parse_string_body(text, i) == Some((seq![c] + t.skip(1), after)));
        } else if c == '\n' {
            assert(text[i] == '\\');
            assert(text[i + 1] == e[1]);
            assert(parse_escape(text, i + 1) == Some((c, i + 2)));
        } else if c == '\r' {
            assert(text[i] == '\\');
            assert(text[i + 1] == e[1]);
            assert(parse_escape(text, i + 1) == Some((c, i + 2)));
        } else if c == '\t' {
            assert(text[i] == '\\');
            assert(text[i + 1] == e[1]);
            assert(parse_escape(text, i + 1) == Some((c, i + 2)));
        } else if is_control(c) {
            let v = c as u32 as int;
            assert(0 <= v < 0x20);
            assert(text[i] == '\\');
            assert(text[i + 1] == e[1]);
            assert(text[i + 2] == e[2]);
            assert(text[i + 3] == e[3]);
            assert(text[i + 4] == e[4]);
            assert(text[i + 5] == e[5]);
            assert(text[i + 1] == 'u');
            assert(text[i + 2] == '0');
            assert(text[i + 3] == '0');
            assert(text[i + 4] == hex_digit(v / 16));
            assert(text[i + 5] == hex_digit(v % 16));
            lemma_hex_digit_val(v / 16);
            lemma_hex_digit_val(v % 16);
            assert(hex_val('0') == 0);
            assert(hex4(text, i + 2) == (v / 16) * 16 + v % 16);
            assert((v / 16) * 16 + v % 16 == v);
            assert(hex4(text, i + 2) == v);
            vstd::utf8::char_u32_cast(c, c as u32);
            assert((v as u32 as char) == c);
            assert(parse_escape(text, i + 1) == Some((c, i + 6)));
        } else {
            assert(text[i] == c);
            assert(!is_control(c));
            assert(parse_string_body(text, i) == Some((seq![c] + t.skip(1), after)));
        }
        assert(seq![c] + t.skip(1) =~= t);
    }
}

proof fn lemma_has_at_char(text: Seq<char>, i: int, pat: Seq<char>, k: int)
    requires
        has_at(text, i, pat),
        0 <= k < pat.len(),
    ensures
        text[i + k] == pat[k],
{
}

proof fn lemma_keys_plain()
    ensures
        escape_string(desc_key()) == desc_key(),
        escape_string(comp_key()) == comp_key(),
{
    assert forall|k: int| 0 <= k < desc_key().len() implies is_plain(desc_key()[k]) by {}
    lemma_escape_plain(desc_key());
    assert forall|k: int| 0 <= k < comp_key().len() implies is_plain(comp_key()[k]) by {}
    lemma_escape_plain(comp_key());
}

/// A rendered boolean parses back to itself.
proof fn lemma_parse_rendered_bool(text: Seq<char>, i: int, b: bool)
    requires
        has_at(text, i, render_bool(b)),
    ensures
        parse_bool(text, i) == Some((b, i + render_bool(b).len())),
{
    if b {
        assert(text[i] == 't');
        assert(text[i + 1] == 'r');
        assert(text[i + 2] == 'u');
        assert(text[i + 3] == 'e');
    } else {
        assert(text[i] == 'f');
        assert(text[i + 1] == 'a');
        assert(text[i + 2] == 'l');
        assert(text[i + 3] == 's');
        assert(text[i + 4] == 'e');
    }
}

/// A rendered task object parses back to the task it came from.
#[verifier::rlimit(50)]
proof fn lemma_parse_rendered_task(text: Seq<char>, i: int, t: TaskView)
    requires
        has_at(text, i, render_task_pretty(t)),
    ensures
        parse_task(text, i) == Some((t, i + render_task_pretty(t).len())),
{
    let e = escape_string(t.description);
    let b = render_bool(t.completed);
    let o1 = i + 22;
    let o2 = o1 + e.len();
    let o3 = o2 + 20;
    let o4 = o3 + b.len();
    let head = seq!['{', '\n', ' ', ' ', ' ', ' ', '"'];
    let dtail = seq!['"', ':', ' ', '"'];
    let mhead = seq!['"', ',', '\n', ' ', ' ', ' ', ' ', '"'];
    let mtail = seq!['"', ':', ' '];
    assert(obj_open().len() == 22);
    assert(obj_mid().len() == 20);
    assert(obj_close().len() == 4);
    lemma_has_at_concat(text, i, obj_open() + e + obj_mid() + b, obj_close());
    lemma_has_at_concat(text, i, obj_open() + e + obj_mid(), b);
    lemma_has_at_concat(text, i, obj_open() + e, obj_mid());
    lemma_has_at_concat(text, i, obj_open(), e);
    assert(has_at(text, o1, e));
    assert(has_at(text, o2, obj_mid()));
    assert(has_at(text, o3, b));
    assert(has_at(text, o4, obj_close()));
    lemma_has_at_concat(text, i, head + desc_key(), dtail);
    lemma_has_at_concat(text, i, head, desc_key());
    assert(has_at(text, i + 7, desc_key()));
    assert(has_at(text, i + 18, dtail));
    lemma_has_at_concat(text, o2, mhead + comp_key(), mtail);
    lemma_has_at_concat(text, o2, mhead, comp_key());
    assert(has_at(text, o2 + 8, comp_key()));
    assert(has_at(text, o2 + 17, mtail));
    // the opening brace and the whitespace after it
    lemma_has_at_char(text, i, head, 0);
    lemma_has_at_char(text, i, head, 1);
    lemma_has_at_char(text, i, head, 2);
    lemma_has_at_char(text, i, head, 3);
    lemma_has_at_char(text, i, head, 4);
    lemma_has_at_char(text, i, head, 5);
    lemma_has_at_char(text, i, head, 6);
    assert(text[i + 0] == '{');
    assert(text[i + 6] == '"');
    assert(skip_ws(text, i + 1) == skip_ws(text, i + 2));
    assert(skip_ws(text, i + 2) == skip_ws(text, i + 3));
    assert(skip_ws(text, i + 3) == skip_ws(text, i + 4));
    assert(skip_ws(text, i + 4) == skip_ws(text, i + 5));
    assert(skip_ws(text, i + 5) == skip_ws(text, i + 6));
    assert(skip_ws(text, i + 6) == i + 6);
    // the description key
    lemma_keys_plain();
    assert forall|k: int| 0 <= k < (desc_key() + seq!['"']).len() implies text[i + 7 + k] == (
    desc_key() + seq!['"'])[k] by {
        if k < 11 {
            lemma_has_at_char(text, i + 7, desc_key(), k);
        } else {
            lemma_has_at_char(text, i + 18, dtail, 0);
        }
    }
    assert(has_at(text, i + 7, desc_key() + seq!['"']));
    lemma_parse_escaped_string(text, i + 7, desc_key());
    assert(parse_string(text, i + 6) == Some((desc_key(), i + 19)));
    // the colon and the quote that opens the value
    lemma_has_at_char(text, i + 18, dtail, 1);
    lemma_has_at_char(text, i + 18, dtail, 2);
    lemma_has_at_char(text, i + 18, dtail, 3);
    assert(text[i + 19] == ':');
    assert(text[i + 21] == '"');
    assert(skip_ws(text, i + 19) == i + 19);
    assert(skip_ws(text, i + 20) == skip_ws(text, i + 21));
    assert(skip_ws(text, i + 21) == i + 21);
    // the description value
    assert forall|k: int| 0 <= k < (e + seq!['"']).len() implies text[o1 + k] == (e + seq!['"'])[k]
        by {
        if k < e.len() {
            lemma_has_at_char(text, o1, e, k);
        } else {
            lemma_has_at_char(text, o2, mhead, 0);
        }
    }
    assert(has_at(text, o1, e + seq!['"']));
    lemma_parse_escaped_string(text, o1, t.description);
    assert(parse_string(text, i + 21) == Some((t.description, o2 + 1)));
    // the comma and the whitespace before the second key
    lemma_has_at_char(text, o2, mhead, 1);
    lemma_has_at_char(text, o2, mhead, 2);
    lemma_has_at_char(text, o2, mhead, 3);
    lemma_has_at_char(text, o2, mhead, 4);
    lemma_has_at_char(text, o2, mhead, 5);
    lemma_has_at_char(text, o2, mhead, 6);
    lemma_has_at_char(text, o2, mhead, 7);
    assert(text[o2 + 1] == ',');
    assert(text[o2 + 7] == '"');
    assert(skip_ws(text, o2 + 1) == o2 + 1);
    assert(skip_ws(text, o2 + 2) == skip_ws(text, o2 + 3));
    assert(skip_ws(text, o2 + 3) == skip_ws(text, o2 + 4));
    assert(skip_ws(text, o2 + 4) == skip_ws(text, o2 + 5));
    assert(skip_ws(text, o2 + 5) == skip_ws(text, o2 + 6));
    assert(skip_ws(text, o2 + 6) == skip_ws(text, o2 + 7));
    assert(skip_ws(text, o2 + 7) == o2 + 7);
    // the completed key
    assert forall|k: int| 0 <= k < (comp_key() + seq!['"']).len() implies text[o2 + 8 + k] == (
    comp_key() + seq!['"'])[k] by {
        if k < 9 {
            lemma_has_at_char(text, o2 + 8, comp_key(), k);
        } else {
            lemma_has_at_char(text, o2 + 17, mtail, 0);
        }
    }
    assert(has_at(text, o2 + 8, comp_key() + seq!['"']));
    lemma_parse_escaped_string(text, o2 + 8, comp_key());
    assert(parse_string(text, o2 + 7) == Some((comp_key(), o2 + 18)));
    // the colon and the space before the boolean
    lemma_has_at_char(text, o2 + 17, mtail, 1);
    lemma_has_at_char(text, o2 + 17, mtail, 2);
    assert(text[o2 + 18] == ':');
    assert(skip_ws(text, o2 + 18) == o2 + 18);
    assert(skip_ws(text, o2 + 19) == skip_ws(text, o2 + 20));
    if t.completed {
        lemma_has_at_char(text, o3, b, 0);
        assert(text[o3 + 0] == 't');
    } else {
        lemma_has_at_char(text, o3, b, 0);
        assert(text[o3 + 0] == 'f');
    }
    assert(!is_json_ws(text[o3]));
    assert(skip_ws(text, o3) == o3);
    // the boolean value
    lemma_parse_rendered_bool(text, o3, t.completed);
    // the closing whitespace and brace
    lemma_has_at_char(text, o4, obj_close(), 0);
    lemma_has_at_char(text, o4, obj_close(), 1);
    lemma_has_at_char(text, o4, obj_close(), 2);
    lemma_has_at_char(text, o4, obj_close(), 3);
    assert(text[o4 + 3] == '}');
    assert(skip_ws(text, o4) == skip_ws(text, o4 + 1));
    assert(skip_ws(text, o4 + 1) == skip_ws(text, o4 + 2));
    assert(skip_ws(text, o4 + 2) == skip_ws(text, o4 + 3));
    assert(skip_ws(text, o4 + 3) == o4 + 3);
    assert(TaskView { description: t.description, completed: t.completed } =~= t);
    assert(o4 + 4 == i + render_task_pretty(t).len());
    assert(parse_task(text, i) == Some((t, o4 + 4)));
}

/// The rendered tail of the array parses back to the tasks it came from.
proof fn lemma_parse_rendered_rest(text: Seq<char>, i: int, ts: Seq<TaskView>)
    requires
        has_at(text, i, render_rest(ts) + seq!['\n', ']']),
    ensures
        parse_elems_rest(text, i) == Some((ts, i + render_rest(ts).len() + 2)),
    decreases ts.len(),
{
    let tail = seq!['\n', ']'];
    if ts.len() == 0 {
        assert(render_rest(ts) + tail =~= tail);
        lemma_has_at_char(text, i, render_rest(ts) + tail, 0);
        lemma_has_at_char(text, i, render_rest(ts) + tail, 1);
        assert(text[i + 0] == '\n');
        assert(text[i + 1] == ']');
        assert(skip_ws(text, i) == skip_ws(text, i + 1));
        assert(skip_ws(text, i + 1) == i + 1);
        assert(ts =~= Seq::<TaskView>::empty());
    } else {
        let sep = seq![',', '\n', ' ', ' '];
        let item = render_task_pretty(ts[0]);
        let rest = render_rest(ts.skip(1));
        assert(render_rest(ts) == sep + item + rest);
        assert(render_rest(ts) + tail =~= (sep + item) + (rest + tail));
        lemma_has_at_concat(text, i, sep + item, rest + tail);
        lemma_has_at_concat(text, i, sep, item);
        assert(has_at(text, i + 4, item));
        let m = i + 4 + item.len();
        assert(has_at(text, m, rest + tail));
        lemma_has_at_char(text, i, sep, 0);
        lemma_has_at_char(text, i, sep, 1);
        lemma_has_at_char(text, i, sep, 2);
        lemma_has_at_char(text, i, sep, 3);
        lemma_has_at_char(text, i + 4, item, 0);
        assert(text[i + 4] == '{');
        assert(text[i + 0] == ',');
        assert(skip_ws(text, i) == i);
        assert(skip_ws(text, i + 1) == skip_ws(text, i + 2));
        assert(skip_ws(text, i + 2) == skip_ws(text, i + 3));
        assert(skip_ws(text, i + 3) == skip_ws(text, i + 4));
        assert(skip_ws(text, i + 4) == i + 4);
        lemma_parse_rendered_task(text, i + 4, ts[0]);
        lemma_parse_rendered_rest(text, m, ts.skip(1));
        assert(seq![ts[0]] + ts.skip(1) =~= ts);
        assert(parse_elems_rest(text, i) == Some((ts, i + render_rest(ts).len() + 2)));
    }
}

/// A rendered document, standing alone in `text`, parses back to its tasks.
proof fn lemma_parse_rendered_doc(text: Seq<char>, ts: Seq<TaskView>)
    requires
        has_at(text, 0, render_tasks(ts)),
        text.len() == render_tasks(ts).len(),
    ensures
        parse_tasks(text) == Some(ts),
{
    if ts.len() == 0 {
        lemma_has_at_char(text, 0, render_tasks(ts), 0);
        lemma_has_at_char(text, 0, render_tasks(ts), 1);
        assert(text[0int + 0] == '[');
        assert(text[0int + 1] == ']');
        assert(skip_ws(text, 0) == 0);
        assert(skip_ws(text, 1) == 1);
        assert(skip_ws(text, 2) == 2);
        assert(ts =~= Seq::<TaskView>::empty());
    } else {
        let hd = seq!['[', '\n', ' ', ' '];
        let item = render_task_pretty(ts[0]);
        let rest = render_rest(ts.skip(1));
        let tail = seq!['\n', ']'];
        assert(render_tasks(ts) == hd + item + rest + tail);
        assert(render_tasks(ts) =~= (hd + item) + (rest + tail));
        lemma_has_at_concat(text, 0, hd + item, rest + tail);
        lemma_has_at_concat(text, 0, hd, item);
        let m: int = 4 + item.len() as int;
        assert(has_at(text, 4, item));
        assert(has_at(text, m, rest + tail));
        lemma_has_at_char(text, 0, hd, 0);
        lemma_has_at_char(text, 0, hd, 1);
        lemma_has_at_char(text, 0, hd, 2);
        lemma_has_at_char(text, 0, hd, 3);
        lemma_has_at_char(text, 4, item, 0);
        assert(text[0int + 0] == '[');
        assert(text[4int + 0] == '{');
        assert(skip_ws(text, 0) == 0);
        assert(skip_ws(text, 1) == skip_ws(text, 2));
        assert(skip_ws(text, 2) == skip_ws(text, 3));
        assert(skip_ws(text, 3) == skip_ws(text, 4));
        assert(skip_ws(text, 4) == 4);
        lemma_parse_rendered_task(text, 4, ts[0]);
        lemma_parse_rendered_rest(text, m, ts.skip(1));
        assert(m + rest.len() + 2 == text.len());
        assert(skip_ws(text, text.len() as int) == text.len());
        assert(seq![ts[0]] + ts.skip(1) =~= ts);
        assert(parse_tasks(text) == Some(ts));
    }
}

/// A task rendered on a single line parses back to the task it came from.
#[verifier::rlimit(50)]
proof fn lemma_parse_compact_task(text: Seq<char>, i: int, t: TaskView)
    requires
        has_at(text, i, render_task_compact(t)),
    ensures
        parse_task(text, i) == Some((t, i + render_task_compact(t).len())),
{
    let e = escape_string(t.description);
    let b = render_bool(t.completed);
    let o2 = i + 16 + e.len();
    let o3 = o2 + 14;
    let o4 = o3 + b.len();
    let a0 = seq!['{', '"'];
    let a1 = seq!['"', ':', '"'];
    let a2 = seq!['"', ',', '"'];
    let a3 = seq!['"', ':'];
    let a4 = seq!['}'];
    lemma_has_at_concat(
        text,
        i,
        a0 + desc_key() + a1 + e + a2 + comp_key() + a3 + b,
        a4,
    );
    lemma_has_at_concat(text, i, a0 + desc_key() + a1 + e + a2 + comp_key() + a3, b);
    lemma_has_at_concat(text, i, a0 + desc_key() + a1 + e + a2 + comp_key(), a3);
    lemma_has_at_concat(text, i, a0 + desc_key() + a1 + e + a2, comp_key());
    lemma_has_at_concat(text, i, a0 + desc_key() + a1 + e, a2);
    lemma_has_at_concat(text, i, a0 + desc_key() + a1, e);
    lemma_has_at_concat(text, i, a0 + desc_key(), a1);
    lemma_has_at_concat(text, i, a0, desc_key());
    assert(has_at(text, i + 2, desc_key()));
    assert(has_at(text, i + 13, a1));
    assert(has_at(text, i + 16, e));
    assert(has_at(text, o2, a2));
    assert(has_at(text, o2 + 3, comp_key()));
    assert(has_at(text, o2 + 12, a3));
    assert(has_at(text, o3, b));
    assert(has_at(text, o4, a4));
    lemma_has_at_char(text, i, a0, 0);
    lemma_has_at_char(text, i, a0, 1);
    assert(text[i + 0] == '{');
    assert(text[i + 1] == '"');
    assert(skip_ws(text, i + 1) == i + 1);
    // the description key
    lemma_keys_plain();
    assert forall|k: int| 0 <= k < (desc_key() + seq!['"']).len() implies text[i + 2 + k] == (
    desc_key() + seq!['"'])[k] by {
        if k < 11 {
            lemma_has_at_char(text, i + 2, desc_key(), k);
        } else {
            lemma_has_at_char(text, i + 13, a1, 0);
        }
    }
    assert(has_at(text, i + 2, desc_key() + seq!['"']));
    lemma_parse_escaped_string(text, i + 2, desc_key());
    assert(parse_string(text, i + 1) == Some((desc_key(), i + 14)));
    // the colon and the quote that opens the value
    lemma_has_at_char(text, i + 13, a1, 1);
    lemma_has_at_char(text, i + 13, a1, 2);
    assert(text[i + 14] == ':');
    assert(text[i + 15] == '"');
    assert(skip_ws(text, i + 14) == i + 14);
    assert(skip_ws(text, i + 15) == i + 15);
    // the description value
    assert forall|k: int| 0 <= k < (e + seq!['"']).len() implies text[i + 16 + k] == (e
        + seq!['"'])[k] by {
        if k < e.len() {
            lemma_has_at_char(text, i + 16, e, k);
        } else {
            lemma_has_at_char(text, o2, a2, 0);
        }
    }
    assert(has_at(text, i + 16, e + seq!['"']));
    lemma_parse_escaped_string(text, i + 16, t.description);
    assert(parse_string(text, i + 15) == Some((t.description, o2 + 1)));
    // the comma and the completed key
    lemma_has_at_char(text, o2, a2, 1);
    lemma_has_at_char(text, o2, a2, 2);
    assert(text[o2 + 1] == ',');
    assert(text[o2 + 2] == '"');
    assert(skip_ws(text, o2 + 1) == o2 + 1);
    assert(skip_ws(text, o2 + 2) == o2 + 2);
    assert forall|k: int| 0 <= k < (comp_key() + seq!['"']).len() implies text[o2 + 3 + k] == (
    comp_key() + seq!['"'])[k] by {
        if k < 9 {
            lemma_has_at_char(text, o2 + 3, comp_key(), k);
        } else {
            lemma_has_at_char(text, o2 + 12, a3, 0);
        }
    }
    assert(has_at(text, o2 + 3, comp_key() + seq!['"']));
    lemma_parse_escaped_string(text, o2 + 3, comp_key());
    assert(parse_string(text, o2 + 2) == Some((comp_key(), o2 + 13)));
    // the colon and the boolean
    lemma_has_at_char(text, o2 + 12, a3, 1);
    assert(text[o2 + 13] == ':');
    assert(skip_ws(text, o2 + 13) == o2 + 13);
    if t.completed {
        lemma_has_at_char(text, o3, b, 0);
        assert(text[o3 + 0] == 't');
    } else {
        lemma_has_at_char(text, o3, b, 0);
        assert(text[o3 + 0] == 'f');
    }
    assert(!is_json_ws(text[o3]));
    assert(skip_ws(text, o3) == o3);
    lemma_parse_rendered_bool(text, o3, t.completed);
    // the closing brace
    lemma_has_at_char(text, o4, a4, 0);
    assert(text[o4 + 0] == '}');
    assert(skip_ws(text, o4) == o4);
    assert(TaskView { description: t.description, completed: t.completed } =~= t);
    assert(o4 + 1 == i + render_task_compact(t).len());
    assert(parse_task(text, i) == Some((t, o4 + 1)));
}

/// The round trip for one task on its own: the single-line object rendered
/// for any task parses back to exactly that task.
pub proof fn lemma_task_round_trip(t: TaskView)
    ensures
        parse_task_text(render_task_compact(t)) == Some(t),
{
    let text = render_task_compact(t);
    assert forall|k: int| 0 <= k < text.len() implies #[trigger] text[0 + k] == text[k] by {}
    assert(has_at(text, 0, text));
    lemma_has_at_char(text, 0, text, 0);
    assert(text[0int + 0] == '{');
    assert(skip_ws(text, 0) == 0);
    lemma_parse_compact_task(text, 0, t);
    assert(skip_ws(text, text.len() as int) == text.len());
}

/// The round trip: the document rendered for any sequence of tasks parses
/// back to exactly that sequence, whatever the descriptions hold.
pub proof fn lemma_parse_render_round_trip(ts: Seq<TaskView>)
    ensures
        parse_tasks(render_tasks(ts)) == Some(ts),
{
    let text = render_tasks(ts);
    assert forall|k: int| 0 <= k < text.len() implies #[trigger] text[0 + k] == text[k] by {}
    assert(has_at(text, 0, text));
    lemma_parse_rendered_doc(text, ts);
}

/// A whole document holding exactly one task object.
pub open spec fn parse_task_text(s: Seq<char>) -> Option<TaskView> {
    match parse_task(s, skip_ws(s, 0)) {
        None => None,
        Some((t, j)) => if 0 <= j <= s.len() && skip_ws(s, j) == s.len() {
            Some(t)
        } else {
            None
        },
    }
}

// ---------------------------------------------------------------------------
// Executable reading
// ---------------------------------------------------------------------------
/// Relies on `String::push`: appends exactly the one character.
#[verifier::external_body]
fn push_char(s: &mut String, c: char)
    ensures
        final(s)@ == old(s)@.push(c),
{
    s.push(c);
}

/// Relies on `char::from_u32`: `Some` exactly on Unicode scalar values, and
/// the character returned carries the code point asked for.
#[verifier::external_body]
fn char_from_u32(v: u32) -> (r: Option<char>)
    ensures
        r is Some <==> (v < 0xD800 || (0xE000 <= v && v < 0x110000)),
        r matches Some(c) ==> c as u32 == v,
{
    char::from_u32(v)
}

/// The characters of a string, in order.
pub(crate) fn chars_of(s: &str) -> (r: Vec<char>)
    ensures
        r@ == s@,
{
    broadcast use vstd::string::next_postcondition;

    let mut it = s.chars();
    let mut r: Vec<char> = Vec::new();
    loop
        invariant
            r@ + vstd::std_specs::iter::IteratorSpec::remaining(&it) == s@,
            vstd::std_specs::iter::IteratorSpec::obeys_prophetic_iter_laws(&it),
            vstd::std_specs::iter::IteratorSpec::decrease(&it) is Some,
        ensures
            r@ == s@,
        decreases vstd::std_specs::iter::IteratorSpec::decrease(&it)->0,
    {
        match it.next() {
            Some(c) => {
                r.push(c);
            },
            None => {
                proof {
                    assert(r@ =~= s@);
                }
                break;
            },
        }
    }
    r
}

/// A string built back from its characters.
fn string_from_chars(v: &Vec<char>) -> (r: String)
    ensures
        r@ == v@,
{
    let mut r = String::new();
    let mut k: usize = 0;
    while k < v.len()
        invariant
            k <= v.len(),
            r@ == v@.take(k as int),
        decreases v.len() - k,
    {
        push_char(&mut r, v[k]);
        proof {
            assert(v@.take(k as int + 1) =~= v@.take(k as int).push(v@[k as int]));
        }
        k += 1;
    }
    proof {
        assert(v@.take(v.len() as int) =~= v@);
    }
    r
}

fn ws_at(s: &Vec<char>, i: usize) -> (r: bool)
    requires
        i < s.len(),
    ensures
        r == is_json_ws(s@[i as int]),
{
    let c = s[i];
    c == ' ' || c == '\t' || c == '\n' || c == '\r'
}

fn scan_ws(s: &Vec<char>, i: usize) -> (r: usize)
    requires
        i <= s.len(),
    ensures
        r as int == skip_ws(s@, i as int),
        i <= r <= s.len(),
    decreases s.len() - i,
{
    if i < s.len() && ws_at(s, i) {
        scan_ws(s, i + 1)
    } else {
        i
    }
}

fn hex_value(c: char) -> (r: i32)
    ensures
        r as int == hex_val(c),
{
    let v = c as u32;
    if 0x30 <= v && v <= 0x39 {
        (v - 0x30) as i32
    } else if 0x61 <= v && v <= 0x66 {
        (v - 0x57) as i32
    } else if 0x41 <= v && v <= 0x46 {
        (v - 0x37) as i32
    } else {
        -1
    }
}

fn scan_hex4(s: &Vec<char>, i: usize) -> (r: i32)
    ensures
        r as int == hex4(s@, i as int),
{
    if s.len() >= 4 && i <= s.len() - 4 {
        let a = hex_value(s[i]);
        let b = hex_value(s[i + 1]);
        let c = hex_value(s[i + 2]);
        let d = hex_value(s[i + 3]);
        if a >= 0 && b >= 0 && c >= 0 && d >= 0 {
            a * 0x1000 + b * 0x100 + c * 16 + d
        } else {
            -1
        }
    } else {
        -1
    }
}

fn scan_escape(s: &Vec<char>, i: usize) -> (r: Option<(char, usize)>)
    requires
        i <= s.len(),
    ensures
        match (r, parse_escape(s@, i as int)) {
            (None, None) => true,
            (Some((c, j)), Some((cs, js))) => c == cs && j as int == js,
            _ => false,
        },
        r matches Some((c, j)) ==> i < j <= s.len(),
{
    if i >= s.len() {
        return None;
    }
    let c = s[i];
    if c == '"' {
        Some(('"', i + 1))
    } else if c == '\\' {
        Some(('\\', i + 1))
    } else if c == '/' {
        Some(('/', i + 1))
    } else if c == 'b' {
        Some(('\u{0008}', i + 1))
    } else if c == 'f' {
        Some(('\u{000C}', i + 1))
    } else if c == 'n' {
        Some(('\n', i + 1))
    } else if c == 'r' {
        Some(('\r', i + 1))
    } else if c == 't' {
        Some(('\t', i + 1))
    } else if c == 'u' {
        let code = scan_hex4(s, i + 1);
        if code < 0 {
            None
        } else if 0xD800 <= code && code < 0xDC00 {
            if s.len() >= 7 && i <= s.len() - 7 && s[i + 5] == '\\' && s[i + 6] == 'u' {
                let lo = scan_hex4(s, i + 7);
                if 0xDC00 <= lo && lo < 0xE000 {
                    let v = 0x10000 + (code as u32 - 0xD800) * 0x400 + (lo as u32 - 0xDC00);
                    match char_from_u32(v) {
                        Some(c2) => {
                            proof {
                                vstd::utf8::char_u32_cast(c2, v);
                            }
                            Some((c2, i + 11))
                        },
                        None => {
                            proof {
                                assert(false);
                            }
                            None
                        },
                    }
                } else {
                    None
                }
            } else {
                None
            }
        } else if 0xDC00 <= code && code < 0xE000 {
            None
        } else {
            match char_from_u32(code as u32) {
                Some(c2) => {
                    proof {
                        vstd::utf8::char_u32_cast(c2, code as u32);
                    }
                    Some((c2, i + 5))
                },
                None => {
                    proof {
                        assert(false);
                    }
                    None
                },
            }
        }
    } else {
        None
    }
}

fn scan_string_body(s: &Vec<char>, i: usize) -> (r: Option<(Vec<char>, usize)>)
    requires
        i <= s.len(),
    ensures
        match (r, parse_string_body(s@, i as int)) {
            (None, None) => true,
            (Some(p), Some(q)) => p.0@ == q.0 && p.1 as int == q.1,
            _ => false,
        },
        r matches Some(p) ==> i < p.1 <= s.len(),
    decreases s.len() - i,
{
    if i >= s.len() {
        return None;
    }
    let c = s[i];
    if c == '"' {
        let v: Vec<char> = Vec::new();
        Some((v, i + 1))
    } else if c == '\\' {
        match scan_escape(s, i + 1) {
            None => None,
            Some((c2, j)) => {
                if j <= i + 1 || j > s.len() {
                    None
                } else {
                    match scan_string_body(s, j) {
                        None => None,
                        Some((t, k)) => {
                            let mut t2 = t;
                            t2.insert(0, c2);
                            proof {
                                assert(t2@ =~= seq![c2] + t@);
                            }
                            Some((t2, k))
                        },
                    }
                }
            },
        }
    } else if (c as u32) < 0x20 {
        None
    } else {
        match scan_string_body(s, i + 1) {
            None => None,
            Some((t, k)) => {
                let mut t2 = t;
                t2.insert(0, c);
                proof {
                    assert(t2@ =~= seq![c] + t@);
                }
                Some((t2, k))
            },
        }
    }
}

fn scan_string(s: &Vec<char>, i: usize) -> (r: Option<(Vec<char>, usize)>)
    requires
        i <= s.len(),
    ensures
        match (r, parse_string(s@, i as int)) {
            (None, None) => true,
            (Some(p), Some(q)) => p.0@ == q.0 && p.1 as int == q.1,
            _ => false,
        },
        r matches Some(p) ==> i < p.1 <= s.len(),
{
    if i < s.len() && s[i] == '"' {
        scan_string_body(s, i + 1)
    } else {
        None
    }
}

fn scan_bool(s: &Vec<char>, i: usize) -> (r: Option<(bool, usize)>)
    requires
        i <= s.len(),
    ensures
        match (r, parse_bool(s@, i as int)) {
            (None, None) => true,
            (Some((b, j)), Some((bs, js))) => b == bs && j as int == js,
            _ => false,
        },
        r matches Some(p) ==> i < p.1 <= s.len(),
{
    if s.len() >= 4 && i <= s.len() - 4 && s[i] == 't' && s[i + 1] == 'r' && s[i + 2] == 'u' && s[i
        + 3] == 'e' {
        Some((true, i + 4))
    } else if s.len() >= 5 && i <= s.len() - 5 && s[i] == 'f' && s[i + 1] == 'a' && s[i + 2] == 'l'
        && s[i + 3] == 's' && s[i + 4] == 'e' {
        Some((false, i + 5))
    } else {
        None
    }
}

fn vec_chars_eq(a: &Vec<char>, b: &Vec<char>) -> (r: bool)
    ensures
        r == (a@ == b@),
{
    if a.len() != b.len() {
        return false;
    }
    let mut k: usize = 0;
    while k < a.len()
        invariant
            k <= a.len(),
            a.len() == b.len(),
            forall|j: int| 0 <= j < k ==> a@[j] == b@[j],
        decreases a.len() - k,
    {
        if a[k] != b[k] {
            return false;
        }
        k += 1;
    }
    proof {
        assert(a@ =~= b@);
    }
    true
}

fn key_desc() -> (r: Vec<char>)
    ensures
        r@ == desc_key(),
{
    let r = chars_of("description");
    proof {
        reveal_strlit("description");
        assert("description"@ =~= desc_key());
    }
    r
}

fn key_comp() -> (r: Vec<char>)
    ensures
        r@ == comp_key(),
{
    let r = chars_of("completed");
    proof {
        reveal_strlit("completed");
        assert("completed"@ =~= comp_key());
    }
    r
}

#[verifier::rlimit(50)]
fn scan_task(s: &Vec<char>, i: usize) -> (r: Option<(Task, usize)>)
    requires
        i <= s.len(),
    ensures
        match (r, parse_task(s@, i as int)) {
            (None, None) => true,
            (Some(p), Some(q)) => p.0@ == q.0 && p.1 as int == q.1,
            _ => false,
        },
        r matches Some(p) ==> i < p.1 <= s.len(),
{
    if !(i < s.len() && s[i] == '{') {
        return None;
    }
    let j = scan_ws(s, i + 1);
    let kd = key_desc();
    let kc = key_comp();
    match scan_string(s, j) {
        None => None,
        Some((key1, j1)) => {
            let j2 = scan_ws(s, j1);
            if !(j2 < s.len() && s[j2] == ':') {
                return None;
            }
            let j3 = scan_ws(s, j2 + 1);
            if vec_chars_eq(&key1, &kd) {
                match scan_string(s, j3) {
                    None => None,
                    Some((d, j4)) => {
                        let j5 = scan_ws(s, j4);
                        if !(j5 < s.len() && s[j5] == ',') {
                            return None;
                        }
                        match scan_string(s, scan_ws(s, j5 + 1)) {
                            None => None,
                            Some((key2, j6)) => {
                                if !vec_chars_eq(&key2, &kc) {
                                    return None;
                                }
                                let j7 = scan_ws(s, j6);
                                if !(j7 < s.len() && s[j7] == ':') {
                                    return None;
                                }
                                match scan_bool(s, scan_ws(s, j7 + 1)) {
                                    None => None,
                                    Some((b, j8)) => {
                                        let j9 = scan_ws(s, j8);
                                        if j9 < s.len() && s[j9] == '}' {
                                            let t = Task {
                                                description: string_from_chars(&d),
                                                completed: b,
                                            };
                                            proof {
                                                assert(t@ =~= parse_task(
                                                    s@,
                                                    i as int,
                                                ).unwrap().0);
                                            }
                                            Some((t, j9 + 1))
                                        } else {
                                            None
                                        }
                                    },
                                }
                            },
                        }
                    },
                }
            } else if vec_chars_eq(&key1, &kc) {
                match scan_bool(s, j3) {
                    None => None,
                    Some((b, j4)) => {
                        let j5 = scan_ws(s, j4);
                        if !(j5 < s.len() && s[j5] == ',') {
                            return None;
                        }
                        match scan_string(s, scan_ws(s, j5 + 1)) {
                            None => None,
                            Some((key2, j6)) => {
                                if !vec_chars_eq(&key2, &kd) {
                                    return None;
                                }
                                let j7 = scan_ws(s, j6);
                                if !(j7 < s.len() && s[j7] == ':') {
                                    return None;
                                }
                                match scan_string(s, scan_ws(s, j7 + 1)) {
                                    None => None,
                                    Some((d, j8)) => {
                                        let j9 = scan_ws(s, j8);
                                        if j9 < s.len() && s[j9] == '}' {
                                            let t = Task {
                                                description: string_from_chars(&d),
                                                completed: b,
                                            };
                                            proof {
                                                assert(t@ =~= parse_task(
                                                    s@,
                                                    i as int,
                                                ).unwrap().0);
                                            }
                                            Some((t, j9 + 1))
                                        } else {
                                            None
                                        }
                                    },
                                }
                            },
                        }
                    },
                }
            } else {
                None
            }
        },
    }
}

proof fn lemma_task_views_prepend(t: Task, ts: Seq<Task>)
    ensures
        task_views(seq![t] + ts) == seq![t@] + task_views(ts),
{
    assert(task_views(seq![t] + ts) =~= seq![t@] + task_views(ts));
}

fn scan_elems_rest(s: &Vec<char>, i: usize) -> (r: Option<(Vec<Task>, usize)>)
    requires
        i <= s.len(),
    ensures
        match (r, parse_elems_rest(s@, i as int)) {
            (None, None) => true,
            (Some(p), Some(q)) => task_views(p.0@) == q.0 && p.1 as int == q.1,
            _ => false,
        },
        r matches Some(p) ==> p.1 <= s.len(),
    decreases s.len() - i,
{
    let j = scan_ws(s, i);
    if j < s.len() && s[j] == ']' {
        let v: Vec<Task> = Vec::new();
        proof {
            assert(task_views(v@) =~= Seq::<TaskView>::empty());
        }
        Some((v, j + 1))
    } else if j < s.len() && s[j] == ',' {
        match scan_task(s, scan_ws(s, j + 1)) {
            None => None,
            Some((t, m)) => {
                if m <= i || m > s.len() {
                    None
                } else {
                    match scan_elems_rest(s, m) {
                        None => None,
                        Some((ts, e)) => {
                            let mut ts2 = ts;
                            let ghost tail = ts2@;
                            ts2.insert(0, t);
                            proof {
                                assert(ts2@ =~= seq![t] + tail);
                                lemma_task_views_prepend(t, tail);
                            }
                            Some((ts2, e))
                        },
                    }
                }
            },
        }
    } else {
        None
    }
}

/// Reads a whole document: `Some` exactly on well-formed text, holding the
/// tasks written there in order.
pub fn parse_document(s: &str) -> (r: Option<Vec<Task>>)
    ensures
        match (r, parse_tasks(s@)) {
            (None, None) => true,
            (Some(v), Some(m)) => task_views(v@) == m,
            _ => false,
        },
{
    let cs = chars_of(s);
    let i = scan_ws(&cs, 0);
    if !(i < cs.len() && cs[i] == '[') {
        return None;
    }
    let j = scan_ws(&cs, i + 1);
    if j < cs.len() && cs[j] == ']' {
        if scan_ws(&cs, j + 1) == cs.len() {
            let v: Vec<Task> = Vec::new();
            proof {
                assert(task_views(v@) =~= Seq::<TaskView>::empty());
            }
            Some(v)
        } else {
            None
        }
    } else {
        match scan_task(&cs, j) {
            None => None,
            Some((t, k)) => {
                if k > cs.len() {
                    return None;
                }
                match scan_elems_rest(&cs, k) {
                    None => None,
                    Some((ts, e)) => {
                        if scan_ws(&cs, e) == cs.len() {
                            let mut ts2 = ts;
                            let ghost tail = ts2@;
                            ts2.insert(0, t);
                            proof {
                                assert(ts2@ =~= seq![t] + tail);
                                lemma_task_views_prepend(t, tail);
                            }
                            Some(ts2)
                        } else {
                            None
                        }
                    },
                }
            },
        }
    }
}

// ---------------------------------------------------------------------------
// Executable writing
// ---------------------------------------------------------------------------
fn push_hex_digit(out: &mut String, n: u32)
    requires
        n < 16,
    ensures
        final(out)@ == old(out)@.push(hex_digit(n as int)),
{
    let c = if n == 0 {
        '0'
    } else if n == 1 {
        '1'
    } else if n == 2 {
        '2'
    } else if n == 3 {
        '3'
    } else if n == 4 {
        '4'
    } else if n == 5 {
        '5'
    } else if n == 6 {
        '6'
    } else if n == 7 {
        '7'
    } else if n == 8 {
        '8'
    } else if n == 9 {
        '9'
    } else if n == 10 {
        'a'
    } else if n == 11 {
        'b'
    } else if n == 12 {
        'c'
    } else if n == 13 {
        'd'
    } else if n == 14 {
        'e'
    } else {
        'f'
    };
    push_char(out, c);
}

/// Writes the characters of `d`, escaped as the format asks.
fn write_escaped(out: &mut String, d: &str)
    ensures
        final(out)@ == old(out)@ + escape_string(d@),
{
    let cs = chars_of(d);
    let ghost orig = out@;
    let mut k: usize = 0;
    proof {
        assert(cs@.take(0) =~= Seq::<char>::empty());
        assert(orig + escape_string(cs@.take(0)) =~= orig);
    }
    while k < cs.len()
        invariant
            k <= cs.len(),
            cs@ == d@,
            out@ == orig + escape_string(cs@.take(k as int)),
        decreases cs.len() - k,
    {
        let ghost pre = out@;
        let c = cs[k];
        if c == '"' {
            push_char(out, '\\');
            push_char(out, '"');
            proof {
                assert(out@ =~= pre + escape_char(c));
            }
        } else if c == '\\' {
            push_char(out, '\\');
            push_char(out, '\\');
            proof {
                assert(out@ =~= pre + escape_char(c));
            }
        } else if c == '\n' {
            push_char(out, '\\');
            push_char(out, 'n');
            proof {
                assert(out@ =~= pre + escape_char(c));
            }
        } else if c == '\r' {
            push_char(out, '\\');
            push_char(out, 'r');
            proof {
                assert(out@ =~= pre + escape_char(c));
            }
        } else if c == '\t' {
            push_char(out, '\\');
            push_char(out, 't');
            proof {
                assert(out@ =~= pre + escape_char(c));
            }
        } else if (c as u32) < 0x20 {
            let v = c as u32;
            push_char(out, '\\');
            push_char(out, 'u');
            push_char(out, '0');
            push_char(out, '0');
            push_hex_digit(out, v / 16);
            push_hex_digit(out, v % 16);
            proof {
                assert(out@ =~= pre + escape_char(c));
            }
        } else {
            push_char(out, c);
            proof {
                assert(out@ =~= pre + escape_char(c));
            }
        }
        proof {
            let kk = k as int;
            assert(cs@.take(kk + 1) =~= cs@.take(kk) + seq![cs@[kk]]);
            lemma_escape_concat(cs@.take(kk), seq![cs@[kk]]);
            assert(seq![cs@[kk]].skip(1) =~= Seq::<char>::empty());
            assert(escape_string(seq![cs@[kk]]) == escape_char(cs@[kk]) + escape_string(
                Seq::<char>::empty(),
            ));
            assert(escape_char(cs@[kk]) + escape_string(Seq::<char>::empty()) =~= escape_char(
                cs@[kk],
            ));
            assert(out@ =~= orig + escape_string(cs@.take(kk + 1)));
        }
        k += 1;
    }
    proof {
        assert(cs@.take(cs@.len() as int) =~= cs@);
    }
}

/// Writes `true` or `false`.
fn write_bool(out: &mut String, b: bool)
    ensures
        final(out)@ == old(out)@ + render_bool(b),
{
    if b {
        out.append("true");
        proof {
            reveal_strlit("true");
            assert(out@ =~= old(out)@ + render_bool(b));
        }
    } else {
        out.append("false");
        proof {
            reveal_strlit("false");
            assert(out@ =~= old(out)@ + render_bool(b));
        }
    }
}

/// Writes one task object as it stands inside the rendered array.
fn write_task_pretty(out: &mut String, t: &Task)
    ensures
        final(out)@ == old(out)@ + render_task_pretty(t@),
{
    let ghost orig = out@;
    out.append("{\n    \"description\": \"");
    proof {
        reveal_strlit("{\n    \"description\": \"");
        assert(out@ =~= orig + obj_open());
    }
    write_escaped(out, t.description.as_str());
    out.append("\",\n    \"completed\": ");
    proof {
        reveal_strlit("\",\n    \"completed\": ");
        assert(out@ =~= orig + obj_open() + escape_string(t.description@) + obj_mid());
    }
    write_bool(out, t.completed);
    out.append("\n  }");
    proof {
        reveal_strlit("\n  }");
        assert(out@ =~= orig + render_task_pretty(t@));
    }
}

/// Rendering the tail of an array goes element by element.
proof fn lemma_render_rest_concat(a: Seq<TaskView>, b: Seq<TaskView>)
    ensures
        render_rest(a + b) == render_rest(a) + render_rest(b),
    decreases a.len(),
{
    if a.len() == 0 {
        assert(a + b =~= b);
        assert(render_rest(a) + render_rest(b) =~= render_rest(b));
    } else {
        assert((a + b).skip(1) =~= a.skip(1) + b);
        lemma_render_rest_concat(a.skip(1), b);
        assert((a + b)[0] == a[0]);
        assert(seq![',', '\n', ' ', ' '] + render_task_pretty(a[0]) + (render_rest(a.skip(1))
            + render_rest(b)) =~= (seq![',', '\n', ' ', ' '] + render_task_pretty(a[0])
            + render_rest(a.skip(1))) + render_rest(b));
    }
}

/// Writes the whole document for the given tasks.
pub fn render_document(ts: &Vec<Task>) -> (r: String)
    ensures
        r@ == render_tasks(task_views(ts@)),
{
    let mut out = String::new();
    let ghost views = task_views(ts@);
    if ts.len() == 0 {
        out.append("[]");
        proof {
            reveal_strlit("[]");
            assert(views.len() == 0);
            assert(out@ =~= render_tasks(views));
        }
        return out;
    }
    out.append("[\n  ");
    proof {
        reveal_strlit("[\n  ");
    }
    write_task_pretty(&mut out, &ts[0]);
    proof {
        assert(out@ =~= seq!['[', '\n', ' ', ' '] + render_task_pretty(views[0]));
        assert(views.subrange(1, 1) =~= Seq::<TaskView>::empty());
        assert(out@ + render_rest(views.subrange(1, 1)) =~= out@);
    }
    let mut k: usize = 1;
    while k < ts.len()
        invariant
            1 <= k <= ts.len(),
            ts.len() > 0,
            views == task_views(ts@),
            out@ == seq!['[', '\n', ' ', ' '] + render_task_pretty(views[0]) + render_rest(
                views.subrange(1, k as int),
            ),
        decreases ts.len() - k,
    {
        let ghost pre = out@;
        out.append(",\n  ");
        proof {
            reveal_strlit(",\n  ");
        }
        write_task_pretty(&mut out, &ts[k]);
        proof {
            let kk = k as int;
            assert(views.subrange(1, kk + 1) =~= views.subrange(1, kk) + seq![views[kk]]);
            lemma_render_rest_concat(views.subrange(1, kk), seq![views[kk]]);
            assert(seq![views[kk]].skip(1) =~= Seq::<TaskView>::empty());
            assert(seq![views[kk]][0] == views[kk]);
            assert(render_rest(Seq::<TaskView>::empty()) =~= Seq::<char>::empty());
            assert(render_rest(seq![views[kk]]) =~= seq![',', '\n', ' ', ' ']
                + render_task_pretty(views[kk]));
            assert(out@ =~= seq!['[', '\n', ' ', ' '] + render_task_pretty(views[0]) + render_rest(
                views.subrange(1, kk + 1),
            ));
        }
        k += 1;
    }
    out.append("\n]");
    proof {
        reveal_strlit("\n]");
        assert(views.subrange(1, views.len() as int) =~= views.skip(1));
        assert(out@ =~= render_tasks(views));
    }
    out
}

/// Writes one task on its own, on a single line.
pub fn render_task_alone(t: &Task) -> (r: String)
    ensures
        r@ == render_task_compact(t@),
{
    let mut out = String::new();
    let ghost orig = out@;
    out.append("{\"description\":\"");
    proof {
        reveal_strlit("{\"description\":\"");
        assert(out@ =~= seq!['{', '"'] + desc_key() + seq!['"', ':', '"']);
    }
    write_escaped(&mut out, t.description.as_str());
    out.append("\",\"completed\":");
    proof {
        reveal_strlit("\",\"completed\":");
    }
    write_bool(&mut out, t.completed);
    out.append("}");
    proof {
        reveal_strlit("}");
        assert(out@ =~= render_task_compact(t@));
    }
    out
}

/// Reads one task standing alone: `Some` exactly on well-formed text.
pub fn parse_task_alone(s: &str) -> (r: Option<Task>)
    ensures
        match (r, parse_task_text(s@)) {
            (None, None) => true,
            (Some(t), Some(v)) => t@ == v,
            _ => false,
        },
{
    let cs = chars_of(s);
    let i = scan_ws(&cs, 0);
    match scan_task(&cs, i) {
        None => None,
        Some((t, j)) => {
            if scan_ws(&cs, j) == cs.len() {
                Some(t)
            } else {
                None
            }
        },
    }
}

} // verus!
