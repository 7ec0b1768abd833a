//! Inline rendering of default values in YAML, TOML and JSON5 templates.
//!
//! Arrays render as `[a, b]` and maps as `{ k: v }` (`{ k = v }` in TOML).
//! Strings are JSON-quoted, except in YAML, where a string stays plain
//! unless it is empty, starts with a YAML indicator or holds a `:` or a line
//! break or tab. TOML map keys stay bare when they consist of ASCII letters,
//! digits, `_` and `-` only.

use vstd::prelude::*;
use crate::meta::{DefaultExpr, MapEntry, MapKey};
use crate::quote::{json_string_literal, quote_text};
use crate::text::push_char;

verus! {

/// The template format a value is rendered for.
#[derive(Clone, Copy, Debug, PartialEq, Eq, Structural)]
pub enum ExprStyle {
    /// YAML flow style.
    Yaml,
    /// TOML inline values.
    Toml,
    /// JSON5 values.
    Json5,
}

/// A character that cannot start a plain YAML scalar here.
pub open spec fn is_yaml_indicator(c: char) -> bool {
    c == ' ' || c == '#' || c == '{' || c == '}' || c == '[' || c == ']' || c == ',' || c == '&'
        || c == '*' || c == '!' || c == '|' || c == '>' || c == '\'' || c == '"'
}

/// A character that forces quoting anywhere in a YAML scalar.
pub open spec fn is_yaml_breaking(c: char) -> bool {
    c == ':' || c == '\n' || c == '\r' || c == '\t'
}

/// A YAML string needs quotes.
pub open spec fn yaml_needs_quotes(s: Seq<char>) -> bool {
    s.len() == 0 || is_yaml_indicator(s[0]) || exists|i: int| 0 <= i < s.len() && is_yaml_breaking(#[trigger] s[i])
}

/// A string as a YAML scalar: plain, or JSON-quoted when it needs quotes.
pub open spec fn yaml_scalar(s: Seq<char>) -> Seq<char> {
    if yaml_needs_quotes(s) {
        json_string_literal(s)
    } else {
        s
    }
}

/// A character allowed in a bare TOML key.
pub open spec fn is_bare_key_char(c: char) -> bool {
    ('a' <= c <= 'z') || ('A' <= c <= 'Z') || ('0' <= c <= '9') || c == '_' || c == '-'
}

/// A string that can be a bare TOML key.
pub open spec fn is_bare_key(s: Seq<char>) -> bool {
    forall|i: int| 0 <= i < s.len() ==> is_bare_key_char(#[trigger] s[i])
}

/// The text of a boolean.
pub open spec fn bool_text(b: bool) -> Seq<char> {
    if b {
        "true"@
    } else {
        "false"@
    }
}

/// A string value in the given style.
pub open spec fn str_text(style: ExprStyle, s: Seq<char>) -> Seq<char> {
    match style {
        ExprStyle::Yaml => yaml_scalar(s),
        _ => json_string_literal(s),
    }
}

/// A map key in the given style.
pub open spec fn key_text(style: ExprStyle, k: MapKey) -> Seq<char> {
    match k {
        MapKey::Str(s) => match style {
            ExprStyle::Yaml => yaml_scalar(s@),
            ExprStyle::Toml => if is_bare_key(s@) {
                s@
            } else {
                json_string_literal(s@)
            },
            ExprStyle::Json5 => json_string_literal(s@),
        },
        MapKey::Float(t) => t@,
        MapKey::Integer(t) => t@,
        MapKey::Bool(b) => bool_text(b),
    }
}

/// What separates a map key from its value.
pub open spec fn entry_sep(style: ExprStyle) -> Seq<char> {
    match style {
        ExprStyle::Toml => " = "@,
        _ => ": "@,
    }
}

/// A default value rendered inline.
pub open spec fn expr_text(style: ExprStyle, e: DefaultExpr) -> Seq<char>
    decreases e, 1int, 0int,
{
    match e {
        DefaultExpr::Str(s) => str_text(style, s@),
        DefaultExpr::Float(t) => t@,
        DefaultExpr::Integer(t) => t@,
        DefaultExpr::Bool(b) => bool_text(b),
        DefaultExpr::Array(items) => "["@ + items_text(style, e, items@.len() as int) + "]"@,
        DefaultExpr::Mapping(entries) => "{ "@ + entries_text(style, e, entries@.len() as int) + " }"@,
    }
}

/// The first `k` items of an array value, separated by `, `.
pub open spec fn items_text(style: ExprStyle, e: DefaultExpr, k: int) -> Seq<char>
    decreases e, 0int, k,
{
    match e {
        DefaultExpr::Array(items) => {
            if k <= 0 || k > items@.len() {
                Seq::empty()
            } else {
                proof {
                    assert(decreases_to!(e => items));
                }
                let last = expr_text(style, items@[k - 1]);
                if k == 1 {
                    last
                } else {
                    items_text(style, e, k - 1) + ", "@ + last
                }
            }
        },
        _ => Seq::empty(),
    }
}

/// One map entry: key, separator, value.
pub open spec fn entry_text(style: ExprStyle, e: DefaultExpr, k: int) -> Seq<char>
    decreases e, 0int, 0int,
{
    match e {
        DefaultExpr::Mapping(entries) => {
            if 0 <= k < entries@.len() {
                proof {
                    assert(decreases_to!(e => entries));
                }
                key_text(style, entries@[k].key) + entry_sep(style) + expr_text(style, entries@[k].value)
            } else {
                Seq::empty()
            }
        },
        _ => Seq::empty(),
    }
}

/// The first `k` entries of a map value, separated by `, `.
pub open spec fn entries_text(style: ExprStyle, e: DefaultExpr, k: int) -> Seq<char>
    decreases e, 0int, 1int + k,
{
    match e {
        DefaultExpr::Mapping(entries) => {
            if k <= 0 || k > entries@.len() {
                Seq::empty()
            } else if k == 1 {
                entry_text(style, e, 0)
            } else {
                entries_text(style, e, k - 1) + ", "@ + entry_text(style, e, k - 1)
            }
        },
        _ => Seq::empty(),
    }
}

/// Renders a string as a YAML scalar.
pub fn render_yaml_scalar(value: &str) -> (r: String)
    ensures
        r@ == yaml_scalar(value@),
{
    let cs = crate::text::chars_of(value);
    let n = cs.len();
    let mut needs = n == 0;
    if n > 0 {
        let c = cs[0];
        needs = c == ' ' || c == '#' || c == '{' || c == '}' || c == '[' || c == ']' || c == ','
            || c == '&' || c == '*' || c == '!' || c == '|' || c == '>' || c == '\'' || c == '"';
    }
    let mut i: usize = 0;
    while i < n && !needs
        invariant
            n == cs@.len(),
            cs@ == value@,
            i <= n,
            needs == (n == 0 || is_yaml_indicator(value@[0]) || exists|j: int| 0 <= j < i && is_yaml_breaking(#[trigger] value@[j])),
        decreases n - i,
    {
        let c = cs[i];
        if c == ':' || c == '\n' || c == '\r' || c == '\t' {
            needs = true;
            proof {
                assert(is_yaml_breaking(value@[i as int]));
            }
        }
        i = i + 1;
    }
    proof {
        if !needs {
            assert(i == n);
        }
    }
    if needs {
        quote_text(value)
    } else {
        value.to_owned()
    }
}

/// Whether a string can be a bare TOML key.
pub fn is_valid_bare_key(s: &str) -> (r: bool)
    ensures
        r == is_bare_key(s@),
{
    let cs = crate::text::chars_of(s);
    let mut i: usize = 0;
    while i < cs.len()
        invariant
            cs@ == s@,
            i <= cs@.len(),
            forall|j: int| 0 <= j < i ==> is_bare_key_char(#[trigger] s@[j]),
        decreases cs@.len() - i,
    {
        let c = cs[i];
        let ok = ('a' <= c && c <= 'z') || ('A' <= c && c <= 'Z') || ('0' <= c && c <= '9') || c == '_' || c == '-';
        if !ok {
            proof {
                assert(!is_bare_key_char(s@[i as int]));
            }
            return false;
        }
        i = i + 1;
    }
    true
}

/// Renders a boolean.
pub fn render_bool(b: bool) -> (r: String)
    ensures
        r@ == bool_text(b),
{
    if b {
        String::from_str("true")
    } else {
        String::from_str("false")
    }
}

/// Renders a string value in the given style.
pub fn render_str_value(style: ExprStyle, s: &str) -> (r: String)
    ensures
        r@ == str_text(style, s@),
{
    match style {
        ExprStyle::Yaml => render_yaml_scalar(s),
        _ => quote_text(s),
    }
}

/// Renders a map key in the given style.
pub fn render_map_key(style: ExprStyle, key: &MapKey) -> (r: String)
    ensures
        r@ == key_text(style, *key),
{
    match key {
        MapKey::Str(s) => match style {
            ExprStyle::Yaml => render_yaml_scalar(s.as_str()),
            ExprStyle::Toml => {
                if is_valid_bare_key(s.as_str()) {
                    s.clone()
                } else {
                    quote_text(s.as_str())
                }
            },
            ExprStyle::Json5 => quote_text(s.as_str()),
        },
        MapKey::Float(t) => t.clone(),
        MapKey::Integer(t) => t.clone(),
        MapKey::Bool(b) => render_bool(*b),
    }
}

/// Renders a default value inline in the given style.
pub fn render_expr(style: ExprStyle, e: &DefaultExpr) -> (r: String)
    ensures
        r@ == expr_text(style, *e),
    decreases e,
{
    match e {
        DefaultExpr::Str(s) => render_str_value(style, s.as_str()),
        DefaultExpr::Float(t) => t.clone(),
        DefaultExpr::Integer(t) => t.clone(),
        DefaultExpr::Bool(b) => render_bool(*b),
        DefaultExpr::Array(items) => {
            let mut out = String::from_str("[");
            let ghost head = out@;
            let mut i: usize = 0;
            while i < items.len()
                invariant
                    i <= items@.len(),
                    head == "["@,
                    out@ == head + items_text(style, *e, i as int),
                    *e == DefaultExpr::Array(*items),
                decreases items@.len() - i,
            {
                if i > 0 {
                    out.append(", ");
                }
                proof {
                    assert(decreases_to!(*e => (*e)->Array_0));
                    assert(decreases_to!(*items => items@));
                    assert(decreases_to!(items@ => items@[i as int]));
                    assert(decreases_to!(*e => items@[i as int]));
                }
                let item = render_expr(style, &items[i]);
                out.append(item.as_str());
                proof {
                    if i == 0 {
                        assert(items_text(style, *e, 0) =~= Seq::<char>::empty());
                        assert(out@ =~= head + items_text(style, *e, 1));
                    } else {
                        assert(out@ =~= head + items_text(style, *e, i + 1));
                    }
                }
                i = i + 1;
            }
            out.append("]");
            out
        },
        DefaultExpr::Mapping(entries) => {
            let mut out = String::from_str("{ ");
            let ghost head = out@;
            let mut i: usize = 0;
            while i < entries.len()
                invariant
                    i <= entries@.len(),
                    head == "{ "@,
                    out@ == head + entries_text(style, *e, i as int),
                    *e == DefaultExpr::Mapping(*entries),
                decreases entries@.len() - i,
            {
                if i > 0 {
                    out.append(", ");
                }
                let entry: &MapEntry = &entries[i];
                let key = render_map_key(style, &entry.key);
                out.append(key.as_str());
                match style {
                    ExprStyle::Toml => out.append(" = "),
                    _ => out.append(": "),
                }
                proof {
                    assert(decreases_to!(*e => (*e)->Mapping_0));
                    assert(decreases_to!(*entries => entries@));
                    assert(decreases_to!(entries@ => entries@[i as int]));
                    assert(decreases_to!(entries@[i as int] => entries@[i as int].value));
                    assert(decreases_to!(*e => entries@[i as int].value));
                }
                let value = render_expr(style, &entry.value);
                out.append(value.as_str());
                proof {
                    assert(entry_text(style, *e, i as int) == key@ + entry_sep(style) + value@);
                    if i == 0 {
                        assert(entries_text(style, *e, 0) =~= Seq::<char>::empty());
                        assert(out@ =~= head + entries_text(style, *e, 1));
                    } else {
                        assert(out@ =~= head + entries_text(style, *e, i + 1));
                    }
                }
                i = i + 1;
            }
            out.append(" }");
            out
        },
    }
}

} // verus!
