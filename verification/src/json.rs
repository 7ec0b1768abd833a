//! JSON values as the schema logic reads them, with their mathematical model,
//! member lookup and JSON Pointer resolution.

use vstd::prelude::*;
use crate::schema_paths::{decode_json_pointer_token, decoded_token};
use crate::text::{chars_of, string_of, text_eq};

verus! {

/// A JSON value. Object members keep their order; the keys of one object are
/// distinct where the value comes from a JSON document.
#[derive(Debug)]
pub enum JsonValue {
    /// `null`.
    Null,
    /// A boolean.
    Bool(bool),
    /// A number, as its text.
    Number(String),
    /// A string.
    Str(String),
    /// An array.
    Array(Vec<JsonValue>),
    /// An object, as its members in order.
    Object(Vec<(String, JsonValue)>),
}

/// The mathematical model of a JSON value.
pub enum JsonTree {
    Null,
    Bool(bool),
    Number(Seq<char>),
    Str(Seq<char>),
    Array(Seq<JsonTree>),
    Object(Seq<(Seq<char>, JsonTree)>),
}

/// The model of a value.
pub open spec fn tree_of(v: JsonValue) -> JsonTree
    decreases v,
{
    match v {
        JsonValue::Null => JsonTree::Null,
        JsonValue::Bool(b) => JsonTree::Bool(b),
        JsonValue::Number(n) => JsonTree::Number(n@),
        JsonValue::Str(s) => JsonTree::Str(s@),
        JsonValue::Array(items) => JsonTree::Array(
            Seq::new(
                items@.len(),
                |i: int|
                    if 0 <= i < items@.len() {
                        tree_of(items@[i])
                    } else {
                        JsonTree::Null
                    },
            ),
        ),
        JsonValue::Object(es) => JsonTree::Object(
            Seq::new(
                es@.len(),
                |i: int|
                    if 0 <= i < es@.len() {
                        (es@[i].0@, tree_of(es@[i].1))
                    } else {
                        (Seq::empty(), JsonTree::Null)
                    },
            ),
        ),
    }
}

impl View for JsonValue {
    type V = JsonTree;

    open spec fn view(&self) -> JsonTree {
        tree_of(*self)
    }
}

/// The models of a list of values.
pub open spec fn items_tree(items: Seq<JsonValue>) -> Seq<JsonTree> {
    Seq::new(items.len(), |i: int| tree_of(items[i]))
}

/// The models of a list of object members.
pub open spec fn entries_tree(es: Seq<(String, JsonValue)>) -> Seq<(Seq<char>, JsonTree)> {
    Seq::new(es.len(), |i: int| (es[i].0@, tree_of(es[i].1)))
}

/// The model of an array is the list of the models of its items.
pub proof fn lemma_array_tree(items: Vec<JsonValue>)
    ensures
        tree_of(JsonValue::Array(items)) == JsonTree::Array(items_tree(items@)),
{
    assert(tree_of(JsonValue::Array(items))->Array_0 =~= items_tree(items@));
}

/// The model of an object is the list of the models of its members.
pub proof fn lemma_object_tree(es: Vec<(String, JsonValue)>)
    ensures
        tree_of(JsonValue::Object(es)) == JsonTree::Object(entries_tree(es@)),
{
    assert(tree_of(JsonValue::Object(es))->Object_0 =~= entries_tree(es@));
}

/// Pushing a value extends the list of models.
pub proof fn lemma_items_push(items: Seq<JsonValue>, x: JsonValue)
    ensures
        items_tree(items.push(x)) == items_tree(items).push(tree_of(x)),
{
    assert(items_tree(items.push(x)) =~= items_tree(items).push(tree_of(x)));
}

/// Pushing a member extends the list of member models.
pub proof fn lemma_entries_push(es: Seq<(String, JsonValue)>, k: String, x: JsonValue)
    ensures
        entries_tree(es.push((k, x))) == entries_tree(es).push((k@, tree_of(x))),
{
    assert(entries_tree(es.push((k, x))) =~= entries_tree(es).push((k@, tree_of(x))));
}

/// The value of the first member named `key`.
pub open spec fn member(es: Seq<(Seq<char>, JsonTree)>, key: Seq<char>) -> Option<JsonTree>
    decreases es.len(),
{
    if es.len() == 0 {
        None
    } else if es[0].0 == key {
        Some(es[0].1)
    } else {
        member(es.skip(1), key)
    }
}

/// The member of an object named `key`; nothing for another value.
pub open spec fn get(t: JsonTree, key: Seq<char>) -> Option<JsonTree> {
    match t {
        JsonTree::Object(es) => member(es, key),
        _ => None,
    }
}

/// The model of an optional value.
pub open spec fn opt_tree(o: Option<&JsonValue>) -> Option<JsonTree> {
    match o {
        Some(x) => Some(tree_of(*x)),
        None => None,
    }
}

/// Returns a copy of a value.
pub fn copy_json(v: &JsonValue) -> (r: JsonValue)
    ensures
        r@ == v@,
    decreases v,
{
    match v {
        JsonValue::Null => JsonValue::Null,
        JsonValue::Bool(b) => JsonValue::Bool(*b),
        JsonValue::Number(n) => JsonValue::Number(n.clone()),
        JsonValue::Str(s) => JsonValue::Str(s.clone()),
        JsonValue::Array(items) => {
            let mut out: Vec<JsonValue> = Vec::new();
            let mut i: usize = 0;
            while i < items.len()
                invariant
                    i <= items@.len(),
                    *v == JsonValue::Array(*items),
                    items_tree(out@) == items_tree(items@).take(i as int),
                decreases items@.len() - i,
            {
                proof {
                    assert(decreases_to!(*v => (*v)->Array_0));
                    assert(decreases_to!((*v)->Array_0 => items@));
                    assert(decreases_to!(items@ => items@[i as int]));
                }
                let c = copy_json(&items[i]);
                proof {
                    lemma_items_push(out@, c);
                }
                out.push(c);
                i = i + 1;
                proof {
                    assert(items_tree(out@) =~= items_tree(items@).take(i as int));
                }
            }
            proof {
                assert(items_tree(items@).take(i as int) =~= items_tree(items@));
                lemma_array_tree(out);
                lemma_array_tree(*items);
            }
            JsonValue::Array(out)
        },
        JsonValue::Object(es) => {
            let mut out: Vec<(String, JsonValue)> = Vec::new();
            let mut i: usize = 0;
            while i < es.len()
                invariant
                    i <= es@.len(),
                    *v == JsonValue::Object(*es),
                    entries_tree(out@) == entries_tree(es@).take(i as int),
                decreases es@.len() - i,
            {
                proof {
                    assert(decreases_to!(*v => (*v)->Object_0));
                    assert(decreases_to!((*v)->Object_0 => es@));
                    assert(decreases_to!(es@ => es@[i as int]));
                    assert(decreases_to!(es@[i as int] => es@[i as int].1));
                }
                let c = copy_json(&es[i].1);
                let k = es[i].0.clone();
                proof {
                    lemma_entries_push(out@, k, c);
                }
                out.push((k, c));
                i = i + 1;
                proof {
                    assert(entries_tree(out@) =~= entries_tree(es@).take(i as int));
                }
            }
            proof {
                assert(entries_tree(es@).take(i as int) =~= entries_tree(es@));
                lemma_object_tree(out);
                lemma_object_tree(*es);
            }
            JsonValue::Object(out)
        },
    }
}

/// Returns the member of an object named `key`.
pub fn get_member<'a>(v: &'a JsonValue, key: &str) -> (r: Option<&'a JsonValue>)
    ensures
        opt_tree(r) == get(v@, key@),
{
    match v {
        JsonValue::Object(es) => {
            proof {
                lemma_object_tree(*es);
            }
            let ghost all = entries_tree(es@);
            let mut i: usize = 0;
            proof {
                assert(all.skip(0) =~= all);
            }
            while i < es.len()
                invariant
                    i <= es@.len(),
                    all == entries_tree(es@),
                    v@ == JsonTree::Object(all),
                    member(all, key@) == member(all.skip(i as int), key@),
                decreases es@.len() - i,
            {
                if text_eq(es[i].0.as_str(), key) {
                    proof {
                        assert(all.skip(i as int)[0] == all[i as int]);
                        assert(all[i as int] == (es@[i as int].0@, tree_of(es@[i as int].1)));
                        assert(member(all.skip(i as int), key@) == Some(tree_of(es@[i as int].1)));
                        assert(v@ == JsonTree::Object(all));
                    }
                    return Some(&es[i].1);
                }
                proof {
                    assert(all.skip(i as int).skip(1) =~= all.skip(i + 1));
                }
                i = i + 1;
            }
            None
        },
        _ => None,
    }
}

/// The pieces of `s` between `/` separators, empty pieces included.
pub open spec fn slash_pieces(s: Seq<char>) -> Seq<Seq<char>>
    decreases s.len(),
{
    if s.len() == 0 {
        seq![Seq::<char>::empty()]
    } else {
        let r = slash_pieces(s.drop_last());
        if s.last() == '/' {
            r.push(Seq::<char>::empty())
        } else {
            r.update(r.len() - 1, r.last().push(s.last()))
        }
    }
}

/// There is always at least one piece.
proof fn lemma_slash_pieces_len(s: Seq<char>)
    ensures
        slash_pieces(s).len() >= 1,
    decreases s.len(),
{
    if s.len() > 0 {
        lemma_slash_pieces_len(s.drop_last());
    }
}

/// Splits a text at every `/`.
fn split_slashes(s: &Vec<char>) -> (r: Vec<String>)
    ensures
        r.deep_view() == slash_pieces(s@),
{
    let mut done: Vec<String> = Vec::new();
    let mut cur: Vec<char> = Vec::new();
    let mut i: usize = 0;
    proof {
        assert(s@.take(0) =~= Seq::<char>::empty());
        assert(done.deep_view().push(cur@) =~= slash_pieces(s@.take(0)));
    }
    while i < s.len()
        invariant
            i <= s@.len(),
            done.deep_view().push(cur@) == slash_pieces(s@.take(i as int)),
        decreases s@.len() - i,
    {
        let c = s[i];
        let ghost before = done.deep_view();
        let ghost cur_before = cur@;
        proof {
            assert(s@.take(i + 1).drop_last() =~= s@.take(i as int));
            assert(s@.take(i + 1).last() == c);
        }
        if c == '/' {
            let piece = string_of(cur.as_slice());
            done.push(piece);
            cur = Vec::new();
            proof {
                assert(done.deep_view() =~= before.push(cur_before));
                assert(done.deep_view().push(cur@) =~= slash_pieces(s@.take(i + 1)));
            }
        } else {
            cur.push(c);
            proof {
                assert(done.deep_view() == before);
                assert(done.deep_view().push(cur@) =~= before.push(cur_before).update(before.len() as int, cur_before.push(c)));
            }
        }
        i = i + 1;
    }
    proof {
        assert(s@.take(s@.len() as int) =~= s@);
    }
    let last = string_of(cur.as_slice());
    let ghost before = done.deep_view();
    done.push(last);
    proof {
        assert(done.deep_view() =~= before.push(cur@));
    }
    done
}

/// `s` is made of decimal digits.
pub open spec fn all_digits(s: Seq<char>) -> bool {
    forall|i: int| 0 <= i < s.len() ==> '0' <= #[trigger] s[i] <= '9'
}

/// The number written by the decimal digits `s`.
pub open spec fn digits_value(s: Seq<char>) -> int
    decreases s.len(),
{
    if s.len() == 0 {
        0
    } else {
        digits_value(s.drop_last()) * 10 + (s.last() as int - '0' as int)
    }
}

/// The array index a pointer token names: decimal digits without a leading
/// zero (`0` itself aside) whose value fits in `usize`.
pub open spec fn array_index(t: Seq<char>) -> Option<int> {
    if t.len() > 0 && all_digits(t) && (t[0] != '0' || t.len() == 1) && digits_value(t) <= usize::MAX {
        Some(digits_value(t))
    } else {
        None
    }
}

/// The value of digits is never negative.
proof fn lemma_digits_value_nonneg(s: Seq<char>)
    requires
        all_digits(s),
    ensures
        digits_value(s) >= 0,
    decreases s.len(),
{
    if s.len() > 0 {
        assert(all_digits(s.drop_last())) by {
            assert forall|i: int| 0 <= i < s.drop_last().len() implies '0' <= #[trigger] s.drop_last()[i] <= '9' by {
                assert(s.drop_last()[i] == s[i]);
            }
        }
        lemma_digits_value_nonneg(s.drop_last());
        assert('0' <= s[s.len() - 1] <= '9');
    }
}

/// Reads an array index from a pointer token.
fn parse_array_index(t: &str) -> (r: Option<usize>)
    ensures
        match r {
            Some(k) => array_index(t@) == Some(k as int),
            None => array_index(t@) is None,
        },
{
    let cs = chars_of(t);
    if cs.len() == 0 {
        return None;
    }
    if cs[0] == '0' && cs.len() != 1 {
        return None;
    }
    let mut acc: u128 = 0;
    let mut i: usize = 0;
    let mut ok = true;
    while i < cs.len() && ok
        invariant
            i <= cs@.len(),
            cs@ == t@,
            ok ==> all_digits(cs@.take(i as int)) && acc == digits_value(cs@.take(i as int)) && acc <= usize::MAX,
            !ok ==> array_index(t@) is None,
        decreases cs@.len() - i + (if ok { 1int } else { 0int }),
    {
        let c = cs[i];
        let ghost pre = cs@.take(i as int);
        proof {
            assert(cs@.take(i + 1).drop_last() =~= pre);
            assert(cs@.take(i + 1).last() == c);
        }
        if c < '0' || c > '9' {
            ok = false;
            proof {
                assert(!all_digits(t@)) by {
                    assert(t@[i as int] == c);
                }
            }
        } else {
            let d: u128 = (c as u32 - '0' as u32) as u128;
            let next: u128 = acc * 10 + d;
            proof {
                assert(all_digits(cs@.take(i + 1))) by {
                    assert forall|j: int| 0 <= j < cs@.take(i + 1).len() implies '0' <= #[trigger] cs@.take(i + 1)[j] <= '9' by {
                        if j < i {
                            assert(cs@.take(i + 1)[j] == pre[j]);
                        }
                    }
                }
                assert(next == digits_value(cs@.take(i + 1)));
            }
            if next > usize::MAX as u128 {
                ok = false;
                proof {
                    assert(array_index(t@) is None) by {
                        if all_digits(t@) {
                            lemma_digits_prefix_bound(t@, i + 1);
                        }
                    }
                }
            } else {
                acc = next;
            }
            i = i + 1;
        }
    }
    if !ok {
        return None;
    }
    proof {
        assert(cs@.take(cs@.len() as int) =~= t@);
        lemma_digits_value_nonneg(t@);
    }
    Some(acc as usize)
}

/// The value of all the digits is at least that of a prefix.
proof fn lemma_digits_prefix_bound(s: Seq<char>, k: int)
    requires
        all_digits(s),
        0 <= k <= s.len(),
    ensures
        digits_value(s.take(k)) <= digits_value(s),
    decreases s.len(),
{
    if k < s.len() {
        let d = s.drop_last();
        assert(all_digits(d)) by {
            assert forall|i: int| 0 <= i < d.len() implies '0' <= #[trigger] d[i] <= '9' by {
                assert(d[i] == s[i]);
            }
        }
        lemma_digits_prefix_bound(d, k);
        assert(d.take(k) =~= s.take(k));
        lemma_digits_value_nonneg(d);
        assert('0' <= s[s.len() - 1] <= '9');
    } else {
        assert(s.take(k) =~= s);
    }
}

/// One step of a pointer: a member of an object, or an item of an array.
pub open spec fn pointer_step(t: JsonTree, token: Seq<char>) -> Option<JsonTree> {
    match t {
        JsonTree::Object(es) => member(es, token),
        JsonTree::Array(items) => match array_index(token) {
            Some(i) => if i < items.len() {
                Some(items[i])
            } else {
                None
            },
            None => None,
        },
        _ => None,
    }
}

/// The value reached from `t` by the raw pointer tokens `tokens`.
pub open spec fn pointer_walk(t: JsonTree, tokens: Seq<Seq<char>>) -> Option<JsonTree>
    decreases tokens.len(),
{
    if tokens.len() == 0 {
        Some(t)
    } else {
        match pointer_step(t, decoded_token(tokens[0])) {
            Some(n) => pointer_walk(n, tokens.skip(1)),
            None => None,
        }
    }
}

/// The value a JSON Pointer names in `root`: the empty pointer names the
/// root; any other pointer starts with `/` and names a path of tokens.
pub open spec fn pointer_target(root: JsonTree, pointer: Seq<char>) -> Option<JsonTree> {
    if pointer.len() == 0 {
        Some(root)
    } else if pointer[0] != '/' {
        None
    } else {
        pointer_walk(root, slash_pieces(pointer.skip(1)))
    }
}

/// Takes one pointer step from a value.
fn step_into<'a>(t: &'a JsonValue, token: &str) -> (r: Option<&'a JsonValue>)
    ensures
        opt_tree(r) == pointer_step(t@, token@),
{
    if let JsonValue::Array(items) = t {
        proof {
            lemma_array_tree(*items);
        }
        match parse_array_index(token) {
            Some(i) => {
                if i < items.len() {
                    Some(&items[i])
                } else {
                    None
                }
            },
            None => None,
        }
    } else {
        let found = get_member(t, token);
        proof {
            if t is Object {
                lemma_object_tree(t->Object_0);
            }
        }
        found
    }
}

/// Resolves a JSON Pointer against a value.
pub fn json_pointer<'a>(root: &'a JsonValue, pointer: &str) -> (r: Option<&'a JsonValue>)
    ensures
        opt_tree(r) == pointer_target(root@, pointer@),
{
    let cs = chars_of(pointer);
    if cs.len() == 0 {
        return Some(root);
    }
    if cs[0] != '/' {
        return None;
    }
    let mut rest: Vec<char> = Vec::new();
    let mut k: usize = 1;
    while k < cs.len()
        invariant
            1 <= k <= cs@.len(),
            rest@ == cs@.subrange(1, k as int),
        decreases cs@.len() - k,
    {
        rest.push(cs[k]);
        k = k + 1;
        proof {
            assert(rest@ =~= cs@.subrange(1, k as int));
        }
    }
    proof {
        assert(rest@ =~= pointer@.skip(1));
    }
    let tokens = split_slashes(&rest);
    let ghost all = tokens.deep_view();
    let mut cur: &JsonValue = root;
    let mut i: usize = 0;
    proof {
        assert(all.skip(0) =~= all);
    }
    while i < tokens.len()
        invariant
            i <= tokens@.len(),
            all == tokens.deep_view(),
            all == slash_pieces(pointer@.skip(1)),
            cs@ == pointer@,
            cs@.len() > 0 && cs@[0] == '/',
            pointer_target(root@, pointer@) == pointer_walk(cur@, all.skip(i as int)),
        decreases tokens@.len() - i,
    {
        let token = decode_json_pointer_token(tokens[i].as_str());
        proof {
            assert(all.skip(i as int)[0] == all[i as int]);
            assert(all.skip(i as int).skip(1) =~= all.skip(i + 1));
        }
        match step_into(cur, token.as_str()) {
            Some(next) => {
                cur = next;
            },
            None => {
                return None;
            },
        }
        i = i + 1;
    }
    proof {
        assert(all.skip(i as int).len() == 0);
    }
    Some(cur)
}

} // verus!
