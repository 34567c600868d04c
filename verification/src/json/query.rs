//! Path queries: `users[0].email` leads from a value to a node inside it.
//!
//! A path is a list of segments separated by points. A segment is a key, a
//! key followed by an index in brackets, or an index in brackets alone. A
//! query that leads nowhere finds nothing; it never fails in another way.

use vstd::prelude::*;
use crate::json::value::{lemma_position_of, lookup, position_of, JsonValue, JsonView};
use crate::text::{chars_of, find, find_char, index_value, lemma_find, read_index, slice_of};

verus! {

/// The member `key` of `value`, where `value` is an object that has it.
pub open spec fn member(value: JsonView, key: Seq<char>) -> Option<JsonView> {
    match value {
        JsonView::Object(members) => lookup(members, key),
        _ => None,
    }
}

/// The item at `index` of `value`, where `value` is an array that has it.
pub open spec fn item(value: JsonView, index: nat) -> Option<JsonView> {
    match value {
        JsonView::Array(items) => if index < items.len() {
            Some(items[index as int])
        } else {
            None
        },
        _ => None,
    }
}

/// Where the segment of `s` from `from` up to `to` leads from `value`.
///
/// A segment without both kinds of bracket is a key. One with both must end
/// in `]`: what is before its first `[` is the key (none, where the segment
/// starts with the bracket) and what is between that bracket and the last
/// character is the index.
pub open spec fn step(value: JsonView, s: Seq<char>, from: int, to: int) -> Option<JsonView> {
    let open = find(s, '[', from, to);
    if open < to && find(s, ']', from, to) < to {
        if s[to - 1] != ']' {
            None
        } else {
            match index_value(s, open + 1, to - 1) {
                None => None,
                Some(index) => {
                    let holder = if open == from {
                        Some(value)
                    } else {
                        member(value, s.subrange(from, open))
                    };
                    match holder {
                        Some(array) => item(array, index),
                        None => None,
                    }
                },
            }
        }
    } else {
        member(value, s.subrange(from, to))
    }
}

/// Where the segments of `path` from `from` on lead from `value`.
pub open spec fn resolve(value: JsonView, path: Seq<char>, from: int) -> Option<JsonView>
    decreases path.len() - from,
{
    let end = find(path, '.', from, path.len() as int);
    if from > path.len() {
        None
    } else {
        match step(value, path, from, end) {
            None => None,
            Some(next) => if end >= path.len() {
                Some(next)
            } else {
                proof {
                    lemma_find(path, '.', from, path.len() as int);
                }
                resolve(next, path, end + 1)
            },
        }
    }
}

/// The node of `value` that `path` leads to. The empty path leads to the
/// value itself.
pub open spec fn query(value: JsonView, path: Seq<char>) -> Option<JsonView> {
    if path.len() == 0 {
        Some(value)
    } else {
        resolve(value, path, 0)
    }
}

/// The member `key` of `value`, where `value` is an object that has it.
fn member_of<'a>(value: &'a JsonValue, key: &Vec<char>) -> (r: Option<&'a JsonValue>)
    ensures
        match r {
            Some(found) => member(value@, key@) == Some(found@),
            None => member(value@, key@) is None,
        },
{
    match value {
        JsonValue::Object(object) => object.get_chars(key),
        _ => None,
    }
}

/// Where the segment of `s` from `from` up to `to` leads from `value`.
fn step_from<'a>(value: &'a JsonValue, s: &Vec<char>, from: usize, to: usize) -> (r: Option<
    &'a JsonValue,
>)
    requires
        from <= to <= s.len(),
    ensures
        match r {
            Some(found) => step(value@, s@, from as int, to as int) == Some(found@),
            None => step(value@, s@, from as int, to as int) is None,
        },
{
    let open = find_char(s, '[', from, to);
    if open < to && find_char(s, ']', from, to) < to {
        if s[to - 1] != ']' {
            return None;
        }
        proof {
            lemma_find(s@, '[', from as int, to as int);
        }
        let holder = if open == from {
            value
        } else {
            let key = slice_of(s, from, open);
            match member_of(value, &key) {
                Some(holder) => holder,
                None => {
                    return None;
                },
            }
        };
        match holder {
            JsonValue::Array(items) => {
                proof {
                    assert(holder@->Array_0.len() == items.len());
                }
                match read_index(s, open + 1, to - 1) {
                    Some(index) => if index < items.len() {
                        Some(&items[index])
                    } else {
                        None
                    },
                    None => None,
                }
            },
            _ => None,
        }
    } else {
        let key = slice_of(s, from, to);
        member_of(value, &key)
    }
}

/// The node of `value` that `path` leads to, if it leads to one.
///
/// The path is split at its points. A segment `key` asks for the member
/// `key` of an object, `key[i]` for the item `i` of the array that is that
/// member, `[i]` for the item `i` of an array. The empty path leads to
/// `value` itself.
pub fn query_json_path<'a>(value: &'a JsonValue, path: &str) -> (r: Option<&'a JsonValue>)
    ensures
        match r {
            Some(found) => query(value@, path@) == Some(found@),
            None => query(value@, path@) is None,
        },
{
    let chars = chars_of(path);
    let len = chars.len();
    if len == 0 {
        return Some(value);
    }
    let mut current = value;
    let mut from: usize = 0;
    loop
        invariant
            from <= len,
            len == chars.len(),
            chars@ == path@,
            query(value@, path@) == resolve(current@, chars@, from as int),
        decreases len - from,
    {
        let end = find_char(&chars, '.', from, len);
        match step_from(current, &chars, from, end) {
            None => {
                return None;
            },
            Some(next) => {
                if end >= len {
                    return Some(next);
                }
                current = next;
                from = end + 1;
            },
        }
    }
}

/// Whether `node` is `value` itself or stands somewhere inside it.
pub open spec fn holds_node(value: JsonView, node: JsonView) -> bool
    decreases value,
{
    value == node || match value {
        JsonView::Array(items) => exists|i: int|
            0 <= i < items.len() && holds_node(#[trigger] items[i], node),
        JsonView::Object(members) => exists|i: int|
            0 <= i < members.len() && holds_node((#[trigger] members[i]).1, node),
        _ => false,
    }
}

/// What stands inside a part of a value stands inside the value.
pub proof fn lemma_holds_node_inside(value: JsonView, part: JsonView, node: JsonView)
    requires
        holds_node(value, part),
        holds_node(part, node),
    ensures
        holds_node(value, node),
    decreases value,
{
    if value != part {
        match value {
            JsonView::Array(items) => {
                let i = choose|i: int| 0 <= i < items.len() && holds_node(#[trigger] items[i], part);
                lemma_holds_node_inside(items[i], part, node);
            },
            JsonView::Object(members) => {
                let i = choose|i: int|
                    0 <= i < members.len() && holds_node((#[trigger] members[i]).1, part);
                lemma_holds_node_inside(members[i].1, part, node);
            },
            _ => {},
        }
    }
}

/// A member or an item of a value stands inside the value.
proof fn lemma_child_inside(value: JsonView, key: Seq<char>, index: nat)
    ensures
        member(value, key) matches Some(found) ==> holds_node(value, found),
        item(value, index) matches Some(found) ==> holds_node(value, found),
{
    match value {
        JsonView::Object(members) => {
            lemma_position_of(members, key, 0);
            let at = position_of(members, key, 0);
            if at < members.len() {
                assert(holds_node(members[at].1, members[at].1));
            }
        },
        JsonView::Array(items) => {
            if index < items.len() {
                assert(holds_node(items[index as int], items[index as int]));
            }
        },
        _ => {},
    }
}

/// Where a segment leads is a node of the value that it leads from.
proof fn lemma_step_inside(value: JsonView, s: Seq<char>, from: int, to: int)
    ensures
        step(value, s, from, to) matches Some(found) ==> holds_node(value, found),
{
    if let Some(found) = step(value, s, from, to) {
        let open = find(s, '[', from, to);
        if open < to && find(s, ']', from, to) < to {
            let index = index_value(s, open + 1, to - 1)->0;
            if open == from {
                lemma_child_inside(value, Seq::empty(), index);
            } else {
                let key = s.subrange(from, open);
                let holder = member(value, key)->0;
                lemma_child_inside(value, key, 0);
                lemma_child_inside(holder, Seq::empty(), index);
                lemma_holds_node_inside(value, holder, found);
            }
        } else {
            lemma_child_inside(value, s.subrange(from, to), 0);
        }
    }
}

/// Where the rest of a path leads is a node of the value that it leads
/// from.
proof fn lemma_resolve_inside(value: JsonView, path: Seq<char>, from: int)
    ensures
        resolve(value, path, from) matches Some(found) ==> holds_node(value, found),
    decreases path.len() - from,
{
    let end = find(path, '.', from, path.len() as int);
    if from <= path.len() {
        lemma_step_inside(value, path, from, end);
        if let Some(next) = step(value, path, from, end) {
            if end < path.len() {
                lemma_find(path, '.', from, path.len() as int);
                lemma_resolve_inside(next, path, end + 1);
                if let Some(found) = resolve(next, path, end + 1) {
                    lemma_holds_node_inside(value, next, found);
                }
            }
        }
    }
}

/// A query makes nothing up: what it finds is the value itself or a node
/// inside it.
pub proof fn lemma_query_finds_nodes(value: JsonView, path: Seq<char>)
    ensures
        query(value, path) matches Some(found) ==> holds_node(value, found),
{
    if path.len() > 0 {
        lemma_resolve_inside(value, path, 0);
    }
}

} // verus!
