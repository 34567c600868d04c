//! The two renderers: one line, or one member per line with indentation.
//!
//! Both write the members of an object in the lexicographic order of their
//! keys, and both escape quotes and backslashes in strings, so that what is
//! written can be read back.

use vstd::prelude::*;
use crate::json::value::{JsonValue, JsonView};
use crate::text::{push_all, text_of};

verus! {

/// How a character of a string is written: a quote and a backslash after a
/// backslash, every other character as it is.
pub open spec fn escape(c: char) -> Seq<char> {
    if c == '"' || c == '\\' {
        seq!['\\', c]
    } else {
        seq![c]
    }
}

/// The characters of `text` from `from` on, escaped.
pub open spec fn escaped_from(text: Seq<char>, from: int) -> Seq<char>
    decreases text.len() - from,
{
    if from < 0 || from >= text.len() {
        Seq::empty()
    } else {
        escape(text[from]) + escaped_from(text, from + 1)
    }
}

/// `text` between quotes, escaped.
pub open spec fn quoted(text: Seq<char>) -> Seq<char> {
    seq!['"'] + escaped_from(text, 0) + seq!['"']
}

/// The word for a boolean.
pub open spec fn bool_text(b: bool) -> Seq<char> {
    if b {
        seq!['t', 'r', 'u', 'e']
    } else {
        seq!['f', 'a', 'l', 's', 'e']
    }
}

/// The word for the null value.
pub open spec fn null_text() -> Seq<char> {
    seq!['n', 'u', 'l', 'l']
}

/// What separates two items on one line; nothing after the last item.
pub open spec fn separator(index: int, count: int) -> Seq<char> {
    if index + 1 < count {
        seq![',', ' ']
    } else {
        Seq::empty()
    }
}

/// What ends the line of an item: a comma after all but the last.
pub open spec fn line_end(index: int, count: int) -> Seq<char> {
    if index + 1 < count {
        seq![',', '\n']
    } else {
        seq!['\n']
    }
}

/// The margin of the next deeper level: two more spaces.
pub open spec fn deeper(margin: Seq<char>) -> Seq<char> {
    margin + seq![' ', ' ']
}

/// The margin of a nesting level: two spaces per level.
pub open spec fn margin_of(level: nat) -> Seq<char> {
    Seq::new(2 * level, |i: int| ' ')
}

impl JsonView {
    /// The value on one line. Items and members are separated by a comma
    /// and a space, a key from its value by a colon and a space.
    pub open spec fn render_compact(self) -> Seq<char>
        decreases self, 0int,
    {
        match self {
            JsonView::Null => null_text(),
            JsonView::Bool(b) => bool_text(b),
            JsonView::Number(number) => number.render(),
            JsonView::String(text) => quoted(text),
            JsonView::Array(items) => seq!['['] + Self::compact_items(items, 0) + seq![']'],
            JsonView::Object(members) => seq!['{'] + Self::compact_members(members, 0) + seq![
                '}',
            ],
        }
    }

    /// The items from `from` on, on one line.
    pub open spec fn compact_items(items: Seq<JsonView>, from: int) -> Seq<char>
        decreases items, items.len() - from,
    {
        if from < 0 || from >= items.len() {
            Seq::empty()
        } else {
            items[from].render_compact() + separator(from, items.len() as int)
                + Self::compact_items(items, from + 1)
        }
    }

    /// The members from `from` on, on one line.
    pub open spec fn compact_members(members: Seq<(Seq<char>, JsonView)>, from: int) -> Seq<char>
        decreases members, members.len() - from,
    {
        if from < 0 || from >= members.len() {
            Seq::empty()
        } else {
            quoted(members[from].0) + seq![':', ' '] + members[from].1.render_compact()
                + separator(from, members.len() as int) + Self::compact_members(members, from + 1)
        }
    }

    /// The value over several lines, where the line it starts on has the
    /// margin `margin`. An empty array or object is written as `[]` or
    /// `{}`; any other has one item or member per line, two spaces deeper,
    /// a comma after all but the last, and its closing bracket on a line of
    /// its own at the margin.
    pub open spec fn render_pretty(self, margin: Seq<char>) -> Seq<char>
        decreases self, 0int,
    {
        match self {
            JsonView::Array(items) => if items.len() == 0 {
                seq!['[', ']']
            } else {
                seq!['[', '\n'] + Self::pretty_items(items, 0, deeper(margin)) + margin + seq![']']
            },
            JsonView::Object(members) => if members.len() == 0 {
                seq!['{', '}']
            } else {
                seq!['{', '\n'] + Self::pretty_members(members, 0, deeper(margin)) + margin
                    + seq!['}']
            },
            _ => self.render_compact(),
        }
    }

    /// The lines of the items from `from` on, at the margin `margin`.
    pub open spec fn pretty_items(items: Seq<JsonView>, from: int, margin: Seq<char>) -> Seq<char>
        decreases items, items.len() - from,
    {
        if from < 0 || from >= items.len() {
            Seq::empty()
        } else {
            margin + items[from].render_pretty(margin) + line_end(from, items.len() as int)
                + Self::pretty_items(items, from + 1, margin)
        }
    }

    /// The lines of the members from `from` on, at the margin `margin`.
    pub open spec fn pretty_members(
        members: Seq<(Seq<char>, JsonView)>,
        from: int,
        margin: Seq<char>,
    ) -> Seq<char>
        decreases members, members.len() - from,
    {
        if from < 0 || from >= members.len() {
            Seq::empty()
        } else {
            margin + quoted(members[from].0) + seq![':', ' '] + members[from].1.render_pretty(
                margin,
            ) + line_end(from, members.len() as int) + Self::pretty_members(
                members,
                from + 1,
                margin,
            )
        }
    }
}

/// Appends `text` between quotes, escaped, to `out`.
pub fn push_quoted(out: &mut Vec<char>, text: &Vec<char>)
    ensures
        final(out)@ == old(out)@ + quoted(text@),
{
    out.push('"');
    let mut i: usize = 0;
    while i < text.len()
        invariant
            i <= text.len(),
            out@ + escaped_from(text@, i as int) == old(out)@ + seq!['"'] + escaped_from(text@, 0),
        decreases text.len() - i,
    {
        let ghost before = out@;
        let c = text[i];
        if c == '"' || c == '\\' {
            out.push('\\');
        }
        out.push(c);
        proof {
            assert(out@ =~= before + escape(c));
            assert(out@ + escaped_from(text@, i + 1) =~= before + escaped_from(text@, i as int));
        }
        i += 1;
    }
    out.push('"');
    proof {
        assert(out@ =~= old(out)@ + quoted(text@));
    }
}

fn push_separator(out: &mut Vec<char>, index: usize, count: usize)
    requires
        index < count,
    ensures
        final(out)@ == old(out)@ + separator(index as int, count as int),
{
    if index + 1 < count {
        out.push(',');
        out.push(' ');
    }
    proof {
        assert(out@ =~= old(out)@ + separator(index as int, count as int));
    }
}

fn push_line_end(out: &mut Vec<char>, index: usize, count: usize)
    requires
        index < count,
    ensures
        final(out)@ == old(out)@ + line_end(index as int, count as int),
{
    if index + 1 < count {
        out.push(',');
    }
    out.push('\n');
    proof {
        assert(out@ =~= old(out)@ + line_end(index as int, count as int));
    }
}

fn push_scalar(value: &JsonValue, out: &mut Vec<char>)
    requires
        !(value is Array),
        !(value is Object),
    ensures
        final(out)@ == old(out)@ + value@.render_compact(),
{
    match value {
        JsonValue::Null => {
            out.push('n');
            out.push('u');
            out.push('l');
            out.push('l');
            proof {
                assert(out@ =~= old(out)@ + null_text());
            }
        },
        JsonValue::Bool(b) => {
            if *b {
                out.push('t');
                out.push('r');
                out.push('u');
                out.push('e');
            } else {
                out.push('f');
                out.push('a');
                out.push('l');
                out.push('s');
                out.push('e');
            }
            proof {
                assert(out@ =~= old(out)@ + bool_text(*b));
            }
        },
        JsonValue::Number(number) => {
            number.render_into(out);
        },
        JsonValue::String(text) => {
            let chars = crate::text::chars_of(text.as_str());
            push_quoted(out, &chars);
        },
        _ => {},
    }
}

/// Appends the one-line form of `value` to `out`.
pub fn render_compact_into(value: &JsonValue, out: &mut Vec<char>)
    ensures
        final(out)@ == old(out)@ + value@.render_compact(),
    decreases value,
{
    match value {
        JsonValue::Array(items) => {
            let ghost views = value@->Array_0;
            out.push('[');
            let count = items.len();
            let mut i: usize = 0;
            while i < count
                invariant
                    i <= count,
                    count == items.len(),
                    value is Array && value->Array_0 == *items,
                    views.len() == count,
                    forall|j: int| 0 <= j < count ==> views[j] == #[trigger] items[j]@,
                    out@ + JsonView::compact_items(views, i as int) == old(out)@ + seq!['[']
                        + JsonView::compact_items(views, 0),
                decreases count - i,
            {
                let ghost before = out@;
                render_compact_into(&items[i], out);
                push_separator(out, i, count);
                proof {
                    assert(out@ + JsonView::compact_items(views, i + 1) =~= before
                        + JsonView::compact_items(views, i as int));
                }
                i += 1;
            }
            out.push(']');
            proof {
                assert(out@ =~= old(out)@ + value@.render_compact());
            }
        },
        JsonValue::Object(object) => {
            let ghost members = object@;
            out.push('{');
            let count = object.len();
            let mut i: usize = 0;
            while i < count
                invariant
                    i <= count,
                    count == members.len(),
                    value is Object && value->Object_0 == *object,
                    members == object@,
                    out@ + JsonView::compact_members(members, i as int) == old(out)@ + seq!['{']
                        + JsonView::compact_members(members, 0),
                decreases count - i,
            {
                let ghost before = out@;
                push_quoted(out, object.key_chars(i));
                out.push(':');
                out.push(' ');
                render_compact_into(object.value_at(i), out);
                push_separator(out, i, count);
                proof {
                    assert(out@ + JsonView::compact_members(members, i + 1) =~= before
                        + JsonView::compact_members(members, i as int));
                }
                i += 1;
            }
            out.push('}');
            proof {
                assert(out@ =~= old(out)@ + value@.render_compact());
            }
        },
        _ => {
            push_scalar(value, out);
        },
    }
}

/// Appends the indented form of `value` to `out`, where the line it starts
/// on has the margin `margin`. The margin is the same after the call.
pub fn render_pretty_into(value: &JsonValue, margin: &mut Vec<char>, out: &mut Vec<char>)
    ensures
        final(out)@ == old(out)@ + value@.render_pretty(old(margin)@),
        final(margin)@ == old(margin)@,
    decreases value,
{
    match value {
        JsonValue::Array(items) => {
            let ghost views = value@->Array_0;
            let count = items.len();
            out.push('[');
            if count == 0 {
                out.push(']');
                proof {
                    assert(out@ =~= old(out)@ + value@.render_pretty(old(margin)@));
                }
                return ;
            }
            out.push('\n');
            margin.push(' ');
            margin.push(' ');
            let ghost inner = margin@;
            let mut i: usize = 0;
            while i < count
                invariant
                    i <= count,
                    count == items.len(),
                    value is Array && value->Array_0 == *items,
                    views.len() == count,
                    margin@ == inner,
                    forall|j: int| 0 <= j < count ==> views[j] == #[trigger] items[j]@,
                    out@ + JsonView::pretty_items(views, i as int, inner) == old(out)@ + seq![
                        '[',
                        '\n',
                    ] + JsonView::pretty_items(views, 0, inner),
                decreases count - i,
            {
                let ghost before = out@;
                push_all(out, margin);
                render_pretty_into(&items[i], margin, out);
                push_line_end(out, i, count);
                proof {
                    assert(out@ + JsonView::pretty_items(views, i + 1, inner) =~= before
                        + JsonView::pretty_items(views, i as int, inner));
                }
                i += 1;
            }
            margin.pop();
            margin.pop();
            proof {
                assert(margin@ =~= old(margin)@);
                assert(inner =~= deeper(old(margin)@));
            }
            push_all(out, margin);
            out.push(']');
            proof {
                assert(out@ =~= old(out)@ + value@.render_pretty(old(margin)@));
            }
        },
        JsonValue::Object(object) => {
            let ghost members = object@;
            let count = object.len();
            out.push('{');
            if count == 0 {
                out.push('}');
                proof {
                    assert(out@ =~= old(out)@ + value@.render_pretty(old(margin)@));
                }
                return ;
            }
            out.push('\n');
            margin.push(' ');
            margin.push(' ');
            let ghost inner = margin@;
            let mut i: usize = 0;
            while i < count
                invariant
                    i <= count,
                    count == members.len(),
                    value is Object && value->Object_0 == *object,
                    members == object@,
                    margin@ == inner,
                    out@ + JsonView::pretty_members(members, i as int, inner) == old(out)@ + seq![
                        '{',
                        '\n',
                    ] + JsonView::pretty_members(members, 0, inner),
                decreases count - i,
            {
                let ghost before = out@;
                push_all(out, margin);
                push_quoted(out, object.key_chars(i));
                out.push(':');
                out.push(' ');
                render_pretty_into(object.value_at(i), margin, out);
                push_line_end(out, i, count);
                proof {
                    assert(out@ + JsonView::pretty_members(members, i + 1, inner) =~= before
                        + JsonView::pretty_members(members, i as int, inner));
                }
                i += 1;
            }
            margin.pop();
            margin.pop();
            proof {
                assert(margin@ =~= old(margin)@);
                assert(inner =~= deeper(old(margin)@));
            }
            push_all(out, margin);
            out.push('}');
            proof {
                assert(out@ =~= old(out)@ + value@.render_pretty(old(margin)@));
            }
        },
        _ => {
            push_scalar(value, out);
        },
    }
}

impl JsonValue {
    /// The value on one line, members in the order of their keys.
    pub fn render_compact(&self) -> (text: String)
        ensures
            text@ == self@.render_compact(),
    {
        let mut out: Vec<char> = Vec::new();
        render_compact_into(self, &mut out);
        proof {
            assert(out@ =~= self@.render_compact());
        }
        text_of(&out)
    }

    /// The value over several lines, two spaces deeper per nesting level,
    /// members in the order of their keys.
    pub fn render_pretty(&self) -> (text: String)
        ensures
            text@ == self@.render_pretty(Seq::empty()),
    {
        pretty_print_json(self, 0)
    }
}

/// The value over several lines, where the line it starts on is indented by
/// `indent` levels of two spaces.
pub fn pretty_print_json(value: &JsonValue, indent: usize) -> (text: String)
    ensures
        text@ == value@.render_pretty(margin_of(indent as nat)),
{
    let mut margin: Vec<char> = Vec::new();
    let mut level: usize = 0;
    while level < indent
        invariant
            level <= indent,
            margin@ == margin_of(level as nat),
        decreases indent - level,
    {
        margin.push(' ');
        margin.push(' ');
        level += 1;
        proof {
            assert(margin@ =~= margin_of(level as nat));
        }
    }
    let mut out: Vec<char> = Vec::new();
    render_pretty_into(value, &mut margin, &mut out);
    proof {
        assert(out@ =~= value@.render_pretty(margin_of(indent as nat)));
        assert(margin_of(0) =~= Seq::<char>::empty());
    }
    text_of(&out)
}

} // verus!
