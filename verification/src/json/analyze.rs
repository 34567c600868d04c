//! The analyzer: one line of description per node of a value, each with the
//! path that leads to the node.

use vstd::prelude::*;
use crate::json::render::bool_text;
use crate::json::value::{JsonValue, JsonView};
use crate::text::{
    chars_of, decimal, decimal_text, decimal_text_wide, push_all, push_str, text_of, utf8_len,
    utf8_length,
};

verus! {

/// The path of the item at `index` of the array at `path`.
pub open spec fn item_path(path: Seq<char>, index: nat) -> Seq<char> {
    path + seq!['['] + decimal(index) + seq![']']
}

/// The path of the member `key` of the object at `path`: the key alone at
/// the root, else the path, a point and the key.
pub open spec fn member_path(path: Seq<char>, key: Seq<char>) -> Seq<char> {
    if path.len() == 0 {
        key
    } else {
        path + seq!['.'] + key
    }
}

/// The number of bytes that `text` takes in UTF-8.
pub open spec fn byte_length(text: Seq<char>) -> nat {
    utf8_length(text, text.len() as int)
}

impl JsonView {
    /// What the analyzer says of the node itself.
    pub open spec fn describe(self) -> Seq<char> {
        match self {
            JsonView::Null => "null"@,
            JsonView::Bool(b) => "boolean ("@ + bool_text(b) + ")"@,
            JsonView::Number(number) => "number ("@ + number.render() + ")"@,
            JsonView::String(text) => "string ("@ + text + ", length "@ + decimal(
                byte_length(text),
            ) + ")"@,
            JsonView::Array(items) => "array (length "@ + decimal(items.len()) + ")"@,
            JsonView::Object(members) => "object ("@ + decimal(members.len()) + " properties)"@,
        }
    }

    /// The lines of the analysis of the value that stands at `path`: the
    /// line of the node itself, then the lines of its items or members, in
    /// order.
    pub open spec fn analyze(self, path: Seq<char>) -> Seq<(Seq<char>, Seq<char>)>
        decreases self, 0int,
    {
        match self {
            JsonView::Array(items) => seq![(path, self.describe())] + Self::analyze_items(
                items,
                0,
                path,
            ),
            JsonView::Object(members) => seq![(path, self.describe())] + Self::analyze_members(
                members,
                0,
                path,
            ),
            _ => seq![(path, self.describe())],
        }
    }

    /// The lines of the items from `from` on of the array at `path`.
    pub open spec fn analyze_items(items: Seq<JsonView>, from: int, path: Seq<char>) -> Seq<
        (Seq<char>, Seq<char>),
    >
        decreases items, items.len() - from,
    {
        if from < 0 || from >= items.len() {
            Seq::empty()
        } else {
            items[from].analyze(item_path(path, from as nat)) + Self::analyze_items(
                items,
                from + 1,
                path,
            )
        }
    }

    /// The lines of the members from `from` on of the object at `path`.
    pub open spec fn analyze_members(
        members: Seq<(Seq<char>, JsonView)>,
        from: int,
        path: Seq<char>,
    ) -> Seq<(Seq<char>, Seq<char>)>
        decreases members, members.len() - from,
    {
        if from < 0 || from >= members.len() {
            Seq::empty()
        } else {
            members[from].1.analyze(member_path(path, members[from].0)) + Self::analyze_members(
                members,
                from + 1,
                path,
            )
        }
    }
}

/// What the lines hold, as characters.
pub open spec fn line_views(lines: Seq<(String, String)>) -> Seq<(Seq<char>, Seq<char>)> {
    Seq::new(lines.len(), |i: int| (lines[i].0@, lines[i].1@))
}

/// What the analyzer says of the node itself.
pub fn describe(value: &JsonValue) -> (text: Vec<char>)
    ensures
        text@ == value@.describe(),
{
    let mut out: Vec<char> = Vec::new();
    match value {
        JsonValue::Null => {
            push_str(&mut out, "null");
            proof {
                assert(out@ =~= value@.describe());
            }
        },
        JsonValue::Bool(b) => {
            push_str(&mut out, "boolean (");
            if *b {
                push_str(&mut out, "true");
                proof {
                    reveal_strlit("true");
                    assert("true"@ =~= bool_text(true));
                }
            } else {
                push_str(&mut out, "false");
                proof {
                    reveal_strlit("false");
                    assert("false"@ =~= bool_text(false));
                }
            }
            push_str(&mut out, ")");
            proof {
                assert(out@ =~= value@.describe());
            }
        },
        JsonValue::Number(number) => {
            push_str(&mut out, "number (");
            number.render_into(&mut out);
            push_str(&mut out, ")");
            proof {
                assert(out@ =~= value@.describe());
            }
        },
        JsonValue::String(text) => {
            push_str(&mut out, "string (");
            let chars = chars_of(text.as_str());
            push_all(&mut out, &chars);
            push_str(&mut out, ", length ");
            let length = decimal_text_wide(utf8_len(&chars));
            push_all(&mut out, &length);
            push_str(&mut out, ")");
            proof {
                assert(out@ =~= value@.describe());
            }
        },
        JsonValue::Array(items) => {
            push_str(&mut out, "array (length ");
            let length = decimal_text(items.len());
            push_all(&mut out, &length);
            push_str(&mut out, ")");
            proof {
                assert(value@->Array_0.len() == items.len());
                assert(out@ =~= value@.describe());
            }
        },
        JsonValue::Object(object) => {
            push_str(&mut out, "object (");
            let count = decimal_text(object.len());
            push_all(&mut out, &count);
            push_str(&mut out, " properties)");
            proof {
                assert(out@ =~= value@.describe());
            }
        },
    }
    out
}

/// Appends the lines of the analysis of `value`, which stands at `path`, to
/// `lines`.
pub fn analyze_into(value: &JsonValue, path: &Vec<char>, lines: &mut Vec<(String, String)>)
    ensures
        line_views(final(lines)@) == line_views(old(lines)@) + value@.analyze(path@),
    decreases value,
{
    let description = describe(value);
    lines.push((text_of(path), text_of(&description)));
    let ghost head = line_views(lines@);
    proof {
        assert(head =~= line_views(old(lines)@) + seq![(path@, value@.describe())]);
    }
    match value {
        JsonValue::Array(items) => {
            let ghost views = value@->Array_0;
            let count = items.len();
            let mut i: usize = 0;
            while i < count
                invariant
                    i <= count,
                    count == items.len(),
                    value is Array && value->Array_0 == *items,
                    views.len() == count,
                    forall|j: int| 0 <= j < count ==> views[j] == #[trigger] items[j]@,
                    line_views(lines@) + JsonView::analyze_items(views, i as int, path@) == head
                        + JsonView::analyze_items(views, 0, path@),
                decreases count - i,
            {
                let ghost before = line_views(lines@);
                let mut inner: Vec<char> = Vec::new();
                push_all(&mut inner, path);
                inner.push('[');
                let index = decimal_text(i);
                push_all(&mut inner, &index);
                inner.push(']');
                proof {
                    assert(inner@ =~= item_path(path@, i as nat));
                }
                analyze_into(&items[i], &inner, lines);
                proof {
                    assert(line_views(lines@) + JsonView::analyze_items(views, i + 1, path@)
                        =~= before + JsonView::analyze_items(views, i as int, path@));
                }
                i += 1;
            }
            proof {
                assert(line_views(lines@) =~= line_views(old(lines)@) + value@.analyze(path@));
            }
        },
        JsonValue::Object(object) => {
            let ghost members = object@;
            let count = object.len();
            let mut i: usize = 0;
            while i < count
                invariant
                    i <= count,
                    count == members.len(),
                    value is Object && value->Object_0 == *object,
                    members == object@,
                    line_views(lines@) + JsonView::analyze_members(members, i as int, path@)
                        == head + JsonView::analyze_members(members, 0, path@),
                decreases count - i,
            {
                let ghost before = line_views(lines@);
                let mut inner: Vec<char> = Vec::new();
                if path.len() > 0 {
                    push_all(&mut inner, path);
                    inner.push('.');
                }
                push_all(&mut inner, object.key_chars(i));
                proof {
                    assert(inner@ =~= member_path(path@, members[i as int].0));
                }
                analyze_into(object.value_at(i), &inner, lines);
                proof {
                    assert(line_views(lines@) + JsonView::analyze_members(members, i + 1, path@)
                        =~= before + JsonView::analyze_members(members, i as int, path@));
                }
                i += 1;
            }
            proof {
                assert(line_views(lines@) =~= line_views(old(lines)@) + value@.analyze(path@));
            }
        },
        _ => {
            proof {
                assert(line_views(lines@) =~= line_views(old(lines)@) + value@.analyze(path@));
            }
        },
    }
}

/// The analysis of `value`, which stands at `path`: for every node a pair
/// of its path and its description, the node before what it holds.
pub fn analyze_json(value: &JsonValue, path: String) -> (lines: Vec<(String, String)>)
    ensures
        line_views(lines@) == value@.analyze(path@),
{
    let mut lines: Vec<(String, String)> = Vec::new();
    let chars = chars_of(path.as_str());
    analyze_into(value, &chars, &mut lines);
    proof {
        assert(line_views(lines@) =~= value@.analyze(path@));
    }
    lines
}

} // verus!
