//! The value model: a closed tree of six kinds of node.

use vstd::prelude::*;
use crate::json::number::{Decimal, JsonNumber};
use crate::text::{chars_of, text_of};

verus! {

/// The mathematical content of a JSON value. The members of an object are
/// listed in the strict lexicographic order of their keys, so that two
/// objects are equal exactly when they map the same keys to the same values.
pub ghost enum JsonView {
    Null,
    Bool(bool),
    Number(Decimal),
    String(Seq<char>),
    Array(Seq<JsonView>),
    Object(Seq<(Seq<char>, JsonView)>),
}

/// Whether `a` comes before `b` in the lexicographic order of their
/// characters, from position `from` on.
pub open spec fn key_less_from(a: Seq<char>, b: Seq<char>, from: int) -> bool
    decreases b.len() - from,
{
    if from < 0 || from >= b.len() {
        false
    } else if from >= a.len() {
        true
    } else if a[from] != b[from] {
        (a[from] as int) < (b[from] as int)
    } else {
        key_less_from(a, b, from + 1)
    }
}

/// Whether `a` comes strictly before `b` in the lexicographic order of their
/// characters (a proper prefix comes first).
pub open spec fn key_less(a: Seq<char>, b: Seq<char>) -> bool {
    key_less_from(a, b, 0)
}

/// Whether the keys of `members` are in strictly increasing order.
pub open spec fn keys_sorted(members: Seq<(Seq<char>, JsonView)>) -> bool {
    forall|i: int, j: int|
        0 <= i < j < members.len() ==> #[trigger] key_less(members[i].0, members[j].0)
}

/// The index of the first member at or after `from` whose key is `key` (the
/// length where there is none).
pub open spec fn position_of(members: Seq<(Seq<char>, JsonView)>, key: Seq<char>, from: int) -> int
    decreases members.len() - from,
{
    if from < 0 || from >= members.len() {
        members.len() as int
    } else if members[from].0 == key {
        from
    } else {
        position_of(members, key, from + 1)
    }
}

/// The value that `members` gives to `key`, if any.
pub open spec fn lookup(members: Seq<(Seq<char>, JsonView)>, key: Seq<char>) -> Option<JsonView> {
    let i = position_of(members, key, 0);
    if i < members.len() {
        Some(members[i].1)
    } else {
        None
    }
}

/// The index of the first member at or after `from` whose key is not below
/// `key` (the length where there is none).
pub open spec fn lower_bound(members: Seq<(Seq<char>, JsonView)>, key: Seq<char>, from: int) -> int
    decreases members.len() - from,
{
    if from < 0 || from >= members.len() {
        members.len() as int
    } else if key_less(members[from].0, key) {
        lower_bound(members, key, from + 1)
    } else {
        from
    }
}

/// `members` with `key` set to `value`: the member with that key is
/// replaced, or a new member is put in at its place in the order.
pub open spec fn with_member(
    members: Seq<(Seq<char>, JsonView)>,
    key: Seq<char>,
    value: JsonView,
) -> Seq<(Seq<char>, JsonView)> {
    let i = lower_bound(members, key, 0);
    if i < members.len() && members[i].0 == key {
        members.update(i, (key, value))
    } else {
        members.insert(i, (key, value))
    }
}

impl JsonView {
    /// Numbers are canonical and the keys of every object, at any depth, are
    /// in strictly increasing order.
    pub open spec fn wf(self) -> bool
        decreases self,
    {
        match self {
            JsonView::Number(d) => d.canonical(),
            JsonView::Array(items) => forall|i: int|
                0 <= i < items.len() ==> (#[trigger] items[i]).wf(),
            JsonView::Object(members) => keys_sorted(members) && forall|i: int|
                0 <= i < members.len() ==> (#[trigger] members[i]).1.wf(),
            _ => true,
        }
    }
}

/// A JSON value.
#[derive(Debug, PartialEq)]
pub enum JsonValue {
    Null,
    Bool(bool),
    Number(JsonNumber),
    String(String),
    Array(Vec<JsonValue>),
    Object(JsonObject),
}

/// One member of an object.
#[derive(Debug, PartialEq)]
struct Member {
    key: Vec<char>,
    value: JsonValue,
}

/// A mapping from text keys to values, its keys unique.
#[derive(Debug, PartialEq)]
pub struct JsonObject {
    members: Vec<Member>,
}

impl View for JsonValue {
    type V = JsonView;

    open spec fn view(&self) -> JsonView
        decreases self,
    {
        match self {
            JsonValue::Null => JsonView::Null,
            JsonValue::Bool(b) => JsonView::Bool(*b),
            JsonValue::Number(n) => JsonView::Number(n@),
            JsonValue::String(s) => JsonView::String(s@),
            JsonValue::Array(items) => JsonView::Array(
                Seq::new(
                    items@.len(),
                    |i: int|
                        if 0 <= i < items@.len() {
                            items@[i].view()
                        } else {
                            JsonView::Null
                        },
                ),
            ),
            JsonValue::Object(object) => JsonView::Object(object.view()),
        }
    }
}

impl View for JsonObject {
    type V = Seq<(Seq<char>, JsonView)>;

    closed spec fn view(&self) -> Seq<(Seq<char>, JsonView)>
        decreases self,
    {
        Seq::new(
            self.members@.len(),
            |i: int|
                if 0 <= i < self.members@.len() {
                    (self.members@[i].key@, self.members@[i].value.view())
                } else {
                    (Seq::empty(), JsonView::Null)
                },
        )
    }
}


/// No key comes before itself.
pub proof fn lemma_key_less_irreflexive(a: Seq<char>, from: int)
    ensures
        !key_less_from(a, a, from),
    decreases a.len() - from,
{
    if 0 <= from < a.len() {
        lemma_key_less_irreflexive(a, from + 1);
    }
}

/// The order of keys is transitive.
pub proof fn lemma_key_less_transitive(a: Seq<char>, b: Seq<char>, c: Seq<char>, from: int)
    requires
        key_less_from(a, b, from),
        key_less_from(b, c, from),
    ensures
        key_less_from(a, c, from),
    decreases c.len() - from,
{
    if from < a.len() && a[from] == b[from] && b[from] == c[from] {
        lemma_key_less_transitive(a, b, c, from + 1);
    }
}

/// Two keys of which neither comes before the other agree from `from` on.
pub proof fn lemma_key_less_total(a: Seq<char>, b: Seq<char>, from: int)
    requires
        0 <= from <= a.len(),
        from <= b.len(),
        !key_less_from(a, b, from),
        !key_less_from(b, a, from),
    ensures
        a.len() == b.len(),
        forall|i: int| from <= i < a.len() ==> a[i] == b[i],
    decreases a.len() - from,
{
    if from < a.len() && from < b.len() {
        lemma_key_less_total(a, b, from + 1);
    }
}

/// Of two different keys exactly one comes before the other.
pub proof fn lemma_key_order(a: Seq<char>, b: Seq<char>)
    ensures
        a == b ==> !key_less(a, b) && !key_less(b, a),
        a != b ==> (key_less(a, b) <==> !key_less(b, a)),
{
    lemma_key_less_irreflexive(a, 0);
    if key_less(a, b) && key_less(b, a) {
        lemma_key_less_transitive(a, b, a, 0);
    }
    if !key_less(a, b) && !key_less(b, a) {
        lemma_key_less_total(a, b, 0);
        assert(a =~= b);
    }
}

/// What `position_of` finds: the first member with the key.
pub proof fn lemma_position_of(members: Seq<(Seq<char>, JsonView)>, key: Seq<char>, from: int)
    requires
        0 <= from <= members.len(),
    ensures
        from <= position_of(members, key, from) <= members.len(),
        position_of(members, key, from) < members.len() ==> members[position_of(
            members,
            key,
            from,
        )].0 == key,
        forall|j: int| from <= j < position_of(members, key, from) ==> members[j].0 != key,
    decreases members.len() - from,
{
    if from < members.len() && members[from].0 != key {
        lemma_position_of(members, key, from + 1);
    }
}

/// What `lower_bound` finds: the first member whose key is not below `key`.
pub proof fn lemma_lower_bound(members: Seq<(Seq<char>, JsonView)>, key: Seq<char>, from: int)
    requires
        0 <= from <= members.len(),
    ensures
        from <= lower_bound(members, key, from) <= members.len(),
        lower_bound(members, key, from) < members.len() ==> !key_less(
            members[lower_bound(members, key, from)].0,
            key,
        ),
        forall|j: int|
            from <= j < lower_bound(members, key, from) ==> key_less(
                (#[trigger] members[j]).0,
                key,
            ),
    decreases members.len() - from,
{
    if from < members.len() && key_less(members[from].0, key) {
        lemma_lower_bound(members, key, from + 1);
    }
}

/// In a sorted object a key stands at one index at most, and `lookup` gives
/// the value that stands there.
pub proof fn lemma_lookup_at(members: Seq<(Seq<char>, JsonView)>, index: int)
    requires
        keys_sorted(members),
        0 <= index < members.len(),
    ensures
        position_of(members, members[index].0, 0) == index,
        lookup(members, members[index].0) == Some(members[index].1),
{
    let key = members[index].0;
    lemma_position_of(members, key, 0);
    let p = position_of(members, key, 0);
    lemma_key_less_irreflexive(key, 0);
    if p < index {
        assert(key_less(members[p].0, members[index].0));
    }
}

/// `lookup` finds nothing exactly when no member has the key.
pub proof fn lemma_lookup_none(members: Seq<(Seq<char>, JsonView)>, key: Seq<char>)
    ensures
        lookup(members, key) is None <==> (forall|j: int|
            0 <= j < members.len() ==> (#[trigger] members[j]).0 != key),
{
    lemma_position_of(members, key, 0);
}

/// Setting a key keeps the keys in order.
pub proof fn lemma_with_member_sorted(
    members: Seq<(Seq<char>, JsonView)>,
    key: Seq<char>,
    value: JsonView,
)
    requires
        keys_sorted(members),
    ensures
        keys_sorted(with_member(members, key, value)),
        with_member(members, key, value).len() >= 1,
        with_member(members, key, value).len() <= members.len() + 1,
{
    lemma_lower_bound(members, key, 0);
    let i = lower_bound(members, key, 0);
    let after = with_member(members, key, value);
    if i < members.len() && members[i].0 == key {
        assert forall|a: int, b: int| 0 <= a < b < after.len() implies #[trigger] key_less(
            after[a].0,
            after[b].0,
        ) by {
            assert(key_less(members[a].0, members[b].0));
        }
    } else {
        assert forall|a: int, b: int| 0 <= a < b < after.len() implies #[trigger] key_less(
            after[a].0,
            after[b].0,
        ) by {
            if b < i {
                assert(key_less(members[a].0, members[b].0));
            } else if b == i {
                assert(key_less(members[a].0, key));
            } else if a == i {
                // key < members[i] <= members[b - 1]
                lemma_key_order(members[i].0, key);
                if b - 1 > i {
                    assert(key_less(members[i].0, members[b - 1].0));
                    lemma_key_less_transitive(key, members[i].0, members[b - 1].0, 0);
                }
            } else if a < i {
                assert(key_less(members[a].0, members[b - 1].0));
            } else {
                assert(key_less(members[a - 1].0, members[b - 1].0));
            }
        }
    }
}

/// Last write wins: after a key is set, `lookup` gives the new value for it
/// and the old value, or nothing, for every other key.
pub proof fn lemma_with_member_lookup(
    members: Seq<(Seq<char>, JsonView)>,
    key: Seq<char>,
    value: JsonView,
    other: Seq<char>,
)
    requires
        keys_sorted(members),
    ensures
        lookup(with_member(members, key, value), key) == Some(value),
        other != key ==> lookup(with_member(members, key, value), other) == lookup(members, other),
{
    lemma_lower_bound(members, key, 0);
    lemma_with_member_sorted(members, key, value);
    let i = lower_bound(members, key, 0);
    let after = with_member(members, key, value);
    let replaced = i < members.len() && members[i].0 == key;
    assert(after[i] == (key, value));
    lemma_lookup_at(after, i);
    if other != key {
        lemma_position_of(members, other, 0);
        let p = position_of(members, other, 0);
        if p < members.len() {
            let q = if replaced || p < i {
                p
            } else {
                p + 1
            };
            assert(after[q] == members[p]);
            lemma_lookup_at(after, q);
        } else {
            lemma_lookup_none(members, other);
            assert forall|j: int| 0 <= j < after.len() implies (#[trigger] after[j]).0
                != other by {
                if j != i {
                    let k = if replaced || j < i {
                        j
                    } else {
                        j - 1
                    };
                    assert(after[j] == members[k]);
                }
            }
            lemma_lookup_none(after, other);
        }
    }
}

/// Whether `a` comes strictly before `b` in the order of keys.
pub fn key_is_less(a: &Vec<char>, b: &Vec<char>) -> (r: bool)
    ensures
        r == key_less(a@, b@),
{
    let mut i: usize = 0;
    loop
        invariant
            i <= a.len(),
            i <= b.len(),
            key_less(a@, b@) == key_less_from(a@, b@, i as int),
        decreases b.len() - i,
    {
        if i >= b.len() {
            return false;
        }
        if i >= a.len() {
            return true;
        }
        if a[i] != b[i] {
            return a[i] < b[i];
        }
        i += 1;
    }
}

/// Whether `a` and `b` hold the same characters.
pub fn keys_equal(a: &Vec<char>, b: &Vec<char>) -> (r: bool)
    ensures
        r == (a@ == b@),
{
    if a.len() != b.len() {
        return false;
    }
    let mut i: usize = 0;
    while i < a.len()
        invariant
            i <= a.len(),
            a.len() == b.len(),
            forall|j: int| 0 <= j < i ==> a@[j] == b@[j],
        decreases a.len() - i,
    {
        if a[i] != b[i] {
            return false;
        }
        i += 1;
    }
    proof {
        assert(a@ =~= b@);
    }
    true
}

impl JsonValue {
    /// Numbers are canonical and the keys of every object are in order.
    pub open spec fn wf(&self) -> bool {
        self@.wf()
    }
}

impl JsonObject {
    /// The keys are in strictly increasing order, and every value is well
    /// formed.
    pub open spec fn wf(&self) -> bool {
        JsonView::Object(self@).wf()
    }

    /// The object without members.
    pub fn new() -> (object: JsonObject)
        ensures
            object@ == Seq::<(Seq<char>, JsonView)>::empty(),
            object.wf(),
    {
        let object = JsonObject { members: Vec::new() };
        proof {
            assert(object@ =~= Seq::<(Seq<char>, JsonView)>::empty());
        }
        object
    }

    /// The number of members.
    pub fn len(&self) -> (n: usize)
        ensures
            n == self@.len(),
    {
        self.members.len()
    }

    /// Whether the object has no member.
    pub fn is_empty(&self) -> (b: bool)
        ensures
            b == (self@.len() == 0),
    {
        self.members.len() == 0
    }

    /// The key of the member at `index`, in the order of keys.
    pub fn key_chars(&self, index: usize) -> (key: &Vec<char>)
        requires
            index < self@.len(),
        ensures
            key@ == self@[index as int].0,
    {
        &self.members[index].key
    }

    /// The key of the member at `index`, in the order of keys.
    pub fn key_at(&self, index: usize) -> (key: String)
        requires
            index < self@.len(),
        ensures
            key@ == self@[index as int].0,
    {
        text_of(&self.members[index].key)
    }

    /// The value of the member at `index`, in the order of keys.
    pub fn value_at(&self, index: usize) -> (value: &JsonValue)
        requires
            index < self@.len(),
        ensures
            value@ == self@[index as int].1,
            decreases_to!(self => value),
    {
        &self.members[index].value
    }

    /// The value that the object gives to `key`, if any.
    pub fn get_chars(&self, key: &Vec<char>) -> (r: Option<&JsonValue>)
        ensures
            match r {
                Some(value) => lookup(self@, key@) == Some(value@),
                None => lookup(self@, key@) is None,
            },
    {
        let mut i: usize = 0;
        while i < self.members.len()
            invariant
                i <= self.members.len(),
                self@.len() == self.members.len(),
                position_of(self@, key@, 0) == position_of(self@, key@, i as int),
            decreases self.members.len() - i,
        {
            if keys_equal(&self.members[i].key, key) {
                return Some(&self.members[i].value);
            }
            i += 1;
        }
        None
    }

    /// The value that the object gives to `key`, if any.
    pub fn get(&self, key: &str) -> (r: Option<&JsonValue>)
        ensures
            match r {
                Some(value) => lookup(self@, key@) == Some(value@),
                None => lookup(self@, key@) is None,
            },
    {
        let chars = chars_of(key);
        self.get_chars(&chars)
    }

    /// Whether the object has a member with the key.
    pub fn contains_key(&self, key: &str) -> (b: bool)
        ensures
            b == lookup(self@, key@).is_some(),
    {
        self.get(key).is_some()
    }

    /// Sets `key` to `value`. A member with that key is replaced: the last
    /// write wins.
    pub fn insert_chars(&mut self, key: Vec<char>, value: JsonValue)
        requires
            keys_sorted(old(self)@),
        ensures
            final(self)@ == with_member(old(self)@, key@, value@),
            keys_sorted(final(self)@),
            lookup(final(self)@, key@) == Some(value@),
            forall|other: Seq<char>|
                other != key@ ==> lookup(final(self)@, other) == lookup(old(self)@, other),
            old(self).wf() && value.wf() ==> final(self).wf(),
    {
        let mut i: usize = 0;
        while i < self.members.len() && key_is_less(&self.members[i].key, &key)
            invariant
                i <= self.members.len(),
                self@.len() == self.members.len(),
                *self == *old(self),
                lower_bound(self@, key@, 0) == lower_bound(self@, key@, i as int),
            decreases self.members.len() - i,
        {
            i += 1;
        }
        let ghost before = self@;
        proof {
            lemma_with_member_sorted(before, key@, value@);
            assert forall|other: Seq<char>| other != key@ implies lookup(
                with_member(before, key@, value@),
                other,
            ) == lookup(before, other) by {
                lemma_with_member_lookup(before, key@, value@, other);
            }
            lemma_with_member_lookup(before, key@, value@, key@);
        }
        if i < self.members.len() && keys_equal(&self.members[i].key, &key) {
            self.members[i] = Member { key, value };
            proof {
                assert(self@ =~= with_member(before, key@, value@));
            }
        } else {
            self.members.insert(i, Member { key, value });
            proof {
                assert(self@ =~= with_member(before, key@, value@));
            }
        }
        proof {
            if old(self).wf() && value.wf() {
                let after = self@;
                assert forall|j: int| 0 <= j < after.len() implies (#[trigger] after[j]).1.wf() by {
                    if j != i {
                        let k = if before.len() == after.len() || j < i {
                            j
                        } else {
                            j - 1
                        };
                        assert(after[j] == before[k]);
                    }
                }
            }
        }
    }

    /// Sets `key` to `value`. A member with that key is replaced: the last
    /// write wins.
    pub fn insert(&mut self, key: String, value: JsonValue)
        requires
            keys_sorted(old(self)@),
        ensures
            final(self)@ == with_member(old(self)@, key@, value@),
            keys_sorted(final(self)@),
            lookup(final(self)@, key@) == Some(value@),
            forall|other: Seq<char>|
                other != key@ ==> lookup(final(self)@, other) == lookup(old(self)@, other),
            old(self).wf() && value.wf() ==> final(self).wf(),
    {
        let chars = chars_of(key.as_str());
        self.insert_chars(chars, value);
    }
}

impl JsonObject {
    /// A copy of the object.
    pub fn duplicate(&self) -> (copy: JsonObject)
        ensures
            copy@ == self@,
        decreases self,
    {
        let mut members: Vec<Member> = Vec::new();
        let mut i: usize = 0;
        while i < self.members.len()
            invariant
                i <= self.members.len(),
                members.len() == i,
                forall|j: int|
                    0 <= j < i ==> members[j].key@ == self.members[j].key@ && members[j].value@
                        == self.members[j].value@,
            decreases self.members.len() - i,
        {
            let key = self.members[i].key.clone();
            let value = self.members[i].value.duplicate();
            members.push(Member { key, value });
            i += 1;
        }
        let copy = JsonObject { members };
        proof {
            assert(copy@ =~= self@);
        }
        copy
    }
}

impl JsonValue {
    /// A copy of the value.
    pub fn duplicate(&self) -> (copy: JsonValue)
        ensures
            copy@ == self@,
        decreases self,
    {
        match self {
            JsonValue::Null => JsonValue::Null,
            JsonValue::Bool(b) => JsonValue::Bool(*b),
            JsonValue::Number(number) => JsonValue::Number(number.duplicate()),
            JsonValue::String(text) => JsonValue::String(text.clone()),
            JsonValue::Array(items) => {
                let mut copies: Vec<JsonValue> = Vec::new();
                let mut i: usize = 0;
                while i < items.len()
                    invariant
                        i <= items.len(),
                        copies.len() == i,
                        self is Array && self->Array_0 == *items,
                        forall|j: int| 0 <= j < i ==> copies[j]@ == items[j]@,
                    decreases items.len() - i,
                {
                    copies.push(items[i].duplicate());
                    i += 1;
                }
                let copy = JsonValue::Array(copies);
                proof {
                    assert(copy@->Array_0 =~= self@->Array_0);
                }
                copy
            },
            JsonValue::Object(object) => JsonValue::Object(object.duplicate()),
        }
    }
}

impl Clone for JsonValue {
    fn clone(&self) -> (copy: JsonValue)
        ensures
            copy@ == self@,
    {
        self.duplicate()
    }
}

impl Clone for JsonObject {
    fn clone(&self) -> (copy: JsonObject)
        ensures
            copy@ == self@,
    {
        self.duplicate()
    }
}

} // verus!
