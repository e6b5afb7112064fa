//! The value tree that a JSON text denotes.

use vstd::prelude::*;
use vstd::std_specs::cmp::PartialEqSpecImpl;
use crate::number::Number;

verus! {

/// A JSON value.
#[derive(Debug)]
pub enum Json {
    Object(JsonObject),
    Array(Vec<Json>),
    String(String),
    Number(Number),
    Boolean(bool),
    Null,
}

/// The members of a JSON object: values under distinct names, in no
/// particular order.
#[derive(Debug)]
pub struct JsonObject {
    entries: Vec<(String, Json)>,
}

/// What a `Json` stands for: an object is a map from names to values, an
/// array a sequence of values, a number its literal.
pub enum JsonView {
    Object(Map<Seq<char>, JsonView>),
    Array(Seq<JsonView>),
    String(Seq<char>),
    Number(Seq<char>),
    Boolean(bool),
    Null,
}

/// The views of the values of a sequence, in the same order.
pub open spec fn items_view(items: Seq<Json>) -> Seq<JsonView>
    decreases items, 0nat,
{
    if items.len() == 0 {
        Seq::empty()
    } else {
        items_view(items.drop_last()).push(json_view(items.last()))
    }
}

/// The map that a list of members stands for. Where a name occurs twice the
/// later member counts.
pub closed spec fn members_view(entries: Seq<(String, Json)>) -> Map<Seq<char>, JsonView>
    decreases entries, 0nat,
{
    if entries.len() == 0 {
        Map::empty()
    } else {
        members_view(entries.drop_last()).insert(
            entries.last().0@,
            json_view(entries.last().1),
        )
    }
}

/// The map that an object stands for.
pub closed spec fn object_view(object: JsonObject) -> Map<Seq<char>, JsonView>
    decreases object, 0nat,
{
    members_view(object.entries@)
}

/// What a value stands for.
pub open spec fn json_view(json: Json) -> JsonView
    decreases json, 1nat,
{
    match json {
        Json::Object(object) => JsonView::Object(object_view(object)),
        Json::Array(items) => JsonView::Array(items_view(items@)),
        Json::String(text) => JsonView::String(text@),
        Json::Number(number) => JsonView::Number(number@),
        Json::Boolean(b) => JsonView::Boolean(b),
        Json::Null => JsonView::Null,
    }
}

impl View for Json {
    type V = JsonView;

    open spec fn view(&self) -> JsonView {
        json_view(*self)
    }
}

impl View for JsonObject {
    type V = Map<Seq<char>, JsonView>;

    open spec fn view(&self) -> Map<Seq<char>, JsonView> {
        object_view(*self)
    }
}

/// The view of a sequence of values has the view of each value at the
/// value's index.
pub proof fn lemma_items_view(items: Seq<Json>)
    ensures
        items_view(items).len() == items.len(),
        forall|i: int| 0 <= i < items.len() ==> (#[trigger] items_view(items)[i]) == items[i]@,
    decreases items.len(),
{
    if items.len() > 0 {
        lemma_items_view(items.drop_last());
    }
}

/// The view of a sequence with one more value has the view of that value
/// at its end.
pub proof fn lemma_items_view_push(items: Seq<Json>, item: Json)
    ensures
        items_view(items.push(item)) == items_view(items).push(item@),
{
    assert(items.push(item).drop_last() =~= items);
}

/// True where no two members have the same name.
spec fn distinct_names(entries: Seq<(String, Json)>) -> bool {
    forall|i: int, j: int|
        0 <= i < j < entries.len() ==> (#[trigger] entries[i]).0@ != (#[trigger] entries[j]).0@
}

/// A name is in the map exactly where a member has it.
proof fn lemma_members_names(entries: Seq<(String, Json)>, name: Seq<char>)
    ensures
        members_view(entries).contains_key(name) <==> exists|i: int|
            0 <= i < entries.len() && (#[trigger] entries[i]).0@ == name,
    decreases entries.len(),
{
    if entries.len() > 0 {
        let front = entries.drop_last();
        lemma_members_names(front, name);
        if members_view(entries).contains_key(name) {
            if entries.last().0@ == name {
                assert(entries[entries.len() - 1].0@ == name);
            } else {
                let i = choose|i: int| 0 <= i < front.len() && (#[trigger] front[i]).0@ == name;
                assert(entries[i].0@ == name);
            }
        }
        if exists|i: int| 0 <= i < entries.len() && (#[trigger] entries[i]).0@ == name {
            let i = choose|i: int| 0 <= i < entries.len() && (#[trigger] entries[i]).0@ == name;
            if i < entries.len() - 1 {
                assert(front[i].0@ == name);
            }
        }
    }
}

/// Among members with distinct names, the map has each member's value
/// under the member's name.
proof fn lemma_members_value(entries: Seq<(String, Json)>, i: int)
    requires
        distinct_names(entries),
        0 <= i < entries.len(),
    ensures
        members_view(entries).contains_key(entries[i].0@),
        members_view(entries)[entries[i].0@] == entries[i].1@,
    decreases entries.len(),
{
    let front = entries.drop_last();
    if i < entries.len() - 1 {
        lemma_members_value(front, i);
    }
}

/// A member in the place of one of the same name keeps the names distinct
/// and puts its value under the name.
proof fn lemma_members_replace(before: Seq<(String, Json)>, i: int, member: (String, Json))
    requires
        distinct_names(before),
        0 <= i < before.len(),
        before[i].0@ == member.0@,
    ensures
        distinct_names(before.update(i, member)),
        members_view(before.update(i, member)) == members_view(before).insert(
            member.0@,
            member.1@,
        ),
{
    let after = before.update(i, member);
    let expected = members_view(before).insert(member.0@, member.1@);
    assert forall|k: Seq<char>| members_view(after).contains_key(k) <==> expected.contains_key(
        k,
    ) by {
        lemma_members_names(after, k);
        lemma_members_names(before, k);
        lemma_members_value(before, i);
        if members_view(after).contains_key(k) {
            let j = choose|j: int| 0 <= j < after.len() && (#[trigger] after[j]).0@ == k;
        }
        if members_view(before).contains_key(k) {
            let j = choose|j: int| 0 <= j < before.len() && (#[trigger] before[j]).0@ == k;
            assert(after[j].0@ == k);
        }
    }
    assert forall|k: Seq<char>| members_view(after).contains_key(k) implies (
    #[trigger] members_view(after)[k]) == expected[k] by {
        lemma_members_names(after, k);
        let j = choose|j: int| 0 <= j < after.len() && (#[trigger] after[j]).0@ == k;
        lemma_members_value(after, j);
        if j != i {
            lemma_members_value(before, j);
        }
    }
}

/// A member of a new name behind the others keeps the names distinct and
/// puts its value under the name.
proof fn lemma_members_add(before: Seq<(String, Json)>, member: (String, Json))
    requires
        distinct_names(before),
        forall|j: int| 0 <= j < before.len() ==> (#[trigger] before[j]).0@ != member.0@,
    ensures
        distinct_names(before.push(member)),
        members_view(before.push(member)) == members_view(before).insert(member.0@, member.1@),
{
    let after = before.push(member);
    assert(after.drop_last() =~= before);
}

impl JsonObject {
    #[verifier::type_invariant]
    spec fn well_formed(self) -> bool {
        distinct_names(self.entries@)
    }

    /// An object without members.
    pub fn new() -> (object: JsonObject)
        ensures
            object@ == Map::<Seq<char>, JsonView>::empty(),
    {
        JsonObject { entries: Vec::new() }
    }

    /// The value under `name`, if the object has that name.
    pub fn get(&self, name: &str) -> (r: Option<&Json>)
        ensures
            match r {
                Some(value) => self@.contains_key(name@) && self@[name@] == value@,
                None => !self@.contains_key(name@),
            },
    {
        proof {
            use_type_invariant(self);
        }
        let wanted = name.to_owned();
        let mut i: usize = 0;
        while i < self.entries.len()
            invariant
                i <= self.entries.len(),
                wanted@ == name@,
                distinct_names(self.entries@),
                forall|j: int| 0 <= j < i ==> (#[trigger] self.entries@[j]).0@ != name@,
            decreases self.entries.len() - i,
        {
            if self.entries[i].0 == wanted {
                proof {
                    lemma_members_value(self.entries@, i as int);
                }
                return Some(&self.entries[i].1);
            }
            i = i + 1;
        }
        proof {
            lemma_members_names(self.entries@, name@);
        }
        None
    }

    /// Puts `value` under `name`. A value that was under that name is
    /// replaced.
    pub fn insert(&mut self, name: String, value: Json)
        ensures
            final(self)@ == old(self)@.insert(name@, value@),
    {
        proof {
            use_type_invariant(&*self);
        }
        let mut entries: Vec<(String, Json)> = Vec::new();
        std::mem::swap(&mut self.entries, &mut entries);
        let ghost before = entries@;
        let mut i: usize = 0;
        while i < entries.len()
            invariant
                i <= entries.len(),
                entries@ == before,
                before == old(self).entries@,
                distinct_names(before),
                forall|j: int| 0 <= j < i ==> (#[trigger] entries@[j]).0@ != name@,
            decreases entries.len() - i,
        {
            if entries[i].0 == name {
                entries.set(i, (name, value));
                proof {
                    lemma_members_replace(before, i as int, (name, value));
                }
                self.entries = entries;
                return;
            }
            i = i + 1;
        }
        proof {
            lemma_members_add(before, (name, value));
        }
        entries.push((name, value));
        self.entries = entries;
    }
}

/// Members with distinct names make a map with as many names as there are
/// members.
proof fn lemma_members_count(entries: Seq<(String, Json)>)
    requires
        distinct_names(entries),
    ensures
        members_view(entries).dom().finite(),
        members_view(entries).dom().len() == entries.len(),
    decreases entries.len(),
{
    if entries.len() > 0 {
        let front = entries.drop_last();
        assert(distinct_names(front)) by {
            assert forall|a: int, b: int| 0 <= a < b < front.len() implies (#[trigger] front[a]).0@
                != (#[trigger] front[b]).0@ by {
                assert(front[a] == entries[a]);
                assert(front[b] == entries[b]);
            }
        }
        lemma_members_count(front);
        lemma_members_names(front, entries.last().0@);
        if members_view(front).contains_key(entries.last().0@) {
            let i = choose|i: int|
                0 <= i < front.len() && (#[trigger] front[i]).0@ == entries.last().0@;
            assert(front[i] == entries[i]);
            assert(entries[i].0@ != entries[entries.len() - 1].0@);
        }
        assert(members_view(entries).dom() =~= members_view(front).dom().insert(
            entries.last().0@,
        ));
    } else {
        assert(members_view(entries).dom() =~= Set::<Seq<char>>::empty());
    }
}

impl JsonObject {
    /// The number of members.
    pub fn len(&self) -> (r: usize)
        ensures
            self@.dom().finite(),
            r == self@.dom().len(),
    {
        proof {
            use_type_invariant(self);
            lemma_members_count(self.entries@);
        }
        self.entries.len()
    }

    /// The names of the members, each once, in no particular order.
    pub fn names(&self) -> (r: Vec<String>)
        ensures
            forall|i: int| 0 <= i < r.len() ==> self@.contains_key(#[trigger] r[i]@),
            forall|name: Seq<char>|
                self@.contains_key(name) ==> exists|i: int|
                    0 <= i < r.len() && (#[trigger] r[i])@ == name,
            forall|i: int, j: int| 0 <= i < j < r.len() ==> (#[trigger] r[i])@ != (#[trigger] r[j])@,
    {
        proof {
            use_type_invariant(self);
        }
        let mut names: Vec<String> = Vec::new();
        let mut i: usize = 0;
        while i < self.entries.len()
            invariant
                i <= self.entries.len(),
                names.len() == i,
                forall|j: int| 0 <= j < i ==> (#[trigger] names[j])@ == self.entries@[j].0@,
            decreases self.entries.len() - i,
        {
            names.push(self.entries[i].0.clone());
            i = i + 1;
        }
        proof {
            assert forall|j: int| 0 <= j < names.len() implies self@.contains_key(
                #[trigger] names[j]@,
            ) by {
                lemma_members_value(self.entries@, j);
            }
            assert forall|name: Seq<char>| self@.contains_key(name) implies exists|j: int|
                0 <= j < names.len() && (#[trigger] names[j])@ == name by {
                lemma_members_names(self.entries@, name);
                let j = choose|j: int|
                    0 <= j < self.entries.len() && (#[trigger] self.entries@[j]).0@ == name;
                assert(names[j]@ == name);
            }
        }
        names
    }

    /// Tells whether the object has the name `name`.
    pub fn contains_key(&self, name: &str) -> (r: bool)
        ensures
            r == self@.contains_key(name@),
    {
        self.get(name).is_some()
    }

    /// Tells whether two objects have the same names and, under each name,
    /// the same value.
    pub fn same(&self, other: &JsonObject) -> (r: bool)
        ensures
            r == (self@ == other@),
        decreases self,
    {
        proof {
            use_type_invariant(self);
            use_type_invariant(other);
        }
        let mut i: usize = 0;
        while i < self.entries.len()
            invariant
                i <= self.entries.len(),
                distinct_names(self.entries@),
                forall|j: int|
                    0 <= j < i ==> other@.contains_key((#[trigger] self.entries@[j]).0@)
                        && other@[self.entries@[j].0@] == self.entries@[j].1@,
            decreases self.entries.len() - i,
        {
            proof {
                lemma_members_value(self.entries@, i as int);
            }
            match other.get(self.entries[i].0.as_str()) {
                None => {
                    return false;
                },
                Some(value) => {
                    if !self.entries[i].1.same(value) {
                        return false;
                    }
                },
            }
            i = i + 1;
        }
        let mut k: usize = 0;
        while k < other.entries.len()
            invariant
                k <= other.entries.len(),
                distinct_names(self.entries@),
                distinct_names(other.entries@),
                forall|j: int|
                    0 <= j < self.entries.len() ==> other@.contains_key(
                        (#[trigger] self.entries@[j]).0@,
                    ) && other@[self.entries@[j].0@] == self.entries@[j].1@,
                forall|j: int| 0 <= j < k ==> self@.contains_key((#[trigger] other.entries@[j]).0@),
            decreases other.entries.len() - k,
        {
            proof {
                lemma_members_value(other.entries@, k as int);
            }
            if !self.contains_key(other.entries[k].0.as_str()) {
                return false;
            }
            k = k + 1;
        }
        proof {
            assert forall|name: Seq<char>|
                #![trigger self@.dom().contains(name)]
                #![trigger other@.dom().contains(name)]
                self@.dom().contains(name) == other@.dom().contains(name) by {
                lemma_members_names(self.entries@, name);
                lemma_members_names(other.entries@, name);
                if self@.contains_key(name) {
                    let j = choose|j: int|
                        0 <= j < self.entries.len() && (#[trigger] self.entries@[j]).0@ == name;
                }
                if other@.contains_key(name) {
                    let j = choose|j: int|
                        0 <= j < other.entries.len() && (#[trigger] other.entries@[j]).0@ == name;
                }
            }
            assert forall|name: Seq<char>| self@.dom().contains(name) implies #[trigger] self@[name]
                == other@[name] by {
                lemma_members_names(self.entries@, name);
                let j = choose|j: int|
                    0 <= j < self.entries.len() && (#[trigger] self.entries@[j]).0@ == name;
                lemma_members_value(self.entries@, j);
            }
            assert(self@ =~= other@);
        }
        true
    }
}

impl Json {
    /// Tells whether two values are the same: of one kind, and with the
    /// same items in the same order, the same members, the same text, the
    /// same literal or the same truth value.
    pub fn same(&self, other: &Json) -> (r: bool)
        ensures
            r == (self@ == other@),
        decreases self,
    {
        match (self, other) {
            (Json::Object(a), Json::Object(b)) => a.same(b),
            (Json::Array(a), Json::Array(b)) => {
                proof {
                    lemma_items_view(a@);
                    lemma_items_view(b@);
                }
                if a.len() != b.len() {
                    return false;
                }
                let mut i: usize = 0;
                while i < a.len()
                    invariant
                        i <= a.len(),
                        a.len() == b.len(),
                        *self == Json::Array(*a),
                        *other == Json::Array(*b),
                        forall|j: int| 0 <= j < i ==> (#[trigger] a@[j])@ == b@[j]@,
                    decreases a.len() - i,
                {
                    proof {
                        broadcast use vstd::std_specs::vec::axiom_vec_index_decreases;

                        assert(decreases_to!(*self => self->Array_0));
                    }
                    if !a[i].same(&b[i]) {
                        proof {
                            lemma_items_view(a@);
                            lemma_items_view(b@);
                            assert(items_view(b@)[i as int] == b@[i as int]@);
                        }
                        return false;
                    }
                    i = i + 1;
                }
                proof {
                    lemma_items_view(a@);
                    lemma_items_view(b@);
                    assert(items_view(a@) =~= items_view(b@));
                }
                true
            },
            (Json::String(a), Json::String(b)) => *a == *b,
            (Json::Number(a), Json::Number(b)) => *a == *b,
            (Json::Boolean(a), Json::Boolean(b)) => *a == *b,
            (Json::Null, Json::Null) => true,
            _ => false,
        }
    }
}

impl PartialEq for Json {
    fn eq(&self, other: &Json) -> (r: bool) {
        self.same(other)
    }
}

impl PartialEqSpecImpl for Json {
    open spec fn obeys_eq_spec() -> bool {
        true
    }

    open spec fn eq_spec(&self, other: &Json) -> bool {
        self@ == other@
    }
}

impl PartialEq for JsonObject {
    fn eq(&self, other: &JsonObject) -> (r: bool) {
        self.same(other)
    }
}

impl PartialEqSpecImpl for JsonObject {
    open spec fn obeys_eq_spec() -> bool {
        true
    }

    open spec fn eq_spec(&self, other: &JsonObject) -> bool {
        self@ == other@
    }
}

} // verus!
