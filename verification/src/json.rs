//! JSON values.
use vstd::prelude::*;
use vstd::string::*;

use crate::text::text_eq;

verus! {

/// What a JSON value says. The order of an object's members does not matter.
#[verifier::ext_equal]
pub enum JsonView {
    /// `null`.
    Null,
    /// `true` or `false`.
    Bool(bool),
    /// A number, as it is written.
    Number(Seq<char>),
    /// A string.
    Text(Seq<char>),
    /// An array.
    Array(Seq<JsonView>),
    /// An object.
    Object(Map<Seq<char>, JsonView>),
}

/// A JSON value.
#[derive(Debug)]
pub enum Json {
    /// `null`.
    Null,
    /// `true` or `false`.
    Bool(bool),
    /// A number, as it is written.
    Number(String),
    /// A string.
    Text(String),
    /// An array.
    Array(Vec<Json>),
    /// An object.
    Object(JsonObject),
}

/// A JSON object: members with different names.
#[derive(Debug)]
pub struct JsonObject {
    members: Vec<(String, Json)>,
}

/// The members of an object. A later one hides an earlier one of the same name.
spec fn members_view(members: Seq<(String, Json)>) -> Map<Seq<char>, JsonView>
    decreases members,
{
    if members.len() == 0 {
        Map::empty()
    } else {
        members_view(members.drop_last()).insert(members.last().0@, members.last().1.view())
    }
}

/// What the values in a list say.
pub open spec fn list_view(items: Seq<Json>) -> Seq<JsonView>
    decreases items,
{
    Seq::new(
        items.len(),
        |i: int|
            if 0 <= i < items.len() {
                items[i].view()
            } else {
                JsonView::Null
            },
    )
}

impl Json {
    /// What the value says.
    pub open spec fn view(&self) -> JsonView
        decreases self,
    {
        match self {
            Json::Null => JsonView::Null,
            Json::Bool(b) => JsonView::Bool(*b),
            Json::Number(n) => JsonView::Number(n@),
            Json::Text(s) => JsonView::Text(s@),
            Json::Array(items) => JsonView::Array(list_view(items@)),
            Json::Object(o) => JsonView::Object(o.view()),
        }
    }
}

impl JsonObject {
    /// What the object says.
    pub closed spec fn view(&self) -> Map<Seq<char>, JsonView>
        decreases self,
    {
        members_view(self.members@)
    }
}

/// No two of `members` have the same name.
spec fn distinct(members: Seq<(String, Json)>) -> bool {
    forall|i: int, j: int|
        0 <= i < j < members.len() ==> (#[trigger] members[i]).0@ != (#[trigger] members[j]).0@
}

/// What a name of distinct members stands for.
proof fn lemma_members(members: Seq<(String, Json)>)
    requires
        distinct(members),
    ensures
        members_view(members).dom().finite(),
        forall|i: int|
            0 <= i < members.len() ==> #[trigger] members_view(members).contains_key(
                members[i].0@,
            ) && members_view(members)[members[i].0@] == members[i].1@,
        forall|k: Seq<char>| #[trigger]
            members_view(members).contains_key(k) ==> exists|i: int|
                0 <= i < members.len() && (#[trigger] members[i]).0@ == k,
    decreases members.len(),
{
    if members.len() > 0 {
        let rest = members.drop_last();
        assert forall|i: int, j: int| 0 <= i < j < rest.len() implies (#[trigger] rest[i]).0@ != (
        #[trigger] rest[j]).0@ by {
            assert(members[i].0@ != members[j].0@);
        }
        lemma_members(rest);
        let last = members[members.len() - 1];
        assert forall|i: int| 0 <= i < members.len() implies #[trigger] members_view(
            members,
        ).contains_key(members[i].0@) && members_view(members)[members[i].0@] == members[i].1@ by {
            if i < rest.len() {
                assert(rest[i] == members[i]);
                assert(members[i].0@ != last.0@);
                assert(members_view(rest).contains_key(rest[i].0@));
            }
        }
        assert forall|k: Seq<char>| #[trigger] members_view(members).contains_key(k) implies exists|
            i: int,
        |
            0 <= i < members.len() && (#[trigger] members[i]).0@ == k by {
            if k == last.0@ {
                assert(members[members.len() - 1].0@ == k);
            } else {
                assert(members_view(rest).contains_key(k));
                let i = choose|i: int| 0 <= i < rest.len() && (#[trigger] rest[i]).0@ == k;
                assert(members[i].0@ == k);
            }
        }
    }
}

impl JsonObject {
    #[verifier::type_invariant]
    spec fn inv(self) -> bool {
        distinct(self.members@)
    }

    /// The names of the members, in the order in which they were added.
    pub closed spec fn names(&self) -> Seq<Seq<char>> {
        self.members@.map_values(|m: (String, Json)| m.0@)
    }

    /// An object without members.
    pub fn new() -> (r: JsonObject)
        ensures
            r@ == Map::<Seq<char>, JsonView>::empty(),
    {
        JsonObject { members: Vec::new() }
    }

    /// The number of members.
    pub fn len(&self) -> (r: usize)
        ensures
            r == self.names().len(),
            self@.dom().finite(),
            self@.dom() == self.names().to_set(),
            self.names().no_duplicates(),
    {
        proof {
            use_type_invariant(self);
            lemma_members(self.members@);
            let names = self.names();
            assert forall|k: Seq<char>| self@.dom().contains(k) <==> names.to_set().contains(k) by {
                if self@.contains_key(k) {
                    let i = choose|i: int|
                        0 <= i < self.members@.len() && (#[trigger] self.members@[i]).0@ == k;
                    assert(names[i] == k);
                }
                if names.contains(k) {
                    let i = choose|i: int| 0 <= i < names.len() && names[i] == k;
                    assert(self@.contains_key(self.members@[i].0@));
                }
            }
            assert(self@.dom() =~= names.to_set());
            assert forall|i: int, j: int|
                0 <= i < names.len() && 0 <= j < names.len() && i != j implies names[i]
                != names[j] by {
                if i < j {
                    assert(self.members@[i].0@ != self.members@[j].0@);
                } else {
                    assert(self.members@[j].0@ != self.members@[i].0@);
                }
            }
        }
        self.members.len()
    }

    /// The name of member number `i`.
    pub fn name(&self, i: usize) -> (r: &str)
        requires
            i < self.names().len(),
        ensures
            r@ == self.names()[i as int],
    {
        self.members[i].0.as_str()
    }

    /// The value of member number `i`.
    pub fn value(&self, i: usize) -> (r: &Json)
        requires
            i < self.names().len(),
        ensures
            self@.contains_key(self.names()[i as int]),
            r@ == self@[self.names()[i as int]],
    {
        proof {
            use_type_invariant(self);
            lemma_members(self.members@);
            assert(self@.contains_key(self.members@[i as int].0@));
        }
        &self.members[i].1
    }

    /// Where the member with the name `name` is.
    fn position(&self, name: &str) -> (r: Option<usize>)
        ensures
            match r {
                Some(i) => i < self.members@.len() && self.members@[i as int].0@ == name@,
                None => forall|k: int|
                    0 <= k < self.members@.len() ==> (#[trigger] self.members@[k]).0@ != name@,
            },
    {
        let mut i: usize = 0;
        while i < self.members.len()
            invariant
                i <= self.members@.len(),
                forall|k: int| 0 <= k < i ==> (#[trigger] self.members@[k]).0@ != name@,
            decreases self.members@.len() - i,
        {
            if text_eq(self.members[i].0.as_str(), name) {
                return Some(i);
            }
            i = i + 1;
        }
        None
    }

    /// The value of the member with the name `name`.
    pub fn get(&self, name: &str) -> (r: Option<&Json>)
        ensures
            match r {
                Some(value) => self@.contains_key(name@) && value@ == self@[name@],
                None => !self@.contains_key(name@),
            },
    {
        proof {
            use_type_invariant(self);
            lemma_members(self.members@);
        }
        match self.position(name) {
            Some(i) => {
                assert(self@.contains_key(self.members@[i as int].0@));
                Some(&self.members[i].1)
            },
            None => None,
        }
    }

    /// Sets the member `name` to `value`.
    pub fn insert(&mut self, name: &str, value: Json)
        ensures
            final(self)@ == old(self)@.insert(name@, value@),
    {
        proof {
            use_type_invariant(&*self);
            lemma_members(self.members@);
        }
        let ghost before = self.members@;
        let ghost value_view = value@;
        let place = self.position(name);
        let mut members: Vec<(String, Json)> = Vec::new();
        std::mem::swap(&mut members, &mut self.members);
        let ghost at: int;
        match place {
            Some(i) => {
                members.set(i, (name.to_string(), value));
                proof {
                    at = i as int;
                    assert forall|k: int| 0 <= k < before.len() && k != at implies (
                    #[trigger] before[k]).0@ != name@ by {
                        if k < at {
                            assert(before[k].0@ != before[at].0@);
                        } else {
                            assert(before[at].0@ != before[k].0@);
                        }
                    }
                }
            },
            None => {
                members.push((name.to_string(), value));
                proof {
                    at = before.len() as int;
                }
            },
        }
        proof {
            lemma_inserted(before, members@, at, name@, value_view);
        }
        self.members = members;
    }

    /// Takes out the member with the name `name`.
    pub fn remove(&mut self, name: &str) -> (r: Option<Json>)
        ensures
            final(self)@ == old(self)@.remove(name@),
            match r {
                Some(value) => old(self)@.contains_key(name@) && value@ == old(self)@[name@],
                None => !old(self)@.contains_key(name@),
            },
    {
        proof {
            use_type_invariant(&*self);
            lemma_members(self.members@);
        }
        let ghost before = self.members@;
        let ghost wanted = self@.remove(name@);
        match self.position(name) {
            Some(i) => {
                let mut members: Vec<(String, Json)> = Vec::new();
                std::mem::swap(&mut members, &mut self.members);
                let member = members.remove(i);
                proof {
                    let m = members@;
                    assert forall|k: int| 0 <= k < m.len() implies #[trigger] wanted.contains_key(
                        m[k].0@,
                    ) && wanted[m[k].0@] == m[k].1@ by {
                        let j = if k < i {
                            k
                        } else {
                            k + 1
                        };
                        assert(m[k] == before[j]);
                        assert(members_view(before).contains_key(before[j].0@));
                        if j < i {
                            assert(before[j].0@ != before[i as int].0@);
                        } else {
                            assert(before[i as int].0@ != before[j].0@);
                        }
                    }
                    assert forall|k: Seq<char>| #[trigger] wanted.contains_key(k) implies exists|
                        j: int,
                    |
                        0 <= j < m.len() && (#[trigger] m[j]).0@ == k by {
                        assert(members_view(before).contains_key(k));
                        let j = choose|j: int|
                            0 <= j < before.len() && (#[trigger] before[j]).0@ == k;
                        if j < i {
                            assert(m[j].0@ == k);
                        } else {
                            assert(m[j - 1].0@ == k);
                        }
                    }
                    assert forall|a: int, b: int| 0 <= a < b < m.len() implies (
                    #[trigger] m[a]).0@ != (#[trigger] m[b]).0@ by {
                        let x = if a < i {
                            a
                        } else {
                            a + 1
                        };
                        let y = if b < i {
                            b
                        } else {
                            b + 1
                        };
                        assert(before[x].0@ != before[y].0@);
                    }
                    lemma_view_is(m, wanted);
                    assert(members_view(before).contains_key(before[i as int].0@));
                }
                self.members = members;
                Some(member.1)
            },
            None => {
                assert(wanted =~= self@);
                None
            },
        }
    }

    /// A copy of the object.
    pub fn duplicate(&self) -> (r: JsonObject)
        ensures
            r@ == self@,
        decreases self,
    {
        proof {
            use_type_invariant(self);
            lemma_members(self.members@);
        }
        let mut members: Vec<(String, Json)> = Vec::new();
        let mut i: usize = 0;
        while i < self.members.len()
            invariant
                i <= self.members@.len(),
                members@.len() == i,
                forall|k: int|
                    0 <= k < i ==> (#[trigger] members@[k]).0@ == self.members@[k].0@
                        && members@[k].1@ == self.members@[k].1@,
            decreases self.members@.len() - i,
        {
            let member = &self.members[i];
            proof {
                assert(decreases_to!(self => member.1)) by {
                    assert(decreases_to!(self => self.members));
                    assert(decreases_to!(self.members => self.members@));
                    assert(decreases_to!(self.members@ => self.members@[i as int]));
                    assert(decreases_to!(self.members@[i as int] => member.1));
                }
            }
            members.push((member.0.clone(), member.1.duplicate()));
            i = i + 1;
        }
        proof {
            let m = members@;
            let old_m = self.members@;
            assert forall|a: int, b: int| 0 <= a < b < m.len() implies (#[trigger] m[a]).0@ != (
            #[trigger] m[b]).0@ by {
                assert(old_m[a].0@ != old_m[b].0@);
            }
            assert forall|k: int| 0 <= k < m.len() implies #[trigger] self@.contains_key(m[k].0@)
                && self@[m[k].0@] == m[k].1@ by {
                assert(members_view(old_m).contains_key(old_m[k].0@));
            }
            assert forall|k: Seq<char>| #[trigger] self@.contains_key(k) implies exists|j: int|
                0 <= j < m.len() && (#[trigger] m[j]).0@ == k by {
                let j = choose|j: int| 0 <= j < old_m.len() && (#[trigger] old_m[j]).0@ == k;
                assert(m[j].0@ == k);
            }
            lemma_view_is(m, self@);
        }
        JsonObject { members }
    }
}

/// Distinct members that are those of `map` make `map`.
proof fn lemma_view_is(members: Seq<(String, Json)>, map: Map<Seq<char>, JsonView>)
    requires
        distinct(members),
        forall|i: int|
            0 <= i < members.len() ==> #[trigger] map.contains_key(members[i].0@)
                && map[members[i].0@] == members[i].1@,
        forall|k: Seq<char>| #[trigger]
            map.contains_key(k) ==> exists|i: int|
                0 <= i < members.len() && (#[trigger] members[i]).0@ == k,
    ensures
        members_view(members) == map,
{
    lemma_members(members);
    let view = members_view(members);
    assert forall|k: Seq<char>| view.contains_key(k) <==> map.contains_key(k) by {
        if view.contains_key(k) {
            let i = choose|i: int| 0 <= i < members.len() && (#[trigger] members[i]).0@ == k;
            assert(map.contains_key(members[i].0@));
        }
        if map.contains_key(k) {
            let i = choose|i: int| 0 <= i < members.len() && (#[trigger] members[i]).0@ == k;
            assert(view.contains_key(members[i].0@));
        }
    }
    assert forall|k: Seq<char>| view.contains_key(k) implies view[k] == map[k] by {
        let i = choose|i: int| 0 <= i < members.len() && (#[trigger] members[i]).0@ == k;
        assert(view.contains_key(members[i].0@));
        assert(map.contains_key(members[i].0@));
    }
    assert(view =~= map);
}

impl Json {
    /// A copy of the value.
    pub fn duplicate(&self) -> (r: Json)
        ensures
            r@ == self@,
        decreases self,
    {
        match self {
            Json::Null => Json::Null,
            Json::Bool(b) => Json::Bool(*b),
            Json::Number(n) => Json::Number(n.clone()),
            Json::Text(s) => Json::Text(s.clone()),
            Json::Array(items) => {
                let mut copies: Vec<Json> = Vec::new();
                let mut i: usize = 0;
                while i < items.len()
                    invariant
                        *self == Json::Array(*items),
                        i <= items@.len(),
                        copies@.len() == i,
                        forall|k: int| 0 <= k < i ==> (#[trigger] copies@[k])@ == items@[k]@,
                    decreases items@.len() - i,
                {
                    proof {
                        assert(decreases_to!(self => items@[i as int])) by {
                            let all = self->Array_0;
                            assert(decreases_to!(self => self->Array_0));
                            assert(decreases_to!(all => all@));
                            assert(decreases_to!(all@ => all@[i as int]));
                        }
                    }
                    copies.push(items[i].duplicate());
                    i = i + 1;
                }
                let r = Json::Array(copies);
                assert(r@->Array_0 =~= self@->Array_0);
                r
            },
            Json::Object(o) => Json::Object(o.duplicate()),
        }
    }
}

/// `after` is `before` with a member at place `at`, in place of one with the same
/// name or behind all others.
proof fn lemma_inserted(
    before: Seq<(String, Json)>,
    after: Seq<(String, Json)>,
    at: int,
    name: Seq<char>,
    value: JsonView,
)
    requires
        distinct(before),
        0 <= at < after.len(),
        after.len() == before.len() || after.len() == before.len() + 1 == at + 1,
        after[at].0@ == name,
        after[at].1@ == value,
        forall|k: int| 0 <= k < after.len() && k != at ==> #[trigger] after[k] == before[k],
        forall|k: int|
            0 <= k < before.len() && k != at ==> (#[trigger] before[k]).0@ != name,
        at < before.len() ==> before[at].0@ == name,
    ensures
        distinct(after),
        members_view(after) == members_view(before).insert(name, value),
{
    let wanted = members_view(before).insert(name, value);
    lemma_members(before);
    assert forall|k: int| 0 <= k < after.len() implies #[trigger] wanted.contains_key(after[k].0@)
        && wanted[after[k].0@] == after[k].1@ by {
        if k != at {
            assert(after[k] == before[k]);
            assert(members_view(before).contains_key(before[k].0@));
        }
    }
    assert forall|k: Seq<char>| #[trigger] wanted.contains_key(k) implies exists|j: int|
        0 <= j < after.len() && (#[trigger] after[j]).0@ == k by {
        if k == name {
            assert(after[at].0@ == k);
        } else {
            assert(members_view(before).contains_key(k));
            let j = choose|j: int| 0 <= j < before.len() && (#[trigger] before[j]).0@ == k;
            assert(after[j].0@ == k);
        }
    }
    assert forall|a: int, b: int| 0 <= a < b < after.len() implies (#[trigger] after[a]).0@ != (
    #[trigger] after[b]).0@ by {
        if a != at && b != at {
            assert(before[a].0@ != before[b].0@);
        } else if a != at {
            assert(before[a].0@ != name);
        } else {
            assert(before[b].0@ != name);
        }
    }
    lemma_view_is(after, wanted);
}

} // verus!
