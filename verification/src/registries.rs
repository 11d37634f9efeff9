//! Game-content data: namespaced identifiers, items, tags and recipes.
//! These are independent data-modelling utilities with no coupling to the
//! command engine.

use vstd::prelude::*;

use crate::text::{push_str_chars, str_eq, string_from_chars};

verus! {

/// A namespaced identifier, `namespace:name`.
#[derive(Clone, Debug)]
pub struct ID {
    pub namespace: String,
    pub name: String,
}

/// The two parts of an identifier.
pub open spec fn id_view(a: ID) -> (Seq<char>, Seq<char>) {
    (a.namespace@, a.name@)
}

/// Whether every character is a lowercase letter, or an underscore when
/// those are allowed.
pub open spec fn id_chars_ok(s: Seq<char>, allow_underscore: bool) -> bool {
    forall|i: int|
        0 <= i < s.len() ==> (('a' <= #[trigger] s[i] && s[i] <= 'z') || (allow_underscore && s[i]
            == '_'))
}

/// Whether an identifier part is acceptable: non-empty, valid characters,
/// and, when a range is given, a length inside it.
pub open spec fn id_part_ok(s: Seq<char>, n: Option<(int, int)>, allow_underscore: bool) -> bool {
    match n {
        Some((min, max)) => s.len() > 0 && id_chars_ok(s, allow_underscore) && min <= s.len()
            <= max,
        None => s.len() > 0 && id_chars_ok(s, allow_underscore),
    }
}

impl ID {
    /// A validated identifier: the namespace is one to sixteen lowercase
    /// letters, the name one to sixteen lowercase letters or underscores.
    /// Anything else is a programmer error and is excluded.
    pub fn new(namespace: &str, name: &str) -> (r: Self)
        requires
            id_part_ok(namespace@, Some((1int, 16int)), false),
            id_part_ok(name@, Some((1int, 16int)), true),
        ensures
            r.namespace@ == namespace@,
            r.name@ == name@,
    {
        ID { namespace: namespace.to_owned(), name: name.to_owned() }
    }

    /// Whether a candidate identifier part is acceptable under the given
    /// length range and underscore policy.  A range whose minimum exceeds
    /// its maximum is a programmer error and is excluded.
    pub fn is_valid_identifier(s: &str, n: Option<(u32, u32)>, allow_underscore: bool) -> (r: bool)
        requires
            (n matches Some(b) ==> b.0 <= b.1),
        ensures
            r == id_part_ok(
                s@,
                match n {
                    Some((min, max)) => Some((min as int, max as int)),
                    None => None,
                },
                allow_underscore,
            ),
    {
        let len = s.unicode_len();
        if len == 0 {
            return false;
        }
        let mut i: usize = 0;
        let mut chars_ok = true;
        while i < len
            invariant
                len == s@.len(),
                i <= len,
                chars_ok == id_chars_ok(s@.take(i as int), allow_underscore),
            decreases len - i,
        {
            let c = s.get_char(i);
            let this_ok = ('a' <= c && c <= 'z') || (allow_underscore && c == '_');
            proof {
                assert(s@.take(i + 1 as int) =~= s@.take(i as int).push(s@[i as int]));
                if !this_ok {
                    assert(!id_chars_ok(s@.take(i + 1 as int), allow_underscore)) by {
                        assert(s@.take(i + 1 as int)[i as int] == s@[i as int]);
                    }
                } else {
                    if chars_ok {
                        assert(id_chars_ok(s@.take(i + 1 as int), allow_underscore)) by {
                            assert(forall|j: int|
                                0 <= j < i ==> s@.take(i + 1 as int)[j] == s@.take(i as int)[j]);
                        }
                    } else {
                        let w = choose|w: int|
                            0 <= w < i && !(('a' <= s@.take(i as int)[w] && s@.take(i as int)[w]
                                <= 'z') || (allow_underscore && s@.take(i as int)[w] == '_'));
                        assert(s@.take(i + 1 as int)[w] == s@.take(i as int)[w]);
                        assert(!id_chars_ok(s@.take(i + 1 as int), allow_underscore));
                    }
                }
            }
            chars_ok = chars_ok && this_ok;
            i = i + 1;
        }
        proof {
            assert(s@.take(len as int) =~= s@);
        }
        match n {
            Some((min, max)) => {
                if !chars_ok {
                    return false;
                }
                let l32 = if len <= 0xffff_ffff {
                    len as u32
                } else {
                    return false;
                };
                proof {
                    if min <= l32 && l32 <= max {
                        assert(min as int <= s@.len() <= max as int);
                    }
                }
                min <= l32 && l32 <= max
            },
            None => chars_ok,
        }
    }

    /// The identifier as text, `namespace:name`.
    pub fn render(&self) -> (r: String)
        ensures
            r@ == self.namespace@ + seq![':'] + self.name@,
    {
        let mut out: Vec<char> = Vec::new();
        push_str_chars(&mut out, self.namespace.as_str());
        out.push(':');
        push_str_chars(&mut out, self.name.as_str());
        proof {
            assert(out@ =~= self.namespace@ + seq![':'] + self.name@);
        }
        string_from_chars(&out)
    }
}

/// A copy of an identifier.
pub fn clone_id(a: &ID) -> (r: ID)
    ensures
        id_view(r) == id_view(*a),
{
    ID { namespace: a.namespace.clone(), name: a.name.clone() }
}

/// Whether two identifiers name the same thing.
pub fn id_eq(a: &ID, b: &ID) -> (r: bool)
    ensures
        r == (id_view(*a) == id_view(*b)),
{
    let e = str_eq(a.namespace.as_str(), b.namespace.as_str()) && str_eq(
        a.name.as_str(),
        b.name.as_str(),
    );
    proof {
        if a.namespace@ == b.namespace@ && a.name@ == b.name@ {
            assert(id_view(*a) == id_view(*b));
        }
        if id_view(*a) == id_view(*b) {
            assert(a.namespace@ == b.namespace@);
            assert(a.name@ == b.name@);
        }
    }
    e
}

/// The identifier views of a list.
pub open spec fn ids_view(s: Seq<ID>) -> Seq<(Seq<char>, Seq<char>)> {
    Seq::new(s.len(), |i: int| id_view(s[i]))
}

/// A copy of an identifier list.
pub fn clone_ids(s: &Vec<ID>) -> (r: Vec<ID>)
    ensures
        ids_view(r@) == ids_view(s@),
{
    let mut r: Vec<ID> = Vec::new();
    let mut i: usize = 0;
    while i < s.len()
        invariant
            i <= s@.len(),
            r@.len() == i,
            forall|j: int| 0 <= j < i ==> id_view(#[trigger] r@[j]) == id_view(s@[j]),
        decreases s@.len() - i,
    {
        r.push(clone_id(&s[i]));
        i = i + 1;
    }
    proof {
        assert(ids_view(r@) =~= ids_view(s@));
    }
    r
}

/// Anything a registry can hold: it exposes its identifier.
pub trait Registrable {
    /// The identifier this entity is registered under.
    fn id(&self) -> &ID;
}

/// An item: identifier, tag memberships, and how many stack in one slot.
#[derive(Clone, Debug)]
pub struct Item {
    pub id: ID,
    pub tags: Vec<ID>,
    pub stack_size: u32,
}

impl Item {
    /// An item with the given identifier, tags and stack size.
    pub fn new(id: ID, tags: Vec<ID>, stack_size: u32) -> (r: Self)
        ensures
            r.id == id,
            r.tags == tags,
            r.stack_size == stack_size,
    {
        Item { id, tags, stack_size }
    }

    /// The tags this item belongs to.
    pub fn tags(&self) -> (r: &Vec<ID>)
        ensures
            r == &self.tags,
    {
        &self.tags
    }

    /// How many of this item stack in one inventory slot.
    pub fn stack_size(&self) -> (r: u32)
        ensures
            r == self.stack_size,
    {
        self.stack_size
    }
}

impl Registrable for Item {
    fn id(&self) -> &ID {
        &self.id
    }
}

/// What kind of entity a tag entry refers to.
#[derive(Clone, Copy, Debug, PartialEq, Eq, Structural, Hash)]
pub enum TagType {
    Item,
    Block,
    Tool,
    Recipe,
}

/// A tag: an identifier and the set of tagged entities, each entered once.
#[derive(Clone, Debug)]
pub struct Tag {
    pub id: ID,
    pub entries: Vec<(TagType, ID)>,
}

/// The view of one tag entry.
pub open spec fn entry_view(e: (TagType, ID)) -> (TagType, (Seq<char>, Seq<char>)) {
    (e.0, id_view(e.1))
}

/// The entry views of a tag's list.
pub open spec fn entries_view(s: Seq<(TagType, ID)>) -> Seq<(TagType, (Seq<char>, Seq<char>))> {
    Seq::new(s.len(), |i: int| entry_view(s[i]))
}

impl Tag {
    /// An empty tag with the given identifier.
    pub fn new(id: ID) -> (r: Self)
        ensures
            r.id == id,
            r.entries@ == Seq::<(TagType, ID)>::empty(),
    {
        Tag { id, entries: Vec::new() }
    }

    /// Enters an entity under this tag; entering it again changes nothing.
    pub fn add(&mut self, typ: &TagType, entity_id: &ID)
        ensures
            final(self).id == old(self).id,
            entries_view(old(self).entries@).contains((*typ, id_view(*entity_id)))
                ==> entries_view(final(self).entries@) == entries_view(old(self).entries@),
            !entries_view(old(self).entries@).contains((*typ, id_view(*entity_id)))
                ==> entries_view(final(self).entries@) == entries_view(old(self).entries@).push(
                (*typ, id_view(*entity_id)),
            ),
    {
        let ghost ev = entries_view(self.entries@);
        let ghost tgt = (*typ, id_view(*entity_id));
        let mut i: usize = 0;
        while i < self.entries.len()
            invariant
                i <= self.entries@.len(),
                ev == entries_view(self.entries@),
                tgt == (*typ, id_view(*entity_id)),
                forall|j: int| 0 <= j < i ==> #[trigger] ev[j] != tgt,
            decreases self.entries@.len() - i,
        {
            let same = self.entries[i].0 == *typ && id_eq(&self.entries[i].1, entity_id);
            if same {
                proof {
                    assert(ev[i as int] == tgt);
                    assert(ev.contains(tgt));
                }
                return ;
            }
            proof {
                assert(ev[i as int] != tgt);
            }
            i = i + 1;
        }
        proof {
            assert(!ev.contains(tgt)) by {
                if ev.contains(tgt) {
                    let w = choose|w: int| 0 <= w < ev.len() && ev[w] == tgt;
                    assert(ev[w] != tgt);
                }
            }
        }
        let entry = (*typ, clone_id(entity_id));
        self.entries.push(entry);
        proof {
            assert(entries_view(self.entries@) =~= ev.push(tgt));
        }
    }

    /// The tag's identifier.
    pub fn id(&self) -> (r: &ID)
        ensures
            r == &self.id,
    {
        &self.id
    }
}

impl Registrable for Tag {
    fn id(&self) -> &ID {
        &self.id
    }
}

/// One ingredient or result of a recipe: an identifier and a count.
#[derive(Clone, Debug)]
pub struct RecipeComponent {
    pub id: ID,
    pub count: u32,
}

impl RecipeComponent {
    /// A component of the given identifier and count.
    pub fn new(id: ID, count: u32) -> (r: Self)
        ensures
            r.id == id,
            r.count == count,
    {
        RecipeComponent { id, count }
    }
}

/// A recipe: an identifier, ingredients, and results.
#[derive(Clone, Debug)]
pub struct Recipe {
    pub id: ID,
    pub ingredients: Vec<RecipeComponent>,
    pub results: Vec<RecipeComponent>,
}

impl Recipe {
    /// A recipe with the given identifier, ingredients and results.
    pub fn new(id: ID, ingredients: Vec<RecipeComponent>, results: Vec<RecipeComponent>) -> (r:
        Self)
        ensures
            r.id == id,
            r.ingredients == ingredients,
            r.results == results,
    {
        Recipe { id, ingredients, results }
    }

    /// The ingredients.
    pub fn ingredients(&self) -> (r: &Vec<RecipeComponent>)
        ensures
            r == &self.ingredients,
    {
        &self.ingredients
    }

    /// The results.
    pub fn results(&self) -> (r: &Vec<RecipeComponent>)
        ensures
            r == &self.results,
    {
        &self.results
    }
}

impl Registrable for Recipe {
    fn id(&self) -> &ID {
        &self.id
    }
}

} // verus!
