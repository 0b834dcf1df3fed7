//! Compact tag sets and the named tag registry.
//!
//! Tags let modifiers participate selectively in queries: a modifier applies
//! to a query if and only if the modifier's tags are a **subset** of the
//! query's tags. An untagged modifier is a subset of everything, so it applies
//! globally; a `fire | sword` modifier only applies to queries that ask for at
//! least both `fire` and `sword`.
//!
//! Insert modifiers with *broad* tags, query with *specific* tags.

use crate::error::{Fault, StatError};
use crate::parser::names;
use crate::table::{Index, NameIndex};
use crate::text::{chars_of, text_of, trim, trimmed};
use vstd::prelude::*;

verus! {

/// A compact set of up to 64 tags, represented as a bitmask.
///
/// Obtain named tag sets from the [`TagRegistry`]. Combine them with
/// [`union`](TagSet::union).
#[derive(Clone, Copy, Debug, PartialEq, Eq, Hash, Structural)]
pub struct TagSet(u64);

/// Whether tag `i` is in the mask.
pub open spec fn has_tag(mask: u64, i: int) -> bool {
    0 <= i < 64 && (mask >> (i as u64)) & 1 == 1
}

/// Whether every tag of `a` is in `b`.
pub open spec fn subset(a: u64, b: u64) -> bool {
    forall|i: int| #[trigger] has_tag(a, i) ==> has_tag(b, i)
}

/// The tags of a mask.
pub open spec fn members(mask: u64) -> Set<int> {
    Set::new(|i: int| has_tag(mask, i))
}

/// A mask whose bits from `63 - t` down are not all clear has a tag there.
proof fn lemma_some_tag(m: u64, t: u64)
    requires
        t < 64,
        m << t != 0,
    ensures
        exists|i: int| has_tag(m, i),
    decreases 64 - t,
{
    let k = (63 - t) as u64;
    if (m >> k) & 1 == 1 {
        assert(has_tag(m, k as int));
    } else {
        assert(t == 63 ==> m << t == 0) by (bit_vector)
            requires
                k == 63 - t,
                (m >> k) & 1 != 1,
        ;
        let next = (t + 1) as u64;
        assert(m << next != 0) by (bit_vector)
            requires
                t < 63,
                k == 63 - t,
                next == t + 1,
                m << t != 0,
                (m >> k) & 1 != 1,
        ;
        lemma_some_tag(m, next);
    }
}

/// A mask holds another exactly where it covers its bits.
pub proof fn lemma_subset_bits(a: u64, b: u64)
    ensures
        subset(a, b) <==> b & a == a,
{
    if b & a == a {
        assert forall|i: int| #[trigger] has_tag(a, i) implies has_tag(b, i) by {
            let k = i as u64;
            assert(b & a == a && k < 64 && (a >> k) & 1 == 1 ==> (b >> k) & 1 == 1) by (bit_vector);
        }
    } else {
        let m = a & !b;
        assert(m << 0u64 != 0) by (bit_vector)
            requires
                m == a & !b,
                b & a != a,
        ;
        lemma_some_tag(m, 0);
        let i = choose|i: int| has_tag(m, i);
        let k = i as u64;
        assert(m == a & !b && k < 64 && (m >> k) & 1 == 1 ==> (a >> k) & 1 == 1 && (b >> k) & 1 != 1) by (bit_vector);
        assert(has_tag(a, i) && !has_tag(b, i));
    }
}

proof fn lemma_no_tag()
    ensures
        forall|i: int| !#[trigger] has_tag(0, i),
{
    assert forall|i: int| !#[trigger] has_tag(0, i) by {
        let k = i as u64;
        assert(k < 64 ==> (0u64 >> k) & 1 != 1) by (bit_vector);
    }
}

/// The union of two masks has the tags of either.
pub proof fn lemma_union_bits(a: u64, b: u64)
    ensures
        forall|i: int| #[trigger] has_tag(a | b, i) <==> has_tag(a, i) || has_tag(b, i),
{
    assert forall|i: int| #[trigger] has_tag(a | b, i) <==> has_tag(a, i) || has_tag(b, i) by {
        let k = i as u64;
        assert(k < 64 ==> ((((a | b) >> k) & 1 == 1) <==> ((a >> k) & 1 == 1 || (b >> k) & 1 == 1))) by (bit_vector);
    }
}

/// An untagged modifier takes part in every query.
pub proof fn law_untagged_applies_everywhere(query: u64)
    ensures
        subset(0, query),
{
    lemma_no_tag();
}

/// A query admits at least what a narrower query admits.
pub proof fn law_wider_queries_admit_more(tags: u64, query: u64, wider: u64)
    requires
        subset(tags, query),
        subset(query, wider),
    ensures
        subset(tags, wider),
{
    assert forall|i: int| #[trigger] has_tag(tags, i) implies has_tag(wider, i) by {
        assert(has_tag(query, i));
    }
}

/// A query for several tags covers each of them.
pub proof fn law_union_covers_both(a: u64, b: u64)
    ensures
        subset(a, a | b),
        subset(b, a | b),
{
    lemma_union_bits(a, b);
}

impl View for TagSet {
    type V = u64;

    closed spec fn view(&self) -> u64 {
        self.0
    }
}

impl Default for TagSet {
    fn default() -> (set: TagSet)
        ensures
            set@ == 0,
    {
        TagSet::none()
    }
}

impl TagSet {
    /// The operator `|` is [`union`](TagSet::union).
    pub proof fn lemma_bitor(self, other: TagSet)
        ensures
            vstd::std_specs::ops::BitOrSpec::bitor_spec(self, other)@ == self@ | other@,
    {
    }

    /// The empty tag set. As a modifier tag set it matches every query; as a
    /// query it only admits untagged modifiers.
    pub fn none() -> (set: TagSet)
        ensures
            set@ == 0,
    {
        TagSet(0)
    }

    /// Creates a tag set from a raw bitmask.
    pub fn from_bits(bits: u64) -> (set: TagSet)
        ensures
            set@ == bits,
    {
        TagSet(bits)
    }

    /// The raw bitmask.
    pub fn bits(self) -> (bits: u64)
        ensures
            bits == self@,
    {
        self.0
    }

    /// Returns `true` if no tags are set.
    pub fn is_empty(self) -> (r: bool)
        ensures
            r == (self@ == 0),
            r == members(self@).is_empty(),
    {
        proof {
            if self@ == 0 {
                lemma_no_tag();
                assert(members(self@) =~= Set::empty());
            } else {
                let m = self@;
                assert(m != 0 ==> m << 0u64 != 0) by (bit_vector);
                lemma_some_tag(m, 0);
                let i = choose|i: int| has_tag(m, i);
                assert(members(m).contains(i));
            }
        }
        self.0 == 0
    }

    /// Returns `true` if every tag in `other` is also in `self`.
    pub fn contains(self, other: TagSet) -> (r: bool)
        ensures
            r == subset(other@, self@),
    {
        proof {
            lemma_subset_bits(other@, self@);
        }
        self.0 & other.0 == other.0
    }

    /// The subset rule: a modifier tagged `self` participates in a query
    /// tagged `query` iff `self` is a subset of `query`.
    ///
    /// - An untagged modifier applies to every query.
    /// - A `FIRE` modifier applies to a `FIRE | SWORD` query.
    /// - A `FIRE | SWORD` modifier does **not** apply to a `FIRE`-only query.
    pub fn applies_to(self, query: TagSet) -> (r: bool)
        ensures
            r == subset(self@, query@),
    {
        query.contains(self)
    }

    /// The number of tags in the set.
    pub fn len(self) -> (n: u32)
        ensures
            n == members(self@).len(),
    {
        let mut n: u32 = 0;
        let mut i: u64 = 0;
        let ghost m = self@;
        let ghost low = |i: int| members(m).filter(|k: int| k < i);
        proof {
            assert(low(0) =~= Set::empty());
        }
        while i < 64
            invariant
                i <= 64,
                n <= i,
                m == self.0,
                low == (|i: int| members(m).filter(|k: int| k < i)),
                low(i as int).finite(),
                n == low(i as int).len(),
            decreases 64 - i,
        {
            proof {
                if has_tag(m, i as int) {
                    assert(low(i + 1) =~= low(i as int).insert(i as int));
                } else {
                    assert(low(i + 1) =~= low(i as int));
                }
            }
            if (self.0 >> i) & 1 == 1 {
                n = n + 1;
            }
            i = i + 1;
        }
        assert(low(64) =~= members(m));
        n
    }

    /// The tags of both sets.
    pub fn union(self, other: TagSet) -> (set: TagSet)
        ensures
            set@ == self@ | other@,
            members(set@) == members(self@).union(members(other@)),
    {
        proof {
            lemma_union_bits(self@, other@);
            assert(members(self@ | other@) =~= members(self@).union(members(other@)));
        }
        TagSet(self.0 | other.0)
    }
}

impl std::ops::BitOr<TagSet> for TagSet {
    type Output = TagSet;

    fn bitor(self, rhs: TagSet) -> (set: TagSet) {
        TagSet(self.0 | rhs.0)
    }
}

impl vstd::std_specs::ops::BitOrSpecImpl<TagSet> for TagSet {
    open spec fn obeys_bitor_spec() -> bool {
        true
    }

    open spec fn bitor_req(self, rhs: TagSet) -> bool {
        true
    }

    closed spec fn bitor_spec(self, rhs: TagSet) -> TagSet {
        TagSet(self.0 | rhs.0)
    }
}

impl std::ops::BitOrAssign<TagSet> for TagSet {
    fn bitor_assign(&mut self, rhs: TagSet)
        ensures
            final(self)@ == old(self)@ | rhs@,
    {
        self.0 = self.0 | rhs.0;
    }
}

/// What a [`TagRegistry`] holds: the mask of each name, and how many bits are
/// taken.
pub struct Registry {
    pub tags: Map<Seq<char>, u64>,
    pub taken: int,
}

/// The registry after a leaf tag has been registered, and its mask; none if
/// the tag is new and all bits are taken.
pub open spec fn registered(reg: Registry, name: Seq<char>) -> (Registry, Option<u64>) {
    if reg.tags.contains_key(name) {
        (reg, Some(reg.tags[name]))
    } else if reg.taken >= 64 {
        (reg, None)
    } else {
        let mask = 1u64 << (reg.taken as u64);
        (Registry { tags: reg.tags.insert(name, mask), taken: reg.taken + 1 }, Some(mask))
    }
}

/// The registry after the members of a group have been registered in turn,
/// and the union of their masks; or the first member that found no bit.
pub open spec fn grouped(reg: Registry, list: Seq<Seq<char>>) -> (Registry, Result<u64, Seq<char>>)
    decreases list.len(),
{
    if list.len() == 0 {
        (reg, Ok(0))
    } else {
        let (before, result) = grouped(reg, list.drop_last());
        match result {
            Err(name) => (before, Err(name)),
            Ok(mask) => {
                let (after, found) = registered(before, list.last());
                match found {
                    Some(more) => (after, Ok(mask | more)),
                    None => (after, Err(list.last())),
                }
            },
        }
    }
}

/// The union of the masks of a list of names, or the first unknown name.
pub open spec fn resolved(tags: Map<Seq<char>, u64>, list: Seq<Seq<char>>) -> Result<u64, Seq<char>>
    decreases list.len(),
{
    if list.len() == 0 {
        Ok(0)
    } else {
        match resolved(tags, list.drop_last()) {
            Err(name) => Err(name),
            Ok(mask) => if tags.contains_key(list.last()) {
                Ok(mask | tags[list.last()])
            } else {
                Err(list.last())
            },
        }
    }
}

/// The parts of a text between commas and bars.
pub open spec fn fields(s: Seq<char>) -> Seq<Seq<char>>
    decreases s.len(),
{
    if s.len() == 0 {
        seq![Seq::empty()]
    } else {
        let before = fields(s.drop_last());
        if s.last() == ',' || s.last() == '|' {
            before.push(Seq::empty())
        } else {
            before.drop_last().push(before.last().push(s.last()))
        }
    }
}

/// The names in a list of parts: each part without white space at its ends,
/// the empty ones left out.
pub open spec fn listed(parts: Seq<Seq<char>>) -> Seq<Seq<char>>
    decreases parts.len(),
{
    if parts.len() == 0 {
        Seq::empty()
    } else {
        let name = trimmed(parts.last());
        if name.len() == 0 {
            listed(parts.drop_last())
        } else {
            listed(parts.drop_last()).push(name)
        }
    }
}

/// The single place tag names are declared.
///
/// Register plain tags with [`register`](TagRegistry::register) and
/// hierarchical *group* tags (a name that stands for the union of its
/// members) with [`register_group`](TagRegistry::register_group).
///
/// Tag names registered here are usable in expression tag filters
/// (`"Damage.added{fire}"`), in modifier paths, and in tagged queries.
#[derive(Debug)]
pub struct TagRegistry {
    entries: NameIndex,
    next_bit: u32,
}

impl View for TagRegistry {
    type V = Registry;

    closed spec fn view(&self) -> Registry {
        Registry { tags: self.entries.slots(), taken: self.next_bit as int }
    }
}

/// At most 64 bits are taken, and every mask is made of taken bits.
pub open spec fn sound(reg: Registry) -> bool {
    &&& 0 <= reg.taken <= 64
    &&& forall|name: Seq<char>, i: int|
        #![trigger reg.tags.contains_key(name), has_tag(reg.tags[name], i)]
        reg.tags.contains_key(name) && has_tag(reg.tags[name], i) ==> i < reg.taken
}

proof fn lemma_single_bit(t: u64)
    requires
        t < 64,
    ensures
        forall|i: int| #[trigger] has_tag(1u64 << t, i) <==> i == t,
{
    assert forall|i: int| #[trigger] has_tag(1u64 << t, i) <==> i == t by {
        let k = i as u64;
        assert(k < 64 && t < 64 ==> ((((1u64 << t) >> k) & 1 == 1) <==> k == t)) by (bit_vector);
    }
}

/// A newly registered leaf tag gets a bit that no mask has yet.
pub proof fn lemma_fresh_tag(reg: Registry, name: Seq<char>)
    requires
        sound(reg),
        !reg.tags.contains_key(name),
        reg.taken < 64,
    ensures
        registered(reg, name).1 matches Some(mask) && members(mask) == set![reg.taken] && forall|other: Seq<char>|
            #[trigger] reg.tags.contains_key(other) ==> members(reg.tags[other]).disjoint(members(mask)),
        sound(registered(reg, name).0),
{
    let t = reg.taken as u64;
    lemma_single_bit(t);
    let mask = 1u64 << t;
    assert(members(mask) =~= set![reg.taken]);
    let after = registered(reg, name).0;
    assert forall|n: Seq<char>, i: int|
        #![trigger after.tags.contains_key(n), has_tag(after.tags[n], i)]
        after.tags.contains_key(n) && has_tag(after.tags[n], i) implies i < after.taken by {
        if n != name {
            assert(reg.tags.contains_key(n) && has_tag(reg.tags[n], i));
        }
    }
}

/// Registering a tag a second time gives the same mask and changes nothing.
pub proof fn law_registering_again_changes_nothing(reg: Registry, name: Seq<char>)
    requires
        registered(reg, name).1 is Some,
    ensures
        registered(registered(reg, name).0, name) == registered(reg, name),
{
}

/// Registering a group leaves the tags that are registered as they are.
pub proof fn law_groups_keep_earlier_tags(reg: Registry, list: Seq<Seq<char>>, name: Seq<char>)
    requires
        reg.tags.contains_key(name),
    ensures
        grouped(reg, list).0.tags.contains_key(name),
        grouped(reg, list).0.tags[name] == reg.tags[name],
    decreases list.len(),
{
    if list.len() > 0 {
        law_groups_keep_earlier_tags(reg, list.drop_last(), name);
    }
}

/// A query for a group covers each of its members.
pub proof fn law_groups_cover_their_members(reg: Registry, list: Seq<Seq<char>>, i: int)
    requires
        grouped(reg, list).1 is Ok,
        0 <= i < list.len(),
    ensures
        grouped(reg, list).0.tags.contains_key(list[i]),
        grouped(reg, list).1 matches Ok(mask) && subset(grouped(reg, list).0.tags[list[i]], mask),
    decreases list.len(),
{
    let rest = list.drop_last();
    let (before, result) = grouped(reg, rest);
    if let Ok(mask) = result {
        let (after, found) = registered(before, list.last());
        if let Some(more) = found {
            lemma_union_bits(mask, more);
            if i < rest.len() {
                law_groups_cover_their_members(reg, rest, i);
                assert(rest[i] == list[i]);
                let part = before.tags[list[i]];
                assert(subset(part, mask));
                assert forall|t: int| #[trigger] has_tag(part, t) implies has_tag(mask | more, t) by {
                    assert(has_tag(mask, t));
                }
            }
        }
    }
}

impl TagRegistry {
    /// A registry without tags.
    pub fn new() -> (reg: TagRegistry)
        ensures
            reg@.tags == Map::<Seq<char>, u64>::empty(),
            reg@.taken == 0,
            sound(reg@),
    {
        TagRegistry { entries: NameIndex::empty(), next_bit: 0 }
    }

    /// Registers a leaf tag, allocating one of the 64 bits. Registering the
    /// same name twice returns the existing set. Fails with
    /// [`StatError::TagCapacity`] once 64 leaf tags exist.
    pub fn register(&mut self, name: &str) -> (r: Result<TagSet, StatError>)
        requires
            sound(old(self)@),
        ensures
            sound(final(self)@),
            final(self)@ == registered(old(self)@, name@).0,
            match r {
                Ok(set) => registered(old(self)@, name@).1 == Some(set@),
                Err(e) => registered(old(self)@, name@).1 is None && e@ == Fault::TagCapacity(name@),
            },
    {
        let name = name.to_owned();
        if let Some(existing) = self.entries.find(&name) {
            return Ok(TagSet(existing));
        }
        if self.next_bit >= 64 {
            return Err(StatError::TagCapacity { tag: name });
        }
        proof {
            lemma_fresh_tag(self@, name@);
        }
        let bits: u64 = 1u64 << (self.next_bit as u64);
        self.next_bit = self.next_bit + 1;
        self.entries.put(&name, bits);
        Ok(TagSet(bits))
    }

    /// Registers a *group* tag: a name that stands for the union of its
    /// members. Members that are not yet registered are registered as leaf
    /// tags. Groups may include other groups.
    ///
    /// A query for a group covers every member (querying `elemental` covers
    /// `fire`, `cold` and `lightning`), because the group's mask is a superset
    /// of each member's mask. If a member finds no bit left, the members
    /// before it stay registered and the group is not.
    pub fn register_group(&mut self, name: &str, members: &Vec<String>) -> (r: Result<TagSet, StatError>)
        requires
            sound(old(self)@),
        ensures
            sound(final(self)@),
            ({
                let (after, result) = grouped(old(self)@, names(members@));
                match r {
                    Ok(set) => {
                        &&& result == Ok::<u64, Seq<char>>(set@)
                        &&& final(self)@ == (Registry { tags: after.tags.insert(name@, set@), taken: after.taken })
                    },
                    Err(e) => {
                        &&& final(self)@ == after
                        &&& result matches Err(tag) && e@ == Fault::TagCapacity(tag)
                    },
                }
            }),
    {
        let mut set = TagSet::none();
        let mut i: usize = 0;
        let ghost list = names(members@);
        assert(list.take(0) =~= Seq::empty());
        proof {
            lemma_no_tag();
        }
        while i < members.len()
            invariant
                i <= members@.len(),
                list == names(members@),
                sound(self@),
                grouped(old(self)@, list.take(i as int)) == (self@, Ok::<u64, Seq<char>>(set@)),
                forall|k: int| #[trigger] has_tag(set@, k) ==> k < self@.taken,
            decreases members@.len() - i,
        {
            proof {
                let next = list.take(i + 1);
                assert(next.drop_last() =~= list.take(i as int));
                assert(next.last() == members@[i as int]@);
            }
            match self.register(members[i].as_str()) {
                Ok(more) => {
                    proof {
                        lemma_union_bits(set@, more@);
                        let tag = members@[i as int]@;
                        assert forall|k: int| #[trigger] has_tag(set@ | more@, k) implies k < self@.taken by {
                            assert(self@.tags.contains_key(tag) && self@.tags[tag] == more@);
                            if has_tag(more@, k) {
                                assert(has_tag(self@.tags[tag], k));
                            }
                        }
                    }
                    set = set.union(more);
                },
                Err(e) => {
                    proof {
                        lemma_grouped_prefix(old(self)@, list, i + 1);
                    }
                    return Err(e);
                },
            }
            i = i + 1;
        }
        assert(list.take(i as int) =~= list);
        let ghost before = self@;
        self.entries.put(&name.to_owned(), set.0);
        proof {
            assert forall|n: Seq<char>, k: int|
                #![trigger self@.tags.contains_key(n), has_tag(self@.tags[n], k)]
                self@.tags.contains_key(n) && has_tag(self@.tags[n], k) implies k < self@.taken by {
                if n != name@ {
                    assert(before.tags.contains_key(n) && has_tag(before.tags[n], k));
                }
            }
        }
        Ok(set)
    }

    /// Looks up a registered tag or group by name.
    pub fn get(&self, name: &str) -> (r: Option<TagSet>)
        ensures
            match r {
                Some(set) => self@.tags.contains_key(name@) && set@ == self@.tags[name@],
                None => !self@.tags.contains_key(name@),
            },
    {
        match self.entries.find(&name.to_owned()) {
            Some(bits) => Some(TagSet(bits)),
            None => None,
        }
    }

    /// Looks up a registered tag or group by name, failing with
    /// [`StatError::UnknownTag`] if it was never registered.
    pub fn resolve(&self, name: &str) -> (r: Result<TagSet, StatError>)
        ensures
            match r {
                Ok(set) => self@.tags.contains_key(name@) && set@ == self@.tags[name@],
                Err(e) => !self@.tags.contains_key(name@) && e@ == Fault::UnknownTag(name@),
            },
    {
        match self.get(name) {
            Some(set) => Ok(set),
            None => Err(StatError::UnknownTag(name.to_owned())),
        }
    }

    /// Resolves a list of tag names into their union.
    pub fn resolve_all(&self, list: &Vec<String>) -> (r: Result<TagSet, StatError>)
        ensures
            match r {
                Ok(set) => resolved(self@.tags, names(list@)) == Ok::<u64, Seq<char>>(set@),
                Err(e) => resolved(self@.tags, names(list@)) matches Err(name) && e@ == Fault::UnknownTag(name),
            },
    {
        let mut set = TagSet::none();
        let mut i: usize = 0;
        let ghost all = names(list@);
        assert(all.take(0) =~= Seq::empty());
        while i < list.len()
            invariant
                i <= list@.len(),
                all == names(list@),
                resolved(self@.tags, all.take(i as int)) == Ok::<u64, Seq<char>>(set@),
            decreases list@.len() - i,
        {
            proof {
                assert(all.take(i + 1).drop_last() =~= all.take(i as int));
                assert(all.take(i + 1).last() == list@[i as int]@);
            }
            match self.resolve(list[i].as_str()) {
                Ok(more) => {
                    set = set.union(more);
                },
                Err(e) => {
                    proof {
                        lemma_resolved_prefix(self@.tags, all, i + 1);
                    }
                    return Err(e);
                },
            }
            i = i + 1;
        }
        assert(all.take(i as int) =~= all);
        Ok(set)
    }

    /// Parses a tag list such as `"fire, sword"` or `"fire | sword"` into the
    /// union of the named tags. An empty string yields the empty set.
    pub fn parse(&self, list: &str) -> (r: Result<TagSet, StatError>)
        ensures
            match r {
                Ok(set) => resolved(self@.tags, listed(fields(list@))) == Ok::<u64, Seq<char>>(set@),
                Err(e) => resolved(self@.tags, listed(fields(list@))) matches Err(name) && e@ == Fault::UnknownTag(
                    name,
                ),
            },
    {
        let found = split_tag_names(list);
        self.resolve_all(&found)
    }
}

impl Default for TagRegistry {
    fn default() -> (r: TagRegistry)
        ensures
            sound(r@),
            r@.tags == Map::<Seq<char>, u64>::empty(),
            r@.taken == 0,
    {
        TagRegistry::new()
    }
}

/// The names in a tag list such as `"fire, sword"` or `"fire | sword"`.
pub fn split_tag_names(list: &str) -> (found: Vec<String>)
    ensures
        names(found@) == listed(fields(list@)),
{
    let chars = chars_of(list);
    let mut found: Vec<String> = Vec::new();
    let mut start: usize = 0;
    let mut i: usize = 0;
    proof {
        assert(chars@.take(0) =~= Seq::empty());
        assert(fields(chars@.take(0)).drop_last() =~= Seq::empty());
        assert(chars@.subrange(0, 0) =~= Seq::empty());
        assert(names(found@) =~= Seq::empty());
    }
    while i < chars.len()
        invariant
            start <= i <= chars@.len(),
            fields(chars@.take(i as int)).len() > 0,
            fields(chars@.take(i as int)).last() == chars@.subrange(start as int, i as int),
            names(found@) == listed(fields(chars@.take(i as int)).drop_last()),
        decreases chars@.len() - i,
    {
        let ghost now = chars@.take(i as int);
        let ghost next = chars@.take(i + 1);
        assert(next.drop_last() =~= now);
        if chars[i] == ',' || chars[i] == '|' {
            take_name(&chars, start, i, &mut found, Ghost(fields(now)));
            start = i + 1;
            assert(fields(next).drop_last() =~= fields(now));
            assert(chars@.subrange(start as int, i + 1) =~= Seq::empty());
        } else {
            assert(fields(next).drop_last() =~= fields(now).drop_last());
            assert(fields(next).last() =~= chars@.subrange(start as int, i + 1));
        }
        i = i + 1;
    }
    assert(chars@.take(i as int) =~= chars@);
    take_name(&chars, start, i, &mut found, Ghost(fields(chars@)));
    found
}

/// Appends the name in characters `from..to`, the last of `parts`, to
/// `found`, unless it is empty.
fn take_name(chars: &Vec<char>, from: usize, to: usize, found: &mut Vec<String>, parts: Ghost<Seq<Seq<char>>>)
    requires
        from <= to <= chars@.len(),
        parts@.len() > 0,
        parts@.last() == chars@.subrange(from as int, to as int),
        names(old(found)@) == listed(parts@.drop_last()),
    ensures
        names(final(found)@) == listed(parts@),
{
    let (a, b) = trim(chars, from, to);
    if a < b {
        let name = text_of(chars, a, b);
        let ghost before = names(found@);
        found.push(name);
        assert(names(found@) =~= before.push(name@));
    }
}

proof fn lemma_resolved_prefix(tags: Map<Seq<char>, u64>, list: Seq<Seq<char>>, n: int)
    requires
        0 <= n <= list.len(),
        resolved(tags, list.take(n)) is Err,
    ensures
        resolved(tags, list) == resolved(tags, list.take(n)),
    decreases list.len(),
{
    if n < list.len() {
        assert(list.drop_last().take(n) =~= list.take(n));
        lemma_resolved_prefix(tags, list.drop_last(), n);
    } else {
        assert(list.take(n) =~= list);
    }
}

proof fn lemma_grouped_prefix(reg: Registry, list: Seq<Seq<char>>, n: int)
    requires
        0 <= n <= list.len(),
        grouped(reg, list.take(n)).1 is Err,
    ensures
        grouped(reg, list) == grouped(reg, list.take(n)),
    decreases list.len(),
{
    if n < list.len() {
        assert(list.drop_last().take(n) =~= list.take(n));
        lemma_grouped_prefix(reg, list.drop_last(), n);
    } else {
        assert(list.take(n) =~= list);
    }
}

} // verus!
