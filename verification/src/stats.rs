//! The [`Stats`] container, reductions, and per-stat configuration.

use crate::entity::Entity;
use crate::expr::{CExpr, Rule};
use crate::modifier::{entry_list, Amount, Contribution, IntoModifierValue, Modifier, ModifierSet, ModifierValue};
use crate::parser::{names, parse_stat_path, path_parsed};
use crate::scalar::{custom_value, plus_value, times_value, Arithmetic, Scalar, ONE, ZERO};
use crate::table::{IdTable, Index, NameIndex, NameTable};
use crate::tags::TagSet;
use crate::text::{chars_of, text_of};
use vstd::prelude::*;

verus! {

/// How a stat combines its modifier values into one number.
#[derive(Clone, Copy, Debug, PartialEq, Eq, Structural)]
pub enum Reduction {
    /// Adds the values. No modifiers: `0`. The default.
    Sum,
    /// Multiplies `(1 + v)` factors: each value `v` contributes a factor of
    /// `1 + v`, so `+0.5` means x1.5 and `0.5` with `0.3` gives x1.95.
    /// No modifiers: `1`.
    Product,
    /// A reduction that the embedding program knows by this key
    /// (see [`Arithmetic::custom`]).
    ///
    /// The values come in insertion order (the replaceable base value, if
    /// set, comes first). An empty list must still produce the identity
    /// wanted for "no modifiers".
    Custom(u64),
}

/// `r` is the values added up in order, starting from zero.
pub open spec fn summed<A: Arithmetic>(host: A, values: Seq<Scalar>, r: Scalar) -> bool
    decreases values.len(),
{
    if values.len() == 0 {
        r == ZERO
    } else {
        exists|acc: Scalar|
            #[trigger] plus_value(host, acc, values.last(), r) && summed(host, values.drop_last(), acc)
    }
}

/// `r` is the factors `1 + v` multiplied in order, starting from one.
pub open spec fn multiplied<A: Arithmetic>(host: A, values: Seq<Scalar>, r: Scalar) -> bool
    decreases values.len(),
{
    if values.len() == 0 {
        r == ONE
    } else {
        exists|acc: Scalar, factor: Scalar|
            plus_value(host, ONE, values.last(), factor) && #[trigger] times_value(host, acc, factor, r) && multiplied(
                host,
                values.drop_last(),
                acc,
            )
    }
}

/// `r` is what a reduction makes of the values.
pub open spec fn reduced<A: Arithmetic>(host: A, reduction: Reduction, values: Seq<Scalar>, r: Scalar) -> bool {
    match reduction {
        Reduction::Sum => summed(host, values, r),
        Reduction::Product => multiplied(host, values, r),
        Reduction::Custom(key) => custom_value(host, key, values, r),
    }
}

impl Default for Reduction {
    fn default() -> (r: Reduction)
        ensures
            r == Reduction::Sum,
    {
        Reduction::Sum
    }
}

impl Reduction {
    /// The reduction that the embedding program knows by `key`.
    pub fn custom(key: u64) -> (r: Reduction)
        ensures
            r == Reduction::Custom(key),
    {
        Reduction::Custom(key)
    }

    /// Reduces a list of modifier values.
    pub fn reduce<A: Arithmetic>(&self, host: &A, values: &Vec<Scalar>) -> (r: Scalar)
        ensures
            reduced(*host, *self, values@, r),
    {
        match self {
            Reduction::Sum => {
                let mut acc: Scalar = ZERO;
                let mut i: usize = 0;
                while i < values.len()
                    invariant
                        i <= values@.len(),
                        summed(*host, values@.take(i as int), acc),
                    decreases values@.len() - i,
                {
                    let next = host.plus(acc, values[i]);
                    proof {
                        let more = values@.take(i + 1);
                        assert(more.drop_last() =~= values@.take(i as int));
                        assert(plus_value(*host, acc, more.last(), next));
                    }
                    acc = next;
                    i = i + 1;
                }
                assert(values@.take(i as int) =~= values@);
                acc
            },
            Reduction::Product => {
                let mut acc: Scalar = ONE;
                let mut i: usize = 0;
                while i < values.len()
                    invariant
                        i <= values@.len(),
                        multiplied(*host, values@.take(i as int), acc),
                    decreases values@.len() - i,
                {
                    let factor = host.plus(ONE, values[i]);
                    let next = host.times(acc, factor);
                    proof {
                        let more = values@.take(i + 1);
                        assert(more.drop_last() =~= values@.take(i as int));
                        assert(plus_value(*host, ONE, more.last(), factor));
                        assert(times_value(*host, acc, factor, next));
                    }
                    acc = next;
                    i = i + 1;
                }
                assert(values@.take(i as int) =~= values@);
                acc
            },
            Reduction::Custom(key) => host.custom(*key, values),
        }
    }
}

/// Per-stat configuration: which [`Reduction`] each stat name uses.
///
/// Lookup order: exact name, then the name's last dot-segment (so
/// `set_segment("more", Reduction::Product)` makes every `*.more` stat a
/// product), then the default ([`Reduction::Sum`]).
#[derive(Debug)]
pub struct StatConfig {
    exact: NameTable<Reduction>,
    segment: NameTable<Reduction>,
    default: Reduction,
}

/// What a [`StatConfig`] holds.
pub struct Rules {
    pub exact: Map<Seq<char>, Reduction>,
    pub segment: Map<Seq<char>, Reduction>,
    pub default: Reduction,
}

/// What follows the last dot of a name; all of a name without dots.
pub open spec fn last_segment(name: Seq<char>) -> Seq<char>
    decreases name.len(),
{
    if name.len() == 0 || name.last() == '.' {
        Seq::empty()
    } else {
        last_segment(name.drop_last()).push(name.last())
    }
}

/// The reduction of a stat: that of its name, else that of its last segment,
/// else the default.
pub open spec fn reduction_of(rules: Rules, stat: Seq<char>) -> Reduction {
    if rules.exact.contains_key(stat) {
        rules.exact[stat]
    } else if rules.segment.contains_key(last_segment(stat)) {
        rules.segment[last_segment(stat)]
    } else {
        rules.default
    }
}

proof fn lemma_last_segment(name: Seq<char>, i: int)
    requires
        0 <= i <= name.len(),
        i == 0 || name[i - 1] == '.',
        forall|k: int| i <= k < name.len() ==> name[k] != '.',
    ensures
        last_segment(name) == name.subrange(i, name.len() as int),
    decreases name.len(),
{
    if i < name.len() {
        lemma_last_segment(name.drop_last(), i);
        assert(name.drop_last().subrange(i, name.len() - 1).push(name.last()) =~= name.subrange(i, name.len() as int));
    } else {
        assert(name.subrange(i, name.len() as int) =~= Seq::empty());
    }
}

impl StatConfig {
    /// The lookup tables are in order.
    pub closed spec fn wf(&self) -> bool {
        self.exact.wf() && self.segment.wf()
    }

    /// The configuration in which every stat is a sum.
    pub fn new() -> (config: StatConfig)
        ensures
            config.wf(),
            config@ == (Rules { exact: Map::empty(), segment: Map::empty(), default: Reduction::Sum }),
    {
        StatConfig { exact: NameTable::new(), segment: NameTable::new(), default: Reduction::default() }
    }

    /// Sets the reduction for an exact stat name.
    pub fn set_exact(&mut self, stat: &str, reduction: Reduction)
        requires
            old(self).wf(),
        ensures
            final(self).wf(),
            final(self)@ == (Rules { exact: old(self)@.exact.insert(stat@, reduction), ..old(self)@ }),
    {
        self.exact.insert(stat.to_owned(), reduction);
    }

    /// Sets the reduction for every stat whose last dot-segment matches
    /// (e.g. `"more"` matches `Damage.more` and `Speed.more`).
    pub fn set_segment(&mut self, segment: &str, reduction: Reduction)
        requires
            old(self).wf(),
        ensures
            final(self).wf(),
            final(self)@ == (Rules { segment: old(self)@.segment.insert(segment@, reduction), ..old(self)@ }),
    {
        self.segment.insert(segment.to_owned(), reduction);
    }

    /// Sets the fallback reduction (initially [`Reduction::Sum`]).
    pub fn set_default(&mut self, reduction: Reduction)
        requires
            old(self).wf(),
        ensures
            final(self).wf(),
            final(self)@ == (Rules { default: reduction, ..old(self)@ }),
    {
        self.default = reduction;
    }

    /// The reduction a stat of this name uses.
    pub fn reduction_for(&self, stat: &str) -> (r: &Reduction)
        requires
            self.wf(),
        ensures
            *r == reduction_of(self@, stat@),
    {
        if let Some(r) = self.exact.get(&stat.to_owned()) {
            return r;
        }
        let chars = chars_of(stat);
        let mut i: usize = chars.len();
        while i > 0 && chars[i - 1] != '.'
            invariant
                i <= chars@.len(),
                forall|k: int| i <= k < chars@.len() ==> chars@[k] != '.',
            decreases i,
        {
            i = i - 1;
        }
        let last = text_of(&chars, i, chars.len());
        proof {
            lemma_last_segment(stat@, i as int);
        }
        if let Some(r) = self.segment.get(&last) {
            return r;
        }
        &self.default
    }
}

impl View for StatConfig {
    type V = Rules;

    closed spec fn view(&self) -> Rules {
        Rules { exact: self.exact@, segment: self.segment@, default: self.default }
    }
}

impl Default for StatConfig {
    fn default() -> (r: StatConfig)
        ensures
            r.wf(),
            r@ == (Rules { exact: Map::empty(), segment: Map::empty(), default: Reduction::Sum }),
    {
        StatConfig::new()
    }
}

/// A pending entry queued on a [`Stats`] value before it is inserted onto an
/// entity.
#[derive(Debug)]
pub enum PendingEntry {
    /// A replaceable base value (see [`StatsMutator::set`](crate::StatsMutator::set)).
    Base(String, Scalar),
    /// An ordinary modifier.
    Modifier(String, Modifier),
}

/// What a [`PendingEntry`] says.
pub enum Pending {
    Base(Seq<char>, Scalar),
    Modifier(Seq<char>, Contribution),
}

impl View for PendingEntry {
    type V = Pending;

    open spec fn view(&self) -> Pending {
        match self {
            PendingEntry::Base(stat, v) => Pending::Base(stat@, *v),
            PendingEntry::Modifier(path, m) => Pending::Modifier(path@, m@),
        }
    }
}

/// What a list of pending entries says.
pub open spec fn pending_list(list: Seq<PendingEntry>) -> Seq<Pending> {
    list.map_values(|p: PendingEntry| p@)
}

/// The entries of a modifier set as pending entries.
pub open spec fn queued(set: Seq<(Seq<char>, Contribution)>) -> Seq<Pending> {
    set.map_values(|e: (Seq<char>, Contribution)| Pending::Modifier(e.0, e.1))
}

/// What a starting stat is queued as: an untagged literal as the base value,
/// all else as a modifier.
pub open spec fn seeded(stat: Seq<char>, tags: Seq<Seq<char>>, value: Amount) -> Pending {
    match value {
        Amount::Literal(v) if tags.len() == 0 => Pending::Base(stat, v),
        _ => Pending::Modifier(stat, Contribution { value, tags }),
    }
}

/// One modifier as stored on a stat: compiled, tagged, and addressable.
#[derive(Debug)]
pub struct StoredModifier {
    /// The number of its handle.
    pub id: u64,
    /// The tags it is inserted under.
    pub tags: TagSet,
    /// What it contributes.
    pub value: StoredValue,
}

/// What a stored modifier contributes.
#[derive(Debug)]
pub enum StoredValue {
    Literal(Scalar),
    Expr(CExpr),
}

/// What a [`StoredValue`] says.
pub enum Source {
    Literal(Scalar),
    Expr(Rule),
}

/// What a [`StoredModifier`] says.
pub struct Stored {
    pub id: u64,
    pub tags: u64,
    pub value: Source,
}

impl View for StoredValue {
    type V = Source;

    open spec fn view(&self) -> Source {
        match self {
            StoredValue::Literal(v) => Source::Literal(*v),
            StoredValue::Expr(e) => Source::Expr(e.view()),
        }
    }
}

impl View for StoredModifier {
    type V = Stored;

    open spec fn view(&self) -> Stored {
        Stored { id: self.id, tags: self.tags@, value: self.value@ }
    }
}

/// What a list of stored modifiers says.
pub open spec fn stored_list(list: Seq<StoredModifier>) -> Seq<Stored> {
    list.map_values(|m: StoredModifier| m@)
}

/// One named stat inside a [`Stats`] container.
#[derive(Debug)]
pub struct StatNode {
    /// The replaceable, untagged "base" slot written by `set()` and instant
    /// effects. Participates in the reduction as the first value.
    pub base: Option<Scalar>,
    /// The modifiers, in insertion order.
    pub modifiers: Vec<StoredModifier>,
    /// Cached resolved values per query tag set. A new tag combination is
    /// computed and cached on first use.
    pub cache: IdTable<Scalar>,
}

/// What a stat is made of.
#[verifier::ext_equal]
pub struct Node {
    pub base: Option<Scalar>,
    pub modifiers: Seq<Stored>,
}

/// The stat that nothing has been given to.
pub open spec fn empty_node() -> Node {
    Node { base: None, modifiers: Seq::empty() }
}

impl StatNode {
    /// The cache is in order.
    pub open spec fn wf(&self) -> bool {
        self.cache.wf()
    }

    /// What the stat is made of.
    pub open spec fn body(&self) -> Node {
        Node { base: self.base, modifiers: stored_list(self.modifiers@) }
    }

    /// The stat that nothing has been given to.
    pub fn new() -> (node: StatNode)
        ensures
            node.wf(),
            node.body() == empty_node(),
            node.cache@ == Map::<u64, Scalar>::empty(),
    {
        let node = StatNode { base: None, modifiers: Vec::new(), cache: IdTable::new() };
        assert(node.body() =~= empty_node());
        node
    }
}

/// The stat container of an entity.
///
/// Each stat is a named value produced by combining its modifiers with the
/// stat's [`Reduction`]. All mutation happens through
/// [`StatsMutator`](crate::StatsMutator), which keeps the dependency graph
/// consistent and recomputes exactly what a change affects.
///
/// # Seeding starting stats
///
/// `Stats::new().with(...)` queues entries that are installed when the
/// container is inserted on an entity. Literal values become replaceable
/// *base* values; expression strings become formula modifiers.
#[derive(Debug)]
pub struct Stats {
    pending: Vec<PendingEntry>,
    nodes: NameTable<StatNode>,
    /// Named, runtime-mutable cross-entity links used by `source@Stat`
    /// references in this entity's modifier expressions.
    links: NameIndex,
}

/// What a [`Stats`] holds.
#[verifier::ext_equal]
pub struct Container {
    pub pending: Seq<Pending>,
    pub nodes: Map<Seq<char>, Node>,
    pub cache: Map<(Seq<char>, u64), Scalar>,
    pub links: Map<Seq<char>, Entity>,
}

impl View for Stats {
    type V = Container;

    closed spec fn view(&self) -> Container {
        Container {
            pending: pending_list(self.pending@),
            nodes: Map::new(|s: Seq<char>| self.nodes@.contains_key(s), |s: Seq<char>| self.nodes@[s].body()),
            cache: Map::new(
                |q: (Seq<char>, u64)| self.nodes@.contains_key(q.0) && self.nodes@[q.0].cache@.contains_key(q.1),
                |q: (Seq<char>, u64)| self.nodes@[q.0].cache@[q.1],
            ),
            links: self.links.slots(),
        }
    }
}

impl Default for Stats {
    fn default() -> (r: Stats)
        ensures
            r.wf(),
            r@ == (Container {
                pending: Seq::empty(),
                nodes: Map::empty(),
                cache: Map::empty(),
                links: Map::empty(),
            }),
    {
        Stats::new()
    }
}

impl From<ModifierSet> for Stats {
    fn from(set: ModifierSet) -> (stats: Stats)
        ensures
            stats.wf(),
            stats@ == (Container {
                pending: queued(set@),
                nodes: Map::empty(),
                cache: Map::empty(),
                links: Map::empty(),
            }),
    {
        let stats = Stats::new().with_set(&set);
        assert(stats@.pending =~= queued(set@));
        stats
    }
}

/// What the conversion gives, its own contract says.
impl vstd::std_specs::convert::FromSpecImpl<ModifierSet> for Stats {
    open spec fn obeys_from_spec() -> bool {
        false
    }

    open spec fn from_spec(set: ModifierSet) -> Stats {
        arbitrary()
    }
}

/// The caches with those of one stat replaced.
pub open spec fn recached(
    cache: Map<(Seq<char>, u64), Scalar>,
    stat: Seq<char>,
    part: Map<u64, Scalar>,
) -> Map<(Seq<char>, u64), Scalar> {
    Map::new(
        |q: (Seq<char>, u64)|
            if q.0 == stat {
                part.contains_key(q.1)
            } else {
                cache.contains_key(q)
            },
        |q: (Seq<char>, u64)|
            if q.0 == stat {
                part[q.1]
            } else {
                cache[q]
            },
    )
}

impl Stats {
    /// The lookup tables are in order.
    pub closed spec fn wf(&self) -> bool {
        &&& self.nodes.wf()
        &&& forall|s: Seq<char>| #[trigger] self.nodes@.contains_key(s) ==> self.nodes@[s].wf()
    }

    /// The stat names, in the order in which a walk meets them.
    pub closed spec fn names(&self) -> Seq<Seq<char>> {
        self.nodes.keys()
    }

    /// The walk meets every stat once.
    pub proof fn lemma_names(&self)
        requires
            self.wf(),
        ensures
            self.names().no_duplicates(),
            self.names().to_set() == self@.nodes.dom(),
            self@.nodes.dom().finite(),
            forall|s: Seq<char>| self@.nodes.contains_key(s) <==> #[trigger] self.names().contains(s),
    {
        self.nodes.lemma_keys();
        assert(self@.nodes.dom() =~= self.nodes@.dom());
    }

    /// An empty container.
    pub fn new() -> (stats: Stats)
        ensures
            stats.wf(),
            stats@ == (Container {
                pending: Seq::empty(),
                nodes: Map::empty(),
                cache: Map::empty(),
                links: Map::empty(),
            }),
    {
        let stats = Stats { pending: Vec::new(), nodes: NameTable::new(), links: NameIndex::empty() };
        assert(stats@.pending =~= Seq::empty());
        assert(stats@.nodes =~= Map::empty());
        assert(stats@.cache =~= Map::empty());
        stats
    }

    /// Queues a starting stat. Untagged literal values become the stat's
    /// replaceable *base* value; expression strings and tagged literals
    /// (`"Damage.added{fire}"`) become modifiers.
    ///
    /// The path and the value have to be free of syntax errors (this is a
    /// declarative seeding API; validate ahead of time with
    /// [`Expression::parse`](crate::Expression::parse) if the source is
    /// untrusted).
    #[must_use]
    pub fn with<V: IntoModifierValue>(self, path: &str, value: V) -> (stats: Stats)
        requires
            value.amount() is Ok,
            path_parsed(path@) is Ok,
        ensures
            stats.wf() == self.wf(),
            path_parsed(path@) matches Ok((stat, tags)) && value.amount() matches Ok(amount) && stats@ == (Container {
                pending: self@.pending.push(seeded(stat, tags, amount)),
                ..self@
            }),
    {
        let mut stats = self;
        match (value.into_modifier_value(), parse_stat_path(path)) {
            (Ok(value), Ok((stat, tags))) => {
                let entry = match value {
                    ModifierValue::Literal(v) if tags.len() == 0 => PendingEntry::Base(stat, v),
                    value => PendingEntry::Modifier(stat, Modifier { value, tags }),
                };
                assert(names(tags@).len() == tags@.len());
                stats.pending.push(entry);
                assert(stats@ =~= (Container { pending: self@.pending.push(entry@), ..self@ }));
            },
            _ => {
                assert(false);
            },
        }
        stats
    }

    /// Queues an explicit starting modifier (never a base value).
    #[must_use]
    pub fn with_modifier(self, path: &str, modifier: Modifier) -> (stats: Stats)
        ensures
            stats.wf() == self.wf(),
            stats@ == (Container { pending: self@.pending.push(Pending::Modifier(path@, modifier@)), ..self@ }),
    {
        let mut stats = self;
        let entry = PendingEntry::Modifier(path.to_owned(), modifier);
        stats.pending.push(entry);
        assert(stats@ =~= (Container { pending: self@.pending.push(entry@), ..self@ }));
        stats
    }

    /// Queues every entry of a [`ModifierSet`] as starting modifiers.
    #[must_use]
    pub fn with_set(self, set: &ModifierSet) -> (stats: Stats)
        ensures
            stats.wf() == self.wf(),
            stats@ == (Container { pending: self@.pending + queued(set@), ..self@ }),
    {
        let mut stats = self;
        let entries = set.entries();
        let mut i: usize = 0;
        assert(queued(set@).take(0) =~= Seq::empty());
        while i < entries.len()
            invariant
                i <= entries@.len(),
                entry_list(entries@) == set@,
                stats.wf() == self.wf(),
                stats@ =~= (Container { pending: self@.pending + queued(set@).take(i as int), ..self@ }),
            decreases entries@.len() - i,
        {
            let ghost before = stats@.pending;
            let entry = PendingEntry::Modifier(entries[i].0.clone(), entries[i].1.clone());
            stats.pending.push(entry);
            assert(stats@.pending =~= before.push(entry@));
            assert(entry@ == queued(set@)[i as int]);
            assert(stats@.pending =~= self@.pending + queued(set@).take(i + 1));
            i = i + 1;
        }
        assert(queued(set@).take(i as int) =~= queued(set@));
        stats
    }

    /// The number of queued starting entries.
    pub fn pending_len(&self) -> (n: usize)
        ensures
            n == self@.pending.len(),
    {
        self.pending.len()
    }

    /// The last resolved value of an untagged query on `stat`, if one has
    /// been computed. Cheap cached read for read-only access; use
    /// [`StatsMutator::get`](crate::StatsMutator::get) or
    /// [`StatsReader`](crate::StatsReader) to compute values on demand.
    pub fn cached(&self, stat: &str) -> (value: Option<Scalar>)
        requires
            self.wf(),
        ensures
            value == (if self@.cache.contains_key((stat@, 0)) {
                Some(self@.cache[(stat@, 0)])
            } else {
                None
            }),
    {
        match self.node(&stat.to_owned()) {
            Some(node) => match node.cache.get(&TagSet::none().bits()) {
                Some(v) => Some(*v),
                None => None,
            },
            None => None,
        }
    }

    /// The entity a named cross-entity link currently points at.
    pub fn link(&self, name: &str) -> (target: Option<Entity>)
        ensures
            target == (if self@.links.contains_key(name@) {
                Some(self@.links[name@])
            } else {
                None
            }),
    {
        self.links.find(&name.to_owned())
    }

    /// The names of all stats present in this container, each once.
    pub fn stat_names(&self) -> (list: Vec<String>)
        requires
            self.wf(),
        ensures
            names(list@) == self.names(),
            names(list@).no_duplicates(),
            names(list@).to_set() == self@.nodes.dom(),
    {
        let mut list: Vec<String> = Vec::new();
        let mut i: usize = 0;
        let n: usize = self.nodes.len();
        assert(names(list@) =~= self.names().take(0));
        while i < n
            invariant
                i <= n,
                n == self.nodes.keys().len(),
                names(list@) == self.names().take(i as int),
            decreases n - i,
        {
            let ghost before = names(list@);
            list.push(self.nodes.key_at(i).clone());
            assert(names(list@) =~= before.push(self.names()[i as int]));
            i = i + 1;
            assert(names(list@) =~= self.names().take(i as int));
        }
        proof {
            self.lemma_names();
            assert(self.names().take(n as int) =~= self.names());
        }
        list
    }

    /// Whether a stat node exists (has ever received a base, modifier, or
    /// cached read).
    pub fn has_stat(&self, stat: &str) -> (r: bool)
        ensures
            r == self@.nodes.contains_key(stat@),
    {
        self.nodes.contains(&stat.to_owned())
    }

    /// The current replaceable base value of a stat, if set.
    pub fn base(&self, stat: &str) -> (value: Option<Scalar>)
        requires
            self.wf(),
        ensures
            value == (if self@.nodes.contains_key(stat@) {
                self@.nodes[stat@].base
            } else {
                None
            }),
    {
        match self.node(&stat.to_owned()) {
            Some(node) => node.base,
            None => None,
        }
    }

    /// The number of modifiers currently on a stat (not counting the base).
    pub fn modifier_count(&self, stat: &str) -> (n: usize)
        requires
            self.wf(),
        ensures
            n == (if self@.nodes.contains_key(stat@) {
                self@.nodes[stat@].modifiers.len()
            } else {
                0
            }),
    {
        match self.node(&stat.to_owned()) {
            Some(node) => node.modifiers.len(),
            None => 0,
        }
    }

    /// A stat.
    pub(crate) fn node(&self, stat: &String) -> (node: Option<&StatNode>)
        requires
            self.wf(),
        ensures
            match node {
                Some(node) => {
                    &&& node.wf()
                    &&& self@.nodes.contains_key(stat@)
                    &&& self@.nodes[stat@] == node.body()
                    &&& forall|t: u64| #[trigger] self@.cache.contains_key((stat@, t)) <==> node.cache@.contains_key(t)
                    &&& forall|t: u64|
                        node.cache@.contains_key(t) ==> #[trigger] node.cache@[t] == self@.cache[(stat@, t)]
                },
                None => {
                    &&& !self@.nodes.contains_key(stat@)
                    &&& forall|t: u64| !#[trigger] self@.cache.contains_key((stat@, t))
                },
            },
    {
        self.nodes.get(stat)
    }

    /// A stat, for writing.
    pub(crate) fn node_mut(&mut self, stat: &String) -> (node: Option<&mut StatNode>)
        requires
            old(self).wf(),
        ensures
            match node {
                Some(node) => {
                    &&& node.wf()
                    &&& old(self)@.nodes.contains_key(stat@)
                    &&& old(self)@.nodes[stat@] == node.body()
                    &&& forall|t: u64|
                        #[trigger] old(self)@.cache.contains_key((stat@, t)) <==> node.cache@.contains_key(t)
                    &&& forall|t: u64|
                        node.cache@.contains_key(t) ==> #[trigger] node.cache@[t] == old(self)@.cache[(stat@, t)]
                    &&& final(node).wf() ==> final(self).wf()
                    &&& final(self)@ =~= (Container {
                        nodes: old(self)@.nodes.insert(stat@, final(node).body()),
                        cache: recached(old(self)@.cache, stat@, final(node).cache@),
                        ..old(self)@
                    })
                },
                None => {
                    &&& !old(self)@.nodes.contains_key(stat@)
                    &&& *final(self) == *old(self)
                },
            },
    {
        self.nodes.get_mut(stat)
    }

    /// Makes sure that a stat exists.
    pub(crate) fn ensure_node(&mut self, stat: &String)
        requires
            old(self).wf(),
        ensures
            final(self).wf(),
            final(self)@ =~= (Container {
                nodes: if old(self)@.nodes.contains_key(stat@) {
                    old(self)@.nodes
                } else {
                    old(self)@.nodes.insert(stat@, empty_node())
                },
                ..old(self)@
            }),
    {
        if !self.nodes.contains(stat) {
            self.nodes.insert(stat.clone(), StatNode::new());
        }
    }

    /// Takes a stat out.
    pub(crate) fn remove_node(&mut self, stat: &String)
        requires
            old(self).wf(),
        ensures
            final(self).wf(),
            final(self)@ =~= (Container {
                nodes: old(self)@.nodes.remove(stat@),
                cache: recached(old(self)@.cache, stat@, Map::empty()),
                ..old(self)@
            }),
    {
        self.nodes.remove(stat);
    }

    /// Points a link at `target`, or clears it.
    pub(crate) fn set_link(&mut self, name: &String, target: Option<Entity>)
        requires
            old(self).wf(),
        ensures
            final(self).wf(),
            final(self)@ =~= (Container {
                links: match target {
                    Some(t) => old(self)@.links.insert(name@, t),
                    None => old(self)@.links.remove(name@),
                },
                ..old(self)@
            }),
    {
        match target {
            Some(t) => self.links.put(name, t),
            None => self.links.erase(name),
        }
    }

    /// The queue of starting stats.
    pub(crate) fn into_pending(self) -> (list: Vec<PendingEntry>)
        ensures
            pending_list(list@) == self@.pending,
    {
        self.pending
    }

    /// The number of stats.
    pub(crate) fn len(&self) -> (n: usize)
        ensures
            n == self.names().len(),
    {
        self.nodes.len()
    }

    /// The stat that a walk meets at position `i`.
    pub(crate) fn node_at(&self, i: usize) -> (r: (&String, &StatNode))
        requires
            self.wf(),
            i < self.names().len(),
        ensures
            r.0@ == self.names()[i as int],
            r.1.wf(),
            self@.nodes.contains_key(r.0@),
            r.1.body() == self@.nodes[r.0@],
    {
        proof {
            self.lemma_names();
            assert(self.names().contains(self.names()[i as int]));
        }
        (self.nodes.key_at(i), self.nodes.value_at(i))
    }
}

} // verus!
