//! Items that grant modifiers to the entity they are attached to.

use crate::access::StatsMutator;
use crate::entity::Entity;
use crate::error::StatError;
use crate::laws::{law_apply_then_remove, lemma_removed_ids, same_makeup};
use crate::modifier::{AppliedModifiers, Contribution, ModifierSet, Receipt};
use crate::scalar::Arithmetic;
use crate::state::{apply_fault, numbered, set_applied, set_removed, State};
use crate::table::IdTable;
use vstd::prelude::*;

verus! {

/// A [`ModifierSet`] carried by an entity (a sword, a buff, an enchant), to
/// be granted to whatever entity it is attached to.
///
/// Attaching an item that carries one applies it to the target. Detaching the
/// item (or despawning it) detaches it symmetrically; attaching it to someone
/// else moves the whole bundle in one operation.
#[derive(Debug)]
pub struct ModifierCollection(pub ModifierSet);

impl Clone for ModifierCollection {
    fn clone(&self) -> (copy: ModifierCollection)
        ensures
            copy.0@ == self.0@,
    {
        ModifierCollection(self.0.clone())
    }
}

impl Default for ModifierCollection {
    fn default() -> (collection: ModifierCollection)
        ensures
            collection.0@ == Seq::<(Seq<char>, Contribution)>::empty(),
    {
        ModifierCollection(ModifierSet::new())
    }
}

/// The receipts of what each attached item currently grants, so detaching can
/// remove exactly that.
pub struct Attachments {
    receipts: IdTable<AppliedModifiers>,
}

impl View for Attachments {
    type V = Map<Entity, Receipt>;

    closed spec fn view(&self) -> Map<Entity, Receipt> {
        Map::new(|item: Entity| self.receipts@.contains_key(item), |item: Entity| self.receipts@[item]@)
    }
}

/// `after` is the state in which an item grants nothing any more.
pub open spec fn item_detached<A: Arithmetic>(
    host: A,
    receipts: Map<Entity, Receipt>,
    s: State,
    item: Entity,
    after: State,
) -> bool {
    if receipts.contains_key(item) {
        set_removed(host, s, receipts[item].target, receipts[item].handles, after)
    } else {
        after == s
    }
}

impl Attachments {
    /// The lookup table is in order.
    pub closed spec fn wf(&self) -> bool {
        self.receipts.wf()
    }

    /// Nothing is attached.
    pub fn new() -> (attachments: Attachments)
        ensures
            attachments.wf(),
            attachments@ == Map::<Entity, Receipt>::empty(),
    {
        let attachments = Attachments { receipts: IdTable::new() };
        assert(attachments@ =~= Map::empty());
        attachments
    }

    /// Whether an item grants something.
    pub fn is_attached(&self, item: Entity) -> (r: bool)
        ensures
            r == self@.contains_key(item),
    {
        self.receipts.contains(&item)
    }

    /// Applies an item's collection to the entity it was just attached to. If
    /// it was attached to another one, it is detached from that one first. On
    /// error it grants nothing.
    pub fn attach<A: Arithmetic>(
        &mut self,
        stats: &mut StatsMutator<A>,
        item: Entity,
        target: Entity,
        collection: &ModifierCollection,
    ) -> (r: Result<(), StatError>)
        requires
            old(self).wf(),
            old(stats).wf(),
            old(stats)@.last_id + collection.0@.len() <= u64::MAX,
        ensures
            final(self).wf(),
            final(stats).wf(),
            final(stats).host() == old(stats).host(),
            exists|mid: State| #[trigger]
                item_detached(old(stats).host(), old(self)@, old(stats)@, item, mid) && match r {
                    Ok(_) => {
                        &&& apply_fault(mid, target, collection.0@) is None
                        &&& final(self)@.contains_key(item)
                        &&& final(self)@ == old(self)@.insert(item, final(self)@[item])
                        &&& final(self)@[item].target == target
                        &&& set_applied(
                            old(stats).host(),
                            mid,
                            target,
                            collection.0@,
                            final(self)@[item].handles,
                            final(stats)@,
                        )
                    },
                    Err(e) => {
                        &&& apply_fault(mid, target, collection.0@) == Some(e@)
                        &&& final(self)@ == old(self)@.remove(item)
                        &&& final(stats)@ == mid
                    },
                },
    {
        self.detach(stats, item);
        let ghost mid = stats@;
        proof {
            lemma_detached_ids(old(stats).host(), old(self)@, old(stats)@, item, mid);
        }
        assert(item_detached(old(stats).host(), old(self)@, old(stats)@, item, mid));
        match stats.apply(target, &collection.0) {
            Ok(receipt) => {
                let ghost granted = receipt@;
                let ghost before = self@;
                self.receipts.insert(item, receipt);
                assert(self@ =~= before.insert(item, granted));
                assert(self@ =~= old(self)@.insert(item, granted));
                Ok(())
            },
            Err(e) => Err(e),
        }
    }

    /// Detaches an item's modifiers when it is not attached any more, or
    /// attached elsewhere, or despawned. Nothing happens if it grants nothing.
    pub fn detach<A: Arithmetic>(&mut self, stats: &mut StatsMutator<A>, item: Entity)
        requires
            old(self).wf(),
            old(stats).wf(),
        ensures
            final(self).wf(),
            final(self)@ == old(self)@.remove(item),
            final(stats).wf(),
            final(stats).host() == old(stats).host(),
            item_detached(old(stats).host(), old(self)@, old(stats)@, item, final(stats)@),
    {
        let found = self.receipts.remove(&item);
        assert(self@ =~= old(self)@.remove(item));
        if let Some(receipt) = found {
            stats.remove(&receipt);
        }
    }
}

/// Detaching an item gives out no numbers.
proof fn lemma_detached_ids<A: Arithmetic>(
    host: A,
    receipts: Map<Entity, Receipt>,
    s: State,
    item: Entity,
    after: State,
)
    requires
        item_detached(host, receipts, s, item, after),
    ensures
        after.last_id == s.last_id,
{
    if receipts.contains_key(item) {
        lemma_removed_ids(host, s, receipts[item].target, receipts[item].handles, after);
    }
}

/// Attaching an item that grants nothing yet and detaching it again leaves the
/// stats as they were.
pub proof fn law_attach_then_detach<A: Arithmetic>(
    host: A,
    s: State,
    item: Entity,
    set: Seq<(Seq<char>, Contribution)>,
    receipts: Map<Entity, Receipt>,
    attached: State,
    after: State,
)
    requires
        receipts.contains_key(item),
        s.world.carriers.contains(receipts[item].target),
        numbered(s.world, s.last_id),
        s.last_id + set.len() <= u64::MAX,
        set_applied(host, s, receipts[item].target, set, receipts[item].handles, attached),
        item_detached(host, receipts, attached, item, after),
    ensures
        same_makeup(after.world, s.world),
{
    law_apply_then_remove(host, s, receipts[item].target, set, receipts[item].handles, attached, after);
}

} // verus!
