//! The behaviour of the stat system, end to end.

use bevy_stats::{
    Arithmetic, Attachments, Entity, Expression, InstantEffect, InstantOp, ModifierCollection, ModifierSet,
    ModifierValue, ParseError, ParseErrorKind, Reduction, Requirement, Roles, Scalar, StatConfig, StatError, StatField,
    Stats, StatsMutator, TagRegistry,
};
use std::cell::Cell;

const HIGHEST: u64 = 1;
const COUNTED_D: u64 = 2;
const COUNTED_U: u64 = 3;

/// Single-precision arithmetic, with reductions that count their calls.
#[derive(Default)]
struct Float {
    d_count: Cell<usize>,
    u_count: Cell<usize>,
}

fn f(v: Scalar) -> f32 {
    f32::from_bits(v)
}

impl Arithmetic for Float {
    fn literal(&self, text: &str) -> Scalar {
        text.parse::<f32>().unwrap().to_bits()
    }
    fn plus(&self, a: Scalar, b: Scalar) -> Scalar {
        (f(a) + f(b)).to_bits()
    }
    fn minus(&self, a: Scalar, b: Scalar) -> Scalar {
        (f(a) - f(b)).to_bits()
    }
    fn times(&self, a: Scalar, b: Scalar) -> Scalar {
        (f(a) * f(b)).to_bits()
    }
    fn over(&self, a: Scalar, b: Scalar) -> Scalar {
        (f(a) / f(b)).to_bits()
    }
    fn modulo(&self, a: Scalar, b: Scalar) -> Scalar {
        (f(a) % f(b)).to_bits()
    }
    fn power(&self, a: Scalar, b: Scalar) -> Scalar {
        bevy_math::ops::powf(f(a), f(b)).to_bits()
    }
    fn floor(&self, a: Scalar) -> Scalar {
        f(a).floor().to_bits()
    }
    fn ceil(&self, a: Scalar) -> Scalar {
        f(a).ceil().to_bits()
    }
    fn round(&self, a: Scalar) -> Scalar {
        f(a).round().to_bits()
    }
    fn sqrt(&self, a: Scalar) -> Scalar {
        f(a).sqrt().to_bits()
    }
    fn custom(&self, key: u64, values: &Vec<Scalar>) -> Scalar {
        let values: Vec<f32> = values.iter().map(|v| f(*v)).collect();
        let result: f32 = match key {
            HIGHEST => values.iter().copied().fold(0.0, f32::max),
            COUNTED_D => {
                self.d_count.set(self.d_count.get() + 1);
                values.iter().sum()
            }
            COUNTED_U => {
                self.u_count.set(self.u_count.get() + 1);
                values.iter().sum()
            }
            _ => unreachable!(),
        };
        result.to_bits()
    }
    fn cycle(&self, _stat: &str) {}
}

type World = StatsMutator<Float>;

fn app() -> World {
    let mut tags = TagRegistry::new();
    for tag in ["fire", "cold", "lightning", "physical", "sword", "axe", "attack"] {
        tags.register(tag).unwrap();
    }
    let elemental: Vec<String> = ["fire", "cold", "lightning"].iter().map(|t| t.to_string()).collect();
    tags.register_group("elemental", &elemental).unwrap();
    let mut config = StatConfig::new();
    config.set_segment("increased", Reduction::Sum);
    config.set_segment("more", Reduction::Product);
    StatsMutator::new(Float::default(), tags, config)
}

fn num(v: f32) -> ModifierValue {
    ModifierValue::Literal(v.to_bits())
}

fn get(world: &mut World, entity: Entity, stat: &str) -> f32 {
    f(world.get(entity, stat))
}

fn get_tagged(world: &mut World, entity: Entity, stat: &str, tags: &str) -> f32 {
    f(world.get_with_tags(entity, stat, tags).unwrap())
}

fn set(world: &mut World, entity: Entity, stat: &str, value: f32) {
    world.set(entity, stat, value.to_bits()).unwrap();
}

/// Puts stats on an entity; every starting entry has to install.
fn spawn(world: &mut World, entity: Entity, stats: Stats) -> Entity {
    assert_eq!(world.insert(entity, stats), Vec::new());
    entity
}

// ---------------------------------------------------------------------------
// Formulas & propagation
// ---------------------------------------------------------------------------

#[test]
fn formula_recomputes_on_source_change() {
    let mut world = app();
    let hero = spawn(
        &mut world,
        1,
        Stats::new().with("Vitality", num(12.0)).with("MaxHealth", "Vitality * 10 + 50"),
    );
    assert_eq!(get(&mut world, hero, "MaxHealth"), 170.0);
    set(&mut world, hero, "Vitality", 13.0);
    assert_eq!(get(&mut world, hero, "MaxHealth"), 180.0);
    // The dependency is live, not a one-shot: change again.
    set(&mut world, hero, "Vitality", 20.0);
    assert_eq!(get(&mut world, hero, "MaxHealth"), 250.0);
}

#[test]
fn recompute_touches_exactly_dependents_once() {
    let mut world = app();
    world.config_mut().set_exact("D", Reduction::custom(COUNTED_D));
    world.config_mut().set_exact("Unrelated", Reduction::custom(COUNTED_U));
    // Diamond: A feeds B and C; D combines B and C. Plus an unrelated stat.
    let e = spawn(
        &mut world,
        1,
        Stats::new()
            .with("A", num(1.0))
            .with("B", "A * 2")
            .with("C", "A + 1")
            .with("D", "B + C")
            .with("Unrelated", num(7.0)),
    );
    assert_eq!(get(&mut world, e, "D"), 4.0);
    assert_eq!(get(&mut world, e, "Unrelated"), 7.0);
    let d_before = world.arithmetic().d_count.get();
    let u_before = world.arithmetic().u_count.get();

    set(&mut world, e, "A", 2.0);

    // D was re-reduced exactly once for the change, despite two paths A->D.
    assert_eq!(world.arithmetic().d_count.get(), d_before + 1);
    // The unrelated stat was not re-evaluated at all.
    assert_eq!(world.arithmetic().u_count.get(), u_before);
    assert_eq!(get(&mut world, e, "D"), 7.0);
    // Reading D again hits the cache: no further reduction calls.
    assert_eq!(world.arithmetic().d_count.get(), d_before + 1);
}

#[test]
fn no_op_write_causes_no_recompute() {
    let mut world = app();
    world.config_mut().set_exact("Derived", Reduction::custom(COUNTED_D));
    let e = spawn(&mut world, 1, Stats::new().with("Base", num(5.0)).with("Derived", "Base * 2"));
    assert_eq!(get(&mut world, e, "Derived"), 10.0);
    let before = world.arithmetic().d_count.get();
    set(&mut world, e, "Base", 5.0); // same value
    assert_eq!(world.arithmetic().d_count.get(), before);
}

// ---------------------------------------------------------------------------
// Reductions
// ---------------------------------------------------------------------------

#[test]
fn reduction_identities_and_product_rule() {
    let mut world = app();
    let e = spawn(&mut world, 1, Stats::new());
    // Empty sum is 0; empty product is 1 (segment `more` is Product).
    assert_eq!(get(&mut world, e, "Damage.added"), 0.0);
    assert_eq!(get(&mut world, e, "Damage.more"), 1.0);

    world.add_modifier(e, "Damage.more", num(0.5)).unwrap();
    world.add_modifier(e, "Damage.more", num(0.3)).unwrap();
    // (1 + 0.5) * (1 + 0.3) = 1.95
    let v = get(&mut world, e, "Damage.more");
    assert!((v - 1.95).abs() < 1e-6, "expected 1.95, got {v}");
}

#[test]
fn custom_reduction() {
    let mut world = app();
    world.config_mut().set_exact("Highest", Reduction::custom(HIGHEST));
    let e = spawn(&mut world, 1, Stats::new());
    world.add_modifier(e, "Highest", num(3.0)).unwrap();
    world.add_modifier(e, "Highest", num(9.0)).unwrap();
    world.add_modifier(e, "Highest", num(5.0)).unwrap();
    assert_eq!(get(&mut world, e, "Highest"), 9.0);
}

#[test]
fn base_replacement_leaves_other_contributions_intact() {
    let mut world = app();
    let e = spawn(&mut world, 1, Stats::new().with("Might", num(4.0)).with("Power", "Might * 3"));
    world.set(e, "Power", 100f32.to_bits()).unwrap(); // changing base
    world.add_modifier(e, "Power", num(10.0)).unwrap(); // flat modifier
    // base 100 + formula 12 + flat 10
    assert_eq!(get(&mut world, e, "Power"), 122.0);
    set(&mut world, e, "Power", 80.0); // replace ONLY the base
    assert_eq!(get(&mut world, e, "Power"), 102.0);
    set(&mut world, e, "Might", 10.0); // formula contribution still live
    assert_eq!(get(&mut world, e, "Power"), 120.0);
}

// ---------------------------------------------------------------------------
// Tags
// ---------------------------------------------------------------------------

#[test]
fn tag_subset_rule_is_exact() {
    let mut world = app();
    let e = spawn(&mut world, 1, Stats::new());
    world.add_modifier(e, "Damage", num(1.0)).unwrap(); // untagged
    world.add_modifier(e, "Damage{fire}", num(10.0)).unwrap();
    world.add_modifier(e, "Damage{fire, sword}", num(100.0)).unwrap();
    // Untagged applies to every query.
    assert_eq!(get(&mut world, e, "Damage"), 1.0);
    // FIRE modifier applies to a FIRE query; FIRE|SWORD does not.
    assert_eq!(get_tagged(&mut world, e, "Damage", "fire"), 11.0);
    // FIRE and FIRE|SWORD both apply to a FIRE|SWORD query.
    assert_eq!(get_tagged(&mut world, e, "Damage", "fire, sword"), 111.0);
    // SWORD-only sees just the untagged modifier.
    assert_eq!(get_tagged(&mut world, e, "Damage", "sword"), 1.0);
}

#[test]
fn group_tags_cover_members() {
    let mut world = app();
    let e = spawn(&mut world, 1, Stats::new());
    world.add_modifier(e, "Damage{fire}", num(5.0)).unwrap();
    world.add_modifier(e, "Damage{cold}", num(7.0)).unwrap();
    world.add_modifier(e, "Damage{physical}", num(100.0)).unwrap();
    // Querying the group covers every member, but not outsiders.
    assert_eq!(get_tagged(&mut world, e, "Damage", "elemental"), 12.0);
}

#[test]
fn tagged_queries_recompute_like_untagged_ones() {
    let mut world = app();
    let e = spawn(&mut world, 1, Stats::new().with("Level", num(1.0)));
    world.add_modifier(e, "Damage{fire}", "Level * 3").unwrap();
    assert_eq!(get_tagged(&mut world, e, "Damage", "fire"), 3.0);
    set(&mut world, e, "Level", 4.0);
    // The cached fire-query value was refreshed by the propagation.
    assert_eq!(get_tagged(&mut world, e, "Damage", "fire"), 12.0);
}

#[test]
fn expression_tag_filters_by_name() {
    let mut world = app();
    let e = spawn(&mut world, 1, Stats::new());
    world.add_modifier(e, "Damage.added{fire}", num(12.0)).unwrap();
    world.add_modifier(e, "Damage.added{cold}", num(5.0)).unwrap();
    world.add_modifier(e, "FireFraction", "Damage.added{fire} / Damage.added{elemental}").unwrap();
    let v = get(&mut world, e, "FireFraction");
    assert!((v - 12.0 / 17.0).abs() < 1e-6);
}

#[test]
fn unknown_tag_is_a_typed_error() {
    let mut world = app();
    let e = spawn(&mut world, 1, Stats::new());
    let err = world.add_modifier(e, "Damage{chaos}", num(1.0)).unwrap_err();
    assert_eq!(err, StatError::UnknownTag("chaos".to_string()));
}

// ---------------------------------------------------------------------------
// Compound stats
// ---------------------------------------------------------------------------

#[test]
fn compound_stat_resolves_new_tag_combinations_on_first_use() {
    let mut world = app();
    let e = spawn(&mut world, 1, Stats::new());
    // damage = added * (1 + increased) * more; parts inherit the query's tags
    // because the references carry no explicit filter.
    world.add_modifier(e, "Damage", "Damage.added * (1 + Damage.increased) * Damage.more").unwrap();
    world.add_modifier(e, "Damage.added", num(10.0)).unwrap();
    world.add_modifier(e, "Damage.added{fire}", num(5.0)).unwrap();
    world.add_modifier(e, "Damage.increased{fire}", num(0.2)).unwrap();
    world.add_modifier(e, "Damage.more{sword}", num(0.5)).unwrap();
    // Untagged: 10 * 1.0 * 1.0
    assert_eq!(get(&mut world, e, "Damage"), 10.0);
    // fire: (10+5) * 1.2 * 1
    assert!((get_tagged(&mut world, e, "Damage", "fire") - 18.0).abs() < 1e-4);
    // A combination never queried before resolves on first use:
    // fire|sword: (10+5) * 1.2 * 1.5
    assert!((get_tagged(&mut world, e, "Damage", "fire, sword") - 27.0).abs() < 1e-4);
}

// ---------------------------------------------------------------------------
// Modifier bundles (equipment / enchant flows)
// ---------------------------------------------------------------------------

#[test]
fn modifier_sets_apply_and_detach_symmetrically() {
    let mut world = app();
    let hero = spawn(&mut world, 1, Stats::new().with("Damage.added", num(3.0)));

    let sword = ModifierSet::new().with("Damage.added", num(12.0)).with("Damage.increased", num(0.15));
    let enchant = ModifierSet::new().with("Damage.added{fire}", num(6.0));

    let sword_receipt = world.apply(hero, &sword).unwrap();
    let enchant_receipt = world.apply(hero, &enchant).unwrap();

    assert_eq!(get(&mut world, hero, "Damage.added"), 15.0);
    assert_eq!(get_tagged(&mut world, hero, "Damage.added", "fire"), 21.0);

    // Remove the enchant: the sword and the character's own base remain.
    world.remove(&enchant_receipt);
    assert_eq!(get_tagged(&mut world, hero, "Damage.added", "fire"), 15.0);
    assert_eq!(get(&mut world, hero, "Damage.added"), 15.0);

    // Remove the sword: back to the bare character.
    world.remove(&sword_receipt);
    assert_eq!(get(&mut world, hero, "Damage.added"), 3.0);
    assert_eq!(get(&mut world, hero, "Damage.increased"), 0.0);
}

#[test]
fn attached_collection_follows_the_relationship() {
    let mut world = app();
    let mut attachments = Attachments::new();
    let alice = spawn(&mut world, 1, Stats::new().with("Armor", num(5.0)));
    let bob = spawn(&mut world, 2, Stats::new().with("Armor", num(5.0)));
    let cuirass: Entity = 3;
    let collection = ModifierCollection(ModifierSet::new().with("Armor", num(20.0)));
    attachments.attach(&mut world, cuirass, alice, &collection).unwrap();
    assert_eq!(get(&mut world, alice, "Armor"), 25.0);
    assert_eq!(get(&mut world, bob, "Armor"), 5.0);

    // Hand it to Bob: one operation moves the whole bundle.
    attachments.attach(&mut world, cuirass, bob, &collection).unwrap();
    assert_eq!(get(&mut world, alice, "Armor"), 5.0);
    assert_eq!(get(&mut world, bob, "Armor"), 25.0);

    // Destroying the item detaches it.
    attachments.detach(&mut world, cuirass);
    assert_eq!(get(&mut world, bob, "Armor"), 5.0);
}

#[test]
fn removing_one_of_two_identical_modifiers_keeps_the_other() {
    let mut world = app();
    let e = spawn(&mut world, 1, Stats::new().with("Source", num(2.0)));
    let h1 = world.add_modifier(e, "Derived", "Source * 10").unwrap();
    let _h2 = world.add_modifier(e, "Derived", "Source * 10").unwrap();
    assert_eq!(get(&mut world, e, "Derived"), 40.0);
    world.remove_modifier(e, "Derived", h1).unwrap();
    assert_eq!(get(&mut world, e, "Derived"), 20.0);
    // The shared dependency edge survived (refcounted): changes still flow.
    set(&mut world, e, "Source", 3.0);
    assert_eq!(get(&mut world, e, "Derived"), 30.0);
}

// ---------------------------------------------------------------------------
// Cross-entity links
// ---------------------------------------------------------------------------

#[test]
fn link_repoint_rewires_and_recomputes() {
    let mut world = app();
    let hero = spawn(&mut world, 1, Stats::new().with("Strength", num(10.0)));
    let ogre = spawn(&mut world, 2, Stats::new().with("Strength", num(50.0)));
    let sword = spawn(&mut world, 3, Stats::new().with("Damage", "wielder@Strength * 2"));
    world.set_link(sword, "wielder", hero).unwrap();
    assert_eq!(get(&mut world, sword, "Damage"), 20.0);
    // Source change flows across the entity boundary.
    set(&mut world, hero, "Strength", 12.0);
    assert_eq!(get(&mut world, sword, "Damage"), 24.0);

    // Re-point the link: a single operation rewires and recomputes.
    world.set_link(sword, "wielder", ogre).unwrap();
    assert_eq!(get(&mut world, sword, "Damage"), 100.0);
    // The old source no longer propagates here...
    set(&mut world, hero, "Strength", 999.0);
    assert_eq!(get(&mut world, sword, "Damage"), 100.0);
    // ...and the old edge is gone from the old source.
    assert_eq!(world.dependent_count(hero, "Strength"), 0);
    // The new source does propagate.
    set(&mut world, ogre, "Strength", 60.0);
    assert_eq!(get(&mut world, sword, "Damage"), 120.0);
}

#[test]
fn multi_hop_chain_recomputes_across_entities() {
    let mut world = app();
    // aura -> hero -> weapon: three hops, two links.
    let aura = spawn(&mut world, 1, Stats::new().with("Bonus", num(5.0)));
    let hero = spawn(
        &mut world,
        2,
        Stats::new().with("Strength.base", num(10.0)).with("Strength", "Strength.base + aura@Bonus"),
    );
    let weapon = spawn(&mut world, 3, Stats::new().with("Damage", "wielder@Strength * 2"));
    world.set_link(hero, "aura", aura).unwrap();
    world.set_link(weapon, "wielder", hero).unwrap();
    assert_eq!(get(&mut world, weapon, "Damage"), 30.0);
    // A change at the far end of the chain reaches the weapon.
    set(&mut world, aura, "Bonus", 15.0);
    assert_eq!(get(&mut world, weapon, "Damage"), 50.0);
}

#[test]
fn clearing_a_link_reads_as_missing_stats() {
    let mut world = app();
    let hero = spawn(&mut world, 1, Stats::new().with("Strength", num(10.0)));
    let sword = spawn(&mut world, 2, Stats::new().with("Damage", "wielder@Strength * 2 + 1"));
    world.set_link(sword, "wielder", hero).unwrap();
    assert_eq!(get(&mut world, sword, "Damage"), 21.0);
    world.clear_link(sword, "wielder").unwrap();
    assert_eq!(get(&mut world, sword, "Damage"), 1.0);
    // Changing the ex-source does not resurrect the connection.
    set(&mut world, hero, "Strength", 100.0);
    assert_eq!(get(&mut world, sword, "Damage"), 1.0);
}

// ---------------------------------------------------------------------------
// Despawn cleanup
// ---------------------------------------------------------------------------

#[test]
fn despawn_cleans_up_edges_and_recomputes_dependents() {
    let mut world = app();
    let hero = spawn(&mut world, 1, Stats::new().with("Strength", num(10.0)));
    let weapon = spawn(&mut world, 2, Stats::new().with("Damage", "wielder@Strength * 2 + 3"));
    world.set_link(weapon, "wielder", hero).unwrap();
    assert_eq!(get(&mut world, weapon, "Damage"), 23.0);

    world.teardown(hero);
    // The weapon's cached value was recomputed with the source gone.
    assert_eq!(get(&mut world, weapon, "Damage"), 3.0);
}

#[test]
fn despawning_a_dependent_releases_edges_on_its_sources() {
    let mut world = app();
    let hero = spawn(&mut world, 1, Stats::new().with("Strength", num(10.0)));
    let weapon = spawn(&mut world, 2, Stats::new().with("Damage", "wielder@Strength * 2"));
    world.set_link(weapon, "wielder", hero).unwrap();
    assert_eq!(get(&mut world, weapon, "Damage"), 20.0);
    assert_eq!(world.dependent_count(hero, "Strength"), 1);

    world.teardown(weapon);
    // The graph no longer tracks the dead dependent.
    assert_eq!(world.dependent_count(hero, "Strength"), 0);
    // And writes to the hero proceed without incident.
    set(&mut world, hero, "Strength", 11.0);
}

// ---------------------------------------------------------------------------
// Expression evaluation edge cases
// ---------------------------------------------------------------------------

#[test]
fn expression_edge_cases() {
    let mut world = app();
    let e = spawn(&mut world, 1, Stats::new().with("Zero", num(0.0)).with("Ten", num(10.0)));
    let eval =
        |world: &World, src: &str| -> f32 { f(world.eval(e, &Expression::parse(src).unwrap()).unwrap()) };
    // Division by (near-)zero yields 0, never NaN/inf.
    assert_eq!(eval(&world, "Ten / Zero"), 0.0);
    assert_eq!(eval(&world, "Ten % Zero"), 0.0);
    assert_eq!(eval(&world, "1 / 0.0000000001"), 0.0);
    // Power producing a non-finite result yields 0.
    assert_eq!(eval(&world, "10 ^ 400"), 0.0);
    assert_eq!(eval(&world, "(0 - 1) ^ 0.5"), 0.0);
    assert_eq!(eval(&world, "2 ^ 10"), 1024.0);
    // Comparison/logical operators yield 1/0.
    assert_eq!(eval(&world, "Ten > 5"), 1.0);
    assert_eq!(eval(&world, "Ten < 5"), 0.0);
    assert_eq!(eval(&world, "Ten >= 10 && Zero == 0"), 1.0);
    assert_eq!(eval(&world, "Ten < 5 || Zero != 0"), 0.0);
    assert_eq!(eval(&world, "!Zero"), 1.0);
    // Equality compares within a small epsilon.
    assert_eq!(eval(&world, "0.1 + 0.2 == 0.3"), 1.0);
    assert_eq!(eval(&world, "0.1 + 0.2 != 0.3"), 0.0);
    // Math helpers.
    assert_eq!(eval(&world, "min(Ten, 3, 7)"), 3.0);
    assert_eq!(eval(&world, "max(Ten, 30)"), 30.0);
    assert_eq!(eval(&world, "abs(0 - Ten)"), 10.0);
    assert_eq!(eval(&world, "clamp(Ten, 0, 7.5)"), 7.5);
    // Missing stats read as their reduction identity.
    assert_eq!(eval(&world, "NeverDefined + 4"), 4.0);
}

#[test]
fn parse_errors_are_typed() {
    assert!(matches!(Expression::parse("Strength +"), Err(StatError::Parse(_))));
    assert!(matches!(
        Expression::parse("frobnicate(1)"),
        Err(StatError::Parse(ParseError { kind: ParseErrorKind::UnknownFunction(_), .. }))
    ));
    assert!(matches!(
        Expression::parse("clamp(1, 2)"),
        Err(StatError::Parse(ParseError { kind: ParseErrorKind::WrongArity { .. }, .. }))
    ));
    assert!(matches!(Expression::parse("1 ? 2"), Err(StatError::Parse(_))));
}

#[test]
fn dependency_cycles_do_not_hang_or_crash() {
    let mut world = app();
    let e = spawn(&mut world, 1, Stats::new().with("Chicken", "Egg + 1").with("Egg", "Chicken + 1"));
    // The cycle is broken deterministically (in-progress frame reads 0).
    let v = get(&mut world, e, "Chicken");
    assert!(v.is_finite());
    set(&mut world, e, "Chicken", 5.0);
    assert!(get(&mut world, e, "Egg").is_finite());
}

// ---------------------------------------------------------------------------
// Requirements
// ---------------------------------------------------------------------------

#[test]
fn requirements_gate_on_current_stats() {
    let mut world = app();
    let e = spawn(
        &mut world,
        1,
        Stats::new().with("Intelligence", num(14.0)).with("Strength", num(30.0)),
    );
    let req = Requirement::parse("Intelligence >= 15 && Strength >= 20").unwrap();
    assert!(!world.check(e, &req).unwrap());
    set(&mut world, e, "Intelligence", 15.0);
    assert!(world.check(e, &req).unwrap());
}

// ---------------------------------------------------------------------------
// Instant effects
// ---------------------------------------------------------------------------

#[test]
fn instant_effects_use_roles_and_leave_no_modifiers() {
    let mut world = app();
    let attacker = spawn(&mut world, 1, Stats::new().with("Strength", num(20.0)));
    let weapon = spawn(&mut world, 2, Stats::new().with("Damage", num(15.0)));
    let target = spawn(&mut world, 3, Stats::new().with("Life", num(100.0)).with("Armor", num(5.0)));

    let strike = InstantEffect::new().sub(
        "target",
        "Life",
        "attacker@Strength / 2 + weapon@Damage - target@Armor",
    );
    let roles = Roles::new().with("attacker", attacker).with("weapon", weapon).with("target", target);

    // Preview computes without committing.
    let preview = world.preview_effect(&strike, &roles).unwrap();
    let before = get(&mut world, target, "Life");
    assert_eq!(before, 100.0, "preview must not commit");
    let applied = world.apply_effect(&strike, &roles).unwrap();
    assert_eq!(preview, applied);
    assert_eq!(applied.len(), 1);
    assert_eq!(applied[0].op, InstantOp::Sub);
    assert_eq!(f(applied[0].amount), 20.0);
    assert_eq!(f(applied[0].new_base), 80.0);
    assert_eq!(get(&mut world, target, "Life"), 80.0);
    // One-shot: no lingering modifier, just the base moved.
    assert_eq!(world.stats(target).unwrap().modifier_count("Life"), 0);
    assert_eq!(world.stats(target).unwrap().base("Life").map(f), Some(80.0));
}

#[test]
fn instant_effect_ops_share_a_pre_effect_snapshot() {
    let mut world = app();
    let a = spawn(&mut world, 1, Stats::new().with("Life", num(50.0)));
    let b = spawn(&mut world, 2, Stats::new().with("Life", num(70.0)));
    // Swap-flavored effect: both sides read pre-effect values.
    let effect = InstantEffect::new().set("a", "Life", "b@Life").set("b", "Life", "a@Life");
    let roles = Roles::new().with("a", a).with("b", b);
    world.apply_effect(&effect, &roles).unwrap();
    assert_eq!(get(&mut world, a, "Life"), 70.0);
    assert_eq!(get(&mut world, b, "Life"), 50.0);
}

#[test]
fn missing_role_is_a_typed_error() {
    let mut world = app();
    let effect = InstantEffect::new().add("target", "Life", num(5.0));
    let err = world.apply_effect(&effect, &Roles::new()).unwrap_err();
    assert_eq!(err, StatError::UnknownRole("target".to_string()));
}

// ---------------------------------------------------------------------------
// StatChanged events
// ---------------------------------------------------------------------------

#[test]
fn stat_changed_events_fire_only_on_real_changes() {
    let mut world = app();
    let e = spawn(
        &mut world,
        1,
        Stats::new().with("Vitality", num(12.0)).with("MaxHealth", "Vitality * 10"),
    );
    get(&mut world, e, "MaxHealth"); // warm the cache so changes are observable
    world.take_events();

    set(&mut world, e, "Vitality", 13.0);
    let log = world.take_events();
    assert!(log.iter().any(|c| c.entity == e && c.stat == "MaxHealth"));

    // A no-op write fires nothing.
    set(&mut world, e, "Vitality", 13.0);
    assert!(world.take_events().is_empty());
}

// ---------------------------------------------------------------------------
// Component sync
// ---------------------------------------------------------------------------

/// A component whose fields mirror stats, with its change flag.
struct Health {
    max: f32,
    current: f32,
    changed: bool,
}

fn health_fields() -> Vec<StatField> {
    vec![
        StatField { field: "max".to_string(), stat: "Life.max".to_string(), write: false },
        StatField { field: "current".to_string(), stat: "Life.current".to_string(), write: true },
    ]
}

impl Health {
    fn write_stats(&self, entity: Entity, world: &mut World) {
        world.write_fields(entity, &health_fields(), &vec![self.max.to_bits(), self.current.to_bits()]);
    }

    fn read_stats(&mut self, entity: Entity, world: &mut World) -> bool {
        let values = world.read_fields(entity, &health_fields());
        let mut changed = false;
        if self.max != f(values[0]) {
            self.max = f(values[0]);
            changed = true;
        }
        if self.current != f(values[1]) {
            self.current = f(values[1]);
            changed = true;
        }
        changed
    }

    /// One frame: changed components write first, then components on entities
    /// with changed stats refresh. Gives back how many changes it saw.
    fn update(&mut self, entity: Entity, world: &mut World) -> usize {
        let seen = usize::from(self.changed);
        if self.changed {
            self.changed = false;
            self.write_stats(entity, world);
        }
        if world.dirty_entities().contains(&entity) {
            self.changed = self.read_stats(entity, world);
        }
        world.clear_dirty();
        seen
    }
}

#[test]
fn component_sync_two_way_with_change_detection() {
    let mut world = app();
    let hero = spawn(
        &mut world,
        1,
        Stats::new().with("Life.max", "Vitality * 10").with("Vitality", num(10.0)),
    );
    let mut health = Health { max: 0.0, current: 40.0, changed: false };
    health.write_stats(hero, &mut world);
    health.changed = health.read_stats(hero, &mut world);
    health.update(hero, &mut world);

    // Initialize-on-spawn: `write` fields seeded the graph, `read` fields
    // pulled resolved values.
    assert_eq!(get(&mut world, hero, "Life.current"), 40.0);
    assert_eq!(health.max, 100.0);

    // Stats -> component.
    set(&mut world, hero, "Vitality", 15.0);
    health.update(hero, &mut world);
    assert_eq!(health.max, 150.0);

    // Component -> stats.
    health.current = 25.0;
    health.changed = true;
    health.update(hero, &mut world);
    assert_eq!(get(&mut world, hero, "Life.current"), 25.0);

    // No churn once stable: further updates change nothing.
    let churn = health.update(hero, &mut world) + health.update(hero, &mut world);
    assert_eq!(churn, 0);
}

#[test]
fn manual_sync_impl_maps_custom_types() {
    // A numeric stat interpreted as a bool.
    fn read_burning(burning: &mut bool, entity: Entity, world: &mut World) -> bool {
        let now = get(world, entity, "BurnStacks") > 0.0;
        let changed = *burning != now;
        *burning = now;
        changed
    }
    let mut world = app();
    let e = spawn(&mut world, 1, Stats::new().with("BurnStacks", num(0.0)));
    let mut burning = false;
    read_burning(&mut burning, e, &mut world);
    assert!(!burning);

    set(&mut world, e, "BurnStacks", 3.0);
    for entity in world.dirty_entities() {
        assert!(read_burning(&mut burning, entity, &mut world));
    }
    world.clear_dirty();
    assert!(burning);
}

// ---------------------------------------------------------------------------
// Misc container behavior
// ---------------------------------------------------------------------------

#[test]
fn removing_stats_component_then_reinserting_starts_clean() {
    let mut world = app();
    let hero = spawn(&mut world, 1, Stats::new().with("Strength", num(10.0)));
    let sword = spawn(&mut world, 2, Stats::new().with("Damage", "wielder@Strength * 2"));
    world.set_link(sword, "wielder", hero).unwrap();
    assert_eq!(get(&mut world, sword, "Damage"), 20.0);

    // Replacing the stats discards the old ones cleanly.
    spawn(&mut world, hero, Stats::new().with("Strength", num(40.0)));
    assert_eq!(get(&mut world, hero, "Strength"), 40.0);
    // The weapon reads the new value on the next resolve.
    assert_eq!(get(&mut world, sword, "Damage"), 80.0);
}
