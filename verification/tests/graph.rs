//! Stat graphs: caching, recomputation, receipts, links, effects.

use bevy_stats::{
    Arithmetic, Attachments, Entity, Expression, InstantEffect, InstantOp, Modifier, ModifierCollection, ModifierSet,
    ModifierValue, Reduction, Requirement, Roles, Scalar, StatConfig, StatError, Stats, StatsMutator,
    StatsReader, TagRegistry, TagSet,
};
use std::cell::RefCell;

/// Single-precision arithmetic that notes where cycles were met.
#[derive(Default)]
struct Float {
    cycles: RefCell<Vec<String>>,
}

fn f(v: Scalar) -> f32 {
    f32::from_bits(v)
}

impl Arithmetic for Float {
    fn literal(&self, text: &str) -> Scalar {
        text.parse::<f32>().unwrap().to_bits()
    }
    fn plus(&self, a: Scalar, b: Scalar) -> Scalar {
        (f(a) + f(b)).to_bits()
    }
    fn minus(&self, a: Scalar, b: Scalar) -> Scalar {
        (f(a) - f(b)).to_bits()
    }
    fn times(&self, a: Scalar, b: Scalar) -> Scalar {
        (f(a) * f(b)).to_bits()
    }
    fn over(&self, a: Scalar, b: Scalar) -> Scalar {
        (f(a) / f(b)).to_bits()
    }
    fn modulo(&self, a: Scalar, b: Scalar) -> Scalar {
        (f(a) % f(b)).to_bits()
    }
    fn power(&self, a: Scalar, b: Scalar) -> Scalar {
        bevy_math::ops::powf(f(a), f(b)).to_bits()
    }
    fn floor(&self, a: Scalar) -> Scalar {
        f(a).floor().to_bits()
    }
    fn ceil(&self, a: Scalar) -> Scalar {
        f(a).ceil().to_bits()
    }
    fn round(&self, a: Scalar) -> Scalar {
        f(a).round().to_bits()
    }
    fn sqrt(&self, a: Scalar) -> Scalar {
        f(a).sqrt().to_bits()
    }
    fn custom(&self, key: u64, values: &Vec<Scalar>) -> Scalar {
        // The number of values plus a hundred times the key.
        (values.len() as f32 + 100.0 * key as f32).to_bits()
    }
    fn cycle(&self, stat: &str) {
        self.cycles.borrow_mut().push(stat.to_string());
    }
}

type World = StatsMutator<Float>;

fn world() -> World {
    let mut tags = TagRegistry::new();
    for tag in ["fire", "cold", "sword"] {
        tags.register(tag).unwrap();
    }
    tags.register_group("elemental", &vec!["fire".to_string(), "cold".to_string()]).unwrap();
    let mut config = StatConfig::new();
    config.set_segment("more", Reduction::Product);
    StatsMutator::new(Float::default(), tags, config)
}

fn num(v: f32) -> ModifierValue {
    ModifierValue::Literal(v.to_bits())
}

fn get(world: &mut World, entity: Entity, stat: &str) -> f32 {
    f(world.get(entity, stat))
}

fn set(world: &mut World, entity: Entity, stat: &str, value: f32) {
    world.set(entity, stat, value.to_bits()).unwrap();
}

fn spawn(world: &mut World, entity: Entity, stats: Stats) {
    assert_eq!(world.insert(entity, stats), Vec::new());
}

fn eval(world: &World, entity: Entity, src: &str) -> f32 {
    f(world.eval(entity, &Expression::parse(src).unwrap()).unwrap())
}

/// What an entity's stats are made of: name, base, number of modifiers.
fn makeup(world: &World, entity: Entity) -> Vec<(String, Option<f32>, usize)> {
    let stats = world.stats(entity).unwrap();
    let mut list: Vec<_> = stats
        .stat_names()
        .into_iter()
        .map(|name| (name.clone(), stats.base(&name).map(f), stats.modifier_count(&name)))
        .filter(|(_, base, count)| base.is_some() || *count > 0)
        .collect();
    list.sort_by(|a, b| a.0.cmp(&b.0));
    list
}

fn events(world: &mut World) -> Vec<(Entity, String)> {
    world.take_events().into_iter().map(|e| (e.entity, e.stat)).collect()
}

// -- operators and precedence -------------------------------------------------

#[test]
fn operators_bind_and_associate() {
    let w = world();
    assert_eq!(eval(&w, 1, "2 + 3 * 4"), 14.0);
    assert_eq!(eval(&w, 1, "(2 + 3) * 4"), 20.0);
    assert_eq!(eval(&w, 1, "10 - 4 - 3"), 3.0);
    assert_eq!(eval(&w, 1, "24 / 4 / 2"), 3.0);
    assert_eq!(eval(&w, 1, "2 ^ 3 ^ 2"), 512.0);
    assert_eq!(eval(&w, 1, "-2 ^ 2"), -4.0);
    assert_eq!(eval(&w, 1, "-2 * 3"), -6.0);
    assert_eq!(eval(&w, 1, "7 % 4"), 3.0);
    assert_eq!(eval(&w, 1, "1 + 1 == 2 && 3 > 2"), 1.0);
    assert_eq!(eval(&w, 1, "0 && 1 || 1"), 1.0);
    assert_eq!(eval(&w, 1, "1 < 2 == 1"), 1.0);
    assert_eq!(eval(&w, 1, "!1 + 5"), 5.0);
    assert_eq!(eval(&w, 1, "2 <= 2"), 1.0);
    assert_eq!(eval(&w, 1, "2 >= 3"), 0.0);
}

#[test]
fn parentheses_around_a_source_change_nothing() {
    let mut w = world();
    spawn(&mut w, 1, Stats::new().with("A", num(2.0)).with("B.c", num(5.0)));
    for src in ["A + B.c * 2", "-A ^ 2", "!A || B.c{fire}", "clamp(A, who@B.c, 3)", " 1.5 ", "(A)"] {
        let plain = Expression::parse(src).unwrap();
        let wrapped = Expression::parse(&format!("({src})")).unwrap();
        assert_eq!(wrapped.root(), plain.root());
        assert_eq!(wrapped.references(), plain.references());
        assert_eq!(w.eval(1, &wrapped), w.eval(1, &plain), "{src}");
    }
}

#[test]
fn comparisons_are_complementary() {
    let w = world();
    for a in ["0", "1", "1.0000005", "-2", "0 - 0.5", "1 / 3", "sqrt(2)"] {
        for b in ["0", "1", "3", "-2", "0.33333334", "sqrt(2)"] {
            let v = |op: &str| eval(&w, 1, &format!("({a}) {op} ({b})"));
            assert_eq!(v("==") + v("!="), 1.0, "{a} {b}");
            assert_eq!(v("<") + v(">="), 1.0, "{a} {b}");
            assert_eq!(v(">") + v("<="), 1.0, "{a} {b}");
            let near = (eval(&w, 1, a) - eval(&w, 1, b)).abs() < 1e-6;
            assert_eq!(v("=="), f32::from(near as u8), "{a} {b}");
            assert_eq!(eval(&w, 1, &format!("!(({a}) || ({b}))")), eval(&w, 1, &format!("!({a}) && !({b})")));
        }
    }
}

#[test]
fn functions_compute() {
    let w = world();
    assert_eq!(eval(&w, 1, "floor(2.7)"), 2.0);
    assert_eq!(eval(&w, 1, "ceil(2.2)"), 3.0);
    assert_eq!(eval(&w, 1, "round(2.5)"), 3.0);
    assert_eq!(eval(&w, 1, "sqrt(9)"), 3.0);
    assert_eq!(eval(&w, 1, "sqrt(0 - 1)"), 0.0);
    assert_eq!(eval(&w, 1, "abs(-3.5)"), 3.5);
    assert_eq!(eval(&w, 1, "min(3, 1, 2)"), 1.0);
    assert_eq!(eval(&w, 1, "max(3, 1, 2)"), 3.0);
    assert_eq!(eval(&w, 1, "clamp(5, 0, 3)"), 3.0);
    assert_eq!(eval(&w, 1, "clamp(-5, 0, 3)"), 0.0);
    // Bounds out of order give the lower one.
    assert_eq!(eval(&w, 1, "clamp(5, 9, 3)"), 9.0);
}

#[test]
fn logical_operators_short_circuit_and_normalize() {
    let mut w = world();
    spawn(&mut w, 1, Stats::new().with("Five", num(5.0)));
    assert_eq!(eval(&w, 1, "Five && 7"), 1.0);
    assert_eq!(eval(&w, 1, "0 || Five"), 1.0);
    assert_eq!(eval(&w, 1, "0 && Five"), 0.0);
    assert_eq!(eval(&w, 1, "0 || 0"), 0.0);
    assert_eq!(eval(&w, 1, "!Five"), 0.0);
}

// -- reads ---------------------------------------------------------------------

#[test]
fn reductions_fold_in_order() {
    let mut w = world();
    w.config_mut().set_exact("Count", Reduction::custom(7));
    spawn(&mut w, 1, Stats::new().with("Speed.more", num(0.5)).with("Count", num(1.0)));
    w.add_modifier(1, "Speed.more", num(1.0)).unwrap();
    // (1 + 0.5) * (1 + 1)
    assert_eq!(get(&mut w, 1, "Speed.more"), 3.0);
    w.add_modifier(1, "Count", num(9.0)).unwrap();
    assert_eq!(get(&mut w, 1, "Count"), 702.0);
    // An exact name goes before its last segment, the segment before the default.
    w.config_mut().set_exact("Jump.more", Reduction::Sum);
    assert_eq!(get(&mut w, 1, "Jump.more"), 0.0);
    assert_eq!(get(&mut w, 1, "Swim.more"), 1.0);
    assert_eq!(get(&mut w, 1, "more"), 1.0);
    w.config_mut().set_default(Reduction::Product);
    assert_eq!(get(&mut w, 1, "Anything"), 1.0);
}

#[test]
fn missing_stats_and_dangling_links_read_as_identity() {
    let mut w = world();
    spawn(&mut w, 1, Stats::new().with("Damage", "target@Armor + target@Hit.more + 2"));
    assert_eq!(get(&mut w, 1, "Damage"), 3.0);
    assert_eq!(get(&mut w, 99, "Anything"), 0.0);
    assert_eq!(get(&mut w, 99, "Any.more"), 1.0);
    // A read of an entity without stats leaves no trace.
    assert!(w.stats(99).is_none());
}

#[test]
fn reads_cache_and_readers_do_not() {
    let mut w = world();
    spawn(&mut w, 1, Stats::new().with("A", num(2.0)).with("B", "A * 3"));
    assert_eq!(w.stats(1).unwrap().cached("B"), None);
    assert_eq!(f(StatsReader::new(&w).get(1, "B")), 6.0);
    assert_eq!(w.stats(1).unwrap().cached("B"), None);
    assert_eq!(get(&mut w, 1, "B"), 6.0);
    assert_eq!(w.stats(1).unwrap().cached("B").map(f), Some(6.0));
    // The value that B was computed from was read on the way, not asked for.
    assert_eq!(w.stats(1).unwrap().cached("A"), None);
    // A read brings the stat into being, and is not a change.
    assert!(!w.stats(1).unwrap().has_stat("Never"));
    get(&mut w, 1, "Never");
    assert!(w.stats(1).unwrap().has_stat("Never"));
    assert_eq!(events(&mut w), Vec::new());
    assert_eq!(w.dirty_entities(), Vec::<Entity>::new());
}

#[test]
fn readers_see_tags_expressions_and_requirements() {
    let mut w = world();
    spawn(&mut w, 1, Stats::new().with("Damage{fire}", num(4.0)).with("Damage", num(1.0)));
    let fire = w.tag_registry().get("fire").unwrap();
    let reader = StatsReader::new(&w);
    assert_eq!(f(reader.get(1, "Damage")), 1.0);
    assert_eq!(f(reader.get_filtered(1, "Damage", fire)), 5.0);
    assert_eq!(f(reader.get_with_tags(1, "Damage", "elemental").unwrap()), 5.0);
    assert_eq!(reader.get_with_tags(1, "Damage", "void"), Err(StatError::UnknownTag("void".to_string())));
    assert_eq!(f(reader.eval(1, &Expression::parse("Damage{fire} * 2").unwrap()).unwrap()), 10.0);
    assert!(reader.check(1, &Requirement::parse("Damage == 1").unwrap()).unwrap());
    assert_eq!(reader.tag_registry().get("void"), None);
}

#[test]
fn tags_are_inherited_unless_given() {
    let mut w = world();
    spawn(
        &mut w,
        1,
        Stats::new().with("Total", "Part + Part{cold}").with("Part{fire}", num(10.0)).with("Part{cold}", num(1.0)),
    );
    assert_eq!(get(&mut w, 1, "Total"), 1.0);
    assert_eq!(f(w.get_with_tags(1, "Total", "fire").unwrap()), 11.0);
    assert_eq!(f(w.get_with_tags(1, "Total", "fire | cold").unwrap()), 12.0);
    assert_eq!(f(w.get_filtered(1, "Total", TagSet::none())), 1.0);
}

#[test]
fn caching_is_not_observable() {
    // The same operations, read after each or only at the end.
    let run = |eager: bool| -> Vec<f32> {
        let mut w = world();
        let names = ["A", "B", "C", "D", "E.more"];
        let read = |w: &mut World| -> Vec<f32> {
            let mut seen = Vec::new();
            for e in 1..4 {
                for n in names {
                    seen.push(get(w, e, n));
                    seen.push(f(w.get_with_tags(e, n, "fire").unwrap()));
                }
            }
            seen
        };
        let look = |w: &mut World| {
            if eager {
                read(w);
            }
        };
        spawn(&mut w, 1, Stats::new().with("A", num(1.0)).with("B", "A * 2 + up@C"));
        spawn(&mut w, 2, Stats::new().with("C", "B{fire} + 1").with("B{fire}", num(3.0)));
        spawn(&mut w, 3, Stats::new().with("D", "one@B + two@C").with("E.more", "one@A"));
        look(&mut w);
        w.set_link(1, "up", 2).unwrap();
        w.set_link(3, "one", 1).unwrap();
        w.set_link(3, "two", 2).unwrap();
        look(&mut w);
        set(&mut w, 1, "A", 5.0);
        look(&mut w);
        let h = w.add_modifier(2, "C{fire}", "B * 10").unwrap();
        look(&mut w);
        let sword = ModifierSet::new().with("A", num(2.0)).with("B{fire}", "A");
        let receipt = w.apply(1, &sword).unwrap();
        look(&mut w);
        w.set_link(3, "two", 1).unwrap();
        look(&mut w);
        w.remove_modifier(2, "C", h).unwrap();
        look(&mut w);
        let hit = InstantEffect::new().sub("t", "A", "s@C").add("t", "A", num(1.0));
        w.apply_effect(&hit, &Roles::new().with("t", 1).with("s", 2)).unwrap();
        look(&mut w);
        w.remove(&receipt);
        look(&mut w);
        w.remove_stat(2, "B").unwrap();
        look(&mut w);
        w.clear_link(3, "one").unwrap();
        look(&mut w);
        spawn(&mut w, 2, Stats::new().with("C", num(40.0)));
        look(&mut w);
        read(&mut w)
    };
    assert_eq!(run(true), run(false));
}

// -- writes --------------------------------------------------------------------

#[test]
fn set_reports_what_is_wrong() {
    let mut w = world();
    assert_eq!(w.set(1, "A", 0), Err(StatError::NoStats(1)));
    spawn(&mut w, 1, Stats::new());
    assert_eq!(
        w.set(1, "A{fire}", 0),
        Err(StatError::InvalidPath {
            path: "A{fire}".to_string(),
            reason: "base values are untagged; tag the modifiers instead"
        })
    );
    assert!(matches!(w.set(1, "A +", 0), Err(StatError::Parse(_))));
    assert!(!w.stats(1).unwrap().has_stat("A"));
}

#[test]
fn setting_again_is_quiet_except_for_nan() {
    let mut w = world();
    spawn(&mut w, 1, Stats::new().with("A", num(0.0)));
    get(&mut w, 1, "A");
    // The two zeros are equal, so the base stays what it was.
    set(&mut w, 1, "A", -0.0);
    assert_eq!(w.stats(1).unwrap().base("A"), Some(0f32.to_bits()));
    assert_eq!(events(&mut w), Vec::new());
    // Not-a-number equals nothing, itself included.
    set(&mut w, 1, "A", f32::NAN);
    assert_eq!(events(&mut w), vec![(1, "A".to_string())]);
    set(&mut w, 1, "A", f32::NAN);
    assert_eq!(events(&mut w), vec![(1, "A".to_string())]);
}

#[test]
fn events_are_for_values_that_moved() {
    let mut w = world();
    spawn(
        &mut w,
        1,
        Stats::new().with("A", num(1.0)).with("Sign", "A > 0").with("Twice", "A * 2").with("Unread", "A + 1"),
    );
    get(&mut w, 1, "Sign");
    get(&mut w, 1, "Twice");
    assert_eq!(events(&mut w), Vec::new());
    set(&mut w, 1, "A", 2.0);
    // Sign was recomputed and stays 1; Unread was never evaluated.
    assert_eq!(events(&mut w), vec![(1, "Twice".to_string())]);
    assert_eq!(w.dirty_entities(), vec![1]);
    w.clear_dirty();
    assert_eq!(w.dirty_entities(), Vec::<Entity>::new());
}

#[test]
fn adding_and_removing_modifiers_round_trips() {
    let mut w = world();
    spawn(&mut w, 1, Stats::new().with("A", num(1.0)).with("A", "B + 1").with("B", num(2.0)));
    let before = makeup(&w, 1);
    assert_eq!(get(&mut w, 1, "A"), 4.0);
    let h = w.add_modifier(1, "A{fire}", "B * 10").unwrap();
    assert_eq!(f(w.get_with_tags(1, "A", "fire").unwrap()), 24.0);
    assert_eq!(w.dependent_count(1, "B"), 1);
    w.remove_modifier(1, "A", h).unwrap();
    assert_eq!(makeup(&w, 1), before);
    assert_eq!(f(w.get_with_tags(1, "A", "fire").unwrap()), 4.0);
    assert_eq!(w.dependent_count(1, "B"), 1);
    // The handle is spent.
    assert_eq!(w.remove_modifier(1, "A", h), Err(StatError::UnknownModifier { stat: "A".to_string() }));
    assert_eq!(w.remove_modifier(1, "Z", h), Err(StatError::UnknownModifier { stat: "Z".to_string() }));
    assert_eq!(w.remove_modifier(9, "A", h), Err(StatError::NoStats(9)));
}

#[test]
fn handles_are_never_used_twice() {
    let mut w = world();
    spawn(&mut w, 1, Stats::new());
    let a = w.add_modifier(1, "A", num(1.0)).unwrap();
    w.remove_modifier(1, "A", a).unwrap();
    let b = w.add_modifier(1, "A", num(1.0)).unwrap();
    assert_ne!(a, b);
    assert_eq!(w.last_id(), 2);
}

#[test]
fn add_modifier_reports_what_is_wrong() {
    let mut w = world();
    assert_eq!(w.add_modifier(1, "A", num(1.0)), Err(StatError::NoStats(1)));
    spawn(&mut w, 1, Stats::new());
    assert!(matches!(w.add_modifier(1, "A", "1 +"), Err(StatError::Parse(_))));
    assert!(matches!(w.add_modifier(1, "A.", num(1.0)), Err(StatError::Parse(_))));
    assert_eq!(w.add_modifier(1, "A{void}", num(1.0)), Err(StatError::UnknownTag("void".to_string())));
    assert_eq!(w.add_modifier(1, "A", "B{void}"), Err(StatError::UnknownTag("void".to_string())));
    assert_eq!(makeup(&w, 1), Vec::new());
}

#[test]
fn apply_is_all_or_nothing() {
    let mut w = world();
    spawn(&mut w, 1, Stats::new().with("A", num(1.0)));
    let before = makeup(&w, 1);
    let set = ModifierSet::new().with("A", num(5.0)).with("B{void}", num(1.0)).with("C{abyss}", num(1.0));
    assert_eq!(w.apply(1, &set).unwrap_err(), StatError::UnknownTag("void".to_string()));
    assert_eq!(makeup(&w, 1), before);
    let fine = ModifierSet::new().with("A", num(5.0));
    assert_eq!(w.apply(7, &fine).unwrap_err(), StatError::NoStats(7));
    let receipt = w.apply(1, &fine).unwrap();
    assert_eq!(receipt.target(), 1);
    assert!(!receipt.is_empty());
    assert!(w.apply(1, &ModifierSet::new()).unwrap().is_empty());
    assert_eq!(get(&mut w, 1, "A"), 6.0);
}

#[test]
fn removing_a_receipt_is_idempotent() {
    let mut w = world();
    spawn(&mut w, 1, Stats::new().with("A", num(1.0)).with("A", "C"));
    let before = makeup(&w, 1);
    let set = ModifierSet::new().with("A", num(5.0)).with("B", "A * 2").with("A{fire}", num(7.0));
    let first = w.apply(1, &set).unwrap();
    let second = w.apply(1, &set).unwrap();
    assert_eq!(get(&mut w, 1, "A"), 11.0);
    w.remove(&first);
    assert_eq!(get(&mut w, 1, "A"), 6.0);
    w.take_events();
    w.remove(&first);
    assert_eq!(get(&mut w, 1, "A"), 6.0);
    assert_eq!(events(&mut w), Vec::new());
    w.remove(&second);
    assert_eq!(makeup(&w, 1), before);
    assert_eq!(w.dependent_count(1, "A"), 0);
    // A receipt for an entity that is gone is passed over.
    w.teardown(1);
    w.remove(&second);
}

#[test]
fn removing_a_stat_leaves_its_readers() {
    let mut w = world();
    spawn(&mut w, 1, Stats::new().with("A", num(4.0)).with("A", "C").with("B", "A + 1").with("C", num(3.0)));
    assert_eq!(get(&mut w, 1, "B"), 8.0);
    assert_eq!(w.remove_stat(2, "A"), Err(StatError::NoStats(2)));
    assert_eq!(w.remove_stat(1, "Nope"), Ok(()));
    w.remove_stat(1, "A").unwrap();
    assert_eq!(get(&mut w, 1, "B"), 1.0);
    assert_eq!(w.dependent_count(1, "C"), 0);
    assert_eq!(w.dependent_count(1, "A"), 1);
    set(&mut w, 1, "A", 10.0);
    assert_eq!(get(&mut w, 1, "B"), 11.0);
}

// -- starting stats --------------------------------------------------------------

#[test]
fn starting_entries_install_or_are_reported() {
    let mut w = world();
    let set = ModifierSet::new().with("S", num(2.0));
    let stats = Stats::new()
        .with("Base", num(3.0))
        .with("Base", num(4.0))
        .with("Tagged{fire}", num(5.0))
        .with("Bad{void}", num(1.0))
        .with_modifier("Explicit", Modifier::literal(6f32.to_bits()).with_tag("cold"))
        .with_modifier("No good", Modifier::literal(0))
        .with_set(&set);
    assert_eq!(stats.pending_len(), 7);
    let errors = w.insert(1, stats);
    assert_eq!(errors.len(), 2);
    assert_eq!(errors[0], StatError::UnknownTag("void".to_string()));
    assert!(matches!(errors[1], StatError::Parse(_)));
    assert_eq!(
        makeup(&w, 1),
        vec![
            ("Base".to_string(), Some(4.0), 0),
            ("Explicit".to_string(), None, 1),
            ("S".to_string(), None, 1),
            ("Tagged".to_string(), None, 1),
        ]
    );
    assert_eq!(f(w.get_with_tags(1, "Explicit", "elemental").unwrap()), 6.0);
    // A set of modifiers is a template for starting stats.
    w.insert(2, Stats::from(ModifierSet::new().with("S", num(2.5))));
    assert_eq!(get(&mut w, 2, "S"), 2.5);
}

#[test]
fn replaced_stats_keep_their_readers() {
    let mut w = world();
    spawn(&mut w, 1, Stats::new().with("A", num(1.0)).with("Own", "A"));
    spawn(&mut w, 2, Stats::new().with("B", "src@A * 10"));
    w.set_link(2, "src", 1).unwrap();
    w.set_link(1, "back", 2).unwrap();
    assert_eq!(get(&mut w, 2, "B"), 10.0);
    assert_eq!(w.dependent_count(1, "A"), 2);
    spawn(&mut w, 1, Stats::new().with("A", num(2.0)));
    // The reader's edge survived; the old stats' own edges and links are gone.
    assert_eq!(w.dependent_count(1, "A"), 1);
    assert_eq!(w.stats(1).unwrap().link("back"), None);
    assert_eq!(get(&mut w, 2, "B"), 20.0);
    assert_eq!(events(&mut w).contains(&(2, "B".to_string())), true);
}

// -- links -----------------------------------------------------------------------

#[test]
fn links_round_trip() {
    let mut w = world();
    spawn(&mut w, 1, Stats::new().with("A", num(3.0)));
    spawn(&mut w, 2, Stats::new().with("B", "x@A + x@A").with("C", "y@A").with("D", "B"));
    let before = makeup(&w, 2);
    assert_eq!(w.set_link(9, "x", 1), Err(StatError::NoStats(9)));
    assert_eq!(w.clear_link(9, "x"), Err(StatError::NoStats(9)));
    w.set_link(2, "x", 1).unwrap();
    assert_eq!(w.stats(2).unwrap().link("x"), Some(1));
    assert_eq!(get(&mut w, 2, "D"), 6.0);
    assert_eq!(w.dependent_count(1, "A"), 1);
    w.take_events();
    w.set_link(2, "x", 1).unwrap();
    assert_eq!(events(&mut w), Vec::new());
    w.clear_link(2, "x").unwrap();
    assert_eq!(w.stats(2).unwrap().link("x"), None);
    assert_eq!(makeup(&w, 2), before);
    assert_eq!(w.dependent_count(1, "A"), 0);
    assert_eq!(get(&mut w, 2, "D"), 0.0);
    // A link may point at the entity itself.
    w.set_link(2, "x", 2).unwrap();
    set(&mut w, 2, "A", 4.0);
    assert_eq!(get(&mut w, 2, "D"), 8.0);
}

#[test]
fn the_last_link_decides() {
    let build = || {
        let mut w = world();
        spawn(&mut w, 1, Stats::new().with("A", num(3.0)));
        spawn(&mut w, 2, Stats::new().with("A", num(8.0)));
        spawn(&mut w, 3, Stats::new().with("B", "x@A * 2").with("C", "B + x@A"));
        w
    };
    let (mut twice, mut once) = (build(), build());
    twice.set_link(3, "x", 1).unwrap();
    assert_eq!(get(&mut twice, 3, "C"), 9.0);
    twice.set_link(3, "x", 2).unwrap();
    once.set_link(3, "x", 2).unwrap();
    for w in [&mut twice, &mut once] {
        assert_eq!(get(w, 3, "B"), 16.0);
        assert_eq!(get(w, 3, "C"), 24.0);
        assert_eq!((w.dependent_count(1, "A"), w.dependent_count(2, "A"), w.dependent_count(3, "B")), (0, 2, 1));
        assert_eq!(w.stats(3).unwrap().link("x"), Some(2));
    }
    assert_eq!(makeup(&twice, 3), makeup(&once, 3));
}

#[test]
fn reads_are_the_same_before_and_after() {
    let mut w = world();
    spawn(&mut w, 1, Stats::new().with("A", num(3.0)).with("B", "A * 2").with("C", "B + x@A"));
    spawn(&mut w, 2, Stats::new().with("A", num(40.0)));
    let reads = |w: &mut World| ["A", "B", "C", "D"].map(|stat| get(w, 1, stat));
    let before = reads(&mut w);
    assert_eq!(before, [3.0, 6.0, 6.0, 0.0]);
    let applied = w.apply(1, &ModifierSet::new().with("A", num(7.0)).with("B", "D").with("D", num(1.0))).unwrap();
    assert_eq!(reads(&mut w), [10.0, 21.0, 21.0, 1.0]);
    w.remove(&applied);
    assert_eq!(reads(&mut w), before);
    w.set_link(1, "x", 2).unwrap();
    assert_eq!(reads(&mut w), [3.0, 6.0, 46.0, 0.0]);
    w.clear_link(1, "x").unwrap();
    assert_eq!(reads(&mut w), before);
}

#[test]
fn roles_go_before_links() {
    let mut w = world();
    spawn(&mut w, 1, Stats::new().with("A", num(1.0)));
    spawn(&mut w, 2, Stats::new().with("A", num(2.0)));
    spawn(&mut w, 3, Stats::new());
    w.set_link(3, "who", 1).unwrap();
    let e = Expression::parse("who@A").unwrap();
    assert_eq!(f(w.eval(3, &e).unwrap()), 1.0);
    let roles = Roles::new().with("who", 2);
    assert_eq!(roles.get("who"), Some(2));
    assert_eq!(roles.get("nobody"), None);
    assert_eq!(f(w.eval_with_roles(3, &e, &roles).unwrap()), 2.0);
    let gate = Requirement::parse("who@A >= 2").unwrap();
    assert!(!w.check(3, &gate).unwrap());
    assert!(w.check_with_roles(3, &gate, &roles).unwrap());
    assert_eq!(
        w.check(3, &Requirement::parse("A{void}").unwrap()),
        Err(StatError::UnknownTag("void".to_string()))
    );
}

// -- cycles ----------------------------------------------------------------------

#[test]
fn a_stat_that_is_being_evaluated_reads_zero() {
    let mut w = world();
    spawn(&mut w, 1, Stats::new().with("A", "B + 1").with("B", "A + 1").with("Self", "Self + 5"));
    // A -> B -> A reads 0: B is 1, A is 2.
    assert_eq!(get(&mut w, 1, "A"), 2.0);
    // A is cached now, so B sees its value.
    assert_eq!(get(&mut w, 1, "B"), 3.0);
    assert_eq!(get(&mut w, 1, "Self"), 5.0);
    assert_eq!(w.dependent_count(1, "Self"), 1);
    assert_eq!(*w.arithmetic().cycles.borrow(), vec!["A".to_string(), "Self".to_string()]);
}

#[test]
fn stats_on_a_cycle_are_recomputed_as_they_are_found() {
    let mut w = world();
    spawn(&mut w, 1, Stats::new().with("S", num(1.0)).with("Y", "X * 2").with("X", "S + Y"));
    assert_eq!(get(&mut w, 1, "X"), 1.0);
    assert_eq!(get(&mut w, 1, "Y"), 2.0);
    assert_eq!(get(&mut w, 1, "S"), 1.0);
    w.take_events();
    // S leads to X, and X to Y: X finds no value of Y, and Y finds that of X.
    set(&mut w, 1, "S", 9.0);
    assert_eq!(get(&mut w, 1, "X"), 9.0);
    assert_eq!(get(&mut w, 1, "Y"), 18.0);
    let moved: Vec<String> = events(&mut w).into_iter().map(|e| e.1).collect();
    assert_eq!(moved, ["S", "X", "Y"]);
}

#[test]
fn stats_are_recomputed_as_they_get_ready() {
    let mut w = world();
    spawn(&mut w, 1, Stats::new().with("S", num(1.0)).with("C", "S + B").with("B", "A").with("A", "S").with("D", "C"));
    for stat in ["S", "A", "B", "C", "D"] {
        get(&mut w, 1, stat);
    }
    w.take_events();
    set(&mut w, 1, "S", 5.0);
    let moved: Vec<String> = events(&mut w).into_iter().map(|e| e.1).collect();
    assert_eq!(moved, ["S", "A", "B", "C", "D"]);
    assert_eq!(get(&mut w, 1, "D"), 10.0);
}

// -- effects ---------------------------------------------------------------------

#[test]
fn operations_on_one_base_stack() {
    let mut w = world();
    spawn(&mut w, 1, Stats::new().with("Life", num(100.0)).with("Life", "Bonus").with("Bonus", num(10.0)));
    let effect = InstantEffect::new()
        .sub("t", "Life", num(30.0))
        .sub("t", "Life", "t@Life / 10")
        .add("t", "Shield", num(5.0))
        .set("t", "Bonus", "t@Shield + 1");
    let roles = Roles::new().with("t", 1);
    let preview = w.preview_effect(&effect, &roles).unwrap();
    let outcomes = w.apply_effect(&effect, &roles).unwrap();
    assert_eq!(preview, outcomes);
    let seen: Vec<_> = outcomes.iter().map(|o| (o.stat.as_str(), o.op, f(o.amount), f(o.new_base))).collect();
    // Operands read the state before the effect: Life was 110, Shield 0.
    assert_eq!(
        seen,
        vec![
            ("Life", InstantOp::Sub, 30.0, 70.0),
            ("Life", InstantOp::Sub, 11.0, 59.0),
            ("Shield", InstantOp::Add, 5.0, 5.0),
            ("Bonus", InstantOp::Assign, 1.0, 1.0),
        ]
    );
    assert_eq!(get(&mut w, 1, "Life"), 60.0);
    assert_eq!(
        makeup(&w, 1),
        vec![
            ("Bonus".to_string(), Some(1.0), 0),
            ("Life".to_string(), Some(59.0), 1),
            ("Shield".to_string(), Some(5.0), 0),
        ]
    );
}

#[test]
fn only_outcomes_that_are_written_are_reported() {
    let mut w = world();
    spawn(&mut w, 1, Stats::new().with("A", num(1.0)));
    let effect = InstantEffect::new().add("here", "A", num(1.0)).add("gone", "A", num(1.0));
    let roles = Roles::new().with("here", 1).with("gone", 2);
    let outcomes = w.apply_effect(&effect, &roles).unwrap();
    assert_eq!(outcomes.len(), 1);
    assert_eq!(outcomes[0].entity, 1);
    assert_eq!(get(&mut w, 1, "A"), 2.0);
}

#[test]
fn effects_report_what_is_wrong() {
    let mut w = world();
    spawn(&mut w, 1, Stats::new().with("A", num(1.0)));
    let roles = Roles::new().with("t", 1);
    let effect = InstantEffect::new().add("t", "A", num(1.0)).add("t", "A", "B{void}").add("nobody", "A", num(1.0));
    assert_eq!(w.apply_effect(&effect, &roles), Err(StatError::UnknownTag("void".to_string())));
    assert_eq!(w.preview_effect(&effect, &roles), Err(StatError::UnknownTag("void".to_string())));
    assert_eq!(get(&mut w, 1, "A"), 1.0);
    assert_eq!(
        InstantEffect::new().try_step("t", "A.b{fire}", InstantOp::Add, num(1.0)).unwrap_err(),
        StatError::InvalidPath {
            path: "A.b{fire}".to_string(),
            reason: "instant effects write base values, which are untagged"
        }
    );
    let refused = InstantEffect::new().try_step("t", " Life { fire } ", InstantOp::Assign, num(1.0)).unwrap_err();
    assert!(matches!(refused, StatError::InvalidPath { path, .. } if path == " Life { fire } "));
    assert!(matches!(InstantEffect::new().try_step("t", "A b", InstantOp::Add, "1 +"), Err(StatError::Parse(_))));
    assert!(matches!(InstantEffect::new().try_step("t", "A", InstantOp::Add, "1 +"), Err(StatError::Parse(_))));
}

#[test]
fn clones_do_the_same() {
    let mut w = world();
    spawn(&mut w, 1, Stats::new().with("A", num(1.0)));
    let roles = Roles::new().with("t", 1).with("u", 2);
    let copied = roles.clone().with("v", 3);
    assert_eq!((copied.get("t"), copied.get("u"), copied.get("v")), (Some(1), Some(2), Some(3)));
    assert_eq!(roles.get("v"), None);
    let effect = InstantEffect::new().add("t", "A", "A + 1").set("t", "B", num(4.0));
    assert_eq!(w.preview_effect(&effect.clone(), &copied), w.preview_effect(&effect, &roles));
    w.apply_effect(&effect.clone(), &copied).unwrap();
    assert_eq!((get(&mut w, 1, "A"), get(&mut w, 1, "B")), (3.0, 4.0));
    let set = ModifierSet::new().with("A{fire}", num(2.0)).with("B", "A");
    assert_eq!(set.clone(), set);
    let item = ModifierCollection(set.clone());
    assert_eq!(item.clone().0, set);
    assert!(ModifierCollection::default().0.is_empty());
}

#[test]
fn a_set_seeds_stats() {
    let set = ModifierSet::new().with("A", num(2.0)).with("B", "A + 1");
    let stats = Stats::from(set);
    assert_eq!(stats.pending_len(), 2);
    assert_eq!(stats.stat_names(), Vec::<String>::new());
    let mut w = world();
    spawn(&mut w, 1, stats);
    assert_eq!((get(&mut w, 1, "A"), get(&mut w, 1, "B")), (2.0, 3.0));
}

// -- items -----------------------------------------------------------------------

#[test]
fn attaching_and_detaching_round_trips() {
    let mut w = world();
    let mut items = Attachments::new();
    spawn(&mut w, 1, Stats::new().with("Armor", num(5.0)));
    let before = makeup(&w, 1);
    let good = ModifierCollection(ModifierSet::new().with("Armor", num(2.0)).with("Weight", "Armor"));
    let bad = ModifierCollection(ModifierSet::new().with("Armor{void}", num(2.0)));
    items.attach(&mut w, 50, 1, &good).unwrap();
    assert!(items.is_attached(50));
    assert_eq!(get(&mut w, 1, "Weight"), 7.0);
    // Attaching the item anew detaches what it granted, even if that fails.
    assert_eq!(items.attach(&mut w, 50, 1, &bad), Err(StatError::UnknownTag("void".to_string())));
    assert!(!items.is_attached(50));
    assert_eq!(makeup(&w, 1), before);
    items.detach(&mut w, 50);
    assert_eq!(items.attach(&mut w, 50, 8, &good), Err(StatError::NoStats(8)));
    assert_eq!(makeup(&w, 1), before);
}

// -- size ------------------------------------------------------------------------

#[test]
fn many_entities_and_stats() {
    let mut w = world();
    for e in 0..200u64 {
        let mut stats = Stats::new().with("Seed", num(e as f32));
        for s in 0..20 {
            let name = format!("S{s}");
            let src = if s == 0 { "Seed + prev@S19".to_string() } else { format!("S{} + 1", s - 1) };
            stats = stats.with(&name, src);
        }
        spawn(&mut w, e, stats);
        if e > 0 {
            w.set_link(e, "prev", e - 1).unwrap();
        }
    }
    // S19 of e is the sum of the seeds up to e, plus 19 for each entity.
    let expected = |e: u64| (e * (e + 1) / 2 + 19 * (e + 1)) as f32;
    assert_eq!(get(&mut w, 30, "S19"), expected(30));
    set(&mut w, 10, "Seed", 110.0);
    assert_eq!(get(&mut w, 30, "S19"), expected(30) + 100.0);
    // Take every other entity out and put it back.
    for e in (0..200u64).filter(|e| e % 2 == 1) {
        w.teardown(e);
    }
    assert_eq!(get(&mut w, 30, "S19"), 30.0 + 19.0);
    for e in 0..200u64 {
        assert_eq!(w.stats(e).is_some(), e % 2 == 0);
        assert_eq!(w.dependent_count(e, "S19"), usize::from(e % 2 == 1 && e < 199));
    }
}
