//! Numbers, tags, expressions, errors and the other pieces.

use bevy_stats::lexer::lex;
use bevy_stats::parser::parse_stat_path;
use bevy_stats::scalar::{abs, bool_val, clamp, is_at_most, is_below, is_equal, is_finite, is_nan, max, min, negate};
use bevy_stats::sync::{stat_attribute, Piece, Shape};
use bevy_stats::table::{IdTable, NameTable, PairTable};
use bevy_stats::tree::Func;
use bevy_stats::{
    Dependent, DirtyStats, Expression, Modifier, ModifierIdGen, ModifierSet, ModifierValue, ParseError, ParseErrorKind, Reduction, Requirement,
    StatConfig, StatError, StatGraph, StatsSyncSet, SyncPlan, TagRegistry, TagSet,
};

const SAMPLES: [f32; 14] = [
    0.0,
    -0.0,
    1.0,
    -1.0,
    1.5,
    -2.5,
    1e-30,
    -1e-30,
    1e30,
    -1e30,
    f32::INFINITY,
    f32::NEG_INFINITY,
    f32::NAN,
    1e-45,
];

#[test]
fn bit_patterns_compare_as_numbers() {
    for a in SAMPLES {
        assert_eq!(is_nan(a.to_bits()), a.is_nan());
        assert_eq!(is_finite(a.to_bits()), a.is_finite());
        assert_eq!(negate(a.to_bits()), (-a).to_bits());
        assert_eq!(abs(a.to_bits()), a.abs().to_bits());
        for b in SAMPLES {
            let (x, y) = (a.to_bits(), b.to_bits());
            assert_eq!(is_below(x, y), a < b, "{a} < {b}");
            assert_eq!(is_at_most(x, y), a <= b, "{a} <= {b}");
            assert_eq!(is_equal(x, y), a == b, "{a} == {b}");
            let same = |p: f32, q: f32| p == q || (p.is_nan() && q.is_nan());
            assert!(same(f32::from_bits(min(x, y)), a.min(b)), "min({a}, {b})");
            assert!(same(f32::from_bits(max(x, y)), a.max(b)), "max({a}, {b})");
            for v in SAMPLES {
                let expected = if a <= b { v.clamp(a, b) } else { a };
                assert!(same(f32::from_bits(clamp(v.to_bits(), x, y)), expected), "clamp({v}, {a}, {b})");
            }
        }
    }
    assert_eq!(bool_val(true), 1f32.to_bits());
    assert_eq!(bool_val(false), 0f32.to_bits());
    assert_eq!(bevy_stats::scalar::EQ_EPSILON, 1e-6f32.to_bits());
    assert_eq!(bevy_stats::scalar::DIV_EPSILON, 1e-9f32.to_bits());
}

#[test]
fn tag_sets() {
    let fire = TagSet::from_bits(0b001);
    let sword = TagSet::from_bits(0b100);
    let both = fire | sword;
    assert_eq!(both, fire.union(sword));
    assert_eq!(both.bits(), 0b101);
    let mut grown = fire;
    grown |= sword;
    assert_eq!(grown, both);
    assert_eq!(both.len(), 2);
    assert_eq!(TagSet::from_bits(u64::MAX).len(), 64);
    assert!(TagSet::none().is_empty() && !fire.is_empty());
    assert!(both.contains(fire) && !fire.contains(both));
    // Untagged applies everywhere, and a query admits what a narrower one does.
    for query in [TagSet::none(), fire, sword, both] {
        assert!(TagSet::none().applies_to(query));
    }
    assert!(fire.applies_to(both) && !both.applies_to(fire) && !fire.applies_to(sword));
}

#[test]
fn tags_register_group_and_run_out() {
    let mut tags = TagRegistry::new();
    let fire = tags.register("fire").unwrap();
    assert_eq!(fire.bits(), 1);
    assert_eq!(tags.register("fire").unwrap(), fire);
    let members = |list: &[&str]| -> Vec<String> { list.iter().map(|s| s.to_string()).collect() };
    let elemental = tags.register_group("elemental", &members(&["fire", "cold"])).unwrap();
    assert_eq!(elemental.bits(), 0b11);
    assert_eq!(tags.get("cold").unwrap().bits(), 0b10);
    let all = tags.register_group("all", &members(&["elemental", "axe"])).unwrap();
    assert_eq!(all.bits(), 0b111);
    assert!(all.contains(elemental) && elemental.contains(fire));
    assert_eq!(tags.parse("fire, axe").unwrap().bits(), 0b101);
    assert_eq!(tags.parse(" cold |axe,, ").unwrap().bits(), 0b110);
    assert_eq!(tags.parse("").unwrap(), TagSet::none());
    assert_eq!(tags.parse("fire, void, abyss"), Err(StatError::UnknownTag("void".to_string())));
    assert_eq!(tags.resolve("void"), Err(StatError::UnknownTag("void".to_string())));
    assert_eq!(tags.resolve_all(&members(&["axe", "cold"])).unwrap().bits(), 0b110);
    for i in 3..64 {
        assert_eq!(tags.register(&format!("t{i}")).unwrap().bits(), 1 << i);
    }
    assert_eq!(tags.register("late"), Err(StatError::TagCapacity { tag: "late".to_string() }));
    assert_eq!(
        tags.register_group("g", &members(&["fire", "later", "latest"])),
        Err(StatError::TagCapacity { tag: "later".to_string() })
    );
    assert_eq!(tags.get("g"), None);
    assert_eq!(tags.register("fire").unwrap(), fire);
}

fn kind(src: &str) -> (ParseErrorKind, usize) {
    match Expression::parse(src) {
        Err(StatError::Parse(ParseError { kind, offset, src: shown })) => {
            assert_eq!(shown, src);
            assert!(offset <= src.len());
            (kind, offset)
        }
        other => panic!("{src}: {other:?}"),
    }
}

#[test]
fn syntax_errors_are_typed_and_placed() {
    assert_eq!(kind(""), (ParseErrorKind::Empty, 0));
    assert_eq!(kind("   "), (ParseErrorKind::Empty, 3));
    assert_eq!(kind("1 ? 2"), (ParseErrorKind::UnexpectedChar('?'), 2));
    assert_eq!(kind("a = b"), (ParseErrorKind::UnexpectedChar('='), 2));
    assert_eq!(kind("a & b"), (ParseErrorKind::UnexpectedChar('&'), 2));
    assert_eq!(kind("1.2.3"), (ParseErrorKind::InvalidNumber, 0));
    assert_eq!(kind("Strength +"), (ParseErrorKind::UnexpectedEnd, 10));
    assert_eq!(kind("(1 + 2"), (ParseErrorKind::UnexpectedEnd, 6));
    assert_eq!(kind("1 + * 2"), (ParseErrorKind::UnexpectedToken("*".to_string()), 4));
    assert_eq!(kind("(1 Foo)"), (ParseErrorKind::UnexpectedToken("Foo".to_string()), 3));
    assert_eq!(kind("a@5"), (ParseErrorKind::UnexpectedToken("5".to_string()), 2));
    assert_eq!(kind("a@5.0"), (ParseErrorKind::UnexpectedToken("5".to_string()), 2));
    assert_eq!(kind("a@007.250"), (ParseErrorKind::UnexpectedToken("7.25".to_string()), 2));
    assert_eq!(kind("a@0.50"), (ParseErrorKind::UnexpectedToken("0.5".to_string()), 2));
    assert_eq!(kind("a@000"), (ParseErrorKind::UnexpectedToken("0".to_string()), 2));
    assert_eq!(kind("a@100."), (ParseErrorKind::UnexpectedToken("100".to_string()), 2));
    assert_eq!(kind("a.+"), (ParseErrorKind::UnexpectedToken("+".to_string()), 2));
    assert_eq!(kind("a{}"), (ParseErrorKind::Empty, 2));
    assert_eq!(kind("a{x,}"), (ParseErrorKind::UnexpectedToken("}".to_string()), 4));
    assert_eq!(kind("a{x y}"), (ParseErrorKind::UnexpectedToken("y".to_string()), 4));
    assert_eq!(kind("frob(1)"), (ParseErrorKind::UnknownFunction("frob".to_string()), 0));
    assert_eq!(
        kind("1 + clamp(1, 2)"),
        (ParseErrorKind::WrongArity { function: "clamp", expected: "exactly 3", found: 2 }, 4)
    );
    assert_eq!(kind("min(1)"), (ParseErrorKind::WrongArity { function: "min", expected: "2 or more", found: 1 }, 0));
    assert_eq!(kind("abs()"), (ParseErrorKind::WrongArity { function: "abs", expected: "exactly 1", found: 0 }, 0));
    assert_eq!(kind("1 2"), (ParseErrorKind::TrailingInput, 2));
}

#[test]
fn characters_beyond_ascii_are_reported_whole() {
    assert_eq!(kind("\u{e9}"), (ParseErrorKind::UnexpectedChar('\u{e9}'), 0));
    assert_eq!(kind("A + \u{3c0}"), (ParseErrorKind::UnexpectedChar('\u{3c0}'), 4));
    assert_eq!(kind("caf\u{e9}"), (ParseErrorKind::UnexpectedChar('\u{e9}'), 3));
    assert_eq!(kind("1 \u{20ac}"), (ParseErrorKind::UnexpectedChar('\u{20ac}'), 2));
    assert_eq!(kind("\u{1f525}{fire}"), (ParseErrorKind::UnexpectedChar('\u{1f525}'), 0));
    assert_eq!(
        Expression::parse("\u{e9}").unwrap_err().message(""),
        "parse error: unexpected character `\u{e9}` at offset 0 in `\u{e9}`"
    );
    let e = lex("x \u{df}").unwrap_err();
    assert_eq!((e.kind, e.offset), (ParseErrorKind::UnexpectedChar('\u{df}'), 2));
}

#[test]
fn tagged_names_parse_back() {
    for (name, tags) in [("Damage", vec!["fire"]), ("Damage.added", vec!["fire", "sword", "_x1"]), ("A.b.c", vec![])] {
        let tags: Vec<String> = tags.iter().map(|t| t.to_string()).collect();
        for separator in [",", "|"] {
            let path = if tags.is_empty() { name.to_string() } else { format!("{name}{{{}}}", tags.join(separator)) };
            assert_eq!(parse_stat_path(&path).unwrap(), (name.to_string(), tags.clone()));
        }
    }
}

#[test]
fn sources_are_kept() {
    let e = Expression::parse(" A +1").unwrap();
    assert_eq!(Requirement::from(e.clone()).expression().source(), " A +1");
    assert_eq!(Requirement::new(e.clone()), Requirement::parse(" A +1").unwrap());
    assert_eq!(Requirement::parse(" A +1").unwrap().clone().expression().source(), " A +1");
    assert_eq!(ModifierValue::from(e.clone()), ModifierValue::Expression(e.clone()));
    assert_eq!(ModifierValue::parse(" A +1").unwrap(), ModifierValue::Expression(e));
}

#[test]
fn defaults_are_empty() {
    assert_eq!(TagSet::default(), TagSet::from_bits(0));
    assert_eq!(ModifierIdGen::default().last_id(), 0);
    assert_eq!(ModifierIdGen::default().next_id(), 1);
    assert_eq!(DirtyStats::default().entities(), Vec::<u64>::new());
    assert_eq!(StatGraph::default().dependent_count(1, "A"), 0);
}

#[test]
fn numbers_are_shown_as_their_values_are() {
    let numbers = ["0", "5", "5.0", "10", "0.1", "00.10", "2.50", "999999", "123456", "1.00001", "0.00012", "300000000"];
    for text in numbers {
        let shown = text.parse::<f32>().unwrap().to_string();
        assert_eq!(kind(&format!("a@{text}")).0, ParseErrorKind::UnexpectedToken(shown));
    }
}

#[test]
fn errors_in_words() {
    let parse = |src: &str| Expression::parse(src).unwrap_err().message("");
    assert_eq!(parse("1 ? 2"), "parse error: unexpected character `?` at offset 2 in `1 ? 2`");
    assert_eq!(parse("1.2.3"), "parse error: invalid numeric literal at offset 0 in `1.2.3`");
    assert_eq!(parse("1 +"), "parse error: unexpected end of input at offset 3 in `1 +`");
    assert_eq!(parse("+"), "parse error: unexpected token `+` at offset 0 in `+`");
    assert_eq!(parse("f(1)"), "parse error: unknown function `f` at offset 0 in `f(1)`");
    assert_eq!(
        parse("clamp(1, 2)"),
        "parse error: function `clamp` expects exactly 3 argument(s), found 2 at offset 0 in `clamp(1, 2)`"
    );
    assert_eq!(parse("1 1"), "parse error: unexpected trailing input at offset 2 in `1 1`");
    assert_eq!(parse(""), "parse error: empty input at offset 0 in ``");
    assert_eq!(StatError::UnknownTag("x".to_string()).message(""), "unknown tag `x` (not registered)");
    assert_eq!(
        StatError::TagCapacity { tag: "x".to_string() }.message(""),
        "cannot register tag `x`: 64-tag capacity exceeded"
    );
    assert_eq!(StatError::NoStats(7).message("7v1"), "entity 7v1 has no `Stats` component");
    assert_eq!(StatError::UnknownModifier { stat: "x".to_string() }.message(""), "no such modifier on stat `x`");
    assert_eq!(StatError::UnknownRole("x".to_string()).message(""), "no entity bound to role `x`");
    assert_eq!(
        StatError::InvalidPath { path: "x".to_string(), reason: "because" }.message(""),
        "invalid stat path `x`: because"
    );
    let e = ParseError { kind: ParseErrorKind::Empty, offset: 1234567890, src: "s".to_string() };
    assert_eq!(e.message(), "empty input at offset 1234567890 in `s`");
    assert_eq!(StatError::from(e.clone()), StatError::Parse(e));
}

#[test]
fn references_are_listed_from_left_to_right() {
    let e = Expression::parse("A.b{fire|sword} + max(who.x@C.d, D) * -E").unwrap();
    assert_eq!(e.source(), "A.b{fire|sword} + max(who.x@C.d, D) * -E");
    let seen: Vec<_> =
        e.references().iter().map(|r| (r.source.clone(), r.stat.clone(), r.tags.clone())).collect();
    let some = |s: &str| Some(s.to_string());
    assert_eq!(
        seen,
        vec![
            (None, "A.b".to_string(), Some(vec!["fire".to_string(), "sword".to_string()])),
            (some("who.x"), "C.d".to_string(), None),
            (None, "D".to_string(), None),
            (None, "E".to_string(), None),
        ]
    );
    assert_eq!(e.clone(), e);
    let gate = Requirement::from(e.clone());
    assert_eq!(gate.expression().source(), e.source());
    assert!(matches!(Requirement::parse("1 +"), Err(StatError::Parse(_))));
}

#[test]
fn stat_paths_parse_and_their_names_parse_again() {
    for (path, name, tags) in [
        ("Damage", "Damage", vec![]),
        (" Damage . added { fire, sword } ", "Damage.added", vec!["fire", "sword"]),
        ("_a1.B_2.c{x}", "_a1.B_2.c", vec!["x"]),
    ] {
        let (stat, found) = parse_stat_path(path).unwrap();
        assert_eq!((stat.as_str(), found), (name, tags.iter().map(|t| t.to_string()).collect()));
        assert_eq!(parse_stat_path(&stat).unwrap(), (stat.clone(), vec![]));
    }
    let kind = |path: &str| parse_stat_path(path).unwrap_err().kind;
    assert_eq!(kind(""), ParseErrorKind::Empty);
    assert_eq!(kind("5"), ParseErrorKind::UnexpectedToken("5".to_string()));
    assert_eq!(kind("a b"), ParseErrorKind::TrailingInput);
    assert_eq!(kind("a."), ParseErrorKind::UnexpectedEnd);
}

#[test]
fn lexing_places_tokens() {
    let places: Vec<usize> = lex("ab <= 1.5&&!c").unwrap().into_iter().map(|t| t.1).collect();
    assert_eq!(places, vec![0, 3, 6, 9, 11, 12]);
}

#[test]
fn function_names_lead_back() {
    for name in ["min", "max", "abs", "clamp", "floor", "ceil", "round", "sqrt"] {
        assert_eq!(Func::from_name(name).unwrap().name(), name);
    }
    assert_eq!(Func::from_name("Min"), None);
}

#[test]
fn modifier_sets_collect_entries() {
    let mut set = ModifierSet::new();
    assert!(set.is_empty());
    set.try_add("A{fire}", "B * 2").unwrap();
    let modifier = Modifier::expr("1 + 1").unwrap().with_tags(&vec!["cold".to_string()]);
    set.add_modifier("A{fire}", modifier).unwrap();
    assert_eq!(set.len(), 2);
    let entries = set.entries();
    assert_eq!(entries[0].0, "A");
    assert_eq!(entries[0].1.tags, vec!["fire".to_string()]);
    assert_eq!(entries[1].1.tags, vec!["fire".to_string(), "cold".to_string()]);
    assert_eq!(entries[1].1.clone(), entries[1].1);
    // A fault in the path comes before one in the value, and nothing is added.
    assert!(matches!(set.try_add("A b", "1 +"), Err(StatError::Parse(e)) if e.src == "A b"));
    assert!(matches!(set.try_add("A", "1 +"), Err(StatError::Parse(e)) if e.src == "1 +"));
    assert!(matches!(set.add_modifier("A b", Modifier::literal(0)), Err(StatError::Parse(_))));
    assert_eq!(set.len(), 2);
    assert!(matches!(Modifier::expr("1 +"), Err(StatError::Parse(_))));
    assert_eq!(set.try_with("C", ModifierValue::Literal(3)).unwrap().len(), 3);
}

#[test]
fn reductions_are_looked_up() {
    let mut config = StatConfig::new();
    config.set_exact("A.more", Reduction::Custom(4));
    config.set_segment("more", Reduction::Product);
    assert_eq!(*config.reduction_for("A.more"), Reduction::Custom(4));
    assert_eq!(*config.reduction_for("B.more"), Reduction::Product);
    assert_eq!(*config.reduction_for("more"), Reduction::Product);
    assert_eq!(*config.reduction_for("more.B"), Reduction::Sum);
    assert_eq!(*config.reduction_for("B.more."), Reduction::Sum);
    config.set_default(Reduction::Product);
    assert_eq!(*config.reduction_for(""), Reduction::Product);
}

#[test]
fn edges_are_counted_per_reference() {
    let mut graph = StatGraph::new();
    let (a, b, c) = ("A".to_string(), "B".to_string(), "C".to_string());
    graph.link((1, &a), (2, &b));
    graph.link((1, &a), (2, &b));
    graph.link((1, &a), (3, &c));
    assert_eq!(graph.dependent_count(1, "A"), 2);
    graph.unlink((1, &a), (2, &b));
    assert_eq!(graph.dependent_count(1, "A"), 2);
    graph.unlink((1, &a), (2, &b));
    assert_eq!(graph.dependent_count(1, "A"), 1);
    // Taking out an edge that is not there changes nothing.
    graph.unlink((1, &a), (2, &b));
    graph.unlink((5, &a), (2, &b));
    assert_eq!(graph.dependents_of(1, &a), Some(&vec![Dependent { entity: 3, stat: c.clone() }]));
    assert_eq!(graph.outside_readers(1), vec![(3, c.clone())]);
    assert_eq!(graph.outside_readers(3), Vec::new());
    graph.unlink((1, &a), (3, &c));
    assert_eq!(graph.dependents_of(1, &a), None);
}

#[test]
fn tables_find_replace_and_remove() {
    let mut names: NameTable<u32> = NameTable::new();
    let mut ids: IdTable<u32> = IdTable::new();
    let mut pairs: PairTable<u32> = PairTable::new();
    for i in 0..100u32 {
        names.insert(format!("n{i}"), i);
        ids.insert(i as u64 * 7, i);
        pairs.insert((i as u64 % 3, format!("n{i}")), i);
    }
    names.insert("n5".to_string(), 500);
    ids.insert(35, 500);
    pairs.insert((2, "n5".to_string()), 500);
    assert_eq!((names.len(), ids.len(), pairs.len()), (100, 100, 100));
    assert_eq!(names.get(&"n5".to_string()), Some(&500));
    assert_eq!(ids.get(&35), Some(&500));
    assert_eq!(pairs.get(&(2, "n5".to_string())), Some(&500));
    assert_eq!(pairs.get(&(1, "n5".to_string())), None);
    assert_eq!(names.remove(&"n0".to_string()), Some(0));
    assert_eq!(ids.remove(&0), Some(0));
    assert_eq!(pairs.remove(&(0, "n0".to_string())), Some(0));
    assert_eq!(names.remove(&"n0".to_string()), None);
    assert!(!names.contains(&"n0".to_string()) && !ids.contains(&0));
    // The last entry has taken the place of the one that left.
    assert_eq!(names.key_at(0), "n99");
    assert_eq!(names.position(&"n99".to_string()), Some(0));
    assert_eq!(*ids.value_at(0), 99);
    *ids.get_mut(&(99 * 7)).unwrap() = 1;
    assert_eq!(ids.get(&(99 * 7)), Some(&1));
    assert!(ids.get_mut(&1).is_none());
}

#[test]
fn sync_plans_collect_bound_fields() {
    assert_eq!(SyncPlan::new(Shape::Other).unwrap_err(), "`StatSync` can only be derived for structs");
    assert_eq!(SyncPlan::new(Shape::Unnamed).unwrap_err(), "`StatSync` requires named fields");
    assert_eq!(
        SyncPlan::new(Shape::Named).unwrap().finish().unwrap_err(),
        "`StatSync` requires at least one `#[stat(\"Name\")]` field"
    );
    assert_eq!(SyncPlan::option("write"), Ok(true));
    assert_eq!(SyncPlan::option("read"), Ok(false));
    assert_eq!(
        SyncPlan::option("both"),
        Err("unknown `#[stat]` option `both`; expected `write`".to_string())
    );
    let mut plan = SyncPlan::new(Shape::Named).unwrap();
    plan.bind("max", "Life.max", &vec![]);
    plan.bind("current", "Life.current", &vec![false, true]);
    let fields = plan.finish().unwrap();
    assert_eq!((fields[0].field.as_str(), fields[0].stat.as_str(), fields[0].write), ("max", "Life.max", false));
    assert_eq!((fields[1].stat.as_str(), fields[1].write), ("Life.current", true));
    assert_eq!(fields.len(), 2);
    assert_ne!(StatsSyncSet::WriteToStats, StatsSyncSet::ReadFromStats);
}

#[test]
fn stat_attributes_name_a_stat_and_options() {
    let text = |s: &str| Piece::Text(s.to_string());
    let word = |s: &str| Piece::Word(s.to_string());
    let read = |pieces: Vec<Piece>| stat_attribute(&pieces).map_err(|fault| (fault.at, fault.message));
    let fault = |at: usize, message: &str| Err((at, message.to_string()));
    assert_eq!(read(vec![text("Life")]), Ok(("Life".to_string(), vec![])));
    assert_eq!(
        read(vec![text("Life"), Piece::Comma, word("write"), Piece::Comma, word("read")]),
        Ok(("Life".to_string(), vec![true, false]))
    );
    assert_eq!(read(vec![]), fault(0, "unexpected end of input, expected string literal"));
    assert_eq!(read(vec![word("Life")]), fault(0, "expected string literal"));
    assert_eq!(
        read(vec![text("Life"), Piece::Comma]),
        fault(2, "unexpected end of input, expected identifier")
    );
    assert_eq!(read(vec![text("Life"), Piece::Comma, Piece::Comma]), fault(2, "expected identifier"));
    assert_eq!(
        read(vec![text("Life"), Piece::Comma, word("both"), Piece::Other]),
        fault(2, "unknown `#[stat]` option `both`; expected `write`")
    );
    assert_eq!(read(vec![text("Life"), word("write")]), fault(1, "unexpected token"));
    assert_eq!(read(vec![text("Life"), Piece::Other]), fault(1, "unexpected token"));
}
