//! What tags, tag lists, field attributes and messages say, in terms of their
//! bits, pieces and characters.

use crate::error::{fault_message, kind_message, syntax_message, Fault, FaultKind, SyntaxFault};
use crate::sync::{any_write, attribute_meaning, option_meaning, options_meaning, Part};
use crate::tags::{fields, grouped, has_tag, lemma_union_bits, listed, registered, sound, Registry};
use crate::text::{decimal, trimmed, white};
use vstd::prelude::*;

verus! {

// -- tags -------------------------------------------------------------------

/// Whether a mask has bit `i` and no other, and no mask of the registry has it.
pub open spec fn own_bit(reg: Registry, mask: u64, i: int) -> bool {
    &&& forall|j: int| #[trigger] has_tag(mask, j) <==> j == i
    &&& forall|name: Seq<char>| #[trigger] reg.tags.contains_key(name) ==> !has_tag(reg.tags[name], i)
}

/// A new tag gets one bit that no registered tag has, as long as fewer than 64
/// are taken; a tag that is registered keeps its mask. Other tags stay.
pub proof fn law_tags_get_a_bit_of_their_own(reg: Registry, name: Seq<char>)
    requires
        sound(reg),
    ensures
        ({
            let (after, found) = registered(reg, name);
            &&& reg.tags.contains_key(name) ==> after == reg && found == Some(reg.tags[name])
            &&& !reg.tags.contains_key(name) && reg.taken >= 64 ==> after == reg && found is None
            &&& !reg.tags.contains_key(name) && reg.taken < 64 ==> {
                &&& after.taken == reg.taken + 1
                &&& after.tags.contains_key(name)
                &&& found == Some(after.tags[name])
                &&& own_bit(reg, after.tags[name], reg.taken)
                &&& forall|other: Seq<char>|
                    other != name ==> (#[trigger] after.tags.contains_key(other) <==> reg.tags.contains_key(other)) && (
                    reg.tags.contains_key(other) ==> after.tags[other] == reg.tags[other])
            }
        }),
{
    if !reg.tags.contains_key(name) && reg.taken < 64 {
        crate::tags::lemma_fresh_tag(reg, name);
        let mask = registered(reg, name).0.tags[name];
        assert forall|j: int| #[trigger] has_tag(mask, j) <==> j == reg.taken by {
            assert(crate::tags::members(mask).contains(j) <==> set![reg.taken].contains(j));
        }
        assert forall|other: Seq<char>| #[trigger] reg.tags.contains_key(other) implies !has_tag(
            reg.tags[other],
            reg.taken,
        ) by {
            if has_tag(reg.tags[other], reg.taken) {
                assert(reg.taken < reg.taken);
            }
        }
    }
}

/// Whether one of the tags of a list has bit `t`.
pub open spec fn some_has(tags: Map<Seq<char>, u64>, list: Seq<Seq<char>>, t: int) -> bool {
    exists|i: int| 0 <= i < list.len() && has_tag(tags[#[trigger] list[i]], t)
}

/// Registering the members of a group registers each of them, and gives the
/// mask that has a bit exactly if a member has it. Where a member finds no bit,
/// those before it are registered, and it and those after it that are new are
/// not.
pub proof fn law_groups_are_the_union_of_their_members(reg: Registry, list: Seq<Seq<char>>)
    ensures
        ({
            let (after, result) = grouped(reg, list);
            &&& forall|name: Seq<char>| #[trigger]
                after.tags.contains_key(name) ==> reg.tags.contains_key(name) || list.contains(name)
            &&& forall|name: Seq<char>| #[trigger]
                reg.tags.contains_key(name) ==> after.tags.contains_key(name) && after.tags[name] == reg.tags[name]
            &&& match result {
                Ok(mask) => (forall|i: int| 0 <= i < list.len() ==> after.tags.contains_key(#[trigger] list[i])) && (
                forall|t: int| #[trigger] has_tag(mask, t) <==> some_has(after.tags, list, t)),
                Err(name) => after.taken >= 64 && !after.tags.contains_key(name) && exists|i: int|
                    0 <= i < list.len() && #[trigger] list[i] == name && forall|j: int|
                        0 <= j < i ==> after.tags.contains_key(#[trigger] list[j]),
            }
        }),
    decreases list.len(),
{
    if list.len() == 0 {
        assert forall|t: int| !#[trigger] has_tag(0, t) by {
            let k = t as u64;
            assert(k < 64 ==> (0u64 >> k) & 1 != 1) by (bit_vector);
        }
    } else {
        let rest = list.drop_last();
        let last = list.len() - 1;
        law_groups_are_the_union_of_their_members(reg, rest);
        let (before, result) = grouped(reg, rest);
        let (after, outcome) = grouped(reg, list);
        assert(list[last] == list.last());
        assert forall|name: Seq<char>| #[trigger] after.tags.contains_key(name) implies reg.tags.contains_key(name)
            || list.contains(name) by {
            if before.tags.contains_key(name) {
                if rest.contains(name) {
                    let i = choose|i: int| 0 <= i < rest.len() && rest[i] == name;
                    assert(list[i] == name);
                }
            } else {
                assert(list[last] == name);
            }
        }
        match result {
            Err(name) => {
                let i = choose|i: int|
                    0 <= i < rest.len() && #[trigger] rest[i] == name && forall|j: int|
                        0 <= j < i ==> before.tags.contains_key(#[trigger] rest[j]);
                assert(list[i] == name);
                assert forall|j: int| 0 <= j < i implies after.tags.contains_key(#[trigger] list[j]) by {
                    assert(list[j] == rest[j]);
                }
            },
            Ok(mask) => {
                assert forall|j: int| 0 <= j < last implies before.tags.contains_key(#[trigger] list[j]) by {
                    assert(list[j] == rest[j]);
                }
                if let Some(more) = registered(before, list.last()).1 {
                    lemma_union_bits(mask, more);
                    assert forall|t: int| #[trigger] has_tag(mask | more, t) <==> some_has(after.tags, list, t) by {
                        if has_tag(mask, t) {
                            let i = choose|i: int| 0 <= i < rest.len() && has_tag(before.tags[#[trigger] rest[i]], t);
                            assert(list[i] == rest[i]);
                            assert(after.tags[list[i]] == before.tags[rest[i]]);
                        }
                        if has_tag(more, t) {
                            assert(has_tag(after.tags[list[last]], t));
                        }
                        if some_has(after.tags, list, t) {
                            let i = choose|i: int| 0 <= i < list.len() && has_tag(after.tags[#[trigger] list[i]], t);
                            if i < last {
                                assert(list[i] == rest[i]);
                                assert(after.tags[list[i]] == before.tags[rest[i]]);
                                assert(some_has(before.tags, rest, t));
                            }
                        }
                    }
                } else {
                    assert(outcome == Err::<u64, Seq<char>>(list.last()));
                    assert(list[last] == list.last());
                }
            },
        }
    }
}

// -- tag lists --------------------------------------------------------------

/// Whether a character is white space, by its code point.
pub open spec fn blank_point(n: int) -> bool {
    ||| 9 <= n <= 13
    ||| n == 32 || n == 133 || n == 160 || n == 5760
    ||| 8192 <= n <= 8202
    ||| n == 8232 || n == 8233 || n == 8239 || n == 8287 || n == 12288
}

/// Characters `a..b` of a text are what is left of it without white space at
/// its ends.
pub open spec fn inner(s: Seq<char>, a: int, b: int) -> bool {
    &&& 0 <= a <= b <= s.len()
    &&& forall|i: int| 0 <= i < a || b <= i < s.len() ==> blank_point(#[trigger] s[i] as int)
    &&& a < b ==> !blank_point(s[a] as int) && !blank_point(s[b - 1] as int)
}

/// A text is trimmed to what stands between its white space.
pub proof fn law_trimming_takes_white_space_from_the_ends(s: Seq<char>)
    ensures
        exists|a: int, b: int| #[trigger] inner(s, a, b) && trimmed(s) == s.subrange(a, b),
    decreases s.len(),
{
    if s.len() == 0 {
        assert(s.subrange(0, 0) =~= s);
        assert(inner(s, 0, 0));
    } else if white(s[0]) {
        let rest = s.subrange(1, s.len() as int);
        law_trimming_takes_white_space_from_the_ends(rest);
        let (a, b) = choose|a: int, b: int| #[trigger] inner(rest, a, b) && trimmed(rest) == rest.subrange(a, b);
        assert forall|i: int| 0 <= i < a + 1 || b + 1 <= i < s.len() implies blank_point(#[trigger] s[i] as int) by {
            if i > 0 {
                assert(s[i] == rest[i - 1]);
            }
        }
        assert(inner(s, a + 1, b + 1));
        assert(rest.subrange(a, b) =~= s.subrange(a + 1, b + 1));
    } else if white(s.last()) {
        let rest = s.drop_last();
        law_trimming_takes_white_space_from_the_ends(rest);
        let (a, b) = choose|a: int, b: int| #[trigger] inner(rest, a, b) && trimmed(rest) == rest.subrange(a, b);
        assert forall|i: int| 0 <= i < a || b <= i < s.len() implies blank_point(#[trigger] s[i] as int) by {
            if i < rest.len() {
                assert(s[i] == rest[i]);
            }
        }
        assert(inner(s, a, b));
        assert(rest.subrange(a, b) =~= s.subrange(a, b));
    } else {
        assert(s.subrange(0, s.len() as int) =~= s);
        assert(inner(s, 0, s.len() as int));
    }
}

/// `ends` are the places of a text at which a part ends: those of its commas and
/// bars, in order, and its end.
pub open spec fn cut(s: Seq<char>, ends: Seq<int>) -> bool {
    &&& ends.len() > 0
    &&& ends[ends.len() - 1] == s.len()
    &&& forall|i: int|
        #![trigger ends[i]]
        0 <= i < ends.len() - 1 ==> 0 <= ends[i] < s.len() && (s[ends[i]] == ',' || s[ends[i]] == '|')
    &&& forall|i: int, j: int| 0 <= i < j < ends.len() ==> #[trigger] ends[i] < #[trigger] ends[j]
    &&& forall|p: int|
        0 <= p < s.len() && (#[trigger] s[p] == ',' || s[p] == '|') ==> exists|i: int|
            0 <= i < ends.len() - 1 && #[trigger] ends[i] == p
}

/// Where part `i` starts.
pub open spec fn part_start(ends: Seq<int>, i: int) -> int {
    if i == 0 {
        0
    } else {
        ends[i - 1] + 1
    }
}

/// The parts of a text that is cut at these places.
pub open spec fn parts_at(s: Seq<char>, ends: Seq<int>) -> Seq<Seq<char>> {
    Seq::new(ends.len(), |i: int| s.subrange(part_start(ends, i), ends[i]))
}

proof fn lemma_cut(s: Seq<char>) -> (ends: Seq<int>)
    ensures
        cut(s, ends),
        fields(s) == parts_at(s, ends),
        part_start(ends, ends.len() - 1) <= s.len(),
    decreases s.len(),
{
    if s.len() == 0 {
        let ends = seq![0int];
        assert(parts_at(s, ends) =~= seq![Seq::<char>::empty()]) by {
            assert(s.subrange(0, 0) =~= Seq::empty());
        }
        ends
    } else {
        let rest = s.drop_last();
        let before = lemma_cut(rest);
        let n = before.len() as int;
        let c = s.last();
        let end = s.len() - 1;
        if c == ',' || c == '|' {
            let ends = before.push(s.len() as int);
            assert(s[end] == c);
            assert forall|i: int| #![trigger ends[i]] 0 <= i < ends.len() - 1 implies 0 <= ends[i] < s.len() && (
            s[ends[i]] == ',' || s[ends[i]] == '|') by {
                if i < n - 1 {
                    assert(rest[before[i]] == s[before[i]]);
                }
            }
            assert forall|i: int, j: int| 0 <= i < j < ends.len() implies #[trigger] ends[i] < #[trigger] ends[j] by {
                if j < n {
                    assert(before[i] < before[j]);
                } else if i < n - 1 {
                    assert(before[i] < before[n - 1]);
                }
            }
            assert forall|p: int| 0 <= p < s.len() && (#[trigger] s[p] == ',' || s[p] == '|') implies exists|i: int|
                0 <= i < ends.len() - 1 && #[trigger] ends[i] == p by {
                if p < end {
                    assert(rest[p] == s[p]);
                    let i = choose|i: int| 0 <= i < n - 1 && #[trigger] before[i] == p;
                    assert(ends[i] == p);
                } else {
                    assert(ends[n - 1] == p);
                }
            }
            assert(parts_at(s, ends) =~= fields(s)) by {
                assert forall|i: int| 0 <= i < ends.len() implies parts_at(s, ends)[i] == fields(s)[i] by {
                    if i < n {
                        assert(parts_at(rest, before)[i] == rest.subrange(part_start(before, i), before[i]));
                        assert(part_start(ends, i) == part_start(before, i));
                        assert(part_start(before, i) <= before[i]) by {
                            if i > 0 {
                                assert(before[i - 1] < before[i]);
                            }
                        }
                        assert(before[i] <= rest.len());
                        assert(rest.subrange(part_start(before, i), before[i]) =~= s.subrange(
                            part_start(ends, i),
                            ends[i],
                        ));
                    } else {
                        assert(s.subrange(s.len() as int, s.len() as int) =~= Seq::empty());
                    }
                }
            }
            ends
        } else {
            let ends = before.drop_last().push(s.len() as int);
            assert forall|i: int| #![trigger ends[i]] 0 <= i < ends.len() - 1 implies 0 <= ends[i] < s.len() && (
            s[ends[i]] == ',' || s[ends[i]] == '|') by {
                assert(before[i] == ends[i]);
                assert(rest[before[i]] == s[before[i]]);
            }
            assert forall|i: int, j: int| 0 <= i < j < ends.len() implies #[trigger] ends[i] < #[trigger] ends[j] by {
                assert(before[i] < before[j]);
            }
            assert forall|p: int| 0 <= p < s.len() && (#[trigger] s[p] == ',' || s[p] == '|') implies exists|i: int|
                0 <= i < ends.len() - 1 && #[trigger] ends[i] == p by {
                assert(p < end);
                assert(rest[p] == s[p]);
                let i = choose|i: int| 0 <= i < n - 1 && #[trigger] before[i] == p;
                assert(ends[i] == p);
            }
            assert(parts_at(s, ends) =~= fields(s)) by {
                let old_parts = fields(rest);
                assert forall|i: int| 0 <= i < ends.len() implies parts_at(s, ends)[i] == fields(s)[i] by {
                    assert(part_start(ends, i) == part_start(before, i));
                    assert(part_start(before, i) <= before[i]) by {
                        if i > 0 {
                            assert(before[i - 1] < before[i]);
                        }
                    }
                    assert(old_parts[i] == rest.subrange(part_start(before, i), before[i]));
                    if i < n - 1 {
                        assert(before[i] <= rest.len());
                        assert(old_parts[i] =~= s.subrange(part_start(ends, i), ends[i]));
                    } else {
                        assert(old_parts[i].push(c) =~= s.subrange(part_start(ends, i), ends[i]));
                    }
                }
            }
            ends
        }
    }
}

proof fn lemma_listed(parts: Seq<Seq<char>>)
    ensures
        listed(parts) == parts.map_values(|p: Seq<char>| trimmed(p)).filter(|p: Seq<char>| p.len() > 0),
    decreases parts.len(),
{
    reveal(Seq::filter);
    let trims = parts.map_values(|p: Seq<char>| trimmed(p));
    if parts.len() > 0 {
        let rest = parts.drop_last();
        lemma_listed(rest);
        assert(trims.drop_last() =~= rest.map_values(|p: Seq<char>| trimmed(p)));
        assert(trims.last() == trimmed(parts.last()));
    }
}

/// A tag list names what stands between its commas and bars, in order, each
/// without the white space around it; what is empty is left out.
pub proof fn law_tag_lists_name_what_stands_between(s: Seq<char>)
    ensures
        exists|ends: Seq<int>| #[trigger]
            cut(s, ends) && listed(fields(s)) == parts_at(s, ends).map_values(|p: Seq<char>| trimmed(p)).filter(
                |p: Seq<char>| p.len() > 0,
            ),
{
    let ends = lemma_cut(s);
    lemma_listed(fields(s));
    assert(cut(s, ends));
}

// -- field attributes -------------------------------------------------------

/// Whether pieces `p` and `p + 1` are a comma, and `write` or `read`.
pub open spec fn option_at(parts: Seq<Part>, p: int, write: bool) -> bool {
    parts[p] == Part::Comma && parts[p + 1] == Part::Word(
        if write {
            "write"@
        } else {
            "read"@
        },
    )
}

/// Whether the pieces from `i` on are the options that `list` says: for each a
/// comma, and `write` or `read`.
pub open spec fn options_written(parts: Seq<Part>, i: int, list: Seq<bool>) -> bool {
    &&& parts.len() == i + 2 * list.len()
    &&& forall|k: int|
        #![trigger list[k]]
        0 <= k < list.len() ==> option_at(parts, i + 2 * k, list[k])
}

proof fn lemma_options_read(parts: Seq<Part>, i: int)
    requires
        0 <= i <= parts.len(),
    ensures
        options_meaning(parts, i) matches Ok(list) ==> options_written(parts, i, list),
    decreases parts.len() - i,
{
    if i < parts.len() && parts[i] is Comma && i + 1 < parts.len() && parts[i + 1] is Word {
        let word = parts[i + 1]->Word_0;
        if let Some(write) = option_meaning(word) {
            lemma_options_read(parts, i + 2);
            if let Ok(rest) = options_meaning(parts, i + 2) {
                let list = seq![write] + rest;
                assert forall|k: int| #![trigger list[k]] 0 <= k < list.len() implies option_at(
                    parts,
                    i + 2 * k,
                    list[k],
                ) by {
                    if k > 0 {
                        assert(rest[k - 1] == list[k]);
                        assert(i + 2 + 2 * (k - 1) == i + 2 * k);
                    }
                }
            }
        }
    }
}

proof fn lemma_options_accepted(parts: Seq<Part>, i: int, list: Seq<bool>)
    requires
        0 <= i,
        options_written(parts, i, list),
    ensures
        options_meaning(parts, i) == Ok::<_, (int, Seq<char>)>(list),
    decreases list.len(),
{
    if list.len() == 0 {
        assert(list =~= Seq::empty());
    } else {
        reveal_strlit("read");
        reveal_strlit("write");
        assert("read"@.len() != "write"@.len());
        let rest = list.drop_first();
        assert(option_at(parts, i + 2 * 0, list[0]));
        assert forall|k: int| #![trigger rest[k]] 0 <= k < rest.len() implies option_at(
            parts,
            i + 2 + 2 * k,
            rest[k],
        ) by {
            assert(rest[k] == list[k + 1]);
            assert(i + 2 * (k + 1) == i + 2 + 2 * k);
        }
        lemma_options_accepted(parts, i + 2, rest);
        assert(seq![list[0]] + rest =~= list);
    }
}

/// An attribute means a stat and options exactly if it is the stat as a string
/// literal, and then for each option a comma and `write` or `read`. The field is
/// authoritative exactly if one of the pieces is `write`.
pub proof fn law_attributes_mean_what_is_written(parts: Seq<Part>, stat: Seq<char>, options: Seq<bool>)
    ensures
        attribute_meaning(parts) == Ok::<_, (int, Seq<char>)>((stat, options)) <==> parts.len() > 0 && parts[0]
            == Part::Text(stat) && options_written(parts, 1, options),
        attribute_meaning(parts) == Ok::<_, (int, Seq<char>)>((stat, options)) ==> (any_write(options)
            <==> parts.contains(Part::Word("write"@))),
{
    if parts.len() > 0 {
        lemma_options_read(parts, 1);
        if options_written(parts, 1, options) {
            lemma_options_accepted(parts, 1, options);
        }
    }
    if attribute_meaning(parts) == Ok::<_, (int, Seq<char>)>((stat, options)) {
        if any_write(options) {
            let k = choose|k: int| 0 <= k < options.len() && #[trigger] options[k];
            assert(option_at(parts, 1 + 2 * k, options[k]));
            assert(parts[1 + 2 * k + 1] == Part::Word("write"@));
        }
        if parts.contains(Part::Word("write"@)) {
            let p = choose|p: int| 0 <= p < parts.len() && parts[p] == Part::Word("write"@);
            reveal_strlit("read");
            reveal_strlit("write");
            assert("read"@.len() != "write"@.len());
            let k = (p - 1) / 2;
            assert(p > 0);
            assert(option_at(parts, 1 + 2 * k, options[k]));
            assert(p == 1 + 2 * k || p == 2 + 2 * k);
            assert(options[k]);
        }
    }
}

/// An attribute that means nothing is faulty at its first piece that does not
/// fit: all options before it are sound.
pub proof fn law_attribute_faults_are_placed(parts: Seq<Part>, at: int, message: Seq<char>)
    requires
        attribute_meaning(parts) == Err::<(Seq<char>, Seq<bool>), _>((at, message)),
    ensures
        0 <= at <= parts.len(),
        at == 0 ==> parts.len() == 0 || !(parts[0] is Text),
        at % 2 == 1 ==> at < parts.len() && !(parts[at] is Comma),
        at > 0 && at % 2 == 0 ==> at == parts.len() || !(parts[at] matches Part::Word(word) && (word == "write"@ || word
            == "read"@)),
        forall|i: int|
            0 < i < at ==> if i % 2 == 1 {
                (#[trigger] parts[i]) is Comma
            } else {
                parts[i] matches Part::Word(word) && (word == "write"@ || word == "read"@)
            },
{
    if parts.len() > 0 && parts[0] is Text {
        lemma_option_faults(parts, 1);
    }
}

proof fn lemma_option_faults(parts: Seq<Part>, from: int)
    requires
        0 < from <= parts.len(),
        from % 2 == 1,
        options_meaning(parts, from) is Err,
    ensures
        options_meaning(parts, from) matches Err((at, _)) && {
            &&& from <= at <= parts.len()
            &&& at % 2 == 1 ==> at < parts.len() && !(parts[at] is Comma)
            &&& at % 2 == 0 ==> at == parts.len() || !(parts[at] matches Part::Word(word) && (word == "write"@ || word
                == "read"@))
            &&& forall|i: int|
                from <= i < at ==> if i % 2 == 1 {
                    (#[trigger] parts[i]) is Comma
                } else {
                    parts[i] matches Part::Word(word) && (word == "write"@ || word == "read"@)
                }
        },
    decreases parts.len() - from,
{
    if parts[from] is Comma && from + 1 < parts.len() && parts[from + 1] is Word {
        if option_meaning(parts[from + 1]->Word_0) is Some {
            lemma_option_faults(parts, from + 2);
        }
    }
}

// -- messages ---------------------------------------------------------------

/// The number that a text of decimal digits says.
pub open spec fn number_said(s: Seq<char>) -> nat
    decreases s.len(),
{
    if s.len() == 0 {
        0
    } else {
        number_said(s.drop_last()) * 10 + (s.last() as nat - 48) as nat
    }
}

/// A number is written with decimal digits that say it, without a zero in front
/// unless it is zero.
pub proof fn law_numbers_are_written_in_decimal(n: nat)
    ensures
        number_said(decimal(n)) == n,
        decimal(n).len() > 0,
        forall|i: int| 0 <= i < decimal(n).len() ==> '0' <= #[trigger] decimal(n)[i] <= '9',
        n > 0 ==> decimal(n)[0] != '0',
    decreases n,
{
    if n < 10 {
        let s = decimal(n);
        assert(s.drop_last() =~= Seq::empty());
        reveal_with_fuel(number_said, 2);
        assert(s.last() as nat == 48 + n);
    } else {
        law_numbers_are_written_in_decimal(n / 10);
        let s = decimal(n);
        let front = decimal(n / 10);
        assert(s.drop_last() =~= front);
        assert(s.last() as nat == 48 + n % 10);
        assert forall|i: int| 0 <= i < s.len() implies '0' <= #[trigger] s[i] <= '9' by {
            if i < front.len() {
                assert(s[i] == front[i]);
            }
        }
        assert(s[0] == front[0]);
    }
}

/// Whether `piece` stands in a text.
pub open spec fn quotes(s: Seq<char>, piece: Seq<char>) -> bool {
    exists|a: int| 0 <= a && a + piece.len() <= s.len() && #[trigger] s.subrange(a, a + piece.len()) == piece
}

proof fn lemma_quotes(before: Seq<char>, piece: Seq<char>, after: Seq<char>)
    ensures
        quotes(before + piece + after, piece),
{
    let s = before + piece + after;
    let a = before.len() as int;
    assert(s.subrange(a, a + piece.len()) =~= piece);
}

/// The message of a syntax error quotes the source, the offset, and the
/// character, token or function that it is about; that of too few or too many
/// arguments says how many are expected and how many there are.
pub proof fn law_syntax_messages_quote_their_subject(fault: SyntaxFault)
    ensures
        quotes(syntax_message(fault), fault.src),
        quotes(syntax_message(fault), decimal(fault.offset as nat)),
        quotes(syntax_message(fault), kind_message(fault.kind)),
        match fault.kind {
            FaultKind::UnexpectedChar(c) => quotes(kind_message(fault.kind), seq![c]),
            FaultKind::UnexpectedToken(text) => quotes(kind_message(fault.kind), text),
            FaultKind::UnknownFunction(name) => quotes(kind_message(fault.kind), name),
            FaultKind::WrongArity(name, expected, found) => quotes(kind_message(fault.kind), name) && quotes(
                kind_message(fault.kind),
                expected,
            ) && quotes(kind_message(fault.kind), decimal(found as nat)),
            _ => true,
        },
{
    let all = syntax_message(fault);
    let kind = kind_message(fault.kind);
    let offset = decimal(fault.offset as nat);
    lemma_quotes(kind + " at offset "@ + offset + " in `"@, fault.src, "`"@);
    let tail = " in `"@ + fault.src + "`"@;
    lemma_quotes(kind + " at offset "@, offset, tail);
    assert(kind + " at offset "@ + offset + tail =~= all);
    let end = " at offset "@ + offset + tail;
    lemma_quotes(Seq::empty(), kind, end);
    assert(Seq::<char>::empty() + kind + end =~= all);
    match fault.kind {
        FaultKind::UnexpectedChar(c) => lemma_quotes("unexpected character `"@, seq![c], "`"@),
        FaultKind::UnexpectedToken(text) => lemma_quotes("unexpected token `"@, text, "`"@),
        FaultKind::UnknownFunction(name) => lemma_quotes("unknown function `"@, name, "`"@),
        FaultKind::WrongArity(name, expected, found) => {
            let count = decimal(found as nat);
            let rest = " argument(s), found "@ + count;
            lemma_quotes("function `"@ + name + "` expects "@, expected, rest);
            assert("function `"@ + name + "` expects "@ + expected + rest =~= kind);
            let more = "` expects "@ + expected + rest;
            lemma_quotes("function `"@, name, more);
            assert("function `"@ + name + more =~= kind);
            let front = "function `"@ + name + "` expects "@ + expected + " argument(s), found "@;
            lemma_quotes(front, count, Seq::empty());
            assert(front + count + Seq::empty() =~= kind);
        },
        _ => {},
    }
}

/// The message of an error quotes the tag, stat, role, path or entity that it is
/// about.
pub proof fn law_messages_quote_their_subject(fault: Fault, entity: Seq<char>)
    ensures
        match fault {
            Fault::Parse(e) => quotes(fault_message(fault, entity), syntax_message(e)),
            Fault::UnknownTag(tag) => quotes(fault_message(fault, entity), tag),
            Fault::TagCapacity(tag) => quotes(fault_message(fault, entity), tag),
            Fault::NoStats(_) => quotes(fault_message(fault, entity), entity),
            Fault::UnknownModifier(stat) => quotes(fault_message(fault, entity), stat),
            Fault::UnknownRole(role) => quotes(fault_message(fault, entity), role),
            Fault::InvalidPath(path, reason) => quotes(fault_message(fault, entity), path) && quotes(
                fault_message(fault, entity),
                reason,
            ),
        },
{
    let all = fault_message(fault, entity);
    match fault {
        Fault::Parse(e) => {
            lemma_quotes("parse error: "@, syntax_message(e), Seq::empty());
            assert("parse error: "@ + syntax_message(e) + Seq::empty() =~= all);
        },
        Fault::UnknownTag(tag) => lemma_quotes("unknown tag `"@, tag, "` (not registered)"@),
        Fault::TagCapacity(tag) => lemma_quotes("cannot register tag `"@, tag, "`: 64-tag capacity exceeded"@),
        Fault::NoStats(_) => lemma_quotes("entity "@, entity, " has no `Stats` component"@),
        Fault::UnknownModifier(stat) => lemma_quotes("no such modifier on stat `"@, stat, "`"@),
        Fault::UnknownRole(role) => lemma_quotes("no entity bound to role `"@, role, "`"@),
        Fault::InvalidPath(path, reason) => {
            let rest = "`: "@ + reason;
            lemma_quotes("invalid stat path `"@, path, rest);
            assert("invalid stat path `"@ + path + rest =~= all);
            lemma_quotes("invalid stat path `"@ + path + "`: "@, reason, Seq::empty());
            assert("invalid stat path `"@ + path + "`: "@ + reason + Seq::empty() =~= all);
        },
    }
}

} // verus!
