//! The order in which a change is carried on to the stats that depend on it.

use crate::entity::Entity;
use crate::graph::{dependent_list, feeds, keys_of, lemma_wired, wired, StatGraph};
use crate::table::PairTable;
use crate::world::{node_in, Key, World};
use vstd::prelude::*;

verus! {

/// A chain of stats, each read by the next, that starts at one of `seeds`.
pub open spec fn leads(world: World, seeds: Seq<Key>, chain: Seq<Key>) -> bool {
    &&& chain.len() > 0
    &&& seeds.contains(chain[0])
    &&& forall|i: int| 0 < i < chain.len() ==> feeds(world, chain[i - 1], #[trigger] chain[i])
}

/// Whether a stat is one of `seeds`, or depends on one through any number of
/// steps.
pub open spec fn reached(world: World, seeds: Seq<Key>, k: Key) -> bool {
    exists|chain: Seq<Key>| #[trigger] leads(world, seeds, chain) && chain.last() == k
}

/// The members of a list, each once, where it stands first.
pub open spec fn distinct(list: Seq<Key>) -> Seq<Key>
    decreases list.len(),
{
    if list.len() == 0 {
        list
    } else {
        let rest = distinct(list.drop_last());
        if rest.contains(list.last()) {
            rest
        } else {
            rest.push(list.last())
        }
    }
}

/// Whether a stat reads one of the first `n` of `list`.
pub open spec fn met(world: World, list: Seq<Key>, n: int, k: Key) -> bool {
    exists|i: int| 0 <= i < n && i < list.len() && feeds(world, #[trigger] list[i], k)
}

/// `found` holds the stats that depend on `seeds`, and these, once each, as a
/// search meets them breadth first: the seeds, then those that read the first
/// of `found`, then those that read the second, and so on. The order of those
/// that one stat leads to is left open.
pub open spec fn discovered(world: World, seeds: Seq<Key>, found: Seq<Key>) -> bool {
    let m = distinct(seeds).len() as int;
    &&& found.no_duplicates()
    &&& forall|k: Key| #[trigger] found.contains(k) <==> reached(world, seeds, k)
    &&& m <= found.len()
    &&& found.take(m) == distinct(seeds)
    &&& forall|p: int| m <= p < found.len() ==> met(world, found, p, #[trigger] found[p])
    &&& forall|i: int, p: int, q: int|
        #![trigger found[p], feeds(world, found[i], found[q])]
        0 <= i < found.len() && m <= p < q < found.len() && feeds(world, found[i], found[q]) ==> met(
            world,
            found,
            i + 1,
            found[p],
        )
}

/// Whether `a` stands before `b` in `list`.
pub open spec fn precedes(list: Seq<Key>, a: Key, b: Key) -> bool {
    list.index_of(a) < list.index_of(b)
}

/// The first `free` of `order` come as they get ready. Those that read none of
/// `order` come first, as they were found. Of two others, the one whose last
/// source comes sooner does not come later.
pub open spec fn queued(world: World, found: Seq<Key>, order: Seq<Key>, free: int) -> bool {
    &&& forall|p: int, q: int|
        #![trigger order[p], order[q]]
        0 <= p < q < free && !waits(world, order, 0, order[q]) ==> precedes(found, order[p], order[q])
    &&& forall|i: int, p: int, q: int|
        #![trigger feeds(world, order[i], order[p]), order[q]]
        0 <= i < order.len() && 0 <= p < q < free && feeds(world, order[i], order[p]) ==> waits(
            world,
            order,
            i,
            order[q],
        )
}

/// From place `free` on, `order` keeps to the order of `found`.
pub open spec fn appended(found: Seq<Key>, order: Seq<Key>, free: int) -> bool {
    forall|p: int, q: int|
        #![trigger order[p], order[q]]
        free <= p < q < order.len() ==> precedes(found, order[p], order[q])
}

/// `order` holds the stats that depend on `seeds`, and these, once each. The
/// first `free` of them come after every one that they read, as they get
/// ready. Each of the rest reads one of the rest, which only a cycle can bring
/// about; they follow as they were found.
pub open spec fn scheduled(world: World, seeds: Seq<Key>, order: Seq<Key>, free: int) -> bool {
    &&& order.no_duplicates()
    &&& forall|k: Key| #[trigger] order.contains(k) <==> reached(world, seeds, k)
    &&& 0 <= free <= order.len()
    &&& forall|i: int, j: int|
        #![trigger feeds(world, order[i], order[j])]
        0 <= i < order.len() && 0 <= j < free && feeds(world, order[i], order[j]) ==> i < j
    &&& forall|j: int|
        free <= j < order.len() ==> waits(world, order, free, #[trigger] order[j])
    &&& exists|found: Seq<Key>| #[trigger]
        discovered(world, seeds, found) && queued(world, found, order, free) && appended(found, order, free)
}

/// Whether a stat reads one of `order` that comes no sooner than `free`.
pub open spec fn waits(world: World, order: Seq<Key>, free: int, k: Key) -> bool {
    exists|i: int| free <= i < order.len() && feeds(world, #[trigger] order[i], k)
}

/// The rows that are not done and list `j`.
pub open spec fn waiting(rows: Seq<Seq<usize>>, done: Set<int>, j: usize) -> nat
    decreases rows.len(),
{
    if rows.len() == 0 {
        0
    } else {
        waiting(rows.drop_last(), done, j) + (if !done.contains(rows.len() - 1) && rows.last().contains(j) {
            1nat
        } else {
            0nat
        })
    }
}

proof fn lemma_waiting_bound(rows: Seq<Seq<usize>>, done: Set<int>, j: usize)
    ensures
        waiting(rows, done, j) <= rows.len(),
    decreases rows.len(),
{
    if rows.len() > 0 {
        lemma_waiting_bound(rows.drop_last(), done, j);
    }
}

proof fn lemma_waiting_done(rows: Seq<Seq<usize>>, done: Set<int>, i: int, j: usize)
    requires
        0 <= i,
        !done.contains(i),
    ensures
        waiting(rows, done, j) == waiting(rows, done.insert(i), j) + (if i < rows.len() && rows[i].contains(j) {
            1nat
        } else {
            0nat
        }),
    decreases rows.len(),
{
    if rows.len() > 0 {
        lemma_waiting_done(rows.drop_last(), done, i, j);
    }
}

proof fn lemma_waiting_none(rows: Seq<Seq<usize>>, done: Set<int>, j: usize, i: int)
    requires
        waiting(rows, done, j) == 0,
        0 <= i < rows.len(),
        rows[i].contains(j),
    ensures
        done.contains(i),
    decreases rows.len(),
{
    if i < rows.len() - 1 {
        lemma_waiting_none(rows.drop_last(), done, j, i);
    }
}

proof fn lemma_waiting_some(rows: Seq<Seq<usize>>, done: Set<int>, j: usize) -> (i: int)
    requires
        waiting(rows, done, j) > 0,
    ensures
        0 <= i < rows.len(),
        rows[i].contains(j),
        !done.contains(i),
    decreases rows.len(),
{
    if !done.contains(rows.len() - 1) && rows.last().contains(j) {
        rows.len() - 1
    } else {
        lemma_waiting_some(rows.drop_last(), done, j)
    }
}

/// A list of distinct numbers below `n` has at most `n` members.
proof fn lemma_distinct_below(list: Seq<usize>, n: usize)
    requires
        list.no_duplicates(),
        forall|p: int| 0 <= p < list.len() ==> #[trigger] list[p] < n,
    ensures
        list.len() <= n,
{
    let ints = list.map_values(|x: usize| x as int);
    assert(ints.no_duplicates());
    ints.unique_seq_to_set();
    let range = vstd::set_lib::set_int_range(0, n as int);
    vstd::set_lib::lemma_int_range(0, n as int);
    assert(ints.to_set().subset_of(range)) by {
        assert forall|x: int| ints.to_set().contains(x) implies range.contains(x) by {
            let p = choose|p: int| 0 <= p < ints.len() && ints[p] == x;
            assert(list[p] < n);
        }
    }
    vstd::set_lib::lemma_len_subset(ints.to_set(), range);
}

/// The members of a list of lists.
pub open spec fn rows_of(rows: Seq<Vec<usize>>) -> Seq<Seq<usize>> {
    rows.map_values(|r: Vec<usize>| r@)
}

/// The numbers at the first `n` places of a list.
pub open spec fn first(list: Seq<usize>, n: int) -> Set<int> {
    Set::new(|i: int| exists|p: int| 0 <= p < n && p < list.len() && #[trigger] list[p] == i)
}

/// The rows are distinct numbers below their number.
pub open spec fn proper(rows: Seq<Seq<usize>>) -> bool {
    &&& forall|i: int| 0 <= i < rows.len() ==> (#[trigger] rows[i]).no_duplicates()
    &&& forall|i: int, p: int|
        0 <= i < rows.len() && 0 <= p < rows[i].len() ==> #[trigger] rows[i][p] < rows.len()
}

/// `list` holds each number below the number of rows once; the first `free`
/// of them come after every row that lists them, as they get ready, and each
/// of the rest is listed by one of the rest. Those that no row lists, and the
/// rest, come in their own order.
pub open spec fn sorted(rows: Seq<Seq<usize>>, list: Seq<usize>, free: int) -> bool {
    &&& list.no_duplicates()
    &&& forall|p: int| 0 <= p < list.len() ==> #[trigger] list[p] < rows.len()
    &&& forall|j: usize| j < rows.len() ==> #[trigger] list.contains(j)
    &&& 0 <= free <= list.len()
    &&& after_sources(rows, list, free)
    &&& forall|p: int|
        free <= p < list.len() ==> held_up(rows, list, free, #[trigger] list[p])
    &&& roots_first(rows, list, free)
    &&& in_turn(rows, list, free)
    &&& ascending(list, free, list.len() as int)
}

/// Each of the first `free` comes after every row that lists it.
pub open spec fn after_sources(rows: Seq<Seq<usize>>, list: Seq<usize>, free: int) -> bool {
    forall|p: int, i: int|
        #![trigger list[p], rows[i]]
        0 <= p < free && 0 <= i < rows.len() && rows[i].contains(list[p]) ==> first(list, p).contains(i)
}

/// Of the first `free`, those that no row lists come first, in their own
/// order.
pub open spec fn roots_first(rows: Seq<Seq<usize>>, list: Seq<usize>, free: int) -> bool {
    forall|p: int, q: int|
        #![trigger list[p], list[q]]
        0 <= p < q < free && !listed(rows, list[q]) ==> list[p] < list[q]
}

/// Of the first `free`, one that is listed later than another comes later.
pub open spec fn in_turn(rows: Seq<Seq<usize>>, list: Seq<usize>, free: int) -> bool {
    forall|o: int, p: int, q: int|
        #![trigger rows[list[o] as int].contains(list[p]), list[q]]
        0 <= o < list.len() && 0 <= p < q < free && rows[list[o] as int].contains(list[p]) ==> held_up(
            rows,
            list,
            o,
            list[q],
        )
}

/// The numbers at places `from..to` ascend.
pub open spec fn ascending(list: Seq<usize>, from: int, to: int) -> bool {
    forall|p: int, q: int| #![trigger list[p], list[q]] from <= p < q < to ==> list[p] < list[q]
}

/// Whether one of the rows lists `j`.
pub open spec fn listed(rows: Seq<Seq<usize>>, j: usize) -> bool {
    exists|i: int| 0 <= i < rows.len() && (#[trigger] rows[i]).contains(j)
}

/// Whether one of the rows from place `free` on lists `j`.
pub open spec fn held_up(rows: Seq<Seq<usize>>, list: Seq<usize>, free: int, j: usize) -> bool {
    exists|o: int| free <= o < list.len() && rows[#[trigger] list[o] as int].contains(j)
}

/// How many rows list each number.
fn degrees(rows: &Vec<Vec<usize>>) -> (degree: Vec<usize>)
    requires
        proper(rows_of(rows@)),
    ensures
        degree@.len() == rows@.len(),
        forall|j: int|
            0 <= j < rows@.len() ==> #[trigger] degree@[j] == waiting(rows_of(rows@), Set::empty(), j as usize),
{
    let n: usize = rows.len();
    let ghost all = rows_of(rows@);
    let mut degree: Vec<usize> = Vec::new();
    while degree.len() < n
        invariant
            degree@.len() <= n,
            forall|j: int| 0 <= j < degree@.len() ==> #[trigger] degree@[j] == 0,
        decreases n - degree@.len(),
    {
        degree.push(0);
    }
    let mut i: usize = 0;
    assert(all.take(0) =~= Seq::empty());
    while i < n
        invariant
            n == rows@.len(),
            i <= n,
            all == rows_of(rows@),
            proper(all),
            degree@.len() == n,
            forall|j: int|
                0 <= j < n ==> #[trigger] degree@[j] == waiting(all.take(i as int), Set::empty(), j as usize),
        decreases n - i,
    {
        let ghost now = all.take(i as int);
        let ghost next = all.take(i + 1);
        let row = &rows[i];
        proof {
            assert(all[i as int] == row@);
            assert(next.drop_last() =~= now);
        }
        let mut t: usize = 0;
        while t < row.len()
            invariant
                n == rows@.len(),
                i < n,
                t <= row@.len(),
                all == rows_of(rows@),
                all[i as int] == row@,
                proper(all),
                now == all.take(i as int),
                degree@.len() == n,
                forall|j: int|
                    0 <= j < n ==> #[trigger] degree@[j] == waiting(now, Set::empty(), j as usize) + (if row@.take(
                        t as int,
                    ).contains(j as usize) {
                        1nat
                    } else {
                        0nat
                    }),
            decreases row@.len() - t,
        {
            let j: usize = row[t];
            proof {
                assert(all[i as int][t as int] == j);
                lemma_waiting_bound(now, Set::empty(), j);
                let before = row@.take(t as int);
                let after = row@.take(t + 1);
                assert(after =~= before.push(j));
                assert(!before.contains(j)) by {
                    if before.contains(j) {
                        let p = choose|p: int| 0 <= p < before.len() && before[p] == j;
                        assert(all[i as int][p] == all[i as int][t as int]);
                    }
                }
                assert(after[t as int] == j);
                assert forall|x: usize| x != j implies (after.contains(x) <==> before.contains(x)) by {
                    if before.contains(x) {
                        let p = choose|p: int| 0 <= p < before.len() && before[p] == x;
                        assert(after[p] == x);
                    }
                }
            }
            degree.set(j, degree[j] + 1);
            t = t + 1;
        }
        assert(row@.take(t as int) =~= row@);
        i = i + 1;
    }
    assert(all.take(i as int) =~= all);
    degree
}

/// The numbers that no row lists.
fn roots(degree: &Vec<usize>) -> (list: Vec<usize>)
    ensures
        list@.no_duplicates(),
        forall|p: int| 0 <= p < list@.len() ==> #[trigger] list@[p] < degree@.len(),
        forall|x: usize| x < degree@.len() ==> (#[trigger] list@.contains(x) <==> degree@[x as int] == 0),
        ascending(list@, 0, list@.len() as int),
{
    let n: usize = degree.len();
    let mut list: Vec<usize> = Vec::new();
    let mut j: usize = 0;
    while j < n
        invariant
            n == degree@.len(),
            j <= n,
            list@.no_duplicates(),
            forall|p: int| 0 <= p < list@.len() ==> #[trigger] list@[p] < j,
            forall|x: usize| x < j ==> (#[trigger] list@.contains(x) <==> degree@[x as int] == 0),
            ascending(list@, 0, list@.len() as int),
        decreases n - j,
    {
        let ghost before = list@;
        if degree[j] == 0 {
            list.push(j);
            assert(list@[before.len() as int] == j);
        }
        assert forall|x: usize| x < j + 1 implies (#[trigger] list@.contains(x) <==> degree@[x as int] == 0) by {
            if before.contains(x) {
                let p = choose|p: int| 0 <= p < before.len() && before[p] == x;
                assert(list@[p] == x);
            }
        }
        j = j + 1;
    }
    list
}

/// `by` gives for each place from `m` on the place of the row that listed it
/// last, which is below `head`.
spec fn released(rows: Seq<Seq<usize>>, list: Seq<usize>, m: int, by: Seq<int>, head: int) -> bool {
    &&& m <= list.len()
    &&& by.len() == list.len() - m
    &&& forall|p: int| 0 <= p < by.len() ==> 0 <= #[trigger] by[p] < head && by[p] < m + p
    &&& forall|p: int| 0 <= p < by.len() ==> rows[list[#[trigger] by[p]] as int].contains(list[m + p])
    &&& forall|p: int, q: int| 0 <= p < q < by.len() ==> #[trigger] by[p] <= #[trigger] by[q]
    &&& forall|p: int, i: int|
        #![trigger by[p], rows[i]]
        0 <= p < by.len() && 0 <= i < rows.len() && rows[i].contains(list[m + p]) ==> first(list, by[p] + 1).contains(i)
}

/// Extending a list changes nothing about its first places.
proof fn lemma_first(before: Seq<usize>, list: Seq<usize>, m: int)
    requires
        0 <= m <= before.len() <= list.len(),
        list.take(before.len() as int) == before,
    ensures
        first(list, m) == first(before, m),
{
    assert forall|k: int| first(list, m).contains(k) <==> first(before, m).contains(k) by {
        if first(list, m).contains(k) {
            let p = choose|p: int| 0 <= p < m && p < list.len() && list[p] == k;
            assert(list.take(before.len() as int)[p] == list[p]);
            assert(before[p] == k);
        }
        if first(before, m).contains(k) {
            let p = choose|p: int| 0 <= p < m && p < before.len() && before[p] == k;
            assert(list.take(before.len() as int)[p] == list[p]);
            assert(list[p] == k);
        }
    }
    assert(first(list, m) =~= first(before, m));
}

proof fn lemma_released_push(
    rows: Seq<Seq<usize>>,
    list: Seq<usize>,
    m: int,
    by: Seq<int>,
    head: int,
    j: usize,
    now: Set<int>,
)
    requires
        0 <= m,
        released(rows, list, m, by, head + 1),
        0 <= head < list.len(),
        rows[list[head] as int].contains(j),
        now == first(list, head + 1),
        waiting(rows, now, j) == 0,
    ensures
        released(rows, list.push(j), m, by.push(head), head + 1),
{
    let longer = list.push(j);
    let more = by.push(head);
    assert(longer.take(list.len() as int) =~= list);
    assert forall|p: int| 0 <= p < more.len() implies rows[longer[#[trigger] more[p]] as int].contains(longer[m + p]) by {
        if p < by.len() {
            assert(more[p] == by[p]);
            assert(longer[by[p]] == list[by[p]]);
        }
    }
    assert forall|p: int, i: int|
        #![trigger more[p], rows[i]]
        0 <= p < more.len() && 0 <= i < rows.len() && rows[i].contains(longer[m + p]) implies first(
        longer,
        more[p] + 1,
    ).contains(i) by {
        lemma_first(list, longer, more[p] + 1);
        if p < by.len() {
            assert(more[p] == by[p]);
        } else {
            lemma_waiting_none(rows, now, j, i);
        }
    }
}

proof fn lemma_in_turn(rows: Seq<Seq<usize>>, list: Seq<usize>, m: int, by: Seq<int>, head: int)
    requires
        0 <= m,
        list.no_duplicates(),
        forall|p: int| 0 <= p < list.len() ==> #[trigger] list[p] < rows.len(),
        forall|p: int| 0 <= p < m ==> !listed(rows, #[trigger] list[p]),
        released(rows, list, m, by, head),
    ensures
        in_turn(rows, list, list.len() as int),
{
    assert forall|o: int, p: int, q: int|
        #![trigger rows[list[o] as int].contains(list[p]), list[q]]
        0 <= o < list.len() && 0 <= p < q < list.len() && rows[list[o] as int].contains(list[p]) implies held_up(
        rows,
        list,
        o,
        list[q],
    ) by {
        assert(listed(rows, list[p]));
        let a = by[p - m];
        let b = by[q - m];
        assert(list[m + (p - m)] == list[p] && list[m + (q - m)] == list[q]);
        assert(a <= b);
        assert(first(list, a + 1).contains(list[o] as int));
        let h = choose|h: int| 0 <= h < a + 1 && h < list.len() && #[trigger] list[h] == list[o] as int;
        assert(h == o);
        assert(rows[list[b] as int].contains(list[q]));
    }
}

/// Takes the rows one after the other, and appends each number once all the
/// rows that list it have been taken.
fn release(rows: &Vec<Vec<usize>>, degree: &mut Vec<usize>, list: &mut Vec<usize>)
    requires
        proper(rows_of(rows@)),
        old(degree)@.len() == rows@.len(),
        forall|j: int|
            0 <= j < rows@.len() ==> #[trigger] old(degree)@[j] == waiting(rows_of(rows@), Set::empty(), j as usize),
        old(list)@.no_duplicates(),
        forall|p: int| 0 <= p < old(list)@.len() ==> #[trigger] old(list)@[p] < rows@.len(),
        forall|x: usize| x < rows@.len() ==> (#[trigger] old(list)@.contains(x) <==> old(degree)@[x as int] == 0),
        ascending(old(list)@, 0, old(list)@.len() as int),
    ensures
        final(degree)@.len() == rows@.len(),
        final(list)@.no_duplicates(),
        forall|p: int| 0 <= p < final(list)@.len() ==> #[trigger] final(list)@[p] < rows@.len(),
        forall|x: usize| x < rows@.len() ==> (#[trigger] final(list)@.contains(x) <==> final(degree)@[x as int] == 0),
        forall|x: int|
            0 <= x < rows@.len() ==> #[trigger] final(degree)@[x] == waiting(
                rows_of(rows@),
                first(final(list)@, final(list)@.len() as int),
                x as usize,
            ),
        after_sources(rows_of(rows@), final(list)@, final(list)@.len() as int),
        roots_first(rows_of(rows@), final(list)@, final(list)@.len() as int),
        in_turn(rows_of(rows@), final(list)@, final(list)@.len() as int),
{
    let n: usize = rows.len();
    let ghost all = rows_of(rows@);
    let ghost m = list@.len() as int;
    let ghost start = list@;
    let ghost mut by: Seq<int> = Seq::empty();
    proof {
        assert forall|p: int| 0 <= p < m implies !listed(all, #[trigger] start[p]) by {
            assert(start.contains(start[p]));
            if listed(all, start[p]) {
                let i = choose|i: int| 0 <= i < all.len() && (#[trigger] all[i]).contains(start[p]);
                lemma_waiting_none(all, Set::empty(), start[p], i);
            }
        }
        assert(list@.take(m) =~= start);
    }
    let mut head: usize = 0;
    assert(first(list@, 0) =~= Set::empty());
    assert forall|p: int, i: int|
        #![trigger list@[p], all[i]]
        0 <= p < list@.len() && 0 <= i < n && all[i].contains(list@[p]) implies first(list@, p).contains(i) by {
        assert(!listed(all, start[p]));
    }
    while head < list.len()
        invariant
            n == rows@.len(),
            n == degree@.len(),
            all == rows_of(rows@),
            proper(all),
            head <= list@.len(),
            0 <= m == start.len(),
            m <= list@.len(),
            list@.take(m) == start,
            released(all, list@, m, by, head as int),
            list@.no_duplicates(),
            forall|p: int| 0 <= p < list@.len() ==> #[trigger] list@[p] < n,
            forall|x: usize| x < n ==> (#[trigger] list@.contains(x) <==> degree@[x as int] == 0),
            forall|x: int|
                0 <= x < n ==> #[trigger] degree@[x] == waiting(all, first(list@, head as int), x as usize),
            forall|p: int, i: int|
                #![trigger list@[p], all[i]]
                0 <= p < list@.len() && 0 <= i < n && all[i].contains(list@[p]) ==> first(list@, p).contains(i),
        decreases n - head,
    {
        proof {
            lemma_distinct_below(list@, n);
        }
        let i: usize = list[head];
        let row = &rows[i];
        let ghost done = first(list@, head as int);
        let ghost now = done.insert(i as int);
        proof {
            assert(all[i as int] == row@);
            assert(!done.contains(i as int));
            assert(first(list@, head + 1) =~= now) by {
                assert(list@[head as int] == i);
            }
            assert forall|x: int| 0 <= x < n implies #[trigger] degree@[x] == waiting(all, now, x as usize) + (
            if row@.skip(0).contains(x as usize) {
                1nat
            } else {
                0nat
            }) by {
                lemma_waiting_done(all, done, i as int, x as usize);
                assert(row@.skip(0) =~= row@);
            }
        }
        let mut t: usize = 0;
        while t < row.len()
            invariant
                n == rows@.len(),
                n == degree@.len(),
                i < n,
                all == rows_of(rows@),
                all[i as int] == row@,
                proper(all),
                t <= row@.len(),
                head < list@.len(),
                list@[head as int] == i,
                0 <= m == start.len(),
                m <= list@.len(),
                list@.take(m) == start,
                released(all, list@, m, by, head + 1),
                list@.no_duplicates(),
                forall|p: int| 0 <= p < list@.len() ==> #[trigger] list@[p] < n,
                forall|x: usize| x < n ==> (#[trigger] list@.contains(x) <==> degree@[x as int] == 0),
                first(list@, head + 1) == now,
                forall|x: int|
                    0 <= x < n ==> #[trigger] degree@[x] == waiting(all, now, x as usize) + (if row@.skip(
                        t as int,
                    ).contains(x as usize) {
                        1nat
                    } else {
                        0nat
                    }),
                forall|p: int, k: int|
                    #![trigger list@[p], all[k]]
                    0 <= p < list@.len() && 0 <= k < n && all[k].contains(list@[p]) ==> first(list@, p).contains(k),
            decreases row@.len() - t,
        {
            let j: usize = row[t];
            let ghost before = list@;
            let ghost held = degree@;
            proof {
                assert(all[i as int][t as int] == j);
                let rest = row@.skip(t as int);
                let after = row@.skip(t + 1);
                assert(rest[0] == j);
                assert(rest.contains(j));
                assert(!after.contains(j)) by {
                    if after.contains(j) {
                        let p = choose|p: int| 0 <= p < after.len() && after[p] == j;
                        assert(all[i as int][t + 1 + p] == all[i as int][t as int]);
                    }
                }
                assert forall|x: usize| x != j implies (after.contains(x) <==> rest.contains(x)) by {
                    if rest.contains(x) {
                        let p = choose|p: int| 0 <= p < rest.len() && rest[p] == x;
                        assert(after[p - 1] == x);
                    }
                    if after.contains(x) {
                        let p = choose|p: int| 0 <= p < after.len() && after[p] == x;
                        assert(rest[p + 1] == x);
                    }
                }
                assert(held[j as int] > 0);
                assert(!before.contains(j));
            }
            degree.set(j, degree[j] - 1);
            if degree[j] == 0 {
                list.push(j);
                proof {
                    let place = before.len() as int;
                    assert(list@[place] == j);
                    assert(list@.take(place) =~= before);
                    assert(list@.take(m) =~= before.take(m));
                    assert(waiting(all, now, j) == 0);
                    lemma_released_push(all, before, m, by, head as int, j, now);
                    by = by.push(head as int);
                    assert forall|o: int| 0 <= o <= place implies #[trigger] first(list@, o) == first(before, o) by {
                        lemma_first(before, list@, o);
                    }
                    assert forall|p: int, k: int|
                        #![trigger list@[p], all[k]]
                        0 <= p < list@.len() && 0 <= k < n && all[k].contains(list@[p]) implies first(
                        list@,
                        p,
                    ).contains(k) by {
                        if p == place {
                            lemma_waiting_none(all, now, j, k);
                            let o = choose|o: int| 0 <= o < head + 1 && o < before.len() && before[o] == k;
                            assert(before[o] == k);
                            assert(first(before, place).contains(k));
                        } else {
                            assert(list@[p] == before[p]);
                        }
                    }
                }
            }
            assert forall|x: usize| x < n implies (#[trigger] list@.contains(x) <==> degree@[x as int] == 0) by {
                assert(before.contains(x) <==> held[x as int] == 0);
                if before.contains(x) {
                    let p = choose|p: int| 0 <= p < before.len() && before[p] == x;
                    assert(list@[p] == x);
                }
            }
            t = t + 1;
        }
        assert(row@.skip(t as int) =~= Seq::empty());
        head = head + 1;
    }
    proof {
        assert forall|p: int| 0 <= p < m implies !listed(all, #[trigger] list@[p]) by {
            assert(list@.take(m)[p] == start[p]);
        }
        lemma_in_turn(all, list@, m, by, head as int);
        assert forall|p: int, q: int|
            #![trigger list@[p], list@[q]]
            0 <= p < q < list@.len() && !listed(all, list@[q]) implies list@[p] < list@[q] by {
            if q >= m {
                assert(all[list@[by[q - m]] as int].contains(list@[m + (q - m)]));
            }
            assert(list@.take(m)[p] == start[p] && list@.take(m)[q] == start[q]);
        }
    }
}

/// Extending a list keeps what is known of its first places.
proof fn lemma_extended(rows: Seq<Seq<usize>>, start: Seq<usize>, list: Seq<usize>)
    requires
        start.len() <= list.len(),
        list.take(start.len() as int) == start,
        list.no_duplicates(),
        forall|p: int| 0 <= p < list.len() ==> #[trigger] list[p] < rows.len(),
        after_sources(rows, start, start.len() as int),
        roots_first(rows, start, start.len() as int),
        in_turn(rows, start, start.len() as int),
    ensures
        after_sources(rows, list, start.len() as int),
        roots_first(rows, list, start.len() as int),
        in_turn(rows, list, start.len() as int),
{
    let free = start.len() as int;
    assert forall|p: int| 0 <= p < free implies #[trigger] list[p] == start[p] by {
        assert(list.take(free)[p] == list[p]);
    }
    assert forall|p: int, i: int|
        #![trigger list[p], rows[i]]
        0 <= p < free && 0 <= i < rows.len() && rows[i].contains(list[p]) implies first(list, p).contains(i) by {
        lemma_first(start, list, p);
        assert(list[p] == start[p]);
    }
    assert forall|o: int, p: int, q: int|
        #![trigger rows[list[o] as int].contains(list[p]), list[q]]
        0 <= o < list.len() && 0 <= p < q < free && rows[list[o] as int].contains(list[p]) implies held_up(
        rows,
        list,
        o,
        list[q],
    ) by {
        assert(first(list, p).contains(list[o] as int));
        let h = choose|h: int| 0 <= h < p && h < list.len() && #[trigger] list[h] == list[o] as int;
        assert(h == o);
        assert(rows[start[o] as int].contains(start[p]));
        assert(held_up(rows, start, o, start[q]));
        let b = choose|b: int| o <= b < start.len() && rows[#[trigger] start[b] as int].contains(start[q]);
        assert(rows[list[b] as int].contains(list[q]));
    }
}

/// Orders the numbers of the rows so that each comes after every row that
/// lists it, as far as there are no cycles; the rest follow in their own
/// order.
fn sort(rows: &Vec<Vec<usize>>) -> (r: (Vec<usize>, Ghost<int>))
    requires
        proper(rows_of(rows@)),
    ensures
        sorted(rows_of(rows@), r.0@, r.1@),
{
    let n: usize = rows.len();
    let ghost all = rows_of(rows@);
    let mut degree = degrees(rows);
    let mut list = roots(&degree);
    release(rows, &mut degree, &mut list);
    let ghost free = list@.len() as int;
    let ghost done = first(list@, free);
    let ghost start = list@;
    let mut j: usize = 0;
    while j < n
        invariant
            n == rows@.len(),
            n == degree@.len(),
            j <= n,
            free == start.len(),
            start.len() <= list@.len(),
            list@.take(free) == start,
            list@.no_duplicates(),
            forall|p: int| 0 <= p < start.len() ==> #[trigger] start[p] < n,
            forall|p: int| free <= p < list@.len() ==> #[trigger] list@[p] < j,
            ascending(list@, free, list@.len() as int),
            forall|p: int| free <= p < list@.len() ==> degree@[(#[trigger] list@[p]) as int] > 0,
            forall|x: usize| x < n ==> (#[trigger] start.contains(x) <==> degree@[x as int] == 0),
            forall|x: usize| x < j ==> #[trigger] list@.contains(x),
        decreases n - j,
    {
        let ghost before = list@;
        if degree[j] > 0 {
            proof {
                if before.contains(j) {
                    let p = choose|p: int| 0 <= p < before.len() && before[p] == j;
                    if p < free {
                        assert(start[p] == before.take(free)[p]);
                        assert(start.contains(j));
                    }
                }
            }
            list.push(j);
            assert(list@[before.len() as int] == j);
            assert(list@.take(free) =~= start);
        } else {
            assert(start.contains(j));
            let ghost p = choose|p: int| 0 <= p < start.len() && start[p] == j;
            assert(list@[p] == before.take(free)[p]);
        }
        assert forall|x: usize| x < j + 1 implies #[trigger] list@.contains(x) by {
            if x < j {
                assert(before.contains(x));
                let p = choose|p: int| 0 <= p < before.len() && before[p] == x;
                assert(list@[p] == x);
            }
        }
        j = j + 1;
    }
    proof {
        assert forall|p: int| 0 <= p < list@.len() implies #[trigger] list@[p] < n by {
            if p < free {
                assert(list@.take(free)[p] == start[p]);
            }
        }
        lemma_extended(all, start, list@);
        assert forall|p: int| free <= p < list@.len() implies held_up(all, list@, free, #[trigger] list@[p]) by {
            let x = list@[p];
            let i = lemma_waiting_some(all, done, x);
            assert(list@.contains(i as usize));
            let o = choose|o: int| 0 <= o < list@.len() && list@[o] == i as usize;
            if o < free {
                assert(list@.take(free)[o] == start[o]);
                assert(done.contains(i));
            }
            assert(all[list@[o] as int].contains(x));
        }
    }
    (list, Ghost(free))
}

/// A chain from the seeds to a stat goes on to any stat that reads it.
pub proof fn lemma_reached_step(world: World, seeds: Seq<Key>, a: Key, d: Key)
    requires
        reached(world, seeds, a),
        feeds(world, a, d),
    ensures
        reached(world, seeds, d),
{
    let chain = choose|chain: Seq<Key>| #[trigger] leads(world, seeds, chain) && chain.last() == a;
    let longer = chain.push(d);
    assert forall|i: int| 0 < i < longer.len() implies feeds(world, longer[i - 1], #[trigger] longer[i]) by {
        if i < chain.len() {
            assert(longer[i] == chain[i]);
        }
    }
    assert(leads(world, seeds, longer));
}

/// A set that holds the seeds and all that read its members holds every
/// stat that is reached.
proof fn lemma_reached_closed(world: World, seeds: Seq<Key>, all: Seq<Key>, chain: Seq<Key>)
    requires
        forall|i: int| 0 <= i < seeds.len() ==> all.contains(#[trigger] seeds[i]),
        forall|a: Key, d: Key| all.contains(a) && #[trigger] feeds(world, a, d) ==> all.contains(d),
        leads(world, seeds, chain),
    ensures
        all.contains(chain.last()),
    decreases chain.len(),
{
    if chain.len() == 1 {
        let i = choose|i: int| 0 <= i < seeds.len() && seeds[i] == chain[0];
        assert(all.contains(seeds[i]));
    } else {
        let shorter = chain.drop_last();
        assert forall|i: int| 0 < i < shorter.len() implies feeds(world, shorter[i - 1], #[trigger] shorter[i]) by {
            assert(shorter[i] == chain[i]);
        }
        lemma_reached_closed(world, seeds, all, shorter);
        assert(feeds(world, chain[chain.len() - 2], chain[chain.len() - 1]));
    }
}

/// A stat that reads another exists.
proof fn lemma_reader_exists(world: World, a: Key, d: Key)
    requires
        feeds(world, a, d),
    ensures
        world.nodes.contains_key(d),
{
    assert(node_in(world, d).modifiers.len() > 0);
}

/// `by` gives for each place from `m` on the place of the first stat that the
/// one there reads, which is below `n`.
spec fn led(world: World, found: Seq<Key>, m: int, by: Seq<int>, n: int) -> bool {
    &&& 0 <= m <= found.len()
    &&& by.len() == found.len() - m
    &&& forall|p: int| 0 <= p < by.len() ==> 0 <= #[trigger] by[p] < n && by[p] < m + p
    &&& forall|p: int| 0 <= p < by.len() ==> feeds(world, found[#[trigger] by[p]], found[m + p])
    &&& forall|p: int, q: int| 0 <= p < q < by.len() ==> #[trigger] by[p] <= #[trigger] by[q]
    &&& forall|p: int, h: int|
        #![trigger by[p], found[h]]
        0 <= p < by.len() && 0 <= h < by[p] ==> !feeds(world, found[h], found[m + p])
}

proof fn lemma_led_push(world: World, found: Seq<Key>, m: int, by: Seq<int>, i: int, d: Key)
    requires
        led(world, found, m, by, i + 1),
        0 <= i < found.len(),
        feeds(world, found[i], d),
        forall|h: int| 0 <= h < i ==> !feeds(world, #[trigger] found[h], d),
    ensures
        led(world, found.push(d), m, by.push(i), i + 1),
{
    let longer = found.push(d);
    let more = by.push(i);
    assert forall|p: int| 0 <= p < more.len() implies feeds(world, longer[#[trigger] more[p]], longer[m + p]) by {
        if p < by.len() {
            assert(more[p] == by[p]);
            assert(longer[by[p]] == found[by[p]]);
        }
    }
    assert forall|p: int, h: int|
        #![trigger more[p], longer[h]]
        0 <= p < more.len() && 0 <= h < more[p] implies !feeds(world, longer[h], longer[m + p]) by {
        if p < by.len() {
            assert(more[p] == by[p]);
        }
        assert(longer[h] == found[h]);
    }
}

proof fn lemma_led(world: World, found: Seq<Key>, m: int, by: Seq<int>, n: int)
    requires
        led(world, found, m, by, n),
    ensures
        forall|p: int| m <= p < found.len() ==> met(world, found, p, #[trigger] found[p]),
        forall|i: int, p: int, q: int|
            #![trigger found[p], feeds(world, found[i], found[q])]
            0 <= i < found.len() && m <= p < q < found.len() && feeds(world, found[i], found[q]) ==> met(
                world,
                found,
                i + 1,
                found[p],
            ),
{
    assert forall|p: int| m <= p < found.len() implies met(world, found, p, #[trigger] found[p]) by {
        assert(found[m + (p - m)] == found[p]);
        assert(feeds(world, found[by[p - m]], found[p]));
    }
    assert forall|i: int, p: int, q: int|
        #![trigger found[p], feeds(world, found[i], found[q])]
        0 <= i < found.len() && m <= p < q < found.len() && feeds(world, found[i], found[q]) implies met(
        world,
        found,
        i + 1,
        found[p],
    ) by {
        assert(found[m + (p - m)] == found[p] && found[m + (q - m)] == found[q]);
        assert(by[p - m] <= by[q - m]);
        assert(by[q - m] <= i);
        assert(feeds(world, found[by[p - m]], found[p]));
    }
}

/// Finds the stats that depend on `seeds`: breadth first, along the edges.
fn closure(
    graph: &StatGraph,
    seeds: &Vec<(Entity, String)>,
    Ghost(world): Ghost<World>,
) -> (found: PairTable<()>)
    requires
        graph.wf(),
        wired(world, *graph),
        world.nodes.dom().finite(),
    ensures
        found.wf(),
        forall|k: Key| #[trigger] found@.contains_key(k) <==> reached(world, keys_of(seeds@), k),
        discovered(world, keys_of(seeds@), found.keys()),
{
    let ghost start = keys_of(seeds@);
    let mut found: PairTable<()> = PairTable::new();
    let mut i: usize = 0;
    while i < seeds.len()
        invariant
            i <= seeds@.len(),
            start == keys_of(seeds@),
            found.wf(),
            found.keys() == distinct(start.take(i as int)),
            forall|k: int| 0 <= k < i ==> found@.contains_key(#[trigger] start[k]),
            forall|k: Key| #[trigger] found@.contains_key(k) ==> start.contains(k),
        decreases seeds@.len() - i,
    {
        proof {
            assert(start[i as int] == (seeds@[i as int].0, seeds@[i as int].1@));
            assert(start.take(i + 1).drop_last() =~= start.take(i as int));
            found.lemma_keys();
        }
        found.insert((seeds[i].0, seeds[i].1.clone()), ());
        i = i + 1;
    }
    let ghost universe = start.to_set().union(world.nodes.dom());
    let ghost m = found.keys().len() as int;
    let ghost mut by: Seq<int> = Seq::empty();
    proof {
        assert(start.take(i as int) =~= start);
        assert(found.keys().take(m) =~= distinct(start));
        vstd::seq_lib::seq_to_set_is_finite(start);
        assert forall|k: Key| #[trigger] found@.contains_key(k) implies reached(world, start, k) by {
            assert(leads(world, start, seq![k]));
        }
        found.lemma_keys();
    }
    let mut i: usize = 0;
    while i < found.len()
        invariant
            graph.wf(),
            wired(world, *graph),
            start == keys_of(seeds@),
            universe == start.to_set().union(world.nodes.dom()),
            universe.finite(),
            found.wf(),
            i <= found.keys().len(),
            led(world, found.keys(), m, by, i as int),
            found.keys().take(m) == distinct(start),
            m == distinct(start).len(),
            forall|k: int| 0 <= k < start.len() ==> found@.contains_key(#[trigger] start[k]),
            forall|k: Key| #[trigger] found@.contains_key(k) ==> reached(world, start, k) && universe.contains(k),
            forall|p: int, d: Key|
                0 <= p < i && #[trigger] feeds(world, found.keys()[p], d) ==> found@.contains_key(d),
        decreases universe.len() - i,
    {
        proof {
            lemma_found_bound(found, universe);
        }
        let entity = found.key_at(i).0;
        let stat = found.key_at(i).1.clone();
        let ghost a: Key = (entity, stat@);
        proof {
            assert(a == found.keys()[i as int]);
            found.lemma_keys();
            assert(found.keys().contains(a));
        }
        if let Some(list) = graph.dependents_of(entity, &stat) {
            let ghost readers = dependent_list(list@);
            let ghost before = found.keys();
            let mut t: usize = 0;
            while t < list.len()
                invariant
                    t <= list@.len(),
                    readers == dependent_list(list@),
                    readers == graph.list(a),
                    wired(world, *graph),
                    start == keys_of(seeds@),
                    universe == start.to_set().union(world.nodes.dom()),
                    found.wf(),
                    i < before.len() <= found.keys().len(),
                    found.keys().take(before.len() as int) == before,
                    a == before[i as int],
                    led(world, found.keys(), m, by, i + 1),
                    found.keys().take(m) == distinct(start),
                    m <= before.len(),
                    reached(world, start, a),
                    forall|k: int| 0 <= k < start.len() ==> found@.contains_key(#[trigger] start[k]),
                    forall|k: Key| #[trigger]
                        found@.contains_key(k) ==> reached(world, start, k) && universe.contains(k),
                    forall|p: int, d: Key|
                        0 <= p < i && #[trigger] feeds(world, before[p], d) ==> found@.contains_key(d),
                    forall|p: int| 0 <= p < t ==> found@.contains_key(#[trigger] readers[p]),
                decreases list@.len() - t,
            {
                let ghost d = readers[t as int];
                proof {
                    assert(d == list@[t as int]@);
                    assert(graph.list(a).contains(d));
                    lemma_wired(world, *graph, a, d);
                    lemma_reached_step(world, start, a, d);
                    lemma_reader_exists(world, a, d);
                }
                let ghost was = found.keys();
                let ghost known = found@.contains_key(d);
                found.insert((list[t].entity, list[t].stat.clone()), ());
                proof {
                    assert(found.keys().take(before.len() as int) =~= was.take(before.len() as int));
                    assert(found.keys().take(m) =~= was.take(m));
                    assert(was[i as int] == was.take(before.len() as int)[i as int]);
                    if !known {
                        assert forall|h: int| 0 <= h < i implies !feeds(world, #[trigger] was[h], d) by {
                            assert(was[h] == was.take(before.len() as int)[h]);
                        }
                        lemma_led_push(world, was, m, by, i as int, d);
                        by = by.push(i as int);
                    }
                }
                t = t + 1;
            }
            proof {
                assert forall|p: int, d: Key|
                    0 <= p < i + 1 && #[trigger] feeds(world, found.keys()[p], d) implies found@.contains_key(d) by {
                    assert(found.keys()[p] == found.keys().take(before.len() as int)[p]);
                    if p == i {
                        lemma_wired(world, *graph, a, d);
                        let o = choose|o: int| 0 <= o < readers.len() && readers[o] == d;
                        assert(found@.contains_key(readers[o]));
                    }
                }
            }
        } else {
            proof {
                assert forall|p: int, d: Key|
                    0 <= p < i + 1 && #[trigger] feeds(world, found.keys()[p], d) implies found@.contains_key(d) by {
                    if p == i {
                        lemma_wired(world, *graph, a, d);
                    }
                }
            }
        }
        i = i + 1;
    }
    proof {
        found.lemma_keys();
        let all = found.keys();
        assert forall|k: int| 0 <= k < start.len() implies all.contains(#[trigger] start[k]) by {
            assert(found@.contains_key(start[k]));
        }
        assert forall|a: Key, d: Key| all.contains(a) && #[trigger] feeds(world, a, d) implies all.contains(d) by {
            let p = choose|p: int| 0 <= p < all.len() && all[p] == a;
            assert(feeds(world, found.keys()[p], d));
            assert(found@.contains_key(d));
        }
        assert forall|k: Key| reached(world, start, k) implies #[trigger] found@.contains_key(k) by {
            let chain = choose|chain: Seq<Key>| #[trigger] leads(world, start, chain) && chain.last() == k;
            lemma_reached_closed(world, start, all, chain);
            assert(all.contains(k));
        }
        lemma_led(world, all, m, by, i as int);
    }
    found
}

/// The readers of each stat that was found, by position.
fn reader_rows(graph: &StatGraph, found: &PairTable<()>, Ghost(world): Ghost<World>) -> (rows: Vec<Vec<usize>>)
    requires
        graph.wf(),
        wired(world, *graph),
        found.wf(),
        forall|a: Key, d: Key| found@.contains_key(a) && #[trigger] feeds(world, a, d) ==> found@.contains_key(d),
    ensures
        rows@.len() == found.keys().len(),
        proper(rows_of(rows@)),
        forall|i: int, j: usize|
            0 <= i < rows@.len() && j < rows@.len() ==> (#[trigger] rows_of(rows@)[i].contains(j) <==> feeds(
                world,
                found.keys()[i],
                found.keys()[j as int],
            )),
{
    let n: usize = found.len();
    let ghost keys = found.keys();
    proof {
        found.lemma_keys();
    }
    let mut last: Vec<usize> = Vec::new();
    while last.len() < n
        invariant
            last@.len() <= n,
            forall|j: int| 0 <= j < last@.len() ==> #[trigger] last@[j] == n,
        decreases n - last@.len(),
    {
        last.push(n);
    }
    let mut rows: Vec<Vec<usize>> = Vec::new();
    let mut i: usize = 0;
    while i < n
        invariant
            graph.wf(),
            wired(world, *graph),
            found.wf(),
            keys == found.keys(),
            n == keys.len(),
            keys.no_duplicates(),
            forall|k: Key| found@.contains_key(k) <==> #[trigger] keys.contains(k),
            forall|a: Key, d: Key| found@.contains_key(a) && #[trigger] feeds(world, a, d) ==> found@.contains_key(d),
            i <= n,
            rows@.len() == i,
            last@.len() == n,
            forall|j: int| 0 <= j < n ==> (#[trigger] last@[j] < i || last@[j] == n),
            forall|r: int| 0 <= r < i ==> (#[trigger] rows_of(rows@)[r]).no_duplicates(),
            forall|r: int, p: int|
                0 <= r < i && 0 <= p < rows_of(rows@)[r].len() ==> #[trigger] rows_of(rows@)[r][p] < n,
            forall|r: int, j: usize|
                0 <= r < i && j < n ==> (#[trigger] rows_of(rows@)[r].contains(j) <==> feeds(
                    world,
                    keys[r],
                    keys[j as int],
                )),
        decreases n - i,
    {
        let entity = found.key_at(i).0;
        let stat = found.key_at(i).1.clone();
        let ghost a: Key = (entity, stat@);
        assert(a == keys[i as int]);
        assert(keys.contains(a));
        let mut row: Vec<usize> = Vec::new();
        if let Some(list) = graph.dependents_of(entity, &stat) {
            let ghost readers = dependent_list(list@);
            let mut t: usize = 0;
            while t < list.len()
                invariant
                    t <= list@.len(),
                    readers == dependent_list(list@),
                    readers == graph.list(a),
                    wired(world, *graph),
                    found.wf(),
                    keys == found.keys(),
                    n == keys.len(),
                    i < n,
                    keys.no_duplicates(),
                    found@.contains_key(a),
                    forall|x: Key, d: Key|
                        found@.contains_key(x) && #[trigger] feeds(world, x, d) ==> found@.contains_key(d),
                    last@.len() == n,
                    forall|j: int| 0 <= j < n ==> (#[trigger] last@[j] <= i || last@[j] == n),
                    forall|j: int| 0 <= j < n ==> (#[trigger] last@[j] == i <==> row@.contains(j as usize)),
                    row@.no_duplicates(),
                    forall|p: int| 0 <= p < row@.len() ==> #[trigger] row@[p] < n,
                    forall|j: usize|
                        j < n ==> (#[trigger] row@.contains(j) <==> readers.take(t as int).contains(keys[j as int])),
                decreases list@.len() - t,
            {
                let ghost d = readers[t as int];
                proof {
                    assert(d == list@[t as int]@);
                    assert(graph.list(a).contains(d));
                    lemma_wired(world, *graph, a, d);
                    assert(readers.take(t + 1) =~= readers.take(t as int).push(d));
                }
                let key = (list[t].entity, list[t].stat.clone());
                assert(key@ == d);
                if let Some(j) = found.position(&key) {
                    let ghost before = row@;
                    proof {
                        assert forall|k: Key| readers.take(t + 1).contains(k) <==> (readers.take(t as int).contains(k)
                            || k == d) by {
                            let short = readers.take(t as int);
                            if short.contains(k) {
                                let o = choose|o: int| 0 <= o < short.len() && short[o] == k;
                                assert(short.push(d)[o] == k);
                            }
                            assert(short.push(d)[t as int] == d);
                        }
                        assert(last@[j as int] == i <==> before.contains(j));
                    }
                    if last[j] != i {
                        last.set(j, i);
                        row.push(j);
                        assert(row@[before.len() as int] == j);
                    }
                    proof {
                        assert forall|x: usize| #[trigger] row@.contains(x) <==> (before.contains(x) || x == j) by {
                            if before.contains(x) {
                                let o = choose|o: int| 0 <= o < before.len() && before[o] == x;
                                assert(row@[o] == x);
                            }
                        }
                    }
                }
                t = t + 1;
            }
            assert(readers.take(t as int) =~= readers);
        }
        proof {
            assert forall|j: usize| j < n implies (#[trigger] row@.contains(j) <==> feeds(
                world,
                a,
                keys[j as int],
            )) by {
                lemma_wired(world, *graph, a, keys[j as int]);
            }
        }
        let ghost before = rows_of(rows@);
        rows.push(row);
        assert(rows_of(rows@) =~= before.push(row@));
        i = i + 1;
    }
    rows
}

/// The rows list what reads what.
spec fn mirrored(world: World, keys: Seq<Key>, rows: Seq<Seq<usize>>) -> bool {
    &&& rows.len() == keys.len()
    &&& rows.len() <= usize::MAX
    &&& forall|i: int, j: usize|
        0 <= i < rows.len() && j < rows.len() ==> (#[trigger] rows[i].contains(j) <==> feeds(
            world,
            keys[i],
            keys[j as int],
        ))
}

/// `done` holds the keys that `list` numbers.
spec fn selected(keys: Seq<Key>, list: Seq<usize>, done: Seq<Key>) -> bool {
    &&& done.len() == list.len()
    &&& forall|p: int| 0 <= p < list.len() ==> #[trigger] done[p] == keys[list[p] as int]
}

proof fn lemma_planned_once(
    world: World,
    seeds: Seq<Key>,
    keys: Seq<Key>,
    rows: Seq<Seq<usize>>,
    list: Seq<usize>,
    free: int,
    done: Seq<Key>,
)
    requires
        discovered(world, seeds, keys),
        mirrored(world, keys, rows),
        sorted(rows, list, free),
        selected(keys, list, done),
    ensures
        done.no_duplicates(),
        forall|k: Key| #[trigger] done.contains(k) <==> reached(world, seeds, k),
        forall|i: int, j: int|
            #![trigger feeds(world, done[i], done[j])]
            0 <= i < done.len() && 0 <= j < free && feeds(world, done[i], done[j]) ==> i < j,
        forall|j: int| free <= j < done.len() ==> waits(world, done, free, #[trigger] done[j]),
{
    assert forall|k: Key| #[trigger] done.contains(k) <==> reached(world, seeds, k) by {
        if done.contains(k) {
            let p = choose|p: int| 0 <= p < done.len() && done[p] == k;
            assert(keys.contains(keys[list[p] as int]));
        }
        if reached(world, seeds, k) {
            assert(keys.contains(k));
            let j = choose|j: int| 0 <= j < keys.len() && keys[j] == k;
            assert(list.contains(j as usize));
            let p = choose|p: int| 0 <= p < list.len() && list[p] == j as usize;
            assert(done[p] == k);
        }
    }
    assert forall|p: int, o: int|
        #![trigger feeds(world, done[p], done[o])]
        0 <= p < done.len() && 0 <= o < free && feeds(world, done[p], done[o]) implies p < o by {
        let i = list[p] as int;
        assert(rows[i].contains(list[o]));
        assert(first(list, o).contains(i));
        let m = choose|m: int| 0 <= m < o && m < list.len() && list[m] == i;
        assert(list[m] == list[p]);
    }
    assert forall|o: int| free <= o < done.len() implies waits(world, done, free, #[trigger] done[o]) by {
        assert(held_up(rows, list, free, list[o]));
        let p = choose|p: int| free <= p < list.len() && rows[#[trigger] list[p] as int].contains(list[o]);
        assert(feeds(world, done[p], done[o]));
    }
}

proof fn lemma_planned_order(
    world: World,
    seeds: Seq<Key>,
    keys: Seq<Key>,
    rows: Seq<Seq<usize>>,
    list: Seq<usize>,
    free: int,
    done: Seq<Key>,
)
    requires
        discovered(world, seeds, keys),
        mirrored(world, keys, rows),
        sorted(rows, list, free),
        selected(keys, list, done),
    ensures
        queued(world, keys, done, free),
        appended(keys, done, free),
{
    assert forall|p: int| 0 <= p < done.len() implies keys.index_of(#[trigger] done[p]) == list[p] by {
        assert(keys.contains(keys[list[p] as int]));
        assert(keys[keys.index_of(done[p])] == done[p]);
    }
    assert forall|p: int, q: int|
        #![trigger done[p], done[q]]
        0 <= p < q < free && !waits(world, done, 0, done[q]) implies precedes(keys, done[p], done[q]) by {
        if listed(rows, list[q]) {
            let i = choose|i: int| 0 <= i < rows.len() && (#[trigger] rows[i]).contains(list[q]);
            assert(list.contains(i as usize));
            let o = choose|o: int| 0 <= o < list.len() && list[o] == i as usize;
            assert(feeds(world, done[o], done[q]));
        }
        assert(list[p] < list[q]);
    }
    assert forall|i: int, p: int, q: int|
        #![trigger feeds(world, done[i], done[p]), done[q]]
        0 <= i < done.len() && 0 <= p < q < free && feeds(world, done[i], done[p]) implies waits(
        world,
        done,
        i,
        done[q],
    ) by {
        assert(rows[list[i] as int].contains(list[p]));
        assert(held_up(rows, list, i, list[q]));
        let h = choose|h: int| i <= h < list.len() && rows[#[trigger] list[h] as int].contains(list[q]);
        assert(feeds(world, done[h], done[q]));
    }
    assert forall|p: int, q: int|
        #![trigger done[p], done[q]]
        free <= p < q < done.len() implies precedes(keys, done[p], done[q]) by {
        assert(list[p] < list[q]);
    }
    assert(queued(world, keys, done, free));
    assert(appended(keys, done, free));
}

proof fn lemma_planned(
    world: World,
    seeds: Seq<Key>,
    keys: Seq<Key>,
    rows: Seq<Seq<usize>>,
    list: Seq<usize>,
    free: int,
    done: Seq<Key>,
)
    requires
        discovered(world, seeds, keys),
        mirrored(world, keys, rows),
        sorted(rows, list, free),
        selected(keys, list, done),
    ensures
        scheduled(world, seeds, done, free),
{
    lemma_planned_once(world, seeds, keys, rows, list, free, done);
    lemma_planned_order(world, seeds, keys, rows, list, free, done);
}

/// Plans the order in which the stats that depend on `seeds` are recomputed.
pub(crate) fn plan(
    graph: &StatGraph,
    seeds: &Vec<(Entity, String)>,
    Ghost(world): Ghost<World>,
) -> (r: (Vec<(Entity, String)>, Ghost<int>))
    requires
        graph.wf(),
        wired(world, *graph),
        world.nodes.dom().finite(),
    ensures
        scheduled(world, keys_of(seeds@), keys_of(r.0@), r.1@),
{
    let found = closure(graph, seeds, Ghost(world));
    let ghost keys = found.keys();
    proof {
        found.lemma_keys();
        assert forall|a: Key, d: Key| found@.contains_key(a) && #[trigger] feeds(world, a, d) implies found@.contains_key(
            d,
        ) by {
            lemma_reached_step(world, keys_of(seeds@), a, d);
        }
    }
    let rows = reader_rows(graph, &found, Ghost(world));
    let (list, free) = sort(&rows);
    let mut order: Vec<(Entity, String)> = Vec::new();
    let mut i: usize = 0;
    while i < list.len()
        invariant
            i <= list@.len(),
            keys == found.keys(),
            forall|p: int| 0 <= p < list@.len() ==> #[trigger] list@[p] < keys.len(),
            keys_of(order@).len() == i,
            forall|p: int| 0 <= p < i ==> #[trigger] keys_of(order@)[p] == keys[list@[p] as int],
        decreases list@.len() - i,
    {
        let key = found.key_at(list[i]);
        let ghost before = keys_of(order@);
        order.push((key.0, key.1.clone()));
        assert(keys_of(order@) =~= before.push(keys[list@[i as int] as int]));
        i = i + 1;
    }
    proof {
        assert(rows.len() <= usize::MAX);
        lemma_planned(world, keys_of(seeds@), keys, rows_of(rows@), list@, free@, keys_of(order@));
    }
    (order, free)
}

proof fn lemma_found_bound(found: PairTable<()>, universe: Set<Key>)
    requires
        found.wf(),
        universe.finite(),
        forall|k: Key| #[trigger] found@.contains_key(k) ==> universe.contains(k),
    ensures
        found.keys().len() <= universe.len(),
{
    found.lemma_keys();
    found.keys().unique_seq_to_set();
    assert(found.keys().to_set().subset_of(universe)) by {
        assert forall|k: Key| found.keys().to_set().contains(k) implies universe.contains(k) by {
            assert(found@.contains_key(k));
        }
    }
    vstd::set_lib::lemma_len_subset(found.keys().to_set(), universe);
}

} // verus!
