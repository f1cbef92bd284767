//! What a timetable stands for: the offsets of one period in ascending order,
//! walked round and round.

use crate::offset::{lemma_wait_reaches_offset, wait_between, PERIOD};
use vstd::arithmetic::div_mod::{lemma_mod_add_multiples_vanish, lemma_small_mod};
use vstd::prelude::*;
use vstd::relations::{sorted_by, total_ordering};
use vstd::seq_lib::{lemma_multiset_commutative, lemma_sorted_unique, to_multiset_contains};

verus! {

/// The order in which offsets come due within one period.
pub open spec fn earlier_or_same() -> spec_fn(u8, u8) -> bool {
    |a: u8, b: u8| a <= b
}

/// No offset of `s` stands before a smaller one.
pub open spec fn is_ascending(s: Seq<u8>) -> bool {
    forall|i: int, j: int| 0 <= i < j < s.len() ==> s[i] <= s[j]
}

/// The offsets of `s` in ascending order, each as often as `s` has it.
pub open spec fn ascending(s: Seq<u8>) -> Seq<u8> {
    s.sort_by(earlier_or_same())
}

/// Whether an offset has passed at `now` in the current period.
pub open spec fn has_passed(now: u8) -> spec_fn(u8) -> bool {
    |offset: u8| offset < now
}

/// Whether an offset is still to come at `now` in the current period.
pub open spec fn remains(now: u8) -> spec_fn(u8) -> bool {
    |offset: u8| offset >= now
}

/// How many offsets of `s` have passed at `now` in the current period.
pub open spec fn passed(s: Seq<u8>, now: u8) -> nat {
    s.filter(has_passed(now)).len()
}

/// The first index at or after `i` whose offset has not passed at `now`; the
/// length of `s` where every offset from `i` on has passed.
pub open spec fn first_due_from(s: Seq<u8>, now: u8, i: int) -> int
    decreases s.len() - i,
{
    if 0 <= i < s.len() && s[i] < now {
        first_due_from(s, now, i + 1)
    } else {
        i
    }
}

/// How many offsets at the head of `s` have passed at `now`.
pub open spec fn first_due(s: Seq<u8>, now: u8) -> int {
    first_due_from(s, now, 0)
}

/// What a timetable stands for: the offsets of one period in ascending order,
/// and the place among them of the offset that comes due next. After the last
/// offset the first one follows.
pub struct Cycle {
    pub offsets: Seq<u8>,
    pub next: int,
}

impl Cycle {
    /// The offsets ascend and `next` is a place among them (0 where there are
    /// none).
    pub open spec fn wf(self) -> bool {
        &&& is_ascending(self.offsets)
        &&& if self.offsets.len() == 0 {
            self.next == 0
        } else {
            0 <= self.next < self.offsets.len()
        }
    }

    /// The offset that comes due next; none where the timetable is empty.
    pub open spec fn head(self) -> Option<u8> {
        if self.offsets.len() == 0 {
            None
        } else {
            Some(self.offsets[self.next])
        }
    }

    /// The cycle once its head has come due.
    pub open spec fn advance(self) -> Cycle {
        if self.offsets.len() == 0 {
            self
        } else {
            Cycle {
                offsets: self.offsets,
                next: if self.next + 1 == self.offsets.len() {
                    0
                } else {
                    self.next + 1
                },
            }
        }
    }

    /// The cycle once `n` offsets have come due.
    pub open spec fn after(self, n: nat) -> Cycle
        decreases n,
    {
        if n == 0 {
            self
        } else {
            self.advance().after((n - 1) as nat)
        }
    }

    /// The offset that comes due once `n` others have; meaningful where the
    /// timetable is not empty.
    pub open spec fn upcoming(self, n: nat) -> u8 {
        self.offsets[(self.next + n) % (self.offsets.len() as int)]
    }
}

/// The cycle that `offsets` make for a job added at position `now`: the
/// offsets in ascending order, starting behind those that have passed in the
/// current period, or at the first of all where every one has passed.
pub open spec fn normalized(offsets: Seq<u8>, now: u8) -> Cycle {
    let table = ascending(offsets);
    let k = passed(table, now);
    Cycle { offsets: table, next: if k < table.len() { k as int } else { 0 } }
}

/// The seconds to wait at position `now` for `head`, where there is one.
pub open spec fn due_in(head: Option<u8>, now: u8) -> Option<u8> {
    match head {
        Some(offset) => Some(wait_between(now as int, offset as int) as u8),
        None => None,
    }
}

/// `ascending` sorts: its result ascends and holds each offset as often as
/// the sequence it was given.
pub proof fn lemma_ascending_sorts(s: Seq<u8>)
    ensures
        is_ascending(ascending(s)),
        ascending(s).to_multiset() == s.to_multiset(),
        ascending(s).len() == s.len(),
{
    lemma_order_is_total();
    s.lemma_sort_by_ensures(earlier_or_same());
    let t = ascending(s);
    assert(is_ascending(t)) by {
        assert forall|i: int, j: int| 0 <= i < j < t.len() implies t[i] <= t[j] by {
            assert(earlier_or_same()(t[i], t[j]));
        }
    }
    s.to_multiset_ensures();
    t.to_multiset_ensures();
}

/// There is one ascending order only: a sequence that ascends and holds the
/// offsets of `s`, each as often as `s`, is `ascending(s)`.
pub proof fn lemma_ascending_unique(s: Seq<u8>, t: Seq<u8>)
    requires
        is_ascending(t),
        t.to_multiset() == s.to_multiset(),
    ensures
        t == ascending(s),
{
    lemma_order_is_total();
    s.lemma_sort_by_ensures(earlier_or_same());
    assert(sorted_by(t, earlier_or_same()));
    lemma_sorted_unique(t, ascending(s), earlier_or_same());
}

/// Sorting keeps a timetable that is sorted already as it is.
pub proof fn lemma_ascending_keeps_sorted(s: Seq<u8>)
    requires
        is_ascending(s),
    ensures
        ascending(s) == s,
{
    lemma_ascending_unique(s, s);
}

/// `first_due` counts exactly the leading offsets that have passed: every
/// offset before it is behind `now`, and the offset at it, where there is one,
/// is not.
pub proof fn lemma_first_due(s: Seq<u8>, now: u8)
    ensures
        0 <= first_due(s, now) <= s.len(),
        forall|i: int| 0 <= i < first_due(s, now) ==> s[i] < now,
        first_due(s, now) < s.len() ==> s[first_due(s, now)] >= now,
{
    lemma_first_due_from(s, now, 0);
}

proof fn lemma_first_due_from(s: Seq<u8>, now: u8, i: int)
    requires
        0 <= i <= s.len(),
    ensures
        i <= first_due_from(s, now, i) <= s.len(),
        forall|j: int| i <= j < first_due_from(s, now, i) ==> s[j] < now,
        first_due_from(s, now, i) < s.len() ==> s[first_due_from(s, now, i)] >= now,
    decreases s.len() - i,
{
    if i < s.len() && s[i] < now {
        lemma_first_due_from(s, now, i + 1);
    }
}

/// A normalized timetable is well formed, whatever the offsets and the
/// position it was made at.
pub proof fn lemma_normalized_wf(offsets: Seq<u8>, now: u8)
    ensures
        normalized(offsets, now).wf(),
        normalized(offsets, now).offsets.len() == offsets.len(),
{
    lemma_ascending_sorts(offsets);
    lemma_passed_stand_first(ascending(offsets), now);
}

/// A timetable that is sorted already keeps its order when it is normalized,
/// and sorting twice changes nothing.
pub proof fn lemma_normalized_keeps_sorted(offsets: Seq<u8>, now: u8)
    ensures
        is_ascending(offsets) ==> normalized(offsets, now).offsets == offsets,
        ascending(ascending(offsets)) == ascending(offsets),
{
    if is_ascending(offsets) {
        lemma_ascending_keeps_sorted(offsets);
    }
    lemma_ascending_sorts(offsets);
    lemma_ascending_keeps_sorted(ascending(offsets));
}

/// In an ascending timetable the offsets that have passed at `now` stand
/// first and those that remain stand behind them: `first_due` is where the
/// timetable parts, and it counts the offsets that have passed.
pub proof fn lemma_passed_stand_first(table: Seq<u8>, now: u8)
    requires
        is_ascending(table),
    ensures
        first_due(table, now) == passed(table, now),
        passed(table, now) <= table.len(),
        table.take(passed(table, now) as int) == table.filter(has_passed(now)),
        table.skip(passed(table, now) as int) == table.filter(remains(now)),
{
    let k = first_due(table, now);
    let gone = table.take(k);
    let rest = table.skip(k);
    lemma_first_due(table, now);
    assert(table =~= gone + rest);
    Seq::filter_distributes_over_add(gone, rest, has_passed(now));
    Seq::filter_distributes_over_add(gone, rest, remains(now));
    assert forall|i: int| 0 <= i < rest.len() implies rest[i] >= now by {
        assert(table[k] <= table[k + i]);
    }
    lemma_filter_keeps_all(gone, has_passed(now));
    lemma_filter_drops_all(rest, has_passed(now));
    lemma_filter_drops_all(gone, remains(now));
    lemma_filter_keeps_all(rest, remains(now));
    assert(gone + Seq::<u8>::empty() =~= gone);
    assert(Seq::<u8>::empty() + rest =~= rest);
    assert(gone.len() == k);
}

proof fn lemma_filter_keeps_all(s: Seq<u8>, pred: spec_fn(u8) -> bool)
    requires
        forall|i: int| 0 <= i < s.len() ==> pred(s[i]),
    ensures
        s.filter(pred) == s,
    decreases s.len(),
{
    reveal(Seq::filter);
    if s.len() > 0 {
        lemma_filter_keeps_all(s.drop_last(), pred);
        assert(s.drop_last().push(s.last()) =~= s);
    }
}

proof fn lemma_filter_drops_all(s: Seq<u8>, pred: spec_fn(u8) -> bool)
    requires
        forall|i: int| 0 <= i < s.len() ==> !pred(s[i]),
    ensures
        s.filter(pred) == Seq::<u8>::empty(),
    decreases s.len(),
{
    reveal(Seq::filter);
    if s.len() > 0 {
        lemma_filter_drops_all(s.drop_last(), pred);
    }
}

/// The order in which a normalized timetable comes due: first the offsets
/// that remain at `now`, in ascending order, then all offsets in ascending
/// order, again and again, without end.
pub proof fn lemma_normalized_order(offsets: Seq<u8>, now: u8, n: nat)
    requires
        offsets.len() > 0,
    ensures
        normalized(offsets, now).after(n).head() == Some(normalized(offsets, now).upcoming(n)),
        ({
            let table = ascending(offsets);
            let remaining = table.filter(remains(now));
            normalized(offsets, now).upcoming(n) == if n < remaining.len() {
                remaining[n as int]
            } else {
                table[(n - remaining.len()) % (table.len() as int)]
            }
        }),
{
    let table = ascending(offsets);
    let len = table.len() as int;
    let k = first_due(table, now);
    lemma_ascending_sorts(offsets);
    lemma_first_due(table, now);
    lemma_passed_stand_first(table, now);
    lemma_after(normalized(offsets, now), n);
    assert(table.skip(k).len() == len - k);
    if n < len - k {
        lemma_small_mod((k + n) as nat, len as nat);
    } else if k < len {
        lemma_mod_add_multiples_vanish(n - (len - k), len);
    }
}

/// What comes due once `n` offsets have come due one by one: the timetable is
/// the same, and its head is the offset `n` places on, counted round.
pub proof fn lemma_after(cycle: Cycle, n: nat)
    requires
        cycle.wf(),
        cycle.offsets.len() > 0,
    ensures
        cycle.after(n).wf(),
        cycle.after(n).offsets == cycle.offsets,
        cycle.after(n).next == (cycle.next + n) % (cycle.offsets.len() as int),
        cycle.after(n).head() == Some(cycle.upcoming(n)),
    decreases n,
{
    let len = cycle.offsets.len() as int;
    if n == 0 {
        lemma_small_mod(cycle.next as nat, len as nat);
    } else {
        lemma_after(cycle.advance(), (n - 1) as nat);
        if cycle.next + 1 == len {
            lemma_mod_add_multiples_vanish(n - 1, len);
        }
    }
}

/// A job without offsets never comes due, however often it is asked.
pub proof fn lemma_empty_never_due(offsets: Seq<u8>, now: u8, n: nat)
    requires
        offsets.len() == 0,
    ensures
        normalized(offsets, now).after(n).head() is None,
{
    lemma_normalized_wf(offsets, now);
    lemma_empty_stays(normalized(offsets, now), n);
}

proof fn lemma_empty_stays(cycle: Cycle, n: nat)
    requires
        cycle.offsets.len() == 0,
    ensures
        cycle.after(n) == cycle,
    decreases n,
{
    if n > 0 {
        lemma_empty_stays(cycle, (n - 1) as nat);
    }
}

/// Whether some offset of `offsets` has not passed at `now`.
pub open spec fn some_remaining(offsets: Seq<u8>, now: u8) -> bool {
    exists|i: int| 0 <= i < offsets.len() && offsets[i] >= now
}

/// Where every offset and `now` lie within the period, the first wait of a
/// normalized timetable, added to `now`, is the smallest offset that has not
/// passed; where all have passed, it is the smallest offset of all, one
/// period on.
pub proof fn lemma_first_wait_reaches_next_offset(offsets: Seq<u8>, now: u8)
    requires
        offsets.len() > 0,
        forall|i: int| 0 <= i < offsets.len() ==> offsets[i] < PERIOD,
        now < PERIOD,
    ensures
        normalized(offsets, now).head() is Some,
        ({
            let first = normalized(offsets, now).head().unwrap();
            let wait = wait_between(now as int, first as int);
            &&& offsets.contains(first)
            &&& 0 <= wait < PERIOD
            &&& some_remaining(offsets, now) ==> {
                &&& first >= now
                &&& forall|i: int| 0 <= i < offsets.len() && offsets[i] >= now ==> first <= offsets[i]
                &&& now + wait == first
            }
            &&& !some_remaining(offsets, now) ==> {
                &&& forall|i: int| 0 <= i < offsets.len() ==> first <= offsets[i]
                &&& now + wait == first + PERIOD
            }
        }),
{
    let table = ascending(offsets);
    let k = first_due(table, now);
    let first = normalized(offsets, now).head().unwrap();
    lemma_ascending_sorts(offsets);
    lemma_first_due(table, now);
    lemma_passed_stand_first(table, now);
    lemma_same_offsets(offsets, table);
    assert(table.contains(first));
    assert forall|i: int| 0 <= i < offsets.len() && (k == table.len() || offsets[i] >= now) implies first
        <= offsets[i] by {
        assert(table.contains(offsets[i]));
        let j = choose|j: int| 0 <= j < table.len() && table[j] == offsets[i];
        assert(k == table.len() || j >= k);
    }
    if some_remaining(offsets, now) {
        let i = choose|i: int| 0 <= i < offsets.len() && offsets[i] >= now;
        assert(table.contains(offsets[i]));
        assert(k < table.len());
    } else {
        if k < table.len() {
            let i = choose|i: int| 0 <= i < offsets.len() && offsets[i] == table[k];
            assert(offsets[i] >= now);
        }
    }
}

/// The wait at position `now` for an offset.
pub open spec fn wait_at(now: u8) -> spec_fn(u8) -> int {
    |offset: u8| wait_between(now as int, offset as int)
}

/// The offsets that come due in the first round of a cycle: as many as the
/// cycle has, from its head on.
pub open spec fn first_round(cycle: Cycle) -> Seq<u8> {
    Seq::new(cycle.offsets.len(), |n: int| cycle.upcoming(n as nat))
}

/// Where every offset and `now` lie within the period and the clock stands
/// at `now`, the waits of the first round of a normalized timetable ascend,
/// and they are the waits for the given offsets in another order: each
/// offset comes due once in the round, the soonest first.
pub proof fn lemma_first_round_of_waits(offsets: Seq<u8>, now: u8)
    requires
        offsets.len() > 0,
        forall|i: int| 0 <= i < offsets.len() ==> offsets[i] < PERIOD,
        now < PERIOD,
    ensures
        ({
            let waits = first_round(normalized(offsets, now)).map_values(wait_at(now));
            &&& waits.len() == offsets.len()
            &&& forall|i: int, j: int| 0 <= i <= j < waits.len() ==> waits[i] <= waits[j]
            &&& waits.to_multiset() == offsets.map_values(wait_at(now)).to_multiset()
        }),
{
    let table = ascending(offsets);
    let cycle = normalized(offsets, now);
    let round = first_round(cycle);
    lemma_ascending_sorts(offsets);
    lemma_normalized_wf(offsets, now);
    lemma_round_is_turned(cycle);
    lemma_map_keeps_multiset(round, offsets, wait_at(now));
    lemma_round_waits_ascend(offsets, now);
}

/// The first round of a cycle is its timetable turned round to its head: it
/// holds each offset as often as the timetable.
proof fn lemma_round_is_turned(cycle: Cycle)
    requires
        cycle.wf(),
        cycle.offsets.len() > 0,
    ensures
        first_round(cycle) == cycle.offsets.skip(cycle.next) + cycle.offsets.take(cycle.next),
        first_round(cycle).to_multiset() == cycle.offsets.to_multiset(),
{
    let table = cycle.offsets;
    let len = table.len() as int;
    let k = cycle.next;
    let round = first_round(cycle);
    assert forall|i: int| 0 <= i < len implies round[i] == (if i < len - k {
        table[k + i]
    } else {
        table[i - (len - k)]
    }) by {
        if i < len - k {
            lemma_small_mod((k + i) as nat, len as nat);
        } else {
            lemma_mod_add_multiples_vanish(i - (len - k), len);
            lemma_small_mod((i - (len - k)) as nat, len as nat);
        }
    }
    assert(round =~= table.skip(k) + table.take(k));
    assert(table =~= table.take(k) + table.skip(k));
    lemma_multiset_commutative(table.skip(k), table.take(k));
    lemma_multiset_commutative(table.take(k), table.skip(k));
    assert(table.skip(k).to_multiset().add(table.take(k).to_multiset()) =~= table.take(
        k,
    ).to_multiset().add(table.skip(k).to_multiset()));
}

/// In the first round the offsets that remain at `now` come first, in
/// ascending order, and those that have passed follow, in ascending order,
/// one period on: the waits ascend.
proof fn lemma_round_waits_ascend(offsets: Seq<u8>, now: u8)
    requires
        offsets.len() > 0,
        forall|i: int| 0 <= i < offsets.len() ==> offsets[i] < PERIOD,
        now < PERIOD,
    ensures
        ({
            let waits = first_round(normalized(offsets, now)).map_values(wait_at(now));
            forall|i: int, j: int| 0 <= i <= j < waits.len() ==> waits[i] <= waits[j]
        }),
{
    let table = ascending(offsets);
    let len = table.len() as int;
    let cycle = normalized(offsets, now);
    let k = cycle.next;
    let round = first_round(cycle);
    let waits = round.map_values(wait_at(now));
    lemma_ascending_sorts(offsets);
    lemma_normalized_wf(offsets, now);
    lemma_first_due(table, now);
    lemma_passed_stand_first(table, now);
    lemma_same_offsets(offsets, table);
    lemma_round_is_turned(cycle);
    assert forall|i: int| 0 <= i < len implies table[i] < PERIOD by {
        assert(table.contains(table[i]));
    }
    assert forall|i: int| 0 <= i < len implies #[trigger] waits[i] == (if i < len - k {
        if first_due(table, now) < len {
            table[k + i] - now
        } else {
            table[k + i] + PERIOD - now
        }
    } else {
        table[i - (len - k)] + PERIOD - now
    }) by {
        lemma_wait_reaches_offset(now as int, round[i] as int);
        if i < len - k {
            assert(round[i] == table[k + i]);
            if first_due(table, now) < len {
                assert(table[k] <= table[k + i]);
            }
        } else {
            assert(round[i] == table[i - (len - k)]);
        }
    }
    assert forall|i: int, j: int| 0 <= i <= j < waits.len() implies waits[i] <= waits[j] by {
        if j < len - k {
            assert(i == j || table[k + i] <= table[k + j]);
        } else if i >= len - k {
            assert(i == j || table[i - (len - k)] <= table[j - (len - k)]);
        }
    }
}

/// Two sequences that hold each offset equally often give, offset by offset,
/// values that each occur equally often.
proof fn lemma_map_keeps_multiset(s: Seq<u8>, t: Seq<u8>, f: spec_fn(u8) -> int)
    requires
        s.to_multiset() == t.to_multiset(),
    ensures
        s.map_values(f).to_multiset() == t.map_values(f).to_multiset(),
    decreases s.len(),
{
    let mapped_s = s.map_values(f);
    let mapped_t = t.map_values(f);
    s.to_multiset_ensures();
    t.to_multiset_ensures();
    if s.len() == 0 {
        assert(mapped_s =~= mapped_t);
    } else {
        let last = s.len() - 1;
        let x = s[last];
        to_multiset_contains(s, x);
        to_multiset_contains(t, x);
        let j = choose|j: int| 0 <= j < t.len() && t[j] == x;
        lemma_map_keeps_multiset(s.remove(last), t.remove(j), f);
        mapped_s.to_multiset_ensures();
        mapped_t.to_multiset_ensures();
        assert(mapped_s.remove(last) =~= s.remove(last).map_values(f));
        assert(mapped_t.remove(j) =~= t.remove(j).map_values(f));
        let y = f(x);
        assert(mapped_s[last] == y && mapped_t[j] == y);
        to_multiset_contains(mapped_s, y);
        to_multiset_contains(mapped_t, y);
        assert(mapped_s.to_multiset().remove(y) == mapped_t.to_multiset().remove(y));
        assert(mapped_s.to_multiset() =~= mapped_t.to_multiset()) by {
            assert forall|v: int|
                mapped_s.to_multiset().count(v) == mapped_t.to_multiset().count(v) by {
                assert(mapped_s.to_multiset().remove(y).count(v) == mapped_t.to_multiset().remove(
                    y,
                ).count(v));
            }
        }
    }
}

/// Two sequences that hold each offset equally often hold the same offsets.
proof fn lemma_same_offsets(s: Seq<u8>, t: Seq<u8>)
    requires
        s.to_multiset() == t.to_multiset(),
    ensures
        forall|x: u8| s.contains(x) <==> t.contains(x),
{
    assert forall|x: u8| s.contains(x) <==> t.contains(x) by {
        to_multiset_contains(s, x);
        to_multiset_contains(t, x);
    }
}

proof fn lemma_order_is_total()
    ensures
        total_ordering(earlier_or_same()),
{
}

} // verus!
