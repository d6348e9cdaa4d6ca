//! Ranking and report building.
//!
//! A ranked report reads all counter rows, keeps those whose id the caller
//! still lists as valid (the store may hold stale ids), drops rows with
//! zero reactions when ranking by reactions, sorts stably by the requested
//! counter and direction (ties keep row order), and cuts the result to a
//! fixed maximum. The zero-uses report instead lists catalog emotes that
//! have no row at all. Neither report mutates the store.

use vstd::prelude::*;

use crate::emote::EmoteRef;
use crate::emote::EmoteStats;
use crate::emote::RefView;
use crate::emote::StatsView;
use crate::parse::refs_view;
use crate::store::Store;
use crate::store::has_id;

verus! {

/// Most rows a ranked (top or bottom) report may hold.
pub const RANKED_MAX: usize = 14;

/// Most rows a zero-uses report may hold.
pub const ZERO_MAX: usize = 24;

/// Which counter a ranking reads.
#[derive(Clone, Copy, PartialEq, Eq, Structural)]
pub enum Metric {
    Uses,
    Reacts,
}

/// Whether the largest or the smallest counter comes first.
#[derive(Clone, Copy, PartialEq, Eq, Structural)]
pub enum Direction {
    Descending,
    Ascending,
}

/// The rows of a report vector, as mathematical values.
pub open spec fn rows_view(s: Seq<EmoteStats>) -> Seq<StatsView> {
    s.map_values(|r: EmoteStats| r@)
}

/// The counter a row shows under a metric.
pub open spec fn metric_of(m: Metric, r: StatsView) -> u64 {
    match m {
        Metric::Uses => r.uses,
        Metric::Reacts => r.reacts,
    }
}

/// Strict "comes earlier in the report" order of the requested direction.
pub open spec fn ranks_before(m: Metric, dir: Direction, a: StatsView, b: StatsView) -> bool {
    match dir {
        Direction::Descending => metric_of(m, a) > metric_of(m, b),
        Direction::Ascending => metric_of(m, a) < metric_of(m, b),
    }
}

/// Insert a row into a ranked list: it goes in front of the first row it
/// strictly outranks, hence after every tie — the sort stays stable.
pub open spec fn rank_insert(
    m: Metric,
    dir: Direction,
    s: Seq<StatsView>,
    r: StatsView,
) -> Seq<StatsView>
    decreases s.len(),
{
    if s.len() == 0 {
        seq![r]
    } else if ranks_before(m, dir, r, s.first()) {
        seq![r] + s
    } else {
        seq![s.first()] + rank_insert(m, dir, s.drop_first(), r)
    }
}

/// Stable insertion sort by the requested counter and direction.
pub open spec fn rank_sort(m: Metric, dir: Direction, s: Seq<StatsView>) -> Seq<StatsView>
    decreases s.len(),
{
    if s.len() == 0 {
        Seq::empty()
    } else {
        rank_insert(m, dir, rank_sort(m, dir, s.drop_last()), s.last())
    }
}

/// A row qualifies for a ranking when the caller still lists its id and,
/// under the reactions metric, it has been reacted to at least once.
pub open spec fn qualifies(m: Metric, valid: Seq<u64>, r: StatsView) -> bool {
    valid.contains(r.id) && (m == Metric::Reacts ==> r.reacts > 0)
}

/// The qualifying rows of a store, in row order.
pub open spec fn pick_rows(m: Metric, valid: Seq<u64>, s: Seq<StatsView>) -> Seq<StatsView>
    decreases s.len(),
{
    if s.len() == 0 {
        Seq::empty()
    } else {
        let rest = pick_rows(m, valid, s.drop_last());
        if qualifies(m, valid, s.last()) {
            rest.push(s.last())
        } else {
            rest
        }
    }
}

/// The ranked report of a store: qualifying rows, stably sorted, cut to
/// the first [`RANKED_MAX`].
pub open spec fn spec_ranked(
    s: Seq<StatsView>,
    m: Metric,
    dir: Direction,
    valid: Seq<u64>,
) -> Seq<StatsView> {
    let sorted = rank_sort(m, dir, pick_rows(m, valid, s));
    if sorted.len() <= RANKED_MAX {
        sorted
    } else {
        sorted.take(RANKED_MAX as int)
    }
}

/// The catalog emotes with no row in the store, in catalog order.
pub open spec fn pick_missing(catalog: Seq<RefView>, s: Seq<StatsView>) -> Seq<RefView>
    decreases catalog.len(),
{
    if catalog.len() == 0 {
        Seq::empty()
    } else {
        let rest = pick_missing(catalog.drop_last(), s);
        if !has_id(s, catalog.last().id) {
            rest.push(catalog.last())
        } else {
            rest
        }
    }
}

/// The zero-uses report: catalog emotes with no row in the store, in
/// catalog order, cut to the first [`ZERO_MAX`].
pub open spec fn spec_zero(catalog: Seq<RefView>, s: Seq<StatsView>) -> Seq<RefView> {
    let missing = pick_missing(catalog, s);
    if missing.len() <= ZERO_MAX {
        missing
    } else {
        missing.take(ZERO_MAX as int)
    }
}

/// Every picked row qualifies and stands in the store.
pub proof fn lemma_pick_rows_props(m: Metric, valid: Seq<u64>, s: Seq<StatsView>)
    ensures
        pick_rows(m, valid, s).len() <= s.len(),
        forall|k: int|
            0 <= k < pick_rows(m, valid, s).len() ==> qualifies(
                m,
                valid,
                #[trigger] pick_rows(m, valid, s)[k],
            ) && exists|w: int| 0 <= w < s.len() && s[w] == pick_rows(m, valid, s)[k],
    decreases s.len(),
{
    if s.len() > 0 {
        let pre = s.drop_last();
        lemma_pick_rows_props(m, valid, pre);
        let out = pick_rows(m, valid, s);
        assert forall|k: int| 0 <= k < out.len() implies qualifies(m, valid, #[trigger] out[k])
            && exists|w: int| 0 <= w < s.len() && s[w] == out[k] by {
            if k < pick_rows(m, valid, pre).len() {
                assert(out[k] == pick_rows(m, valid, pre)[k]);
                let w0 = choose|w0: int| 0 <= w0 < pre.len() && pre[w0] == out[k];
                assert(s[w0] == out[k]);
            } else {
                assert(out[k] == s.last());
                assert(s[s.len() - 1] == out[k]);
            }
        }
    }
}

/// Every listed catalog emote is truly absent from the store.
pub proof fn lemma_pick_missing_props(catalog: Seq<RefView>, s: Seq<StatsView>)
    ensures
        pick_missing(catalog, s).len() <= catalog.len(),
        forall|k: int|
            0 <= k < pick_missing(catalog, s).len() ==> !has_id(
                s,
                #[trigger] pick_missing(catalog, s)[k].id,
            ),
    decreases catalog.len(),
{
    if catalog.len() > 0 {
        lemma_pick_missing_props(catalog.drop_last(), s);
    }
}

/// What every ranked report satisfies: it is no longer than the cut, every
/// row of it qualifies, and no row strictly outranks an earlier one.
pub proof fn lemma_spec_ranked_props(s: Seq<StatsView>, m: Metric, dir: Direction, valid: Seq<u64>)
    ensures
        spec_ranked(s, m, dir, valid).len() <= RANKED_MAX,
        forall|k: int|
            0 <= k < spec_ranked(s, m, dir, valid).len() ==> qualifies(
                m,
                valid,
                #[trigger] spec_ranked(s, m, dir, valid)[k],
            ),
        forall|i: int, j: int|
            0 <= i < j < spec_ranked(s, m, dir, valid).len() ==> !ranks_before(
                m,
                dir,
                #[trigger] spec_ranked(s, m, dir, valid)[j],
                #[trigger] spec_ranked(s, m, dir, valid)[i],
            ),
{
    let picked = pick_rows(m, valid, s);
    let sorted = rank_sort(m, dir, picked);
    let out = spec_ranked(s, m, dir, valid);
    lemma_pick_rows_props(m, valid, s);
    lemma_rank_sort_props(m, dir, picked);
    assert(forall|k: int| 0 <= k < out.len() ==> out[k] == sorted[k]);
    assert forall|k: int| 0 <= k < out.len() implies qualifies(m, valid, #[trigger] out[k]) by {
        assert(out[k] == sorted[k]);
        let w = choose|w: int| 0 <= w < picked.len() && picked[w] == sorted[k];
        assert(qualifies(m, valid, picked[w]));
    }
}

/// `rank_insert` drops the row into the position in front of the first row
/// it strictly outranks.
pub proof fn lemma_rank_insert_at(m: Metric, dir: Direction, s: Seq<StatsView>, r: StatsView, j: int)
    requires
        0 <= j <= s.len(),
        forall|i: int| 0 <= i < j ==> !ranks_before(m, dir, r, s[i]),
        j < s.len() ==> ranks_before(m, dir, r, s[j]),
    ensures
        rank_insert(m, dir, s, r) == s.insert(j, r),
    decreases s.len(),
{
    if s.len() == 0 {
        assert(rank_insert(m, dir, s, r) =~= s.insert(j, r));
    } else if ranks_before(m, dir, r, s.first()) {
        assert(j == 0);
        assert(rank_insert(m, dir, s, r) =~= s.insert(0, r));
    } else {
        assert(j >= 1);
        let rest = s.drop_first();
        assert(forall|i: int| 0 <= i < j - 1 ==> rest[i] == s[i + 1]);
        assert(j - 1 < rest.len() ==> rest[j - 1] == s[j]);
        lemma_rank_insert_at(m, dir, rest, r, j - 1);
        assert(seq![s.first()] + rest.insert(j - 1, r) =~= s.insert(j, r));
    }
}

/// Inserting keeps a ranked list ranked and grows it by the one row.
pub proof fn lemma_rank_insert_sorted(m: Metric, dir: Direction, s: Seq<StatsView>, r: StatsView)
    requires
        forall|i: int, j: int| 0 <= i < j < s.len() ==> !ranks_before(m, dir, #[trigger] s[j], #[trigger] s[i]),
    ensures
        rank_insert(m, dir, s, r).len() == s.len() + 1,
        forall|i: int, j: int|
            0 <= i < j < rank_insert(m, dir, s, r).len() ==> !ranks_before(
                m,
                dir,
                #[trigger] rank_insert(m, dir, s, r)[j],
                #[trigger] rank_insert(m, dir, s, r)[i],
            ),
    decreases s.len(),
{
    let out = rank_insert(m, dir, s, r);
    if s.len() == 0 {
    } else if ranks_before(m, dir, r, s.first()) {
        assert forall|i: int, j: int| 0 <= i < j < out.len() implies !ranks_before(
            m,
            dir,
            out[j],
            out[i],
        ) by {
            if i == 0 {
                if j >= 1 {
                    assert(out[j] == s[j - 1]);
                    if ranks_before(m, dir, out[j], r) {
                        if j - 1 > 0 {
                            assert(!ranks_before(m, dir, s[j - 1], s[0]));
                        }
                    }
                }
            } else {
                assert(out[i] == s[i - 1]);
                assert(out[j] == s[j - 1]);
            }
        }
    } else {
        let rest = s.drop_first();
        assert(forall|i: int, j: int|
            0 <= i < j < rest.len() ==> !ranks_before(m, dir, #[trigger] rest[j], #[trigger] rest[i]));
        lemma_rank_insert_sorted(m, dir, rest, r);
        let sub = rank_insert(m, dir, rest, r);
        assert(out =~= seq![s.first()] + sub);
        assert forall|i: int, j: int| 0 <= i < j < out.len() implies !ranks_before(
            m,
            dir,
            out[j],
            out[i],
        ) by {
            if i == 0 {
                assert(out[0] == s.first());
                assert(out[j] == sub[j - 1]);
                // every row of `sub` is a row of `rest` or is `r`, and none
                // of them strictly outranks the head
                lemma_rank_insert_membership(m, dir, rest, r, j - 1);
                if ranks_before(m, dir, out[j], s.first()) {
                    if sub[j - 1] == r {
                        assert(!ranks_before(m, dir, r, s.first()));
                    } else {
                        let w = choose|w: int| 0 <= w < rest.len() && rest[w] == sub[j - 1];
                        assert(rest[w] == s[w + 1]);
                        assert(!ranks_before(m, dir, s[w + 1], s[0]));
                    }
                }
            } else {
                assert(out[i] == sub[i - 1]);
                assert(out[j] == sub[j - 1]);
            }
        }
    }
}

/// Inserting grows the list by exactly the one row.
pub proof fn lemma_rank_insert_len(m: Metric, dir: Direction, s: Seq<StatsView>, r: StatsView)
    ensures
        rank_insert(m, dir, s, r).len() == s.len() + 1,
    decreases s.len(),
{
    if s.len() == 0 {
    } else if ranks_before(m, dir, r, s.first()) {
    } else {
        lemma_rank_insert_len(m, dir, s.drop_first(), r);
    }
}

/// Each row of an insertion result is the inserted row or one of the
/// list's rows.
pub proof fn lemma_rank_insert_membership(
    m: Metric,
    dir: Direction,
    s: Seq<StatsView>,
    r: StatsView,
    k: int,
)
    requires
        0 <= k < rank_insert(m, dir, s, r).len(),
    ensures
        rank_insert(m, dir, s, r).len() == s.len() + 1,
        rank_insert(m, dir, s, r)[k] == r || exists|w: int|
            0 <= w < s.len() && s[w] == rank_insert(m, dir, s, r)[k],
    decreases s.len(),
{
    lemma_rank_insert_len(m, dir, s, r);
    let out = rank_insert(m, dir, s, r);
    if s.len() == 0 {
    } else if ranks_before(m, dir, r, s.first()) {
        if k >= 1 {
            assert(out[k] == s[k - 1]);
        }
    } else {
        if k >= 1 {
            let rest = s.drop_first();
            lemma_rank_insert_membership(m, dir, rest, r, k - 1);
            let sub = rank_insert(m, dir, rest, r);
            assert(out[k] == sub[k - 1]);
            if sub[k - 1] != r {
                let w = choose|w: int| 0 <= w < rest.len() && rest[w] == sub[k - 1];
                assert(s[w + 1] == sub[k - 1]);
            }
        } else {
            assert(out[0] == s[0]);
        }
    }
}

/// A sorted run of qualifying rows: every row of the sort comes from the
/// input, the length is kept, and the order respects the direction.
pub proof fn lemma_rank_sort_props(m: Metric, dir: Direction, s: Seq<StatsView>)
    ensures
        rank_sort(m, dir, s).len() == s.len(),
        forall|k: int|
            0 <= k < s.len() ==> exists|w: int|
                0 <= w < s.len() && s[w] == #[trigger] rank_sort(m, dir, s)[k],
        forall|i: int, j: int|
            0 <= i < j < s.len() ==> !ranks_before(
                m,
                dir,
                #[trigger] rank_sort(m, dir, s)[j],
                #[trigger] rank_sort(m, dir, s)[i],
            ),
    decreases s.len(),
{
    if s.len() > 0 {
        let pre = s.drop_last();
        lemma_rank_sort_props(m, dir, pre);
        let sorted_pre = rank_sort(m, dir, pre);
        assert(forall|i: int, j: int|
            0 <= i < j < sorted_pre.len() ==> !ranks_before(
                m,
                dir,
                #[trigger] sorted_pre[j],
                #[trigger] sorted_pre[i],
            ));
        lemma_rank_insert_sorted(m, dir, sorted_pre, s.last());
        let out = rank_sort(m, dir, s);
        assert forall|k: int| 0 <= k < s.len() implies exists|w: int|
            0 <= w < s.len() && s[w] == #[trigger] out[k] by {
            lemma_rank_insert_membership(m, dir, sorted_pre, s.last(), k);
            if out[k] == s.last() {
                assert(s[s.len() - 1] == out[k]);
            } else {
                let w0 = choose|w0: int| 0 <= w0 < sorted_pre.len() && sorted_pre[w0] == out[k];
                let w1 = choose|w1: int| 0 <= w1 < pre.len() && pre[w1] == sorted_pre[w0];
                assert(s[w1] == out[k]);
            }
        }
    }
}

/// The rows showing counter value `v` under a metric, in order.
pub open spec fn with_value(m: Metric, v: u64, s: Seq<StatsView>) -> Seq<StatsView>
    decreases s.len(),
{
    if s.len() == 0 {
        Seq::empty()
    } else if metric_of(m, s.first()) == v {
        seq![s.first()] + with_value(m, v, s.drop_first())
    } else {
        with_value(m, v, s.drop_first())
    }
}

/// Pushing a row extends its own value class at the back and no other.
proof fn lemma_with_value_push(m: Metric, v: u64, s: Seq<StatsView>, x: StatsView)
    ensures
        metric_of(m, x) == v ==> with_value(m, v, s.push(x)) == with_value(m, v, s).push(x),
        metric_of(m, x) != v ==> with_value(m, v, s.push(x)) == with_value(m, v, s),
    decreases s.len(),
{
    if s.len() == 0 {
        let sp = s.push(x);
        assert(sp.first() == x);
        assert(sp.drop_first() =~= Seq::<StatsView>::empty());
        assert(with_value(m, v, sp.drop_first()) == Seq::<StatsView>::empty());
        assert(with_value(m, v, s) == Seq::<StatsView>::empty());
        if metric_of(m, x) == v {
            assert(with_value(m, v, sp) == seq![x] + Seq::<StatsView>::empty());
            assert(seq![x] + Seq::<StatsView>::empty() =~= Seq::<StatsView>::empty().push(x));
        }
    } else {
        let sp = s.push(x);
        assert(sp.first() == s.first());
        assert(sp.drop_first() =~= s.drop_first().push(x));
        lemma_with_value_push(m, v, s.drop_first(), x);
        assert(with_value(m, v, sp.drop_first()) == with_value(m, v, s.drop_first().push(x)));
        if metric_of(m, s.first()) == v && metric_of(m, x) == v {
            assert(seq![s.first()] + with_value(m, v, s.drop_first()).push(x) =~= (seq![s.first()]
                + with_value(m, v, s.drop_first())).push(x));
        }
    }
}

/// A value no row shows has an empty class.
proof fn lemma_with_value_absent(m: Metric, v: u64, s: Seq<StatsView>)
    requires
        forall|k: int| 0 <= k < s.len() ==> metric_of(m, #[trigger] s[k]) != v,
    ensures
        with_value(m, v, s) == Seq::<StatsView>::empty(),
    decreases s.len(),
{
    if s.len() > 0 {
        assert(metric_of(m, s.first()) != v) by {
            assert(metric_of(m, s[0]) != v);
        }
        assert forall|k: int| 0 <= k < s.drop_first().len() implies metric_of(
            m,
            #[trigger] s.drop_first()[k],
        ) != v by {
            assert(s.drop_first()[k] == s[k + 1]);
        }
        lemma_with_value_absent(m, v, s.drop_first());
    }
}

/// Inserting into a ranked list puts the row at the back of its own value
/// class and leaves every other class alone.
proof fn lemma_rank_insert_stable(
    m: Metric,
    dir: Direction,
    s: Seq<StatsView>,
    r: StatsView,
    v: u64,
)
    requires
        forall|i: int, j: int| 0 <= i < j < s.len() ==> !ranks_before(m, dir, #[trigger] s[j], #[trigger] s[i]),
    ensures
        metric_of(m, r) == v ==> with_value(m, v, rank_insert(m, dir, s, r)) == with_value(
            m,
            v,
            s,
        ).push(r),
        metric_of(m, r) != v ==> with_value(m, v, rank_insert(m, dir, s, r)) == with_value(m, v, s),
    decreases s.len(),
{
    let out = rank_insert(m, dir, s, r);
    if s.len() == 0 {
        assert(out == seq![r]);
        assert(out.first() == r);
        assert(out.drop_first() =~= Seq::<StatsView>::empty());
        assert(with_value(m, v, out.drop_first()) == Seq::<StatsView>::empty());
        assert(with_value(m, v, s) == Seq::<StatsView>::empty());
        if metric_of(m, r) == v {
            assert(with_value(m, v, out) == seq![r] + Seq::<StatsView>::empty());
            assert(seq![r] + Seq::<StatsView>::empty() =~= with_value(m, v, s).push(r));
        }
    } else if ranks_before(m, dir, r, s.first()) {
        assert(out == seq![r] + s);
        assert(out.first() == r);
        assert(out.drop_first() =~= s);
        assert(with_value(m, v, out.drop_first()) == with_value(m, v, s));
        if metric_of(m, r) == v {
            assert forall|k: int| 0 <= k < s.len() implies metric_of(m, #[trigger] s[k]) != v by {
                if k > 0 {
                    assert(!ranks_before(m, dir, s[k], s[0]));
                }
            }
            lemma_with_value_absent(m, v, s);
            assert(seq![r] + Seq::<StatsView>::empty() =~= with_value(m, v, s).push(r));
        }
    } else {
        let rest = s.drop_first();
        assert forall|i: int, j: int| 0 <= i < j < rest.len() implies !ranks_before(
            m,
            dir,
            #[trigger] rest[j],
            #[trigger] rest[i],
        ) by {
            assert(rest[i] == s[i + 1]);
            assert(rest[j] == s[j + 1]);
        }
        lemma_rank_insert_stable(m, dir, rest, r, v);
        let sub = rank_insert(m, dir, rest, r);
        assert(out == seq![s.first()] + sub);
        lemma_rank_insert_len(m, dir, rest, r);
        assert(out.first() == s.first());
        assert(out.drop_first() =~= sub);
        assert(with_value(m, v, out.drop_first()) == with_value(m, v, sub));
        if metric_of(m, r) == v && metric_of(m, s.first()) == v {
            assert(seq![s.first()] + with_value(m, v, rest).push(r) =~= (seq![s.first()]
                + with_value(m, v, rest)).push(r));
        }
    }
}

/// The sort is stable: among rows showing the same counter value, it keeps
/// their relative row order exactly — the class of every value reads the
/// same before and after sorting.
pub proof fn lemma_rank_sort_stable(m: Metric, dir: Direction, s: Seq<StatsView>, v: u64)
    ensures
        with_value(m, v, rank_sort(m, dir, s)) == with_value(m, v, s),
    decreases s.len(),
{
    if s.len() > 0 {
        let pre = s.drop_last();
        lemma_rank_sort_stable(m, dir, pre, v);
        lemma_rank_sort_props(m, dir, pre);
        lemma_rank_insert_stable(m, dir, rank_sort(m, dir, pre), s.last(), v);
        lemma_with_value_push(m, v, pre, s.last());
        assert(pre.push(s.last()) =~= s);
    }
}

/// Whether `valid` lists `id`.
fn contains_id(valid: &Vec<u64>, id: u64) -> (b: bool)
    ensures
        b == valid@.contains(id),
{
    let mut k: usize = 0;
    while k < valid.len()
        invariant
            k <= valid@.len(),
            forall|w: int| 0 <= w < k ==> valid@[w] != id,
        decreases valid@.len() - k,
    {
        if valid[k] == id {
            proof {
                assert(valid@[k as int] == id);
            }
            return true;
        }
        k = k + 1;
    }
    false
}

/// Executable counter read under a metric.
fn metric_exec(m: Metric, r: &EmoteStats) -> (v: u64)
    ensures
        v == metric_of(m, r@),
{
    match m {
        Metric::Uses => r.uses,
        Metric::Reacts => r.reacts,
    }
}

/// Executable strict report order.
fn ranks_before_exec(m: Metric, dir: Direction, a: &EmoteStats, b: &EmoteStats) -> (r: bool)
    ensures
        r == ranks_before(m, dir, a@, b@),
{
    let av: u64 = metric_exec(m, a);
    let bv: u64 = metric_exec(m, b);
    match dir {
        Direction::Descending => av > bv,
        Direction::Ascending => av < bv,
    }
}

/// Build a ranked report: the store's qualifying rows, stably sorted by
/// the requested counter and direction, cut to the first [`RANKED_MAX`].
/// The store is not mutated; the same store and request always yield the
/// same rows in the same order.
pub fn ranked_report(store: &Store, m: Metric, dir: Direction, valid: &Vec<u64>) -> (r: Vec<
    EmoteStats,
>)
    ensures
        rows_view(r@) == spec_ranked(store@, m, dir, valid@),
        r@.len() <= RANKED_MAX,
        forall|k: int|
            0 <= k < r@.len() ==> qualifies(m, valid@, #[trigger] rows_view(r@)[k]),
        forall|i: int, j: int|
            0 <= i < j < r@.len() ==> !ranks_before(
                m,
                dir,
                rows_view(r@)[j],
                rows_view(r@)[i],
            ),
{
    let n: usize = store.len();
    let mut picked: Vec<EmoteStats> = Vec::new();
    let mut k: usize = 0;
    proof {
        assert(store@.subrange(0, 0) =~= Seq::<StatsView>::empty());
        assert(rows_view(picked@) =~= Seq::<StatsView>::empty());
    }
    while k < n
        invariant
            k <= store@.len(),
            n == store@.len(),
            rows_view(picked@) == pick_rows(m, valid@, store@.subrange(0, k as int)),
            picked@.len() == rows_view(picked@).len(),
        decreases n - k,
    {
        let row = store.row_at(k);
        let listed: bool = contains_id(valid, row.id);
        let counted: bool = match m {
            Metric::Uses => true,
            Metric::Reacts => row.reacts > 0,
        };
        let ghost pre = store@.subrange(0, k as int);
        let ghost post = store@.subrange(0, k as int + 1);
        proof {
            assert(post.drop_last() =~= pre);
            assert(post.last() == store@[k as int]);
        }
        if listed && counted {
            picked.push(row.duplicate());
            proof {
                assert(rows_view(picked@) =~= pick_rows(m, valid@, post));
            }
        } else {
            proof {
                assert(!qualifies(m, valid@, store@[k as int]));
                assert(rows_view(picked@) =~= pick_rows(m, valid@, post));
            }
        }
        k = k + 1;
    }
    proof {
        assert(store@.subrange(0, n as int) =~= store@);
    }
    let ghost pickseq = rows_view(picked@);
    let mut ranked: Vec<EmoteStats> = Vec::new();
    let mut i: usize = 0;
    proof {
        assert(pickseq.take(0) =~= Seq::<StatsView>::empty());
        assert(rows_view(ranked@) =~= Seq::<StatsView>::empty());
    }
    while i < picked.len()
        invariant
            i <= picked@.len(),
            pickseq == rows_view(picked@),
            picked@.len() == pickseq.len(),
            rows_view(ranked@) == rank_sort(m, dir, pickseq.take(i as int)),
            ranked@.len() == rows_view(ranked@).len(),
        decreases picked@.len() - i,
    {
        let row = picked[i].duplicate();
        let mut j: usize = 0;
        while j < ranked.len() && !ranks_before_exec(m, dir, &row, &ranked[j])
            invariant
                j <= ranked@.len(),
                ranked@.len() == rows_view(ranked@).len(),
                row@ == pickseq[i as int],
                i < pickseq.len(),
                forall|w: int| 0 <= w < j ==> !ranks_before(m, dir, row@, rows_view(ranked@)[w]),
            decreases ranked@.len() - j,
        {
            j = j + 1;
        }
        proof {
            lemma_rank_insert_at(m, dir, rows_view(ranked@), row@, j as int);
            assert(pickseq.take(i as int + 1).drop_last() =~= pickseq.take(i as int));
            assert(pickseq.take(i as int + 1).last() == pickseq[i as int]);
        }
        let ghost before = rows_view(ranked@);
        ranked.insert(j, row);
        proof {
            assert(rows_view(ranked@) =~= before.insert(j as int, pickseq[i as int]));
            assert(rows_view(ranked@) == rank_sort(m, dir, pickseq.take(i as int + 1)));
        }
        i = i + 1;
    }
    proof {
        assert(pickseq.take(pickseq.len() as int) =~= pickseq);
    }
    if ranked.len() > RANKED_MAX {
        ranked.truncate(RANKED_MAX);
        proof {
            let sorted = rank_sort(m, dir, pickseq);
            assert(rows_view(ranked@) =~= sorted.take(RANKED_MAX as int));
        }
    }
    proof {
        lemma_spec_ranked_props(store@, m, dir, valid@);
    }
    ranked
}

/// Build the zero-uses report: catalog emotes with no counter row at all,
/// in catalog order, cut to the first [`ZERO_MAX`]. The store is not
/// mutated.
pub fn zero_report(catalog: &Vec<EmoteRef>, store: &Store) -> (r: Vec<EmoteRef>)
    ensures
        refs_view(r@) == spec_zero(refs_view(catalog@), store@),
        r@.len() <= ZERO_MAX,
        forall|k: int| 0 <= k < r@.len() ==> !has_id(store@, #[trigger] refs_view(r@)[k].id),
{
    let ghost cat = refs_view(catalog@);
    let mut missing: Vec<EmoteRef> = Vec::new();
    let mut k: usize = 0;
    proof {
        assert(cat.take(0) =~= Seq::<RefView>::empty());
        assert(refs_view(missing@) =~= Seq::<RefView>::empty());
    }
    while k < catalog.len()
        invariant
            k <= catalog@.len(),
            cat == refs_view(catalog@),
            catalog@.len() == cat.len(),
            refs_view(missing@) == pick_missing(cat.take(k as int), store@),
            missing@.len() == refs_view(missing@).len(),
        decreases catalog@.len() - k,
    {
        let ghost pre = cat.take(k as int);
        let ghost post = cat.take(k as int + 1);
        proof {
            assert(post.drop_last() =~= pre);
            assert(post.last() == cat[k as int]);
        }
        if !store.contains(catalog[k].id) {
            missing.push(catalog[k].duplicate());
            proof {
                assert(refs_view(missing@) =~= pick_missing(post, store@));
            }
        } else {
            proof {
                assert(refs_view(missing@) =~= pick_missing(post, store@));
            }
        }
        k = k + 1;
    }
    proof {
        assert(cat.take(cat.len() as int) =~= cat);
    }
    if missing.len() > ZERO_MAX {
        missing.truncate(ZERO_MAX);
        proof {
            assert(refs_view(missing@) =~= pick_missing(cat, store@).take(ZERO_MAX as int));
        }
    }
    proof {
        lemma_pick_missing_props(cat, store@);
        assert forall|w: int| 0 <= w < refs_view(missing@).len() implies !has_id(
            store@,
            #[trigger] refs_view(missing@)[w].id,
        ) by {
            assert(refs_view(missing@)[w] == pick_missing(cat, store@)[w]);
        }
    }
    missing
}

/// Rank reports are a function of the store and the request alone: two
/// reports built from the same store with the same metric, direction and
/// valid-id set are identical, row for row.
pub proof fn lemma_report_idempotent(
    r1: Seq<StatsView>,
    r2: Seq<StatsView>,
    s: Seq<StatsView>,
    m: Metric,
    dir: Direction,
    valid: Seq<u64>,
)
    requires
        r1 == spec_ranked(s, m, dir, valid),
        r2 == spec_ranked(s, m, dir, valid),
    ensures
        r1 == r2,
{
}

} // verus!
