//! Message and reaction aggregation.
//!
//! A message's references are first combined into a per-message accumulator
//! keyed by emote id, so that within one message `uses` grows once per
//! occurrence while `uniq` grows at most once per id. Each accumulated
//! delta is then merged with the persisted row (if any) and written back
//! with a field-preserving upsert. A reaction-add event touches exactly one
//! row.

use vstd::prelude::*;

use crate::emote::EmoteRef;
use crate::emote::EmoteStats;
use crate::emote::RefView;
use crate::emote::StatsView;
use crate::emote::copy_bytes;
use crate::emote::sat_add;
use crate::emote::sat_add_u64;
use crate::parse::emote_refs;
use crate::parse::parse_refs;
use crate::parse::refs_view;
use crate::store::Store;
use crate::store::has_id;
use crate::store::ids_unique;
use crate::store::lookup;
use crate::store::row_index;
use crate::store::rows_wf;
use crate::store::upsert_seq;

verus! {

/// One message's combined delta for a single emote id.
pub struct MsgDelta {
    pub id: u64,
    /// Occurrences of the id in this message.
    pub count: usize,
    /// Name carried by the first occurrence.
    pub name: Vec<u8>,
    /// Whether any occurrence carried the animation marker.
    pub animated: bool,
}

/// Mathematical value of a [`MsgDelta`].
pub ghost struct DeltaView {
    pub id: u64,
    pub count: nat,
    pub name: Seq<u8>,
    pub animated: bool,
}

impl View for MsgDelta {
    type V = DeltaView;

    open spec fn view(&self) -> DeltaView {
        DeltaView {
            id: self.id,
            count: self.count as nat,
            name: self.name@,
            animated: self.animated,
        }
    }
}

/// The deltas of an accumulator vector, as mathematical values.
pub open spec fn deltas_view(s: Seq<MsgDelta>) -> Seq<DeltaView> {
    s.map_values(|d: MsgDelta| d@)
}

/// No two deltas share an id.
pub open spec fn delta_ids_unique(s: Seq<DeltaView>) -> bool {
    forall|j: int, k: int| 0 <= j < k < s.len() ==> s[j].id != s[k].id
}

/// Some delta carries `id`.
pub open spec fn has_delta(s: Seq<DeltaView>, id: u64) -> bool {
    exists|k: int| 0 <= k < s.len() && s[k].id == id
}

/// The index of the delta carrying `id`; meaningful when `has_delta` holds
/// and ids are unique.
pub open spec fn delta_index(s: Seq<DeltaView>, id: u64) -> int {
    choose|k: int| 0 <= k < s.len() && s[k].id == id
}

/// A further occurrence of an already-seen id: one more count, the
/// animation marker accumulates, the first name stays.
pub open spec fn bump(d: DeltaView, r: RefView) -> DeltaView {
    DeltaView { id: d.id, count: d.count + 1, name: d.name, animated: d.animated || r.animated }
}

/// The delta a first occurrence opens.
pub open spec fn first_delta(r: RefView) -> DeltaView {
    DeltaView { id: r.id, count: 1, name: r.name, animated: r.animated }
}

/// Fold one reference into the accumulator.
pub open spec fn add_ref(acc: Seq<DeltaView>, r: RefView) -> Seq<DeltaView> {
    if has_delta(acc, r.id) {
        acc.update(delta_index(acc, r.id), bump(acc[delta_index(acc, r.id)], r))
    } else {
        acc.push(first_delta(r))
    }
}

/// The per-message accumulator of a reference sequence: one delta per
/// distinct id, in order of first occurrence.
pub open spec fn accum(refs: Seq<RefView>) -> Seq<DeltaView>
    decreases refs.len(),
{
    if refs.len() == 0 {
        Seq::empty()
    } else {
        add_ref(accum(refs.drop_last()), refs.last())
    }
}

/// How often `id` occurs in a reference sequence.
pub open spec fn count_id(refs: Seq<RefView>, id: u64) -> nat
    decreases refs.len(),
{
    if refs.len() == 0 {
        0
    } else {
        count_id(refs.drop_last(), id) + (if refs.last().id == id {
            1nat
        } else {
            0nat
        })
    }
}

/// Whether any occurrence of `id` carries the animation marker.
pub open spec fn any_animated(refs: Seq<RefView>, id: u64) -> bool
    decreases refs.len(),
{
    if refs.len() == 0 {
        false
    } else {
        any_animated(refs.drop_last(), id) || (refs.last().id == id && refs.last().animated)
    }
}

/// The name carried by the first occurrence of `id`.
pub open spec fn first_name(refs: Seq<RefView>, id: u64) -> Seq<u8>
    decreases refs.len(),
{
    if refs.len() == 0 {
        Seq::empty()
    } else if count_id(refs.drop_last(), id) > 0 {
        first_name(refs.drop_last(), id)
    } else if refs.last().id == id {
        refs.last().name
    } else {
        Seq::empty()
    }
}

/// Folding one reference preserves uniqueness and moves exactly the one
/// delta of the reference's id.
pub proof fn lemma_add_ref(acc: Seq<DeltaView>, r: RefView)
    requires
        delta_ids_unique(acc),
    ensures
        delta_ids_unique(add_ref(acc, r)),
        has_delta(add_ref(acc, r), r.id),
        has_delta(acc, r.id) ==> add_ref(acc, r) == acc.update(
            delta_index(acc, r.id),
            bump(acc[delta_index(acc, r.id)], r),
        ),
        forall|k: int|
            0 <= k < acc.len() && acc[k].id == r.id ==> k == delta_index(acc, r.id),
        forall|other: u64|
            other != r.id ==> (has_delta(add_ref(acc, r), other) == has_delta(acc, other)),
        forall|k: int|
            0 <= k < acc.len() && acc[k].id != r.id ==> add_ref(acc, r)[k] == acc[k],
{
    let a2 = add_ref(acc, r);
    if has_delta(acc, r.id) {
        let i = delta_index(acc, r.id);
        assert(0 <= i < acc.len() && acc[i].id == r.id);
        assert forall|k: int| 0 <= k < acc.len() && acc[k].id == r.id implies k == i by {
            if k != i {
                assert(false);
            }
        }
        assert(forall|m: int| 0 <= m < acc.len() ==> a2[m].id == acc[m].id);
        assert(delta_ids_unique(a2));
        assert forall|other: u64|
            other != r.id implies (has_delta(a2, other) == has_delta(acc, other)) by {
            if has_delta(acc, other) {
                let k = delta_index(acc, other);
                assert(a2[k].id == other);
            }
            if has_delta(a2, other) {
                let k = delta_index(a2, other);
                assert(acc[k].id == other);
            }
        }
    } else {
        assert(forall|m: int| 0 <= m < acc.len() ==> acc[m].id != r.id);
        assert(forall|m: int| 0 <= m < acc.len() ==> a2[m] == acc[m]);
        assert(a2[acc.len() as int] == first_delta(r));
        assert(delta_ids_unique(a2));
        assert(has_delta(a2, r.id));
        assert forall|other: u64|
            other != r.id implies (has_delta(a2, other) == has_delta(acc, other)) by {
            if has_delta(acc, other) {
                let k = delta_index(acc, other);
                assert(a2[k].id == other);
            }
            if has_delta(a2, other) {
                let k = delta_index(a2, other);
                if k < acc.len() {
                    assert(acc[k].id == other);
                } else {
                    assert(a2[k] == first_delta(r));
                    assert(false);
                }
            }
        }
    }
}

/// The accumulator never holds two deltas for one id.
pub proof fn lemma_accum_unique(refs: Seq<RefView>)
    ensures
        delta_ids_unique(accum(refs)),
    decreases refs.len(),
{
    if refs.len() > 0 {
        lemma_accum_unique(refs.drop_last());
        lemma_add_ref(accum(refs.drop_last()), refs.last());
    }
}

/// An id that never occurs has no delta.
pub proof fn lemma_accum_absent(refs: Seq<RefView>, id: u64)
    requires
        count_id(refs, id) == 0,
    ensures
        !has_delta(accum(refs), id),
    decreases refs.len(),
{
    if refs.len() > 0 {
        lemma_accum_absent(refs.drop_last(), id);
        lemma_accum_unique(refs.drop_last());
        lemma_add_ref(accum(refs.drop_last()), refs.last());
        let a2 = accum(refs);
        if has_delta(a2, id) {
            assert(refs.last().id != id);
            assert(has_delta(accum(refs.drop_last()), id));
            assert(false);
        }
    }
}

/// Duplicate-occurrence collapsing inside one message: an id occurring
/// `n > 0` times yields exactly one delta, whose count is `n`, whose name
/// is the first occurrence's, and whose animation flag is the disjunction
/// over all occurrences.
pub proof fn lemma_accum_delta(refs: Seq<RefView>, id: u64)
    requires
        count_id(refs, id) > 0,
    ensures
        has_delta(accum(refs), id),
        accum(refs)[delta_index(accum(refs), id)] == (DeltaView {
            id,
            count: count_id(refs, id),
            name: first_name(refs, id),
            animated: any_animated(refs, id),
        }),
    decreases refs.len(),
{
    let acc_pre = accum(refs.drop_last());
    let r = refs.last();
    lemma_accum_unique(refs.drop_last());
    lemma_accum_unique(refs);
    lemma_add_ref(acc_pre, r);
    let a2 = accum(refs);
    if count_id(refs.drop_last(), id) > 0 {
        lemma_accum_delta(refs.drop_last(), id);
        let i = delta_index(acc_pre, id);
        if r.id == id {
            assert(i == delta_index(acc_pre, r.id));
            assert(a2[i] == bump(acc_pre[i], r));
            assert(0 <= i < a2.len() && a2[i].id == id);
            assert(i == delta_index(a2, id)) by {
                let k2 = delta_index(a2, id);
                assert(0 <= k2 < a2.len() && a2[k2].id == id);
                if k2 != i {
                    assert(false);
                }
            }
        } else {
            assert(a2[i] == acc_pre[i]);
            assert(0 <= i < a2.len() && a2[i].id == id);
            assert(i == delta_index(a2, id)) by {
                let k2 = delta_index(a2, id);
                assert(0 <= k2 < a2.len() && a2[k2].id == id);
                if k2 != i {
                    if k2 < acc_pre.len() {
                        assert(a2[k2].id == acc_pre[k2].id);
                        assert(false);
                    } else {
                        assert(false);
                    }
                }
            }
        }
    } else {
        assert(r.id == id);
        lemma_accum_absent(refs.drop_last(), id);
        assert(!has_delta(acc_pre, r.id));
        assert(a2 == acc_pre.push(first_delta(r)));
        let i = acc_pre.len() as int;
        assert(a2[i] == first_delta(r));
        assert(i == delta_index(a2, id)) by {
            let k2 = delta_index(a2, id);
            assert(0 <= k2 < a2.len() && a2[k2].id == id);
            if k2 != i {
                assert(acc_pre[k2].id == id);
                assert(false);
            }
        }
        assert(first_name(refs, id) == r.name);
        assert(any_animated(refs, id) == r.animated) by {
            lemma_no_occurrence_not_animated(refs.drop_last(), id);
        }
        assert(count_id(refs, id) == 1);
    }
}

/// Where an id never occurs, no occurrence is animated.
pub proof fn lemma_no_occurrence_not_animated(refs: Seq<RefView>, id: u64)
    requires
        count_id(refs, id) == 0,
    ensures
        !any_animated(refs, id),
    decreases refs.len(),
{
    if refs.len() > 0 {
        lemma_no_occurrence_not_animated(refs.drop_last(), id);
    }
}

/// Build the per-message accumulator for a parsed reference list.
pub fn accumulate(refs: &Vec<EmoteRef>) -> (acc: Vec<MsgDelta>)
    ensures
        deltas_view(acc@) == accum(refs_view(refs@)),
{
    let ghost all = refs_view(refs@);
    let mut acc: Vec<MsgDelta> = Vec::new();
    let mut i: usize = 0;
    proof {
        assert(all.subrange(0, 0) =~= Seq::<RefView>::empty());
        assert(deltas_view(acc@) =~= Seq::<DeltaView>::empty());
    }
    while i < refs.len()
        invariant
            i <= refs@.len(),
            all == refs_view(refs@),
            deltas_view(acc@) == accum(all.subrange(0, i as int)),
            acc@.len() == deltas_view(acc@).len(),
            forall|m: int| 0 <= m < acc@.len() ==> deltas_view(acc@)[m].count <= i,
        decreases refs@.len() - i,
    {
        let ghost pre = all.subrange(0, i as int);
        let ghost post = all.subrange(0, i as int + 1);
        proof {
            assert(post.drop_last() =~= pre);
            assert(post.last() == all[i as int]);
            assert(all[i as int] == refs@[i as int]@);
            lemma_accum_unique(pre);
            lemma_add_ref(accum(pre), all[i as int]);
        }
        let rid: u64 = refs[i].id;
        let ranim: bool = refs[i].animated;
        match find_delta(&acc, rid) {
            Some(k) => {
                let oldc: usize = acc[k].count;
                let olda: bool = acc[k].animated;
                let oldid: u64 = acc[k].id;
                let name2: Vec<u8> = copy_bytes(&acc[k].name);
                proof {
                    assert(deltas_view(acc@)[k as int].id == rid);
                    assert(k as int == delta_index(accum(pre), rid));
                }
                acc[k] = MsgDelta { id: oldid, count: oldc + 1, name: name2, animated: olda || ranim };
                proof {
                    assert(deltas_view(acc@) =~= accum(post));
                }
            },
            None => {
                acc.push(MsgDelta { id: rid, count: 1, name: copy_bytes(&refs[i].name), animated: ranim });
                proof {
                    assert(deltas_view(acc@) =~= accum(post));
                }
            },
        }
        i = i + 1;
    }
    proof {
        assert(all.subrange(0, i as int) =~= all);
    }
    acc
}

/// Addition of an unbounded occurrence count onto a counter, capped at the
/// largest representable value.
pub open spec fn sat_add_wide(a: u64, b: nat) -> u64 {
    if a + b > u64::MAX {
        u64::MAX
    } else {
        (a + b) as u64
    }
}

/// The row one accumulated delta produces. A known row keeps its `reacts`
/// and its `animated` flag and takes the newly observed name; an unknown id
/// opens a fresh row.
pub open spec fn merge_delta(prev: Option<StatsView>, d: DeltaView) -> StatsView {
    match prev {
        Some(p) => StatsView {
            id: p.id,
            name: d.name,
            uses: sat_add_wide(p.uses, d.count),
            uniq: sat_add(p.uniq, 1),
            reacts: p.reacts,
            animated: p.animated,
        },
        None => StatsView {
            id: d.id,
            name: d.name,
            uses: sat_add_wide(0, d.count),
            uniq: 1,
            reacts: 0,
            animated: d.animated,
        },
    }
}

/// The store after each delta is merged and upserted, first to last.
pub open spec fn apply_deltas(s: Seq<StatsView>, ds: Seq<DeltaView>) -> Seq<StatsView>
    decreases ds.len(),
{
    if ds.len() == 0 {
        s
    } else {
        apply_deltas(
            upsert_seq(s, merge_delta(lookup(s, ds.first().id), ds.first())),
            ds.drop_first(),
        )
    }
}

/// The store after one message's text is processed.
pub open spec fn message_result(s: Seq<StatsView>, text: Seq<u8>) -> Seq<StatsView> {
    apply_deltas(s, accum(emote_refs(text)))
}

/// Consume one message: parse its emote references, combine them per id,
/// then read-merge-write one row per distinct id, in order of first
/// occurrence.
pub fn process_message(store: &mut Store, text: &Vec<u8>)
    requires
        old(store).wf(),
    ensures
        final(store).wf(),
        final(store)@ == message_result(old(store)@, text@),
{
    let refs = parse_refs(text);
    let deltas = accumulate(&refs);
    let ghost ds = deltas_view(deltas@);
    let mut di: usize = 0;
    proof {
        assert(ds.skip(0) =~= ds);
    }
    while di < deltas.len()
        invariant
            store.wf(),
            ds == deltas_view(deltas@),
            deltas@.len() == ds.len(),
            di <= ds.len(),
            apply_deltas(store@, ds.skip(di as int)) == apply_deltas(old(store)@, ds),
        decreases ds.len() - di,
    {
        let d = &deltas[di];
        let cnt: u64 = d.count as u64;
        let merged: EmoteStats = match store.get(d.id) {
            Some(row) => EmoteStats {
                id: row.id,
                name: copy_bytes(&d.name),
                uses: sat_add_u64(row.uses, cnt),
                uniq: sat_add_u64(row.uniq, 1),
                reacts: row.reacts,
                animated: row.animated,
            },
            None => EmoteStats {
                id: d.id,
                name: copy_bytes(&d.name),
                uses: cnt,
                uniq: 1,
                reacts: 0,
                animated: d.animated,
            },
        };
        proof {
            let tail = ds.skip(di as int);
            assert(tail.first() == ds[di as int]);
            assert(tail.drop_first() =~= ds.skip(di as int + 1));
            assert(merged@ == merge_delta(lookup(store@, ds[di as int].id), ds[di as int]));
        }
        store.upsert(merged);
        di = di + 1;
    }
    proof {
        assert(ds.skip(di as int) =~= Seq::<DeltaView>::empty());
    }
}

/// The row one reaction-add event produces. A known row keeps every field
/// and gains one reaction; an unknown id opens a fresh row with zero uses.
pub open spec fn react_row(prev: Option<StatsView>, ev: RefView) -> StatsView {
    match prev {
        Some(p) => StatsView {
            id: p.id,
            name: p.name,
            uses: p.uses,
            uniq: p.uniq,
            reacts: sat_add(p.reacts, 1),
            animated: p.animated,
        },
        None => StatsView {
            id: ev.id,
            name: ev.name,
            uses: 0,
            uniq: 0,
            reacts: 1,
            animated: ev.animated,
        },
    }
}

/// The store after one reaction-add event.
pub open spec fn reaction_result(s: Seq<StatsView>, ev: RefView) -> Seq<StatsView> {
    upsert_seq(s, react_row(lookup(s, ev.id), ev))
}

/// Consume one reaction-add event carrying a custom emote with a name.
/// (Events without a custom named emote are filtered out by the caller and
/// never reach the store.) Exactly one row is written.
pub fn process_reaction(store: &mut Store, emote: &EmoteRef)
    requires
        old(store).wf(),
    ensures
        final(store).wf(),
        final(store)@ == reaction_result(old(store)@, emote@),
{
    let merged: EmoteStats = match store.get(emote.id) {
        Some(row) => EmoteStats {
            id: row.id,
            name: copy_bytes(&row.name),
            uses: row.uses,
            uniq: row.uniq,
            reacts: sat_add_u64(row.reacts, 1),
            animated: row.animated,
        },
        None => EmoteStats {
            id: emote.id,
            name: copy_bytes(&emote.name),
            uses: 0,
            uniq: 0,
            reacts: 1,
            animated: emote.animated,
        },
    };
    store.upsert(merged);
}

/// Applying a run of deltas with distinct ids changes exactly the rows of
/// those ids, each by one merge against its prior row, and keeps ids
/// unique.
pub proof fn lemma_apply_deltas_lookup(s: Seq<StatsView>, ds: Seq<DeltaView>, id: u64)
    requires
        ids_unique(s),
        delta_ids_unique(ds),
    ensures
        ids_unique(apply_deltas(s, ds)),
        !has_delta(ds, id) ==> lookup(apply_deltas(s, ds), id) == lookup(s, id),
        has_delta(ds, id) ==> lookup(apply_deltas(s, ds), id) == Some(
            merge_delta(lookup(s, id), ds[delta_index(ds, id)]),
        ),
    decreases ds.len(),
{
    if ds.len() == 0 {
        if has_delta(ds, id) {
            let k = delta_index(ds, id);
            assert(false);
        }
    } else {
        let d0 = ds.first();
        let m0 = merge_delta(lookup(s, d0.id), d0);
        let s1 = upsert_seq(s, m0);
        crate::store::lemma_upsert_lookup(s, m0);
        let rest = ds.drop_first();
        assert forall|j: int, k: int| 0 <= j < k < rest.len() implies rest[j].id != rest[k].id by {
            assert(rest[j] == ds[j + 1]);
            assert(rest[k] == ds[k + 1]);
        }
        lemma_apply_deltas_lookup(s1, rest, id);
        assert(apply_deltas(s, ds) == apply_deltas(s1, rest));
        if d0.id == id {
            assert(m0.id == id) by {
                if lookup(s, id) is Some {
                    assert(s[row_index(s, id)].id == id);
                }
            }
            assert(!has_delta(rest, id)) by {
                if has_delta(rest, id) {
                    let k = delta_index(rest, id);
                    assert(rest[k] == ds[k + 1]);
                    assert(ds[0].id == id);
                    assert(false);
                }
            }
            assert(lookup(apply_deltas(s1, rest), id) == lookup(s1, id));
            assert(lookup(s1, id) == Some(m0));
            assert(has_delta(ds, id)) by {
                assert(ds[0].id == id);
            }
            assert(delta_index(ds, id) == 0) by {
                let k = delta_index(ds, id);
                assert(0 <= k < ds.len() && ds[k].id == id);
                if k != 0 {
                    assert(rest[k - 1] == ds[k]);
                    assert(has_delta(rest, id));
                    assert(false);
                }
            }
        } else {
            assert(m0.id == d0.id) by {
                if lookup(s, d0.id) is Some {
                    assert(s[row_index(s, d0.id)].id == d0.id);
                }
            }
            assert(lookup(s1, id) == lookup(s, id));
            if has_delta(ds, id) {
                let k = delta_index(ds, id);
                assert(0 <= k < ds.len() && ds[k].id == id);
                assert(k != 0);
                assert(rest[k - 1] == ds[k]);
                assert(has_delta(rest, id));
                let k2 = delta_index(rest, id);
                assert(0 <= k2 < rest.len() && rest[k2].id == id);
                assert(rest[k2] == ds[k2 + 1]);
                if k2 != k - 1 {
                    assert(false);
                }
                assert(lookup(apply_deltas(s1, rest), id) == Some(
                    merge_delta(lookup(s1, id), rest[k2]),
                ));
            } else {
                assert(!has_delta(rest, id)) by {
                    if has_delta(rest, id) {
                        let k2 = delta_index(rest, id);
                        assert(rest[k2] == ds[k2 + 1]);
                        assert(has_delta(ds, id));
                        assert(false);
                    }
                }
            }
        }
    }
}

/// Duplicate-occurrence collapsing, end to end: a message whose text
/// mentions `id` in `n > 0` occurrences raises that row's `uses` by `n`
/// and its `uniq` by one (each capped at the counter's limit), stores the
/// first occurrence's name, and leaves `reacts` — and, for a known row, the
/// `animated` flag — untouched. An unknown id opens a fresh row.
pub proof fn lemma_message_counts(s: Seq<StatsView>, text: Seq<u8>, id: u64)
    requires
        ids_unique(s),
        count_id(emote_refs(text), id) > 0,
    ensures
        ids_unique(message_result(s, text)),
        (match lookup(s, id) {
            Some(p) => lookup(message_result(s, text), id) == Some(StatsView {
                id: p.id,
                name: first_name(emote_refs(text), id),
                uses: sat_add_wide(p.uses, count_id(emote_refs(text), id)),
                uniq: sat_add(p.uniq, 1),
                reacts: p.reacts,
                animated: p.animated,
            }),
            None => lookup(message_result(s, text), id) == Some(StatsView {
                id,
                name: first_name(emote_refs(text), id),
                uses: sat_add_wide(0, count_id(emote_refs(text), id)),
                uniq: 1,
                reacts: 0,
                animated: any_animated(emote_refs(text), id),
            }),
        }),
{
    let refs = emote_refs(text);
    lemma_accum_unique(refs);
    lemma_accum_delta(refs, id);
    lemma_apply_deltas_lookup(s, accum(refs), id);
    if lookup(s, id) is Some {
        assert(s[row_index(s, id)].id == id);
    }
}

/// A message leaves every id it does not mention exactly as it was.
pub proof fn lemma_message_untouched(s: Seq<StatsView>, text: Seq<u8>, id: u64)
    requires
        ids_unique(s),
        count_id(emote_refs(text), id) == 0,
    ensures
        ids_unique(message_result(s, text)),
        lookup(message_result(s, text), id) == lookup(s, id),
{
    lemma_accum_unique(emote_refs(text));
    lemma_accum_absent(emote_refs(text), id);
    lemma_apply_deltas_lookup(s, accum(emote_refs(text)), id);
}

/// One reaction-add event, end to end: the event's id gains exactly one
/// reaction (capped at the counter's limit); a known row keeps every other
/// field, an unknown id opens a fresh zero-use row; every other row is
/// unchanged.
pub proof fn lemma_reaction_counts(s: Seq<StatsView>, ev: RefView)
    requires
        ids_unique(s),
    ensures
        ids_unique(reaction_result(s, ev)),
        (match lookup(s, ev.id) {
            Some(p) => lookup(reaction_result(s, ev), ev.id) == Some(StatsView {
                id: p.id,
                name: p.name,
                uses: p.uses,
                uniq: p.uniq,
                reacts: sat_add(p.reacts, 1),
                animated: p.animated,
            }),
            None => lookup(reaction_result(s, ev), ev.id) == Some(StatsView {
                id: ev.id,
                name: ev.name,
                uses: 0,
                uniq: 0,
                reacts: 1,
                animated: ev.animated,
            }),
        }),
        forall|other: u64|
            other != ev.id ==> lookup(reaction_result(s, ev), other) == lookup(s, other),
{
    crate::store::lemma_upsert_lookup(s, react_row(lookup(s, ev.id), ev));
    if lookup(s, ev.id) is Some {
        assert(s[row_index(s, ev.id)].id == ev.id);
    }
}

/// Counters never decrease: a message can only raise an existing row's
/// `uses` and `uniq`, and leaves its `reacts` where it was.
pub proof fn lemma_message_monotone(s: Seq<StatsView>, text: Seq<u8>, id: u64, p: StatsView)
    requires
        ids_unique(s),
        lookup(s, id) == Some(p),
    ensures
        lookup(message_result(s, text), id) matches Some(q) && q.uses >= p.uses && q.uniq
            >= p.uniq && q.reacts == p.reacts,
{
    if count_id(emote_refs(text), id) > 0 {
        lemma_message_counts(s, text, id);
    } else {
        lemma_message_untouched(s, text, id);
    }
}

/// Counters never decrease: a reaction-add can only raise an existing
/// row's `reacts`, and leaves its `uses` and `uniq` where they were.
pub proof fn lemma_reaction_monotone(s: Seq<StatsView>, ev: RefView, id: u64, p: StatsView)
    requires
        ids_unique(s),
        lookup(s, id) == Some(p),
    ensures
        lookup(reaction_result(s, ev), id) matches Some(q) && q.reacts >= p.reacts && q.uses
            == p.uses && q.uniq == p.uniq,
{
    lemma_reaction_counts(s, ev);
}

/// The store after a run of reaction-add events, first to last.
pub open spec fn apply_reactions(s: Seq<StatsView>, evs: Seq<RefView>) -> Seq<StatsView>
    decreases evs.len(),
{
    if evs.len() == 0 {
        s
    } else {
        apply_reactions(reaction_result(s, evs.first()), evs.drop_first())
    }
}

/// Reactions only bump `reacts`: on a store whose row for `id` is `p`, a
/// run of reaction events on `id` adds their number to `reacts` and leaves
/// every other field of that row, and every other row, unchanged.
pub proof fn lemma_reaction_series_on(s: Seq<StatsView>, evs: Seq<RefView>, id: u64, p: StatsView)
    requires
        ids_unique(s),
        lookup(s, id) == Some(p),
        p.reacts + evs.len() <= u64::MAX,
        forall|k: int| 0 <= k < evs.len() ==> evs[k].id == id,
    ensures
        ids_unique(apply_reactions(s, evs)),
        lookup(apply_reactions(s, evs), id) == Some(StatsView {
            id: p.id,
            name: p.name,
            uses: p.uses,
            uniq: p.uniq,
            reacts: (p.reacts + evs.len()) as u64,
            animated: p.animated,
        }),
        forall|other: u64| other != id ==> lookup(apply_reactions(s, evs), other) == lookup(s, other),
    decreases evs.len(),
{
    if evs.len() == 0 {
        assert(StatsView {
            id: p.id,
            name: p.name,
            uses: p.uses,
            uniq: p.uniq,
            reacts: (p.reacts + 0) as u64,
            animated: p.animated,
        } == p);
    } else {
        let ev = evs.first();
        assert(ev.id == id);
        let rr = react_row(lookup(s, ev.id), ev);
        let s1 = reaction_result(s, ev);
        crate::store::lemma_upsert_lookup(s, rr);
        assert(rr.id == p.id) by {
            assert(s[row_index(s, id)].id == id);
        }
        assert(p.id == id) by {
            assert(s[row_index(s, id)].id == id);
        }
        let p1 = StatsView {
            id: p.id,
            name: p.name,
            uses: p.uses,
            uniq: p.uniq,
            reacts: (p.reacts + 1) as u64,
            animated: p.animated,
        };
        assert(rr == p1);
        assert(lookup(s1, id) == Some(p1));
        assert forall|k: int| 0 <= k < evs.drop_first().len() implies evs.drop_first()[k].id
            == id by {
            assert(evs.drop_first()[k] == evs[k + 1]);
        }
        lemma_reaction_series_on(s1, evs.drop_first(), id, p1);
    }
}

/// Every accumulated delta stands for at least one occurrence.
pub proof fn lemma_accum_count_pos(refs: Seq<RefView>)
    ensures
        forall|k: int| 0 <= k < accum(refs).len() ==> (#[trigger] accum(refs)[k]).count >= 1,
    decreases refs.len(),
{
    if refs.len() > 0 {
        lemma_accum_count_pos(refs.drop_last());
        let acc_pre = accum(refs.drop_last());
        let a2 = accum(refs);
        assert forall|k: int| 0 <= k < a2.len() implies (#[trigger] a2[k]).count >= 1 by {
            if has_delta(acc_pre, refs.last().id) {
                let i = delta_index(acc_pre, refs.last().id);
                if k == i {
                    assert(a2[k] == bump(acc_pre[i], refs.last()));
                } else {
                    assert(a2[k] == acc_pre[k]);
                }
            } else {
                if k < acc_pre.len() {
                    assert(a2[k] == acc_pre[k]);
                } else {
                    assert(a2[k] == first_delta(refs.last()));
                }
            }
        }
    }
}

/// Applying deltas that each stand for at least one occurrence keeps every
/// row's counters sane: `uses` still dominates `uniq` afterwards.
pub proof fn lemma_apply_deltas_rows_wf(s: Seq<StatsView>, ds: Seq<DeltaView>)
    requires
        rows_wf(s),
        forall|k: int| 0 <= k < ds.len() ==> (#[trigger] ds[k]).count >= 1,
    ensures
        rows_wf(apply_deltas(s, ds)),
    decreases ds.len(),
{
    if ds.len() > 0 {
        let d0 = ds.first();
        let m0 = merge_delta(lookup(s, d0.id), d0);
        assert(d0.count >= 1) by {
            assert(ds[0].count >= 1);
        }
        assert(m0.wf()) by {
            if lookup(s, d0.id) is Some {
                assert(s[row_index(s, d0.id)].wf());
            }
        }
        crate::store::lemma_upsert_rows_wf(s, m0);
        assert forall|k: int| 0 <= k < ds.drop_first().len() implies (#[trigger] ds.drop_first()[k]).count
            >= 1 by {
            assert(ds.drop_first()[k] == ds[k + 1]);
        }
        lemma_apply_deltas_rows_wf(upsert_seq(s, m0), ds.drop_first());
    }
}

/// Processing a message keeps every row's counters sane: each touched row
/// gains at least as many uses as unique uses.
pub proof fn lemma_message_rows_wf(s: Seq<StatsView>, text: Seq<u8>)
    requires
        rows_wf(s),
    ensures
        rows_wf(message_result(s, text)),
{
    lemma_accum_count_pos(emote_refs(text));
    lemma_apply_deltas_rows_wf(s, accum(emote_refs(text)));
}

/// A reaction-add keeps every row's counters sane: it never touches `uses`
/// or `uniq`.
pub proof fn lemma_reaction_rows_wf(s: Seq<StatsView>, ev: RefView)
    requires
        rows_wf(s),
    ensures
        rows_wf(reaction_result(s, ev)),
{
    let rr = react_row(lookup(s, ev.id), ev);
    assert(rr.wf()) by {
        if lookup(s, ev.id) is Some {
            assert(s[row_index(s, ev.id)].wf());
        }
    }
    crate::store::lemma_upsert_rows_wf(s, rr);
}

/// A fresh id's reaction series: with no prior row, the `k`-th reaction
/// event on `id` yields `reacts == k` while `uses` and `uniq` stay zero,
/// the name and animation flag staying those of the first event.
pub proof fn lemma_fresh_reaction_series(s: Seq<StatsView>, evs: Seq<RefView>, id: u64)
    requires
        ids_unique(s),
        !has_id(s, id),
        1 <= evs.len() <= u64::MAX,
        forall|k: int| 0 <= k < evs.len() ==> evs[k].id == id,
    ensures
        ids_unique(apply_reactions(s, evs)),
        lookup(apply_reactions(s, evs), id) == Some(StatsView {
            id,
            name: evs.first().name,
            uses: 0,
            uniq: 0,
            reacts: evs.len() as u64,
            animated: evs.first().animated,
        }),
{
    let ev = evs.first();
    assert(ev.id == id);
    assert(lookup(s, id) is None);
    let rr = react_row(lookup(s, ev.id), ev);
    let s1 = reaction_result(s, ev);
    crate::store::lemma_upsert_lookup(s, rr);
    let fresh = StatsView { id, name: ev.name, uses: 0, uniq: 0, reacts: 1, animated: ev.animated };
    assert(rr == fresh);
    assert(lookup(s1, id) == Some(fresh));
    assert forall|k: int| 0 <= k < evs.drop_first().len() implies evs.drop_first()[k].id == id by {
        assert(evs.drop_first()[k] == evs[k + 1]);
    }
    lemma_reaction_series_on(s1, evs.drop_first(), id, fresh);
}

/// Index of the delta with `id`, if one exists.
fn find_delta(acc: &Vec<MsgDelta>, id: u64) -> (r: Option<usize>)
    ensures
        (match r {
            Some(k) => k < acc@.len() && deltas_view(acc@)[k as int].id == id,
            None => !has_delta(deltas_view(acc@), id),
        }),
{
    let mut k: usize = 0;
    while k < acc.len()
        invariant
            k <= acc@.len(),
            forall|m: int| 0 <= m < k ==> deltas_view(acc@)[m].id != id,
        decreases acc@.len() - k,
    {
        if acc[k].id == id {
            return Some(k);
        }
        k = k + 1;
    }
    None
}

} // verus!
