use emote_tally::emote::EmoteRef;
use emote_tally::emote::EmoteStats;
use emote_tally::report::Direction;
use emote_tally::report::Metric;
use emote_tally::report::ranked_report;
use emote_tally::report::zero_report;
use emote_tally::store::Store;

fn row(id: u64, uses: u64, reacts: u64) -> EmoteStats {
    EmoteStats {
        id,
        name: format!("e{}", id).into_bytes(),
        uses,
        uniq: if uses > 0 { 1 } else { 0 },
        reacts,
        animated: false,
    }
}

#[test]
fn ranking_by_uses_descending() {
    let mut store = Store::new();
    store.upsert(row(1, 5, 0));
    store.upsert(row(2, 9, 0));
    store.upsert(row(3, 1, 0));
    let valid = vec![1, 2, 3];
    let out = ranked_report(&store, Metric::Uses, Direction::Descending, &valid);
    assert_eq!(out.len(), 3);
    assert_eq!(out[0].id, 2);
    assert_eq!(out[1].id, 1);
    assert_eq!(out[2].id, 3);
}

#[test]
fn ranking_by_uses_ascending() {
    let mut store = Store::new();
    store.upsert(row(1, 5, 0));
    store.upsert(row(2, 9, 0));
    store.upsert(row(3, 1, 0));
    let valid = vec![1, 2, 3];
    let out = ranked_report(&store, Metric::Uses, Direction::Ascending, &valid);
    assert_eq!(out.len(), 3);
    assert_eq!(out[0].id, 3);
    assert_eq!(out[1].id, 1);
    assert_eq!(out[2].id, 2);
}

#[test]
fn stale_ids_are_filtered_out() {
    let mut store = Store::new();
    store.upsert(row(1, 5, 0));
    store.upsert(row(2, 9, 0));
    let valid = vec![1];
    let out = ranked_report(&store, Metric::Uses, Direction::Descending, &valid);
    assert_eq!(out.len(), 1);
    assert_eq!(out[0].id, 1);
}

#[test]
fn ranked_report_is_cut_to_fourteen() {
    let mut store = Store::new();
    let mut valid = Vec::new();
    for id in 1..=20u64 {
        store.upsert(row(id, id, 0));
        valid.push(id);
    }
    let out = ranked_report(&store, Metric::Uses, Direction::Descending, &valid);
    assert_eq!(out.len(), 14);
    assert_eq!(out[0].id, 20);
    assert_eq!(out[13].id, 7);
}

#[test]
fn bottom_reactions_never_lists_zero_reacts() {
    let mut store = Store::new();
    store.upsert(row(1, 5, 0));
    store.upsert(row(2, 1, 3));
    store.upsert(row(3, 2, 1));
    let valid = vec![1, 2, 3];
    let out = ranked_report(&store, Metric::Reacts, Direction::Ascending, &valid);
    assert_eq!(out.len(), 2);
    assert_eq!(out[0].id, 3);
    assert_eq!(out[1].id, 2);
    for r in &out {
        assert!(r.reacts > 0);
    }
}

#[test]
fn top_reactions_also_drops_zero_reacts() {
    let mut store = Store::new();
    store.upsert(row(1, 5, 0));
    store.upsert(row(2, 1, 3));
    let valid = vec![1, 2];
    let out = ranked_report(&store, Metric::Reacts, Direction::Descending, &valid);
    assert_eq!(out.len(), 1);
    assert_eq!(out[0].id, 2);
}

#[test]
fn ties_keep_row_order() {
    let mut store = Store::new();
    store.upsert(row(1, 4, 0));
    store.upsert(row(2, 4, 0));
    store.upsert(row(3, 4, 0));
    let valid = vec![1, 2, 3];
    let out = ranked_report(&store, Metric::Uses, Direction::Descending, &valid);
    assert_eq!(out.len(), 3);
    assert_eq!(out[0].id, 1);
    assert_eq!(out[1].id, 2);
    assert_eq!(out[2].id, 3);
}

#[test]
fn same_report_twice_yields_same_output() {
    let mut store = Store::new();
    store.upsert(row(1, 5, 2));
    store.upsert(row(2, 9, 1));
    store.upsert(row(3, 9, 7));
    let valid = vec![1, 2, 3];
    let first = ranked_report(&store, Metric::Reacts, Direction::Descending, &valid);
    let second = ranked_report(&store, Metric::Reacts, Direction::Descending, &valid);
    assert_eq!(first.len(), second.len());
    for k in 0..first.len() {
        assert_eq!(first[k].id, second[k].id);
        assert_eq!(first[k].uses, second[k].uses);
        assert_eq!(first[k].reacts, second[k].reacts);
    }
}

#[test]
fn empty_store_yields_empty_report() {
    let store = Store::new();
    let valid = vec![1, 2, 3];
    let out = ranked_report(&store, Metric::Uses, Direction::Descending, &valid);
    assert_eq!(out.len(), 0);
}

fn catalog_emote(id: u64) -> EmoteRef {
    EmoteRef { id, name: format!("c{}", id).into_bytes(), animated: false }
}

#[test]
fn zero_report_lists_unseen_catalog_emotes_in_order() {
    let mut store = Store::new();
    store.upsert(row(2, 1, 0));
    let catalog = vec![catalog_emote(1), catalog_emote(2), catalog_emote(3)];
    let out = zero_report(&catalog, &store);
    assert_eq!(out.len(), 2);
    assert_eq!(out[0].id, 1);
    assert_eq!(out[1].id, 3);
}

#[test]
fn zero_report_counts_reaction_only_rows_as_seen() {
    let mut store = Store::new();
    store.upsert(EmoteStats {
        id: 5,
        name: b"seen".to_vec(),
        uses: 0,
        uniq: 0,
        reacts: 1,
        animated: false,
    });
    let catalog = vec![catalog_emote(5), catalog_emote(6)];
    let out = zero_report(&catalog, &store);
    assert_eq!(out.len(), 1);
    assert_eq!(out[0].id, 6);
}

#[test]
fn zero_report_is_cut_to_twenty_four() {
    let store = Store::new();
    let mut catalog = Vec::new();
    for id in 1..=30u64 {
        catalog.push(catalog_emote(id));
    }
    let out = zero_report(&catalog, &store);
    assert_eq!(out.len(), 24);
    assert_eq!(out[0].id, 1);
    assert_eq!(out[23].id, 24);
}
