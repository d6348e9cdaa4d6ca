use emote_tally::emote::EmoteRef;
use emote_tally::emote::EmoteStats;
use emote_tally::store::Store;
use emote_tally::tally::process_message;
use emote_tally::tally::process_reaction;

#[test]
fn duplicate_occurrences_collapse_in_one_message() {
    let mut store = Store::new();
    let text = b"<:smile:123456789012345678> hi <:smile:123456789012345678>".to_vec();
    process_message(&mut store, &text);
    assert_eq!(store.len(), 1);
    let row = store.get(123456789012345678).unwrap();
    assert_eq!(row.id, 123456789012345678);
    assert_eq!(row.uses, 2);
    assert_eq!(row.uniq, 1);
    assert_eq!(row.reacts, 0);
    assert!(!row.animated);
    assert_eq!(row.name, b"smile".to_vec());
}

#[test]
fn animated_emote_in_two_separate_messages() {
    let mut store = Store::new();
    let text = b"<a:wave:987654321098765432>".to_vec();
    process_message(&mut store, &text);
    process_message(&mut store, &text);
    let row = store.get(987654321098765432).unwrap();
    assert_eq!(row.uses, 2);
    assert_eq!(row.uniq, 2);
    assert!(row.animated);
}

#[test]
fn uses_grows_per_occurrence_uniq_per_message() {
    let mut store = Store::new();
    let three = b"<:ab:12345678901234567><:ab:12345678901234567><:ab:12345678901234567>"
        .to_vec();
    let one = b"<:ab:12345678901234567>".to_vec();
    process_message(&mut store, &three);
    process_message(&mut store, &one);
    let row = store.get(12345678901234567).unwrap();
    assert_eq!(row.uses, 4);
    assert_eq!(row.uniq, 2);
}

#[test]
fn two_distinct_emotes_in_one_message() {
    let mut store = Store::new();
    let text = b"<:ab:12345678901234567> <a:cd:12345678901234568>".to_vec();
    process_message(&mut store, &text);
    assert_eq!(store.len(), 2);
    let a = store.get(12345678901234567).unwrap();
    assert_eq!(a.uses, 1);
    assert_eq!(a.uniq, 1);
    assert!(!a.animated);
    let c = store.get(12345678901234568).unwrap();
    assert_eq!(c.uses, 1);
    assert!(c.animated);
}

#[test]
fn message_without_references_writes_nothing() {
    let mut store = Store::new();
    process_message(&mut store, &b"no emotes here".to_vec());
    assert_eq!(store.len(), 0);
}

#[test]
fn message_preserves_reacts_of_existing_row() {
    let mut store = Store::new();
    process_reaction(&mut store, &EmoteRef {
        id: 12345678901234567,
        name: b"ab".to_vec(),
        animated: false,
    });
    process_message(&mut store, &b"<:ab:12345678901234567>".to_vec());
    let row = store.get(12345678901234567).unwrap();
    assert_eq!(row.reacts, 1);
    assert_eq!(row.uses, 1);
    assert_eq!(row.uniq, 1);
}

#[test]
fn message_takes_latest_name_and_keeps_animated() {
    let mut store = Store::new();
    process_message(&mut store, &b"<a:old_name:12345678901234567>".to_vec());
    process_message(&mut store, &b"<:new_name:12345678901234567>".to_vec());
    let row = store.get(12345678901234567).unwrap();
    assert_eq!(row.name, b"new_name".to_vec());
    assert!(row.animated);
}

#[test]
fn reaction_on_fresh_id_opens_zero_use_row() {
    let mut store = Store::new();
    let ev = EmoteRef { id: 111, name: b"yay".to_vec(), animated: false };
    process_reaction(&mut store, &ev);
    let row = store.get(111).unwrap();
    assert_eq!(row.id, 111);
    assert_eq!(row.reacts, 1);
    assert_eq!(row.uses, 0);
    assert_eq!(row.uniq, 0);
    assert_eq!(row.name, b"yay".to_vec());
    assert!(!row.animated);
}

#[test]
fn second_reaction_only_bumps_reacts() {
    let mut store = Store::new();
    process_reaction(&mut store, &EmoteRef { id: 111, name: b"yay".to_vec(), animated: false });
    process_reaction(&mut store, &EmoteRef { id: 111, name: b"other".to_vec(), animated: true });
    let row = store.get(111).unwrap();
    assert_eq!(row.reacts, 2);
    assert_eq!(row.name, b"yay".to_vec());
    assert_eq!(row.uses, 0);
    assert_eq!(row.uniq, 0);
    assert!(!row.animated);
}

#[test]
fn kth_reaction_yields_k() {
    let mut store = Store::new();
    for k in 1..=5u64 {
        process_reaction(&mut store, &EmoteRef {
            id: 222,
            name: b"hm".to_vec(),
            animated: false,
        });
        let row = store.get(222).unwrap();
        assert_eq!(row.reacts, k);
        assert_eq!(row.uses, 0);
        assert_eq!(row.uniq, 0);
    }
}

#[test]
fn upsert_round_trip_keeps_every_field() {
    let mut store = Store::new();
    store.upsert(EmoteStats {
        id: 42,
        name: b"keep".to_vec(),
        uses: 7,
        uniq: 3,
        reacts: 9,
        animated: true,
    });
    let row = store.get(42).unwrap();
    assert_eq!(row.id, 42);
    assert_eq!(row.name, b"keep".to_vec());
    assert_eq!(row.uses, 7);
    assert_eq!(row.uniq, 3);
    assert_eq!(row.reacts, 9);
    assert!(row.animated);
}

#[test]
fn upsert_replaces_in_place_and_keeps_others() {
    let mut store = Store::new();
    store.upsert(EmoteStats {
        id: 1,
        name: b"one".to_vec(),
        uses: 1,
        uniq: 1,
        reacts: 0,
        animated: false,
    });
    store.upsert(EmoteStats {
        id: 2,
        name: b"two".to_vec(),
        uses: 2,
        uniq: 1,
        reacts: 0,
        animated: false,
    });
    store.upsert(EmoteStats {
        id: 1,
        name: b"uno".to_vec(),
        uses: 5,
        uniq: 2,
        reacts: 1,
        animated: true,
    });
    assert_eq!(store.len(), 2);
    assert_eq!(store.row_at(0).id, 1);
    assert_eq!(store.row_at(0).name, b"uno".to_vec());
    assert_eq!(store.row_at(1).id, 2);
    assert_eq!(store.row_at(1).uses, 2);
}
