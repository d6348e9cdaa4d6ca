use emote_tally::parse::parse_refs;

#[test]
fn single_plain_reference() {
    let refs = parse_refs(&b"<:ab:12345678901234567>".to_vec());
    assert_eq!(refs.len(), 1);
    assert_eq!(refs[0].id, 12345678901234567);
    assert_eq!(refs[0].name, b"ab".to_vec());
    assert!(!refs[0].animated);
}

#[test]
fn single_animated_reference() {
    let refs = parse_refs(&b"<a:wave:987654321098765432>".to_vec());
    assert_eq!(refs.len(), 1);
    assert_eq!(refs[0].id, 987654321098765432);
    assert_eq!(refs[0].name, b"wave".to_vec());
    assert!(refs[0].animated);
}

#[test]
fn reference_inside_other_text() {
    let refs = parse_refs(&b"hello <:smile:123456789012345678> world".to_vec());
    assert_eq!(refs.len(), 1);
    assert_eq!(refs[0].name, b"smile".to_vec());
}

#[test]
fn two_references_in_order() {
    let refs = parse_refs(&b"<:ab:12345678901234567> x <a:cd:12345678901234568>".to_vec());
    assert_eq!(refs.len(), 2);
    assert_eq!(refs[0].name, b"ab".to_vec());
    assert!(!refs[0].animated);
    assert_eq!(refs[1].name, b"cd".to_vec());
    assert!(refs[1].animated);
}

#[test]
fn adjacent_references() {
    let refs = parse_refs(&b"<:ab:12345678901234567><:cd:12345678901234568>".to_vec());
    assert_eq!(refs.len(), 2);
    assert_eq!(refs[0].id, 12345678901234567);
    assert_eq!(refs[1].id, 12345678901234568);
}

#[test]
fn empty_text_yields_nothing() {
    let refs = parse_refs(&b"".to_vec());
    assert_eq!(refs.len(), 0);
}

#[test]
fn text_without_references_yields_nothing() {
    let refs = parse_refs(&b"just words :smile: and 12345678901234567".to_vec());
    assert_eq!(refs.len(), 0);
}

#[test]
fn name_of_one_character_is_not_a_match() {
    let refs = parse_refs(&b"<:a:12345678901234567>".to_vec());
    assert_eq!(refs.len(), 0);
}

#[test]
fn name_of_two_characters_matches() {
    let refs = parse_refs(&b"<:ab:12345678901234567>".to_vec());
    assert_eq!(refs.len(), 1);
}

#[test]
fn name_of_thirty_two_characters_matches() {
    let name = [b'x'; 32];
    let mut text = Vec::new();
    text.extend_from_slice(b"<:");
    text.extend_from_slice(&name);
    text.extend_from_slice(b":12345678901234567>");
    let refs = parse_refs(&text);
    assert_eq!(refs.len(), 1);
    assert_eq!(refs[0].name, name.to_vec());
}

#[test]
fn name_of_thirty_three_characters_is_not_a_match() {
    let name = [b'x'; 33];
    let mut text = Vec::new();
    text.extend_from_slice(b"<:");
    text.extend_from_slice(&name);
    text.extend_from_slice(b":12345678901234567>");
    let refs = parse_refs(&text);
    assert_eq!(refs.len(), 0);
}

#[test]
fn name_may_hold_digits_and_underscores() {
    let refs = parse_refs(&b"<:no_1:12345678901234567>".to_vec());
    assert_eq!(refs.len(), 1);
    assert_eq!(refs[0].name, b"no_1".to_vec());
}

#[test]
fn id_of_sixteen_digits_is_not_a_match() {
    let refs = parse_refs(&b"<:ab:1234567890123456>".to_vec());
    assert_eq!(refs.len(), 0);
}

#[test]
fn id_of_nineteen_digits_matches() {
    let refs = parse_refs(&b"<:ab:9999999999999999999>".to_vec());
    assert_eq!(refs.len(), 1);
    assert_eq!(refs[0].id, 9999999999999999999);
}

#[test]
fn id_of_twenty_digits_is_not_a_match() {
    let refs = parse_refs(&b"<:ab:12345678901234567890>".to_vec());
    assert_eq!(refs.len(), 0);
}

#[test]
fn missing_closing_bracket_is_not_a_match() {
    let refs = parse_refs(&b"<:ab:12345678901234567".to_vec());
    assert_eq!(refs.len(), 0);
}

#[test]
fn marker_other_than_a_is_not_a_match() {
    let refs = parse_refs(&b"<b:ab:12345678901234567>".to_vec());
    assert_eq!(refs.len(), 0);
}

#[test]
fn extra_opening_bracket_still_matches_inner_reference() {
    let refs = parse_refs(&b"<<:ab:12345678901234567>".to_vec());
    assert_eq!(refs.len(), 1);
    assert_eq!(refs[0].id, 12345678901234567);
}

#[test]
fn same_text_yields_same_sequence() {
    let text = b"a <:ab:12345678901234567> b <a:cd:12345678901234568>".to_vec();
    let first = parse_refs(&text);
    let second = parse_refs(&text);
    assert_eq!(first.len(), second.len());
    for k in 0..first.len() {
        assert_eq!(first[k].id, second[k].id);
        assert_eq!(first[k].name, second[k].name);
        assert_eq!(first[k].animated, second[k].animated);
    }
}
