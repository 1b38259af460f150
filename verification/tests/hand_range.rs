use rust_solver::hand_range::{card_idx_to_str, get_card_mask, hero_hole_vec, parse_hero_hole, HoleCards};

#[test]
fn card_masks() {
    assert_eq!(get_card_mask("KsKc"), Some((1u64 << 44) | (1u64 << 47)));
    assert_eq!(get_card_mask("2s"), Some(1));
    assert_eq!(get_card_mask("Ac"), Some(1u64 << 51));
    assert_eq!(get_card_mask(""), Some(0));
    assert_eq!(get_card_mask("Kx"), None);
    assert_eq!(get_card_mask("K"), None);
    assert_eq!(get_card_mask("ks"), None);
}

#[test]
fn hero_hole_parsing() {
    assert_eq!(parse_hero_hole("AsAh"), Some(HoleCards(48, 49)));
    assert_eq!(parse_hero_hole("KcKs"), Some(HoleCards(44, 47)));
    assert_eq!(parse_hero_hole("Td"), Some(HoleCards(34, 64)));
    assert_eq!(parse_hero_hole(""), None);
    assert_eq!(parse_hero_hole("zz"), None);
}

#[test]
fn hero_hole_names_lowest_first() {
    assert_eq!(hero_hole_vec("KsKc"), Some(vec!["Ks".to_string(), "Kc".to_string()]));
    assert_eq!(hero_hole_vec("Ah2d"), Some(vec!["2d".to_string(), "Ah".to_string()]));
    assert_eq!(hero_hole_vec("A"), None);
}

#[test]
fn card_names() {
    assert_eq!(card_idx_to_str(0), "2s");
    assert_eq!(card_idx_to_str(51), "Ac");
    assert_eq!(card_idx_to_str(34), "Td");
}

#[test]
fn hero_names_parse_back_to_the_same_cards() {
    for hand in ["KsKc", "Ah2d", "TdTh9c", ""] {
        let m = get_card_mask(hand).unwrap();
        let v = hero_hole_vec(hand).unwrap();
        assert_eq!(v.len() as u32, m.count_ones());
        assert_eq!(get_card_mask(&v.concat()), Some(m));
    }
}
