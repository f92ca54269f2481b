use orc_sdk::{deck_view_literal, Deck};

fn text_deck(groups: &[&[&str]]) -> Deck<String> {
    let mut d = Deck::default();
    for (i, g) in groups.iter().enumerate() {
        let depth = if i == 0 { 2 } else { 1 };
        if g.is_empty() {
            d.start_new_arr(depth);
        } else {
            d.push(g[0].to_string(), depth);
            for x in &g[1..] {
                d.push(x.to_string(), 0);
            }
        }
    }
    d
}

#[test]
fn literal_of_a_nested_deck() {
    let d = text_deck(&[&["1.0", "2.0"], &["3.0"]]);
    assert_eq!(deck_view_literal(d.view(2)), "[[1.0, 2.0], [3.0]]");
}

#[test]
fn literal_with_empty_groups() {
    let d = text_deck(&[&[], &["7"], &[]]);
    assert_eq!(deck_view_literal(d.view(2)), "[[], [7], []]");
}

#[test]
fn literal_of_a_flat_deck_and_of_one_item() {
    let mut d = Deck::default();
    d.push("4".to_string(), 1);
    d.push("5".to_string(), 0);
    d.push("6".to_string(), 0);
    assert_eq!(deck_view_literal(d.view(1)), "[4, 5, 6]");
    assert_eq!(deck_view_literal(d.view(0)), "4");
}

#[test]
fn literal_of_an_inner_group() {
    let d = text_deck(&[&["1", "2"], &["3"]]);
    let groups = d.view(2).child().advance_iter();
    assert_eq!(groups.len(), 2);
    assert_eq!(deck_view_literal(groups[1]), "[3]");
}
