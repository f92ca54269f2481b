use orc_sdk::{Combinations, Deck, OrcMark};

/// A flat deck `[x0, x1, ...]`.
fn flat<T: Default + Copy>(xs: &[T]) -> Deck<T> {
    let mut d = Deck::default();
    push_group(&mut d, xs, 1);
    d
}

/// A depth-2 deck `[[..], [..], ...]`.
fn nested2<T: Default + Copy>(groups: &[&[T]]) -> Deck<T> {
    let mut d = Deck::default();
    push_groups(&mut d, groups, 2);
    d
}

/// A depth-3 deck `[[[..], ..], ..]`.
fn nested3<T: Default + Copy>(groups: &[&[&[T]]]) -> Deck<T> {
    let mut d = Deck::default();
    for (i, g) in groups.iter().enumerate() {
        push_groups(&mut d, g, if i == 0 { 3 } else { 2 });
    }
    d
}

/// The first group opens at `depth`, each later one at depth 1; an empty
/// group opens an empty array.
fn push_groups<T: Default + Copy>(d: &mut Deck<T>, groups: &[&[T]], depth: u8) {
    for (i, g) in groups.iter().enumerate() {
        push_group(d, g, if i == 0 { depth } else { 1 });
    }
}

fn push_group<T: Default + Copy>(d: &mut Deck<T>, xs: &[T], depth: u8) {
    if xs.is_empty() {
        d.start_new_arr(depth);
    } else {
        d.push(xs[0], depth);
        for x in &xs[1..] {
            d.push(*x, 0);
        }
    }
}

fn same_deck<T: Default + PartialEq + std::fmt::Debug>(a: &Deck<T>, b: &Deck<T>) {
    assert_eq!(a.items(), b.items());
    let am: Vec<OrcMark> = a.marks().to_vec();
    let bm: Vec<OrcMark> = b.marks().to_vec();
    assert_eq!(am, bm);
}

/// Picks `list[index]` for each combination of a list (read at depth 1) and
/// an index (read at depth 0).
fn list_item(lists: &Deck<f64>, indices: &Deck<u64>) -> Deck<f64> {
    let mut items: Deck<f64> = Deck::default();
    let shapes = [lists.shape(), indices.shape()];
    let mut comb = Combinations::from_shapes(&shapes, &[1, 0], &[0])
        .expect("Failed to create combinations helper struct");
    loop {
        let list_view = comb.get_input(lists.items(), 0);
        let index_view = comb.get_input(indices.items(), 1);
        let mut item_view = comb.get_output(&mut items, 0);
        assert_eq!(list_view.depth(), 1);
        assert_eq!(index_view.depth(), 0);
        assert_eq!(item_view.depth(), 0);
        let list = list_view.as_slice();
        let index = *index_view.as_ref();
        let item = item_view.push_default_mut();
        *item = list[index as usize];
        item_view.finish();
        if !comb.advance() {
            break;
        }
    }
    items
}

/// Adds two inputs read at `depth`, combination by combination; at depth 1
/// the first item of each group is added.
fn add_pairs(a: &Deck<f64>, b: &Deck<f64>, depth: u8) -> Deck<f64> {
    let mut out: Deck<f64> = Deck::default();
    let shapes = [a.shape(), b.shape()];
    let mut comb = Combinations::from_shapes(&shapes, &[depth, depth], &[0])
        .expect("Failed to create combinations helper struct");
    loop {
        let a_view = comb.get_input(a.items(), 0);
        let b_view = comb.get_input(b.items(), 1);
        let mut out_view = comb.get_output(&mut out, 0);
        assert_eq!(a_view.depth(), depth);
        assert_eq!(b_view.depth(), depth);
        assert_eq!(out_view.depth(), 0);
        let item = out_view.push_default_mut();
        *item = *a_view.as_ref() + *b_view.as_ref();
        out_view.finish();
        if !comb.advance() {
            break;
        }
    }
    out
}

/// The length of each list read at depth 1.
fn list_lengths(input: &Deck<f64>) -> Deck<u64> {
    let mut out: Deck<u64> = Deck::default();
    let shapes = [input.shape()];
    let mut comb = Combinations::from_shapes(&shapes, &[1], &[0])
        .expect("Failed to create combinations helper struct");
    loop {
        let list_view = comb.get_input(input.items(), 0);
        let mut out_view = comb.get_output(&mut out, 0);
        assert_eq!(list_view.depth(), 1);
        assert_eq!(out_view.depth(), 0);
        let item = out_view.push_default_mut();
        *item = list_view.len() as u64;
        out_view.finish();
        if !comb.advance() {
            break;
        }
    }
    out
}

#[test]
fn t_test_list_item_combinations() {
    let lists = nested2::<f64>(&[&[3.1, 6.2, 9.42], &[1.11, 2.21, 3.31], &[4.45, 3.35, 2.25]]);
    {
        // Order 2 list, single index.
        let items = list_item(&lists, &flat::<u64>(&[2]));
        // Input had 3 lists, so the output should have 3 items.
        assert_eq!(items.len(), 3);
        // The index is 2, so we should have item #2 from each list.
        assert_eq!(items.items(), &[9.42, 3.31, 2.25]);
    }
    {
        // Order 2 list with order 1 index.
        let items = list_item(&lists, &flat::<u64>(&[1, 2, 0]));
        assert_eq!(items.len(), 3);
        assert_eq!(items.items(), &[6.2, 3.31, 4.45]);
    }
    {
        // Order 2 list with order 2 index.
        let items = list_item(&lists, &nested2::<u64>(&[&[1, 2, 0], &[1, 1, 1]]));
        same_deck(&items, &nested2::<f64>(&[&[6.2, 3.31, 4.45], &[6.2, 2.21, 3.35]]));
    }
}

#[test]
fn t_test_add_f64_combinations() {
    {
        // Flat equal-length inputs: a and b each have 3 scalars.
        let out = add_pairs(&flat(&[1.0, 2.0, 3.0]), &flat(&[10.0, 20.0, 30.0]), 0);
        assert_eq!(out.len(), 3);
        assert_eq!(out.items(), &[11.0, 22.0, 33.0]);
    }
    {
        // Flat inputs, broadcast-last: a has 4 scalars, b has 2.
        let out = add_pairs(&flat(&[1.0, 2.0, 3.0, 4.0]), &flat(&[10.0, 20.0]), 0);
        // b is exhausted at 20.0 and stays there for the remaining elements of a.
        assert_eq!(out.len(), 4);
        assert_eq!(out.items(), &[11.0, 22.0, 23.0, 24.0]);
    }
    {
        // Depth-2 inputs, equal groups: 2 inner groups of 2 items each.
        let a = nested2::<f64>(&[&[1.0, 2.0], &[3.0, 4.0]]);
        let b = nested2::<f64>(&[&[10.0, 20.0], &[30.0, 40.0]]);
        let out = add_pairs(&a, &b, 0);
        same_deck(&out, &nested2::<f64>(&[&[11.0, 22.0], &[33.0, 44.0]]));
    }
    {
        // Depth-2 a, depth-3 b: b's single inner group broadcasts across a's two groups.
        let a = nested2::<f64>(&[&[1.0, 2.0], &[3.0, 4.0]]);
        let b = nested3::<f64>(&[&[&[10.0, 20.0]]]);
        let out = add_pairs(&a, &b, 0);
        same_deck(&out, &nested3::<f64>(&[&[&[11.0, 22.0], &[13.0, 24.0]]]));
    }
}

#[test]
fn t_test_list_length_combinations() {
    {
        // Depth-2 input: 5 lists, some empty.
        let input = nested2::<f64>(&[&[1.0, 2.0, 3.0], &[], &[4.0], &[], &[5.0, 6.0]]);
        let out = list_lengths(&input);
        assert_eq!(out.len(), 5);
        assert_eq!(out.items(), &[3u64, 0, 1, 0, 2]);
    }
    {
        // Depth-3 input: two outer groups each containing lists, with empty lists inside.
        let input = nested3::<f64>(&[&[&[1.0, 2.0], &[]], &[&[3.0, 4.0, 5.0], &[], &[6.0]]]);
        let out = list_lengths(&input);
        same_deck(&out, &nested2::<u64>(&[&[2, 0], &[3, 0, 1]]));
    }
}

#[test]
fn t_test_two_output_combinations() {
    {
        // One input, two outputs: square and cube of 3 scalars.
        let input = flat::<f64>(&[2.0, 3.0, 4.0]);
        let mut sq: Deck<f64> = Deck::default();
        let mut cb: Deck<f64> = Deck::default();
        let shapes = [input.shape()];
        let mut comb = Combinations::from_shapes(&shapes, &[0], &[0, 0])
            .expect("Failed to create combinations helper struct");
        loop {
            let in_view = comb.get_input(input.items(), 0);
            let mut sq_view = comb.get_output(&mut sq, 0);
            let mut cb_view = comb.get_output(&mut cb, 1);
            assert_eq!(in_view.depth(), 0);
            assert_eq!(sq_view.depth(), 0);
            assert_eq!(cb_view.depth(), 0);
            let x = *in_view.as_ref();
            let sq_item = sq_view.push_default_mut();
            *sq_item = x * x;
            let cb_item = cb_view.push_default_mut();
            *cb_item = x * x * x;
            sq_view.finish();
            cb_view.finish();
            if !comb.advance() {
                break;
            }
        }
        assert_eq!(sq.len(), 3);
        assert_eq!(cb.len(), 3);
        assert_eq!(sq.items(), &[4.0, 9.0, 16.0]);
        assert_eq!(cb.items(), &[8.0, 27.0, 64.0]);
    }
    {
        // Two inputs, two outputs: sum and product of 3 scalars each.
        let a = flat::<f64>(&[1.0, 2.0, 3.0]);
        let b = flat::<f64>(&[4.0, 5.0, 6.0]);
        let mut sum: Deck<f64> = Deck::default();
        let mut prod: Deck<f64> = Deck::default();
        let shapes = [a.shape(), b.shape()];
        let mut comb = Combinations::from_shapes(&shapes, &[0, 0], &[0, 0])
            .expect("Failed to create combinations helper struct");
        loop {
            let a_view = comb.get_input(a.items(), 0);
            let b_view = comb.get_input(b.items(), 1);
            let mut sum_view = comb.get_output(&mut sum, 0);
            let mut prod_view = comb.get_output(&mut prod, 1);
            assert_eq!(a_view.depth(), 0);
            assert_eq!(b_view.depth(), 0);
            assert_eq!(sum_view.depth(), 0);
            assert_eq!(prod_view.depth(), 0);
            let (av, bv) = (*a_view.as_ref(), *b_view.as_ref());
            let s = sum_view.push_default_mut();
            *s = av + bv;
            let p = prod_view.push_default_mut();
            *p = av * bv;
            sum_view.finish();
            prod_view.finish();
            if !comb.advance() {
                break;
            }
        }
        assert_eq!(sum.len(), 3);
        assert_eq!(prod.len(), 3);
        assert_eq!(sum.items(), &[5.0, 7.0, 9.0]);
        assert_eq!(prod.items(), &[4.0, 10.0, 18.0]);
    }
}

#[test]
fn t_test_first_add_combinations() {
    {
        // Equal-length: a and b each have 3 depth-1 groups.
        let a = nested2::<f64>(&[&[1.0, 99.0], &[2.0, 99.0], &[3.0, 99.0]]);
        let b = nested2::<f64>(&[&[10.0, 99.0], &[20.0, 99.0], &[30.0, 99.0]]);
        let out = add_pairs(&a, &b, 1);
        assert_eq!(out.len(), 3);
        assert_eq!(out.items(), &[11.0, 22.0, 33.0]);
    }
    {
        // Broadcast-last at group level: a has 4 groups, b has 2.
        let a = nested2::<f64>(&[&[1.0, 99.0], &[2.0, 99.0], &[3.0, 99.0], &[4.0, 99.0]]);
        let b = nested2::<f64>(&[&[10.0, 99.0], &[20.0, 99.0]]);
        let out = add_pairs(&a, &b, 1);
        // b is exhausted after its second group and stays there for the remaining groups of a.
        assert_eq!(out.len(), 4);
        assert_eq!(out.items(), &[11.0, 22.0, 23.0, 24.0]);
    }
}

#[test]
fn combinations_depth_count_mismatch_is_refused() {
    let a = flat::<u32>(&[1, 2, 3]);
    let shapes = [a.shape()];
    assert!(Combinations::from_shapes(&shapes, &[0, 0], &[0]).is_err());
    assert!(Combinations::from_shapes(&shapes, &[], &[0]).is_err());
}

#[test]
fn combinations_single_scalar_runs_once() {
    let a = flat::<u32>(&[7]);
    let shapes = [a.shape()];
    let mut comb = Combinations::from_shapes(&shapes, &[0], &[0]).unwrap();
    assert_eq!(*comb.get_input(a.items(), 0).as_ref(), 7);
    assert!(!comb.advance());
}
