use orc_sdk::{fmt_raw_deck, Deck, OrcMark};

fn binary_deck(depth: u8) -> Deck<usize> {
    let mut deck = Deck::<usize>::default();
    for i in 0usize..(1 << depth) {
        deck.push(i, (i.trailing_zeros() as u8).min(depth));
    }
    deck
}

fn mark_depths<T: Default>(deck: &Deck<T>) -> Vec<u8> {
    deck.marks().iter().map(|m| m.depth).collect()
}

fn mark_positions<T: Default>(deck: &Deck<T>) -> Vec<usize> {
    deck.marks().iter().map(|m| m.pos as usize).collect()
}

/// Collect depth-3 tree: all depth-2 groups, each with their depth-1 children.
fn tree3(deck: &Deck<u32>) -> Vec<Vec<Vec<u32>>> {
    deck.view(3)
        .advance_iter()
        .into_iter()
        .flat_map(|v| v.child().advance_iter())
        .map(|v2| {
            v2.child()
                .advance_iter()
                .into_iter()
                .map(|v1| v1.as_slice().to_vec())
                .collect::<Vec<_>>()
        })
        .collect()
}

/// Collect depth-2 tree: all depth-1 children across all depth-2 groups.
fn tree2(deck: &Deck<u32>) -> Vec<Vec<u32>> {
    deck.view(2)
        .advance_iter()
        .into_iter()
        .flat_map(|v2| v2.child().advance_iter())
        .map(|v1| v1.as_slice().to_vec())
        .collect()
}

fn display<T: Default + std::fmt::Display>(deck: &Deck<T>) -> String {
    let texts: Vec<String> = deck.items().iter().map(|x| x.to_string()).collect();
    fmt_raw_deck(&texts, deck.marks())
}

#[test]
fn t_basic_ops() {
    let deck = binary_deck(5);
    assert_eq!(deck.len(), 1 << 5);
    assert_eq!(deck.max_depth(), 5);
    {
        // Iterate from level 5.
        let mut counter = 0;
        for v5 in deck.view(5).advance_iter() {
            assert_eq!(v5.depth(), 5);
            assert_eq!(v5.len(), 32);
            for v4 in v5.child().advance_iter() {
                assert_eq!(v4.depth(), 4);
                assert_eq!(v4.len(), 16);
                for v3 in v4.child().advance_iter() {
                    assert_eq!(v3.depth(), 3);
                    assert_eq!(v3.len(), 8);
                    for v2 in v3.child().advance_iter() {
                        assert_eq!(v2.depth(), 2);
                        assert_eq!(v2.len(), 4);
                        for v1 in v2.child().advance_iter() {
                            assert_eq!(v1.depth(), 1);
                            for v0 in v1.child().advance_iter() {
                                assert_eq!(v0.depth(), 0);
                                assert_eq!(v0.len(), 1);
                                assert_eq!(v0.as_ref(), &counter);
                                counter += 1;
                            }
                        }
                    }
                }
            }
        }
    }
    {
        // Iterate from level 4.
        let mut counter = 0;
        for v4 in deck.view(4).advance_iter() {
            assert_eq!(v4.depth(), 4);
            for v3 in v4.child().advance_iter() {
                assert_eq!(v3.depth(), 3);
                for v2 in v3.child().advance_iter() {
                    assert_eq!(v2.depth(), 2);
                    for v1 in v2.child().advance_iter() {
                        assert_eq!(v1.depth(), 1);
                        for v0 in v1.child().advance_iter() {
                            assert_eq!(v0.depth(), 0);
                            assert_eq!(v0.len(), 1);
                            assert_eq!(v0.as_ref(), &counter);
                            counter += 1;
                        }
                    }
                }
            }
        }
    }
    {
        // Iterate from level 3.
        let mut counter = 0;
        for v3 in deck.view(3).advance_iter() {
            assert_eq!(v3.depth(), 3);
            for v2 in v3.child().advance_iter() {
                assert_eq!(v2.depth(), 2);
                for v1 in v2.child().advance_iter() {
                    assert_eq!(v1.depth(), 1);
                    for v0 in v1.child().advance_iter() {
                        assert_eq!(v0.depth(), 0);
                        assert_eq!(v0.len(), 1);
                        assert_eq!(v0.as_ref(), &counter);
                        counter += 1;
                    }
                }
            }
        }
    }
}

#[test]
fn t_deck_creation_macro() {
    // depth-1: flat list [0, 1, 2, 3]
    let mut d1 = Deck::default();
    d1.push(0usize, 1);
    d1.push(1, 0);
    d1.push(2, 0);
    d1.push(3, 0);
    assert_eq!(d1.len(), 4);
    assert_eq!(d1.max_depth(), 1);
    assert_eq!(d1.items(), &[0, 1, 2, 3]);
    assert_eq!(mark_depths(&d1), vec![0]);
    assert_eq!(mark_positions(&d1), vec![0]);
    // depth-2: list of lists [[0, 1], [2, 3]]
    let mut d2 = Deck::default();
    d2.push(0usize, 2);
    d2.push(1, 0);
    d2.push(2, 1);
    d2.push(3, 0);
    assert_eq!(d2.len(), 4);
    assert_eq!(d2.max_depth(), 2);
    assert_eq!(d2.items(), &[0, 1, 2, 3]);
    assert_eq!(mark_depths(&d2), vec![1, 0]);
    assert_eq!(mark_positions(&d2), vec![0, 2]);
    // depth-3: [[[0, 1], [2, 3]], [[4, 5], [6, 7]]] should match binary_deck(3)
    let mut d3 = Deck::default();
    d3.push(0usize, 3);
    d3.push(1, 0);
    d3.push(2, 1);
    d3.push(3, 0);
    d3.push(4, 2);
    d3.push(5, 0);
    d3.push(6, 1);
    d3.push(7, 0);
    let expected = binary_deck(3);
    assert_eq!(d3.items(), expected.items());
    assert_eq!(mark_depths(&d3), mark_depths(&expected));
    assert_eq!(mark_positions(&d3), mark_positions(&expected));
    // depth-3 with 3-way branching at the top:
    // [[[0, 1], [2, 3]], [[4, 5], [6, 7]], [[8, 9], [10, 11]]]
    let mut d3b = Deck::default();
    d3b.push(0usize, 3);
    d3b.push(1, 0);
    d3b.push(2, 1);
    d3b.push(3, 0);
    d3b.push(4, 2);
    d3b.push(5, 0);
    d3b.push(6, 1);
    d3b.push(7, 0);
    d3b.push(8, 2);
    d3b.push(9, 0);
    d3b.push(10, 1);
    d3b.push(11, 0);
    assert_eq!(d3b.len(), 12);
    assert_eq!(d3b.max_depth(), 3);
    assert_eq!(mark_depths(&d3b), vec![2, 0, 1, 0, 1, 0]);
    assert_eq!(mark_positions(&d3b), vec![0, 2, 4, 6, 8, 10]);
    // single element [42]
    let mut d_one = Deck::default();
    d_one.push(42usize, 1);
    assert_eq!(d_one.len(), 1);
    assert_eq!(d_one.max_depth(), 1);
    assert_eq!(mark_depths(&d_one), vec![0]);
    assert_eq!(mark_positions(&d_one), vec![0]);
}

#[test]
fn t_deck_edge_cases() {
    // Empty deck.
    let empty = Deck::<usize>::default();
    assert_eq!(empty.len(), 0);
    assert_eq!(empty.max_depth(), 0);
    assert_eq!(empty.view(0).advance_iter().len(), 0);
    // Single element at depth 0 (bare leaf).
    let mut d = Deck::default();
    d.push(42usize, 0);
    assert_eq!(d.len(), 1);
    assert_eq!(d.max_depth(), 0);
    assert!(d.marks().is_empty());
    let mut v = d.view(0).advance_iter().into_iter();
    let item = v.next().unwrap();
    assert_eq!(item.as_ref(), &42);
    assert!(v.next().is_none());
    // Single element at depth 1 (one-element list).
    let mut d = Deck::default();
    d.push(7usize, 1);
    assert_eq!(d.max_depth(), 1);
    assert_eq!(d.view(1).advance_iter().len(), 1);
    assert_eq!(d.view(1).advance_iter()[0].as_slice(), &[7]);
    // clear() resets everything.
    let mut d = binary_deck(3);
    d.clear();
    assert_eq!(d.len(), 0);
    assert_eq!(d.max_depth(), 0);
    // Re-use after clear.
    d.push(1usize, 1);
    d.push(2usize, 0);
    assert_eq!(d.len(), 2);
    assert_eq!(d.max_depth(), 1);
    assert_eq!(d.view(1).advance_iter()[0].as_slice(), &[1, 2]);
}

#[test]
fn t_deck_flatten() {
    // Flatten a deep deck: all items survive, structure collapses to depth 1.
    let mut d = binary_deck(4);
    let items_before: Vec<usize> = d.items().to_vec();
    d.flatten();
    assert_eq!(d.items(), items_before.as_slice());
    assert_eq!(d.max_depth(), 1);
    assert_eq!(d.marks().len(), 1);
    assert_eq!(d.marks()[0].depth, 0);
    assert_eq!(d.marks()[0].pos, 0);
    // Iterating at depth 1 yields all elements as one flat group.
    assert_eq!(d.view(1).advance_iter().len(), 1);
    assert_eq!(d.view(1).advance_iter()[0].as_slice(), items_before.as_slice());
    // Flatten a single-element deck: no marks needed.
    let mut d = Deck::default();
    d.push(5usize, 0);
    d.flatten();
    assert_eq!(d.max_depth(), 0);
    assert!(d.marks().is_empty());
    // Flatten an already-flat deck is idempotent.
    let mut d = binary_deck(3);
    d.flatten();
    let marks_after_first: Vec<(u8, usize)> = d.marks().iter().map(|m| (m.depth, m.pos as usize)).collect();
    d.flatten();
    let marks_after_second: Vec<(u8, usize)> = d.marks().iter().map(|m| (m.depth, m.pos as usize)).collect();
    assert_eq!(marks_after_first, marks_after_second);
}

#[test]
fn t_deck_graft() {
    // Graft increments every mark depth by 1.
    let mut d = binary_deck(3);
    d.graft();
    assert_eq!(d.max_depth(), 4);
    // Items are unchanged.
    assert_eq!(d.items(), binary_deck(3).items());
    // The deck is now a depth-4 structure.
    let mut counter = 0usize;
    for v3 in d.view(4).child().advance_iter() {
        assert_eq!(v3.depth(), 3);
        for v2 in v3.child().advance_iter() {
            assert_eq!(v2.depth(), 2);
            for v1 in v2.child().advance_iter() {
                assert_eq!(v1.depth(), 1);
                assert_eq!(v1.len(), 1);
                for val in v1.as_slice() {
                    assert_eq!(*val, counter);
                    counter += 1;
                }
            }
        }
    }
    assert_eq!(counter, 8);
    // Graft then flatten roundtrip: items survive.
    let mut d = binary_deck(2);
    let items = d.items().to_vec();
    d.graft();
    d.flatten();
    assert_eq!(d.items(), items.as_slice());
}

#[test]
fn t_deck_simplify() {
    // A deck whose mark depths already use every level 0..=max is unchanged.
    let mut d = binary_deck(3);
    let depths_before = mark_depths(&d);
    d.simplify();
    assert_eq!(mark_depths(&d), depths_before);
    // A deck with gaps: only external depths 0, 2, 5 present.
    let mut d = Deck::default();
    d.push(0usize, 5);
    d.push(1usize, 0);
    d.push(2usize, 2);
    d.push(3usize, 0);
    assert_eq!(mark_depths(&d), vec![4, 1]);
    d.simplify();
    assert_eq!(d.max_depth(), 2);
    assert_eq!(mark_depths(&d), vec![1, 0]);
    // Iteration still works correctly after remapping.
    assert_eq!(d.view(2).advance_iter().len(), 1);
    let mut counter = 0usize;
    for v1 in d.view(2).child().advance_iter() {
        for val in v1.as_slice() {
            assert_eq!(*val, counter);
            counter += 1;
        }
    }
    assert_eq!(counter, 4);
    // Simplify is idempotent.
    d.simplify();
    assert_eq!(mark_depths(&d), vec![1, 0]);
}

#[test]
fn t_empty_lists() {
    // Depth-1 empty list: []
    let mut d = Deck::<usize>::default();
    d.start_new_arr(1);
    assert_eq!(d.len(), 0);
    assert_eq!(d.max_depth(), 1);
    assert_eq!(d.marks().len(), 1);
    let groups = d.view(1).advance_iter();
    assert_eq!(groups.len(), 1);
    assert_eq!(groups[0].as_slice(), &[] as &[usize]);
    assert_eq!(groups[0].len(), 0);
    // ((1, 2), (), (3, 4))
    let mut d = Deck::default();
    d.push(1usize, 2);
    d.push(2, 0);
    d.start_new_arr(1);
    d.push(3, 1);
    d.push(4, 0);
    assert_eq!(d.len(), 4);
    assert_eq!(d.max_depth(), 2);
    assert_eq!(d.items(), &[1, 2, 3, 4]);
    assert_eq!(mark_positions(&d), vec![0, 2, 2]);
    let outer = d.view(2).advance_iter();
    assert_eq!(outer.len(), 1);
    let inner = outer[0].child().advance_iter();
    assert_eq!(inner.len(), 3);
    assert_eq!(inner[0].as_slice(), &[1, 2]);
    assert_eq!(inner[1].as_slice(), &[] as &[usize]);
    assert_eq!(inner[1].len(), 0);
    assert_eq!(inner[2].as_slice(), &[3, 4]);
    // ((), (1, 2), (3, 4))
    let mut d = Deck::default();
    d.start_new_arr(2);
    d.push(1usize, 1);
    d.push(2, 0);
    d.push(3, 1);
    d.push(4, 0);
    assert_eq!(d.items(), &[1, 2, 3, 4]);
    let outer = d.view(2).advance_iter();
    assert_eq!(outer.len(), 1);
    let inner = outer[0].child().advance_iter();
    assert_eq!(inner.len(), 3);
    assert_eq!(inner[0].as_slice(), &[] as &[usize]);
    assert_eq!(inner[1].as_slice(), &[1, 2]);
    assert_eq!(inner[2].as_slice(), &[3, 4]);
    // ((1, 2), (3, 4), ())
    let mut d = Deck::default();
    d.push(1usize, 2);
    d.push(2, 0);
    d.push(3, 1);
    d.push(4, 0);
    d.start_new_arr(1);
    assert_eq!(d.items(), &[1, 2, 3, 4]);
    let outer = d.view(2).advance_iter();
    assert_eq!(outer.len(), 1);
    let inner = outer[0].child().advance_iter();
    assert_eq!(inner.len(), 3);
    assert_eq!(inner[0].as_slice(), &[1, 2]);
    assert_eq!(inner[1].as_slice(), &[3, 4]);
    assert_eq!(inner[2].as_slice(), &[] as &[usize]);
    // ((), (), ())
    let mut d = Deck::<usize>::default();
    d.start_new_arr(2);
    d.start_new_arr(1);
    d.start_new_arr(1);
    assert_eq!(d.len(), 0);
    assert_eq!(d.max_depth(), 2);
    let outer = d.view(2).advance_iter();
    assert_eq!(outer.len(), 1);
    let inner = outer[0].child().advance_iter();
    assert_eq!(inner.len(), 3);
    for group in &inner {
        assert_eq!(group.as_slice(), &[] as &[usize]);
    }
    // (((1, 2), ()), ((3, 4)))
    let mut d = Deck::default();
    d.push(1usize, 3);
    d.push(2, 0);
    d.start_new_arr(1);
    d.push(3, 2);
    d.push(4, 0);
    assert_eq!(d.max_depth(), 3);
    let top = d.view(3).advance_iter();
    assert_eq!(top.len(), 1);
    let mid = top[0].child().advance_iter();
    assert_eq!(mid.len(), 2);
    let first_inner = mid[0].child().advance_iter();
    assert_eq!(first_inner.len(), 2);
    assert_eq!(first_inner[0].as_slice(), &[1, 2]);
    assert_eq!(first_inner[1].as_slice(), &[] as &[usize]);
    let second_inner = mid[1].child().advance_iter();
    assert_eq!(second_inner.len(), 1);
    assert_eq!(second_inner[0].as_slice(), &[3, 4]);
    // Flatten preserves items but drops empty structure.
    let mut d = Deck::default();
    d.push(1usize, 2);
    d.push(2, 0);
    d.start_new_arr(1);
    d.push(3, 1);
    d.push(4, 0);
    d.flatten();
    assert_eq!(d.items(), &[1, 2, 3, 4]);
    assert_eq!(d.max_depth(), 1);
    assert_eq!(d.view(1).advance_iter()[0].as_slice(), &[1, 2, 3, 4]);
}

/// [[1, 2], [], [3, 4]] written out push by push.
fn middle_empty() -> Deck<usize> {
    let mut d = Deck::default();
    d.push(1usize, 2);
    d.push(2, 0);
    d.start_new_arr(1);
    d.push(3, 1);
    d.push(4, 0);
    d
}

#[test]
fn t_empty_lists_macro() {
    // Empty group in the middle: [[1, 2], [], [3, 4]]
    let d = middle_empty();
    assert_eq!(d.items(), &[1, 2, 3, 4]);
    assert_eq!(d.max_depth(), 2);
    let outer = d.view(2).advance_iter();
    assert_eq!(outer.len(), 1);
    let inner = outer[0].child().advance_iter();
    assert_eq!(inner.len(), 3);
    assert_eq!(inner[0].as_slice(), &[1, 2]);
    assert_eq!(inner[1].as_slice(), &[] as &[usize]);
    assert_eq!(inner[2].as_slice(), &[3, 4]);
    // Empty group at the beginning: [[], [1, 2]]
    let mut d = Deck::default();
    d.start_new_arr(2);
    d.push(1usize, 1);
    d.push(2, 0);
    assert_eq!(d.items(), &[1, 2]);
    assert_eq!(d.max_depth(), 2);
    let inner = d.view(2).advance_iter()[0].child().advance_iter();
    assert_eq!(inner.len(), 2);
    assert_eq!(inner[0].as_slice(), &[] as &[usize]);
    assert_eq!(inner[1].as_slice(), &[1, 2]);
    // Empty group at the end: [[1, 2], []]
    let mut d = Deck::default();
    d.push(1usize, 2);
    d.push(2, 0);
    d.start_new_arr(1);
    let inner = d.view(2).advance_iter()[0].child().advance_iter();
    assert_eq!(inner.len(), 2);
    assert_eq!(inner[0].as_slice(), &[1, 2]);
    assert_eq!(inner[1].as_slice(), &[] as &[usize]);
    // All empty: [[], [], []]
    let mut d: Deck<i32> = Deck::default();
    d.start_new_arr(2);
    d.start_new_arr(1);
    d.start_new_arr(1);
    assert_eq!(d.len(), 0);
    assert_eq!(d.max_depth(), 2);
    let inner = d.view(2).advance_iter()[0].child().advance_iter();
    assert_eq!(inner.len(), 3);
    for g in &inner {
        assert_eq!(g.as_slice(), &[] as &[i32]);
    }
    // Single empty group: [[]]
    let mut d: Deck<i32> = Deck::default();
    d.start_new_arr(2);
    assert_eq!(d.len(), 0);
    assert_eq!(d.max_depth(), 2);
    let inner = d.view(2).advance_iter()[0].child().advance_iter();
    assert_eq!(inner.len(), 1);
    assert_eq!(inner[0].as_slice(), &[] as &[i32]);
    // Depth-3 with empty: [[[1, 2], []], [[3, 4]]]
    let mut d = Deck::default();
    d.push(1usize, 3);
    d.push(2, 0);
    d.start_new_arr(1);
    d.push(3, 2);
    d.push(4, 0);
    assert_eq!(d.max_depth(), 3);
    let mid = d.view(3).advance_iter()[0].child().advance_iter();
    assert_eq!(mid.len(), 2);
    let first = mid[0].child().advance_iter();
    assert_eq!(first.len(), 2);
    assert_eq!(first[0].as_slice(), &[1, 2]);
    assert_eq!(first[1].as_slice(), &[] as &[usize]);
    let second = mid[1].child().advance_iter();
    assert_eq!(second.len(), 1);
    assert_eq!(second[0].as_slice(), &[3, 4]);
    // Matches the manual construction from t_empty_lists.
    let macro_d = middle_empty();
    let mut manual_d = Deck::default();
    manual_d.push(1usize, 2);
    manual_d.push(2, 0);
    manual_d.start_new_arr(1);
    manual_d.push(3, 1);
    manual_d.push(4, 0);
    assert_eq!(macro_d.items(), manual_d.items());
    assert_eq!(mark_depths(&macro_d), mark_depths(&manual_d));
    assert_eq!(mark_positions(&macro_d), mark_positions(&manual_d));
}

#[test]
fn t_deck_writer_basic() {
    let mut deck: Deck<u32> = Deck::default();
    let mut counter = 0u32;
    {
        let mut dst3 = deck.writer(3);
        assert_eq!(dst3.depth(), 3);
        for _ in 0..3 {
            let mut dst2 = dst3.child();
            assert_eq!(dst2.depth(), 2);
            for _ in 0..3 {
                let mut dst1 = dst2.child();
                assert_eq!(dst1.depth(), 1);
                for _ in 0..3 {
                    dst1.push(counter);
                    counter += 1;
                }
                assert_eq!(dst1.len(), 3);
                assert_eq!(dst1.as_slice(), &[counter - 3, counter - 2, counter - 1]);
                assert_eq!(dst1.as_slice()[0], counter - 3);
                assert_eq!(dst1.as_slice()[2], counter - 1);
                dst1.as_slice_mut()[1] = counter - 2 + 100;
                dst1.as_slice_mut()[1] = counter - 2; // restore
                dst1.finish();
            }
            dst2.finish();
        }
        dst3.finish();
    }
    // Read and check.
    counter = 0;
    assert_eq!(
        tree3(&deck),
        vec![
            vec![vec![0, 1, 2], vec![3, 4, 5], vec![6, 7, 8]],
            vec![vec![9, 10, 11], vec![12, 13, 14], vec![15, 16, 17]],
            vec![vec![18, 19, 20], vec![21, 22, 23], vec![24, 25, 26]],
        ]
    );
    for v2 in deck.view(3).advance_iter().into_iter().flat_map(|g| g.child().advance_iter()) {
        assert_eq!(v2.as_slice()[0], counter);
        for v1 in v2.child().advance_iter() {
            let arr = v1.as_slice();
            assert_eq!(v1.as_slice()[0], counter);
            for val in arr {
                assert_eq!(*val, counter);
                counter += 1;
            }
        }
    }
}

#[test]
fn t_deck_writer_with_extend() {
    let mut deck: Deck<u32> = Deck::default();
    let mut counter = 0u32;
    {
        let mut dst3 = deck.writer(3);
        assert_eq!(dst3.depth(), 3);
        for _ in 0..3 {
            let mut dst2 = dst3.child();
            assert_eq!(dst2.depth(), 2);
            for _ in 0..3 {
                let mut dst1 = dst2.child();
                assert_eq!(dst1.depth(), 1);
                dst1.extend_from_slice(&[counter, counter + 1, counter + 2]);
                counter += 3;
                assert_eq!(dst1.len(), 3);
                let s = dst1.as_slice_mut();
                assert_eq!(s.len(), 3);
                assert_eq!(s[0], counter - 3);
                dst1.finish();
            }
            dst2.finish();
        }
        dst3.finish();
    }
    // Read and check.
    counter = 0;
    for v2 in deck.view(3).advance_iter().into_iter().flat_map(|g| g.child().advance_iter()) {
        for v1 in v2.child().advance_iter() {
            let arr = v1.as_slice();
            for val in arr {
                assert_eq!(*val, counter);
                counter += 1;
            }
        }
    }
}

#[test]
fn t_unbalanced_tree() {
    // Asymmetric: ((1), (2, 3, 4), (5, 6))
    let mut deck: Deck<u32> = Deck::default();
    {
        let mut dst = deck.writer(2);
        {
            let mut c = dst.child();
            c.push(1);
            c.finish();
        }
        {
            let mut c = dst.child();
            c.push(2);
            c.push(3);
            c.push(4);
            c.finish();
        }
        {
            let mut c = dst.child();
            c.push(5);
            c.push(6);
            c.finish();
        }
        dst.finish();
    }
    assert_eq!(tree2(&deck), vec![vec![1], vec![2, 3, 4], vec![5, 6]]);
}

#[test]
fn t_empty_groups_via_deck_writer() {
    // Build ((), (1, 2), (), (3), ())
    let mut deck: Deck<u32> = Deck::default();
    {
        let mut dst = deck.writer(2);
        {
            dst.child().finish();
        } // empty
        {
            let mut c = dst.child();
            c.push(1);
            c.push(2);
            c.finish();
        }
        {
            dst.child().finish();
        } // empty
        {
            let mut c = dst.child();
            c.push(3);
            c.finish();
        }
        {
            dst.child().finish();
        } // empty
        dst.finish();
    }
    assert_eq!(tree2(&deck), vec![vec![], vec![1, 2], vec![], vec![3], vec![]]);
    assert_eq!(deck.items(), &[1, 2, 3]);
}

#[test]
fn t_nested_empty_via_deck_writer() {
    // Build (((), (1, 2)), ((3,)), ((),)) — depth 3
    let mut deck: Deck<u32> = Deck::default();
    {
        let mut dst3 = deck.writer(3);
        {
            let mut dst2 = dst3.child();
            {
                dst2.child().finish();
            } // empty inner
            {
                let mut dst1 = dst2.child();
                dst1.push(1);
                dst1.push(2);
                dst1.finish();
            }
            dst2.finish();
        }
        {
            let mut dst2 = dst3.child();
            {
                let mut dst1 = dst2.child();
                dst1.push(3);
                dst1.finish();
            }
            dst2.finish();
        }
        {
            let mut dst2 = dst3.child();
            {
                dst2.child().finish();
            } // empty inner
            dst2.finish();
        }
        dst3.finish();
    }
    assert_eq!(tree3(&deck), vec![vec![vec![], vec![1, 2]], vec![vec![3]], vec![vec![]],]);
}

#[test]
fn t_extend_empty_iterator() {
    // Extend with empty slice should create an empty group.
    let mut deck: Deck<u32> = Deck::default();
    {
        let mut dst = deck.writer(2);
        {
            let mut c = dst.child();
            c.extend_from_slice(&[1, 2]);
            c.finish();
        }
        {
            let mut c = dst.child();
            c.extend_from_slice(&[]); // empty extend
            c.finish();
        }
        {
            let mut c = dst.child();
            c.extend(Vec::<u32>::new()); // empty extend
            c.finish();
        }
        {
            let mut c = dst.child();
            c.extend_from_slice(&[3]);
            c.finish();
        }
        dst.finish();
    }
    assert_eq!(tree2(&deck), vec![vec![1, 2], vec![], vec![], vec![3]]);
}

#[test]
fn t_single_element_deep() {
    // One item wrapped at depth 5: (((((42)))))
    let mut deck: Deck<u32> = Deck::default();
    {
        let mut v5 = deck.writer(5);
        let mut v4 = v5.child();
        let mut v3 = v4.child();
        let mut v2 = v3.child();
        let mut v1 = v2.child();
        v1.push(42);
        v1.finish();
    }
    assert_eq!(deck.max_depth(), 5);
    assert_eq!(deck.len(), 1);
    let leaf = deck
        .view(5)
        .advance_iter()
        .into_iter()
        .flat_map(|g| g.child().advance_iter())
        .flat_map(|g| g.child().advance_iter())
        .flat_map(|g| g.child().advance_iter())
        .next()
        .unwrap();
    assert_eq!(leaf.as_slice(), &[42]);
}

#[test]
fn t_append_to_existing() {
    let mut deck: Deck<u32> = Deck::default();
    deck.push(1, 2);
    deck.push(2, 0);
    deck.push(3, 1);
    deck.push(4, 0);
    // deck is ((1,2),(3,4)) at depth 2
    assert_eq!(tree2(&deck), vec![vec![1, 2], vec![3, 4]]);
    // Append another group at depth 1 (same outer group).
    {
        let mut dst = deck.writer(1);
        dst.push(5);
        dst.push(6);
        dst.finish();
    }
    assert_eq!(tree2(&deck), vec![vec![1, 2], vec![3, 4], vec![5, 6]]);
}

#[test]
fn t_view_intermediate_depth() {
    let mut deck: Deck<u32> = Deck::default();
    {
        let mut dst3 = deck.writer(3);
        for i in 0..2u32 {
            let mut dst2 = dst3.child();
            for j in 0..2u32 {
                let mut dst1 = dst2.child();
                dst1.push(i * 4 + j * 2);
                dst1.push(i * 4 + j * 2 + 1);
                dst1.finish();
            }
            dst2.finish();
        }
        dst3.finish();
    }
    assert_eq!(tree3(&deck), vec![vec![vec![0, 1], vec![2, 3]], vec![vec![4, 5], vec![6, 7]]]);
    assert_eq!(tree2(&deck), vec![vec![0, 1], vec![2, 3], vec![4, 5], vec![6, 7]]);
    let flat: Vec<_> = deck.view(1).advance_iter().into_iter().map(|v| v.as_slice().to_vec()).collect();
    assert_eq!(flat, vec![vec![0, 1], vec![2, 3], vec![4, 5], vec![6, 7]]);
}

#[test]
fn t_graft_simplify_after_deck_writer() {
    let mut deck: Deck<u32> = Deck::default();
    {
        let mut dst = deck.writer(2);
        {
            let mut c = dst.child();
            c.push(1);
            c.push(2);
            c.finish();
        }
        {
            let mut c = dst.child();
            c.push(3);
            c.finish();
        }
        dst.finish();
    }
    assert_eq!(tree2(&deck), vec![vec![1, 2], vec![3]]);
    // Graft: depth 2 → 3
    deck.graft();
    assert_eq!(deck.max_depth(), 3);
    assert_eq!(tree3(&deck), vec![vec![vec![1], vec![2]], vec![vec![3]]]);
    // Simplify should be a no-op (depths are already contiguous).
    let depths_before = mark_depths(&deck);
    deck.simplify();
    assert_eq!(mark_depths(&deck), depths_before);
    // Flatten.
    deck.flatten();
    assert_eq!(deck.max_depth(), 1);
    assert_eq!(deck.items(), &[1, 2, 3]);
}

#[test]
fn t_all_empty_via_deck_writer() {
    // Depth-3 tree with no items at all: (((), ()), (()))
    let mut deck: Deck<u32> = Deck::default();
    {
        let mut dst3 = deck.writer(3);
        {
            let mut dst2 = dst3.child();
            {
                dst2.child().finish();
            }
            {
                dst2.child().finish();
            }
            dst2.finish();
        }
        {
            let mut dst2 = dst3.child();
            {
                dst2.child().finish();
            }
            dst2.finish();
        }
        dst3.finish();
    }
    assert_eq!(deck.len(), 0);
    assert_eq!(deck.max_depth(), 3);
    assert_eq!(tree3(&deck), vec![vec![vec![], vec![]], vec![vec![]]]);
}

#[test]
fn t_deck_riter_len_at_each_level() {
    let mut deck: Deck<u32> = Deck::default();
    {
        let mut dst3 = deck.writer(3);
        assert_eq!(dst3.len(), 0);
        {
            let mut dst2 = dst3.child();
            assert_eq!(dst2.len(), 0);
            {
                let mut dst1 = dst2.child();
                assert_eq!(dst1.len(), 0);
                dst1.push(10);
                assert_eq!(dst1.len(), 1);
                dst1.push(20);
                assert_eq!(dst1.len(), 2);
                dst1.finish();
            }
            assert_eq!(dst2.len(), 2);
            {
                let mut dst1 = dst2.child();
                dst1.push(30);
                assert_eq!(dst1.len(), 1);
                dst1.finish();
            }
            assert_eq!(dst2.len(), 3);
            dst2.finish();
        }
        assert_eq!(dst3.len(), 3);
        {
            let mut dst2 = dst3.child();
            assert_eq!(dst2.len(), 0);
            {
                let mut dst1 = dst2.child();
                dst1.push(40);
                dst1.finish();
            }
            assert_eq!(dst2.len(), 1);
            dst2.finish();
        }
        assert_eq!(dst3.len(), 4);
        dst3.finish();
    }
    assert_eq!(deck.len(), 4);
}

#[test]
fn t_deck_display() {
    let deck = binary_deck(5);
    assert_eq!(
        display(&deck).trim(),
        "
     5 ──────────────┤ 0
                     ┤ 1
                 1 ──┤ 2
                     ┤ 3
              2 ─────┤ 4
                     ┤ 5
                 1 ──┤ 6
                     ┤ 7
           3 ────────┤ 8
                     ┤ 9
                 1 ──┤ 10
                     ┤ 11
              2 ─────┤ 12
                     ┤ 13
                 1 ──┤ 14
                     ┤ 15
        4 ───────────┤ 16
                     ┤ 17
                 1 ──┤ 18
                     ┤ 19
              2 ─────┤ 20
                     ┤ 21
                 1 ──┤ 22
                     ┤ 23
           3 ────────┤ 24
                     ┤ 25
                 1 ──┤ 26
                     ┤ 27
              2 ─────┤ 28
                     ┤ 29
                 1 ──┤ 30
                     ┤ 31
"
        .trim()
    );
    // Depth-2 with empty groups and multi-item groups:
    // [[1, 2, 3], [], [4, 5, 6, 7], [], [8, 9, 10, 11], []]
    let mut deck: Deck<u32> = Deck::default();
    deck.push(1, 2);
    deck.push(2, 0);
    deck.push(3, 0);
    deck.start_new_arr(1);
    deck.push(4, 1);
    deck.push(5, 0);
    deck.push(6, 0);
    deck.push(7, 0);
    deck.start_new_arr(1);
    deck.push(8, 1);
    deck.push(9, 0);
    deck.push(10, 0);
    deck.push(11, 0);
    deck.start_new_arr(1);
    assert_eq!(
        display(&deck).trim(),
        "
     2 ─────┤ 1
            ┤ 2
            ┤ 3
        1 ──┤
        1 ──┤ 4
            ┤ 5
            ┤ 6
            ┤ 7
        1 ──┤
        1 ──┤ 8
            ┤ 9
            ┤ 10
            ┤ 11
        1 ──┤
"
        .trim()
    );
    // Depth-1: flat list [10, 20, 30].
    let mut deck: Deck<u32> = Deck::default();
    deck.push(10, 1);
    deck.push(20, 0);
    deck.push(30, 0);
    assert_eq!(
        display(&deck).trim(),
        "
     1 ──┤ 10
         ┤ 20
         ┤ 30
"
        .trim()
    );
    // Single element [42].
    let mut deck: Deck<u32> = Deck::default();
    deck.push(42, 1);
    assert_eq!(
        display(&deck).trim(),
        "
  1 ──┤ 42
"
        .trim()
    );
    // All-empty depth-2: [[], [], []]
    let mut deck: Deck<u32> = Deck::default();
    deck.start_new_arr(2);
    deck.start_new_arr(1);
    deck.start_new_arr(1);
    assert_eq!(
        display(&deck).trim(),
        "
     2 ─────┤
        1 ──┤
        1 ──┤
"
        .trim()
    );
    // Empty deck.
    let deck: Deck<u32> = Deck::default();
    assert_eq!(display(&deck).trim(), "<empty_deck>");
    // Depth-3 with nested empty: [[[1, 2], []], [[]], [[3]]]
    let mut deck: Deck<u32> = Deck::default();
    deck.push(1, 3);
    deck.push(2, 0);
    deck.start_new_arr(1);
    deck.start_new_arr(2);
    deck.push(3, 2);
    assert_eq!(
        display(&deck).trim(),
        "
     3 ────────┤ 1
               ┤ 2
           1 ──┤
        2 ─────┤
        2 ─────┤ 3
"
        .trim()
    );
    // Single item, no marks.
    let deck: Deck<i32> = Deck::from_raw_data(&[42], &[]);
    assert_eq!(display(&deck).trim(), "┤ 42");
}

#[test]
fn marks_from_raw_data_round_trip() {
    let marks = [OrcMark { depth: 1, pos: 0 }, OrcMark { depth: 0, pos: 2 }];
    let deck: Deck<u32> = Deck::from_raw_data(&[1, 2, 3], &marks);
    assert_eq!(deck.items(), &[1, 2, 3]);
    assert_eq!(deck.marks(), &marks);
    assert_eq!(tree2(&deck), vec![vec![1, 2], vec![3]]);
}

#[test]
fn rebuilt_deck_has_the_same_stride_tables() {
    let mut deck = binary_deck(3);
    deck.graft();
    let rebuilt: Deck<usize> = Deck::from_raw_data(deck.items(), deck.marks());
    assert_eq!(rebuilt.items(), deck.items());
    assert_eq!(rebuilt.marks(), deck.marks());
    assert_eq!(rebuilt.stride_info(), deck.stride_info());
    let (offsets, strides) = rebuilt.stride_info();
    assert_eq!(offsets.len(), deck.marks().len());
    assert_eq!(strides.len() as u64, deck.marks().iter().map(|m| m.depth as u64).sum::<u64>());
}

#[test]
fn child_of_level_one_view_walks_its_items() {
    let marks = [OrcMark { depth: 1, pos: 0 }, OrcMark { depth: 0, pos: 2 }];
    let deck: Deck<u32> = Deck::from_raw_data(&[1, 2, 3], &marks);
    let groups = deck.view(2).child().advance_iter();
    assert_eq!(groups.len(), 2);
    for g in groups {
        assert_eq!(g.depth(), 1);
        let child = g.child();
        assert_eq!(child.depth(), 0);
        let items: Vec<u32> = child.advance_iter().iter().map(|v| *v.as_ref()).collect();
        assert_eq!(items, g.as_slice().to_vec());
        assert_eq!(child.child().depth(), 0);
        assert_eq!(*child.child().as_ref(), *child.as_ref());
    }
}

#[test]
fn children_of_a_group_cover_its_items() {
    let deck = binary_deck(3);
    let top = deck.marks()[0].depth + 1;
    let mut level: Vec<_> = deck.view(top).advance_iter();
    for depth in (2..=top).rev() {
        let mut next = Vec::new();
        for g in &level {
            assert_eq!(g.depth(), depth);
            let parts = g.child().advance_iter();
            let joined: Vec<usize> = parts.iter().flat_map(|c| c.as_slice().to_vec()).collect();
            assert_eq!(joined, g.as_slice().to_vec());
            next.extend(parts);
        }
        level = next;
    }
    let all: Vec<usize> = level.iter().flat_map(|c| c.as_slice().to_vec()).collect();
    assert_eq!(all, (0..8).collect::<Vec<usize>>());
}
