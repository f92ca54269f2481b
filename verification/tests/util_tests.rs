use orc_sdk::{ContextArena, Arena, Deck, DeckRegistry, Error};

#[test]
fn t_free_unregistered() {
    let mut reg = DeckRegistry::<Deck<u32>>::new();
    assert!(matches!(reg.free(999), Err(Error::InvalidHandle)));
}

#[test]
fn t_with_mut_missing_id() {
    let mut reg = DeckRegistry::<Deck<u32>>::new();
    assert!(matches!(
        reg.with_mut::<(), _>(&[42], |_| ()),
        Err(Error::InvalidHandle)
    ));
}

#[test]
fn t_with_mut_borrows_and_mutates() {
    let mut reg = DeckRegistry::<Deck<f64>>::new();
    reg.alloc_with_value(10, Deck::default());
    reg.with_mut(&[10], |decks| {
        decks[0].push(3.1234, 1);
    })
    .unwrap();
    reg.with_mut(&[10], |decks| {
        assert_eq!(decks[0].items(), &[3.1234]);
    })
    .unwrap();
}

#[test]
fn with_mut_refuses_an_id_twice() {
    let mut reg = DeckRegistry::<u32>::new();
    reg.alloc_with_value(1, 5);
    assert!(matches!(reg.with_mut(&[1, 1], |_| ()), Err(Error::ConcurrencyProblem)));
    // A missing id is reported before a repeated one.
    assert!(matches!(reg.with_mut(&[1, 1, 7], |_| ()), Err(Error::InvalidHandle)));
}

#[test]
fn with_refs_reads_in_order() {
    let mut reg = DeckRegistry::<u32>::new();
    reg.alloc_with_value(1, 10);
    reg.alloc_with_value(2, 20);
    let sum = reg.with_refs(&[2, 1, 2], |vals| vals.iter().map(|v| **v).collect::<Vec<u32>>()).unwrap();
    assert_eq!(sum, vec![20, 10, 20]);
    assert!(matches!(reg.with_refs(&[3], |_| ()), Err(Error::InvalidHandle)));
    assert_eq!(reg.count().unwrap(), 2);
    reg.free(1).unwrap();
    assert_eq!(reg.count().unwrap(), 1);
}

#[test]
fn t_arena_insert_and_visit() {
    let mut arena = ContextArena::<Vec<u8>>::default();
    let ctx = arena.insert(|v| v.extend_from_slice(b"hello")).unwrap();
    let result = arena.visit_mut(ctx, |v| v.clone()).unwrap();
    assert_eq!(result, b"hello");
}

#[test]
fn t_arena_insert_returns_sequential_ids() {
    let mut arena = ContextArena::<Vec<u8>>::default();
    let a = arena.insert(|_| {}).unwrap();
    let b = arena.insert(|_| {}).unwrap();
    let c = arena.insert(|_| {}).unwrap();
    assert_eq!(a, 0);
    assert_eq!(b, 1);
    assert_eq!(c, 2);
}

#[test]
fn t_arena_consume_returns_data_and_frees_slot() {
    let mut arena = ContextArena::<Vec<u8>>::default();
    let ctx = arena.insert(|v| v.extend_from_slice(b"data")).unwrap();
    let data = arena.consume(ctx, std::mem::take).unwrap();
    assert_eq!(data, b"data");
    // Slot should be reused on next insert.
    let ctx2 = arena.insert(|_| {}).unwrap();
    assert_eq!(ctx2, ctx);
}

#[test]
fn t_arena_slot_reuse_preserves_capacity() {
    let mut arena = ContextArena::<Vec<u8>>::default();
    let ctx = arena.insert(|v| v.extend_from_slice(&[0u8; 1024])).unwrap();
    // Consume but don't take — just clear.
    arena.consume(ctx, |v| v.clear()).unwrap();
    // Reuse the slot and check the vec still has capacity.
    let ctx2 = arena.insert(|_| {}).unwrap();
    assert_eq!(ctx2, ctx);
    let cap = arena.visit_mut(ctx2, |v| v.capacity()).unwrap();
    assert!(cap >= 1024);
}

#[test]
fn t_arena_visit_invalid_ctx() {
    let mut arena = ContextArena::<Vec<u8>>::default();
    let result = arena.visit_mut(999, |_| {});
    assert!(matches!(result, Err(Error::InvalidContext)));
}

#[test]
fn t_arena_multiple_appends() {
    let mut arena = ContextArena::<Vec<u8>>::default();
    let ctx = arena.insert(|_| {}).unwrap();
    arena.visit_mut(ctx, |v| v.extend_from_slice(b"aaa")).unwrap();
    arena.visit_mut(ctx, |v| v.extend_from_slice(b"bbb")).unwrap();
    arena.visit_mut(ctx, |v| v.extend_from_slice(b"ccc")).unwrap();
    let result = arena.consume(ctx, std::mem::take).unwrap();
    assert_eq!(result, b"aaabbbccc");
}

#[test]
fn context_arena_keeps_a_bad_freed_id() {
    let mut arena = ContextArena::<u32>::default();
    // Consuming an id with no slot fails and frees nothing.
    assert!(matches!(arena.consume(3, |_| ()), Err(Error::InvalidContext)));
    assert_eq!(arena.insert(|v| *v = 7).unwrap(), 0);
}

#[test]
fn arena_frees_before_visiting() {
    let mut arena = Arena::<u32>::default();
    let a = arena.insert(|v| *v = 1).unwrap();
    assert_eq!(a, 0);
    assert_eq!(arena.consume(a, |v| *v).unwrap(), 1);
    assert_eq!(arena.insert(|v| *v = 2).unwrap(), 0);
    assert_eq!(arena.visit_mut(0, |v| *v).unwrap(), 2);
    // Consuming an id with no slot still frees it, and the next insert
    // meets it and fails, dropping it.
    assert!(matches!(arena.consume(9, |_| ()), Err(Error::InvalidContext)));
    assert!(matches!(arena.insert(|_| ()), Err(Error::InvalidContext)));
    assert_eq!(arena.insert(|v| *v = 3).unwrap(), 1);
}
