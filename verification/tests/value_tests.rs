use orc_sdk::{
    dims_divide, dims_multiply, dims_pow, next_handle_id, DagError, Deck, DeckRegistry, Error, NestedVec, OrcDims,
    OrcPrimitiveTypeId, ORC_NUM_DIMS,
};

#[test]
fn dims_multiply_adds_exponents() {
    let a = [1, 0, -2, 0, 0, 3, 0];
    let b = [2, 1, 1, 0, -1, 0, 0];
    assert_eq!(dims_multiply(&a, &b), [3, 1, -1, 0, -1, 3, 0]);
    assert_eq!(OrcDims(a).multiply(&OrcDims(b)), OrcDims([3, 1, -1, 0, -1, 3, 0]));
}

#[test]
fn dims_divide_subtracts_exponents() {
    let a = [1, 0, -2, 0, 0, 3, 0];
    let b = [2, 1, 1, 0, -1, 0, 0];
    assert_eq!(dims_divide(&a, &b), [-1, -1, -3, 0, 1, 3, 0]);
    assert_eq!(OrcDims(a).divide(&OrcDims(b)), OrcDims([-1, -1, -3, 0, 1, 3, 0]));
}

#[test]
fn divide_undoes_multiply_on_values() {
    let a = [4, -3, 0, 1, 0, 0, 7];
    let b = [-1, 2, 5, 0, 0, 1, -7];
    assert_eq!(dims_divide(&dims_multiply(&a, &b), &b), a);
}

#[test]
fn dims_pow_scales_exponents() {
    assert_eq!(dims_pow(&[1, 0, -2, 0, 0, 3, 0], 3), [3, 0, -6, 0, 0, 9, 0]);
    assert_eq!(dims_pow(&[1, 2, 3, 4, 5, 6, 7], 0), [0; ORC_NUM_DIMS]);
}

#[test]
fn orc_dims_pow_raises_each_exponent() {
    assert_eq!(OrcDims([2, -3, 0, 1, 0, 0, -1]).pow(3), OrcDims([8, -27, 0, 1, 0, 0, -1]));
    assert_eq!(OrcDims([5, 0, 0, 0, 0, 0, 0]).pow(0), OrcDims([1, 1, 1, 1, 1, 1, 1]));
    assert_eq!(OrcDims::default(), OrcDims([0; ORC_NUM_DIMS]));
}

#[test]
fn next_handle_id_counts_and_wraps() {
    let mut counter = 41u64;
    assert_eq!(next_handle_id(&mut counter), 41);
    assert_eq!(next_handle_id(&mut counter), 42);
    assert_eq!(counter, 43);
    let mut counter = u64::MAX;
    assert_eq!(next_handle_id(&mut counter), u64::MAX);
    assert_eq!(counter, 0);
}

#[test]
fn primitive_codes() {
    assert_eq!(OrcPrimitiveTypeId::U8.code(), 0x01);
    assert_eq!(OrcPrimitiveTypeId::U64.code(), 0x04);
    assert_eq!(OrcPrimitiveTypeId::F32.code(), 0x05);
    assert_eq!(OrcPrimitiveTypeId::F64.code(), 0x06);
    assert_eq!(OrcPrimitiveTypeId::I8.code(), 0x11);
    assert_eq!(OrcPrimitiveTypeId::I64.code(), 0x14);
    assert_eq!(OrcPrimitiveTypeId::Opaque.code(), u32::MAX);
}

#[test]
fn error_messages() {
    assert_eq!(Error::InvalidHandle.message(), "Invalid handle");
    assert_eq!(Error::OutOfBounds.message(), "Memory out of bounds");
    assert_eq!(Error::Unknown.message(), "Unknown error");
}

#[test]
fn nested_vec_lists_and_out_of_range() {
    let mut nv = NestedVec::<u32>::default();
    assert!(matches!(nv.get(0), Err(DagError::ReadError)));
    nv.push_slice(&[1, 2, 3]);
    nv.push_slice(&[]);
    nv.push_slice(&[4]);
    assert_eq!(nv.get(0).unwrap(), &[1, 2, 3]);
    assert_eq!(nv.get(1).unwrap(), &[] as &[u32]);
    assert_eq!(nv.get(2).unwrap(), &[4]);
    assert!(matches!(nv.get(3), Err(DagError::ReadError)));
    nv.clear();
    assert!(matches!(nv.get(0), Err(DagError::ReadError)));
}

#[test]
fn registry_alloc_replaces_and_free_removes() {
    let mut reg = DeckRegistry::<Deck<u32>>::new();
    let mut d = Deck::default();
    d.push(1u32, 1);
    reg.alloc_with_value(3, d);
    reg.alloc_with_value(3, Deck::default());
    assert_eq!(reg.count().unwrap(), 1);
    assert_eq!(reg.with_refs(&[3], |decks| decks[0].len()).unwrap(), 0);
    reg.free(3).unwrap();
    assert!(matches!(reg.free(3), Err(Error::InvalidHandle)));
    assert!(matches!(reg.with_mut(&[3], |_| ()), Err(Error::InvalidHandle)));
    assert_eq!(reg.count().unwrap(), 0);
}

#[test]
fn simplify_twice_changes_nothing_more() {
    let mut d = Deck::default();
    d.push(1u32, 3);
    d.push(2, 0);
    d.push(3, 2);
    d.push(4, 1);
    d.simplify();
    let items = d.items().to_vec();
    let marks = d.marks().to_vec();
    d.simplify();
    assert_eq!(d.items(), items.as_slice());
    assert_eq!(d.marks(), marks.as_slice());
}

#[test]
fn graft_adds_one_level_on_top() {
    let mut d = Deck::default();
    d.push(1u32, 1);
    d.push(2, 0);
    d.push(3, 1);
    let depth = d.max_depth();
    d.graft();
    assert_eq!(d.max_depth(), depth + 1);
    assert_eq!(d.items(), &[1, 2, 3]);
}
