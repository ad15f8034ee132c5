use haste_entities::fieldstate::FieldState;
use haste_entities::fieldvalue::FieldValue;
use haste_entities::rangealloc::{RangeAlloc, RangeAllocError};

fn fresh(limit: usize) -> (FieldState, Vec<FieldState>, RangeAlloc) {
    (FieldState::new(), Vec::new(), RangeAlloc::new(limit))
}

fn value<'a>(root: &'a FieldState, buf: &'a Vec<FieldState>, fp: &[usize]) -> Option<&'a FieldValue> {
    root.get(fp, buf).and_then(|node| node.value.as_ref())
}

fn room(root: &FieldState, buf: &Vec<FieldState>, fp: &[usize]) -> Option<usize> {
    root.get(fp, buf).and_then(|node| node.children.as_ref().map(|run| run.end - run.start))
}

#[test]
fn new_node_is_empty() {
    let node = FieldState::new();
    assert!(node.value.is_none());
    assert!(node.children.is_none());
    let other = FieldState::default();
    assert!(other.value.is_none());
    assert!(other.children.is_none());
}

#[test]
fn set_on_the_empty_path_writes_the_root() {
    let (mut root, mut buf, mut alloc) = fresh(64);
    assert_eq!(root.set(&[], FieldValue::Bool(true), &mut buf, &mut alloc), Ok(()));
    assert_eq!(root.value, Some(FieldValue::Bool(true)));
    assert!(root.children.is_none());
    assert!(buf.is_empty());
    assert_eq!(value(&root, &buf, &[]), Some(&FieldValue::Bool(true)));
}

#[test]
fn set_then_get_single_component() {
    let (mut root, mut buf, mut alloc) = fresh(64);
    assert_eq!(root.set(&[3], FieldValue::U32(75), &mut buf, &mut alloc), Ok(()));
    assert_eq!(value(&root, &buf, &[3]), Some(&FieldValue::U32(75)));
    assert_eq!(value(&root, &buf, &[2]), None);
    assert_eq!(value(&root, &buf, &[8]), None);
    assert_eq!(value(&root, &buf, &[3, 0]), None);
    // a node that had no children gets room for eight
    assert_eq!(root.children, Some(0..8));
    assert_eq!(buf.len(), 8);
}

#[test]
fn later_write_to_the_same_path_wins() {
    let (mut root, mut buf, mut alloc) = fresh(64);
    assert_eq!(root.set(&[1, 2], FieldValue::I32(-1), &mut buf, &mut alloc), Ok(()));
    assert_eq!(root.set(&[1, 2], FieldValue::I32(5), &mut buf, &mut alloc), Ok(()));
    assert_eq!(value(&root, &buf, &[1, 2]), Some(&FieldValue::I32(5)));
    assert_eq!(value(&root, &buf, &[1]), None);
}

#[test]
fn node_may_hold_a_value_and_children() {
    let (mut root, mut buf, mut alloc) = fresh(64);
    assert_eq!(root.set(&[1], FieldValue::U8(1), &mut buf, &mut alloc), Ok(()));
    assert_eq!(root.set(&[1, 0], FieldValue::U8(2), &mut buf, &mut alloc), Ok(()));
    assert_eq!(value(&root, &buf, &[1]), Some(&FieldValue::U8(1)));
    assert_eq!(value(&root, &buf, &[1, 0]), Some(&FieldValue::U8(2)));
}

#[test]
fn first_child_beyond_eight_gets_exactly_enough_room() {
    for k in [8usize, 9, 20, 100] {
        let (mut root, mut buf, mut alloc) = fresh(1024);
        assert_eq!(root.set(&[k], FieldValue::U64(k as u64), &mut buf, &mut alloc), Ok(()));
        assert_eq!(root.children, Some(0..k + 1));
        assert_eq!(value(&root, &buf, &[k]), Some(&FieldValue::U64(k as u64)));
    }
}

#[test]
fn thirty_two_children_in_order() {
    let (mut root, mut buf, mut alloc) = fresh(1024);
    for k in 0..32usize {
        assert_eq!(root.set(&[k], FieldValue::U64(k as u64 * 10), &mut buf, &mut alloc), Ok(()));
    }
    let run = root.children.clone().unwrap();
    assert_eq!(run.end - run.start, 32);
    // eight at 0, sixteen at 8, thirty-two in the first free run after them
    assert_eq!(run, 24..56);
    for k in 0..32usize {
        assert_eq!(value(&root, &buf, &[k]), Some(&FieldValue::U64(k as u64 * 10)));
    }
    assert_eq!(value(&root, &buf, &[32]), None);
}

#[test]
fn growth_keeps_children_and_their_subtrees() {
    let (mut root, mut buf, mut alloc) = fresh(1024);
    assert_eq!(root.set(&[0, 0], FieldValue::String("A".to_string()), &mut buf, &mut alloc), Ok(()));
    assert_eq!(room(&root, &buf, &[0]), Some(8));
    assert_eq!(root.set(&[0, 15], FieldValue::String("B".to_string()), &mut buf, &mut alloc), Ok(()));
    assert_eq!(room(&root, &buf, &[0]), Some(16));
    assert_eq!(value(&root, &buf, &[0, 0]), Some(&FieldValue::String("A".to_string())));
    assert_eq!(value(&root, &buf, &[0, 15]), Some(&FieldValue::String("B".to_string())));
    assert_eq!(room(&root, &buf, &[]), Some(8));
}

#[test]
fn growth_doubles_until_the_child_fits() {
    let (mut root, mut buf, mut alloc) = fresh(1024);
    assert_eq!(root.set(&[0], FieldValue::U8(1), &mut buf, &mut alloc), Ok(()));
    assert_eq!(room(&root, &buf, &[]), Some(8));
    assert_eq!(root.set(&[100], FieldValue::U8(2), &mut buf, &mut alloc), Ok(()));
    assert_eq!(room(&root, &buf, &[]), Some(128));
    assert_eq!(value(&root, &buf, &[0]), Some(&FieldValue::U8(1)));
    assert_eq!(value(&root, &buf, &[100]), Some(&FieldValue::U8(2)));
}

#[test]
fn growth_moves_grandchildren_with_their_parents() {
    let (mut root, mut buf, mut alloc) = fresh(1024);
    assert_eq!(root.set(&[2, 5, 1], FieldValue::I64(-9), &mut buf, &mut alloc), Ok(()));
    assert_eq!(root.set(&[2, 5], FieldValue::I64(7), &mut buf, &mut alloc), Ok(()));
    assert_eq!(root.set(&[9], FieldValue::I64(1), &mut buf, &mut alloc), Ok(()));
    assert_eq!(root.set(&[2, 30], FieldValue::I64(2), &mut buf, &mut alloc), Ok(()));
    assert_eq!(value(&root, &buf, &[2, 5, 1]), Some(&FieldValue::I64(-9)));
    assert_eq!(value(&root, &buf, &[2, 5]), Some(&FieldValue::I64(7)));
    assert_eq!(value(&root, &buf, &[9]), Some(&FieldValue::I64(1)));
    assert_eq!(value(&root, &buf, &[2, 30]), Some(&FieldValue::I64(2)));
    assert_eq!(room(&root, &buf, &[]), Some(16));
    assert_eq!(room(&root, &buf, &[2]), Some(32));
    assert_eq!(room(&root, &buf, &[2, 5]), Some(8));
}

#[test]
fn freed_run_is_used_again() {
    let (mut root, mut buf, mut alloc) = fresh(1024);
    assert_eq!(root.set(&[0], FieldValue::U8(1), &mut buf, &mut alloc), Ok(()));
    assert_eq!(root.set(&[8], FieldValue::U8(2), &mut buf, &mut alloc), Ok(()));
    // the root moved from 0..8 to 8..24; the next node takes the freed run
    assert_eq!(root.children, Some(8..24));
    assert_eq!(root.set(&[0, 0], FieldValue::U8(3), &mut buf, &mut alloc), Ok(()));
    assert_eq!(root.get(&[0], &buf).unwrap().children, Some(0..8));
    assert_eq!(value(&root, &buf, &[0]), Some(&FieldValue::U8(1)));
    assert_eq!(value(&root, &buf, &[0, 0]), Some(&FieldValue::U8(3)));
    assert_eq!(value(&root, &buf, &[0, 1]), None);
}

#[test]
fn set_fails_when_the_pool_has_no_room() {
    let (mut root, mut buf, mut alloc) = fresh(16);
    assert_eq!(
        root.set(&[20], FieldValue::U8(1), &mut buf, &mut alloc),
        Err(RangeAllocError::Exhausted)
    );
    assert!(root.children.is_none());
    assert!(buf.is_empty());
    assert_eq!(root.set(&[15], FieldValue::U8(1), &mut buf, &mut alloc), Ok(()));
    assert_eq!(root.children, Some(0..16));
}

#[test]
fn failed_set_keeps_every_value() {
    let (mut root, mut buf, mut alloc) = fresh(16);
    assert_eq!(root.set(&[0, 0], FieldValue::U8(1), &mut buf, &mut alloc), Ok(()));
    assert_eq!(
        root.set(&[0, 9], FieldValue::U8(2), &mut buf, &mut alloc),
        Err(RangeAllocError::Exhausted)
    );
    assert_eq!(value(&root, &buf, &[0, 0]), Some(&FieldValue::U8(1)));
    assert_eq!(value(&root, &buf, &[0, 9]), None);
    // a write that needs no new room still goes through
    assert_eq!(root.set(&[0, 7], FieldValue::U8(3), &mut buf, &mut alloc), Ok(()));
    assert_eq!(value(&root, &buf, &[0, 7]), Some(&FieldValue::U8(3)));
}

#[test]
fn set_with_the_largest_index_fails() {
    let (mut root, mut buf, mut alloc) = fresh(64);
    assert_eq!(
        root.set(&[usize::MAX], FieldValue::U8(1), &mut buf, &mut alloc),
        Err(RangeAllocError::Exhausted)
    );
    assert_eq!(root.set(&[1], FieldValue::U8(1), &mut buf, &mut alloc), Ok(()));
    assert_eq!(
        root.set(&[usize::MAX], FieldValue::U8(1), &mut buf, &mut alloc),
        Err(RangeAllocError::Exhausted)
    );
    assert_eq!(value(&root, &buf, &[1]), Some(&FieldValue::U8(1)));
}

#[test]
fn get_of_a_path_that_was_never_made() {
    let (mut root, mut buf, mut alloc) = fresh(64);
    assert!(root.get(&[0], &buf).is_none());
    assert_eq!(root.set(&[0], FieldValue::U8(1), &mut buf, &mut alloc), Ok(()));
    assert!(root.get(&[0], &buf).is_some());
    assert!(root.get(&[7], &buf).is_some());
    assert!(root.get(&[7], &buf).unwrap().value.is_none());
    assert!(root.get(&[8], &buf).is_none());
    assert!(root.get(&[0, 0], &buf).is_none());
    assert!(root.get(&[8, 0, 0], &buf).is_none());
}

#[test]
fn duplicate_copies_value_and_run() {
    let node = FieldState { value: Some(FieldValue::String("x".to_string())), children: Some(3..11) };
    let copy = node.duplicate();
    assert_eq!(copy.value, Some(FieldValue::String("x".to_string())));
    assert_eq!(copy.children, Some(3..11));
}

#[test]
fn field_value_duplicate_is_equal() {
    let values = vec![
        FieldValue::Bool(true),
        FieldValue::I8(-1),
        FieldValue::I16(-2),
        FieldValue::I32(-3),
        FieldValue::I64(-4),
        FieldValue::U8(1),
        FieldValue::U16(2),
        FieldValue::U32(3),
        FieldValue::U64(4),
        FieldValue::F32(1.5f32.to_bits()),
        FieldValue::String("name".to_string()),
        FieldValue::Vector2([1, 2]),
        FieldValue::Vector3([1, 2, 3]),
        FieldValue::Vector4([1, 2, 3, 4]),
        FieldValue::Quaternion([4, 3, 2, 1]),
        FieldValue::Handle(0x00FF_FFFF),
    ];
    for v in values.iter() {
        assert_eq!(&v.duplicate(), v);
    }
}
