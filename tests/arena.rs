use compugenesis::arena::{Arena, ArenaError, INVALID_INDEX};
use compugenesis::node::{Node, NodeBuffer, NodeStatus};
use compugenesis::plant::{Plant, PlantBuffer};

#[test]
fn new_refuses_zero_and_sentinel_capacity() {
    assert_eq!(NodeBuffer::new(0).err(), Some(ArenaError::InvalidCapacity));
    assert_eq!(NodeBuffer::new(INVALID_INDEX).err(), Some(ArenaError::InvalidCapacity));
    assert_eq!(PlantBuffer::new(0).err(), Some(ArenaError::InvalidCapacity));
    assert!(Arena::new(0, 7u8).is_err());
}

#[test]
fn fresh_buffer_is_empty_and_blank() {
    let b = NodeBuffer::new(4).unwrap();
    assert_eq!(b.size(), 4);
    assert_eq!(b.current_size(), 0);
    for i in 0..4 {
        assert_eq!(b.get(i), Node::new());
        assert!(b.is_free(i));
    }
    assert_eq!(b.gen_freestack(), vec![0, 1, 2, 3]);
    let meta = b.gen_metadata();
    assert_eq!(meta.free_ptr, 4);
    assert_eq!(meta.capacity, 4);
}

#[test]
fn alloc_hands_out_highest_index_first() {
    let mut b = NodeBuffer::new(3).unwrap();
    assert_eq!(b.allocate(), Ok(2));
    assert_eq!(b.allocate(), Ok(1));
    assert_eq!(b.allocate(), Ok(0));
    assert_eq!(b.allocate(), Err(ArenaError::CapacityExhausted));
    assert_eq!(b.current_size(), 3);
}

#[test]
fn current_size_counts_outstanding_allocations() {
    let mut b = NodeBuffer::new(5).unwrap();
    let a = b.allocate().unwrap();
    let c = b.allocate().unwrap();
    let d = b.allocate().unwrap();
    assert_eq!(b.current_size(), 3);
    b.free(c).unwrap();
    assert_eq!(b.current_size(), 2);
    let e = b.allocate().unwrap();
    assert_eq!(e, c);
    assert_eq!(b.current_size(), 3);
    b.free(a).unwrap();
    b.free(d).unwrap();
    b.free(e).unwrap();
    assert_eq!(b.current_size(), 0);
}

#[test]
fn double_free_is_refused() {
    let mut b = NodeBuffer::new(4).unwrap();
    let a = b.allocate().unwrap();
    let _other = b.allocate().unwrap();
    assert_eq!(b.free(a), Ok(()));
    assert_eq!(b.free(a), Err(ArenaError::DoubleFree));
    assert_eq!(b.current_size(), 1);
    // Never allocated at all.
    assert_eq!(b.free(0), Err(ArenaError::DoubleFree));
}

#[test]
fn free_when_stack_is_full_is_refused() {
    let mut b = PlantBuffer::new(2).unwrap();
    assert_eq!(b.free(1), Err(ArenaError::DoubleFree));
    assert_eq!(b.current_size(), 0);
}

#[test]
fn free_marks_record_garbage() {
    let mut b = NodeBuffer::new(2).unwrap();
    let mut n = Node::new();
    n.status = NodeStatus::Alive;
    n.length = 77;
    let i = b.alloc_insert(n).unwrap();
    assert_eq!(b.get(i).status, NodeStatus::Alive);
    b.free(i).unwrap();
    assert_eq!(b.get(i).status, NodeStatus::Garbage);
    assert_eq!(b.get(i).length, 77);
}

#[test]
fn plant_buffer_round_trip() {
    let mut b = PlantBuffer::new(3).unwrap();
    let mut p = Plant::new();
    p.status = NodeStatus::Alive;
    p.age = 9;
    let i = b.alloc_insert(p).unwrap();
    assert_eq!(i, 2);
    assert_eq!(b.get(i), p);
    assert_eq!(b.current_size(), 1);
    b.free(i).unwrap();
    assert_eq!(b.get(i).status, NodeStatus::Garbage);
    assert_eq!(b.current_size(), 0);
    assert_eq!(b.size(), 3);
}

#[test]
fn generic_arena_keeps_values() {
    let mut a = Arena::new(3, 0u64).unwrap();
    let i = a.allocate().unwrap();
    a.set(i, 42);
    assert_eq!(a.get(i), 42);
    assert_eq!(a.free_count(), 2);
    assert_eq!(a.free_stack(), vec![0, 1]);
    let copy = a.duplicate();
    assert_eq!(copy.get(i), 42);
    assert_eq!(copy.current_size(), 1);
}
