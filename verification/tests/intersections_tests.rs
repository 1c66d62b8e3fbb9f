use bolivar_core::intersections::{
    ActiveBucket, ActiveSlot, insert_active_entry, remove_active_entry,
};
use bolivar_core::table::{HEdgeId, IntersectionIdx, VEdgeId};

/// A vertical edge as the sweep stores it: x0, top and bottom.
type VEdge = (f64, f64, f64);

fn make_v_edge(x: f64, top: f64, bottom: f64) -> VEdge {
    (x, top, bottom)
}

#[test]
fn aosoa_fills_blocks_before_new() {
    let mut bucket = ActiveBucket::default();
    let v = make_v_edge(1.0, 0.0, 10.0);
    let s0 = bucket.insert(0, v);
    let s1 = bucket.insert(1, v);
    let s2 = bucket.insert(2, v);
    let s3 = bucket.insert(3, v);

    assert_eq!(bucket.blocks_len(), 1);
    assert_eq!(bucket.block(0).mask(), 0b1111);
    assert_eq!(s0.block, 0);
    assert_eq!(s1.block, 0);
    assert_eq!(s2.block, 0);
    assert_eq!(s3.block, 0);
}

#[test]
fn aosoa_removes_empty_block_and_updates_free() {
    let mut bucket = ActiveBucket::default();
    let v = make_v_edge(2.0, 0.0, 10.0);
    let slots: Vec<_> = (0..6).map(|i| bucket.insert(i, v)).collect();

    assert_eq!(bucket.blocks_len(), 2);

    bucket.remove(slots[5]);
    for slot in slots.iter().take(4) {
        bucket.remove(*slot);
    }

    assert_eq!(bucket.blocks_len(), 1);
    assert!(
        bucket
            .free_slots()
            .iter()
            .all(|slot| slot.block < bucket.blocks_len())
    );
}

#[test]
fn intersections_swap_pop_updates_slot() {
    let mut active = vec![ActiveBucket::default()];
    let bucket_idx = 0usize;
    let mut bucket = ActiveBucket::default();
    let slot0 = bucket.insert(0, make_v_edge(1.0, 0.0, 10.0));
    let slot1 = bucket.insert(1, make_v_edge(1.0, 0.0, 10.0));
    let slot2 = bucket.insert(2, make_v_edge(1.0, 0.0, 10.0));
    active[bucket_idx] = bucket;

    let mut active_slots = vec![None; 3];
    active_slots[0] = Some((bucket_idx, slot0));
    active_slots[1] = Some((bucket_idx, slot1));
    active_slots[2] = Some((bucket_idx, slot2));

    remove_active_entry(&mut active, &mut active_slots, 1);

    let bucket = active.get(bucket_idx).unwrap();
    assert_eq!(bucket.active_len(), 2);
    assert!(active_slots[1].is_none());
    assert!(active_slots[0].is_some());
    assert!(active_slots[2].is_some());
}

#[test]
fn intersections_swap_pop_removes_empty_bucket() {
    let mut active = vec![ActiveBucket::default()];
    let bucket_idx = 0usize;
    let mut bucket = ActiveBucket::default();
    let slot0 = bucket.insert(0, make_v_edge(2.0, 0.0, 10.0));
    active[bucket_idx] = bucket;

    let mut active_slots = vec![None; 1];
    active_slots[0] = Some((bucket_idx, slot0));

    remove_active_entry(&mut active, &mut active_slots, 0);

    assert_eq!(active[bucket_idx].active_len(), 0);
    assert!(active_slots[0].is_none());
}

#[test]
fn vacated_lane_is_reused_first() {
    let mut bucket: ActiveBucket<u32> = ActiveBucket::default();
    let a = bucket.insert(10, 100);
    let b = bucket.insert(11, 101);
    assert_eq!(a, ActiveSlot { block: 0, lane: 0 });
    assert_eq!(b, ActiveSlot { block: 0, lane: 1 });
    assert_eq!(bucket.remove(a), None);
    let c = bucket.insert(12, 102);
    assert_eq!(c, a);
    assert_eq!(bucket.block(0).id(0), 12);
    assert_eq!(*bucket.block(0).payload(0), 102);
    assert_eq!(bucket.active_len(), 2);
}

#[test]
fn removing_a_vacant_slot_changes_nothing() {
    let mut bucket: ActiveBucket<u32> = ActiveBucket::default();
    let a = bucket.insert(1, 7);
    assert_eq!(bucket.remove(ActiveSlot { block: 0, lane: 2 }), None);
    assert_eq!(bucket.remove(ActiveSlot { block: 5, lane: 0 }), None);
    assert_eq!(bucket.remove(ActiveSlot { block: 0, lane: 6 }), None);
    assert_eq!(bucket.active_len(), 1);
    assert_eq!(bucket.block(a.block).id(a.lane as usize), 1);
}

#[test]
fn emptied_middle_block_is_replaced_by_last() {
    let mut bucket: ActiveBucket<u32> = ActiveBucket::default();
    let slots: Vec<ActiveSlot> = (0..9).map(|i| bucket.insert(i, i as u32 * 10)).collect();
    assert_eq!(bucket.blocks_len(), 3);
    for slot in &slots[0..3] {
        assert_eq!(bucket.remove(*slot), None);
    }
    // The last entry of the first block empties it; the third block moves in.
    assert_eq!(bucket.remove(slots[3]), Some(0));
    assert_eq!(bucket.blocks_len(), 2);
    assert_eq!(bucket.block(0).id(0), 8);
    assert_eq!(*bucket.block(0).payload(0), 80);
    assert_eq!(bucket.block(0).mask(), 0b0001);
    assert_eq!(bucket.active_len(), 5);
    let mut active = bucket.active_blocks().clone();
    active.sort();
    assert_eq!(active, vec![0, 1]);
}

#[test]
fn moved_edges_follow_their_block() {
    let mut active: Vec<ActiveBucket<u32>> = vec![ActiveBucket::default()];
    let mut slots = vec![None; 6];
    for v in 0..6 {
        insert_active_entry(&mut active, &mut slots, 0, v, v as u32);
    }
    assert_eq!(slots[4], Some((0, ActiveSlot { block: 1, lane: 0 })));
    for v in 0..4 {
        remove_active_entry(&mut active, &mut slots, v);
    }
    // Block 0 emptied; block 1 moved into its place and its edges with it.
    assert_eq!(slots[4], Some((0, ActiveSlot { block: 0, lane: 0 })));
    assert_eq!(slots[5], Some((0, ActiveSlot { block: 0, lane: 1 })));
    assert_eq!(active[0].blocks_len(), 1);
    assert_eq!(active[0].block(0).id(1), 5);
    assert!(slots[0..4].iter().all(|s| s.is_none()));
}

#[test]
fn removing_then_adding_back_restores_the_entry() {
    let mut active: Vec<ActiveBucket<u32>> = vec![ActiveBucket::default(), ActiveBucket::default()];
    let mut slots = vec![None; 3];
    insert_active_entry(&mut active, &mut slots, 1, 2, 42);
    let (bucket, slot) = slots[2].unwrap();
    assert_eq!(bucket, 1);
    assert_eq!(*active[1].block(slot.block).payload(slot.lane as usize), 42);
    remove_active_entry(&mut active, &mut slots, 2);
    assert_eq!(slots[2], None);
    assert_eq!(active[1].active_len(), 0);
    remove_active_entry(&mut active, &mut slots, 2);
    remove_active_entry(&mut active, &mut slots, 99);
    assert_eq!(active[0].active_len(), 0);
}

#[test]
fn intersection_pairs_sort_together() {
    let mut idx = IntersectionIdx {
        v: vec![VEdgeId(3), VEdgeId(1), VEdgeId(3), VEdgeId(0)],
        h: vec![HEdgeId(2), HEdgeId(5), HEdgeId(1), HEdgeId(9)],
    };
    idx.sort_pairs();
    assert_eq!(idx.v, vec![VEdgeId(0), VEdgeId(1), VEdgeId(3), VEdgeId(3)]);
    assert_eq!(idx.h, vec![HEdgeId(9), HEdgeId(5), HEdgeId(1), HEdgeId(2)]);
}

#[test]
fn edge_ids_round_trip() {
    assert_eq!(VEdgeId::from_index(7).index(), 7);
    assert_eq!(HEdgeId::from_index(0).index(), 0);
    assert_eq!(VEdgeId::from_index(u32::MAX as usize), VEdgeId(u32::MAX));
}
