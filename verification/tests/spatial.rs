use mmo_core::entity::EntityId;
use mmo_core::quad_tree::{QTCircle, QTDir, QTPos, QuadTree};

fn pos(dirs: &[QTDir]) -> QTPos {
    QTPos { inside: true, dirs: dirs.to_vec() }
}

#[test]
fn dir_indices() {
    assert_eq!(QTDir::NE.as_usize(), 0);
    assert_eq!(QTDir::NW.as_usize(), 1);
    assert_eq!(QTDir::SW.as_usize(), 2);
    assert_eq!(QTDir::SE.as_usize(), 3);
    for i in 0..4 {
        assert_eq!(QTDir::from_usize(i).unwrap().as_usize(), i);
    }
    assert_eq!(QTDir::from_usize(4), None);
    assert_eq!(QTDir::NUMBER_OF_DIRS, 4);
}

#[test]
fn new_tree_serves_everything_from_default_shard() {
    let t = QuadTree::new(3, 7);
    assert_eq!(t.get_shard_for_pos(&pos(&[QTDir::SW, QTDir::NE, QTDir::SE])), Some(7));
    let outside = QTPos { inside: false, dirs: vec![QTDir::NE; 3] };
    assert_eq!(t.get_shard_for_pos(&outside), None);
}

#[test]
fn added_entity_is_placed() {
    let mut t = QuadTree::new(2, 1);
    assert_eq!(t.add_entity(EntityId(10), &pos(&[QTDir::NW, QTDir::SE])), Ok(()));
    assert!(t.is_placed(EntityId(10)));
    assert!(!t.is_placed(EntityId(11)));
}

#[test]
fn adding_twice_is_refused() {
    let mut t = QuadTree::new(2, 1);
    assert_eq!(t.add_entity(EntityId(10), &pos(&[QTDir::NW, QTDir::SE])), Ok(()));
    assert_eq!(t.add_entity(EntityId(10), &pos(&[QTDir::NE, QTDir::NE])), Err(()));
    assert!(t.is_placed(EntityId(10)));
}

#[test]
fn full_leaf_splits_and_keeps_shards() {
    let mut t = QuadTree::new(2, 5);
    for i in 0..50u32 {
        let d = QTDir::from_usize((i % 4) as usize).unwrap();
        assert_eq!(t.add_entity(EntityId(i), &pos(&[d, QTDir::NE])), Ok(()));
    }
    assert_eq!(t.add_entity(EntityId(50), &pos(&[QTDir::SE, QTDir::SW])), Ok(()));
    for i in 0..51u32 {
        assert!(t.is_placed(EntityId(i)), "entity {} lost", i);
    }
    for d in 0..4 {
        let q = QTDir::from_usize(d).unwrap();
        assert_eq!(t.get_shard_for_pos(&pos(&[q, QTDir::NW])), Some(5));
    }
}

#[test]
fn full_leaf_at_maximal_depth_refuses() {
    let mut t = QuadTree::new(0, 5);
    for i in 0..50u32 {
        assert_eq!(t.add_entity(EntityId(i), &pos(&[])), Ok(()));
    }
    assert_eq!(t.add_entity(EntityId(50), &pos(&[])), Err(()));
    assert!(!t.is_placed(EntityId(50)));
    // The position stays recorded, so a second attempt is refused too.
    assert_eq!(t.add_entity(EntityId(50), &pos(&[])), Err(()));
}

#[test]
fn updating_a_position_moves_the_entity() {
    let mut t = QuadTree::new(3, 7);
    assert_eq!(t.add_entity(EntityId(1), &pos(&[QTDir::SW, QTDir::SW, QTDir::SW])), Ok(()));
    assert_eq!(t.add_entity(EntityId(2), &pos(&[QTDir::NW, QTDir::NW, QTDir::NW])), Ok(()));
    assert_eq!(t.update_entity_node(EntityId(1), &pos(&[QTDir::NE, QTDir::NE, QTDir::NE])), Ok(()));
    assert!(t.is_placed(EntityId(1)));
    assert!(t.is_placed(EntityId(2)));
    // The old position is no longer recorded: adding again is refused.
    assert_eq!(t.add_entity(EntityId(1), &pos(&[QTDir::SW, QTDir::SW, QTDir::SW])), Err(()));
}

#[test]
fn moving_in_a_split_tree_keeps_everyone_placed() {
    let mut t = QuadTree::new(2, 5);
    for i in 0..51u32 {
        let d = QTDir::from_usize((i % 4) as usize).unwrap();
        assert_eq!(t.add_entity(EntityId(i), &pos(&[d, QTDir::NE])), Ok(()));
    }
    assert_eq!(t.update_entity_node(EntityId(0), &pos(&[QTDir::SE, QTDir::SW])), Ok(()));
    for i in 0..51u32 {
        assert!(t.is_placed(EntityId(i)), "entity {} lost", i);
    }
}

#[test]
fn updating_an_unknown_entity_records_it() {
    let mut t = QuadTree::new(1, 2);
    assert_eq!(t.update_entity_node(EntityId(8), &pos(&[QTDir::SW])), Err(()));
    assert!(!t.is_placed(EntityId(8)));
    assert_eq!(t.add_entity(EntityId(8), &pos(&[QTDir::SW])), Err(()));
}

#[test]
fn adding_never_changes_shards() {
    let mut t = QuadTree::new(3, 4);
    let probe = pos(&[QTDir::SE, QTDir::SE, QTDir::NW]);
    for i in 0..120u32 {
        let d0 = QTDir::from_usize((i % 4) as usize).unwrap();
        let d1 = QTDir::from_usize(((i / 4) % 4) as usize).unwrap();
        let _ = t.add_entity(EntityId(i), &pos(&[d0, d1, QTDir::SW]));
        assert_eq!(t.get_shard_for_pos(&probe), Some(4));
    }
}

#[test]
fn shards_near_a_circle() {
    let t = QuadTree::new(3, 7);
    let circle = QTCircle { cells: vec![vec![QTDir::NE, QTDir::NE, QTDir::NE], vec![QTDir::SW, QTDir::SW, QTDir::SW]] };
    assert_eq!(t.shards_near(&circle), vec![7]);
    assert!(t.shards_near(&QTCircle { cells: vec![] }).is_empty());
}
