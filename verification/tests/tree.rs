use quadtree::rect::Rect;
use quadtree::tree::Quadtree;

#[test]
fn quadtree_create_empty() {
    let quadtree: Quadtree<i32> = Quadtree::default();

    assert!(quadtree.is_empty());
    assert_eq!(quadtree.size(), 0);
    assert!(quadtree.nodes().next().unwrap().is_leaf());
}

// Insertion
#[test]
fn insert_one_element() {
    let mut quadtree = Quadtree::default();
    quadtree.insert(42, Rect::new(10, 10, 10, 10));

    assert!(quadtree.contains(&42));
    assert_eq!(quadtree.size(), 1);
}

#[test]
fn insert_two_elements() {
    let mut quadtree = Quadtree::default();
    quadtree.insert(42, Rect::new(10, 10, 10, 10));
    quadtree.insert(5, Rect::new(50, 20, 40, 10));

    assert!(quadtree.contains(&42));
    assert!(quadtree.contains(&5));
    assert_eq!(quadtree.size(), 2);
}

#[test]
fn not_contains_not_inserted_element() {
    let quadtree = Quadtree::default();
    assert!(!quadtree.contains(&666));
}

// Element access
#[test]
fn get_no_element_in_empty() {
    let quadtree: Quadtree<i32> = Quadtree::default();
    assert_eq!(
        quadtree.get_contained(Rect::new(10, 10, 10, 10)),
        Vec::<&i32>::new()
    )
}

// Element access contained
#[test]
fn get_contained_after_one_insertion() {
    let mut quadtree: Quadtree<i32> = Quadtree::default();
    quadtree.insert(42, Rect::new(10, 10, 10, 10));

    assert_eq!(
        quadtree.get_contained(Rect::new(10, 10, 10, 10)),
        vec![&42]
    )
}

#[test]
fn get_two_contained_element_after_two_insertions() {
    let mut quadtree: Quadtree<i32> = Quadtree::default();
    quadtree.insert(42, Rect::new(10, 10, 10, 10));
    quadtree.insert(5, Rect::new(11, 14, 5, 2));

    let elements = quadtree.get_contained(Rect::new(10, 10, 10, 10));

    assert!(elements.contains(&&42));
    assert!(elements.contains(&&5));
}

#[test]
fn get_only_one_contained_element_after_two_insertions() {
    let mut quadtree: Quadtree<i32> = Quadtree::default();
    quadtree.insert(42, Rect::new(10, 10, 10, 10));
    quadtree.insert(5, Rect::new(15, 10, 10, 10));

    assert_eq!(
        quadtree.get_contained(Rect::new(10, 10, 10, 10)),
        vec![&42]
    )
}

// Element access overlapped
#[test]
fn get_overlapped_after_one_insertion() {
    let mut quadtree: Quadtree<i32> = Quadtree::default();
    quadtree.insert(42, Rect::new(10, 10, 10, 10));

    assert_eq!(
        quadtree.get_overlapped(Rect::new(15, 10, 10, 10)),
        vec![&42]
    )
}

#[test]
fn get_two_overlapped_element_after_two_insertions() {
    let mut quadtree: Quadtree<i32> = Quadtree::default();
    quadtree.insert(42, Rect::new(10, 10, 10, 10));
    quadtree.insert(5, Rect::new(15, 14, 15, 2));

    let elements = quadtree.get_overlapped(Rect::new(10, 10, 10, 10));

    assert!(elements.contains(&&42));
    assert!(elements.contains(&&5));
}

#[test]
fn get_only_one_overlapped_element_after_two_insertions() {
    let mut quadtree: Quadtree<i32> = Quadtree::default();
    quadtree.insert(42, Rect::new(10, 10, 10, 10));
    quadtree.insert(5, Rect::new(35, 10, 10, 10));

    assert_eq!(
        quadtree.get_overlapped(Rect::new(10, 10, 10, 10)),
        vec![&42]
    )
}

// Removing
#[test]
fn quadtree_remove_one_element() {
    let mut quadtree: Quadtree<i32> = Quadtree::default();
    let value = 42;
    let region = Rect::new(10, 10, 10, 10);
    let id = quadtree.insert(value, region);

    assert_eq!(quadtree.remove(id).unwrap(), (value, region));
}

// Entries
#[test]
fn entry() {
    let mut quadtree = Quadtree::default();
    let entry_id = quadtree.insert(42, Rect::new(10, 10, 10, 10));

    let entry = quadtree.entry(entry_id);

    assert_eq!(entry.value(), &42);
    assert_eq!(entry.id(), entry_id);
}

#[test]
fn move_entry() {
    let mut quadtree = Quadtree::default();
    let entry_id = quadtree.insert(42, Rect::new(10, 10, 10, 10));

    let mut entry = quadtree.entry_mut(entry_id);
    entry.move_entry(Rect::new(20, 20, 5, 5));

    assert_eq!(
        quadtree.get_contained(Rect::new(20, 20, 5, 5)),
        vec![&42]
    );
}

// The tree beyond the basics

fn sorted(mut values: Vec<i32>) -> Vec<i32> {
    values.sort();
    values
}

fn owned(values: Vec<&i32>) -> Vec<i32> {
    values.into_iter().copied().collect()
}

#[test]
fn new_tree_has_what_it_was_given() {
    let quadtree: Quadtree<i32> = Quadtree::new(Rect::new(-8, 4, 16, 32), 7);

    assert_eq!(quadtree.region(), Rect::new(-8, 4, 16, 32));
    assert_eq!(quadtree.capacity(), 7);
    assert_eq!(quadtree.next_id(), 0);
    assert!(quadtree.is_empty());
}

#[test]
fn default_tree_covers_the_square_of_side_200() {
    let quadtree: Quadtree<i32> = Quadtree::default();

    assert_eq!(quadtree.region(), Rect::new(-100, -100, 200, 200));
    assert_eq!(quadtree.capacity(), 5);
}

#[test]
fn is_empty_is_false_after_an_insertion() {
    let mut quadtree = Quadtree::default();
    let id = quadtree.insert(1, Rect::new(0, 0, 1, 1));

    assert!(!quadtree.is_empty());
    quadtree.remove(id);
    assert!(quadtree.is_empty());
}

#[test]
fn ids_count_up_and_are_never_handed_out_twice() {
    let mut quadtree = Quadtree::default();
    let a = quadtree.insert(1, Rect::new(0, 0, 1, 1));
    let b = quadtree.insert(2, Rect::new(0, 0, 1, 1));
    assert_eq!((a, b), (0, 1));

    quadtree.remove(b);
    let c = quadtree.insert(3, Rect::new(0, 0, 1, 1));
    assert_eq!(c, 2);
    assert_eq!(quadtree.next_id(), 3);
    assert!(quadtree.contains_id(a));
    assert!(!quadtree.contains_id(b));
    assert!(quadtree.contains_id(c));
}

#[test]
fn remove_of_an_unknown_id_gives_none_and_changes_nothing() {
    let mut quadtree = Quadtree::default();
    quadtree.insert(1, Rect::new(0, 0, 1, 1));

    assert_eq!(quadtree.remove(17), None);
    assert_eq!(quadtree.size(), 1);
    assert!(quadtree.contains(&1));
}

#[test]
fn remove_twice_gives_none_the_second_time() {
    let mut quadtree = Quadtree::default();
    let id = quadtree.insert(1, Rect::new(0, 0, 1, 1));

    assert_eq!(quadtree.remove(id), Some((1, Rect::new(0, 0, 1, 1))));
    assert_eq!(quadtree.remove(id), None);
}

#[test]
fn size_is_the_size_of_the_root_at_every_step() {
    let mut quadtree: Quadtree<i32> = Quadtree::new(Rect::new(0, 0, 64, 64), 2);
    let mut ids = Vec::new();
    for i in 0..20 {
        ids.push(quadtree.insert(i, Rect::new(3 * i, 2 * i, 4, 4)));
        assert_eq!(quadtree.size(), (i + 1) as usize);
        assert_eq!(quadtree.nodes().next().unwrap().size(), quadtree.size());
    }
    for (n, id) in ids.iter().enumerate() {
        quadtree.entry_mut(*id).move_entry(Rect::new(60 - 3 * n as i32, 1, 2, 2));
        assert_eq!(quadtree.size(), 20);
        assert_eq!(quadtree.nodes().next().unwrap().size(), 20);
    }
    for (n, id) in ids.iter().enumerate() {
        assert!(quadtree.remove(*id).is_some());
        assert_eq!(quadtree.size(), 19 - n);
        assert_eq!(quadtree.nodes().next().unwrap().size(), quadtree.size());
    }
}

#[test]
fn queries_on_an_empty_tree_are_empty() {
    let quadtree: Quadtree<i32> = Quadtree::default();

    for query in [
        Rect::new(-100, -100, 200, 200),
        Rect::new(0, 0, 0, 0),
        Rect::new(-1000, -1000, 5000, 5000),
        Rect::new(5, 5, -3, -3),
    ] {
        assert!(quadtree.get_contained(query).is_empty());
        assert!(quadtree.get_overlapped(query).is_empty());
    }
}

#[test]
fn queries_agree_with_a_scan_of_all_regions() {
    let mut quadtree: Quadtree<i32> = Quadtree::new(Rect::new(0, 0, 100, 100), 2);
    let mut kept = Vec::new();
    for i in 0..40 {
        let region = Rect::new((7 * i) % 90, (13 * i) % 85, i % 11, (3 * i) % 16);
        quadtree.insert(i, region);
        kept.push((i, region));
    }
    for query in [
        Rect::new(0, 0, 100, 100),
        Rect::new(0, 0, 50, 50),
        Rect::new(50, 50, 50, 50),
        Rect::new(20, 30, 40, 25),
        Rect::new(63, 17, 0, 0),
        Rect::new(-20, -20, 30, 30),
        Rect::new(200, 200, 10, 10),
    ] {
        let contained: Vec<i32> =
            kept.iter().filter(|(_, r)| query.contains(r)).map(|(v, _)| *v).collect();
        let overlapped: Vec<i32> =
            kept.iter().filter(|(_, r)| query.overlapps(r)).map(|(v, _)| *v).collect();

        assert_eq!(sorted(owned(quadtree.get_contained(query))), sorted(contained));
        assert_eq!(sorted(owned(quadtree.get_overlapped(query))), sorted(overlapped));
    }
}

#[test]
fn a_query_counts_touching_edges() {
    let mut quadtree: Quadtree<i32> = Quadtree::default();
    quadtree.insert(1, Rect::new(10, 10, 10, 10));

    assert_eq!(quadtree.get_overlapped(Rect::new(20, 20, 5, 5)), vec![&1]);
    assert_eq!(quadtree.get_overlapped(Rect::new(0, 0, 10, 10)), vec![&1]);
    assert!(quadtree.get_overlapped(Rect::new(21, 10, 5, 5)).is_empty());
    assert_eq!(quadtree.get_contained(Rect::new(10, 10, 10, 10)), vec![&1]);
    assert!(quadtree.get_contained(Rect::new(11, 10, 10, 10)).is_empty());
}

#[test]
fn the_mut_queries_give_the_ids_of_the_matching_values() {
    let mut quadtree: Quadtree<i32> = Quadtree::new(Rect::new(0, 0, 100, 100), 1);
    let a = quadtree.insert(10, Rect::new(10, 10, 5, 5));
    let b = quadtree.insert(20, Rect::new(60, 60, 5, 5));
    let c = quadtree.insert(30, Rect::new(12, 12, 50, 50));

    let mut contained = quadtree.get_contained_mut(Rect::new(0, 0, 30, 30));
    contained.sort();
    assert_eq!(contained, vec![a]);

    let mut overlapped = quadtree.get_overlapped_mut(Rect::new(0, 0, 30, 30));
    overlapped.sort();
    assert_eq!(overlapped, vec![a, c]);

    for id in overlapped {
        *quadtree.entry_mut(id).value_mut() += 1;
    }
    assert_eq!(quadtree.entry(a).value(), &11);
    assert_eq!(quadtree.entry(b).value(), &20);
    assert_eq!(quadtree.entry(c).value(), &31);
    assert_eq!(quadtree.size(), 3);
}

#[test]
fn value_mut_changes_the_value_and_keeps_the_region() {
    let mut quadtree = Quadtree::default();
    let id = quadtree.insert(1, Rect::new(3, 4, 5, 6));

    *quadtree.entry_mut(id).value_mut() = 99;

    assert_eq!(quadtree.get_contained(Rect::new(3, 4, 5, 6)), vec![&99]);
    assert_eq!(quadtree.remove(id), Some((99, Rect::new(3, 4, 5, 6))));
}

#[test]
fn entry_mut_reads_the_value_and_the_id() {
    let mut quadtree = Quadtree::default();
    quadtree.insert(1, Rect::new(0, 0, 1, 1));
    let id = quadtree.insert(2, Rect::new(0, 0, 1, 1));

    let entry = quadtree.entry_mut(id);

    assert_eq!(entry.value(), &2);
    assert_eq!(entry.id(), id);
}

#[test]
fn move_entry_changes_the_region_that_remove_returns() {
    let mut quadtree = Quadtree::default();
    let id = quadtree.insert(42, Rect::new(10, 10, 10, 10));

    quadtree.entry_mut(id).move_entry(Rect::new(-50, -60, 5, 7));

    assert!(quadtree.get_overlapped(Rect::new(10, 10, 10, 10)).is_empty());
    assert_eq!(quadtree.get_contained(Rect::new(-50, -60, 5, 7)), vec![&42]);
    assert_eq!(quadtree.remove(id), Some((42, Rect::new(-50, -60, 5, 7))));
    assert_eq!(quadtree.size(), 0);
}

#[test]
fn entries_hold_every_live_id_once() {
    let mut quadtree = Quadtree::default();
    let a = quadtree.insert(10, Rect::new(0, 0, 1, 1));
    let b = quadtree.insert(20, Rect::new(0, 0, 1, 1));
    let c = quadtree.insert(30, Rect::new(0, 0, 1, 1));
    quadtree.remove(b);

    let mut seen: Vec<(u64, i32)> =
        quadtree.entries().iter().map(|e| (e.id(), *e.value())).collect();
    seen.sort();
    assert_eq!(seen, vec![(a, 10), (c, 30)]);

    let mut ids = quadtree.entries_mut();
    ids.sort();
    assert_eq!(ids, vec![a, c]);
}

#[test]
fn entries_of_an_empty_tree_are_none() {
    let mut quadtree: Quadtree<i32> = Quadtree::default();

    assert!(quadtree.entries().is_empty());
    assert!(quadtree.entries_mut().is_empty());
}

#[test]
fn contains_looks_at_values_only() {
    let mut quadtree = Quadtree::default();
    let id = quadtree.insert(7, Rect::new(0, 0, 1, 1));
    quadtree.insert(7, Rect::new(5, 5, 1, 1));

    assert!(quadtree.contains(&7));
    quadtree.remove(id);
    assert!(quadtree.contains(&7));
    assert!(!quadtree.contains(&8));
}

#[test]
fn a_tree_of_capacity_zero_keeps_and_finds_everything() {
    let mut quadtree: Quadtree<i32> = Quadtree::new(Rect::new(0, 0, 16, 16), 0);
    let a = quadtree.insert(1, Rect::new(0, 0, 0, 0));
    let b = quadtree.insert(2, Rect::new(0, 0, 0, 0));
    let c = quadtree.insert(3, Rect::new(3, 3, 6, 6));

    assert_eq!(quadtree.size(), 3);
    assert_eq!(sorted(owned(quadtree.get_contained(Rect::new(0, 0, 16, 16)))), vec![1, 2, 3]);
    assert_eq!(sorted(owned(quadtree.get_contained(Rect::new(0, 0, 1, 1)))), vec![1, 2]);
    assert_eq!(quadtree.remove(a), Some((1, Rect::new(0, 0, 0, 0))));
    assert_eq!(quadtree.remove(c), Some((3, Rect::new(3, 3, 6, 6))));
    assert_eq!(quadtree.remove(b), Some((2, Rect::new(0, 0, 0, 0))));
    assert!(quadtree.nodes().next().unwrap().is_leaf());
}

#[test]
fn many_values_at_one_point_do_not_subdivide_for_ever() {
    let mut quadtree: Quadtree<i32> = Quadtree::new(Rect::new(0, 0, 1024, 1024), 2);
    for i in 0..10 {
        quadtree.insert(i, Rect::new(700, 300, 0, 0));
    }

    assert_eq!(quadtree.size(), 10);
    assert_eq!(quadtree.get_contained(Rect::new(700, 300, 0, 0)).len(), 10);
    assert_eq!(quadtree.get_overlapped(Rect::new(0, 0, 699, 1024)).len(), 0);
    let mut deepest = 0;
    let mut walk = quadtree.nodes();
    while let Some(node) = walk.next() {
        deepest = deepest.max(node.depth());
    }
    assert!(deepest <= 11);
}

fn first_quadrant(region: Rect, r: &Rect) -> Option<usize> {
    (0..4).find(|i| region.quadrant(*i).contains(r))
}

/// Panics unless every node of the tree is in order, and returns how many
/// ids the nodes record.
fn check_nodes<T>(quadtree: &Quadtree<T>) -> usize {
    let capacity = quadtree.capacity();
    let mut recorded = 0;
    let mut walk = quadtree.nodes();
    while let Some(node) = walk.next() {
        recorded += node.elements().len();
        for region in node.elements().values() {
            assert!(node.region().contains(region));
        }
        let point = node.region().w == 0 && node.region().h == 0;
        assert_eq!(node.is_leaf(), node.size() <= capacity || point);
        if node.is_leaf() {
            assert_eq!(node.size(), node.elements().len());
            assert!((0..4).all(|i| node.child(i).is_none()));
        } else {
            let mut size = node.elements().len();
            for i in 0..4 {
                let child = node.child(i).unwrap();
                assert_eq!(child.region(), node.region().quadrant(i));
                assert_eq!(child.depth(), node.depth() + 1);
                for region in child.elements().values() {
                    assert_eq!(first_quadrant(node.region(), region), Some(i));
                }
                size += child.size();
            }
            assert_eq!(node.size(), size);
            for region in node.elements().values() {
                assert_eq!(first_quadrant(node.region(), region), None);
            }
        }
    }
    recorded
}

#[test]
fn a_long_run_of_changes_keeps_the_nodes_and_the_values_in_step() {
    let mut quadtree: Quadtree<u64> = Quadtree::new(Rect::new(-64, -64, 128, 128), 3);
    let mut kept: Vec<(u64, Rect)> = Vec::new();
    let mut seed: u64 = 12345;
    let mut next = |bound: u64| {
        seed = seed.wrapping_mul(6364136223846793005).wrapping_add(1442695040888963407);
        (seed >> 33) % bound
    };
    for step in 0..600 {
        let x = next(120) as i32 - 64;
        let y = next(120) as i32 - 64;
        let region = Rect::new(x, y, next(9) as i32, next(9) as i32);
        let choice = next(10);
        if kept.is_empty() || choice < 5 {
            let id = quadtree.insert(step, region);
            kept.push((id, region));
        } else if choice < 8 {
            let at = next(kept.len() as u64) as usize;
            quadtree.entry_mut(kept[at].0).move_entry(region);
            kept[at].1 = region;
        } else {
            let at = next(kept.len() as u64) as usize;
            let (id, region) = kept.swap_remove(at);
            let removed = quadtree.remove(id).unwrap();
            assert_eq!(removed.1, region);
        }

        assert_eq!(quadtree.size(), kept.len());
        assert_eq!(check_nodes(&quadtree), kept.len());
        let query = Rect::new(next(100) as i32 - 64, next(100) as i32 - 64, 40, 30);
        let mut contained = quadtree.get_contained_mut(query);
        contained.sort();
        let mut expected: Vec<u64> =
            kept.iter().filter(|(_, r)| query.contains(r)).map(|(id, _)| *id).collect();
        expected.sort();
        assert_eq!(contained, expected);
        let mut overlapped = quadtree.get_overlapped_mut(query);
        overlapped.sort();
        let mut expected: Vec<u64> =
            kept.iter().filter(|(_, r)| query.overlapps(r)).map(|(id, _)| *id).collect();
        expected.sort();
        assert_eq!(overlapped, expected);
    }
}

#[test]
fn the_mut_queries_give_their_ids_in_the_order_of_the_values() {
    let mut quadtree: Quadtree<u64> = Quadtree::new(Rect::new(0, 0, 100, 100), 2);
    for i in 0..50 {
        let i = i as i32;
        let id = quadtree.insert(0, Rect::new((7 * i) % 90, (13 * i) % 85, i % 11, (3 * i) % 16));
        *quadtree.entry_mut(id).value_mut() = 1000 + id;
    }
    for query in [
        Rect::new(0, 0, 100, 100),
        Rect::new(10, 20, 45, 35),
        Rect::new(50, 50, 50, 50),
        Rect::new(33, 0, 0, 100),
    ] {
        let ids = quadtree.get_contained_mut(query);
        let values: Vec<u64> = quadtree.get_contained(query).into_iter().copied().collect();
        assert_eq!(values, ids.iter().map(|id| 1000 + id).collect::<Vec<u64>>());
        assert_eq!(quadtree.get_contained_mut(query), ids);

        let ids = quadtree.get_overlapped_mut(query);
        let values: Vec<u64> = quadtree.get_overlapped(query).into_iter().copied().collect();
        assert_eq!(values, ids.iter().map(|id| 1000 + id).collect::<Vec<u64>>());
        assert_eq!(quadtree.get_overlapped_mut(query), ids);
    }
}

#[test]
fn entries_and_entries_mut_come_in_the_same_order() {
    let mut quadtree: Quadtree<i32> = Quadtree::default();
    for i in 0..30 {
        quadtree.insert(i, Rect::new(i, -i, 3, 3));
    }
    quadtree.remove(7);
    quadtree.remove(19);

    let from_entries: Vec<u64> = quadtree.entries().iter().map(|e| e.id()).collect();
    let ids = quadtree.entries_mut();

    assert_eq!(ids.len(), 28);
    assert_eq!(from_entries, ids);
}

#[test]
fn a_walk_meets_the_children_in_the_order_of_the_quadrants() {
    let mut quadtree: Quadtree<i32> = Quadtree::new(Rect::new(0, 0, 50, 50), 3);
    quadtree.insert(0, Rect::new(5, 5, 10, 10));
    quadtree.insert(1, Rect::new(30, 5, 10, 10));
    quadtree.insert(2, Rect::new(5, 30, 10, 10));
    quadtree.insert(3, Rect::new(20, 5, 10, 10));

    let mut walk = quadtree.nodes();
    let mut regions = Vec::new();
    while let Some(node) = walk.next() {
        regions.push(node.region());
    }

    assert_eq!(
        regions,
        vec![
            Rect::new(0, 0, 50, 50),
            Rect::new(0, 0, 25, 25),
            Rect::new(25, 0, 25, 25),
            Rect::new(0, 25, 25, 25),
            Rect::new(25, 25, 25, 25),
        ]
    );
    assert!(walk.next().is_none());
}
