use sorting_networks::generate::{Network, Pair};

fn pairs_by_walking(order: usize) -> Vec<(usize, usize)> {
    let mut out = Vec::new();
    let mut network = Network::new(order);
    while let Some(mut group) = network.next() {
        while let Some(mut block) = group.next() {
            while let Some(mut stage) = block.next() {
                while let Some(mut pattern) = stage.next() {
                    while let Some(pair) = pattern.next() {
                        out.push((pair.min, pair.max));
                    }
                }
            }
        }
    }
    out
}

fn batcher_count(order: u64) -> usize {
    if order == 0 {
        return 0;
    }
    // (o^2 - o + 4) * 2^(o - 2) - 1, written without a fractional power
    (((order * order - order + 4) << order) / 4 - 1) as usize
}

#[test]
fn order_two_pairs_in_order() {
    let expected = vec![(0, 1), (2, 3), (0, 2), (1, 3), (1, 2)];
    assert_eq!(pairs_by_walking(2), expected);
    let collected: Vec<(usize, usize)> =
        Network::new(2).pairs().into_iter().map(|p: Pair| (p.min, p.max)).collect();
    assert_eq!(collected, expected);
}

#[test]
fn order_zero_has_no_pairs() {
    let network = Network::new(0);
    assert_eq!(network.order(), 0);
    assert_eq!(network.groups(), 0);
    assert!(network.pairs().is_empty());
}

#[test]
fn regeneration_gives_the_same_pairs() {
    for order in 0..9 {
        assert_eq!(pairs_by_walking(order), pairs_by_walking(order));
        assert_eq!(Network::new(order).pairs(), Network::new(order).pairs());
    }
}

#[test]
fn pair_counts_follow_the_closed_form() {
    assert_eq!(Network::new(1).pairs().len(), 1);
    assert_eq!(Network::new(2).pairs().len(), 5);
    assert_eq!(Network::new(3).pairs().len(), 19);
    assert_eq!(Network::new(4).pairs().len(), 63);
    for order in 0..12 {
        assert_eq!(Network::new(order).pairs().len(), batcher_count(order as u64));
    }
}

#[test]
fn pairs_stay_in_range() {
    for order in 0..10 {
        let width = 1usize << order;
        for pair in Network::new(order).pairs() {
            assert!(pair.min < pair.max);
            assert!(pair.max < width);
            assert!((pair.max - pair.min).is_power_of_two());
        }
    }
}

#[test]
fn level_counts() {
    let mut network = Network::new(3);
    assert_eq!(network.groups(), 3);
    let mut blocks = Vec::new();
    let mut stages = Vec::new();
    while let Some(mut group) = network.next() {
        blocks.push(group.blocks());
        while let Some(block) = group.next() {
            stages.push(block.stages());
        }
    }
    assert_eq!(blocks, vec![4, 2, 1]);
    assert_eq!(stages, vec![1, 1, 1, 1, 2, 2, 3]);
}

#[test]
fn stage_meta_patterns_of_last_group() {
    let mut network = Network::new(3);
    let mut last = None;
    while let Some(group) = network.next() {
        last = Some(group);
    }
    let mut group = last.unwrap();
    let mut block = group.next().unwrap();
    assert!(group.next().is_none());
    let mut metas = Vec::new();
    while let Some(stage) = block.next() {
        let m = stage.meta_pattern();
        metas.push((m.start, m.count, m.length, stage.patterns(), stage.distance()));
    }
    assert_eq!(metas, vec![(0, 1, 4, 1, 8), (2, 1, 2, 1, 4), (1, 3, 1, 3, 2)]);
}

#[test]
fn pattern_pairs() {
    let mut network = Network::new(1);
    let mut group = network.next().unwrap();
    let mut block = group.next().unwrap();
    let mut stage = block.next().unwrap();
    let mut pattern = stage.next().unwrap();
    assert_eq!(pattern.pairs(), 1);
    assert_eq!(pattern.next(), Some(Pair::new(0, 1)));
    assert_eq!(pattern.next(), None);
    assert!(stage.next().is_none());
    assert!(network.next().is_none());
}
