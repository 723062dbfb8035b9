use blkdb::backend::InMemoryBackend;
use blkdb::hash::HashVal;
use blkdb::header::Header;
use blkdb::tree::{ApplyBlockErr, BlockTree, SealedState};

fn header(height: u64, previous: HashVal, tag: u8) -> Header {
    Header {
        network: 1,
        previous,
        height,
        history_hash: HashVal([0; 32]),
        coins_hash: HashVal([tag; 32]),
        transactions_hash: HashVal([0; 32]),
        fee_pool: 0,
        fee_multiplier: 1,
        dosc_speed: 1,
        pools_hash: HashVal([0; 32]),
        stakes_hash: HashVal([0; 32]),
    }
}

fn sealed(h: Header) -> SealedState<u64> {
    SealedState { header: h, partial_encoding: vec![h.height as u8], action: None, state: h.height }
}

fn apply(tree: &mut BlockTree<InMemoryBackend, u64>, h: Header) {
    let r: Result<(), ApplyBlockErr<()>> = tree.apply_block(&h, Ok(sealed(h)), &[]);
    assert!(r.is_ok());
}

/// Genesis and ten blocks on top of it, each pointing to the one before.
fn chain() -> (BlockTree<InMemoryBackend, u64>, Vec<Header>) {
    let mut tree = BlockTree::new(InMemoryBackend::new());
    let g = header(0, HashVal([0; 32]), 0);
    tree.set_genesis(sealed(g), &[]);
    let mut blocks = vec![g];
    for i in 1..=10u64 {
        let h = header(i, blocks[(i - 1) as usize].hash(), 0);
        apply(&mut tree, h);
        blocks.push(h);
    }
    (tree, blocks)
}

fn tip_hashes(tree: &BlockTree<InMemoryBackend, u64>) -> Vec<HashVal> {
    let mut v: Vec<HashVal> = tree.get_tips().iter().map(|c| c.header().hash()).collect();
    v.sort_by_key(|h| h.0);
    v
}

fn sorted(mut v: Vec<HashVal>) -> Vec<HashVal> {
    v.sort_by_key(|h| h.0);
    v
}

#[test]
fn simple_test() {
    let mut tree: BlockTree<InMemoryBackend, u64> = BlockTree::new(InMemoryBackend::default());
    assert!(tree.get_tips().is_empty());
    let genesis = header(0, HashVal([0; 32]), 0);
    tree.set_genesis(sealed(genesis), &[]);
    assert!(tree.get_tips()[0].header() == genesis);
    let mut next = genesis;
    for _ in 0..10 {
        next = header(next.height + 1, next.hash(), 0);
        apply(&mut tree, next);
    }
    assert_eq!(tree.get_tips().len(), 1);
    assert!(tree.get_tips()[0].header() == next);
}

#[test]
fn linear_chain() {
    let (tree, blocks) = chain();
    assert_eq!(tip_hashes(&tree), vec![blocks[10].hash()]);
    let at5 = tree.get_at_height(5);
    assert_eq!(at5.len(), 1);
    assert!(at5[0].header() == blocks[5]);
}

#[test]
fn fork() {
    let (mut tree, blocks) = chain();
    let b5f = header(5, blocks[4].hash(), 7);
    let b6f = header(6, b5f.hash(), 7);
    apply(&mut tree, b5f);
    apply(&mut tree, b6f);
    assert_eq!(tip_hashes(&tree), sorted(vec![blocks[10].hash(), b6f.hash()]));
    let at5: Vec<HashVal> = tree.get_at_height(5).iter().map(|c| c.header().hash()).collect();
    assert_eq!(sorted(at5), sorted(vec![blocks[5].hash(), b5f.hash()]));
    let b4 = tree.get_cursor(&blocks[4].hash()).unwrap();
    let kids: Vec<HashVal> = b4.children().iter().map(|c| c.header().hash()).collect();
    assert_eq!(sorted(kids), sorted(vec![blocks[5].hash(), b5f.hash()]));
}

#[test]
fn fork_pruning_via_genesis() {
    let (mut tree, blocks) = chain();
    let b5f = header(5, blocks[4].hash(), 7);
    let b6f = header(6, b5f.hash(), 7);
    apply(&mut tree, b5f);
    apply(&mut tree, b6f);
    tree.set_genesis(sealed(b5f), &[]);
    for b in blocks.iter() {
        assert!(tree.get_cursor(&b.hash()).is_none());
    }
    assert!(tree.get_cursor(&b5f.hash()).is_some());
    assert!(tree.get_cursor(&b6f.hash()).is_some());
    assert_eq!(tip_hashes(&tree), vec![b6f.hash()]);
    assert_eq!(tree.get_at_height(4).len(), 0);
    assert_eq!(tree.get_at_height(5).len(), 1);
}

#[test]
fn set_genesis_twice_changes_nothing() {
    let (mut tree, blocks) = chain();
    let b5f = header(5, blocks[4].hash(), 7);
    apply(&mut tree, b5f);
    tree.set_genesis(sealed(b5f), &[]);
    let tips = tip_hashes(&tree);
    tree.set_genesis(sealed(b5f), &[]);
    assert_eq!(tip_hashes(&tree), tips);
    assert!(tree.get_cursor(&b5f.hash()).is_some());
}

#[test]
fn tip_deletion() {
    let (mut tree, blocks) = chain();
    tree.delete_tips();
    assert_eq!(tip_hashes(&tree), vec![blocks[9].hash()]);
    assert!(tree.get_cursor(&blocks[10].hash()).is_none());
    assert_eq!(tree.get_at_height(10).len(), 0);
    let b9 = tree.get_cursor(&blocks[9].hash()).unwrap();
    assert!(b9.children().is_empty());
}

#[test]
fn delete_tips_undoes_apply() {
    let (mut tree, blocks) = chain();
    let b11 = header(11, blocks[10].hash(), 0);
    apply(&mut tree, b11);
    assert_eq!(tip_hashes(&tree), vec![b11.hash()]);
    tree.delete_tips();
    assert_eq!(tip_hashes(&tree), vec![blocks[10].hash()]);
    assert!(tree.get_cursor(&b11.hash()).is_none());
    assert!(tree.get_cursor(&blocks[10].hash()).unwrap().children().is_empty());
}

#[test]
fn delete_tips_at_fork_keeps_parent_with_child() {
    let (mut tree, blocks) = chain();
    let b10f = header(10, blocks[9].hash(), 3);
    let b11 = header(11, blocks[10].hash(), 0);
    apply(&mut tree, b10f);
    apply(&mut tree, b11);
    tree.delete_tips();
    // b10f and b11 go; b10 becomes a tip, b9 keeps b10 as a child
    assert_eq!(tip_hashes(&tree), vec![blocks[10].hash()]);
    let b9 = tree.get_cursor(&blocks[9].hash()).unwrap();
    assert_eq!(b9.children().len(), 1);
}

#[test]
fn apply_twice_is_a_no_op() {
    let (mut tree, blocks) = chain();
    let b11 = header(11, blocks[10].hash(), 0);
    apply(&mut tree, b11);
    apply(&mut tree, b11);
    assert_eq!(tip_hashes(&tree), vec![b11.hash()]);
    assert_eq!(tree.get_at_height(11).len(), 1);
}

#[test]
fn apply_block_errors() {
    let (mut tree, blocks) = chain();
    let orphan = header(12, blocks[10].hash(), 0);
    let r: Result<(), ApplyBlockErr<u8>> = tree.apply_block(&orphan, Ok(sealed(orphan)), &[]);
    match r {
        Err(ApplyBlockErr::ParentNotFound(p)) => assert!(p == blocks[10].hash()),
        _ => panic!("expected ParentNotFound"),
    }
    let b11 = header(11, blocks[10].hash(), 0);
    let r: Result<(), ApplyBlockErr<u8>> = tree.apply_block(&b11, Err(9), &[]);
    assert!(matches!(r, Err(ApplyBlockErr::CannotValidate(9))));
    let other = header(11, blocks[10].hash(), 5);
    let r: Result<(), ApplyBlockErr<u8>> = tree.apply_block(&b11, Ok(sealed(other)), &[]);
    assert!(matches!(r, Err(ApplyBlockErr::HeaderMismatch)));
    assert!(tree.get_cursor(&b11.hash()).is_none());
    assert_eq!(tip_hashes(&tree), vec![blocks[10].hash()]);
}

#[test]
fn cursors_walk_and_cache() {
    let (mut tree, blocks) = chain();
    let c = tree.get_cursor(&blocks[3].hash()).unwrap();
    assert!(c.parent().unwrap().header() == blocks[2]);
    assert!(c.children()[0].header() == blocks[4]);
    assert_eq!(c.to_state(), Some(&3u64));
    assert_eq!(c.partial_state(), &[3u8][..]);
    assert!(tree.get_cursor(&blocks[0].hash()).unwrap().parent().is_none());
    {
        let mut m = tree.get_cursor_mut(&blocks[3].hash()).unwrap();
        m.set_metadata(b"seen");
        assert_eq!(m.metadata(), b"seen");
        let d = m.downgrade();
        assert_eq!(d.metadata(), b"seen");
    }
    let c = tree.get_cursor(&blocks[3].hash()).unwrap();
    assert_eq!(c.metadata(), b"seen");
    assert!(c.children()[0].header() == blocks[4]);
}

#[test]
fn graph_nodes_cover_the_tree() {
    let (mut tree, blocks) = chain();
    let b5f = header(5, blocks[4].hash(), 7);
    apply(&mut tree, b5f);
    let nodes = tree.debug_graphviz();
    assert_eq!(nodes.len(), 12);
    let tips: Vec<HashVal> = sorted(nodes.iter().filter(|n| n.is_tip).map(|n| n.hash).collect());
    assert_eq!(tips, sorted(vec![blocks[10].hash(), b5f.hash()]));
    let g = nodes.iter().find(|n| n.hash == blocks[0].hash()).unwrap();
    assert!(g.parent.is_none());
    let f = nodes.iter().find(|n| n.hash == b5f.hash()).unwrap();
    assert!(f.parent == Some(blocks[4].hash()));
    assert_eq!(f.height, 5);
}

#[test]
fn same_blocks_give_same_trees() {
    let (mut a, blocks) = chain();
    let (mut b, _) = chain();
    let b11 = header(11, blocks[10].hash(), 0);
    apply(&mut a, b11);
    apply(&mut b, b11);
    assert_eq!(tip_hashes(&a), tip_hashes(&b));
    for h in 0..=11u64 {
        let x: Vec<HashVal> = a.get_at_height(h).iter().map(|c| c.header().hash()).collect();
        let y: Vec<HashVal> = b.get_at_height(h).iter().map(|c| c.header().hash()).collect();
        assert_eq!(sorted(x), sorted(y));
    }
}

fn forked() -> (BlockTree<InMemoryBackend, u64>, Vec<HashVal>) {
    let (mut tree, blocks) = chain();
    let b5f = header(5, blocks[4].hash(), 7);
    apply(&mut tree, b5f);
    let tips = tip_hashes(&tree);
    assert_eq!(tips.len(), 2);
    (tree, tips)
}

#[test]
fn tip_cleanup_drops_recorded_tip() {
    let (mut tree, tips) = forked();
    let seen = vec![vec![false, true], vec![false, false]];
    tree.initial_tip_cleanup(&tips, &seen);
    assert_eq!(tip_hashes(&tree), vec![tips[1]]);
    assert!(tree.get_cursor(&tips[0]).is_some());
}

#[test]
fn tip_cleanup_keeps_smaller_of_mutual_pair() {
    let (mut tree, tips) = forked();
    let seen = vec![vec![false, true], vec![true, false]];
    tree.initial_tip_cleanup(&tips, &seen);
    // tips are sorted by hash, so the first is the smaller
    assert_eq!(tip_hashes(&tree), vec![tips[0]]);
}

#[test]
fn tip_cleanup_without_records_changes_nothing() {
    let (mut tree, tips) = forked();
    let seen = vec![vec![false, false], vec![false, false]];
    tree.initial_tip_cleanup(&tips, &seen);
    assert_eq!(tip_hashes(&tree), tips);
}

#[test]
fn graph_lists_every_ancestor_of_a_tip() {
    let (tree, blocks) = chain();
    let nodes = tree.debug_graphviz();
    for b in blocks.iter() {
        assert!(nodes.iter().any(|n| n.hash == b.hash()));
    }
    for n in nodes.iter() {
        if let Some(p) = n.parent {
            assert!(nodes.iter().any(|m| m.hash == p));
        }
    }
}
