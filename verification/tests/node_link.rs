use gc_lite::node_link::{GcNodeLink, NodeLinkIterMut};
use gc_lite::table::NodeTable;
use gc_lite::{GcHead, GcNodeFlag, GcPartitionId, GcPtr};

fn ptr(slot: usize) -> GcPtr {
    GcPtr { heap: 1, slot }
}

#[test]
fn test_gc_node_link_empty() {
    let link = GcNodeLink::new(Vec::new());
    let mut iter = link.iter();
    assert!(iter.next().is_none());
}

#[test]
fn test_gc_node_link_single() {
    let node_ptr = ptr(0);
    let link = GcNodeLink::new(vec![node_ptr]);
    let mut iter = link.iter();
    assert_eq!(iter.next(), Some(node_ptr));
    assert!(iter.next().is_none());
}

#[test]
fn test_gc_node_link_multiple() {
    let (node1_ptr, node2_ptr, node3_ptr) = (ptr(1), ptr(2), ptr(3));
    let link = GcNodeLink::new(vec![node1_ptr, node2_ptr, node3_ptr]);
    let mut iter = link.iter();

    assert_eq!(iter.next(), Some(node1_ptr));
    assert_eq!(iter.next(), Some(node2_ptr));
    assert_eq!(iter.next(), Some(node3_ptr));
    assert!(iter.next().is_none());
}

/// A table of headers whose type ids count up from zero, and the chain of them in that order.
fn create_nodes(count: usize) -> (NodeTable<()>, GcNodeLink) {
    let mut table: NodeTable<()> = NodeTable::new(1);
    let mut nodes: Vec<GcPtr> = Vec::new();
    for i in 0..count {
        nodes.push(table.insert(GcHead::new(i as u8, GcPartitionId(0)), (), None));
    }
    let mut link = GcNodeLink::new(Vec::new());
    for node in nodes.iter().rev() {
        link.prepend(*node);
    }
    (table, link)
}

fn types(table: &NodeTable<()>, link: &GcNodeLink) -> Vec<u8> {
    let mut out = Vec::new();
    let mut iter = link.iter();
    while let Some(n) = iter.next() {
        out.push(table.head(n).dtype());
    }
    out
}

#[test]
fn test_filter_remove_from_empty_list() {
    let table: NodeTable<()> = NodeTable::new(1);
    let mut link = GcNodeLink::new(Vec::new());
    let removed = link.filter_remove_with(&table, |_: &GcHead| true);
    assert_eq!(removed.len(), 0);
    assert!(link.iter().next().is_none());
}

#[test]
fn test_filter_remove_none() {
    let (table, mut link) = create_nodes(3);
    let removed = link.filter_remove_with(&table, |_: &GcHead| false);
    assert_eq!(removed.len(), 0);
    assert_eq!(link.len(), 3);
}

#[test]
fn test_filter_remove_all() {
    let (table, mut link) = create_nodes(3);
    let removed = link.filter_remove_with(&table, |_: &GcHead| true);
    assert_eq!(removed.len(), 3);
    assert!(link.iter().next().is_none());
}

#[test]
fn test_filter_remove_first() {
    let (table, mut link) = create_nodes(3);
    let removed = link.filter_remove_with(&table, |h: &GcHead| h.dtype() == 0);
    assert_eq!(removed.len(), 1);
    assert_eq!(link.len(), 2);
    assert_eq!(types(&table, &link), vec![1, 2]);
}

#[test]
fn test_filter_remove_last() {
    let (table, mut link) = create_nodes(3);
    let removed = link.filter_remove_with(&table, |h: &GcHead| h.dtype() == 2);
    assert_eq!(removed.len(), 1);
    assert_eq!(link.len(), 2);
    assert_eq!(types(&table, &link), vec![0, 1]);
}

#[test]
fn test_filter_remove_middle() {
    let (table, mut link) = create_nodes(3);
    let removed = link.filter_remove_with(&table, |h: &GcHead| h.dtype() == 1);
    assert_eq!(removed.len(), 1);
    assert_eq!(link.len(), 2);
    assert_eq!(types(&table, &link), vec![0, 2]);
}

#[test]
fn test_filter_remove_every_other() {
    let (table, mut link) = create_nodes(5);
    let removed = link.filter_remove_with(&table, |h: &GcHead| h.dtype() % 2 != 0);
    assert_eq!(removed.len(), 2);
    assert_eq!(link.len(), 3);
    assert_eq!(types(&table, &link), vec![0, 2, 4]);
}

#[test]
fn the_head_is_what_was_put_in_front_last() {
    let mut link = GcNodeLink::new(Vec::new());
    assert_eq!(link.head(), None);
    link.prepend(ptr(4));
    link.prepend(ptr(7));
    assert_eq!(link.head(), Some(ptr(7)));
    assert!(link.contains(ptr(4)));
    assert!(!link.contains(ptr(5)));
    assert_eq!(link.into_inner(), vec![ptr(7), ptr(4)]);
}

#[test]
fn headers_along_a_chain_can_be_changed() {
    let mut table: NodeTable<u8> = NodeTable::new(3);
    let mut link = GcNodeLink::default();
    for k in 0..3 {
        link.prepend(table.insert(GcHead::new(k, GcPartitionId(0)), k, None));
    }
    let mut iter = NodeLinkIterMut::new(link.to_vec());
    let mut seen = Vec::new();
    while let Some(head) = iter.next(&mut table) {
        seen.push(head.dtype());
        head.insert_flag(GcNodeFlag::Root);
    }
    assert_eq!(seen, vec![2, 1, 0]);
    assert!(link.to_vec().into_iter().all(|p| table.head(p).is_root()));
}

#[test]
fn a_chain_without_nodes_is_empty() {
    let mut link = GcNodeLink::new(Vec::new());
    assert!(link.is_empty());
    assert!(GcNodeLink::default().is_empty());
    link.prepend(ptr(1));
    assert!(!link.is_empty());
    assert_eq!(link.len(), 1);
}
