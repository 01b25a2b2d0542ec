use catalog_search::name_index::NameBTree;

#[test]
fn name_tree_insert_and_prefix_scan() {
    let mut tree = NameBTree::new();
    tree.insert("Notebook Dell XPS 13", 1);
    tree.insert("Camiseta Polo", 2);
    tree.insert("Notebook Dell Inspiron 15", 3);
    tree.insert("Notebook Dell XPS 13", 4);

    // ascending key order, ties in insertion order
    assert_eq!(tree.search_prefix("notebook", 10), vec![3, 1, 4]);
    // the limit cuts the scan short
    assert_eq!(tree.search_prefix("notebook", 2), vec![3, 1]);
    // a prefix longer than any key matches nothing
    assert!(tree.search_prefix("notebook dell xps 13 pro", 10).is_empty());
    // a zero limit yields an empty result
    assert!(tree.search_prefix("notebook", 0).is_empty());
    // the empty prefix matches every key
    assert_eq!(tree.search_prefix("", 10), vec![2, 3, 1, 4]);
}

#[test]
fn name_tree_normalizes_case() {
    let mut tree = NameBTree::new();
    tree.insert("ALFA", 1);
    tree.insert("alfa", 2);
    assert_eq!(tree.search_prefix("Alf", 10), vec![1, 2]);
}
