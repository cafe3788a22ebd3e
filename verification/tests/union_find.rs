use formal_languages::char_set::CharSet;
use formal_languages::index_set::IndexSet;
use formal_languages::union_find::DisjointUnionFind;

#[test]
fn sets_are_joined_and_found() {
    let mut sets = DisjointUnionFind::new(6);
    assert_eq!(sets.get_size(), 6);
    for i in 0..6 {
        assert!(sets.is_head(&i));
        assert_eq!(sets.find(i), i);
    }
    sets.join(0, 1);
    sets.join(2, 3);
    assert_eq!(sets.get_size(), 4);
    assert_eq!(sets.find(0), sets.find(1));
    assert_ne!(sets.find(1), sets.find(2));
    sets.join(1, 3);
    assert_eq!(sets.get_size(), 3);
    assert_eq!(sets.find(0), sets.find(2));
    // Joining what is joined changes nothing.
    sets.join(3, 0);
    assert_eq!(sets.get_size(), 3);
    assert_ne!(sets.find(4), sets.find(5));
    let heads = (0..6).filter(|i| sets.is_head(i)).count();
    assert_eq!(heads, 3);
}

#[test]
fn finding_compresses_the_path() {
    let mut sets = DisjointUnionFind::new(4);
    sets.join(0, 1);
    sets.join(2, 3);
    sets.join(0, 2);
    let head = sets.find(3);
    assert_eq!(sets.parent[3], head);
    assert_eq!(sets.parent[head], head);
}

#[test]
fn character_sets_are_kept_in_order() {
    let mut set = CharSet::new();
    assert!(set.insert('m'));
    assert!(set.insert('a'));
    assert!(set.insert('z'));
    assert!(!set.insert('m'));
    assert_eq!(set.items, vec!['a', 'm', 'z']);
    assert_eq!(set.len(), 3);
    assert!(set.contains('z'));
    assert!(!set.contains('b'));
    assert_eq!(set.index_of('m'), Some(1));
    assert_eq!(set.index_of('n'), None);
    let mut other = CharSet::new();
    other.insert('b');
    other.insert('m');
    assert!(!other.is_subset(&set));
    assert!(set.union_with(&other));
    assert!(!set.union_with(&other));
    assert!(other.is_subset(&set));
    assert_eq!(set.items, vec!['a', 'b', 'm', 'z']);
    assert!(set.remove('b'));
    assert!(!set.remove('b'));
    assert_eq!(set.items, vec!['a', 'm', 'z']);
    assert_eq!(set.duplicate(), set);
}

#[test]
fn index_sets_are_kept_in_order() {
    let mut set = IndexSet::new();
    assert!(set.insert(7));
    assert!(set.insert(2));
    assert!(!set.insert(7));
    assert_eq!(set.items, vec![2, 7]);
    assert!(set.contains(2));
    assert!(!set.contains(3));
    assert!(set.remove(2));
    assert_eq!(set.len(), 1);
}
