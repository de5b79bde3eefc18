use rustlab::bst::BinarySearchTree;
use rustlab::query::QueryBuilder;
use rustlab::hashmap::HashMap;
use rustlab::linked_list::LinkedList;

#[test]
fn linked_list_push_pop_front() {
    let mut list: LinkedList<i32> = LinkedList::new();
    assert!(list.is_empty());

    list.push_front(1);
    list.push_front(2);
    list.push_front(3);
    assert_eq!(list.len(), 3);
    assert_eq!(list.peek(), Some(&3));

    assert_eq!(list.pop_front(), Some(3));
    assert_eq!(list.pop_front(), Some(2));
    assert_eq!(list.pop_front(), Some(1));
    assert_eq!(list.pop_front(), None);
    assert!(list.is_empty());
}

#[test]
fn linked_list_iter_walks_front_to_back() {
    let mut list: LinkedList<i32> = LinkedList::new();
    list.push_front(1);
    list.push_front(2);
    list.push_front(3);

    let mut it = list.iter();
    assert_eq!(it.next(), Some(&3));
    assert_eq!(it.next(), Some(&2));
    assert_eq!(it.next(), Some(&1));
    assert_eq!(it.next(), None);
    assert_eq!(list.len(), 3);
}

#[test]
fn bst_insert_contains_inorder() {
    let mut bst = BinarySearchTree::new();
    for v in [50, 30, 70, 20, 40, 60, 80] {
        bst.insert(v);
    }
    assert_eq!(bst.len(), 7);
    assert!(bst.contains(&40));
    assert!(!bst.contains(&100));
    assert_eq!(bst.inorder(), vec![20, 30, 40, 50, 60, 70, 80]);
    assert_eq!(bst.min(), Some(20));
    assert_eq!(bst.max(), Some(80));
    assert!(bst.height() >= 3);
    assert!(bst.height() <= 7);
}

#[test]
fn bst_ignores_duplicates() {
    let mut bst = BinarySearchTree::new();
    bst.insert(5);
    bst.insert(5);
    bst.insert(5);
    assert_eq!(bst.len(), 1);
    assert_eq!(bst.inorder(), vec![5]);
}

#[test]
fn bst_empty_has_no_extremes() {
    let bst = BinarySearchTree::new();
    assert!(bst.is_empty());
    assert_eq!(bst.min(), None);
    assert_eq!(bst.max(), None);
    assert_eq!(bst.height(), 0);
}

#[test]
fn hashmap_insert_get_remove() {
    let mut map: HashMap<String> = HashMap::new();
    assert!(map.is_empty());

    assert_eq!(map.insert(1, "one".to_string()), None);
    assert_eq!(map.insert(2, "two".to_string()), None);
    assert_eq!(map.insert(18, "eighteen".to_string()), None);
    assert_eq!(map.len(), 3);

    assert_eq!(map.get(&1), Some(&"one".to_string()));
    assert_eq!(map.get(&18), Some(&"eighteen".to_string()));
    assert_eq!(map.get(&3), None);
    assert!(map.contains_key(&2));
    assert!(!map.contains_key(&4));

    assert_eq!(map.insert(2, "zwei".to_string()), Some("two".to_string()));
    assert_eq!(map.len(), 3);
    assert_eq!(map.get(&2), Some(&"zwei".to_string()));

    assert_eq!(map.remove(&2), Some("zwei".to_string()));
    assert_eq!(map.remove(&2), None);
    assert_eq!(map.len(), 2);
}

#[test]
fn hashmap_keys_cover_all_bindings() {
    let mut map: HashMap<u64> = HashMap::new();
    for i in 0..10u64 {
        map.insert(i, i * i);
    }
    let mut keys = map.keys();
    keys.sort();
    assert_eq!(keys, (0..10u64).collect::<Vec<u64>>());
}

#[test]
fn query_builder_builds_exact_statements() {
    let q = QueryBuilder::new("users");
    assert_eq!(q.build(), "SELECT * FROM users");

    let q = QueryBuilder::new("users").select(&["name", "email"]);
    assert_eq!(q.build(), "SELECT name, email FROM users");

    let q = QueryBuilder::new("posts")
        .select(&["id", "title"])
        .order_by("id", true)
        .limit(25);
    assert_eq!(q.build(), "SELECT id, title FROM posts ORDER BY id DESC LIMIT 25");

    let q = QueryBuilder::new("posts").order_by("title", false).limit(0);
    assert_eq!(q.build(), "SELECT * FROM posts ORDER BY title ASC LIMIT 0");
}
