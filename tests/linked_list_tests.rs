use linked_list::LinkedList;
use std::cmp::Ordering;

fn list_of(values: &[i32]) -> LinkedList<i32> {
    let mut list = LinkedList::<i32>::new();
    for v in values {
        list.add(*v);
    }
    list
}

fn values_of<T: Clone>(list: &LinkedList<T>) -> Vec<T> {
    let mut out = Vec::new();
    for i in 0..list.len() {
        out.push(list.get(i as i32).unwrap().clone());
    }
    out
}

#[test]
fn create_numeric_list() {
    let mut list = LinkedList::<i32>::new();
    list.add(1);
    list.add(2);
    list.add(3);
    println!("Linked List is {:?}", values_of(&list));
    assert_eq!(3, list.len());
}

#[test]
fn create_string_list() {
    let mut list_str = LinkedList::<String>::new();
    list_str.add("A".to_string());
    list_str.add("B".to_string());
    list_str.add("C".to_string());
    println!("Linked List is {:?}", values_of(&list_str));
    assert_eq!(3, list_str.len());
}

#[test]
fn test_merge_linked_list_1() {
    let mut list_a = LinkedList::<i32>::new();
    let mut list_b = LinkedList::<i32>::new();
    let vec_a = vec![1, 3, 5, 7];
    let vec_b = vec![2, 4, 6, 8];
    let target_vec = vec![1, 2, 3, 4, 5, 6, 7, 8];

    for i in 0..vec_a.len() {
        list_a.add(vec_a[i]);
    }
    for i in 0..vec_b.len() {
        list_b.add(vec_b[i]);
    }
    let list_c = LinkedList::<i32>::merge(list_a, list_b);
    for i in 0..target_vec.len() {
        assert_eq!(target_vec[i], *list_c.get(i as i32).unwrap());
    }
}

#[test]
fn test_merge_linked_list_2() {
    let mut list_a = LinkedList::<i32>::new();
    let mut list_b = LinkedList::<i32>::new();
    let vec_a = vec![11, 33, 44, 88, 89, 90, 100];
    let vec_b = vec![1, 22, 30, 45];
    let target_vec = vec![1, 11, 22, 30, 33, 44, 45, 88, 89, 90, 100];

    for i in 0..vec_a.len() {
        list_a.add(vec_a[i]);
    }
    for i in 0..vec_b.len() {
        list_b.add(vec_b[i]);
    }
    let list_c = LinkedList::<i32>::merge(list_a, list_b);
    for i in 0..target_vec.len() {
        assert_eq!(target_vec[i], *list_c.get(i as i32).unwrap());
    }
}

#[test]
fn get_returns_appended_values_in_order() {
    let list = list_of(&[7, -3, 7, 42, 0]);
    assert_eq!(list.len(), 5);
    assert_eq!(list.get(0), Some(&7));
    assert_eq!(list.get(1), Some(&-3));
    assert_eq!(list.get(2), Some(&7));
    assert_eq!(list.get(3), Some(&42));
    assert_eq!(list.get(4), Some(&0));
    assert_eq!(list.get(5), None);
    assert_eq!(list.get(-1), None);
    assert_eq!(list.get(i32::MIN), None);
    assert_eq!(list.get(i32::MAX), None);
}

#[test]
fn new_and_default_lists_are_empty() {
    let list = LinkedList::<i32>::new();
    assert_eq!(list.len(), 0);
    assert_eq!(list.get(0), None);
    let other: LinkedList<i32> = Default::default();
    assert_eq!(other.len(), 0);
    assert_eq!(other.get(0), None);
}

#[test]
fn merge_length_is_sum_of_lengths() {
    let merged = LinkedList::merge(list_of(&[5, 1, 9]), list_of(&[4, 4]));
    assert_eq!(merged.len(), 5);
    assert_eq!(merged.get(5), None);
}

#[test]
fn merge_of_sorted_lists_is_sorted_and_keeps_every_value() {
    let a = [-8, -8, 0, 3, 3, 12];
    let b = [-9, 0, 3, 20];
    let merged = values_of(&LinkedList::merge(list_of(&a), list_of(&b)));
    assert!(merged.windows(2).all(|w| w[0] <= w[1]));
    let mut expected: Vec<i32> = a.iter().chain(b.iter()).copied().collect();
    expected.sort();
    let mut got = merged.clone();
    got.sort();
    assert_eq!(got, expected);
    assert_eq!(merged, vec![-9, -8, -8, 0, 0, 3, 3, 3, 12, 20]);
}

#[test]
fn merge_with_empty_first_list() {
    let merged = LinkedList::merge(list_of(&[]), list_of(&[5]));
    assert_eq!(merged.len(), 1);
    assert_eq!(merged.get(0), Some(&5));
    assert_eq!(merged.get(1), None);
}

#[test]
fn merge_with_empty_second_list() {
    let merged = LinkedList::merge(list_of(&[2, 4]), list_of(&[]));
    assert_eq!(values_of(&merged), vec![2, 4]);
}

#[test]
fn merge_of_two_empty_lists_is_empty() {
    let merged = LinkedList::merge(list_of(&[]), list_of(&[]));
    assert_eq!(merged.len(), 0);
    assert_eq!(merged.get(0), None);
}

#[test]
fn merge_of_equal_values() {
    let merged = LinkedList::merge(list_of(&[2]), list_of(&[2]));
    assert_eq!(values_of(&merged), vec![2, 2]);
}

#[derive(Clone, Debug)]
struct Tagged {
    key: i32,
    from: char,
}

impl PartialEq for Tagged {
    fn eq(&self, other: &Tagged) -> bool {
        self.key == other.key
    }
}

impl PartialOrd for Tagged {
    fn partial_cmp(&self, other: &Tagged) -> Option<Ordering> {
        self.key.partial_cmp(&other.key)
    }
}

#[test]
fn merge_tie_puts_first_list_node_first() {
    let mut a = LinkedList::new();
    a.add(Tagged { key: 2, from: 'a' });
    let mut b = LinkedList::new();
    b.add(Tagged { key: 2, from: 'b' });
    let merged = LinkedList::merge(a, b);
    assert_eq!(merged.len(), 2);
    assert_eq!(merged.get(0).unwrap().from, 'a');
    assert_eq!(merged.get(1).unwrap().from, 'b');
}

#[test]
fn merge_ties_keep_each_list_in_order() {
    let mut a = LinkedList::new();
    a.add(Tagged { key: 1, from: 'a' });
    a.add(Tagged { key: 3, from: 'a' });
    let mut b = LinkedList::new();
    b.add(Tagged { key: 1, from: 'b' });
    b.add(Tagged { key: 3, from: 'b' });
    let merged = values_of(&LinkedList::merge(a, b));
    let tags: Vec<(i32, char)> = merged.iter().map(|t| (t.key, t.from)).collect();
    assert_eq!(tags, vec![(1, 'a'), (1, 'b'), (3, 'a'), (3, 'b')]);
}

#[test]
fn merge_of_unsorted_input_follows_the_head_comparisons() {
    let merged = LinkedList::merge(list_of(&[3, 1]), list_of(&[2]));
    assert_eq!(values_of(&merged), vec![2, 3, 1]);
}

#[test]
fn merged_list_accepts_further_appends() {
    let mut merged = LinkedList::merge(list_of(&[1, 5]), list_of(&[3]));
    merged.add(9);
    assert_eq!(values_of(&merged), vec![1, 3, 5, 9]);
}
