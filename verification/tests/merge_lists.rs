use rust_exercises::merge_lists::{create_list_node, ListNode, Solution};

fn show(list: &Option<Box<ListNode>>) -> String {
    format!("{:?}", list)
}

fn expected(values: &[i32]) -> String {
    let mut text = String::from("None");
    for v in values.iter().rev() {
        text = format!("Some(ListNode {{ val: {}, next: {} }})", v, text);
    }
    text
}

#[test]
fn create_list_node_keeps_order() {
    assert_eq!(show(&create_list_node(vec![1, 2, 4])), expected(&[1, 2, 4]));
    assert_eq!(show(&create_list_node(vec![])), "None");
}

#[test]
fn new_node_has_no_successor() {
    let node = ListNode::new(7);
    assert!(node.next.is_none());
    assert_eq!(format!("{:?}", node), "ListNode { val: 7, next: None }");
}

#[test]
fn merge_recursion_example() {
    let l1 = create_list_node(vec![1, 2, 4]);
    let l2 = create_list_node(vec![1, 3, 4]);
    let merged = Solution::merge_two_lists_recursion(l1, l2);
    assert_eq!(show(&merged), expected(&[1, 1, 2, 3, 4, 4]));
}

#[test]
fn merge_mem_example() {
    let l1 = create_list_node(vec![1, 2, 4]);
    let l2 = create_list_node(vec![1, 3, 4]);
    let merged = Solution::merge_two_lists_mem(l1, l2);
    assert_eq!(show(&merged), expected(&[1, 1, 2, 3, 4, 4]));
}

#[test]
fn merge_with_empty_lists() {
    assert_eq!(show(&Solution::merge_two_lists_recursion(None, None)), "None");
    assert_eq!(show(&Solution::merge_two_lists_mem(None, None)), "None");
    let only = Solution::merge_two_lists_mem(None, create_list_node(vec![0]));
    assert_eq!(show(&only), expected(&[0]));
    let only = Solution::merge_two_lists_recursion(create_list_node(vec![-3, 5]), None);
    assert_eq!(show(&only), expected(&[-3, 5]));
}

#[test]
fn both_merges_agree_and_stay_sorted() {
    let a = vec![-5, -1, 0, 0, 7, 9];
    let b = vec![-6, 0, 3, 8, 10, 11, 12];
    let r = Solution::merge_two_lists_recursion(create_list_node(a.clone()), create_list_node(b.clone()));
    let m = Solution::merge_two_lists_mem(create_list_node(a), create_list_node(b));
    let want = expected(&[-6, -5, -1, 0, 0, 0, 3, 7, 8, 9, 10, 11, 12]);
    assert_eq!(show(&r), want);
    assert_eq!(show(&m), want);
}

#[test]
fn clone_copies_the_whole_chain() {
    let l1 = create_list_node(vec![3, 1, 2]);
    let copy = l1.clone();
    assert_eq!(show(&copy), show(&l1));
}

#[test]
fn unsorted_inputs_merge_by_heads() {
    // The merge always takes the smaller head; on unsorted input that is all it does.
    let merged = Solution::merge_two_lists_mem(create_list_node(vec![5, 1]), create_list_node(vec![3, 2]));
    assert_eq!(show(&merged), expected(&[3, 2, 5, 1]));
    let merged = Solution::merge_two_lists_recursion(create_list_node(vec![5, 1]), create_list_node(vec![3, 2]));
    assert_eq!(show(&merged), expected(&[3, 2, 5, 1]));
}

#[test]
fn merging_with_an_empty_list_returns_the_other() {
    let r = Solution::merge_two_lists_recursion(None, create_list_node(vec![4, 2, 9]));
    assert_eq!(show(&r), expected(&[4, 2, 9]));
    let m = Solution::merge_two_lists_mem(create_list_node(vec![4, 2, 9]), None);
    assert_eq!(show(&m), expected(&[4, 2, 9]));
}
