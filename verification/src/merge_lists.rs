use vstd::prelude::*;

verus! {

/// A node of a singly linked list of `i32` values.
#[derive(Debug)]
pub struct ListNode {
    val: i32,
    pub next: Option<Box<ListNode>>,
}

/// The values of a list, from its head to its end.
pub closed spec fn list_view(list: Option<Box<ListNode>>) -> Seq<i32>
    decreases list,
{
    match list {
        None => Seq::empty(),
        Some(node) => seq![node.val] + list_view(node.next),
    }
}

/// The stable merge of two sequences: at each step the smaller head is taken,
/// and on a tie the head of `a` goes first.
pub open spec fn merged(a: Seq<i32>, b: Seq<i32>) -> Seq<i32>
    decreases a.len() + b.len(),
{
    if a.len() == 0 {
        b
    } else if b.len() == 0 {
        a
    } else if a[0] <= b[0] {
        seq![a[0]] + merged(a.drop_first(), b)
    } else {
        seq![b[0]] + merged(a, b.drop_first())
    }
}

/// The list that holds the values of `prefix`, in order, in front of `tail`.
pub closed spec fn with_prefix(prefix: Seq<i32>, tail: Option<Box<ListNode>>) -> Option<Box<ListNode>>
    decreases prefix.len(),
{
    if prefix.len() == 0 {
        tail
    } else {
        Some(Box::new(ListNode { val: prefix[0], next: with_prefix(prefix.drop_first(), tail) }))
    }
}

proof fn lemma_with_prefix_view(prefix: Seq<i32>, tail: Option<Box<ListNode>>)
    ensures
        list_view(with_prefix(prefix, tail)) == prefix + list_view(tail),
    decreases prefix.len(),
{
    if prefix.len() > 0 {
        lemma_with_prefix_view(prefix.drop_first(), tail);
        assert(prefix =~= seq![prefix[0]] + prefix.drop_first());
    } else {
        assert(prefix + list_view(tail) =~= list_view(tail));
    }
}

proof fn lemma_with_prefix_push(prefix: Seq<i32>, v: i32, tail: Option<Box<ListNode>>)
    ensures
        with_prefix(prefix.push(v), tail) == with_prefix(
            prefix,
            Some(Box::new(ListNode { val: v, next: tail })),
        ),
    decreases prefix.len(),
{
    if prefix.len() > 0 {
        lemma_with_prefix_push(prefix.drop_first(), v, tail);
        assert(prefix.push(v).drop_first() =~= prefix.drop_first().push(v));
        assert(prefix.push(v)[0] == prefix[0]);
    } else {
        reveal_with_fuel(with_prefix, 2);
        assert(prefix.push(v).drop_first() =~= Seq::<i32>::empty());
    }
}

/// A list has no values exactly when it has no node.
pub proof fn lemma_empty_view(list: Option<Box<ListNode>>)
    ensures
        list_view(list).len() == 0 <==> list is None,
        list_view(None) == Seq::<i32>::empty(),
{
}

/// A node's list holds its value followed by the values of its successors.
pub proof fn lemma_node_view(node: ListNode)
    ensures
        list_view(Some(Box::new(node))) == seq![node.value()] + list_view(node.successor()),
{
}

/// Merging with an empty sequence gives the other one back, on either side.
pub proof fn lemma_merged_with_empty(a: Seq<i32>)
    ensures
        merged(Seq::empty(), a) == a,
        merged(a, Seq::empty()) == a,
{
}

/// Builds a list that holds the values of `vec`, in order.
pub fn create_list_node(vec: Vec<i32>) -> (list: Option<Box<ListNode>>)
    ensures
        list_view(list) == vec@,
{
    let mut head: Option<Box<ListNode>> = None;
    let mut current = &mut head;
    let ghost mut done: Seq<i32> = Seq::empty();
    for v in it: vec
        invariant
            *current is None,
            done == vec@.take(it.index() as int),
            after_borrow(head) == with_prefix(done, *final(current)),
    {
        let node = ListNode::new(v);
        proof {
            lemma_empty_view(node.next);
        }
        *current = Some(Box::new(node));
        match current {
            Some(node) => {
                current = &mut node.next;
                proof {
                    lemma_with_prefix_push(done, v, *final(current));
                    done = done.push(v);
                }
            },
            None => {},
        }
    }
    proof {
        lemma_with_prefix_view(done, None);
    }
    head
}

/// True when `s` is in non-decreasing order.
pub open spec fn is_sorted(s: Seq<i32>) -> bool {
    forall|i: int, j: int| 0 <= i <= j < s.len() ==> s[i] <= s[j]
}

proof fn lemma_merged_len_head(a: Seq<i32>, b: Seq<i32>)
    ensures
        merged(a, b).len() == a.len() + b.len(),
        a.len() > 0 && (b.len() == 0 || a[0] <= b[0]) ==> merged(a, b)[0] == a[0],
        b.len() > 0 && (a.len() == 0 || b[0] < a[0]) ==> merged(a, b)[0] == b[0],
    decreases a.len() + b.len(),
{
    if a.len() > 0 && b.len() > 0 {
        if a[0] <= b[0] {
            lemma_merged_len_head(a.drop_first(), b);
        } else {
            lemma_merged_len_head(a, b.drop_first());
        }
    }
}

proof fn lemma_cons_sorted(x: i32, s: Seq<i32>)
    requires
        is_sorted(s),
        s.len() > 0 ==> x <= s[0],
    ensures
        is_sorted(seq![x] + s),
{
    let t = seq![x] + s;
    assert forall|i: int, j: int| 0 <= i <= j < t.len() implies t[i] <= t[j] by {
        if i > 0 {
            assert(t[i] == s[i - 1] && t[j] == s[j - 1]);
        } else if j > 0 {
            assert(t[j] == s[j - 1]);
            assert(s[0] <= s[j - 1]);
        }
    }
}

/// Merging two sorted sequences gives a sorted sequence.
pub proof fn lemma_merged_sorted(a: Seq<i32>, b: Seq<i32>)
    requires
        is_sorted(a),
        is_sorted(b),
    ensures
        is_sorted(merged(a, b)),
    decreases a.len() + b.len(),
{
    if a.len() > 0 && b.len() > 0 {
        if a[0] <= b[0] {
            let a1 = a.drop_first();
            assert(is_sorted(a1)) by {
                assert forall|i: int, j: int| 0 <= i <= j < a1.len() implies a1[i] <= a1[j] by {
                    assert(a1[i] == a[i + 1] && a1[j] == a[j + 1]);
                }
            }
            lemma_merged_sorted(a1, b);
            lemma_merged_len_head(a1, b);
            if a1.len() > 0 {
                assert(a[0] <= a[1]);
            }
            lemma_cons_sorted(a[0], merged(a1, b));
        } else {
            let b1 = b.drop_first();
            assert(is_sorted(b1)) by {
                assert forall|i: int, j: int| 0 <= i <= j < b1.len() implies b1[i] <= b1[j] by {
                    assert(b1[i] == b[i + 1] && b1[j] == b[j + 1]);
                }
            }
            lemma_merged_sorted(a, b1);
            lemma_merged_len_head(a, b1);
            if b1.len() > 0 {
                assert(b[0] <= b[1]);
            }
            lemma_cons_sorted(b[0], merged(a, b1));
        }
    }
}

/// Merging keeps every value of both inputs, each as often as it occurs there, and adds none.
pub proof fn lemma_merged_permutation(a: Seq<i32>, b: Seq<i32>)
    ensures
        merged(a, b).to_multiset() == a.to_multiset().add(b.to_multiset()),
        merged(a, b).len() == a.len() + b.len(),
    decreases a.len() + b.len(),
{
    broadcast use vstd::multiset::group_multiset_axioms;
    broadcast use vstd::seq_lib::lemma_multiset_commutative;

    lemma_merged_len_head(a, b);
    if a.len() == 0 {
        assert(a + b =~= b);
    } else if b.len() == 0 {
        assert(a + b =~= a);
    } else if a[0] <= b[0] {
        lemma_merged_permutation(a.drop_first(), b);
        assert(a =~= seq![a[0]] + a.drop_first());
        assert(a.to_multiset() =~= seq![a[0]].to_multiset().add(a.drop_first().to_multiset()));
    } else {
        lemma_merged_permutation(a, b.drop_first());
        assert(b =~= seq![b[0]] + b.drop_first());
        assert(b.to_multiset() =~= seq![b[0]].to_multiset().add(b.drop_first().to_multiset()));
    }
}

/// Merging routines for sorted linked lists.
pub struct Solution {}

impl Solution {
    /// Merges two lists by recursion on their heads.
    pub fn merge_two_lists_recursion(list1: Option<Box<ListNode>>, list2: Option<Box<ListNode>>)
        -> (merged_list: Option<Box<ListNode>>)
        ensures
            list_view(merged_list) == merged(list_view(list1), list_view(list2)),
        decreases list_view(list1).len() + list_view(list2).len(),
    {
        let ghost a = list_view(list1);
        let ghost b = list_view(list2);
        match (list1, list2) {
            (None, None) => None,
            (Some(l1), None) => Some(l1),
            (None, Some(l2)) => Some(l2),
            (Some(l1), Some(l2)) => match l1.val <= l2.val {
                true => {
                    assert(a.drop_first() =~= list_view(l1.next));
                    let rest = Solution::merge_two_lists_recursion(l1.next, Some(l2));
                    Some(Box::new(ListNode { val: l1.val, next: rest }))
                },
                false => {
                    assert(b.drop_first() =~= list_view(l2.next));
                    let rest = Solution::merge_two_lists_recursion(Some(l1), l2.next);
                    Some(Box::new(ListNode { val: l2.val, next: rest }))
                },
            },
        }
    }

    /// Merges two lists in place: the nodes of the inputs are relinked, none is allocated.
    pub fn merge_two_lists_mem(list1: Option<Box<ListNode>>, list2: Option<Box<ListNode>>)
        -> (merged_list: Option<Box<ListNode>>)
        ensures
            list_view(merged_list) == merged(list_view(list1), list_view(list2)),
    {
        let ghost goal = merged(list_view(list1), list_view(list2));
        let mut list1 = list1;
        let mut list2 = list2;
        let mut head: Option<Box<ListNode>> = None;
        let mut p_next = &mut head;
        let ghost mut done: Seq<i32> = Seq::empty();

        while list1.is_some() && list2.is_some()
            invariant
                *p_next is None,
                after_borrow(head) == with_prefix(done, *final(p_next)),
                done + merged(list_view(list1), list_view(list2)) == goal,
            decreases list_view(list1).len() + list_view(list2).len(),
        {
            let ghost a = list_view(list1);
            let ghost b = list_view(list2);
            let ghost take_first = list1.unwrap().val <= list2.unwrap().val;
            let ghost x = if take_first { list1.unwrap().val } else { list2.unwrap().val };
            let l1 = &mut list1;
            let l2 = &mut list2;

            let ll = if l1.as_ref().unwrap().val <= l2.as_ref().unwrap().val { l1 } else { l2 };
            core::mem::swap(p_next, ll);
            core::mem::swap(ll, &mut p_next.as_mut().unwrap().next);
            p_next = &mut p_next.as_mut().unwrap().next;
            assert(take_first ==> list_view(list1) == a.drop_first() && list_view(list2) == b);
            assert(!take_first ==> list_view(list2) == b.drop_first() && list_view(list1) == a);
            proof {
                lemma_with_prefix_push(done, x, *final(p_next));
                let rest = merged(list_view(list1), list_view(list2));
                assert(merged(a, b) == seq![x] + rest);
                assert(done + merged(a, b) =~= done.push(x) + rest);
                done = done.push(x);
            }
        }
        let ghost rest = if list1.is_none() { list2 } else { list1 };
        proof {
            lemma_empty_view(list1);
            lemma_empty_view(list2);
            assert(list_view(rest) == merged(list_view(list1), list_view(list2)));
            lemma_with_prefix_view(done, rest);
        }
        core::mem::swap(p_next, if list1.is_none() { &mut list2 } else { &mut list1 });
        head
    }
}

impl ListNode {
    /// The value held by this node.
    pub closed spec fn value(&self) -> i32 {
        self.val
    }

    /// The list that follows this node.
    pub closed spec fn successor(&self) -> Option<Box<ListNode>> {
        self.next
    }

    /// A node holding `val` with no successor.
    pub fn new(val: i32) -> (node: Self)
        ensures
            node.value() == val,
            node.successor() is None,
            list_view(Some(Box::new(node))) == seq![val],
    {
        let node = ListNode { val, next: None };
        proof {
            reveal_with_fuel(list_view, 2);
            assert(list_view(Some(Box::new(node))) =~= seq![val]);
        }
        node
    }
}

impl Clone for ListNode {
    /// A deep copy: a fresh chain of nodes holding the same values.
    fn clone(&self) -> (copy: Self)
        ensures
            copy == *self,
        decreases self,
    {
        let next = match &self.next {
            Some(node) => Some(Box::new((**node).clone())),
            None => None,
        };
        ListNode { val: self.val, next }
    }
}

} // verus!
