//! A singly linked list with four access strategies.

use std::collections::HashMap;
use vstd::prelude::*;
use crate::list_update::model::{
    count_access, count_access_counts, lemma_access_distinct, lemma_count_recorded,
    move_to_front_access, ranked, ranked_but, rise, search_cost, simple_access, swapped,
    transpose_access, votes,
};
use crate::search::{lemma_position, lemma_position_absent, lemma_position_found, position};

verus! {

/// How a list reorders itself when a value is accessed.
#[derive(Debug, Clone)]
pub enum ListType {
    /// The list keeps its order.
    Simple,
    /// The accessed value moves to the front.
    MoveToFront,
    /// The accessed value changes places with its predecessor.
    Transpose,
    /// The list is kept in descending order of the access counts it holds.
    Count(HashMap<u32, u32>),
}

impl ListType {
    /// The access counts a list of this type holds; none but for `Count`.
    pub open spec fn counts(self) -> Map<u32, u32> {
        match self {
            ListType::Count(counts) => counts@,
            _ => Map::empty(),
        }
    }

    /// The values of a list of this type after an access to `value`.
    pub open spec fn accessed(self, items: Seq<u32>, value: u32) -> Seq<u32> {
        match self {
            ListType::Simple => simple_access(items, value),
            ListType::MoveToFront => move_to_front_access(items, value),
            ListType::Transpose => transpose_access(items, value),
            ListType::Count(counts) => count_access(items, counts@, value),
        }
    }

    /// The access counts of a list of this type after an access to `value`.
    pub open spec fn recorded(self, items: Seq<u32>, value: u32) -> Map<u32, u32> {
        match self {
            ListType::Count(counts) => count_access_counts(items, counts@, value),
            _ => Map::empty(),
        }
    }

    /// Whether two list types are of the same strategy.
    pub open spec fn same_strategy(self, other: ListType) -> bool {
        &&& self is Simple <==> other is Simple
        &&& self is MoveToFront <==> other is MoveToFront
        &&& self is Transpose <==> other is Transpose
        &&& self is Count <==> other is Count
    }
}

/// A node of the list.
#[derive(Debug)]
struct Node {
    /// The value stored in the node.
    value: u32,
    /// The node behind this one.
    next: Option<Box<Node>>,
}

/// The values of a chain of nodes, front first.
spec fn chain(head: Option<Box<Node>>) -> Seq<u32>
    decreases head,
{
    match head {
        None => Seq::empty(),
        Some(node) => seq![node.value] + chain(node.next),
    }
}

/// A linked list that is searched from the front and reorders itself.
#[derive(Debug)]
pub struct LinkedList {
    /// The first node.
    head: Option<Box<Node>>,
    /// The strategy, with the access counts where it keeps them.
    list_type: ListType,
}

impl View for LinkedList {
    type V = Seq<u32>;

    closed spec fn view(&self) -> Seq<u32> {
        chain(self.head)
    }
}

impl LinkedList {
    /// The strategy of the list.
    pub closed spec fn list_type(&self) -> ListType {
        self.list_type
    }

    /// Well-formedness: no value occurs twice, and a counting list is in
    /// descending order of its access counts.
    pub open spec fn wf(&self) -> bool {
        &&& self@.no_duplicates()
        &&& self.list_type() is Count ==> ranked(self@, self.list_type().counts())
    }

    /// Creates an empty list of the given type.
    pub fn new(list_type: ListType) -> (list: LinkedList)
        ensures
            list@ == Seq::<u32>::empty(),
            list.list_type() == list_type,
            list.wf(),
    {
        LinkedList { head: None, list_type }
    }

    /// Removes the first value and returns it, or `None` if the list is empty.
    pub fn pop(&mut self) -> (first: Option<u32>)
        ensures
            match first {
                Some(value) => old(self)@.len() > 0 && value == old(self)@[0] && final(self)@
                    == old(self)@.skip(1),
                None => old(self)@.len() == 0 && final(self)@ == old(self)@,
            },
            final(self).list_type() == old(self).list_type(),
            old(self).wf() ==> final(self).wf(),
    {
        if let Some(mut head) = self.head.take() {
            self.head = head.next.take();
            proof {
                assert(self@ =~= old(self)@.skip(1));
            }
            Some(head.value)
        } else {
            None
        }
    }

    /// Accesses `value` as the strategy of the list prescribes, and returns
    /// the number of nodes that the search looked at.
    pub fn access(&mut self, value: u32) -> (cost: u32)
        requires
            old(self).wf(),
            old(self)@.len() < u32::MAX,
            votes(old(self).list_type().counts(), value) < u32::MAX,
        ensures
            final(self).wf(),
            cost == search_cost(old(self)@, value),
            final(self)@ == old(self).list_type().accessed(old(self)@, value),
            final(self).list_type().counts() == old(self).list_type().recorded(old(self)@, value),
            final(self).list_type().same_strategy(old(self).list_type()),
    {
        proof {
            lemma_access_distinct(self@, self.list_type().counts(), value);
        }
        match self.list_type {
            ListType::Simple => self._simple_access(value),
            ListType::MoveToFront => self._mtf_access(value),
            ListType::Transpose => self._transpose_access(value),
            ListType::Count(_) => self._count_access(value),
        }
    }

    /// Access in a plain list: the value is appended if it is absent.
    fn _simple_access(&mut self, value: u32) -> (cost: u32)
        requires
            old(self)@.len() < u32::MAX,
        ensures
            cost == search_cost(old(self)@, value),
            final(self)@ == simple_access(old(self)@, value),
            final(self).list_type() == old(self).list_type(),
    {
        simple_walk(&mut self.head, value)
    }

    /// Access in a move-to-front list: a value found behind the head becomes
    /// the head.
    fn _mtf_access(&mut self, value: u32) -> (cost: u32)
        requires
            old(self)@.len() < u32::MAX,
        ensures
            cost == search_cost(old(self)@, value),
            final(self)@ == move_to_front_access(old(self)@, value),
            final(self).list_type() == old(self).list_type(),
    {
        mtf_walk(&mut self.head, value)
    }

    /// Access in a transpose list: a value found behind the head changes
    /// places with its predecessor.
    fn _transpose_access(&mut self, value: u32) -> (cost: u32)
        requires
            old(self)@.len() < u32::MAX,
        ensures
            cost == search_cost(old(self)@, value),
            final(self)@ == transpose_access(old(self)@, value),
            final(self).list_type() == old(self).list_type(),
    {
        transpose_walk(&mut self.head, value)
    }

    /// Access in a counting list: the access is recorded, and a value found
    /// behind the head rises past the predecessors that now have fewer.
    fn _count_access(&mut self, value: u32) -> (cost: u32)
        requires
            old(self).list_type() is Count,
            old(self).wf(),
            old(self)@.len() < u32::MAX,
            votes(old(self).list_type().counts(), value) < u32::MAX,
        ensures
            final(self).list_type() is Count,
            ranked(final(self)@, final(self).list_type().counts()),
            cost == search_cost(old(self)@, value),
            final(self)@ == count_access(old(self)@, old(self).list_type().counts(), value),
            final(self).list_type().counts() == count_access_counts(
                old(self)@,
                old(self).list_type().counts(),
                value,
            ),
    {
        proof {
            lemma_count_recorded(self@, self.list_type().counts(), value);
            lemma_position(self@, value);
        }
        let walked = match &mut self.list_type {
            ListType::Count(counts) => count_walk(&mut self.head, counts, value),
            _ => (0, false),
        };
        if walked.1 {
            self._reorder_by_count(Ghost(position(old(self)@, value)));
        }
        walked.0
    }

    /// Puts a counting list back in descending order of its access counts,
    /// when at most the item at `at` stands too far behind.
    fn _reorder_by_count(&mut self, Ghost(at): Ghost<int>)
        requires
            old(self).list_type() is Count,
            ranked_but(old(self)@, old(self).list_type().counts(), at),
        ensures
            final(self).list_type() == old(self).list_type(),
            final(self)@ == rise(old(self)@, old(self).list_type().counts(), at),
            ranked(final(self)@, final(self).list_type().counts()),
    {
        match &self.list_type {
            ListType::Count(counts) => reorder_walk(&mut self.head, counts, Ghost(at)),
            _ => {},
        }
    }
}

/// The values of a chain are the value of its first node and then those of
/// the chain behind it.
proof fn lemma_chain(head: Option<Box<Node>>)
    ensures
        match head {
            None => chain(head).len() == 0,
            Some(node) => {
                &&& chain(head) == seq![node.value] + chain(node.next)
                &&& chain(head).len() == 1 + chain(node.next).len()
                &&& chain(head)[0] == node.value
                &&& chain(head).skip(1) == chain(node.next)
            },
        },
{
    match head {
        None => {},
        Some(node) => {
            assert((seq![node.value] + chain(node.next)).skip(1) =~= chain(node.next));
        },
    }
}

/// Searches the chain for `value` and appends it if it is absent.
fn simple_walk(head: &mut Option<Box<Node>>, value: u32) -> (cost: u32)
    requires
        chain(*old(head)).len() < u32::MAX,
    ensures
        cost == search_cost(chain(*old(head)), value),
        chain(*final(head)) == simple_access(chain(*old(head)), value),
{
    let ghost items = chain(*head);
    match &*head {
        None => {
            *head = Some(Box::new(Node { value, next: None }));
            proof {
                assert(chain(*head) =~= items.push(value));
            }
            return 0;
        },
        Some(first) => {
            if first.value == value {
                proof {
                    lemma_position_found(items, value, 0);
                }
                return 1;
            }
        },
    }
    let mut current = head;
    let mut searched_nodes: u32 = 1;
    let ghost mut prefix: Seq<u32> = Seq::empty();
    loop
        invariant
            current.is_some(),
            items == chain(*old(head)),
            chain(*final(head)) == prefix + chain(*final(current)),
            items == prefix + chain(*current),
            searched_nodes == prefix.len() + 1,
            items.len() < u32::MAX,
            forall|i: int| 0 <= i < searched_nodes ==> items[i] != value,
        ensures
            current.unwrap().next.is_none(),
        decreases chain(*current).len(),
    {
        proof {
            lemma_chain(*current);
            lemma_chain(current.unwrap().next);
        }
        let found = match current.as_ref().unwrap().next.as_ref() {
            None => {
                break ;
            },
            Some(node) => node.value == value,
        };
        proof {
            assert(items[searched_nodes as int] == chain(*current)[1]);
        }
        searched_nodes += 1;
        if found {
            proof {
                lemma_position_found(items, value, searched_nodes - 1);
                assert(*final(current) == *current);
            }
            return searched_nodes;
        }
        proof {
            prefix = prefix.push(current.unwrap().value);
        }
        current = &mut current.as_mut().unwrap().next;
    }
    current.as_mut().unwrap().next = Some(Box::new(Node { value, next: None }));
    proof {
        lemma_chain(*current);
        lemma_chain(current.unwrap().next);
        lemma_position_absent(items, value);
        assert(chain(*current) =~= seq![current.unwrap().value, value]);
        assert(prefix + chain(*current) =~= items.push(value));
    }
    searched_nodes
}

/// Searches the chain for `value`; moves it to the front if it is found
/// behind the head, and appends it if it is absent.
fn mtf_walk(head: &mut Option<Box<Node>>, value: u32) -> (cost: u32)
    requires
        chain(*old(head)).len() < u32::MAX,
    ensures
        cost == search_cost(chain(*old(head)), value),
        chain(*final(head)) == move_to_front_access(chain(*old(head)), value),
{
    let ghost items = chain(*head);
    match &*head {
        None => {
            *head = Some(Box::new(Node { value, next: None }));
            proof {
                assert(chain(*head) =~= items.push(value));
            }
            return 0;
        },
        Some(first) => {
            if first.value == value {
                proof {
                    lemma_position_found(items, value, 0);
                }
                return 1;
            }
        },
    }
    let mut current = &mut *head;
    let mut searched_nodes: u32 = 1;
    let ghost mut prefix: Seq<u32> = Seq::empty();
    let mut found_node: Option<Box<Node>> = None;
    loop
        invariant_except_break
            items == prefix + chain(*current),
            found_node.is_none(),
        invariant
            current.is_some(),
            items == chain(*old(head)),
            chain(after_borrow(*head)) == prefix + chain(*final(current)),
            searched_nodes == prefix.len() + 1,
            items.len() < u32::MAX,
            forall|i: int| 0 <= i < searched_nodes ==> items[i] != value,
        ensures
            current.unwrap().next.is_none(),
            items == prefix + chain(*current) + chain(found_node),
            found_node matches Some(node) ==> node.value == value,
        decreases chain(*current).len(),
    {
        proof {
            lemma_chain(*current);
            lemma_chain(current.unwrap().next);
        }
        let found = match current.as_ref().unwrap().next.as_ref() {
            None => {
                break ;
            },
            Some(node) => node.value == value,
        };
        proof {
            assert(items[searched_nodes as int] == chain(*current)[1]);
        }
        if found {
            found_node = current.as_mut().unwrap().next.take();
            proof {
                lemma_chain(*current);
                assert(chain(*current) + chain(found_node) =~= seq![current.unwrap().value]
                    + chain(found_node));
            }
            break ;
        }
        searched_nodes += 1;
        proof {
            prefix = prefix.push(current.unwrap().value);
        }
        current = &mut current.as_mut().unwrap().next;
    }
    proof {
        lemma_chain(*current);
        lemma_chain(current.unwrap().next);
        lemma_chain(found_node);
    }
    match found_node {
        Some(mut node) => {
            let rest = head.take();
            node.next = rest;
            *head = Some(node);
            proof {
                lemma_position_found(items, value, searched_nodes as int);
                assert(chain(rest) =~= items.take(searched_nodes as int));
                lemma_chain(*head);
            }
            searched_nodes + 1
        },
        None => {
            current.as_mut().unwrap().next = Some(Box::new(Node { value, next: None }));
            proof {
                lemma_chain(*current);
                lemma_chain(current.unwrap().next);
                lemma_position_absent(items, value);
                assert(chain(*current) =~= seq![current.unwrap().value, value]);
                assert(prefix + chain(*current) =~= items.push(value));
            }
            searched_nodes
        },
    }
}

/// Searches the chain for `value`; lets it change places with its
/// predecessor if it is found behind the head, and appends it if it is absent.
fn transpose_walk(head: &mut Option<Box<Node>>, value: u32) -> (cost: u32)
    requires
        chain(*old(head)).len() < u32::MAX,
    ensures
        cost == search_cost(chain(*old(head)), value),
        chain(*final(head)) == transpose_access(chain(*old(head)), value),
{
    let ghost items = chain(*head);
    match &*head {
        None => {
            *head = Some(Box::new(Node { value, next: None }));
            proof {
                assert(chain(*head) =~= items.push(value));
            }
            return 0;
        },
        Some(first) => {
            if first.value == value {
                proof {
                    lemma_position_found(items, value, 0);
                }
                return 1;
            }
        },
    }
    let mut current = head;
    let mut searched_nodes: u32 = 1;
    let ghost mut prefix: Seq<u32> = Seq::empty();
    loop
        invariant
            current.is_some(),
            items == chain(*old(head)),
            chain(*final(head)) == prefix + chain(*final(current)),
            items == prefix + chain(*current),
            searched_nodes == prefix.len() + 1,
            items.len() < u32::MAX,
            forall|i: int| 0 <= i < searched_nodes ==> items[i] != value,
        ensures
            current.unwrap().next.is_none(),
        decreases chain(*current).len(),
    {
        proof {
            lemma_chain(*current);
            lemma_chain(current.unwrap().next);
        }
        let found = match current.as_ref().unwrap().next.as_ref() {
            None => {
                break ;
            },
            Some(node) => node.value == value,
        };
        proof {
            assert(items[searched_nodes as int] == chain(*current)[1]);
        }
        if found {
            let ghost before = chain(*current);
            let mut found_node = current.as_mut().unwrap().next.take();
            let temp = current.take();
            if let Some(mut temp_node) = temp {
                temp_node.next = found_node.as_mut().unwrap().next.take();
                found_node.as_mut().unwrap().next = Some(temp_node);
            }
            *current = Some(found_node.unwrap());
            proof {
                lemma_position_found(items, value, searched_nodes as int);
                lemma_chain(*current);
                lemma_chain(current.unwrap().next);
                assert(chain(*current) =~= swapped(before, 1));
                assert(prefix + swapped(before, 1) =~= swapped(items, searched_nodes as int));
            }
            return searched_nodes + 1;
        }
        searched_nodes += 1;
        proof {
            prefix = prefix.push(current.unwrap().value);
        }
        current = &mut current.as_mut().unwrap().next;
    }
    current.as_mut().unwrap().next = Some(Box::new(Node { value, next: None }));
    proof {
        lemma_chain(*current);
        lemma_chain(current.unwrap().next);
        lemma_position_absent(items, value);
        assert(chain(*current) =~= seq![current.unwrap().value, value]);
        assert(prefix + chain(*current) =~= items.push(value));
    }
    searched_nodes
}

/// Number of accesses that `counts` records for `value`.
fn votes_of(counts: &HashMap<u32, u32>, value: u32) -> (recorded: u32)
    ensures
        recorded == votes(counts@, value),
{
    broadcast use vstd::std_specs::hash::group_hash_axioms;

    match counts.get(&value) {
        Some(recorded) => *recorded,
        None => 0,
    }
}

/// Searches the chain for `value` and records the access: a value of the
/// list gets one more, an absent value is appended with a count of 1.
///
/// Returns the cost, and whether the value was found behind the head, where
/// it may have to rise.
fn count_walk(head: &mut Option<Box<Node>>, counts: &mut HashMap<u32, u32>, value: u32) -> (walked:
    (u32, bool))
    requires
        chain(*old(head)).len() < u32::MAX,
        votes(old(counts)@, value) < u32::MAX,
    ensures
        walked.0 == search_cost(chain(*old(head)), value),
        walked.1 == (0 < position(chain(*old(head)), value) < chain(*old(head)).len()),
        chain(*final(head)) == simple_access(chain(*old(head)), value),
        final(counts)@ == count_access_counts(chain(*old(head)), old(counts)@, value),
{
    broadcast use vstd::std_specs::hash::group_hash_axioms;

    let ghost items = chain(*head);
    match &*head {
        None => {
            *head = Some(Box::new(Node { value, next: None }));
            counts.insert(value, 1);
            proof {
                assert(chain(*head) =~= items.push(value));
            }
            return (0, false);
        },
        Some(first) => {
            if first.value == value {
                let recorded = votes_of(counts, value);
                counts.insert(value, recorded + 1);
                proof {
                    lemma_position_found(items, value, 0);
                }
                return (1, false);
            }
        },
    }
    let mut current = head;
    let mut searched_nodes: u32 = 1;
    let ghost mut prefix: Seq<u32> = Seq::empty();
    loop
        invariant
            current.is_some(),
            items == chain(*old(head)),
            chain(*final(head)) == prefix + chain(*final(current)),
            items == prefix + chain(*current),
            searched_nodes == prefix.len() + 1,
            items.len() < u32::MAX,
            forall|i: int| 0 <= i < searched_nodes ==> items[i] != value,
            *counts == *old(counts),
            votes(counts@, value) < u32::MAX,
        ensures
            current.unwrap().next.is_none(),
        decreases chain(*current).len(),
    {
        proof {
            lemma_chain(*current);
            lemma_chain(current.unwrap().next);
        }
        let found = match current.as_ref().unwrap().next.as_ref() {
            None => {
                break ;
            },
            Some(node) => node.value == value,
        };
        proof {
            assert(items[searched_nodes as int] == chain(*current)[1]);
        }
        if found {
            let recorded = votes_of(counts, value);
            counts.insert(value, recorded + 1);
            proof {
                lemma_position_found(items, value, searched_nodes as int);
                assert(*final(current) == *current);
            }
            return (searched_nodes + 1, true);
        }
        searched_nodes += 1;
        proof {
            prefix = prefix.push(current.unwrap().value);
        }
        current = &mut current.as_mut().unwrap().next;
    }
    current.as_mut().unwrap().next = Some(Box::new(Node { value, next: None }));
    counts.insert(value, 1);
    proof {
        lemma_chain(*current);
        lemma_chain(current.unwrap().next);
        lemma_position_absent(items, value);
        assert(chain(*current) =~= seq![current.unwrap().value, value]);
        assert(prefix + chain(*current) =~= items.push(value));
    }
    (searched_nodes, false)
}

/// One pass over the chain that lets every node change places with the node
/// behind it when that one has more accesses.
///
/// In a chain that is in order but for the item at `at`, the pass moves that
/// item one place ahead if its predecessor has fewer accesses, and changes
/// nothing otherwise. Returns whether it moved.
fn bubble_pass(head: &mut Option<Box<Node>>, counts: &HashMap<u32, u32>, Ghost(at): Ghost<int>) -> (moved:
    bool)
    requires
        ranked_but(chain(*old(head)), counts@, at),
    ensures
        moved == (at > 0 && votes(counts@, chain(*old(head))[at - 1]) < votes(
            counts@,
            chain(*old(head))[at],
        )),
        chain(*final(head)) == (if moved {
            swapped(chain(*old(head)), at)
        } else {
            chain(*old(head))
        }),
{
    let ghost items = chain(*head);
    let ghost due = at > 0 && votes(counts@, items[at - 1]) < votes(counts@, items[at]);
    let mut moved = false;
    let mut current = head;
    let ghost mut prefix: Seq<u32> = Seq::empty();
    proof {
        lemma_chain(*current);
    }
    loop
        invariant
            current.is_some(),
            items == chain(*old(head)),
            ranked_but(items, counts@, at),
            due == (at > 0 && votes(counts@, items[at - 1]) < votes(counts@, items[at])),
            chain(*final(head)) == prefix + chain(*final(current)),
            prefix + chain(*current) == (if moved {
                swapped(items, at)
            } else {
                items
            }),
            moved ==> due && prefix.len() >= at,
            !moved && due ==> prefix.len() < at,
        ensures
            current.unwrap().next.is_none(),
        decreases chain(*current).len(),
    {
        let ghost now = prefix + chain(*current);
        let ghost here = prefix.len() as int;
        proof {
            lemma_chain(*current);
            lemma_chain(current.unwrap().next);
        }
        let next_value = match current.as_ref().unwrap().next.as_ref() {
            None => {
                break ;
            },
            Some(node) => node.value,
        };
        let current_value = current.as_ref().unwrap().value;
        proof {
            assert(now[here] == current_value);
            assert(now[here + 1] == chain(*current)[1]);
            assert(now[here + 1] == next_value);
        }
        if votes_of(counts, current_value) < votes_of(counts, next_value) {
            proof {
                if moved {
                    assert(now[here] == items[if here == at {
                        at - 1
                    } else {
                        here
                    }]);
                    assert(now[here + 1] == items[here + 1]);
                    assert(false);
                }
                if here + 1 != at {
                    assert(now[here] == items[here]);
                    assert(now[here + 1] == items[here + 1]);
                    assert(false);
                }
            }
            let ghost before = chain(*current);
            let mut found_node = current.as_mut().unwrap().next.take();
            let temp = current.take();
            if let Some(mut temp_node) = temp {
                temp_node.next = found_node.as_mut().unwrap().next.take();
                found_node.as_mut().unwrap().next = Some(temp_node);
            }
            *current = Some(found_node.unwrap());
            moved = true;
            proof {
                lemma_chain(*current);
                lemma_chain(current.unwrap().next);
                assert(chain(*current) =~= swapped(before, 1));
                assert(prefix + swapped(before, 1) =~= swapped(items, at));
            }
        } else {
            proof {
                if !moved && due && here + 1 == at {
                    assert(now[here] == items[at - 1]);
                    assert(now[here + 1] == items[at]);
                    assert(false);
                }
            }
        }
        proof {
            lemma_chain(*current);
            assert(prefix.push(current.unwrap().value) + chain(current.unwrap().next) =~= prefix
                + chain(*current));
            prefix = prefix.push(current.unwrap().value);
        }
        current = &mut current.as_mut().unwrap().next;
    }
    proof {
        lemma_chain(*current);
        lemma_chain(current.unwrap().next);
        assert((prefix + chain(*current)).len() == prefix.len() + 1);
    }
    moved
}

/// Passes over the chain until a pass moves nothing.
///
/// In a chain that is in order but for the item at `at`, that item rises
/// past the predecessors with fewer accesses, and the chain is in order.
fn reorder_walk(head: &mut Option<Box<Node>>, counts: &HashMap<u32, u32>, Ghost(at): Ghost<int>)
    requires
        ranked_but(chain(*old(head)), counts@, at),
    ensures
        chain(*final(head)) == rise(chain(*old(head)), counts@, at),
        ranked(chain(*final(head)), counts@),
{
    let ghost items = chain(*head);
    let ghost mut place = at;
    loop
        invariant
            ranked_but(chain(*head), counts@, place),
            rise(chain(*head), counts@, place) == rise(items, counts@, at),
            items == chain(*old(head)),
        ensures
            chain(*head) == rise(items, counts@, at),
            ranked(chain(*head), counts@),
        decreases place,
    {
        let ghost before = chain(*head);
        let moved = bubble_pass(head, counts, Ghost(place));
        if !moved {
            proof {
                lemma_settled(before, counts@, place);
            }
            break ;
        }
        proof {
            lemma_rise_step(before, counts@, place);
            place = place - 1;
        }
    }
}

/// An item that has moved one place ahead of a predecessor with fewer
/// accesses is again the only one that may be out of order.
proof fn lemma_rise_step(items: Seq<u32>, counts: Map<u32, u32>, at: int)
    requires
        ranked_but(items, counts, at),
        at > 0,
        votes(counts, items[at - 1]) < votes(counts, items[at]),
    ensures
        ranked_but(swapped(items, at), counts, at - 1),
        rise(items, counts, at) == rise(swapped(items, at), counts, at - 1),
{
    let after = swapped(items, at);
    assert forall|i: int| 0 <= i < after.len() implies votes(counts, #[trigger] after[i])
        >= 1 by {
        let from = if i == at {
            at - 1
        } else if i == at - 1 {
            at
        } else {
            i
        };
        assert(after[i] == items[from]);
    }
    assert forall|a: int, b: int|
        0 <= a < b < after.len() && a != at - 1 && b != at - 1 implies votes(
        counts,
        #[trigger] after[a],
    ) >= votes(counts, #[trigger] after[b]) by {
        let from_a = if a == at {
            at - 1
        } else {
            a
        };
        let from_b = if b == at {
            at - 1
        } else {
            b
        };
        assert(after[a] == items[from_a]);
        assert(after[b] == items[from_b]);
    }
    assert forall|b: int| at - 1 < b < after.len() implies votes(counts, after[at - 1]) >= votes(
        counts,
        #[trigger] after[b],
    ) by {
        let from_b = if b == at {
            at - 1
        } else {
            b
        };
        assert(after[b] == items[from_b]);
        assert(after[at - 1] == items[at]);
    }
}

/// Once the item at `at` has no predecessor with fewer accesses, the whole
/// list is in order and the item rises no further.
proof fn lemma_settled(items: Seq<u32>, counts: Map<u32, u32>, at: int)
    requires
        ranked_but(items, counts, at),
        !(at > 0 && votes(counts, items[at - 1]) < votes(counts, items[at])),
    ensures
        ranked(items, counts),
        rise(items, counts, at) == items,
{
    assert forall|a: int, b: int| 0 <= a < b < items.len() implies votes(
        counts,
        #[trigger] items[a],
    ) >= votes(counts, #[trigger] items[b]) by {
        if b == at && a < at - 1 {
            assert(votes(counts, items[a]) >= votes(counts, items[at - 1]));
        }
    }
}

} // verus!
