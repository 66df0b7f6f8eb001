//! Searching a sequence from the front.

use vstd::prelude::*;

verus! {

/// Index of the first occurrence of `value`, or the length of `items` when
/// there is none.
pub open spec fn position<T>(items: Seq<T>, value: T) -> int
    decreases items.len(),
{
    if items.len() == 0 || items[0] == value {
        0
    } else {
        1 + position(items.skip(1), value)
    }
}

/// The sequence without the first occurrence of `value`; the sequence
/// itself when there is none.
pub open spec fn without<T>(items: Seq<T>, value: T) -> Seq<T> {
    if position(items, value) < items.len() {
        items.remove(position(items, value))
    } else {
        items
    }
}

/// The first occurrence of a value is where `position` says.
pub proof fn lemma_position_found<T>(items: Seq<T>, value: T, at: int)
    requires
        0 <= at < items.len(),
        items[at] == value,
        forall|i: int| 0 <= i < at ==> items[i] != value,
    ensures
        position(items, value) == at,
    decreases items.len(),
{
    if at > 0 {
        lemma_position_found(items.skip(1), value, at - 1);
    }
}

/// A value that does not occur has the length as its position.
pub proof fn lemma_position_absent<T>(items: Seq<T>, value: T)
    requires
        forall|i: int| 0 <= i < items.len() ==> items[i] != value,
    ensures
        position(items, value) == items.len(),
    decreases items.len(),
{
    if items.len() > 0 {
        lemma_position_absent(items.skip(1), value);
    }
}

/// `position` is the index of the first occurrence, or the length; it is
/// below the length exactly when the value occurs.
pub proof fn lemma_position<T>(items: Seq<T>, value: T)
    ensures
        0 <= position(items, value) <= items.len(),
        position(items, value) < items.len() ==> items[position(items, value)] == value,
        forall|i: int| 0 <= i < position(items, value) ==> items[i] != value,
        position(items, value) < items.len() <==> items.contains(value),
    decreases items.len(),
{
    if items.len() > 0 && items[0] != value {
        let rest = items.skip(1);
        lemma_position(rest, value);
        assert forall|i: int| 0 <= i < position(items, value) implies items[i] != value by {
            if i > 0 {
                assert(items[i] == rest[i - 1]);
            }
        }
        if position(items, value) < items.len() {
            assert(items[position(items, value)] == rest[position(rest, value)]);
        }
        if items.contains(value) {
            let at = choose|i: int| 0 <= i < items.len() && items[i] == value;
            assert(rest[at - 1] == value);
        }
    } else if items.len() > 0 {
        assert(items[0] == value);
    }
}

/// In a sequence without repeated values, every index is the position of
/// the value it holds.
pub proof fn lemma_position_distinct<T>(items: Seq<T>, at: int)
    requires
        items.no_duplicates(),
        0 <= at < items.len(),
    ensures
        position(items, items[at]) == at,
{
    lemma_position_found(items, items[at], at);
}

/// Taking a value out of a sequence without repeated values leaves the
/// other values, each once.
pub proof fn lemma_without<T>(items: Seq<T>, value: T)
    requires
        items.no_duplicates(),
    ensures
        without(items, value).no_duplicates(),
        !without(items, value).contains(value),
        forall|other: T|
            #[trigger] without(items, value).contains(other) <==> items.contains(other) && other
                != value,
        without(items, value).len() == (if items.contains(value) {
            items.len() - 1
        } else {
            items.len() as int
        }),
{
    lemma_position(items, value);
    let at = position(items, value);
    let rest = without(items, value);
    if at < items.len() {
        assert forall|i: int, j: int| 0 <= i < rest.len() && 0 <= j < rest.len() && i != j implies rest[i]
            != rest[j] by {
            let from_i = if i < at {
                i
            } else {
                i + 1
            };
            let from_j = if j < at {
                j
            } else {
                j + 1
            };
            assert(rest[i] == items[from_i]);
            assert(rest[j] == items[from_j]);
        }
        assert forall|other: T| #[trigger]
            rest.contains(other) <==> items.contains(other) && other != value by {
            if rest.contains(other) {
                let i = choose|i: int| 0 <= i < rest.len() && rest[i] == other;
                let from = if i < at {
                    i
                } else {
                    i + 1
                };
                assert(rest[i] == items[from]);
                assert(items[from] != items[at]);
            }
            if items.contains(other) && other != value {
                let from = choose|i: int| 0 <= i < items.len() && items[i] == other;
                let to = if from < at {
                    from
                } else {
                    from - 1
                };
                assert(rest[to] == items[from]);
            }
        }
    }
}

/// Appending a new value to a sequence without repeated values adds that
/// value, once.
pub proof fn lemma_push_distinct<T>(items: Seq<T>, value: T)
    requires
        items.no_duplicates(),
        !items.contains(value),
    ensures
        items.push(value).no_duplicates(),
        forall|other: T|
            #[trigger] items.push(value).contains(other) <==> items.contains(other) || other
                == value,
{
    let longer = items.push(value);
    assert forall|i: int, j: int|
        0 <= i < longer.len() && 0 <= j < longer.len() && i != j implies longer[i]
        != longer[j] by {
        if i < items.len() {
            assert(longer[i] == items[i]);
        }
        if j < items.len() {
            assert(longer[j] == items[j]);
        }
    }
    assert forall|other: T| #[trigger]
        longer.contains(other) <==> items.contains(other) || other == value by {
        if longer.contains(other) {
            let i = choose|i: int| 0 <= i < longer.len() && longer[i] == other;
            if i < items.len() {
                assert(items[i] == other);
            }
        }
        if items.contains(other) {
            let i = choose|i: int| 0 <= i < items.len() && items[i] == other;
            assert(longer[i] == other);
        }
        if other == value {
            assert(longer[items.len() as int] == value);
        }
    }
}

} // verus!
