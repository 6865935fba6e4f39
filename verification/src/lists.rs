//! Small helpers on lists of numbers.

use vstd::prelude::*;

verus! {

/// A list with one more item holds what it held before, and that item.
pub proof fn lemma_push_contains<A>(items: Seq<A>, last: A)
    ensures
        forall|x: A| items.push(last).contains(x) <==> items.contains(x) || x == last,
{
    let longer = items.push(last);
    assert forall|x: A| longer.contains(x) <==> items.contains(x) || x == last by {
        if items.contains(x) {
            let j = choose|j: int| 0 <= j < items.len() && items[j] == x;
            assert(longer[j] == x);
        }
        if x == last {
            assert(longer[items.len() as int] == x);
        }
        if longer.contains(x) {
            let j = choose|j: int| 0 <= j < longer.len() && longer[j] == x;
            if j < items.len() {
                assert(items[j] == x);
            }
        }
    }
}

/// What the first list holds, the two lists joined hold, and what the second
/// holds too.
pub proof fn lemma_joined_holds<A>(first: Seq<A>, second: Seq<A>, x: A)
    requires
        first.contains(x) || second.contains(x),
    ensures
        (first + second).contains(x),
{
    if first.contains(x) {
        let j = choose|j: int| 0 <= j < first.len() && first[j] == x;
        assert((first + second)[j] == x);
    } else {
        let j = choose|j: int| 0 <= j < second.len() && second[j] == x;
        assert((first + second)[first.len() + j] == x);
    }
}

/// Two lists joined hold what one of them holds, and nothing else.
pub proof fn lemma_joined_contains<A>(first: Seq<A>, second: Seq<A>)
    ensures
        forall|x: A| (first + second).contains(x) <==> first.contains(x) || second.contains(x),
{
    let joined = first + second;
    assert forall|x: A| joined.contains(x) <==> first.contains(x) || second.contains(x) by {
        if first.contains(x) || second.contains(x) {
            lemma_joined_holds(first, second, x);
        }
        if joined.contains(x) {
            let j = choose|j: int| 0 <= j < joined.len() && joined[j] == x;
            if j < first.len() {
                assert(first[j] == x);
            } else {
                assert(second[j - first.len()] == x);
            }
        }
    }
}

/// Whether `values` holds `v`.
pub fn holds(values: &Vec<usize>, v: usize) -> (found: bool)
    ensures
        found == values@.contains(v),
{
    let mut i: usize = 0;
    while i < values.len()
        invariant
            i <= values.len(),
            forall|j: int| 0 <= j < i ==> values[j] != v,
        decreases values.len() - i,
    {
        if values[i] == v {
            return true;
        }
        i = i + 1;
    }
    false
}

/// Notes `x` in `seen` unless it is there already, and says whether it was
/// new.
pub fn note_once(seen: &mut Vec<usize>, x: usize) -> (fresh: bool)
    ensures
        fresh == !old(seen)@.contains(x),
        forall|y: usize| #[trigger] final(seen)@.contains(y) <==> old(seen)@.contains(y) || y == x,
        old(seen)@.no_duplicates() ==> final(seen)@.no_duplicates(),
{
    if holds(seen, x) {
        return false;
    }
    proof {
        lemma_push_contains(seen@, x);
    }
    seen.push(x);
    true
}

/// Notes in `seen` every value of `values` that is not there already.
pub fn note_all(seen: &mut Vec<usize>, values: &Vec<usize>)
    ensures
        forall|y: usize|
            #[trigger] final(seen)@.contains(y) <==> old(seen)@.contains(y) || values@.contains(y),
        old(seen)@.no_duplicates() ==> final(seen)@.no_duplicates(),
{
    let mut j: usize = 0;
    while j < values.len()
        invariant
            j <= values.len(),
            forall|y: usize|
                #[trigger] seen@.contains(y) <==> old(seen)@.contains(y) || values@.take(
                    j as int,
                ).contains(y),
            old(seen)@.no_duplicates() ==> seen@.no_duplicates(),
        decreases values.len() - j,
    {
        proof {
            assert(values@.take(j + 1) =~= values@.take(j as int).push(values[j as int]));
            lemma_push_contains(values@.take(j as int), values[j as int]);
        }
        note_once(seen, values[j]);
        j = j + 1;
    }
    assert(values@.take(values.len() as int) =~= values@);
}

} // verus!
