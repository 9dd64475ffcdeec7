//! Translation between a header's category order and the two row shapes:
//! positional flag vectors and active-identifier lists.
use vstd::prelude::*;

verus! {

/// The identifiers of the set positions, in header order.
pub open spec fn encode_spec(categories: Seq<(String, i64)>, entries: Seq<bool>) -> Seq<i64>
    decreases categories.len(),
{
    if categories.len() == 0 {
        Seq::empty()
    } else {
        encode_spec(categories.drop_last(), entries.drop_last()) + (if entries.len() > 0
            && entries.last() {
            seq![categories.last().1]
        } else {
            Seq::empty()
        })
    }
}

/// Turns an active-identifier list into the positional flag vector of the
/// header: position `i` is set exactly when the header's `i`-th identifier
/// occurs among `ids`.
pub fn decode_habit_vector(categories: &Vec<(String, i64)>, ids: &Vec<i64>) -> (r: Vec<bool>)
    ensures
        r@.len() == categories@.len(),
        forall|i: int|
            0 <= i < r@.len() ==> r@[i] == ids@.contains((#[trigger] categories@[i]).1),
{
    let mut r: Vec<bool> = Vec::new();
    let mut i: usize = 0;
    while i < categories.len()
        invariant
            0 <= i <= categories@.len(),
            r@.len() == i,
            forall|j: int|
                0 <= j < i ==> r@[j] == ids@.contains((#[trigger] categories@[j]).1),
        decreases categories@.len() - i,
    {
        let mut found = false;
        let mut k: usize = 0;
        while k < ids.len()
            invariant
                0 <= k <= ids@.len(),
                0 <= i < categories@.len(),
                found == exists|j: int| 0 <= j < k && ids@[j] == categories@[i as int].1,
            decreases ids@.len() - k,
        {
            if ids[k] == categories[i].1 {
                found = true;
            }
            k = k + 1;
        }
        proof {
            if found {
                assert(ids@.contains(categories@[i as int].1));
            }
            if ids@.contains(categories@[i as int].1) {
                let j = choose|j: int| 0 <= j < ids@.len() && ids@[j] == categories@[i as int].1;
                assert(found);
            }
        }
        r.push(found);
        i = i + 1;
    }
    r
}

/// Turns the positional flag vector of the header into the list of active
/// identifiers, in header order.
pub fn encode_habit_vector(categories: &Vec<(String, i64)>, entries: &Vec<bool>) -> (r: Vec<i64>)
    requires
        categories@.len() == entries@.len(),
    ensures
        r@ == encode_spec(categories@, entries@),
{
    let mut r: Vec<i64> = Vec::new();
    let mut i: usize = 0;
    while i < categories.len()
        invariant
            categories@.len() == entries@.len(),
            0 <= i <= categories@.len(),
            r@ == encode_spec(categories@.take(i as int), entries@.take(i as int)),
        decreases categories@.len() - i,
    {
        proof {
            assert(categories@.take(i as int + 1).drop_last() =~= categories@.take(i as int));
            assert(entries@.take(i as int + 1).drop_last() =~= entries@.take(i as int));
            assert(categories@.take(i as int + 1).last() == categories@[i as int]);
            assert(entries@.take(i as int + 1).last() == entries@[i as int]);
        }
        if entries[i] {
            r.push(categories[i].1);
        }
        proof {
            assert(r@ =~= encode_spec(
                categories@.take(i as int + 1),
                entries@.take(i as int + 1),
            ));
        }
        i = i + 1;
    }
    proof {
        assert(categories@.take(categories@.len() as int) =~= categories@);
        assert(entries@.take(entries@.len() as int) =~= entries@);
    }
    r
}

} // verus!
