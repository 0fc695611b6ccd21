//! Merging of tracker lists from several sources.
use vstd::prelude::*;

verus! {

/// Most trackers a torrent lists.
pub const MAX_TRACKERS: usize = 1000;

/// The texts of a list of strings.
pub open spec fn texts(v: Seq<String>) -> Seq<Seq<char>> {
    Seq::new(v.len(), |i: int| v[i]@)
}

/// One tracker offered: kept when the list has room and does not hold it.
pub open spec fn merge_step(acc: Seq<Seq<char>>, t: Seq<char>, cap: nat) -> Seq<Seq<char>> {
    if acc.len() >= cap || acc.contains(t) {
        acc
    } else {
        acc.push(t)
    }
}

/// The trackers offered, one by one, in order.
pub open spec fn merged(acc: Seq<Seq<char>>, items: Seq<Seq<char>>, cap: nat) -> Seq<Seq<char>>
    decreases items.len(),
{
    if items.len() == 0 {
        acc
    } else {
        merge_step(merged(acc, items.drop_last(), cap), items.last(), cap)
    }
}

fn contains_text(list: &Vec<String>, t: &String) -> (r: bool)
    ensures
        r == texts(list@).contains(t@),
{
    let mut j: usize = 0;
    while j < list.len()
        invariant
            j <= list@.len(),
            forall|k: int| 0 <= k < j ==> list@[k]@ != t@,
        decreases list@.len() - j,
    {
        if list[j] == *t {
            assert(texts(list@)[j as int] == t@);
            return true;
        }
        j += 1;
    }
    assert forall|k: int| 0 <= k < texts(list@).len() implies texts(list@)[k] != t@ by {
        assert(list@[k]@ != t@);
    }
    false
}

/// Appends, in order, each tracker of `items` that `list` does not hold
/// yet, as long as `list` has fewer than `cap` entries.
pub fn add_unique(list: &mut Vec<String>, items: &[String], cap: usize)
    ensures
        texts(final(list)@) == merged(texts(old(list)@), texts(items@), cap as nat),
{
    let mut i: usize = 0;
    assert(texts(items@).take(0) =~= Seq::<Seq<char>>::empty());
    while i < items.len()
        invariant
            i <= items@.len(),
            texts(list@) == merged(texts(old(list)@), texts(items@).take(i as int), cap as nat),
        decreases items@.len() - i,
    {
        let ghost before = texts(list@);
        let item = &items[i];
        if list.len() < cap && !contains_text(list, item) {
            list.push(item.clone());
            assert(texts(list@) =~= before.push(item@));
        }
        assert(texts(items@).take(i + 1).drop_last() =~= texts(items@).take(i as int));
        i += 1;
    }
    assert(texts(items@).take(i as int) =~= texts(items@));
}

} // verus!
