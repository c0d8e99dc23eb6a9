use vstd::prelude::*;

use crate::database::{insert_spec, lookup, EntryView};

verus! {

/// Lazy expiration: an entry written with a time to live is read back up to its expiry
/// instant and not after it, while it stays in the store all the same.
pub proof fn lemma_lazy_expiration(
    m: Map<Seq<char>, EntryView>,
    key: Seq<char>,
    value: Seq<char>,
    ttl: u64,
    now: u64,
    later: u64,
)
    ensures
        later <= now + ttl ==> lookup(insert_spec(m, key, value, Some(ttl), now), key, later)
            == Some(value),
        later > now + ttl ==> lookup(insert_spec(m, key, value, Some(ttl), now), key, later)
            is None,
        insert_spec(m, key, value, Some(ttl), now).contains_key(key),
{
}

/// Overwrite: a second write under a key replaces the first entry whole, so a read sees
/// only the second value.
pub proof fn lemma_overwrite(
    m: Map<Seq<char>, EntryView>,
    key: Seq<char>,
    first: Seq<char>,
    first_ttl: Option<u64>,
    second: Seq<char>,
    first_now: u64,
    second_now: u64,
    later: u64,
)
    ensures
        insert_spec(insert_spec(m, key, first, first_ttl, first_now), key, second, None, second_now)
            == insert_spec(m, key, second, None, second_now),
        lookup(
            insert_spec(insert_spec(m, key, first, first_ttl, first_now), key, second, None, second_now),
            key,
            later,
        ) == Some(second),
{
    assert(insert_spec(insert_spec(m, key, first, first_ttl, first_now), key, second, None, second_now)
        =~= insert_spec(m, key, second, None, second_now));
}

/// The store after the writes of `w`, in that order, none with a time to live.
pub open spec fn write_all(m: Map<Seq<char>, EntryView>, w: Seq<(Seq<char>, Seq<char>)>) -> Map<
    Seq<char>,
    EntryView,
>
    decreases w.len(),
{
    if w.len() == 0 {
        m
    } else {
        write_all(m, w.drop_last()).insert(w.last().0, (w.last().1, None))
    }
}

pub open spec fn distinct_keys(w: Seq<(Seq<char>, Seq<char>)>) -> bool {
    forall|i: int, j: int|
        0 <= i < w.len() && 0 <= j < w.len() && i != j ==> (#[trigger] w[i]).0 != (#[trigger] w[j]).0
}

/// Writes under distinct keys do not disturb one another: whatever order they are
/// serialised in (each write holds the store alone), every key then reads back the
/// value written to it.
pub proof fn lemma_distinct_key_writes(
    m: Map<Seq<char>, EntryView>,
    w: Seq<(Seq<char>, Seq<char>)>,
    now: u64,
)
    requires
        distinct_keys(w),
    ensures
        forall|i: int| 0 <= i < w.len() ==> lookup(write_all(m, w), (#[trigger] w[i]).0, now) == Some(w[i].1),
    decreases w.len(),
{
    if w.len() > 0 {
        let init = w.drop_last();
        assert forall|i: int, j: int|
            0 <= i < init.len() && 0 <= j < init.len() && i != j implies (#[trigger] init[i]).0
            != (#[trigger] init[j]).0 by {
            assert(w[i] == init[i] && w[j] == init[j]);
        }
        lemma_distinct_key_writes(m, init, now);
        assert forall|i: int| 0 <= i < w.len() implies lookup(write_all(m, w), (#[trigger] w[i]).0, now)
            == Some(w[i].1) by {
            if i < w.len() - 1 {
                assert(w[i] == init[i]);
                assert(w[i].0 != w[w.len() - 1].0);
                assert(lookup(write_all(m, init), init[i].0, now) == Some(init[i].1));
            }
        }
    }
}

} // verus!
