//! The in-memory index: each live key mapped to the position of its latest
//! `Put` record.

use vstd::prelude::*;
use crate::store::CommandPos;

verus! {

/// The mapping an entry list denotes; later entries shadow earlier ones.
pub open spec fn index_map(s: Seq<(String, CommandPos)>) -> Map<Seq<char>, CommandPos>
    decreases s.len(),
{
    if s.len() == 0 {
        Map::empty()
    } else {
        index_map(s.drop_last()).insert(s.last().0@, s.last().1)
    }
}

/// No two entries name the same key.
pub open spec fn distinct_keys(s: Seq<(String, CommandPos)>) -> bool {
    forall|i: int, j: int| 0 <= i < j < s.len() ==> (#[trigger] s[i]).0@ != (#[trigger] s[j]).0@
}

/// The total length of the records the index reaches: the live bytes.
pub open spec fn live_len(s: Seq<(String, CommandPos)>) -> nat
    decreases s.len(),
{
    if s.len() == 0 {
        0
    } else {
        (live_len(s.drop_last()) + s.last().1.len) as nat
    }
}

/// A key is in the map exactly when some entry names it.
pub proof fn lemma_index_map_contains(s: Seq<(String, CommandPos)>, k: Seq<char>)
    ensures
        index_map(s).contains_key(k) <==> exists|i: int| 0 <= i < s.len() && (#[trigger] s[i]).0@
            == k,
    decreases s.len(),
{
    if s.len() > 0 {
        lemma_index_map_contains(s.drop_last(), k);
        if s.last().0@ == k {
            assert(s[s.len() - 1].0@ == k);
        } else {
            if exists|i: int| 0 <= i < s.len() - 1 && (#[trigger] s.drop_last()[i]).0@ == k {
                let i = choose|i: int|
                    0 <= i < s.len() - 1 && (#[trigger] s.drop_last()[i]).0@ == k;
                assert(s[i].0@ == k);
            }
            if exists|i: int| 0 <= i < s.len() && (#[trigger] s[i]).0@ == k {
                let i = choose|i: int| 0 <= i < s.len() && (#[trigger] s[i]).0@ == k;
                assert(i < s.len() - 1);
                assert(s.drop_last()[i].0@ == k);
            }
        }
    }
}

/// With distinct keys, each entry is the one its key maps to.
pub proof fn lemma_index_map_entry(s: Seq<(String, CommandPos)>, i: int)
    requires
        distinct_keys(s),
        0 <= i < s.len(),
    ensures
        index_map(s).contains_key(s[i].0@),
        index_map(s)[s[i].0@] == s[i].1,
    decreases s.len(),
{
    if i == s.len() - 1 {
    } else {
        assert(distinct_keys(s.drop_last()));
        assert(s.drop_last()[i] == s[i]);
        lemma_index_map_entry(s.drop_last(), i);
        assert(s[i].0@ != s.last().0@);
    }
}

/// Removing the entry at `i` removes exactly its key from the map and its
/// record length from the live bytes.
pub proof fn lemma_index_remove_at(s: Seq<(String, CommandPos)>, i: int)
    requires
        distinct_keys(s),
        0 <= i < s.len(),
    ensures
        distinct_keys(s.remove(i)),
        index_map(s.remove(i)) == index_map(s).remove(s[i].0@),
        live_len(s.remove(i)) + s[i].1.len == live_len(s),
    decreases s.len(),
{
    if i == s.len() - 1 {
        assert(s.remove(i) =~= s.drop_last());
        lemma_index_map_contains(s.drop_last(), s[i].0@);
        assert(!index_map(s.drop_last()).contains_key(s[i].0@)) by {
            if exists|j: int| 0 <= j < s.len() - 1 && (#[trigger] s.drop_last()[j]).0@ == s[i].0@ {
                let j = choose|j: int|
                    0 <= j < s.len() - 1 && (#[trigger] s.drop_last()[j]).0@ == s[i].0@;
                assert(s[j].0@ == s[i].0@);
            }
        }
        assert(index_map(s.drop_last()) =~= index_map(s).remove(s[i].0@));
    } else {
        let t = s.remove(i);
        assert(t.drop_last() =~= s.drop_last().remove(i));
        assert(t.last() == s.last());
        assert(distinct_keys(s.drop_last()));
        lemma_index_remove_at(s.drop_last(), i);
        assert(index_map(t) == index_map(s.drop_last()).remove(s[i].0@).insert(
            s.last().0@,
            s.last().1,
        ));
        assert(s[i].0@ != s.last().0@);
        assert(index_map(s.drop_last()).remove(s[i].0@).insert(s.last().0@, s.last().1)
            =~= index_map(s.drop_last()).insert(s.last().0@, s.last().1).remove(s[i].0@));
        assert(distinct_keys(t)) by {
            assert(forall|a: int, b: int|
                0 <= a < b < t.len() ==> (#[trigger] t[a]).0@ != (#[trigger] t[b]).0@) by {
                assert(forall|a: int|
                    0 <= a < t.len() ==> (#[trigger] t[a]) == (if a < i {
                        s[a]
                    } else {
                        s[a + 1]
                    }));
            }
        }
    }
}

/// The live bytes of a prefix never exceed those of the whole list.
pub proof fn lemma_live_take_succ(s: Seq<(String, CommandPos)>, i: int)
    requires
        0 <= i < s.len(),
    ensures
        live_len(s.take(i + 1)) == live_len(s.take(i)) + s[i].1.len,
{
    assert(s.take(i + 1).drop_last() =~= s.take(i));
    assert(s.take(i + 1).last() == s[i]);
}

/// A prefix reaches at most as many live bytes as the whole list.
pub proof fn lemma_live_take_mono(s: Seq<(String, CommandPos)>, i: int)
    requires
        0 <= i <= s.len(),
    ensures
        live_len(s.take(i)) <= live_len(s),
    decreases s.len() - i,
{
    if i == s.len() {
        assert(s.take(i) =~= s);
    } else {
        lemma_live_take_succ(s, i);
        lemma_live_take_mono(s, i + 1);
    }
}

/// Finds the entry for `key`, if one exists.
pub fn index_get(index: &Vec<(String, CommandPos)>, key: &String) -> (r: Option<CommandPos>)
    requires
        distinct_keys(index@),
    ensures
        match r {
            Some(p) => index_map(index@).contains_key(key@) && index_map(index@)[key@] == p,
            None => !index_map(index@).contains_key(key@),
        },
{
    let n = index.len();
    let mut i: usize = 0;
    while i < n
        invariant
            i <= n,
            n == index@.len(),
            distinct_keys(index@),
            forall|j: int| 0 <= j < i ==> (#[trigger] index@[j]).0@ != key@,
        decreases n - i,
    {
        if index[i].0 == *key {
            proof {
                lemma_index_map_entry(index@, i as int);
            }
            return Some(index[i].1);
        }
        i = i + 1;
    }
    proof {
        lemma_index_map_contains(index@, key@);
    }
    None
}

/// Removes the entry for `key`, returning the record position it held.
pub fn index_remove(index: &mut Vec<(String, CommandPos)>, key: &String) -> (r: Option<
    CommandPos,
>)
    requires
        distinct_keys(old(index)@),
    ensures
        distinct_keys(final(index)@),
        match r {
            Some(p) => {
                &&& index_map(old(index)@).contains_key(key@)
                &&& index_map(old(index)@)[key@] == p
                &&& index_map(final(index)@) == index_map(old(index)@).remove(key@)
                &&& live_len(final(index)@) + p.len == live_len(old(index)@)
                &&& forall|i: int| 0 <= i < final(index)@.len() ==> exists|j: int|
                    0 <= j < old(index)@.len() && (#[trigger] final(index)@[i]) == old(
                        index,
                    )@[j]
            },
            None => {
                &&& !index_map(old(index)@).contains_key(key@)
                &&& final(index)@ == old(index)@
            },
        },
{
    let n = index.len();
    let mut i: usize = 0;
    while i < n
        invariant
            i <= n,
            n == index@.len(),
            index@ == old(index)@,
            distinct_keys(index@),
            forall|j: int| 0 <= j < i ==> (#[trigger] index@[j]).0@ != key@,
        decreases n - i,
    {
        if index[i].0 == *key {
            proof {
                lemma_index_map_entry(index@, i as int);
                lemma_index_remove_at(index@, i as int);
            }
            let p = index[i].1;
            index.remove(i);
            proof {
                assert(forall|a: int|
                    0 <= a < index@.len() ==> (#[trigger] index@[a]) == (if a < i {
                        old(index)@[a]
                    } else {
                        old(index)@[a + 1]
                    }));
            }
            return Some(p);
        }
        i = i + 1;
    }
    proof {
        lemma_index_map_contains(index@, key@);
    }
    None
}

/// Binds `key` to `p`, returning the record position it previously held.
pub fn index_insert(index: &mut Vec<(String, CommandPos)>, key: String, p: CommandPos) -> (r:
    Option<CommandPos>)
    requires
        distinct_keys(old(index)@),
    ensures
        distinct_keys(final(index)@),
        index_map(final(index)@) == index_map(old(index)@).insert(key@, p),
        final(index)@.last() == (key, p),
        final(index)@.len() >= 1,
        forall|i: int| 0 <= i < final(index)@.len() - 1 ==> exists|j: int|
            0 <= j < old(index)@.len() && (#[trigger] final(index)@[i]) == old(index)@[j],
        match r {
            Some(q) => {
                &&& index_map(old(index)@).contains_key(key@)
                &&& index_map(old(index)@)[key@] == q
                &&& live_len(final(index)@) + q.len == live_len(old(index)@) + p.len
            },
            None => {
                &&& !index_map(old(index)@).contains_key(key@)
                &&& live_len(final(index)@) == live_len(old(index)@) + p.len
            },
        },
{
    let r = index_remove(index, &key);
    let ghost mid = index@;
    index.push((key, p));
    proof {
        assert(index@.drop_last() =~= mid);
        assert(index@.last() == (key, p));
        assert(index_map(index@) == index_map(mid).insert(key@, p));
        match r {
            Some(q) => {
                assert(index_map(mid).insert(key@, p) =~= index_map(old(index)@).insert(key@, p));
            }
            None => {
                assert(index_map(mid).insert(key@, p) =~= index_map(old(index)@).insert(key@, p));
            }
        }
        assert(distinct_keys(index@)) by {
            lemma_index_map_contains(mid, key@);
            assert(forall|j: int| 0 <= j < mid.len() ==> (#[trigger] mid[j]).0@ != key@);
            assert(forall|j: int| 0 <= j < index@.len() - 1 ==> (#[trigger] index@[j]) == mid[j]);
        }
        assert forall|i: int| 0 <= i < index@.len() - 1 implies exists|j: int|
            0 <= j < old(index)@.len() && (#[trigger] index@[i]) == old(index)@[j] by {
            assert(index@[i] == mid[i]);
            match r {
                Some(_) => {
                    let j = choose|j: int|
                        0 <= j < old(index)@.len() && (#[trigger] mid[i]) == old(index)@[j];
                    assert(index@[i] == old(index)@[j]);
                }
                None => {
                    assert(index@[i] == old(index)@[i]);
                }
            }
        }
    }
    r
}

} // verus!
