//! The in-memory index: each key mapped to the byte span of its most recent
//! `Set` record in the log. The index is a derived, rebuildable cache; the
//! log is the source of truth.

use vstd::prelude::*;

verus! {

/// Where a key's current record lies in the log: its byte offset, and its
/// length with the record delimiter included.
#[derive(Clone, Copy, Debug, PartialEq, Eq, Structural)]
pub struct LogInFile {
    pub offset: u64,
    pub length: u64,
}

impl LogInFile {
    /// Build a pointer from a record's offset and length.
    pub fn new(offset: u64, length: u64) -> (r: LogInFile)
        ensures
            r == (LogInFile { offset, length }),
    {
        LogInFile { offset, length }
    }
}

/// Each key occurs at most once among the entries.
pub open spec fn uniq_keys(es: Seq<(String, LogInFile)>) -> bool {
    forall|i: int, j: int| 0 <= i < j < es.len() ==> es[i].0@ != es[j].0@
}

/// The key-to-span map that a sequence of entries stands for, later entries
/// winning.
pub open spec fn entries_map(es: Seq<(String, LogInFile)>) -> Map<Seq<char>, LogInFile>
    decreases es.len(),
{
    if es.len() == 0 {
        Map::empty()
    } else {
        entries_map(es.drop_last()).insert(es.last().0@, es.last().1)
    }
}

/// The bytes of the log that the entries point at: the live bytes.
pub open spec fn live_sum(es: Seq<(String, LogInFile)>) -> int
    decreases es.len(),
{
    if es.len() == 0 {
        0
    } else {
        live_sum(es.drop_last()) + es.last().1.length
    }
}

/// A key is in the map exactly when some entry carries it.
pub proof fn lemma_entries_map_dom(es: Seq<(String, LogInFile)>, k: Seq<char>)
    ensures
        entries_map(es).dom().contains(k) <==> exists|i: int|
            0 <= i < es.len() && es[i].0@ == k,
    decreases es.len(),
{
    if es.len() == 0 {
    } else {
        let prefix = es.drop_last();
        lemma_entries_map_dom(prefix, k);
        if es.last().0@ == k {
            assert(es[es.len() - 1].0@ == k);
        } else {
            if entries_map(es).dom().contains(k) {
                assert(entries_map(prefix).dom().contains(k));
                let i = choose|i: int| 0 <= i < prefix.len() && prefix[i].0@ == k;
                assert(es[i].0@ == k);
            }
            if exists|i: int| 0 <= i < es.len() && es[i].0@ == k {
                let i = choose|i: int| 0 <= i < es.len() && es[i].0@ == k;
                assert(i < es.len() - 1);
                assert(prefix[i].0@ == k);
                assert(entries_map(prefix).dom().contains(k));
            }
        }
    }
}

/// With unique keys, the map sends each entry's key to that entry's span.
pub proof fn lemma_entries_map_get(es: Seq<(String, LogInFile)>, i: int)
    requires
        uniq_keys(es),
        0 <= i < es.len(),
    ensures
        entries_map(es).dom().contains(es[i].0@),
        entries_map(es)[es[i].0@] == es[i].1,
    decreases es.len(),
{
    let prefix = es.drop_last();
    if i == es.len() - 1 {
    } else {
        assert(uniq_keys(prefix));
        lemma_entries_map_get(prefix, i);
        assert(es.last().0@ != es[i].0@);
    }
}

/// Live bytes are never negative.
pub proof fn lemma_live_sum_nonneg(es: Seq<(String, LogInFile)>)
    ensures
        live_sum(es) >= 0,
    decreases es.len(),
{
    if es.len() == 0 {
    } else {
        lemma_live_sum_nonneg(es.drop_last());
    }
}

/// Every entry's span is part of the live bytes.
pub proof fn lemma_live_sum_ge(es: Seq<(String, LogInFile)>, i: int)
    requires
        0 <= i < es.len(),
    ensures
        live_sum(es) >= es[i].1.length,
    decreases es.len(),
{
    let prefix = es.drop_last();
    if i == es.len() - 1 {
        lemma_live_sum_nonneg(prefix);
    } else {
        lemma_live_sum_ge(prefix, i);
    }
}

/// Replacing one entry adjusts the live bytes by the difference of spans.
pub proof fn lemma_live_sum_update(es: Seq<(String, LogInFile)>, i: int, e: (String, LogInFile))
    requires
        0 <= i < es.len(),
    ensures
        live_sum(es.update(i, e)) == live_sum(es) - es[i].1.length + e.1.length,
    decreases es.len(),
{
    let prefix = es.drop_last();
    if i == es.len() - 1 {
        assert(es.update(i, e).drop_last() =~= prefix);
        assert(es.update(i, e).last() == e);
    } else {
        assert(es.update(i, e).drop_last() =~= prefix.update(i, e));
        assert(es.update(i, e).last() == es.last());
        lemma_live_sum_update(prefix, i, e);
    }
}

/// Replacing one entry by another with the same key updates the map at that
/// key and keeps the keys unique.
pub proof fn lemma_entries_map_update(es: Seq<(String, LogInFile)>, i: int, e: (String, LogInFile))
    requires
        uniq_keys(es),
        0 <= i < es.len(),
        es[i].0@ == e.0@,
    ensures
        entries_map(es.update(i, e)) == entries_map(es).insert(e.0@, e.1),
        uniq_keys(es.update(i, e)),
    decreases es.len(),
{
    let prefix = es.drop_last();
    assert forall|a: int, b: int| 0 <= a < b < es.update(i, e).len() implies es.update(i, e)[a].0@
        != es.update(i, e)[b].0@ by {
        assert(es[a].0@ != es[b].0@);
    }
    if i == es.len() - 1 {
        assert(es.update(i, e).drop_last() =~= prefix);
        assert(es.update(i, e).last() == e);
        assert(entries_map(prefix).insert(e.0@, e.1) =~= entries_map(prefix).insert(
            es.last().0@,
            es.last().1,
        ).insert(e.0@, e.1));
    } else {
        assert(es.update(i, e).drop_last() =~= prefix.update(i, e));
        assert(es.update(i, e).last() == es.last());
        assert(uniq_keys(prefix));
        lemma_entries_map_update(prefix, i, e);
        assert(es.last().0@ != e.0@);
        assert(entries_map(prefix).insert(e.0@, e.1).insert(es.last().0@, es.last().1)
            =~= entries_map(prefix).insert(es.last().0@, es.last().1).insert(e.0@, e.1));
    }
}

/// Removing one entry removes its key from the map and its span from the
/// live bytes.
pub proof fn lemma_entries_map_remove(es: Seq<(String, LogInFile)>, i: int)
    requires
        uniq_keys(es),
        0 <= i < es.len(),
    ensures
        entries_map(es.remove(i)) == entries_map(es).remove(es[i].0@),
        uniq_keys(es.remove(i)),
        live_sum(es.remove(i)) == live_sum(es) - es[i].1.length,
    decreases es.len(),
{
    let prefix = es.drop_last();
    assert forall|a: int, b: int| 0 <= a < b < es.remove(i).len() implies es.remove(i)[a].0@
        != es.remove(i)[b].0@ by {
        let a0 = if a < i {
            a
        } else {
            a + 1
        };
        let b0 = if b < i {
            b
        } else {
            b + 1
        };
        assert(es.remove(i)[a] == es[a0]);
        assert(es.remove(i)[b] == es[b0]);
        assert(es[a0].0@ != es[b0].0@);
    }
    if i == es.len() - 1 {
        assert(es.remove(i) =~= prefix);
        lemma_entries_map_dom(prefix, es[i].0@);
        assert(!entries_map(prefix).dom().contains(es[i].0@)) by {
            if exists|j: int| 0 <= j < prefix.len() && prefix[j].0@ == es[i].0@ {
                let j = choose|j: int| 0 <= j < prefix.len() && prefix[j].0@ == es[i].0@;
                assert(es[j].0@ == es[i].0@);
                assert(false);
            }
        }
        assert(entries_map(prefix) =~= entries_map(prefix).insert(es.last().0@, es.last().1).remove(
            es[i].0@,
        ));
    } else {
        assert(es.remove(i).drop_last() =~= prefix.remove(i));
        assert(es.remove(i).last() == es.last());
        assert(uniq_keys(prefix));
        lemma_entries_map_remove(prefix, i);
        assert(es.last().0@ != es[i].0@);
        assert(entries_map(prefix).remove(es[i].0@).insert(es.last().0@, es.last().1)
            =~= entries_map(prefix).insert(es.last().0@, es.last().1).remove(es[i].0@));
    }
}


/// Find the entry that carries the key, if any.
pub fn find_entry(index: &Vec<(String, LogInFile)>, key: &String) -> (r: Option<usize>)
    ensures
        match r {
            Some(i) => i < index@.len() && index@[i as int].0@ == key@,
            None => forall|i: int| 0 <= i < index@.len() ==> index@[i].0@ != key@,
        },
{
    let mut i: usize = 0;
    while i < index.len()
        invariant
            0 <= i <= index@.len(),
            forall|j: int| 0 <= j < i ==> index@[j].0@ != key@,
        decreases index@.len() - i,
    {
        let e = &index[i];
        if e.0 == *key {
            return Some(i);
        }
        i = i + 1;
    }
    None
}

/// Point the key at a new span, returning the span it pointed at before.
pub fn index_insert(index: &mut Vec<(String, LogInFile)>, key: String, ptr: LogInFile) -> (prior:
    Option<LogInFile>)
    requires
        uniq_keys(old(index)@),
    ensures
        uniq_keys(final(index)@),
        entries_map(final(index)@) == entries_map(old(index)@).insert(key@, ptr),
        forall|i: int|
            0 <= i < final(index)@.len() ==> ((#[trigger] final(index)@[i]).0@ == key@
                && final(index)@[i].1 == ptr) || (exists|j: int|
                0 <= j < old(index)@.len() && final(index)@[i] == old(index)@[j]),
        match prior {
            Some(p) => {
                &&& entries_map(old(index)@).dom().contains(key@)
                &&& entries_map(old(index)@)[key@] == p
                &&& live_sum(final(index)@) == live_sum(old(index)@) - p.length + ptr.length
            },
            None => {
                &&& !entries_map(old(index)@).dom().contains(key@)
                &&& live_sum(final(index)@) == live_sum(old(index)@) + ptr.length
            },
        },
{
    match find_entry(index, &key) {
        Some(i) => {
            let p = index[i].1;
            proof {
                lemma_entries_map_get(index@, i as int);
                lemma_entries_map_update(index@, i as int, (key, ptr));
                lemma_live_sum_update(index@, i as int, (key, ptr));
            }
            let e = vstd::std_specs::vec::vec_index_mut(index, i);
            *e = (key, ptr);
            Some(p)
        },
        None => {
            proof {
                lemma_entries_map_dom(index@, key@);
                let es2 = index@.push((key, ptr));
                assert(es2.drop_last() =~= index@);
                assert(es2.last() == (key, ptr));
                assert forall|a: int, b: int| 0 <= a < b < es2.len() implies es2[a].0@
                    != es2[b].0@ by {
                    if b < es2.len() - 1 {
                        assert(es2[a] == index@[a]);
                        assert(es2[b] == index@[b]);
                    } else {
                        assert(es2[a] == index@[a]);
                        assert(index@[a].0@ != key@);
                    }
                }
            }
            index.push((key, ptr));
            None
        },
    }
}

/// Drop the key's entry, returning the span it pointed at.
pub fn index_remove(index: &mut Vec<(String, LogInFile)>, key: &String) -> (prior: Option<
    LogInFile>)
    requires
        uniq_keys(old(index)@),
    ensures
        uniq_keys(final(index)@),
        forall|i: int|
            0 <= i < final(index)@.len() ==> exists|j: int|
                0 <= j < old(index)@.len() && #[trigger] final(index)@[i] == old(index)@[j],
        match prior {
            Some(p) => {
                &&& entries_map(old(index)@).dom().contains(key@)
                &&& entries_map(old(index)@)[key@] == p
                &&& entries_map(final(index)@) == entries_map(old(index)@).remove(key@)
                &&& live_sum(final(index)@) == live_sum(old(index)@) - p.length
            },
            None => {
                &&& !entries_map(old(index)@).dom().contains(key@)
                &&& final(index)@ == old(index)@
            },
        },
{
    match find_entry(index, key) {
        Some(i) => {
            let p = index[i].1;
            proof {
                lemma_entries_map_get(index@, i as int);
                lemma_entries_map_remove(index@, i as int);
                assert forall|a: int|
                    0 <= a < index@.remove(i as int).len() implies exists|j: int|
                    0 <= j < index@.len() && #[trigger] index@.remove(i as int)[a] == index@[j] by {
                    let j0 = if a < i {
                        a
                    } else {
                        a + 1
                    };
                    assert(index@.remove(i as int)[a] == index@[j0]);
                }
            }
            index.remove(i);
            Some(p)
        },
        None => {
            proof {
                lemma_entries_map_dom(index@, key@);
            }
            None
        },
    }
}

} // verus!
