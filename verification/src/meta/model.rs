//! The map that a manifest's sorted entries denote, and the facts about it
//! that the manifest's operations rest on.

use vstd::prelude::*;
use super::format::{key_bytes, lemma_lex_irreflexive, lemma_lex_transitive, lex_lt, sorted_keys, valid_key};
use super::parse::{spec_entries, spec_entry_run};
use super::value::{Limits, ValueView};

verus! {

/// A manifest's entries: sorted by key bytes, and every key canonical.
pub open spec fn well_formed(es: Seq<(Seq<char>, ValueView)>) -> bool {
    &&& sorted_keys(es)
    &&& forall|i: int| 0 <= i < es.len() ==> #[trigger] valid_key(key_bytes(es[i].0))
}

/// No key occurs twice.
pub open spec fn distinct_keys(es: Seq<(Seq<char>, ValueView)>) -> bool {
    forall|i: int, j: int| 0 <= i < es.len() && 0 <= j < es.len() && i != j ==> es[i].0 != es[j].0
}

/// The key-value map that entries denote (a later entry wins a tie).
pub open spec fn entries_map(es: Seq<(Seq<char>, ValueView)>) -> Map<Seq<char>, ValueView>
    decreases es.len(),
{
    if es.len() == 0 {
        Map::empty()
    } else {
        entries_map(es.drop_last()).insert(es.last().0, es.last().1)
    }
}

/// Sorted keys are distinct.
pub proof fn lemma_sorted_distinct(es: Seq<(Seq<char>, ValueView)>)
    requires
        sorted_keys(es),
    ensures
        distinct_keys(es),
{
    assert forall|i: int, j: int| 0 <= i < es.len() && 0 <= j < es.len() && i != j implies es[i].0 != es[j].0 by {
        if es[i].0 == es[j].0 {
            lemma_lex_irreflexive(key_bytes(es[i].0));
            if i < j {
                assert(lex_lt(key_bytes(es[i].0), key_bytes(es[j].0)));
            } else {
                assert(lex_lt(key_bytes(es[j].0), key_bytes(es[i].0)));
            }
        }
    }
}

/// The keys of the map are the keys of the entries, and with distinct keys
/// each entry's value is the map's value at its key.
pub proof fn lemma_entries_map(es: Seq<(Seq<char>, ValueView)>)
    ensures
        forall|k: Seq<char>| #[trigger] entries_map(es).dom().contains(k) <==> exists|i: int| 0 <= i < es.len() && es[i].0 == k,
        distinct_keys(es) ==> forall|i: int| 0 <= i < es.len() ==> #[trigger] entries_map(es)[es[i].0] == es[i].1,
        entries_map(es).dom().finite(),
    decreases es.len(),
{
    if es.len() > 0 {
        let init = es.drop_last();
        lemma_entries_map(init);
        assert forall|k: Seq<char>| #[trigger] entries_map(es).dom().contains(k) <==> exists|i: int| 0 <= i < es.len() && es[i].0 == k by {
            if entries_map(es).dom().contains(k) && k != es.last().0 {
                let i = choose|i: int| 0 <= i < init.len() && init[i].0 == k;
                assert(es[i].0 == k);
            }
            if exists|i: int| 0 <= i < es.len() && es[i].0 == k {
                let i = choose|i: int| 0 <= i < es.len() && es[i].0 == k;
                if i < es.len() - 1 {
                    assert(init[i].0 == k);
                }
            }
        }
        if distinct_keys(es) {
            assert(distinct_keys(init));
            assert forall|i: int| 0 <= i < es.len() implies #[trigger] entries_map(es)[es[i].0] == es[i].1 by {
                if i < es.len() - 1 {
                    assert(init[i] == es[i]);
                    assert(es[i].0 != es.last().0);
                }
            }
        }
    }
}

/// Replacing the value of an entry replaces the map's value at its key.
pub proof fn lemma_entries_map_update(es: Seq<(Seq<char>, ValueView)>, i: int, v: ValueView)
    requires
        distinct_keys(es),
        0 <= i < es.len(),
    ensures
        entries_map(es.update(i, (es[i].0, v))) == entries_map(es).insert(es[i].0, v),
        distinct_keys(es.update(i, (es[i].0, v))),
{
    let new = es.update(i, (es[i].0, v));
    lemma_entries_map(es);
    lemma_entries_map(new);
    assert(distinct_keys(new));
    assert forall|k: Seq<char>| #[trigger] entries_map(new).dom().contains(k) == entries_map(es).insert(es[i].0, v).dom().contains(k) by {
        if entries_map(es).dom().contains(k) {
            let j = choose|j: int| 0 <= j < es.len() && es[j].0 == k;
            assert(new[j].0 == k);
        }
    }
    assert forall|k: Seq<char>| #[trigger] entries_map(new).dom().contains(k) implies entries_map(new)[k] == entries_map(es).insert(es[i].0, v)[k] by {
        let j = choose|j: int| 0 <= j < new.len() && new[j].0 == k;
        assert(entries_map(new)[new[j].0] == new[j].1);
        if j != i {
            assert(entries_map(es)[es[j].0] == es[j].1);
        }
    }
    assert(entries_map(new) =~= entries_map(es).insert(es[i].0, v));
}

/// Inserting an entry with a new key inserts it into the map.
pub proof fn lemma_entries_map_insert(es: Seq<(Seq<char>, ValueView)>, j: int, e: (Seq<char>, ValueView))
    requires
        distinct_keys(es),
        0 <= j <= es.len(),
        forall|i: int| 0 <= i < es.len() ==> es[i].0 != e.0,
    ensures
        entries_map(es.insert(j, e)) == entries_map(es).insert(e.0, e.1),
        distinct_keys(es.insert(j, e)),
{
    let new = es.insert(j, e);
    lemma_entries_map(es);
    assert(distinct_keys(new)) by {
        assert forall|a: int, b: int| 0 <= a < new.len() && 0 <= b < new.len() && a != b implies new[a].0 != new[b].0 by {
            if a != j && b != j {
                let a2 = if a < j { a } else { a - 1 };
                let b2 = if b < j { b } else { b - 1 };
                assert(new[a] == es[a2]);
                assert(new[b] == es[b2]);
            } else if a == j {
                let b2 = if b < j { b } else { b - 1 };
                assert(new[b] == es[b2]);
            } else {
                let a2 = if a < j { a } else { a - 1 };
                assert(new[a] == es[a2]);
            }
        }
    }
    lemma_entries_map(new);
    assert forall|k: Seq<char>| #[trigger] entries_map(new).dom().contains(k) == entries_map(es).insert(e.0, e.1).dom().contains(k) by {
        if entries_map(es).dom().contains(k) {
            let i = choose|i: int| 0 <= i < es.len() && es[i].0 == k;
            let i2 = if i < j { i } else { i + 1 };
            assert(new[i2].0 == k);
        }
        if k == e.0 {
            assert(new[j].0 == k);
        }
        if entries_map(new).dom().contains(k) && k != e.0 {
            let i = choose|i: int| 0 <= i < new.len() && new[i].0 == k;
            let i2 = if i < j { i } else { i - 1 };
            assert(es[i2].0 == k);
        }
    }
    assert forall|k: Seq<char>| #[trigger] entries_map(new).dom().contains(k) implies entries_map(new)[k] == entries_map(es).insert(e.0, e.1)[k] by {
        let i = choose|i: int| 0 <= i < new.len() && new[i].0 == k;
        assert(entries_map(new)[new[i].0] == new[i].1);
        if i != j {
            let i2 = if i < j { i } else { i - 1 };
            assert(new[i] == es[i2]);
            assert(entries_map(es)[es[i2].0] == es[i2].1);
        }
    }
    assert(entries_map(new) =~= entries_map(es).insert(e.0, e.1));
}

/// Decoded entries are well formed, and come after the key before them.
pub proof fn lemma_entry_run_well_formed(
    bytes: Seq<u8>,
    pos: int,
    count: int,
    depth: int,
    lim: Limits,
    prev: Option<Seq<u8>>,
)
    ensures
        spec_entry_run(bytes, pos, count, depth, lim, prev) matches Ok((es, _)) ==> {
            &&& well_formed(es)
            &&& prev matches Some(p) ==> forall|i: int| 0 <= i < es.len() ==> lex_lt(p, #[trigger] key_bytes(es[i].0))
        },
    decreases count,
{
    if count > 0 {
        if let Ok((es, q)) = spec_entry_run(bytes, pos, count, depth, lim, prev) {
            let (len, p1) = super::parse::spec_u64(bytes, pos)->Ok_0;
            let p2 = super::parse::spec_take(bytes, p1, len as int)->Ok_0;
            let raw = bytes.subrange(p1, p2);
            let (v, p3) = super::parse::spec_value(bytes, p2, depth + 1, lim)->Ok_0;
            lemma_entry_run_well_formed(bytes, p3, count - 1, depth, lim, Some(raw));
            let rest = spec_entry_run(bytes, p3, count - 1, depth, lim, Some(raw))->Ok_0.0;
            vstd::utf8::decode_utf8_encode_utf8(raw);
            assert(es == seq![(vstd::utf8::decode_utf8(raw), v)] + rest);
            assert(key_bytes(es[0].0) == raw);
            assert forall|i: int| 1 <= i < es.len() implies lex_lt(raw, #[trigger] key_bytes(es[i].0)) by {
                assert(es[i] == rest[i - 1]);
            }
            assert forall|a: int, b: int| 0 <= a < b < es.len() implies lex_lt(#[trigger] key_bytes(es[a].0), #[trigger] key_bytes(es[b].0)) by {
                if a > 0 {
                    assert(es[a] == rest[a - 1]);
                    assert(es[b] == rest[b - 1]);
                }
            }
            assert forall|i: int| 0 <= i < es.len() implies #[trigger] valid_key(key_bytes(es[i].0)) by {
                if i > 0 {
                    assert(es[i] == rest[i - 1]);
                }
            }
            if let Some(p) = prev {
                assert forall|i: int| 0 <= i < es.len() implies lex_lt(p, #[trigger] key_bytes(es[i].0)) by {
                    if i > 0 {
                        lemma_lex_transitive(p, raw, key_bytes(es[i].0));
                    }
                }
            }
        }
    }
}

/// Decoded entries are well formed.
pub proof fn lemma_entries_well_formed(bytes: Seq<u8>, pos: int, count: int, depth: int, lim: Limits)
    ensures
        spec_entries(bytes, pos, count, depth, lim) matches Ok((es, _)) ==> well_formed(es),
{
    lemma_entry_run_well_formed(bytes, pos, count, depth, lim, None);
}

/// Removing an entry removes its key from the map.
pub proof fn lemma_entries_map_remove(es: Seq<(Seq<char>, ValueView)>, i: int)
    requires
        distinct_keys(es),
        0 <= i < es.len(),
    ensures
        entries_map(es.remove(i)) == entries_map(es).remove(es[i].0),
        distinct_keys(es.remove(i)),
{
    let new = es.remove(i);
    lemma_entries_map(es);
    assert(distinct_keys(new)) by {
        assert forall|a: int, b: int| 0 <= a < new.len() && 0 <= b < new.len() && a != b implies new[a].0 != new[b].0 by {
            let a2 = if a < i { a } else { a + 1 };
            let b2 = if b < i { b } else { b + 1 };
            assert(new[a] == es[a2]);
            assert(new[b] == es[b2]);
        }
    }
    lemma_entries_map(new);
    assert forall|k: Seq<char>| #[trigger] entries_map(new).dom().contains(k) == entries_map(es).remove(es[i].0).dom().contains(k) by {
        if entries_map(new).dom().contains(k) {
            let a = choose|a: int| 0 <= a < new.len() && new[a].0 == k;
            let a2 = if a < i { a } else { a + 1 };
            assert(es[a2].0 == k);
        }
        if entries_map(es).dom().contains(k) && k != es[i].0 {
            let a = choose|a: int| 0 <= a < es.len() && es[a].0 == k;
            let a2 = if a < i { a } else { a - 1 };
            assert(new[a2].0 == k);
        }
    }
    assert forall|k: Seq<char>| #[trigger] entries_map(new).dom().contains(k) implies entries_map(new)[k] == entries_map(es).remove(es[i].0)[k] by {
        let a = choose|a: int| 0 <= a < new.len() && new[a].0 == k;
        let a2 = if a < i { a } else { a + 1 };
        assert(new[a] == es[a2]);
        assert(entries_map(new)[new[a].0] == new[a].1);
        assert(entries_map(es)[es[a2].0] == es[a2].1);
    }
    assert(entries_map(new) =~= entries_map(es).remove(es[i].0));
}

} // verus!
