//! The semantic digest covers a manifest's content, not its bindings: the
//! `hash.` entries, which record digests of the module and of the manifest
//! itself, leave it unchanged.

use vstd::prelude::*;
use vstd::string::StringSliceAdditionalSpecFns;
use super::format::{key_bytes, lemma_lex_irreflexive, lemma_lex_transitive, lex_lt, sorted_keys};
use super::manifest::{is_hash_key, semantic_digest, semantic_entries};
use super::model::{distinct_keys, entries_map, lemma_entries_map, lemma_sorted_distinct, well_formed};
use super::value::ValueView;

verus! {

/// The keys that are not bindings.
pub open spec fn content_keys() -> Set<Seq<char>> {
    Set::new(|k: Seq<char>| !is_hash_key(k))
}

/// Every entry kept is an entry of `es`, and the map they denote is that
/// of `es` without its bindings.
proof fn lemma_semantic_entries(es: Seq<(Seq<char>, ValueView)>)
    ensures
        forall|i: int| 0 <= i < semantic_entries(es).len() ==> exists|j: int| 0 <= j < es.len() && #[trigger] semantic_entries(es)[i] == es[j],
        entries_map(semantic_entries(es)) == entries_map(es).restrict(content_keys()),
    decreases es.len(),
{
    if es.len() > 0 {
        let init = es.drop_last();
        lemma_semantic_entries(init);
        let s0 = semantic_entries(init);
        assert forall|i: int| 0 <= i < semantic_entries(es).len() implies exists|j: int| 0 <= j < es.len() && #[trigger] semantic_entries(es)[i] == es[j] by {
            if i < s0.len() {
                assert(semantic_entries(es)[i] == s0[i]);
                let j = choose|j: int| 0 <= j < init.len() && s0[i] == init[j];
                assert(es[j] == init[j]);
            } else {
                assert(semantic_entries(es)[i] == es[es.len() - 1]);
            }
        }
        let e = es.last();
        assert(entries_map(es) == entries_map(init).insert(e.0, e.1));
        if is_hash_key(e.0) {
            assert(!content_keys().contains(e.0));
            assert(entries_map(semantic_entries(es)) =~= entries_map(es).restrict(content_keys()));
        } else {
            assert(content_keys().contains(e.0));
            let s = s0.push(e);
            assert(s.drop_last() =~= s0);
            assert(entries_map(s) == entries_map(s0).insert(e.0, e.1));
            assert(entries_map(semantic_entries(es)) =~= entries_map(es).restrict(content_keys()));
        }
    } else {
        assert(entries_map(es).restrict(content_keys()) =~= Map::empty());
    }
}

/// Sorted entries stay sorted when the bindings are left out.
proof fn lemma_semantic_sorted(es: Seq<(Seq<char>, ValueView)>)
    requires
        sorted_keys(es),
    ensures
        sorted_keys(semantic_entries(es)),
    decreases es.len(),
{
    if es.len() > 0 {
        let init = es.drop_last();
        assert(sorted_keys(init));
        lemma_semantic_sorted(init);
        lemma_semantic_entries(init);
        let s0 = semantic_entries(init);
        if !is_hash_key(es.last().0) {
            let s = s0.push(es.last());
            assert forall|a: int, b: int| 0 <= a < b < s.len() implies lex_lt(#[trigger] key_bytes(s[a].0), #[trigger] key_bytes(s[b].0)) by {
                if b == s.len() - 1 {
                    let j = choose|j: int| 0 <= j < init.len() && s0[a] == init[j];
                    assert(es[j] == init[j]);
                } else {
                    assert(s[a] == s0[a] && s[b] == s0[b]);
                }
            }
        }
    }
}

/// The last entry of sorted entries holds the greatest key.
proof fn lemma_last_greatest(es: Seq<(Seq<char>, ValueView)>, k: Seq<char>)
    requires
        sorted_keys(es),
        es.len() > 0,
        entries_map(es).contains_key(k),
    ensures
        k == es.last().0 || lex_lt(key_bytes(k), key_bytes(es.last().0)),
{
    lemma_entries_map(es);
    let j = choose|j: int| 0 <= j < es.len() && es[j].0 == k;
    if j < es.len() - 1 {
        assert(lex_lt(key_bytes(es[j].0), key_bytes(es[es.len() - 1].0)));
    }
}

/// Sorted entries are determined by the map they denote.
proof fn lemma_sorted_unique(a: Seq<(Seq<char>, ValueView)>, b: Seq<(Seq<char>, ValueView)>)
    requires
        sorted_keys(a),
        sorted_keys(b),
        entries_map(a) == entries_map(b),
    ensures
        a == b,
    decreases a.len() + b.len(),
{
    lemma_entries_map(a);
    lemma_entries_map(b);
    lemma_sorted_distinct(a);
    lemma_sorted_distinct(b);
    if a.len() == 0 || b.len() == 0 {
        if a.len() > 0 {
            assert(entries_map(a).contains_key(a[0].0));
        }
        if b.len() > 0 {
            assert(entries_map(b).contains_key(b[0].0));
        }
        assert(a =~= b);
    } else {
        let ka = a.last().0;
        let kb = b.last().0;
        assert(entries_map(a).contains_key(ka)) by {
            assert(a[a.len() - 1].0 == ka);
        }
        assert(entries_map(b).contains_key(kb)) by {
            assert(b[b.len() - 1].0 == kb);
        }
        lemma_last_greatest(a, kb);
        lemma_last_greatest(b, ka);
        if ka != kb {
            lemma_lex_transitive(key_bytes(kb), key_bytes(ka), key_bytes(kb));
            lemma_lex_irreflexive(key_bytes(kb));
        }
        assert(entries_map(a)[a[a.len() - 1].0] == a[a.len() - 1].1);
        assert(entries_map(b)[b[b.len() - 1].0] == b[b.len() - 1].1);
        let ia = a.drop_last();
        let ib = b.drop_last();
        assert(sorted_keys(ia));
        assert(sorted_keys(ib));
        lemma_drop_last_map(a);
        lemma_drop_last_map(b);
        lemma_sorted_unique(ia, ib);
        assert(a =~= ia.push(a.last()));
        assert(b =~= ib.push(b.last()));
    }
}

/// With distinct keys, leaving out the last entry removes its key.
proof fn lemma_drop_last_map(es: Seq<(Seq<char>, ValueView)>)
    requires
        distinct_keys(es),
        es.len() > 0,
    ensures
        entries_map(es.drop_last()) == entries_map(es).remove(es.last().0),
{
    let init = es.drop_last();
    lemma_entries_map(init);
    assert forall|i: int| 0 <= i < init.len() implies init[i].0 != es.last().0 by {
        assert(init[i] == es[i]);
    }
    assert(!entries_map(init).contains_key(es.last().0));
    assert(entries_map(es).remove(es.last().0) =~= entries_map(init));
}

/// The semantic digest ignores bindings: manifests whose maps agree on
/// every key that is not a `hash.` binding have the same semantic entries,
/// hence the same semantic bytes and digest.  So a manifest may carry its
/// own `hash.semantic` binding.
pub proof fn lemma_semantic_ignores_bindings(a: Seq<(Seq<char>, ValueView)>, b: Seq<(Seq<char>, ValueView)>)
    requires
        well_formed(a),
        well_formed(b),
        forall|k: Seq<char>| !is_hash_key(k) ==> #[trigger] entries_map(a).contains_key(k) == entries_map(b).contains_key(k),
        forall|k: Seq<char>| !is_hash_key(k) && #[trigger] entries_map(a).contains_key(k) ==> entries_map(a)[k] == entries_map(b)[k],
    ensures
        semantic_entries(a) == semantic_entries(b),
        semantic_digest(a) == semantic_digest(b),
{
    lemma_semantic_entries(a);
    lemma_semantic_entries(b);
    lemma_semantic_sorted(a);
    lemma_semantic_sorted(b);
    assert(entries_map(a).restrict(content_keys()) =~= entries_map(b).restrict(content_keys()));
    lemma_sorted_unique(semantic_entries(a), semantic_entries(b));
}

/// The bytes `hash.` that open the key of every binding.
pub open spec fn hash_dot() -> Seq<u8> {
    seq![104u8, 97u8, 115u8, 104u8, 46u8]
}

/// A key is a binding exactly when its bytes start with `hash.`.
proof fn lemma_hash_key_prefix(k: Seq<char>)
    ensures
        is_hash_key(k) <==> (key_bytes(k).len() >= 5 && key_bytes(k).subrange(0, 5) == hash_dot()),
{
    reveal_strlit("hash.");
    vstd::string::is_ascii_spec_bytes("hash.");
    assert("hash.".spec_bytes() =~= hash_dot());
}

/// The semantic digest leaves out every entry whose key starts with the
/// bytes `hash.`: manifests that agree on every other key have the same
/// semantic entries and the same semantic digest, whatever `hash.` entries
/// either holds.
pub proof fn lemma_semantic_ignores_hash_prefix(a: Seq<(Seq<char>, ValueView)>, b: Seq<(Seq<char>, ValueView)>)
    requires
        well_formed(a),
        well_formed(b),
        forall|k: Seq<char>|
            !(key_bytes(k).len() >= 5 && key_bytes(k).subrange(0, 5) == hash_dot()) ==> #[trigger] entries_map(a).contains_key(k)
                == entries_map(b).contains_key(k),
        forall|k: Seq<char>|
            !(key_bytes(k).len() >= 5 && key_bytes(k).subrange(0, 5) == hash_dot()) && #[trigger] entries_map(a).contains_key(k)
                ==> entries_map(a)[k] == entries_map(b)[k],
    ensures
        semantic_entries(a) == semantic_entries(b),
        semantic_digest(a) == semantic_digest(b),
{
    assert forall|k: Seq<char>| !is_hash_key(k) implies #[trigger] entries_map(a).contains_key(k) == entries_map(b).contains_key(k) by {
        lemma_hash_key_prefix(k);
    }
    assert forall|k: Seq<char>| !is_hash_key(k) && #[trigger] entries_map(a).contains_key(k) implies entries_map(a)[k] == entries_map(b)[k] by {
        lemma_hash_key_prefix(k);
    }
    lemma_semantic_ignores_bindings(a, b);
}

/// Every entry whose key starts with `hash.` is left out of the semantic
/// entries, and every other entry is kept, in order.
pub proof fn lemma_semantic_entries_drop_hash_prefix(es: Seq<(Seq<char>, ValueView)>)
    ensures
        forall|i: int| 0 <= i < semantic_entries(es).len() ==> !({
            let kb = key_bytes(#[trigger] semantic_entries(es)[i].0);
            kb.len() >= 5 && kb.subrange(0, 5) == hash_dot()
        }),
        es.len() > 0 && !(key_bytes(es.last().0).len() >= 5 && key_bytes(es.last().0).subrange(0, 5) == hash_dot())
            ==> semantic_entries(es) == semantic_entries(es.drop_last()).push(es.last()),
        es.len() > 0 && (key_bytes(es.last().0).len() >= 5 && key_bytes(es.last().0).subrange(0, 5) == hash_dot())
            ==> semantic_entries(es) == semantic_entries(es.drop_last()),
    decreases es.len(),
{
    if es.len() > 0 {
        lemma_semantic_entries_drop_hash_prefix(es.drop_last());
        lemma_hash_key_prefix(es.last().0);
        let s0 = semantic_entries(es.drop_last());
        assert forall|i: int| 0 <= i < semantic_entries(es).len() implies !({
            let kb = key_bytes(#[trigger] semantic_entries(es)[i].0);
            kb.len() >= 5 && kb.subrange(0, 5) == hash_dot()
        }) by {
            if i < s0.len() {
                assert(semantic_entries(es)[i] == s0[i]);
            }
        }
    }
}

} // verus!
