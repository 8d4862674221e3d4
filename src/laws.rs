//! Laws that relate archiving, lookup, reconstruction and equality.
use vstd::prelude::*;
use crate::source::SourceMap;
use crate::table::{archives, lists_entries, ArchivedHashMap};

verus! {

/// Rebuilding a native map from the archive of a map gives back that map.
pub proof fn lemma_round_trip(m: SourceMap, a: ArchivedHashMap, back: SourceMap)
    requires
        archives(a, m@),
        back@ == a@,
    ensures
        back@ == m@,
{
}

/// Equality between an archive and a native map is the same from either
/// side, and agrees with comparing the rebuilt map to the native one.
pub proof fn lemma_cross_equality(a: ArchivedHashMap, m: SourceMap, back: SourceMap)
    requires
        a.wf(),
        back@ == a@,
    ensures
        (a@ == m@) == (m@ == a@),
        (a@ == m@) == (back@ == m@),
{
}

/// An archive has as many entries as the map it was made from.
pub proof fn lemma_len(a: ArchivedHashMap, m: SourceMap)
    requires
        archives(a, m@),
    ensures
        a@.len() == m@.len(),
{
}

/// Every key of the source map is found in its archive with its value, and
/// every other key is missing from it.
pub proof fn lemma_lookup_complete(a: ArchivedHashMap, m: SourceMap)
    requires
        archives(a, m@),
    ensures
        forall|k: Seq<char>| #[trigger]
            m@.contains_key(k) ==> a@.contains_key(k) && a@[k] == m@[k],
        forall|k: Seq<char>| !#[trigger] m@.contains_key(k) ==> !a@.contains_key(k),
{
}

/// The archive of an empty map is empty, lists nothing, and finds no key.
pub proof fn lemma_empty(a: ArchivedHashMap, m: SourceMap, listed: Seq<(Seq<char>, i32)>)
    requires
        m@ == Map::<Seq<char>, i32>::empty(),
        archives(a, m@),
        lists_entries(listed, a@),
    ensures
        a@.len() == 0,
        listed.len() == 0,
        forall|k: Seq<char>| !#[trigger] a@.contains_key(k),
{
    if listed.len() > 0 {
        assert(a@.contains_key(listed[0].0));
    }
}

/// Two maps with the same pairs, built in any order, have archives that
/// answer every lookup alike.
pub proof fn lemma_deterministic(
    m1: SourceMap,
    m2: SourceMap,
    a1: ArchivedHashMap,
    a2: ArchivedHashMap,
)
    requires
        m1@ == m2@,
        archives(a1, m1@),
        archives(a2, m2@),
    ensures
        forall|k: Seq<char>| #[trigger]
            a1@.contains_key(k) == a2@.contains_key(k) && (a1@.contains_key(k) ==> a1@[k]
                == a2@[k]),
{
}

/// A listing of a map's pairs, each key once, has as many items as the map
/// has keys.
pub proof fn lemma_listing_len(listed: Seq<(Seq<char>, i32)>, m: Map<Seq<char>, i32>)
    requires
        m.dom().finite(),
        lists_entries(listed, m),
    ensures
        listed.len() == m.len(),
{
    let keys = listed.map_values(|p: (Seq<char>, i32)| p.0);
    assert(keys.no_duplicates()) by {
        assert forall|i: int, j: int| 0 <= i < keys.len() && 0 <= j < keys.len() && i != j implies keys[i]
            != keys[j] by {
            if i < j {
                assert(listed[i].0 != listed[j].0);
            } else {
                assert(listed[j].0 != listed[i].0);
            }
        }
    }
    keys.unique_seq_to_set();
    assert(keys.to_set() =~= m.dom()) by {
        assert forall|k: Seq<char>| keys.to_set().contains(k) implies m.dom().contains(k) by {
            let i = choose|i: int| 0 <= i < keys.len() && keys[i] == k;
            assert(m.contains_key(listed[i].0));
        }
        assert forall|k: Seq<char>| m.dom().contains(k) implies keys.to_set().contains(k) by {
            assert(m.contains_key(k));
            let x = choose|x: int| 0 <= x < listed.len() && listed[x].0 == k;
            assert(keys[x] == k);
        }
    }
}

/// Listing an archive gives one item for each of its entries.
pub proof fn lemma_iter_len(a: ArchivedHashMap, listed: Seq<(Seq<char>, i32)>)
    requires
        a.wf(),
        lists_entries(listed, a@),
    ensures
        listed.len() == a@.len(),
{
    a.lemma_view_finite();
    lemma_listing_len(listed, a@);
}

} // verus!
