//! Laws that relate the store primitives, disambiguation and finalization.
//!
//! Each proof function states one behavior of resolution as a whole, over the
//! same spec functions that the executable functions' contracts use.

use vstd::prelude::*;
use crate::candidates::sorted_ids;
use crate::delegate::{Delegate, Spec, SpecKind, kind_or_default, assembled, objs_ambiguous};
use crate::object::{ObjectStore, ObjectData, ObjectKind, StoreEntry, find_in, spec_peel,
    peel_fuel, peel_steps, walk_path, find_entry, lemma_filter_of_sorted_is_sorted,
    lemma_filter_element_index};
use crate::oid::{HEX_LEN, lex_lt, lemma_lex_lt_asymmetric};

verus! {

/// No element of `s` satisfies `pred`: the filtered form is empty.
proof fn lemma_filter_none(s: Seq<Seq<u8>>, pred: spec_fn(Seq<u8>) -> bool)
    requires
        forall|i: int| 0 <= i < s.len() ==> !pred(#[trigger] s[i]),
    ensures
        s.filter(pred) =~= Seq::<Seq<u8>>::empty(),
    decreases s.len(),
{
    reveal_with_fuel(Seq::filter, 2);
    if s.len() > 0 {
        let butlast = s.drop_last();
        assert(forall|i: int| 0 <= i < butlast.len() ==> #[trigger] butlast[i] == s[i]);
        lemma_filter_none(butlast, pred);
    }
}

/// Exactly the element at `w` satisfies `pred`: the filtered form is that
/// element alone.
proof fn lemma_filter_single(s: Seq<Seq<u8>>, pred: spec_fn(Seq<u8>) -> bool, w: int)
    requires
        0 <= w < s.len(),
        pred(s[w]),
        forall|i: int| 0 <= i < s.len() && i != w ==> !pred(#[trigger] s[i]),
    ensures
        s.filter(pred) =~= seq![s[w]],
    decreases s.len(),
{
    reveal_with_fuel(Seq::filter, 2);
    let butlast = s.drop_last();
    assert(forall|i: int| 0 <= i < butlast.len() ==> #[trigger] butlast[i] == s[i]);
    if w == s.len() - 1 {
        lemma_filter_none(butlast, pred);
    } else {
        lemma_filter_single(butlast, pred, w);
    }
}

/// A found identifier stands at some position of the store.
proof fn lemma_find_in_some_index(s: Seq<StoreEntry>, id: Seq<u8>)
    requires
        find_in(s, id) is Some,
    ensures
        exists|i: int| 0 <= i < s.len() && (#[trigger] s[i]).id@ == id,
    decreases s.len(),
{
    if s.len() > 0 && s[0].id@ != id {
        assert(forall|i: int| 0 <= i < s.skip(1).len() ==> #[trigger] s.skip(1)[i] == s[i + 1]);
        lemma_find_in_some_index(s.skip(1), id);
        let i = choose|i: int| 0 <= i < s.skip(1).len() && (#[trigger] s.skip(1)[i]).id@ == id;
        assert(s[i + 1].id@ == id);
    }
}

/// For any identifier present in the store, its full-length hex form matches
/// exactly that identifier: disambiguating it yields the one-element run
/// holding it.
pub proof fn lemma_full_hex_unambiguous(store: ObjectStore, id: Seq<u8>)
    requires
        store.wf(),
        store.contains_id(id),
        id.len() == HEX_LEN,
    ensures
        store.matching(id) =~= seq![id],
{
    let pred = |x: Seq<u8>| id.is_prefix_of(x);
    let w = choose|w: int| 0 <= w < store.ids().len() && store.ids()[w] == id;
    assert(store.ids()[w].subrange(0, HEX_LEN as int) =~= store.ids()[w]);
    assert(pred(store.ids()[w]));
    assert forall|i: int| 0 <= i < store.ids().len() && i != w implies !pred(
        #[trigger] store.ids()[i],
    ) by {
        if pred(store.ids()[i]) {
            assert(store.ids()[i].subrange(0, HEX_LEN as int) =~= store.ids()[i]);
            assert(store.ids()[i] == id);
            if i < w {
                lemma_lex_lt_asymmetric(store.ids()[i], store.ids()[w]);
            } else {
                lemma_lex_lt_asymmetric(store.ids()[w], store.ids()[i]);
            }
        }
    }
    lemma_filter_single(store.ids(), pred, w);
}

/// For a prefix matching exactly one object, resolution succeeds with that
/// object, however many objects share a shorter sub-prefix: an endpoint whose
/// candidate set is the store's matching run is unambiguous, and assembly of a
/// plain include yields exactly the matching identifier.
pub proof fn lemma_unique_prefix_resolves(store: ObjectStore, p: Seq<u8>, d: Delegate, s: Spec)
    requires
        store.wf(),
        store.matching(p).len() == 1,
        d.first.objs matches Some(c) && c@ == store.matching(p),
        kind_or_default(d.kind) == SpecKind::IncludeReachable,
        assembled(d, s),
    ensures
        !objs_ambiguous(d.first),
        s matches Spec::Include(x) && x@ == store.matching(p)[0],
        store.contains_id(store.matching(p)[0]),
        p.is_prefix_of(store.matching(p)[0]),
{
    let pred = |x: Seq<u8>| p.is_prefix_of(x);
    lemma_filter_element_index(store.ids(), pred, 0);
    store.ids().lemma_filter_pred(pred, 0);
}

/// For a prefix matching two or more objects with no further narrowing,
/// finalization fails with an ambiguity diagnostic, and the candidates it
/// lists — the store's matching run — are sorted by identifier.
pub proof fn lemma_ambiguous_prefix_fails(store: ObjectStore, p: Seq<u8>, d: Delegate)
    requires
        store.wf(),
        store.matching(p).len() >= 2,
        d.first.objs matches Some(c) && c@ == store.matching(p),
    ensures
        objs_ambiguous(d.first),
        sorted_ids(store.matching(p)),
{
    let pred = |x: Seq<u8>| p.is_prefix_of(x);
    assert forall|a: int, b: int| 0 <= a < b < store.matching(p).len() implies lex_lt(
        store.matching(p)[a],
        store.matching(p)[b],
    ) by {
        lemma_filter_of_sorted_is_sorted(store.ids(), pred, a, b);
    }
}

/// Peeling a chain of three nested annotated tags wrapping a commit, with
/// strict kind commit, terminates after unwrapping all three layers and yields
/// the commit's identifier.
pub proof fn lemma_three_tag_chain_peels(
    store: ObjectStore,
    t1: Seq<u8>,
    t2: Seq<u8>,
    t3: Seq<u8>,
    c: Seq<u8>,
)
    requires
        store.wf(),
        store.spec_find(t1) matches Some(d1) && d1 matches ObjectData::Tag { target } && target@
            == t2,
        store.spec_find(t2) matches Some(d2) && d2 matches ObjectData::Tag { target } && target@
            == t3,
        store.spec_find(t3) matches Some(d3) && d3 matches ObjectData::Tag { target } && target@
            == c,
        store.spec_find(c) matches Some(dc) && dc.spec_kind() == ObjectKind::Commit,
        t1 != t2 && t1 != t3 && t1 != c && t2 != t3 && t2 != c && t3 != c,
    ensures
        spec_peel(store, t1, ObjectKind::Commit) == Result::<
            Seq<u8>,
            (Seq<u8>, Option<ObjectKind>),
        >::Ok(c),
{
    let es = store.entries@;
    lemma_find_in_some_index(es, t1);
    lemma_find_in_some_index(es, t2);
    lemma_find_in_some_index(es, t3);
    lemma_find_in_some_index(es, c);
    let i1 = choose|i: int| 0 <= i < es.len() && (#[trigger] es[i]).id@ == t1;
    let i2 = choose|i: int| 0 <= i < es.len() && (#[trigger] es[i]).id@ == t2;
    let i3 = choose|i: int| 0 <= i < es.len() && (#[trigger] es[i]).id@ == t3;
    let ic = choose|i: int| 0 <= i < es.len() && (#[trigger] es[i]).id@ == c;
    assert(es.len() >= 4);
    let fuel = peel_fuel(store);
    assert(peel_steps(store, t1, ObjectKind::Commit, fuel) == peel_steps(
        store,
        t2,
        ObjectKind::Commit,
        (fuel - 1) as nat,
    ));
    assert(peel_steps(store, t2, ObjectKind::Commit, (fuel - 1) as nat) == peel_steps(
        store,
        t3,
        ObjectKind::Commit,
        (fuel - 2) as nat,
    ));
    assert(peel_steps(store, t3, ObjectKind::Commit, (fuel - 2) as nat) == peel_steps(
        store,
        c,
        ObjectKind::Commit,
        (fuel - 3) as nat,
    ));
    assert(peel_steps(store, c, ObjectKind::Commit, (fuel - 3) as nat) == Result::<
        Seq<u8>,
        (Seq<u8>, Option<ObjectKind>),
    >::Ok(c));
}

/// A path walk that reached a tree lacking the next component fails naming
/// exactly that tree — the deepest one reached — and not an earlier tree and
/// not a store failure.
pub proof fn lemma_path_not_found_names_deepest(
    store: ObjectStore,
    root: Seq<u8>,
    comps: Seq<Seq<u8>>,
    c: Seq<u8>,
    t: Seq<u8>,
)
    requires
        walk_path(store, root, comps) == Result::<Seq<u8>, Seq<u8>>::Ok(t),
        store.spec_find(t) matches Some(td) && td matches ObjectData::Tree { entries }
            && find_entry(entries@, c) is None,
    ensures
        walk_path(store, root, comps + seq![c]) == Result::<Seq<u8>, Seq<u8>>::Err(t),
    decreases comps.len(),
{
    let whole = comps + seq![c];
    if comps.len() == 0 {
        assert(t == root);
        assert(whole =~= seq![c]);
        assert(whole[0] == c);
    } else {
        assert(whole.len() == comps.len() + 1);
        assert(whole[0] == comps[0]);
        match store.spec_find(root) {
            Option::Some(data) => match data {
                ObjectData::Tree { entries } => match find_entry(entries@, comps[0]) {
                    Option::Some(eid) => {
                        if comps.len() == 1 {
                            assert(eid == t);
                            assert(whole.skip(1) =~= seq![c]);
                            lemma_path_not_found_names_deepest(
                                store,
                                eid,
                                Seq::<Seq<u8>>::empty(),
                                c,
                                t,
                            );
                        } else {
                            assert(whole.skip(1) =~= comps.skip(1) + seq![c]);
                            lemma_path_not_found_names_deepest(store, eid, comps.skip(1), c, t);
                        }
                    },
                    Option::None => {
                        assert(false);
                    },
                },
                _ => {
                    assert(false);
                },
            },
            Option::None => {
                assert(false);
            },
        }
    }
}

} // verus!
