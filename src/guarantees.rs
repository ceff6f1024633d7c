//! What every search guarantees, proved over the model of `search`.
use vstd::prelude::*;
use crate::config::Params;
use crate::order::{lex_order, ordered, reversed, SortOrder};
use crate::search::{collect, listing_result, name_passes, search_result, Entry, Listing};
use crate::text::extension_of;

verus! {

/// `e` is one of the first `k` entries of `l`, or, when `deep`, an entry
/// somewhere below one of them.
pub open spec fn tree_holds(deep: bool, l: Listing, e: Entry, k: int) -> bool
    decreases l, k,
{
    if k <= 0 || k > l.entries@.len() {
        false
    } else {
        let f = l.entries@[k - 1];
        tree_holds(deep, l, e, k - 1) || f == e || (deep && f.listing is Some && tree_holds(
            deep,
            f.listing->Some_0,
            e,
            f.listing->Some_0.entries@.len() as int,
        ))
    }
}

/// `p` is the path of an entry under the first `k` entries of `l` whose name passes.
pub open spec fn kept_path(cfg: Params, deep: bool, l: Listing, k: int, p: Seq<char>) -> bool {
    exists|e: Entry| #[trigger] tree_holds(deep, l, e, k) && e.path@ == p && name_passes(cfg, e.name@)
}

/// The paths of the entries of `l`, in listing order.
pub open spec fn entry_paths(l: Listing) -> Seq<Seq<char>> {
    l.entries@.map_values(|e: Entry| e.path@)
}

/// Ordering neither adds nor drops values.
proof fn lemma_ordered_contains(s: Seq<Seq<char>>, order: SortOrder, p: Seq<char>)
    requires
        ordered(s, order).contains(p),
    ensures
        s.contains(p),
{
    let leq = lex_order();
    crate::order::lemma_lex_le_total();
    s.lemma_sort_by_ensures(leq);
    if order == SortOrder::Descending {
        let t = s.sort_by(leq);
        let i = choose|i: int| 0 <= i < reversed(t).len() && reversed(t)[i] == p;
        assert(t[t.len() - 1 - i] == p);
        assert(t.contains(p));
    }
}

/// Every result held after `k` entries is the path of a kept entry below them.
proof fn lemma_collect_kept(cfg: Params, deep: bool, l: Listing, k: int)
    requires
        0 <= k <= l.entries@.len(),
    ensures
        collect(cfg, deep, l, k) matches Ok(h) ==> forall|p: Seq<char>| #[trigger]
            h.contains(p) ==> kept_path(cfg, deep, l, k, p),
    decreases l, k,
{
    if k > 0 {
        lemma_collect_kept(cfg, deep, l, k - 1);
        let f = l.entries@[k - 1];
        if deep && f.listing is Some {
            let sub = f.listing->Some_0;
            lemma_collect_kept(cfg, deep, sub, sub.entries@.len() as int);
        }
        if let Ok(h) = collect(cfg, deep, l, k) {
            assert forall|p: Seq<char>| #[trigger] h.contains(p) implies kept_path(
                cfg,
                deep,
                l,
                k,
                p,
            ) by {
                let held = collect(cfg, deep, l, k - 1)->Ok_0;
                let i = choose|i: int| 0 <= i < h.len() && h[i] == p;
                if i < held.len() {
                    assert(held[i] == p);
                    assert(held.contains(p));
                    let e = choose|e: Entry| #[trigger]
                        tree_holds(deep, l, e, k - 1) && e.path@ == p && name_passes(cfg, e.name@);
                    assert(tree_holds(deep, l, e, k));
                } else {
                    let below = if deep && f.listing is Some {
                        let sub = f.listing->Some_0;
                        crate::search::finish(
                            cfg,
                            sub,
                            collect(cfg, deep, sub, sub.entries@.len() as int),
                        )->Ok_0
                    } else {
                        Seq::empty()
                    };
                    if i < held.len() + below.len() {
                        let sub = f.listing->Some_0;
                        let inner = collect(cfg, deep, sub, sub.entries@.len() as int)->Ok_0;
                        assert(below[i - held.len()] == p);
                        assert(below.contains(p));
                        lemma_ordered_contains(inner, cfg.sort, p);
                        let e = choose|e: Entry| #[trigger]
                            tree_holds(deep, sub, e, sub.entries@.len() as int) && e.path@ == p
                                && name_passes(cfg, e.name@);
                        assert(tree_holds(deep, l, e, k));
                    } else {
                        assert(p == f.path@);
                        assert(tree_holds(deep, l, f, k));
                    }
                }
            }
        }
    }
}

/// With a non-empty extension allow-list, every path a search returns
/// belongs to an entry of the searched tree whose extension is on the list.
pub proof fn returned_entries_have_allowed_extensions(cfg: Params, root: Listing, p: Seq<char>)
    requires
        cfg.extensions.len() > 0,
        search_result(cfg, root) matches Ok(r) && r.contains(p),
    ensures
        exists|e: Entry| #[trigger]
            tree_holds(cfg.recursive, root, e, root.entries@.len() as int) && e.path@ == p
                && cfg.extensions.contains(extension_of(e.name@)),
{
    let n = root.entries@.len() as int;
    lemma_collect_kept(cfg, cfg.recursive, root, n);
    let h = collect(cfg, cfg.recursive, root, n)->Ok_0;
    lemma_ordered_contains(h, cfg.sort, p);
    let e = choose|e: Entry| #[trigger]
        tree_holds(cfg.recursive, root, e, n) && e.path@ == p && name_passes(cfg, e.name@);
    assert(cfg.extensions.contains(extension_of(e.name@)));
}

/// An empty keyword with no extension restriction lets every name through.
pub proof fn empty_keyword_keeps_every_name(cfg: Params, name: Seq<char>)
    requires
        cfg.keyword.len() == 0,
        cfg.extensions.len() == 0,
    ensures
        name_passes(cfg, name),
{
}

/// An empty keyword with no extension restriction, in single-level mode,
/// returns every entry of a fully read directory (when the cap does not
/// bite), ordered as asked.
pub proof fn empty_keyword_lists_every_entry(cfg: Params, l: Listing)
    requires
        cfg.keyword.len() == 0,
        cfg.extensions.len() == 0,
        l.entries@.len() <= cfg.max_results,
        l.failure is None,
    ensures
        listing_result(cfg, false, l) == Ok::<Seq<Seq<char>>, crate::search::Fault>(
            ordered(entry_paths(l), cfg.sort),
        ),
{
    let n = l.entries@.len() as int;
    assert forall|k: int| 0 <= k <= n implies #[trigger] collect(cfg, false, l, k) == Ok::<
        Seq<Seq<char>>,
        crate::search::Fault,
    >(entry_paths(l).take(k)) by {
        lemma_unfiltered_prefix(cfg, l, k);
    }
    assert(entry_paths(l).take(n) =~= entry_paths(l));
}

proof fn lemma_unfiltered_prefix(cfg: Params, l: Listing, k: int)
    requires
        cfg.keyword.len() == 0,
        cfg.extensions.len() == 0,
        l.entries@.len() <= cfg.max_results,
        0 <= k <= l.entries@.len(),
    ensures
        collect(cfg, false, l, k) == Ok::<Seq<Seq<char>>, crate::search::Fault>(
            entry_paths(l).take(k),
        ),
    decreases k,
{
    if k == 0 {
        assert(entry_paths(l).take(0) =~= Seq::<Seq<char>>::empty());
    } else {
        lemma_unfiltered_prefix(cfg, l, k - 1);
        let f = l.entries@[k - 1];
        assert(name_passes(cfg, f.name@));
        assert(entry_paths(l).take(k - 1) + Seq::<Seq<char>>::empty() + seq![f.path@]
            =~= entry_paths(l).take(k));
    }
}

/// Ordering keeps the length.
proof fn lemma_ordered_len(s: Seq<Seq<char>>, order: SortOrder)
    ensures
        ordered(s, order).len() == s.len(),
{
    broadcast use vstd::seq_lib::group_to_multiset_ensures;

    let leq = lex_order();
    crate::order::lemma_lex_le_total();
    s.lemma_sort_by_ensures(leq);
    assert(s.to_multiset().len() == s.len());
    assert(s.sort_by(leq).to_multiset().len() == s.sort_by(leq).len());
}

proof fn lemma_flat_prefix_len(cfg: Params, l: Listing, k: int)
    requires
        0 <= k <= l.entries@.len(),
    ensures
        collect(cfg, false, l, k) matches Ok(h) ==> h.len() <= k && (h.len() <= cfg.max_results
            || (k >= 1 && h.len() <= 1)),
    decreases k,
{
    if k > 0 {
        lemma_flat_prefix_len(cfg, l, k - 1);
    }
}

/// In single-level mode a directory yields at most `max_results` paths (at
/// least its first entry is always examined, so one path when the cap is 0).
pub proof fn flat_search_respects_cap(cfg: Params, l: Listing)
    ensures
        listing_result(cfg, false, l) matches Ok(r) ==> r.len() <= cfg.max_results || (
        cfg.max_results == 0 && r.len() <= 1),
{
    let n = l.entries@.len() as int;
    lemma_flat_prefix_len(cfg, l, n);
    if let Ok(h) = collect(cfg, false, l, n) {
        lemma_ordered_len(h, cfg.sort);
    }
}

/// How many entries lie under the first `k` entries of `l`, counting them
/// and, when `deep`, everything below them.
pub open spec fn tree_size(deep: bool, l: Listing, k: int) -> nat
    decreases l, k,
{
    if k <= 0 || k > l.entries@.len() {
        0
    } else {
        let f = l.entries@[k - 1];
        tree_size(deep, l, k - 1) + 1 + if deep && f.listing is Some {
            tree_size(deep, f.listing->Some_0, f.listing->Some_0.entries@.len() as int)
        } else {
            0
        }
    }
}

/// Every listing below the first `k` entries of `l` (when `deep`) was read to its end.
pub open spec fn fully_read(deep: bool, l: Listing, k: int) -> bool
    decreases l, k,
{
    if k <= 0 || k > l.entries@.len() {
        true
    } else {
        let f = l.entries@[k - 1];
        fully_read(deep, l, k - 1) && (deep && f.listing is Some ==> (
        f.listing->Some_0.failure is None && fully_read(
            deep,
            f.listing->Some_0,
            f.listing->Some_0.entries@.len() as int,
        )))
    }
}

/// Ordering keeps every value.
proof fn lemma_ordered_keeps(s: Seq<Seq<char>>, order: SortOrder, p: Seq<char>)
    requires
        s.contains(p),
    ensures
        ordered(s, order).contains(p),
{
    broadcast use vstd::seq_lib::group_to_multiset_ensures;

    let leq = lex_order();
    crate::order::lemma_lex_le_total();
    s.lemma_sort_by_ensures(leq);
    let t = s.sort_by(leq);
    assert(s.to_multiset().count(p) > 0);
    assert(t.to_multiset().count(p) > 0);
    assert(t.contains(p));
    if order == SortOrder::Descending {
        let i = choose|i: int| 0 <= i < t.len() && t[i] == p;
        assert(reversed(t)[t.len() - 1 - i] == p);
    }
}

/// Without filtering, cap or read failure, the first `k` entries yield the
/// path of every entry under them.
proof fn lemma_unfiltered_collect(cfg: Params, deep: bool, l: Listing, k: int)
    requires
        cfg.keyword.len() == 0,
        cfg.extensions.len() == 0,
        0 <= k <= l.entries@.len(),
        fully_read(deep, l, k),
        tree_size(deep, l, k) < cfg.max_results,
    ensures
        collect(cfg, deep, l, k) is Ok,
        collect(cfg, deep, l, k)->Ok_0.len() == tree_size(deep, l, k),
        forall|e: Entry| #[trigger]
            tree_holds(deep, l, e, k) ==> collect(cfg, deep, l, k)->Ok_0.contains(e.path@),
    decreases l, k,
{
    if k > 0 {
        lemma_unfiltered_collect(cfg, deep, l, k - 1);
        let f = l.entries@[k - 1];
        let held = collect(cfg, deep, l, k - 1)->Ok_0;
        let h = collect(cfg, deep, l, k)->Ok_0;
        assert(name_passes(cfg, f.name@));
        if deep && f.listing is Some {
            let sub = f.listing->Some_0;
            let m = sub.entries@.len() as int;
            lemma_unfiltered_collect(cfg, deep, sub, m);
            let inner = collect(cfg, deep, sub, m)->Ok_0;
            lemma_ordered_len(inner, cfg.sort);
            let below = ordered(inner, cfg.sort);
            assert(h == held + below + seq![f.path@]);
            assert forall|e: Entry| #[trigger] tree_holds(deep, l, e, k) implies h.contains(
                e.path@,
            ) by {
                if tree_holds(deep, l, e, k - 1) {
                    let i = choose|i: int| 0 <= i < held.len() && held[i] == e.path@;
                    assert(h[i] == e.path@);
                } else if e == f {
                    assert(h[h.len() - 1] == e.path@);
                } else {
                    assert(tree_holds(deep, sub, e, m));
                    lemma_ordered_keeps(inner, cfg.sort, e.path@);
                    let i = choose|i: int| 0 <= i < below.len() && below[i] == e.path@;
                    assert(h[held.len() + i] == e.path@);
                }
            }
        } else {
            assert(h == held + Seq::<Seq<char>>::empty() + seq![f.path@]);
            assert forall|e: Entry| #[trigger] tree_holds(deep, l, e, k) implies h.contains(
                e.path@,
            ) by {
                if tree_holds(deep, l, e, k - 1) {
                    let i = choose|i: int| 0 <= i < held.len() && held[i] == e.path@;
                    assert(h[i] == e.path@);
                } else {
                    assert(h[h.len() - 1] == e.path@);
                }
            }
        }
    }
}

/// With an empty keyword and no extension restriction, a search of a fully
/// read tree that the cap does not cut short returns exactly the paths of
/// the entries it visits: every entry of the root and, in recursive mode,
/// every entry below.
pub proof fn empty_keyword_returns_every_visited_entry(cfg: Params, root: Listing)
    requires
        cfg.keyword.len() == 0,
        cfg.extensions.len() == 0,
        root.failure is None,
        fully_read(cfg.recursive, root, root.entries@.len() as int),
        tree_size(cfg.recursive, root, root.entries@.len() as int) < cfg.max_results,
    ensures
        search_result(cfg, root) is Ok,
        forall|p: Seq<char>|
            #![trigger search_result(cfg, root)->Ok_0.contains(p)]
            search_result(cfg, root)->Ok_0.contains(p) <==> exists|e: Entry| #[trigger]
                tree_holds(cfg.recursive, root, e, root.entries@.len() as int) && e.path@ == p,
{
    let n = root.entries@.len() as int;
    let deep = cfg.recursive;
    lemma_unfiltered_collect(cfg, deep, root, n);
    lemma_collect_kept(cfg, deep, root, n);
    let h = collect(cfg, deep, root, n)->Ok_0;
    let r = search_result(cfg, root)->Ok_0;
    assert(r == ordered(h, cfg.sort));
    assert forall|p: Seq<char>| r.contains(p) <==> exists|e: Entry| #[trigger]
        tree_holds(deep, root, e, n) && e.path@ == p by {
        if r.contains(p) {
            lemma_ordered_contains(h, cfg.sort, p);
        }
        if exists|e: Entry| #[trigger] tree_holds(deep, root, e, n) && e.path@ == p {
            let e = choose|e: Entry| #[trigger] tree_holds(deep, root, e, n) && e.path@ == p;
            lemma_ordered_keeps(h, cfg.sort, p);
        }
    }
}

} // verus!
