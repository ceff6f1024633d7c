//! Lexicographic ordering of result paths.
use vstd::prelude::*;
use vstd::relations::{sorted_by, total_ordering};

verus! {

/// How a list of results is ordered before it is returned.
#[derive(Clone, Copy, Debug, PartialEq, Eq, Structural)]
pub enum SortOrder {
    /// Keep the order in which entries were visited.
    Unordered,
    /// Lexicographic, smallest first.
    Ascending,
    /// Lexicographic, largest first.
    Descending,
}

/// `a` comes no later than `b` in lexicographic code point order, which is
/// the order of `String`'s `Ord` (UTF-8 preserves code point order).
pub open spec fn lex_le(a: Seq<char>, b: Seq<char>) -> bool
    decreases a.len(),
{
    if a.len() == 0 {
        true
    } else if b.len() == 0 {
        false
    } else if a[0] != b[0] {
        (a[0] as int) < (b[0] as int)
    } else {
        lex_le(a.drop_first(), b.drop_first())
    }
}

/// `lex_le` as a relation, for sorting.
pub open spec fn lex_order() -> spec_fn(Seq<char>, Seq<char>) -> bool {
    |a: Seq<char>, b: Seq<char>| lex_le(a, b)
}

/// The sequence read back to front.
pub open spec fn reversed(s: Seq<Seq<char>>) -> Seq<Seq<char>> {
    Seq::new(s.len(), |i: int| s[s.len() - 1 - i])
}

/// `s` arranged as `order` asks.
pub open spec fn ordered(s: Seq<Seq<char>>, order: SortOrder) -> Seq<Seq<char>> {
    match order {
        SortOrder::Unordered => s,
        SortOrder::Ascending => s.sort_by(lex_order()),
        SortOrder::Descending => reversed(s.sort_by(lex_order())),
    }
}

proof fn lemma_lex_le_reflexive(a: Seq<char>)
    ensures
        lex_le(a, a),
    decreases a.len(),
{
    if a.len() > 0 {
        lemma_lex_le_reflexive(a.drop_first());
    }
}

proof fn lemma_lex_le_antisymmetric(a: Seq<char>, b: Seq<char>)
    requires
        lex_le(a, b),
        lex_le(b, a),
    ensures
        a == b,
    decreases a.len(),
{
    if a.len() > 0 && b.len() > 0 {
        if a[0] == b[0] {
            lemma_lex_le_antisymmetric(a.drop_first(), b.drop_first());
            assert(a =~= seq![a[0]] + a.drop_first());
            assert(b =~= seq![b[0]] + b.drop_first());
        } else {
            assert((a[0] as int) != (b[0] as int));
        }
    } else {
        assert(a =~= b);
    }
}

proof fn lemma_lex_le_transitive(a: Seq<char>, b: Seq<char>, c: Seq<char>)
    requires
        lex_le(a, b),
        lex_le(b, c),
    ensures
        lex_le(a, c),
    decreases a.len(),
{
    if a.len() > 0 && b.len() > 0 && c.len() > 0 {
        if a[0] == b[0] && b[0] == c[0] {
            lemma_lex_le_transitive(a.drop_first(), b.drop_first(), c.drop_first());
        }
    }
}

proof fn lemma_lex_le_connected(a: Seq<char>, b: Seq<char>)
    ensures
        lex_le(a, b) || lex_le(b, a),
    decreases a.len(),
{
    if a.len() > 0 && b.len() > 0 {
        if a[0] == b[0] {
            lemma_lex_le_connected(a.drop_first(), b.drop_first());
        } else {
            assert((a[0] as int) != (b[0] as int));
        }
    }
}

/// Lexicographic order is a total order.
pub proof fn lemma_lex_le_total()
    ensures
        total_ordering(lex_order()),
{
    assert forall|a: Seq<char>| #[trigger] lex_le(a, a) by {
        lemma_lex_le_reflexive(a);
    }
    assert forall|a: Seq<char>, b: Seq<char>| #[trigger] lex_le(a, b) && #[trigger] lex_le(b, a)
        implies a == b by {
        lemma_lex_le_antisymmetric(a, b);
    }
    assert forall|a: Seq<char>, b: Seq<char>, c: Seq<char>|
        #[trigger] lex_le(a, b) && #[trigger] lex_le(b, c) implies lex_le(a, c) by {
        lemma_lex_le_transitive(a, b, c);
    }
    assert forall|a: Seq<char>, b: Seq<char>| #[trigger] lex_le(a, b) || #[trigger] lex_le(b, a) by {
        lemma_lex_le_connected(a, b);
    }
}

/// A sequence already in ascending order is left as it is by an ascending sort.
pub proof fn lemma_ascending_of_sorted(s: Seq<Seq<char>>)
    requires
        sorted_by(s, lex_order()),
    ensures
        ordered(s, SortOrder::Ascending) == s,
{
    let ghost leq = lex_order();
    lemma_lex_le_total();
    s.lemma_sort_by_ensures(leq);
    vstd::seq_lib::lemma_sorted_unique(s, s.sort_by(leq), leq);
}

/// Sorting ascending a second time gives back the same sequence.
pub proof fn ascending_sort_is_idempotent(s: Seq<Seq<char>>)
    ensures
        ordered(ordered(s, SortOrder::Ascending), SortOrder::Ascending) == ordered(
            s,
            SortOrder::Ascending,
        ),
{
    let ghost leq = lex_order();
    lemma_lex_le_total();
    s.lemma_sort_by_ensures(leq);
    lemma_ascending_of_sorted(s.sort_by(leq));
}

/// Relies on `slice::sort` (through `Vec`'s deref) on `String`s: the result is a
/// permutation of the input in ascending order of `String`'s `Ord`.
#[verifier::external_body]
fn sort_strings(v: &mut Vec<String>)
    ensures
        final(v).deep_view().to_multiset() == old(v).deep_view().to_multiset(),
        sorted_by(final(v).deep_view(), lex_order()),
{
    v.sort();
}

/// Arranges `results` as `sort` asks: ascending or descending lexicographic
/// order, or left in visiting order.
pub fn sort_results(results: &mut Vec<String>, sort: SortOrder)
    ensures
        final(results).deep_view() == ordered(old(results).deep_view(), sort),
{
    let ghost leq = lex_order();
    match sort {
        SortOrder::Unordered => {},
        SortOrder::Ascending => {
            sort_strings(results);
            proof {
                lemma_lex_le_total();
                old(results).deep_view().lemma_sort_by_ensures(leq);
                vstd::seq_lib::lemma_sorted_unique(
                    results.deep_view(),
                    old(results).deep_view().sort_by(leq),
                    leq,
                );
            }
        },
        SortOrder::Descending => {
            sort_strings(results);
            proof {
                lemma_lex_le_total();
                old(results).deep_view().lemma_sort_by_ensures(leq);
                vstd::seq_lib::lemma_sorted_unique(
                    results.deep_view(),
                    old(results).deep_view().sort_by(leq),
                    leq,
                );
            }
            let ghost asc = results.deep_view();
            let mut flipped: Vec<String> = Vec::new();
            while results.len() > 0
                invariant
                    results.deep_view() == asc.subrange(0, results.len() as int),
                    flipped.deep_view() == reversed(asc).subrange(
                        0,
                        asc.len() - results.len(),
                    ),
                    results.len() <= asc.len(),
                decreases results.len(),
            {
                let ghost before_r = results.deep_view();
                let ghost before_f = flipped.deep_view();
                let s = results.pop().unwrap();
                assert(s@ == before_r[before_r.len() - 1]);
                flipped.push(s);
                assert(flipped.deep_view() =~= before_f.push(before_r[before_r.len() - 1]));
                assert(flipped.deep_view() =~= reversed(asc).subrange(
                    0,
                    asc.len() - results.len(),
                ));
                assert(results.deep_view() =~= asc.subrange(0, results.len() as int));
            }
            assert(flipped.deep_view() =~= reversed(asc));
            *results = flipped;
        },
    }
}

} // verus!
