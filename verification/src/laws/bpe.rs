//! Laws of byte-level BPE.
use crate::model::bpe::{
    join_pair, law_lowest_merge_is_lowest, lowest_merge, merge_rank, merged_symbols, no_space,
    next_merge,
};
use vstd::prelude::*;

verus! {

/// The rank of a merge is its last place in the list, where it stands as the two parts
/// with a space between them; a pair that the list does not have has none.
pub proof fn law_rank_is_the_place_in_the_list(merges: Seq<Seq<char>>, l: Seq<char>, r: Seq<char>)
    requires
        forall|i: int| 0 <= i < l.len() ==> #[trigger] l[i] != ' ',
    ensures
        merge_rank(merges, l, r) matches Some(p) ==> 0 <= p < merges.len() && merges[p] == l + seq![
            ' ',
        ] + r,
        forall|i: int|
            0 <= i < merges.len() && #[trigger] merges[i] == l + seq![' '] + r ==> (merge_rank(
                merges,
                l,
                r,
            ) matches Some(p) && i <= p),
    decreases merges.len(),
{
    assert(no_space(l));
    assert(l.push(' ') + r =~= l + seq![' '] + r);
    if merges.len() > 0 {
        let less = merges.drop_last();
        law_rank_is_the_place_in_the_list(less, l, r);
        assert forall|i: int|
            0 <= i < merges.len() && #[trigger] merges[i] == l + seq![' '] + r implies (merge_rank(
            merges,
            l,
            r,
        ) matches Some(p) && i <= p) by {
            if i < less.len() {
                assert(less[i] == merges[i]);
            }
        }
    }
}

/// `i` is where the next merge is made: no adjacent pair anywhere has a lower rank, and
/// none before it the same.
pub open spec fn is_next(merges: Seq<Seq<char>>, symbols: Seq<Seq<char>>, i: int) -> bool {
    &&& 0 <= i
    &&& i + 1 < symbols.len()
    &&& merge_rank(merges, symbols[i], symbols[i + 1]) is Some
    &&& forall|j: int|
        #![trigger symbols[j]]
        0 <= j && j + 1 < symbols.len() ==> (merge_rank(merges, symbols[j], symbols[j + 1]) matches Some(
            r,
        ) ==> merge_rank(merges, symbols[i], symbols[i + 1])->0 <= r && (r == merge_rank(
            merges,
            symbols[i],
            symbols[i + 1],
        )->0 ==> i <= j))
}

proof fn lemma_found(merges: Seq<Seq<char>>, symbols: Seq<Seq<char>>, n: nat)
    requires
        n < symbols.len(),
    ensures
        lowest_merge(merges, symbols, n) matches Some((rank, i)) ==> 0 <= i < n && merge_rank(
            merges,
            symbols[i],
            symbols[i + 1],
        ) == Some(rank),
        lowest_merge(merges, symbols, n) is None ==> forall|j: int|
            #![trigger symbols[j]]
            0 <= j < n ==> merge_rank(merges, symbols[j], symbols[j + 1]) is None,
    decreases n,
{
    if n > 0 {
        lemma_found(merges, symbols, (n - 1) as nat);
    }
}

/// Merging joins, of all adjacent pairs, the leftmost of the lowest rank, and goes on
/// with the rest: whatever the length of a piece.
pub proof fn law_merging_joins_the_lowest_pair(merges: Seq<Seq<char>>, symbols: Seq<Seq<char>>, i: int)
    requires
        is_next(merges, symbols, i),
    ensures
        merged_symbols(merges, symbols) == merged_symbols(
            merges,
            symbols.take(i) + seq![symbols[i] + symbols[i + 1]] + symbols.skip(i + 2),
        ),
{
    let n = (symbols.len() - 1) as nat;
    lemma_found(merges, symbols, n);
    let rank = merge_rank(merges, symbols[i], symbols[i + 1])->0;
    law_lowest_merge_is_lowest(merges, symbols, n, i, rank);
    let found = next_merge(merges, symbols)->0;
    assert(symbols[found.1] == symbols[found.1]);
    assert(found.1 == i);
    assert(join_pair(symbols, i) =~= symbols.take(i) + seq![symbols[i] + symbols[i + 1]]
        + symbols.skip(i + 2));
}

/// Merging leaves symbols alone of which no two neighbours have a rank.
pub proof fn law_merging_stops(merges: Seq<Seq<char>>, symbols: Seq<Seq<char>>)
    requires
        forall|j: int|
            #![trigger symbols[j]]
            0 <= j && j + 1 < symbols.len() ==> merge_rank(merges, symbols[j], symbols[j + 1]) is None,
    ensures
        merged_symbols(merges, symbols) == symbols,
{
    if symbols.len() > 0 {
        lemma_found(merges, symbols, (symbols.len() - 1) as nat);
        if let Some((rank, i)) = next_merge(merges, symbols) {
            assert(symbols[i] == symbols[i]);
        }
    }
}

/// Merging stops no sooner than it has to: in what it ends in, no two neighbours have a
/// rank.
pub proof fn law_merging_leaves_no_pair(merges: Seq<Seq<char>>, symbols: Seq<Seq<char>>, j: int)
    requires
        0 <= j,
        j + 1 < merged_symbols(merges, symbols).len(),
    ensures
        merge_rank(
            merges,
            merged_symbols(merges, symbols)[j],
            merged_symbols(merges, symbols)[j + 1],
        ) is None,
    decreases symbols.len(),
{
    if symbols.len() > 0 {
        lemma_found(merges, symbols, (symbols.len() - 1) as nat);
        match next_merge(merges, symbols) {
            None => {
                assert(symbols[j] == symbols[j]);
            },
            Some((rank, i)) => {
                law_merging_leaves_no_pair(merges, join_pair(symbols, i), j);
            },
        }
    }
}

/// Wherever two neighbours have a rank, there is a next merge.
pub proof fn law_a_next_merge_exists(merges: Seq<Seq<char>>, symbols: Seq<Seq<char>>, j: int)
    requires
        0 <= j,
        j + 1 < symbols.len(),
        merge_rank(merges, symbols[j], symbols[j + 1]) is Some,
    ensures
        exists|i: int| is_next(merges, symbols, i),
{
    let n = (symbols.len() - 1) as nat;
    lemma_found(merges, symbols, n);
    let rank = merge_rank(merges, symbols[j], symbols[j + 1])->0;
    law_lowest_merge_is_lowest(merges, symbols, n, j, rank);
    let i = (lowest_merge(merges, symbols, n)->0).1;
    assert forall|m: int|
        #![trigger symbols[m]]
        0 <= m && m + 1 < symbols.len() implies (merge_rank(merges, symbols[m], symbols[m + 1]) matches Some(
        r,
    ) ==> merge_rank(merges, symbols[i], symbols[i + 1])->0 <= r && (r == merge_rank(
        merges,
        symbols[i],
        symbols[i + 1],
    )->0 ==> i <= m)) by {
        if let Some(r) = merge_rank(merges, symbols[m], symbols[m + 1]) {
            law_lowest_merge_is_lowest(merges, symbols, n, m, r);
        }
    }
    assert(is_next(merges, symbols, i));
}

} // verus!
