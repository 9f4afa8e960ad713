use vstd::prelude::*;
use crate::frequency::{counts_records, nth_of, occurrences, ranked_entries, top_of};
use crate::order::ranks_before;

verus! {

/// Along any ranking taken from a built table, counts never increase from one
/// entry to the next.
pub proof fn lemma_top_counts_non_increasing(
    recs: Seq<Seq<char>>,
    table: Seq<(Seq<char>, nat)>,
    n: nat,
)
    requires
        ranked_entries(table),
        counts_records(table, recs),
    ensures
        forall|i: int|
            0 < i < top_of(table, n).len() ==> #[trigger] top_of(table, n)[i - 1].1 >= top_of(
                table,
                n,
            )[i].1,
{
    let t = top_of(table, n);
    assert forall|i: int| 0 < i < t.len() implies #[trigger] t[i - 1].1 >= t[i].1 by {
        assert(t[i - 1] == table[i - 1] && t[i] == table[i]);
        assert(ranks_before(table[i - 1], table[i]));
    }
}

/// Asking for at least as many entries as there are commands yields the whole
/// table: every command that occurs, once, with its number of occurrences.
pub proof fn lemma_top_covers_table(recs: Seq<Seq<char>>, table: Seq<(Seq<char>, nat)>, n: nat)
    requires
        ranked_entries(table),
        counts_records(table, recs),
        n >= table.len(),
    ensures
        top_of(table, n) == table,
        forall|i: int, j: int|
            0 <= i < j < table.len() ==> #[trigger] top_of(table, n)[i].0 != #[trigger] top_of(
                table,
                n,
            )[j].0,
        forall|i: int|
            0 <= i < table.len() ==> (#[trigger] top_of(table, n)[i]).1 == occurrences(
                recs,
                top_of(table, n)[i].0,
            ),
        forall|k: Seq<char>|
            #[trigger] occurrences(recs, k) > 0 <==> exists|i: int|
                0 <= i < table.len() && top_of(table, n)[i].0 == k,
{
    assert forall|k: Seq<char>|
        (exists|i: int| 0 <= i < table.len() && top_of(table, n)[i].0 == k) implies #[trigger]
        occurrences(recs, k) > 0 by {
        let i = choose|i: int| 0 <= i < table.len() && top_of(table, n)[i].0 == k;
        assert(table[i].1 >= 1);
    }
}

/// The entry at rank `i` is the last of the first `i + 1` entries; past the end
/// of the table there is none.
pub proof fn lemma_nth_is_last_of_top(table: Seq<(Seq<char>, nat)>, i: nat)
    ensures
        i < table.len() ==> nth_of(table, i) == Some(top_of(table, i + 1)[i as int]),
        i >= table.len() ==> nth_of(table, i) is None,
{
}

/// With no records the table is empty, and so is every ranking taken from it.
pub proof fn lemma_no_records_no_ranking(table: Seq<(Seq<char>, nat)>, n: nat)
    requires
        ranked_entries(table),
        counts_records(table, Seq::empty()),
    ensures
        table.len() == 0,
        top_of(table, n).len() == 0,
{
    if table.len() > 0 {
        assert(table[0].1 >= 1);
        assert(occurrences(Seq::empty(), table[0].0) == 0);
    }
}

} // verus!
