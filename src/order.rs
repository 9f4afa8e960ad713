use vstd::prelude::*;
use vstd::string::*;

verus! {

/// Lexicographic order on character sequences, by code point: the order of `String`'s `Ord`.
pub open spec fn precedes_key(a: Seq<char>, b: Seq<char>) -> bool
    decreases a.len(),
{
    if a.len() == 0 {
        b.len() > 0
    } else if b.len() == 0 {
        false
    } else if a[0] != b[0] {
        (a[0] as int) < (b[0] as int)
    } else {
        precedes_key(a.drop_first(), b.drop_first())
    }
}

/// Ranking order of table entries: higher count first, ties broken by ascending command.
pub open spec fn ranks_before(a: (Seq<char>, nat), b: (Seq<char>, nat)) -> bool {
    a.1 > b.1 || (a.1 == b.1 && precedes_key(a.0, b.0))
}

pub proof fn lemma_precedes_irreflexive(a: Seq<char>)
    ensures
        !precedes_key(a, a),
    decreases a.len(),
{
    if a.len() > 0 {
        lemma_precedes_irreflexive(a.drop_first());
    }
}

pub proof fn lemma_precedes_transitive(a: Seq<char>, b: Seq<char>, c: Seq<char>)
    requires
        precedes_key(a, b),
        precedes_key(b, c),
    ensures
        precedes_key(a, c),
    decreases a.len(),
{
    if a.len() > 0 && b.len() > 0 && c.len() > 0 && a[0] == b[0] && b[0] == c[0] {
        lemma_precedes_transitive(a.drop_first(), b.drop_first(), c.drop_first());
    }
}

pub proof fn lemma_precedes_total(a: Seq<char>, b: Seq<char>)
    requires
        a != b,
    ensures
        precedes_key(a, b) || precedes_key(b, a),
    decreases a.len(),
{
    if a.len() > 0 && b.len() > 0 {
        if a[0] == b[0] {
            if a.drop_first() == b.drop_first() {
                assert(a =~= seq![a[0]] + a.drop_first());
                assert(b =~= seq![b[0]] + b.drop_first());
            } else {
                lemma_precedes_total(a.drop_first(), b.drop_first());
            }
        } else {
            assert((a[0] as int) != (b[0] as int));
        }
    } else if a.len() == 0 && b.len() == 0 {
        assert(a =~= b);
    }
}

pub proof fn lemma_ranks_transitive(a: (Seq<char>, nat), b: (Seq<char>, nat), c: (Seq<char>, nat))
    requires
        ranks_before(a, b),
        ranks_before(b, c),
    ensures
        ranks_before(a, c),
{
    if a.1 == b.1 && b.1 == c.1 {
        lemma_precedes_transitive(a.0, b.0, c.0);
    }
}

/// Two entries with distinct commands are ordered one way or the other, never both.
pub proof fn lemma_ranks_total(a: (Seq<char>, nat), b: (Seq<char>, nat))
    requires
        a.0 != b.0,
    ensures
        ranks_before(a, b) || ranks_before(b, a),
        !(ranks_before(a, b) && ranks_before(b, a)),
{
    lemma_precedes_total(a.0, b.0);
    if precedes_key(a.0, b.0) && precedes_key(b.0, a.0) {
        lemma_precedes_transitive(a.0, b.0, a.0);
        lemma_precedes_irreflexive(a.0);
    }
}

/// Compares two commands in lexicographic order.
pub fn key_precedes(a: &str, b: &str) -> (r: bool)
    ensures
        r == precedes_key(a@, b@),
{
    let na = a.unicode_len();
    let nb = b.unicode_len();
    let mut i: usize = 0;
    assert(a@.subrange(0, na as int) =~= a@);
    assert(b@.subrange(0, nb as int) =~= b@);
    while i < na && i < nb
        invariant
            na == a@.len(),
            nb == b@.len(),
            i <= na,
            i <= nb,
            precedes_key(a@, b@) == precedes_key(
                a@.subrange(i as int, na as int),
                b@.subrange(i as int, nb as int),
            ),
        decreases na - i,
    {
        let ca = a.get_char(i);
        let cb = b.get_char(i);
        if ca != cb {
            return (ca as u32) < (cb as u32);
        }
        assert(a@.subrange(i as int, na as int).drop_first() =~= a@.subrange(
            i as int + 1,
            na as int,
        ));
        assert(b@.subrange(i as int, nb as int).drop_first() =~= b@.subrange(
            i as int + 1,
            nb as int,
        ));
        i = i + 1;
    }
    i == na && i < nb
}

/// Decides `ranks_before` on two entries.
pub fn entry_ranks_before(a: &(String, usize), b: &(String, usize)) -> (r: bool)
    ensures
        r == ranks_before((a.0@, a.1 as nat), (b.0@, b.1 as nat)),
{
    if a.1 != b.1 {
        a.1 > b.1
    } else {
        key_precedes(a.0.as_str(), b.0.as_str())
    }
}

} // verus!
