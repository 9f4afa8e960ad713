use vstd::prelude::*;
use vstd::string::*;
use crate::order::{entry_ranks_before, lemma_ranks_total, lemma_ranks_transitive, ranks_before};
use crate::text::{collapse_range, is_blank, normalized, strip_quotes, trim, trimmed_bounds};

verus! {

/// How many of `recs` are non-blank and normalize to `k`.
pub open spec fn occurrences(recs: Seq<Seq<char>>, k: Seq<char>) -> nat
    decreases recs.len(),
{
    if recs.len() == 0 {
        0
    } else {
        occurrences(recs.drop_last(), k) + if !is_blank(recs.last()) && normalized(recs.last())
            == k {
            1nat
        } else {
            0nat
        }
    }
}

/// Entries in strict ranking order, with distinct commands and positive counts.
pub open spec fn ranked_entries(s: Seq<(Seq<char>, nat)>) -> bool {
    &&& forall|i: int| 0 <= i < s.len() ==> #[trigger] s[i].1 >= 1
    &&& forall|i: int, j: int| 0 <= i < j < s.len() ==> ranks_before(#[trigger] s[i], #[trigger] s[j])
    &&& forall|i: int, j: int| 0 <= i < j < s.len() ==> #[trigger] s[i].0 != #[trigger] s[j].0
}

/// The entries count exactly the commands of `recs`: each entry holds the number of
/// occurrences of its command, and each command that occurs has an entry.
pub open spec fn counts_records(s: Seq<(Seq<char>, nat)>, recs: Seq<Seq<char>>) -> bool {
    &&& forall|i: int| 0 <= i < s.len() ==> (#[trigger] s[i]).1 == occurrences(recs, s[i].0)
    &&& forall|k: Seq<char>| #[trigger]
        occurrences(recs, k) > 0 ==> exists|i: int| 0 <= i < s.len() && s[i].0 == k
}

pub open spec fn entries_view(v: Seq<(String, usize)>) -> Seq<(Seq<char>, nat)> {
    v.map_values(|e: (String, usize)| (e.0@, e.1 as nat))
}

pub open spec fn records_view(v: Seq<String>) -> Seq<Seq<char>> {
    v.map_values(|s: String| s@)
}

/// The first `n` entries in rank order (all of them when there are fewer).
pub open spec fn top_of(s: Seq<(Seq<char>, nat)>, n: nat) -> Seq<(Seq<char>, nat)> {
    if n < s.len() {
        s.take(n as int)
    } else {
        s
    }
}

/// The entry at 0-based rank `i`, if there is one.
pub open spec fn nth_of(s: Seq<(Seq<char>, nat)>, i: nat) -> Option<(Seq<char>, nat)> {
    if i < s.len() {
        Some(s[i as int])
    } else {
        None
    }
}

pub proof fn lemma_occurrences_bounded(recs: Seq<Seq<char>>, k: Seq<char>)
    ensures
        occurrences(recs, k) <= recs.len(),
    decreases recs.len(),
{
    if recs.len() > 0 {
        lemma_occurrences_bounded(recs.drop_last(), k);
    }
}

/// A table of how often each canonical command occurs, held in ranking order.
pub struct CommandFrequency {
    commands: Vec<(String, usize)>,
}

impl View for CommandFrequency {
    type V = Seq<(Seq<char>, nat)>;

    closed spec fn view(&self) -> Seq<(Seq<char>, nat)> {
        entries_view(self.commands@)
    }
}

/// Adds one record to `entries`, keeping the ranking order.
fn tally_one(entries: &mut Vec<(String, usize)>, raw: &str, Ghost(recs): Ghost<Seq<Seq<char>>>)
    requires
        ranked_entries(entries_view(old(entries)@)),
        counts_records(entries_view(old(entries)@), recs),
        recs.len() < usize::MAX,
    ensures
        ranked_entries(entries_view(final(entries)@)),
        counts_records(entries_view(final(entries)@), recs.push(raw@)),
{
    let ghost recs2 = recs.push(raw@);
    assert(recs2.drop_last() =~= recs);
    let (lo, hi) = trimmed_bounds(raw);
    if lo == hi {
        assert forall|k: Seq<char>| occurrences(recs2, k) == occurrences(recs, k) by {}
        return ;
    }
    let key = CommandFrequency::normalize_command(raw);
    let ghost s0 = entries_view(entries@);
    let ghost kv = key@;
    assert forall|k: Seq<char>|
        occurrences(recs2, k) == occurrences(recs, k) + if k == key@ {
            1nat
        } else {
            0nat
        } by {}
    let mut j: usize = 0;
    let mut found = false;
    while j < entries.len() && !found
        invariant
            s0 == entries_view(entries@),
            j <= entries@.len(),
            forall|i: int| 0 <= i < j ==> entries@[i].0@ != key@,
            found ==> j < entries@.len() && entries@[j as int].0@ == key@,
        decreases entries@.len() - j + if found {
            0int
        } else {
            1int
        },
    {
        if entries[j].0 == key {
            found = true;
        } else {
            j = j + 1;
        }
    }
    let ghost rest;
    let x: (String, usize) = if found {
        let e = entries.remove(j);
        proof {
            lemma_occurrences_bounded(recs, key@);
            assert(s0[j as int] == (e.0@, e.1 as nat));
            assert(e.1 as nat == occurrences(recs, key@));
            rest = s0.remove(j as int);
            assert(entries_view(entries@) =~= rest);
        }
        (e.0, e.1 + 1)
    } else {
        proof {
            rest = s0;
            if occurrences(recs, key@) > 0 {
                let i = choose|i: int| 0 <= i < s0.len() && s0[i].0 == key@;
                assert(entries@[i].0@ == key@);
            }
            assert(occurrences(recs, key@) == 0);
        }
        (key, 1)
    };
    let ghost xv = (x.0@, x.1 as nat);
    assert(xv.1 == occurrences(recs2, kv));
    assert(xv.0 == kv);
    assert(forall|i: int| 0 <= i < rest.len() ==> rest[i].0 != kv);
    let mut p: usize = entries.len();
    while p > 0 && entry_ranks_before(&x, &entries[p - 1])
        invariant
            rest == entries_view(entries@),
            p <= entries@.len(),
            xv == (x.0@, x.1 as nat),
            forall|q: int| p <= q < rest.len() ==> ranks_before(xv, #[trigger] rest[q]),
        decreases p,
    {
        p = p - 1;
    }
    proof {
        if p > 0 {
            lemma_ranks_total(xv, rest[p - 1]);
            assert forall|q: int| 0 <= q < p implies ranks_before(#[trigger] rest[q], xv) by {
                if q < p - 1 {
                    lemma_ranks_transitive(rest[q], rest[p - 1], xv);
                }
            }
        }
    }
    entries.insert(p, x);
    proof {
        assert(entries_view(entries@) =~= rest.insert(p as int, xv));
        lemma_insert_keeps_ranked(rest, p as int, xv);
        lemma_insert_keeps_counts(s0, rest, j as int, found, p as int, xv, recs, recs2);
    }
}

/// Placing `xv` where it ranks keeps a ranked sequence ranked.
proof fn lemma_insert_keeps_ranked(rest: Seq<(Seq<char>, nat)>, p: int, xv: (Seq<char>, nat))
    requires
        ranked_entries(rest),
        0 <= p <= rest.len(),
        xv.1 >= 1,
        forall|q: int| 0 <= q < p ==> ranks_before(#[trigger] rest[q], xv),
        forall|q: int| p <= q < rest.len() ==> ranks_before(xv, #[trigger] rest[q]),
        forall|q: int| 0 <= q < rest.len() ==> #[trigger] rest[q].0 != xv.0,
    ensures
        ranked_entries(rest.insert(p, xv)),
{
    let s1 = rest.insert(p, xv);
    assert forall|i: int| 0 <= i < s1.len() implies #[trigger] s1[i] == if i < p {
        rest[i]
    } else if i == p {
        xv
    } else {
        rest[i - 1]
    } by {}
    assert forall|i: int, k: int| 0 <= i < k < s1.len() implies ranks_before(
        #[trigger] s1[i],
        #[trigger] s1[k],
    ) && s1[i].0 != s1[k].0 by {
        if i != p && k != p {
            let a = if i < p {
                i
            } else {
                i - 1
            };
            let b = if k < p {
                k
            } else {
                k - 1
            };
            assert(s1[i] == rest[a] && s1[k] == rest[b]);
        }
    }
}

/// Placing the updated entry of `xv.0` keeps the table counting the records,
/// one record of `xv.0` being added.
proof fn lemma_insert_keeps_counts(
    s0: Seq<(Seq<char>, nat)>,
    rest: Seq<(Seq<char>, nat)>,
    j: int,
    found: bool,
    p: int,
    xv: (Seq<char>, nat),
    recs: Seq<Seq<char>>,
    recs2: Seq<Seq<char>>,
)
    requires
        counts_records(s0, recs),
        found ==> 0 <= j < s0.len() && s0[j].0 == xv.0 && rest == s0.remove(j),
        !found ==> rest == s0,
        forall|q: int| 0 <= q < rest.len() ==> #[trigger] rest[q].0 != xv.0,
        0 <= p <= rest.len(),
        forall|k: Seq<char>|
            #[trigger] occurrences(recs2, k) == occurrences(recs, k) + if k == xv.0 {
                1nat
            } else {
                0nat
            },
        xv.1 == occurrences(recs2, xv.0),
    ensures
        counts_records(rest.insert(p, xv), recs2),
{
    let s1 = rest.insert(p, xv);
    assert forall|i: int| 0 <= i < rest.len() implies (#[trigger] rest[i]).1 == occurrences(
        recs,
        rest[i].0,
    ) by {
        if found && i >= j {
            assert(rest[i] == s0[i + 1]);
        } else {
            assert(rest[i] == s0[i]);
        }
    }
    assert forall|i: int| 0 <= i < s1.len() implies (#[trigger] s1[i]).1 == occurrences(
        recs2,
        s1[i].0,
    ) by {
        if i < p {
            assert(s1[i] == rest[i]);
        } else if i > p {
            assert(s1[i] == rest[i - 1]);
        }
    }
    assert forall|k: Seq<char>| #[trigger]
        occurrences(recs2, k) > 0 implies exists|i: int| 0 <= i < s1.len() && s1[i].0 == k by {
        if k == xv.0 {
            assert(s1[p].0 == k);
        } else {
            assert(occurrences(recs, k) > 0);
            let i0 = choose|i: int| 0 <= i < s0.len() && s0[i].0 == k;
            let r0 = if found && i0 > j {
                i0 - 1
            } else {
                i0
            };
            assert(rest[r0].0 == k);
            let t0 = if r0 < p {
                r0
            } else {
                r0 + 1
            };
            assert(s1[t0].0 == k);
        }
    }
}

impl CommandFrequency {
    #[verifier::type_invariant]
    spec fn is_ranked(&self) -> bool {
        ranked_entries(self@)
    }

    /// The canonical form of one command line.
    pub fn normalize_command(cmd: &str) -> (r: String)
        ensures
            r@ == normalized(cmd@),
    {
        let (lo, hi) = trimmed_bounds(cmd);
        let mut a = lo;
        let mut b = hi;
        if hi - lo >= 2 {
            let first = cmd.get_char(lo);
            let last = cmd.get_char(hi - 1);
            if (first == '"' || first == '\'') && last == first {
                a = lo + 1;
                b = hi - 1;
            }
        }
        assert(strip_quotes(trim(cmd@)) =~= cmd@.subrange(a as int, b as int));
        collapse_range(cmd, a, b)
    }

    /// Counts every non-blank record under its canonical form.
    pub fn from_commands(records: &Vec<String>) -> (r: Self)
        ensures
            ranked_entries(r@),
            counts_records(r@, records_view(records@)),
    {
        let mut entries: Vec<(String, usize)> = Vec::new();
        let ghost all = records_view(records@);
        assert(entries_view(entries@) =~= Seq::<(Seq<char>, nat)>::empty());
        assert forall|k: Seq<char>| occurrences(all.take(0), k) == 0 by {}
        let mut i: usize = 0;
        while i < records.len()
            invariant
                all == records_view(records@),
                i <= records@.len(),
                ranked_entries(entries_view(entries@)),
                counts_records(entries_view(entries@), all.take(i as int)),
            decreases records@.len() - i,
        {
            assert(all.take(i as int + 1) =~= all.take(i as int).push(records@[i as int]@));
            tally_one(&mut entries, records[i].as_str(), Ghost(all.take(i as int)));
            i = i + 1;
        }
        assert(all.take(i as int) =~= all);
        CommandFrequency { commands: entries }
    }

    /// The `count` most frequent commands with their counts, most frequent first,
    /// equal counts in ascending order of the command.
    pub fn get_most_frequent(&self, count: usize) -> (r: Vec<(String, usize)>)
        ensures
            entries_view(r@) == top_of(self@, count as nat),
            ranked_entries(entries_view(r@)),
    {
        proof {
            use_type_invariant(self);
        }
        let n = if count < self.commands.len() {
            count
        } else {
            self.commands.len()
        };
        let mut r: Vec<(String, usize)> = Vec::new();
        let mut i: usize = 0;
        while i < n
            invariant
                n <= self.commands@.len(),
                n == if (count as nat) < self@.len() { count as nat } else { self@.len() },
                i <= n,
                entries_view(r@) =~= self@.take(i as int),
            decreases n - i,
        {
            let e = &self.commands[i];
            let k = e.0.clone();
            let ghost r0 = r@;
            r.push((k, e.1));
            assert(self@[i as int] == (k@, e.1 as nat));
            assert(entries_view(r@) =~= entries_view(r0).push((k@, e.1 as nat)));
            assert(self@.take(i as int + 1) =~= self@.take(i as int).push(self@[i as int]));
            i = i + 1;
        }
        assert(self@.take(n as int) =~= top_of(self@, count as nat));
        assert(entries_view(r@) =~= self@.take(n as int));
        r
    }

    /// The entry at 0-based rank `index`, or `None` past the last one.
    pub fn nth_most_frequent(&self, index: usize) -> (r: Option<(String, usize)>)
        ensures
            r matches Some(e) ==> nth_of(self@, index as nat) == Some((e.0@, e.1 as nat)),
            r is None <==> nth_of(self@, index as nat) is None,
    {
        if index < self.commands.len() {
            let e = &self.commands[index];
            Some((e.0.clone(), e.1))
        } else {
            None
        }
    }

    /// Number of distinct commands in the table.
    pub fn len(&self) -> (r: usize)
        ensures
            r == self@.len(),
    {
        self.commands.len()
    }
}

} // verus!
