use vstd::prelude::*;
use vstd::string::*;

verus! {

/// The characters that carry Unicode's `White_Space` property
/// (the set that `char::is_whitespace` tests for).
pub open spec fn is_space(c: char) -> bool {
    let u = c as u32;
    (0x9 <= u && u <= 0xd) || u == 0x20 || u == 0x85 || u == 0xa0 || u == 0x1680 || (0x2000 <= u
        && u <= 0x200a) || u == 0x2028 || u == 0x2029 || u == 0x202f || u == 0x205f || u == 0x3000
}

pub open spec fn is_quote(c: char) -> bool {
    c == '"' || c == '\''
}

/// `s` without its leading whitespace.
pub open spec fn trim_start(s: Seq<char>) -> Seq<char>
    decreases s.len(),
{
    if s.len() > 0 && is_space(s[0]) {
        trim_start(s.drop_first())
    } else {
        s
    }
}

/// `s` without its trailing whitespace.
pub open spec fn trim_end(s: Seq<char>) -> Seq<char>
    decreases s.len(),
{
    if s.len() > 0 && is_space(s.last()) {
        trim_end(s.drop_last())
    } else {
        s
    }
}

pub open spec fn trim(s: Seq<char>) -> Seq<char> {
    trim_end(trim_start(s))
}

/// A record counts as a command unless nothing but whitespace is left once trimmed.
pub open spec fn is_blank(s: Seq<char>) -> bool {
    trim(s).len() == 0
}

/// `s` opens and closes with the same quote character (and the two are distinct positions).
pub open spec fn is_quoted(s: Seq<char>) -> bool {
    s.len() >= 2 && is_quote(s[0]) && s.last() == s[0]
}

/// One matching pair of surrounding quotes removed, once.
pub open spec fn strip_quotes(s: Seq<char>) -> Seq<char> {
    if is_quoted(s) {
        s.subrange(1, s.len() - 1)
    } else {
        s
    }
}

/// The words of `s` joined by single spaces, read left to right: `gap` says that
/// whitespace was seen since the last word, `started` that a word was emitted.
pub open spec fn squeeze(s: Seq<char>, gap: bool, started: bool) -> Seq<char>
    decreases s.len(),
{
    if s.len() == 0 {
        Seq::empty()
    } else if is_space(s[0]) {
        squeeze(s.drop_first(), started, started)
    } else if gap {
        seq![' ', s[0]] + squeeze(s.drop_first(), false, true)
    } else {
        seq![s[0]] + squeeze(s.drop_first(), false, true)
    }
}

/// Every run of whitespace becomes one space; leading and trailing runs vanish.
pub open spec fn collapse(s: Seq<char>) -> Seq<char> {
    squeeze(s, false, false)
}

/// The canonical form of a command line: trimmed, one pair of quotes removed,
/// whitespace runs collapsed.
pub open spec fn normalized(s: Seq<char>) -> Seq<char> {
    collapse(strip_quotes(trim(s)))
}

pub open spec fn is_digit(c: char) -> bool {
    let u = c as u32;
    0x30 <= u && u <= 0x39
}

/// Length of the run of ASCII digits that opens `s`.
pub open spec fn leading_digits(s: Seq<char>) -> nat
    decreases s.len(),
{
    if s.len() > 0 && is_digit(s[0]) {
        1 + leading_digits(s.drop_first())
    } else {
        0
    }
}

/// A history line without its leading index: one or more digits then a space are
/// removed; a line that does not open that way is kept whole.
pub open spec fn without_line_number(s: Seq<char>) -> Seq<char> {
    let k = leading_digits(s);
    if 0 < k < s.len() && s[k as int] == ' ' {
        s.subrange(k as int + 1, s.len() as int)
    } else {
        s
    }
}

/// What `squeeze` emits is tidy, and opens with a space only after whitespace
/// that followed a word.
pub proof fn lemma_squeeze_tidy(s: Seq<char>, gap: bool, started: bool)
    ensures
        ({
            let o = squeeze(s, gap, started);
            &&& forall|i: int| 0 <= i < o.len() ==> #[trigger] o[i] == ' ' || !is_space(o[i])
            &&& forall|i: int| 0 <= i < o.len() - 1 ==> !(#[trigger] o[i] == ' ' && o[i + 1] == ' ')
            &&& o.len() > 0 ==> o.last() != ' '
            &&& o.len() > 0 && o[0] == ' ' ==> gap || started
        }),
    decreases s.len(),
{
    if s.len() > 0 {
        let rest = s.drop_first();
        if is_space(s[0]) {
            lemma_squeeze_tidy(rest, started, started);
        } else {
            lemma_squeeze_tidy(rest, false, true);
            let t = squeeze(rest, false, true);
            let head = if gap {
                seq![' ', s[0]]
            } else {
                seq![s[0]]
            };
            let o = head + t;
            assert(squeeze(s, gap, started) == o);
            assert forall|i: int| 0 <= i < o.len() implies #[trigger] o[i] == ' ' || !is_space(
                o[i],
            ) by {
                if i >= head.len() {
                    assert(o[i] == t[i - head.len()]);
                }
            }
            assert forall|i: int| 0 <= i < o.len() - 1 implies !(#[trigger] o[i] == ' ' && o[i + 1]
                == ' ') by {
                if i >= head.len() {
                    assert(o[i] == t[i - head.len()]);
                    assert(o[i + 1] == t[i + 1 - head.len()]);
                }
            }
            if t.len() > 0 {
                assert(o.last() == t.last());
            }
        }
    }
}

/// A tidy sequence is left as it is by `squeeze`, provided a leading space follows a word.
pub proof fn lemma_squeeze_tidy_fixed(s: Seq<char>, started: bool)
    requires
        forall|i: int| 0 <= i < s.len() ==> #[trigger] s[i] == ' ' || !is_space(s[i]),
        forall|i: int| 0 <= i < s.len() - 1 ==> !(#[trigger] s[i] == ' ' && s[i + 1] == ' '),
        s.len() > 0 ==> s.last() != ' ',
        s.len() > 0 && s[0] == ' ' ==> started,
    ensures
        squeeze(s, false, started) == s,
    decreases s.len(),
{
    if s.len() > 0 {
        let rest = s.drop_first();
        assert(forall|i: int| 0 <= i < rest.len() ==> rest[i] == s[i + 1]);
        if s[0] == ' ' {
            assert(s[0] == ' ' || !is_space(s[0]));
            assert(s.len() >= 2);
            assert(!(s[0] == ' ' && s[1] == ' '));
            assert(rest[0] == s[1]);
            assert(s[1] == ' ' || !is_space(s[1]));
            let rest2 = rest.drop_first();
            assert(forall|i: int| 0 <= i < rest2.len() ==> rest2[i] == s[i + 2]);
            if rest2.len() > 0 {
                assert(rest2.last() == s.last());
            }
            lemma_squeeze_tidy_fixed(rest2, true);
            assert(squeeze(s, false, started) == squeeze(rest, true, true));
            assert(squeeze(rest, true, true) == seq![' ', rest[0]] + rest2);
            assert(seq![' ', rest[0]] + rest2 =~= s);
        } else {
            assert(s[0] == ' ' || !is_space(s[0]));
            if rest.len() > 0 {
                assert(rest.last() == s.last());
            }
            lemma_squeeze_tidy_fixed(rest, true);
            assert(seq![s[0]] + rest =~= s);
        }
    }
}

/// Normalizing a canonical form changes nothing, unless that form is itself
/// wrapped in a pair of matching quotes (quotes are removed one pair at a time).
pub proof fn lemma_normalize_idempotent(x: Seq<char>)
    requires
        !is_quoted(normalized(x)),
    ensures
        normalized(normalized(x)) == normalized(x),
{
    let r = normalized(x);
    lemma_squeeze_tidy(strip_quotes(trim(x)), false, false);
    if r.len() > 0 {
        assert(r[0] == ' ' || !is_space(r[0]));
        assert(r.last() == r[r.len() - 1]);
        assert(r[r.len() - 1] == ' ' || !is_space(r[r.len() - 1]));
    }
    assert(trim_start(r) == r);
    assert(trim_end(r) == r);
    assert(strip_quotes(trim(r)) == r);
    lemma_squeeze_tidy_fixed(r, false);
}

pub fn is_space_char(c: char) -> (r: bool)
    ensures
        r == is_space(c),
{
    let u = c as u32;
    (0x9 <= u && u <= 0xd) || u == 0x20 || u == 0x85 || u == 0xa0 || u == 0x1680 || (0x2000 <= u
        && u <= 0x200a) || u == 0x2028 || u == 0x2029 || u == 0x202f || u == 0x205f || u == 0x3000
}

/// The pieces of `s` between newline characters, in order; text that ends with a
/// newline ends with an empty piece.
pub open spec fn split_lines(s: Seq<char>) -> Seq<Seq<char>>
    decreases s.len(),
{
    if s.len() == 0 {
        seq![Seq::empty()]
    } else {
        let prev = split_lines(s.drop_last());
        if s.last() == '\n' {
            prev.push(Seq::empty())
        } else {
            prev.update(prev.len() - 1, prev.last().push(s.last()))
        }
    }
}

/// Splits history text into its lines, one record each.
pub fn history_lines(text: &str) -> (r: Vec<String>)
    ensures
        r@.map_values(|l: String| l@) == split_lines(text@),
{
    let n = text.unicode_len();
    let mut done: Vec<String> = Vec::new();
    let mut start: usize = 0;
    let mut i: usize = 0;
    assert(text@.take(0) =~= Seq::<char>::empty());
    assert(done@.map_values(|l: String| l@).push(text@.subrange(0, 0)) =~= seq![
        Seq::<char>::empty(),
    ]);
    while i < n
        invariant
            n == text@.len(),
            start <= i <= n,
            split_lines(text@.take(i as int)) == done@.map_values(|l: String| l@).push(
                text@.subrange(start as int, i as int),
            ),
        decreases n - i,
    {
        let ghost before = done@.map_values(|l: String| l@);
        assert(text@.take(i as int + 1).drop_last() =~= text@.take(i as int));
        assert(text@.take(i as int + 1).last() == text@[i as int]);
        if text.get_char(i) == '\n' {
            let piece = String::from_str(text.substring_char(start, i));
            done.push(piece);
            assert(done@.map_values(|l: String| l@) =~= before.push(
                text@.subrange(start as int, i as int),
            ));
            assert(text@.subrange(i as int + 1, i as int + 1) =~= Seq::<char>::empty());
            start = i + 1;
        } else {
            assert(text@.subrange(start as int, i as int + 1) =~= text@.subrange(
                start as int,
                i as int,
            ).push(text@[i as int]));
            assert(before.push(text@.subrange(start as int, i as int)).update(
                before.len() as int,
                text@.subrange(start as int, i as int + 1),
            ) =~= before.push(text@.subrange(start as int, i as int + 1)));
        }
        i = i + 1;
    }
    assert(text@.take(n as int) =~= text@);
    let last = String::from_str(text.substring_char(start, n));
    let ghost before = done@.map_values(|l: String| l@);
    done.push(last);
    assert(done@.map_values(|l: String| l@) =~= before.push(text@.subrange(start as int, n as int)));
    done
}

/// Removes the numeric index that opens a numbered history line.
pub fn strip_line_number(line: &str) -> (r: String)
    ensures
        r@ == without_line_number(line@),
{
    let n = line.unicode_len();
    let mut k: usize = 0;
    assert(line@.subrange(0, n as int) =~= line@);
    while k < n && is_digit_char(line.get_char(k))
        invariant
            n == line@.len(),
            k <= n,
            leading_digits(line@) == k + leading_digits(line@.subrange(k as int, n as int)),
        decreases n - k,
    {
        assert(line@.subrange(k as int, n as int).drop_first() =~= line@.subrange(
            k as int + 1,
            n as int,
        ));
        k = k + 1;
    }
    if 0 < k && k < n && line.get_char(k) == ' ' {
        String::from_str(line.substring_char(k + 1, n))
    } else {
        String::from_str(line)
    }
}

pub fn is_digit_char(c: char) -> (r: bool)
    ensures
        r == is_digit(c),
{
    let u = c as u32;
    0x30 <= u && u <= 0x39
}

/// The character positions `[lo, hi)` of `s` that remain once it is trimmed.
pub fn trimmed_bounds(s: &str) -> (r: (usize, usize))
    ensures
        r.0 <= r.1 <= s@.len(),
        trim(s@) == s@.subrange(r.0 as int, r.1 as int),
{
    let n = s.unicode_len();
    let mut lo: usize = 0;
    assert(s@.subrange(0, n as int) =~= s@);
    while lo < n && is_space_char(s.get_char(lo))
        invariant
            n == s@.len(),
            lo <= n,
            trim_start(s@) == trim_start(s@.subrange(lo as int, n as int)),
        decreases n - lo,
    {
        assert(s@.subrange(lo as int, n as int).drop_first() =~= s@.subrange(
            lo as int + 1,
            n as int,
        ));
        lo = lo + 1;
    }
    let ghost head = s@.subrange(lo as int, n as int);
    assert(trim_start(s@) == head);
    let mut hi: usize = n;
    while hi > lo && is_space_char(s.get_char(hi - 1))
        invariant
            n == s@.len(),
            lo <= hi <= n,
            head == s@.subrange(lo as int, n as int),
            trim_end(head) == trim_end(s@.subrange(lo as int, hi as int)),
        decreases hi,
    {
        assert(s@.subrange(lo as int, hi as int).drop_last() =~= s@.subrange(
            lo as int,
            hi as int - 1,
        ));
        hi = hi - 1;
    }
    (lo, hi)
}

/// Appends the collapsed form of `s[lo..hi)` to a fresh string.
pub fn collapse_range(s: &str, lo: usize, hi: usize) -> (r: String)
    requires
        lo <= hi <= s@.len(),
    ensures
        r@ == collapse(s@.subrange(lo as int, hi as int)),
{
    let mut out = String::new();
    let mut gap = false;
    let mut started = false;
    let mut i: usize = lo;
    proof {
        reveal_strlit(" ");
    }
    while i < hi
        invariant
            lo <= i <= hi <= s@.len(),
            out@ + squeeze(s@.subrange(i as int, hi as int), gap, started) == collapse(
                s@.subrange(lo as int, hi as int),
            ),
            " "@ == seq![' '],
        decreases hi - i,
    {
        let ghost rest = s@.subrange(i as int, hi as int);
        let ghost out0 = out@;
        assert(rest.drop_first() =~= s@.subrange(i as int + 1, hi as int));
        let c = s.get_char(i);
        if is_space_char(c) {
            gap = started;
        } else {
            let piece = s.substring_char(i, i + 1);
            assert(piece@ =~= seq![c]);
            if gap {
                out.append(" ");
                assert(out0 + (seq![' ', c] + squeeze(rest.drop_first(), false, true)) =~= out@
                    + piece@ + squeeze(rest.drop_first(), false, true));
            } else {
                assert(out0 + (seq![c] + squeeze(rest.drop_first(), false, true)) =~= out@
                    + piece@ + squeeze(rest.drop_first(), false, true));
            }
            out.append(piece);
            gap = false;
            started = true;
        }
        i = i + 1;
    }
    assert(s@.subrange(i as int, hi as int) =~= Seq::<char>::empty());
    assert(out@ + Seq::<char>::empty() =~= out@);
    out
}

} // verus!
