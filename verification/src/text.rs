//! Text primitives over character sequences: trimming, splitting, searching.
//!
//! Every parser of git's output in this crate works on the characters of the
//! output (`Vec<char>`) and on index ranges into it. The spec functions here say
//! what the std string operations that the parsers mirror compute.
use vstd::prelude::*;

verus! {

// ---------------------------------------------------------------------------
// Outside calls (std `String` methods that vstd does not specify)
// ---------------------------------------------------------------------------

/// `String::push`: appends one character at the end of the string.
#[verifier::external_body]
pub fn push_char(s: &mut String, c: char)
    ensures
        final(s)@ == old(s)@.push(c),
{
    s.push(c);
}

/// `String::push_str`: appends the characters of `t` at the end of the string.
#[verifier::external_body]
pub fn push_str(s: &mut String, t: &str)
    ensures
        final(s)@ == old(s)@ + t@,
{
    s.push_str(t);
}

// ---------------------------------------------------------------------------
// Specifications
// ---------------------------------------------------------------------------

/// Unicode `White_Space`, the property that `char::is_whitespace` tests.
pub open spec fn is_ws(c: char) -> bool {
    let u = c as u32;
    ||| 9 <= u <= 13
    ||| u == 32
    ||| u == 0x85
    ||| u == 0xA0
    ||| u == 0x1680
    ||| 0x2000 <= u <= 0x200A
    ||| u == 0x2028
    ||| u == 0x2029
    ||| u == 0x202F
    ||| u == 0x205F
    ||| u == 0x3000
}

/// `s` without its leading white space.
pub open spec fn trim_start(s: Seq<char>) -> Seq<char>
    decreases s.len(),
{
    if s.len() > 0 && is_ws(s[0]) {
        trim_start(s.drop_first())
    } else {
        s
    }
}

/// `s` without its trailing white space.
pub open spec fn trim_end(s: Seq<char>) -> Seq<char>
    decreases s.len(),
{
    if s.len() > 0 && is_ws(s.last()) {
        trim_end(s.drop_last())
    } else {
        s
    }
}

/// `str::trim`: `s` without leading and trailing white space.
pub open spec fn trim(s: Seq<char>) -> Seq<char> {
    trim_end(trim_start(s))
}

/// What separates the pieces of a split.
#[derive(Clone, Copy)]
pub enum Sep {
    /// One given character.
    Char(char),
    /// Any white-space character.
    White,
}

pub open spec fn is_sep(sep: Sep, c: char) -> bool {
    match sep {
        Sep::Char(d) => c == d,
        Sep::White => is_ws(c),
    }
}

/// `str::split` by a separator: the pieces between separators, empty ones
/// included; there is always one piece more than there are separators.
pub open spec fn split_on(s: Seq<char>, sep: Sep) -> Seq<Seq<char>>
    decreases s.len(),
{
    if s.len() == 0 {
        seq![Seq::<char>::empty()]
    } else {
        let p = split_on(s.drop_last(), sep);
        if is_sep(sep, s.last()) {
            p.push(Seq::<char>::empty())
        } else {
            p.update(p.len() - 1, p.last().push(s.last()))
        }
    }
}

/// `str::split` by one character.
pub open spec fn split(s: Seq<char>, c: char) -> Seq<Seq<char>> {
    split_on(s, Sep::Char(c))
}

pub open spec fn non_empty(w: Seq<char>) -> bool {
    w.len() > 0
}

/// The non-empty pieces, in order.
pub open spec fn non_empty_only(ps: Seq<Seq<char>>) -> Seq<Seq<char>> {
    ps.filter(|w: Seq<char>| non_empty(w))
}

/// `str::split_whitespace`: the maximal runs of non-white-space characters.
pub open spec fn words(s: Seq<char>) -> Seq<Seq<char>> {
    non_empty_only(split_on(s, Sep::White))
}

/// A line without the carriage return of a `\r\n` line ending.
pub open spec fn strip_cr(s: Seq<char>) -> Seq<char> {
    if s.len() > 0 && s.last() == '\r' {
        s.drop_last()
    } else {
        s
    }
}

/// Each line without the `\r` of a `\r\n` ending.
pub open spec fn strip_cr_all(ls: Seq<Seq<char>>) -> Seq<Seq<char>> {
    ls.map_values(|l: Seq<char>| strip_cr(l))
}

/// `str::lines`: the pieces between `\n` line endings, each without the `\r`
/// of a `\r\n` ending; a final line ending adds no empty line.
pub open spec fn lines(s: Seq<char>) -> Seq<Seq<char>> {
    let p = split(s, '\n');
    let ended = strip_cr_all(p.drop_last());
    if p.last().len() == 0 {
        ended
    } else {
        ended.push(p.last())
    }
}

/// `p` occurs in `s` at index `i`.
pub open spec fn occurs_at(s: Seq<char>, p: Seq<char>, i: int) -> bool {
    0 <= i && i + p.len() <= s.len() && s.subrange(i, i + p.len()) == p
}

/// `str::contains`: `p` occurs somewhere in `s`.
pub open spec fn contains_seq(s: Seq<char>, p: Seq<char>) -> bool {
    exists|i: int| occurs_at(s, p, i)
}

/// `str::starts_with`.
pub open spec fn starts_with(s: Seq<char>, p: Seq<char>) -> bool {
    p.len() <= s.len() && s.subrange(0, p.len() as int) == p
}

/// `str::ends_with`.
pub open spec fn ends_with(s: Seq<char>, p: Seq<char>) -> bool {
    p.len() <= s.len() && s.subrange(s.len() - p.len(), s.len() as int) == p
}

/// The greatest index below `k` at which `p` occurs in `s`.
pub open spec fn last_occurrence_below(s: Seq<char>, p: Seq<char>, k: int) -> Option<int>
    decreases k,
{
    if k <= 0 {
        None
    } else if occurs_at(s, p, k - 1) {
        Some(k - 1)
    } else {
        last_occurrence_below(s, p, k - 1)
    }
}

/// The greatest index at which `p` occurs in `s` (what `str::rfind` finds).
pub open spec fn last_occurrence(s: Seq<char>, p: Seq<char>) -> Option<int> {
    last_occurrence_below(s, p, s.len() as int + 1)
}

/// The first item of `str::rsplit(p)`: what follows the last occurrence of `p`,
/// or all of `s` where `p` does not occur.
pub open spec fn after_last(s: Seq<char>, p: Seq<char>) -> Seq<char> {
    match last_occurrence(s, p) {
        Some(i) => s.subrange(i + p.len(), s.len() as int),
        None => s,
    }
}

/// The least index at which the character `c` stands in `s`.
pub open spec fn first_index_below(s: Seq<char>, c: char, k: int) -> Option<int>
    decreases k,
{
    if k <= 0 {
        None
    } else {
        match first_index_below(s, c, k - 1) {
            Some(i) => Some(i),
            None => if s[k - 1] == c {
                Some(k - 1)
            } else {
                None
            },
        }
    }
}

/// `str::find` of a character.
pub open spec fn first_index(s: Seq<char>, c: char) -> Option<int> {
    first_index_below(s, c, s.len() as int)
}

/// `s` without the leading copies of `c` (`str::trim_start_matches`).
pub open spec fn trim_start_char(s: Seq<char>, c: char) -> Seq<char>
    decreases s.len(),
{
    if s.len() > 0 && s[0] == c {
        trim_start_char(s.drop_first(), c)
    } else {
        s
    }
}

/// `char::is_ascii_hexdigit`.
pub open spec fn is_hex(c: char) -> bool {
    ('0' <= c <= '9') || ('a' <= c <= 'f') || ('A' <= c <= 'F')
}

/// Every character is an ASCII hex digit.
pub open spec fn all_hex(s: Seq<char>) -> bool {
    forall|i: int| 0 <= i < s.len() ==> is_hex(#[trigger] s[i])
}

/// The character ranges `r` select from `cs`, in order.
pub open spec fn range_views(cs: Seq<char>, r: Seq<(usize, usize)>) -> Seq<Seq<char>> {
    r.map_values(|p: (usize, usize)| cs.subrange(p.0 as int, p.1 as int))
}

/// Every range lies within `lo..hi`.
pub open spec fn ranges_within(r: Seq<(usize, usize)>, lo: int, hi: int) -> bool {
    forall|k: int| 0 <= k < r.len() ==> lo <= (#[trigger] r[k]).0 <= r[k].1 <= hi
}

// ---------------------------------------------------------------------------
// Lemmas
// ---------------------------------------------------------------------------

pub proof fn lemma_split_on_nonempty(s: Seq<char>, sep: Sep)
    ensures
        split_on(s, sep).len() >= 1,
    decreases s.len(),
{
    if s.len() > 0 {
        lemma_split_on_nonempty(s.drop_last(), sep);
    }
}


/// Every separator in `s` starts a new piece: with one at index `i`, the split
/// has at least two pieces.
pub proof fn lemma_split_count(s: Seq<char>, sep: Sep, i: int)
    requires
        0 <= i < s.len(),
        is_sep(sep, s[i]),
    ensures
        split_on(s, sep).len() >= 2,
    decreases s.len(),
{
    lemma_split_on_nonempty(s.drop_last(), sep);
    if i < s.len() - 1 {
        lemma_split_count(s.drop_last(), sep, i);
    }
}

/// A split into two or more pieces has a separator.
pub proof fn lemma_split_has_sep(s: Seq<char>, sep: Sep)
    requires
        split_on(s, sep).len() >= 2,
    ensures
        exists|i: int| 0 <= i < s.len() && is_sep(sep, #[trigger] s[i]),
    decreases s.len(),
{
    if s.len() > 0 && !is_sep(sep, s.last()) {
        lemma_split_on_nonempty(s.drop_last(), sep);
        lemma_split_has_sep(s.drop_last(), sep);
        let i = choose|i: int| 0 <= i < s.drop_last().len() && is_sep(sep, #[trigger] s.drop_last()[i]);
        assert(s[i] == s.drop_last()[i]);
    } else if s.len() > 0 {
        assert(is_sep(sep, s[s.len() - 1]));
    }
}


/// The index `first_index` finds is in range and holds the character.
pub proof fn lemma_first_index_in_range(s: Seq<char>, c: char)
    ensures
        match first_index(s, c) {
            Some(i) => 0 <= i < s.len() && s[i] == c,
            None => true,
        },
{
    lemma_first_index_below_range(s, c, s.len() as int);
}

proof fn lemma_first_index_below_range(s: Seq<char>, c: char, k: int)
    requires
        0 <= k <= s.len(),
    ensures
        match first_index_below(s, c, k) {
            Some(i) => 0 <= i < k && s[i] == c,
            None => true,
        },
    decreases k,
{
    if k > 0 {
        lemma_first_index_below_range(s, c, k - 1);
    }
}

proof fn lemma_sub_drop_first(s: Seq<char>, a: int, b: int)
    requires
        0 <= a < b <= s.len(),
    ensures
        s.subrange(a, b).drop_first() == s.subrange(a + 1, b),
        s.subrange(a, b)[0] == s[a],
{
    assert(s.subrange(a, b).drop_first() =~= s.subrange(a + 1, b));
}

proof fn lemma_sub_drop_last(s: Seq<char>, a: int, b: int)
    requires
        0 <= a < b <= s.len(),
    ensures
        s.subrange(a, b).drop_last() == s.subrange(a, b - 1),
        s.subrange(a, b).last() == s[b - 1],
{
    assert(s.subrange(a, b).drop_last() =~= s.subrange(a, b - 1));
}



pub proof fn lemma_non_empty_only_push(ps: Seq<Seq<char>>, x: Seq<char>)
    ensures
        non_empty_only(ps.push(x)) == if x.len() > 0 {
            non_empty_only(ps).push(x)
        } else {
            non_empty_only(ps)
        },
{
    ps.lemma_filter_push(x, |w: Seq<char>| non_empty(w));
}

proof fn lemma_strip_cr_all_push(ls: Seq<Seq<char>>, x: Seq<char>)
    ensures
        strip_cr_all(ls.push(x)) == strip_cr_all(ls).push(strip_cr(x)),
{
    assert(strip_cr_all(ls.push(x)) =~= strip_cr_all(ls).push(strip_cr(x)));
}

proof fn lemma_first_index_below_stable(s: Seq<char>, c: char, k: int, m: int)
    requires
        0 <= k <= m,
        first_index_below(s, c, k) is Some,
    ensures
        first_index_below(s, c, m) == first_index_below(s, c, k),
    decreases m - k,
{
    if m > k {
        lemma_first_index_below_stable(s, c, k, m - 1);
    }
}

/// The pieces `f` joined with `c` between each two (what `split` by `c` takes
/// apart).
pub open spec fn joined(f: Seq<Seq<char>>, c: char) -> Seq<char>
    decreases f.len(),
{
    if f.len() == 0 {
        Seq::empty()
    } else if f.len() == 1 {
        f[0]
    } else {
        joined(f.drop_last(), c) + seq![c] + f.last()
    }
}

/// Splitting a text without the separator gives the text as its only piece.
pub proof fn lemma_split_no_sep(s: Seq<char>, c: char)
    requires
        !s.contains(c),
    ensures
        split(s, c) == seq![s],
    decreases s.len(),
{
    if s.len() > 0 {
        assert(!s.drop_last().contains(c)) by {
            if s.drop_last().contains(c) {
                let i = choose|i: int| 0 <= i < s.drop_last().len() && s.drop_last()[i] == c;
                assert(s[i] == c);
            }
        }
        lemma_split_no_sep(s.drop_last(), c);
        assert(s[s.len() - 1] != c);
        assert(!is_sep(Sep::Char(c), s.last()));
        assert(s.drop_last().push(s.last()) =~= s);
        assert(seq![s.drop_last()].update(0, s.drop_last().push(s.last())) =~= seq![s]);
        assert(split(s, c) == split(s.drop_last(), c).update(0, s.drop_last().push(s.last())));
    } else {
        assert(s =~= Seq::<char>::empty());
        assert(split(s, c) =~= seq![s]);
    }
}

/// A separator followed by a text without separators adds that text as one
/// more piece.
pub proof fn lemma_split_after_sep(s: Seq<char>, t: Seq<char>, c: char)
    requires
        !t.contains(c),
    ensures
        split(s + seq![c] + t, c) == split(s, c).push(t),
    decreases t.len(),
{
    if t.len() == 0 {
        assert(s + seq![c] + t =~= s.push(c));
        assert((s + seq![c] + t).drop_last() =~= s);
        assert(is_sep(Sep::Char(c), (s + seq![c] + t).last()));
        assert(t =~= Seq::<char>::empty());
        assert(split(s + seq![c] + t, c) == split(s, c).push(Seq::<char>::empty()));
    } else {
        let u = t.drop_last();
        assert(!u.contains(c)) by {
            if u.contains(c) {
                let i = choose|i: int| 0 <= i < u.len() && u[i] == c;
                assert(t[i] == c);
            }
        }
        lemma_split_after_sep(s, u, c);
        let whole = s + seq![c] + t;
        assert(whole.drop_last() =~= s + seq![c] + u);
        assert(whole.last() == t.last());
        assert(t[t.len() - 1] != c);
        assert(!is_sep(Sep::Char(c), whole.last()));
        assert(u.push(t.last()) =~= t);
        let p = split(s + seq![c] + u, c);
        assert(p.update(p.len() - 1, p.last().push(t.last())) =~= split(s, c).push(t));
        assert(split(whole, c) == p.update(p.len() - 1, p.last().push(t.last())));
    }
}

/// Splitting joined pieces that hold no separator gives the pieces back.
pub proof fn lemma_split_joined(f: Seq<Seq<char>>, c: char)
    requires
        f.len() >= 1,
        forall|i: int| 0 <= i < f.len() ==> !(#[trigger] f[i]).contains(c),
    ensures
        split(joined(f, c), c) == f,
    decreases f.len(),
{
    if f.len() == 1 {
        lemma_split_no_sep(f[0], c);
        assert(seq![f[0]] =~= f);
    } else {
        let d = f.drop_last();
        assert forall|i: int| 0 <= i < d.len() implies !(#[trigger] d[i]).contains(c) by {
            assert(d[i] == f[i]);
        }
        lemma_split_joined(d, c);
        assert(!f.last().contains(c)) by {
            assert(f[f.len() - 1] == f.last());
        }
        lemma_split_after_sep(joined(d, c), f.last(), c);
        assert(d.push(f.last()) =~= f);
    }
}

/// Joined pieces hold no character that none of the pieces holds, besides the
/// separator.
pub proof fn lemma_joined_lacks(f: Seq<Seq<char>>, c: char, x: char)
    requires
        x != c,
        forall|i: int| 0 <= i < f.len() ==> !(#[trigger] f[i]).contains(x),
    ensures
        !joined(f, c).contains(x),
    decreases f.len(),
{
    if f.len() == 1 {
        assert(!f[0].contains(x));
    } else if f.len() > 1 {
        let d = f.drop_last();
        assert forall|i: int| 0 <= i < d.len() implies !(#[trigger] d[i]).contains(x) by {
            assert(d[i] == f[i]);
        }
        lemma_joined_lacks(d, c, x);
        assert(!f[f.len() - 1].contains(x));
        let j = joined(f, c);
        if j.contains(x) {
            let i = choose|i: int| 0 <= i < j.len() && j[i] == x;
            let a = joined(d, c);
            if i < a.len() {
                assert(j[i] == a[i]);
            } else if i > a.len() {
                assert(j[i] == f.last()[i - a.len() - 1]);
            }
        }
    }
}

/// White space before a character that is not white space is all that
/// `trim_start` removes.
pub proof fn lemma_trim_start_concat(a: Seq<char>, b: Seq<char>)
    requires
        b.len() > 0,
        !is_ws(b[0]),
    ensures
        trim_start(a + b) == trim_start(a) + b,
    decreases a.len(),
{
    if a.len() == 0 {
        assert(a + b =~= b);
        assert(Seq::<char>::empty() + b =~= b);
    } else {
        assert((a + b)[0] == a[0]);
        if is_ws(a[0]) {
            assert((a + b).drop_first() =~= a.drop_first() + b);
            lemma_trim_start_concat(a.drop_first(), b);
        }
    }
}

/// White space after a character that is not white space is all that
/// `trim_end` removes.
pub proof fn lemma_trim_end_concat(a: Seq<char>, b: Seq<char>)
    requires
        a.len() > 0,
        !is_ws(a.last()),
    ensures
        trim_end(a + b) == a + trim_end(b),
    decreases b.len(),
{
    if b.len() == 0 {
        assert(a + b =~= a);
        assert(a + Seq::<char>::empty() =~= a);
    } else {
        assert((a + b).last() == b.last());
        if is_ws(b.last()) {
            assert((a + b).drop_last() =~= a + b.drop_last());
            lemma_trim_end_concat(a, b.drop_last());
        } else {
            assert(trim_end(b) == b);
        }
    }
}

/// `trim_start` keeps a suffix: it adds no character.
pub proof fn lemma_trim_start_suffix(a: Seq<char>)
    ensures
        exists|k: int| 0 <= k <= a.len() && trim_start(a) == a.subrange(k, a.len() as int),
        trim_start(trim_start(a)) == trim_start(a),
    decreases a.len(),
{
    if a.len() > 0 && is_ws(a[0]) {
        lemma_trim_start_suffix(a.drop_first());
        let k = choose|k: int|
            0 <= k <= a.drop_first().len() && trim_start(a.drop_first()) == a.drop_first().subrange(
                k,
                a.drop_first().len() as int,
            );
        assert(a.drop_first().subrange(k, a.drop_first().len() as int) =~= a.subrange(
            k + 1,
            a.len() as int,
        ));
    } else {
        assert(a.subrange(0, a.len() as int) =~= a);
    }
}

/// `trim_end` keeps a prefix: it adds no character.
pub proof fn lemma_trim_end_prefix(a: Seq<char>)
    ensures
        exists|k: int| 0 <= k <= a.len() && trim_end(a) == a.subrange(0, k),
    decreases a.len(),
{
    if a.len() > 0 && is_ws(a.last()) {
        lemma_trim_end_prefix(a.drop_last());
        let k = choose|k: int|
            0 <= k <= a.drop_last().len() && trim_end(a.drop_last()) == a.drop_last().subrange(0, k);
        assert(a.drop_last().subrange(0, k) =~= a.subrange(0, k));
    } else {
        assert(a.subrange(0, a.len() as int) =~= a);
    }
}

/// Trimming adds no character: a character that `s` lacks, `trim(s)` lacks.
pub proof fn lemma_trim_lacks(s: Seq<char>, x: char)
    requires
        !s.contains(x),
    ensures
        !trim(s).contains(x),
{
    lemma_trim_start_suffix(s);
    let ts = trim_start(s);
    let k = choose|k: int| 0 <= k <= s.len() && ts == s.subrange(k, s.len() as int);
    lemma_trim_end_prefix(ts);
    let m = choose|m: int| 0 <= m <= ts.len() && trim_end(ts) == ts.subrange(0, m);
    if trim(s).contains(x) {
        let i = choose|i: int| 0 <= i < trim(s).len() && trim(s)[i] == x;
        assert(trim(s)[i] == ts[i]);
        assert(ts[i] == s[k + i]);
    }
}

/// The first index of a character is where it first stands.
pub proof fn lemma_first_index_at(s: Seq<char>, c: char, m: int)
    requires
        0 <= m < s.len(),
        s[m] == c,
        forall|i: int| 0 <= i < m ==> s[i] != c,
    ensures
        first_index(s, c) == Some(m),
{
    lemma_first_index_below_none(s, c, m);
    assert(first_index_below(s, c, m + 1) == Some(m));
    lemma_first_index_below_stable(s, c, m + 1, s.len() as int);
}

pub proof fn lemma_first_index_below_none(s: Seq<char>, c: char, k: int)
    requires
        0 <= k <= s.len(),
        forall|i: int| 0 <= i < k ==> s[i] != c,
    ensures
        first_index_below(s, c, k) is None,
    decreases k,
{
    if k > 0 {
        lemma_first_index_below_none(s, c, k - 1);
    }
}

// ---------------------------------------------------------------------------
// Executable functions
// ---------------------------------------------------------------------------

/// `char::is_whitespace`.
pub fn is_whitespace(c: char) -> (b: bool)
    ensures
        b == is_ws(c),
{
    let u = c as u32;
    (9 <= u && u <= 13) || u == 32 || u == 0x85 || u == 0xA0 || u == 0x1680 || (0x2000 <= u && u
        <= 0x200A) || u == 0x2028 || u == 0x2029 || u == 0x202F || u == 0x205F || u == 0x3000
}

/// The characters of a string slice, in order.
pub fn chars_of(s: &str) -> (v: Vec<char>)
    ensures
        v@ == s@,
{
    let mut v: Vec<char> = Vec::new();
    for c in it: s.chars()
        invariant
            v@ == it.seq().take(it.index() as int),
    {
        v.push(c);
    }
    v
}

/// A new string holding `cs[lo..hi]`.
pub fn string_of(cs: &[char], lo: usize, hi: usize) -> (r: String)
    requires
        lo <= hi <= cs@.len(),
    ensures
        r@ == cs@.subrange(lo as int, hi as int),
{
    let mut r = String::new();
    let mut i = lo;
    while i < hi
        invariant
            lo <= i <= hi <= cs@.len(),
            r@ == cs@.subrange(lo as int, i as int),
        decreases hi - i,
    {
        push_char(&mut r, cs[i]);
        i = i + 1;
        assert(r@ =~= cs@.subrange(lo as int, i as int));
    }
    r
}

/// Appends `cs[lo..hi]` to `r`.
pub fn push_range(r: &mut String, cs: &[char], lo: usize, hi: usize)
    requires
        lo <= hi <= cs@.len(),
    ensures
        final(r)@ == old(r)@ + cs@.subrange(lo as int, hi as int),
{
    let mut i = lo;
    while i < hi
        invariant
            lo <= i <= hi <= cs@.len(),
            r@ == old(r)@ + cs@.subrange(lo as int, i as int),
        decreases hi - i,
    {
        push_char(r, cs[i]);
        i = i + 1;
        assert(r@ =~= old(r)@ + cs@.subrange(lo as int, i as int));
    }
}

/// The bounds of `trim(cs[lo..hi])` within `cs`.
pub fn trim_bounds(cs: &[char], lo: usize, hi: usize) -> (r: (usize, usize))
    requires
        lo <= hi <= cs@.len(),
    ensures
        lo <= r.0 <= r.1 <= hi,
        cs@.subrange(r.0 as int, r.1 as int) == trim(cs@.subrange(lo as int, hi as int)),
{
    let ghost s = cs@;
    let mut a = lo;
    while a < hi && is_whitespace(cs[a])
        invariant
            lo <= a <= hi <= s.len(),
            s == cs@,
            trim_start(s.subrange(lo as int, hi as int)) == trim_start(
                s.subrange(a as int, hi as int),
            ),
        decreases hi - a,
    {
        proof {
            lemma_sub_drop_first(s, a as int, hi as int);
        }
        a = a + 1;
    }
    let mut b = hi;
    while b > a && is_whitespace(cs[b - 1])
        invariant
            lo <= a <= b <= hi <= s.len(),
            s == cs@,
            trim_end(s.subrange(a as int, hi as int)) == trim_end(s.subrange(a as int, b as int)),
        decreases b - a,
    {
        proof {
            lemma_sub_drop_last(s, a as int, b as int);
        }
        b = b - 1;
    }
    (a, b)
}

/// A new string holding `trim(s)`.
pub fn trim_str(s: &str) -> (r: String)
    ensures
        r@ == trim(s@),
{
    let cs = chars_of(s);
    let (a, b) = trim_bounds(cs.as_slice(), 0, cs.len());
    assert(cs@.subrange(0, cs@.len() as int) =~= s@);
    string_of(cs.as_slice(), a, b)
}

/// Whether `cs[lo..hi]` is a separator.
fn sep_matches(sep: Sep, c: char) -> (b: bool)
    ensures
        b == is_sep(sep, c),
{
    match sep {
        Sep::Char(d) => c == d,
        Sep::White => is_whitespace(c),
    }
}

/// The ranges within `cs` of the pieces of `split_on(cs[lo..hi], sep)`.
pub fn split_ranges(cs: &[char], lo: usize, hi: usize, sep: Sep) -> (r: Vec<(usize, usize)>)
    requires
        lo <= hi <= cs@.len(),
    ensures
        ranges_within(r@, lo as int, hi as int),
        range_views(cs@, r@) == split_on(cs@.subrange(lo as int, hi as int), sep),
{
    let ghost s = cs@;
    let mut r: Vec<(usize, usize)> = Vec::new();
    let mut start = lo;
    let mut i = lo;
    assert(s.subrange(lo as int, lo as int) =~= Seq::<char>::empty());
    assert(range_views(s, r@).push(s.subrange(start as int, i as int)) =~= split_on(
        s.subrange(lo as int, i as int),
        sep,
    ));
    while i < hi
        invariant
            lo <= start <= i <= hi <= s.len(),
            s == cs@,
            ranges_within(r@, lo as int, i as int),
            range_views(s, r@).push(s.subrange(start as int, i as int)) == split_on(
                s.subrange(lo as int, i as int),
                sep,
            ),
        decreases hi - i,
    {
        let c = cs[i];
        proof {
            lemma_sub_drop_last(s, lo as int, i + 1);
        }
        let ghost prev = range_views(s, r@);
        if sep_matches(sep, c) {
            r.push((start, i));
            start = i + 1;
            assert(range_views(s, r@) =~= prev.push(s.subrange(r@.last().0 as int, i as int)));
            assert(s.subrange(start as int, (i + 1) as int) =~= Seq::<char>::empty());
        } else {
            assert(s.subrange(start as int, (i + 1) as int) =~= s.subrange(
                start as int,
                i as int,
            ).push(c));
        }
        i = i + 1;
        assert(range_views(s, r@).push(s.subrange(start as int, i as int)) =~= split_on(
            s.subrange(lo as int, i as int),
            sep,
        ));
    }
    let ghost before = range_views(s, r@);
    r.push((start, hi));
    assert(range_views(s, r@) =~= before.push(s.subrange(start as int, hi as int)));
    r
}


/// Whether `p` occurs in `cs[lo..hi]` at (relative) index `j`.
pub fn occurs_in(cs: &[char], lo: usize, hi: usize, j: usize, p: &[char]) -> (b: bool)
    requires
        lo <= hi <= cs@.len(),
    ensures
        b == occurs_at(cs@.subrange(lo as int, hi as int), p@, j as int),
{
    let ghost s = cs@.subrange(lo as int, hi as int);
    if j > hi - lo || p.len() > hi - lo - j {
        return false;
    }
    let mut m: usize = 0;
    while m < p.len()
        invariant
            lo <= hi <= cs@.len(),
            s == cs@.subrange(lo as int, hi as int),
            j + p@.len() <= hi - lo,
            m <= p@.len(),
            forall|t: int| 0 <= t < m ==> cs@[lo + j + t] == p@[t],
        decreases p@.len() - m,
    {
        if cs[lo + j + m] != p[m] {
            assert(s.subrange(j as int, j + p@.len())[m as int] != p@[m as int]);
            return false;
        }
        m = m + 1;
    }
    assert(s.subrange(j as int, j + p@.len()) =~= p@);
    true
}

/// `str::contains` on `cs[lo..hi]`.
pub fn contains_in(cs: &[char], lo: usize, hi: usize, p: &[char]) -> (b: bool)
    requires
        lo <= hi <= cs@.len(),
    ensures
        b == contains_seq(cs@.subrange(lo as int, hi as int), p@),
{
    let ghost s = cs@.subrange(lo as int, hi as int);
    if p.len() == 0 {
        assert(s.subrange(0, 0) =~= p@);
        assert(occurs_at(s, p@, 0));
        return true;
    }
    if p.len() > hi - lo {
        assert forall|t: int| !occurs_at(s, p@, t) by {}
        return false;
    }
    let end = hi - lo - p.len() + 1;
    let mut j: usize = 0;
    while j < end
        invariant
            lo <= hi <= cs@.len(),
            s == cs@.subrange(lo as int, hi as int),
            end == hi - lo - p@.len() + 1,
            j <= end,
            forall|t: int| 0 <= t < j ==> !occurs_at(s, p@, t),
        decreases end - j,
    {
        if occurs_in(cs, lo, hi, j, p) {
            return true;
        }
        j = j + 1;
    }
    assert forall|t: int| !occurs_at(s, p@, t) by {
        if 0 <= t < j {
        } else if t >= j {
            assert(t + p@.len() > s.len());
        }
    }
    false
}

/// `str::starts_with` on `cs[lo..hi]`.
pub fn starts_with_in(cs: &[char], lo: usize, hi: usize, p: &[char]) -> (b: bool)
    requires
        lo <= hi <= cs@.len(),
    ensures
        b == starts_with(cs@.subrange(lo as int, hi as int), p@),
{
    occurs_in(cs, lo, hi, 0, p)
}

/// `str::ends_with` on `cs[lo..hi]`.
pub fn ends_with_in(cs: &[char], lo: usize, hi: usize, p: &[char]) -> (b: bool)
    requires
        lo <= hi <= cs@.len(),
    ensures
        b == ends_with(cs@.subrange(lo as int, hi as int), p@),
{
    if p.len() > hi - lo {
        return false;
    }
    occurs_in(cs, lo, hi, hi - lo - p.len(), p)
}

/// The greatest index (relative to `lo`) at which `p` occurs in `cs[lo..hi]`.
pub fn last_occurrence_in(cs: &[char], lo: usize, hi: usize, p: &[char]) -> (r: Option<usize>)
    requires
        lo <= hi <= cs@.len(),
    ensures
        match r {
            Some(k) => last_occurrence(cs@.subrange(lo as int, hi as int), p@) == Some(k as int)
                && occurs_at(cs@.subrange(lo as int, hi as int), p@, k as int),
            None => last_occurrence(cs@.subrange(lo as int, hi as int), p@) is None,
        },
{
    let ghost s = cs@.subrange(lo as int, hi as int);
    let mut k: usize = hi - lo;
    loop
        invariant
            lo <= hi <= cs@.len(),
            s == cs@.subrange(lo as int, hi as int),
            k <= hi - lo,
            last_occurrence(s, p@) == last_occurrence_below(s, p@, k + 1),
        decreases k,
    {
        if occurs_in(cs, lo, hi, k, p) {
            return Some(k);
        }
        if k == 0 {
            assert(last_occurrence_below(s, p@, 0) is None);
            return None;
        }
        k = k - 1;
    }
}

/// The least index (relative to `lo`) at which `c` stands in `cs[lo..hi]`.
pub fn first_index_in(cs: &[char], lo: usize, hi: usize, c: char) -> (r: Option<usize>)
    requires
        lo <= hi <= cs@.len(),
    ensures
        match r {
            Some(k) => first_index(cs@.subrange(lo as int, hi as int), c) == Some(k as int),
            None => first_index(cs@.subrange(lo as int, hi as int), c) is None,
        },
{
    let ghost s = cs@.subrange(lo as int, hi as int);
    let mut k: usize = 0;
    while k < hi - lo
        invariant
            lo <= hi <= cs@.len(),
            s == cs@.subrange(lo as int, hi as int),
            k <= hi - lo,
            first_index_below(s, c, k as int) is None,
        decreases hi - lo - k,
    {
        if cs[lo + k] == c {
            proof {
                assert(first_index_below(s, c, k + 1) == Some(k as int));
                lemma_first_index_below_stable(s, c, k + 1, s.len() as int);
            }
            return Some(k);
        }
        k = k + 1;
    }
    None
}

/// The bounds of `trim_start_char(cs[lo..hi], c)` within `cs`.
pub fn trim_start_char_from(cs: &[char], lo: usize, hi: usize, c: char) -> (a: usize)
    requires
        lo <= hi <= cs@.len(),
    ensures
        lo <= a <= hi,
        cs@.subrange(a as int, hi as int) == trim_start_char(cs@.subrange(lo as int, hi as int), c),
{
    let ghost s = cs@;
    let mut a = lo;
    while a < hi && cs[a] == c
        invariant
            lo <= a <= hi <= s.len(),
            s == cs@,
            trim_start_char(s.subrange(lo as int, hi as int), c) == trim_start_char(
                s.subrange(a as int, hi as int),
                c,
            ),
        decreases hi - a,
    {
        proof {
            lemma_sub_drop_first(s, a as int, hi as int);
        }
        a = a + 1;
    }
    a
}

/// `char::is_ascii_hexdigit`.
pub fn is_hex_digit(c: char) -> (b: bool)
    ensures
        b == is_hex(c),
{
    ('0' <= c && c <= '9') || ('a' <= c && c <= 'f') || ('A' <= c && c <= 'F')
}

/// Whether every character of `cs[lo..hi]` is an ASCII hex digit.
pub fn all_hex_in(cs: &[char], lo: usize, hi: usize) -> (b: bool)
    requires
        lo <= hi <= cs@.len(),
    ensures
        b == all_hex(cs@.subrange(lo as int, hi as int)),
{
    let ghost s = cs@.subrange(lo as int, hi as int);
    let mut k = lo;
    while k < hi
        invariant
            lo <= k <= hi <= cs@.len(),
            s == cs@.subrange(lo as int, hi as int),
            forall|t: int| 0 <= t < k - lo ==> is_hex(#[trigger] s[t]),
        decreases hi - k,
    {
        if !is_hex_digit(cs[k]) {
            assert(!is_hex(s[k - lo]));
            return false;
        }
        k = k + 1;
    }
    true
}

/// The ranges within `cs` of `words(cs[lo..hi])`.
pub fn word_ranges(cs: &[char], lo: usize, hi: usize) -> (r: Vec<(usize, usize)>)
    requires
        lo <= hi <= cs@.len(),
    ensures
        ranges_within(r@, lo as int, hi as int),
        range_views(cs@, r@) == words(cs@.subrange(lo as int, hi as int)),
{
    let pieces = split_ranges(cs, lo, hi, Sep::White);
    let ghost all = split_on(cs@.subrange(lo as int, hi as int), Sep::White);
    let mut r: Vec<(usize, usize)> = Vec::new();
    let mut k: usize = 0;
    assert(all.take(0) =~= Seq::<Seq<char>>::empty());
    proof {
        reveal_with_fuel(Seq::filter, 1);
    }
    assert(range_views(cs@, r@) =~= non_empty_only(all.take(0)));
    while k < pieces.len()
        invariant
            k <= pieces@.len(),
            lo <= hi <= cs@.len(),
            range_views(cs@, pieces@) == all,
            ranges_within(pieces@, lo as int, hi as int),
            ranges_within(r@, lo as int, hi as int),
            range_views(cs@, r@) == non_empty_only(all.take(k as int)),
        decreases pieces@.len() - k,
    {
        let (a, b) = pieces[k];
        assert(pieces@[k as int] == (a, b));
        assert(range_views(cs@, pieces@)[k as int] == cs@.subrange(a as int, b as int));
        assert(all[k as int] == cs@.subrange(a as int, b as int));
        assert(all.take(k + 1) == all.take(k as int).push(all[k as int]));
        proof {
            lemma_non_empty_only_push(all.take(k as int), all[k as int]);
        }
        let ghost prev = range_views(cs@, r@);
        if a < b {
            r.push((a, b));
            assert(range_views(cs@, r@) =~= prev.push(cs@.subrange(a as int, b as int)));
        }
        k = k + 1;
    }
    assert(all.take(pieces@.len() as int) == all);
    r
}

/// The ranges within `cs` of `lines(cs[lo..hi])`.
pub fn line_ranges(cs: &[char], lo: usize, hi: usize) -> (r: Vec<(usize, usize)>)
    requires
        lo <= hi <= cs@.len(),
    ensures
        ranges_within(r@, lo as int, hi as int),
        range_views(cs@, r@) == lines(cs@.subrange(lo as int, hi as int)),
{
    let pieces = split_ranges(cs, lo, hi, Sep::Char('\n'));
    let ghost all = split(cs@.subrange(lo as int, hi as int), '\n');
    proof {
        lemma_split_on_nonempty(cs@.subrange(lo as int, hi as int), Sep::Char('\n'));
    }
    let n = pieces.len();
    let mut r: Vec<(usize, usize)> = Vec::new();
    let mut k: usize = 0;
    while k + 1 < n
        invariant
            1 <= n == pieces@.len(),
            k + 1 <= n,
            lo <= hi <= cs@.len(),
            range_views(cs@, pieces@) == all,
            ranges_within(pieces@, lo as int, hi as int),
            ranges_within(r@, lo as int, hi as int),
            range_views(cs@, r@) == strip_cr_all(all.take(k as int)),
        decreases n - k,
    {
        let (a, b) = pieces[k];
        assert(pieces@[k as int] == (a, b));
        assert(range_views(cs@, pieces@)[k as int] == cs@.subrange(a as int, b as int));
        assert(lo <= a <= b <= hi);
        let ghost piece = cs@.subrange(a as int, b as int);
        assert(all.len() == n);
        assert(all.take(k + 1) =~= all.take(k as int).push(all[k as int]));
        assert(all[k as int] == piece);
        let ghost prev = range_views(cs@, r@);
        if a < b && cs[b - 1] == '\r' {
            r.push((a, b - 1));
            assert(cs@.subrange(a as int, b - 1) =~= piece.drop_last());
        } else {
            r.push((a, b));
        }
        assert(range_views(cs@, r@) =~= prev.push(strip_cr(piece)));
        proof {
            lemma_strip_cr_all_push(all.take(k as int), all[k as int]);
        }
        k = k + 1;
    }
    assert(all.take(k as int) =~= all.drop_last());
    let (a, b) = pieces[n - 1];
    assert(pieces@[n - 1] == (a, b));
    assert(range_views(cs@, pieces@)[n - 1] == cs@.subrange(a as int, b as int));
    assert(all.last() == cs@.subrange(a as int, b as int));
    let ghost prev = range_views(cs@, r@);
    if a < b {
        r.push((a, b));
        assert(range_views(cs@, r@) =~= prev.push(cs@.subrange(a as int, b as int)));
    }
    r
}

} // verus!
