use vstd::prelude::*;

verus! {

broadcast use vstd::string::group_string_axioms;

/// The characters that carry the Unicode `White_Space` property, the set that
/// `char::is_whitespace` and `str::trim` use.
pub open spec fn is_ws(c: char) -> bool {
    ||| '\u{9}' <= c <= '\u{d}'
    ||| c == ' '
    ||| c == '\u{85}'
    ||| c == '\u{a0}'
    ||| c == '\u{1680}'
    ||| '\u{2000}' <= c <= '\u{200a}'
    ||| c == '\u{2028}'
    ||| c == '\u{2029}'
    ||| c == '\u{202f}'
    ||| c == '\u{205f}'
    ||| c == '\u{3000}'
}

/// Whether `c` is white space in the sense of `char::is_whitespace`.
pub fn is_whitespace(c: char) -> (b: bool)
    ensures
        b == is_ws(c),
{
    ('\u{9}' <= c && c <= '\u{d}') || c == ' ' || c == '\u{85}' || c == '\u{a0}' || c == '\u{1680}'
        || ('\u{2000}' <= c && c <= '\u{200a}') || c == '\u{2028}' || c == '\u{2029}' || c
        == '\u{202f}' || c == '\u{205f}' || c == '\u{3000}'
}

/// The characters of a string slice, in order.
pub fn to_chars(s: &str) -> (v: Vec<char>)
    ensures
        v@ == s@,
{
    let mut v: Vec<char> = Vec::new();
    for c in it: s.chars()
        invariant
            v@ == it.seq().take(it.index() as int),
    {
        v.push(c);
    }
    v
}

/// The pieces of `s` between the occurrences of `sep`, as `str::split` with a `char`
/// pattern gives them: one more piece than there are separators, empty pieces included.
pub open spec fn split_on(s: Seq<char>, sep: char) -> Seq<Seq<char>>
    decreases s.len(),
{
    if s.len() == 0 {
        seq![Seq::<char>::empty()]
    } else {
        let prev = split_on(s.drop_last(), sep);
        if s.last() == sep {
            prev.push(Seq::<char>::empty())
        } else {
            prev.update(prev.len() - 1, prev.last().push(s.last()))
        }
    }
}

/// `s` without its leading white space.
pub open spec fn trim_start(s: Seq<char>) -> Seq<char>
    decreases s.len(),
{
    if s.len() > 0 && is_ws(s[0]) {
        trim_start(s.drop_first())
    } else {
        s
    }
}

/// `s` without its trailing white space.
pub open spec fn trim_end(s: Seq<char>) -> Seq<char>
    decreases s.len(),
{
    if s.len() > 0 && is_ws(s.last()) {
        trim_end(s.drop_last())
    } else {
        s
    }
}

/// `s` without leading and trailing white space, as `str::trim` gives it.
pub open spec fn trim(s: Seq<char>) -> Seq<char> {
    trim_end(trim_start(s))
}

/// `sep` does not occur in `s[lo..hi]`.
pub open spec fn free_of(s: Seq<char>, lo: int, hi: int, sep: char) -> bool {
    forall|k: int| lo <= k < hi ==> s[k] != sep
}

pub proof fn lemma_split_nonempty(s: Seq<char>, sep: char)
    ensures
        split_on(s, sep).len() >= 1,
    decreases s.len(),
{
    if s.len() > 0 {
        lemma_split_nonempty(s.drop_last(), sep);
    }
}

pub proof fn lemma_split_len(s: Seq<char>, sep: char)
    ensures
        1 <= split_on(s, sep).len() <= s.len() + 1,
    decreases s.len(),
{
    if s.len() > 0 {
        lemma_split_len(s.drop_last(), sep);
    }
}

/// Characters other than the separator extend the last piece.
pub proof fn lemma_split_extend(s: Seq<char>, sep: char, start: int, k: int)
    requires
        0 <= start <= k <= s.len(),
        free_of(s, start, k, sep),
    ensures
        split_on(s.take(k), sep).len() == split_on(s.take(start), sep).len(),
        split_on(s.take(k), sep) == split_on(s.take(start), sep).update(
            split_on(s.take(start), sep).len() - 1,
            split_on(s.take(start), sep).last() + s.subrange(start, k),
        ),
    decreases k - start,
{
    lemma_split_nonempty(s.take(start), sep);
    if k == start {
        assert(s.subrange(start, k) =~= Seq::<char>::empty());
        assert(split_on(s.take(start), sep).last() + s.subrange(start, k) =~= split_on(
            s.take(start),
            sep,
        ).last());
        assert(split_on(s.take(start), sep).update(
            split_on(s.take(start), sep).len() - 1,
            split_on(s.take(start), sep).last(),
        ) =~= split_on(s.take(start), sep));
    } else {
        lemma_split_extend(s, sep, start, k - 1);
        assert(s.take(k).drop_last() =~= s.take(k - 1));
        assert(s.take(k).last() == s[k - 1]);
        assert(s.subrange(start, k) =~= s.subrange(start, k - 1).push(s[k - 1]));
        let prev = split_on(s.take(k - 1), sep);
        let base = split_on(s.take(start), sep);
        assert(prev.last() == base.last() + s.subrange(start, k - 1));
        assert(prev.last().push(s[k - 1]) =~= base.last() + s.subrange(start, k));
        assert(split_on(s.take(k), sep) =~= base.update(
            base.len() - 1,
            base.last() + s.subrange(start, k),
        ));
    }
}

/// A separator closes the last piece and opens an empty one.
pub proof fn lemma_split_sep(s: Seq<char>, sep: char, k: int)
    requires
        0 <= k < s.len(),
        s[k] == sep,
    ensures
        split_on(s.take(k + 1), sep) == split_on(s.take(k), sep).push(Seq::<char>::empty()),
{
    assert(s.take(k + 1).drop_last() =~= s.take(k));
}

/// The complete pieces of a prefix are pieces of the whole.
pub proof fn lemma_split_prefix(s: Seq<char>, sep: char, i: int)
    requires
        0 <= i <= s.len(),
    ensures
        split_on(s.take(i), sep).len() <= split_on(s, sep).len(),
        forall|r: int|
            0 <= r < split_on(s.take(i), sep).len() - 1 ==> (#[trigger] split_on(s, sep)[r])
                == split_on(s.take(i), sep)[r],
    decreases s.len() - i,
{
    if i == s.len() {
        assert(s.take(i) =~= s);
    } else {
        lemma_split_prefix(s, sep, i + 1);
        lemma_split_nonempty(s.take(i), sep);
        assert(s.take(i + 1).drop_last() =~= s.take(i));
    }
}

/// Bounds `(a, b)` with `s[a..b]` the trimmed `s[lo..hi]`.
pub fn trim_range(s: &Vec<char>, lo: usize, hi: usize) -> (r: (usize, usize))
    requires
        lo <= hi <= s.len(),
    ensures
        lo <= r.0 <= r.1 <= hi,
        s@.subrange(r.0 as int, r.1 as int) == trim(s@.subrange(lo as int, hi as int)),
{
    let mut a = lo;
    while a < hi && is_whitespace(s[a])
        invariant
            lo <= a <= hi <= s.len(),
            trim_start(s@.subrange(lo as int, hi as int)) == trim_start(
                s@.subrange(a as int, hi as int),
            ),
        decreases hi - a,
    {
        assert(s@.subrange(a as int, hi as int).drop_first() =~= s@.subrange(a + 1, hi as int));
        a = a + 1;
    }
    assert(trim_start(s@.subrange(a as int, hi as int)) == s@.subrange(a as int, hi as int));
    let mut b = hi;
    while b > a && is_whitespace(s[b - 1])
        invariant
            lo <= a <= b <= hi <= s.len(),
            trim_end(s@.subrange(a as int, hi as int)) == trim_end(s@.subrange(a as int, b as int)),
        decreases b - a,
    {
        assert(s@.subrange(a as int, b as int).drop_last() =~= s@.subrange(a as int, b - 1));
        b = b - 1;
    }
    assert(trim_end(s@.subrange(a as int, b as int)) == s@.subrange(a as int, b as int));
    (a, b)
}

// ------------------------------------------------------------------------------------------
// Building strings
// ------------------------------------------------------------------------------------------

/// Appends a character to a string by `String::push`. Trusted, not proved: the contract
/// claims what the documentation of `String::push` says, that `c` is added at the end and
/// nothing else changes.
#[verifier::external_body]
fn push_char(s: &mut String, c: char)
    ensures
        final(s)@ == old(s)@.push(c),
{
    s.push(c);
}

/// The string made of `v[lo..hi]`.
pub fn string_of(v: &Vec<char>, lo: usize, hi: usize) -> (s: String)
    requires
        lo <= hi <= v.len(),
    ensures
        s@ == v@.subrange(lo as int, hi as int),
{
    let mut s = String::new();
    let mut i = lo;
    while i < hi
        invariant
            lo <= i <= hi <= v.len(),
            s@ == v@.subrange(lo as int, i as int),
        decreases hi - i,
    {
        push_char(&mut s, v[i]);
        assert(v@.subrange(lo as int, i + 1) =~= v@.subrange(lo as int, i as int).push(v@[i as int]));
        i = i + 1;
    }
    s
}

/// The views of a sequence of strings.
pub open spec fn views(v: Seq<String>) -> Seq<Seq<char>> {
    v.map_values(|x: String| x@)
}

// ------------------------------------------------------------------------------------------
// Searching for a pattern
// ------------------------------------------------------------------------------------------

/// `p` occurs in `s` at index `i`.
pub open spec fn matches_at(s: Seq<char>, p: Seq<char>, i: int) -> bool {
    0 <= i && i + p.len() <= s.len() && s.subrange(i, i + p.len()) == p
}

/// The first index at or after `i` where `p` occurs in `s`, or -1 when there is none.
pub open spec fn find_from(s: Seq<char>, p: Seq<char>, i: int) -> int
    decreases s.len() + 1 - i,
{
    if i < 0 || i + p.len() > s.len() {
        -1
    } else if s.subrange(i, i + p.len()) == p {
        i
    } else {
        find_from(s, p, i + 1)
    }
}

/// `p` occurs somewhere in `s`, as `str::contains` asks.
pub open spec fn contains_pat(s: Seq<char>, p: Seq<char>) -> bool {
    exists|i: int| matches_at(s, p, i)
}

pub proof fn lemma_find_from(s: Seq<char>, p: Seq<char>, i: int)
    requires
        0 <= i,
    ensures
        find_from(s, p, i) == -1 || (i <= find_from(s, p, i) && matches_at(s, p, find_from(s, p, i))),
        forall|j: int| i <= j && (find_from(s, p, i) == -1 || j < find_from(s, p, i)) ==> !matches_at(s, p, j),
    decreases s.len() + 1 - i,
{
    if i + p.len() > s.len() {
    } else if s.subrange(i, i + p.len()) == p {
    } else {
        lemma_find_from(s, p, i + 1);
    }
}

/// The first index at or after `from` where `p` occurs in `s`.
pub fn find_pat(s: &Vec<char>, p: &Vec<char>, from: usize) -> (r: Option<usize>)
    ensures
        match r {
            Some(i) => find_from(s@, p@, from as int) == i,
            None => find_from(s@, p@, from as int) == -1,
        },
{
    if p.len() > s.len() {
        proof {
            lemma_find_from(s@, p@, from as int);
        }
        return None;
    }
    if p.len() == 0 {
        if from <= s.len() {
            assert(s@.subrange(from as int, from as int) =~= p@);
            return Some(from);
        }
        return None;
    }
    let last = s.len() - p.len();
    let mut i = from;
    while i <= last
        invariant
            from <= i,
            last == s.len() - p.len(),
            1 <= p.len() <= s.len(),
            find_from(s@, p@, from as int) == find_from(s@, p@, i as int),
        decreases last + 1 - i,
    {
        let mut k: usize = 0;
        let mut same = true;
        assert(s@.subrange(i as int, i as int) =~= p@.take(0));
        while k < p.len()
            invariant
                i <= last,
                last == s.len() - p.len(),
                k <= p.len(),
                same == (s@.subrange(i as int, i + k) == p@.take(k as int)),
            decreases p.len() - k,
        {
            if s[i + k] != p[k] {
                same = false;
                assert(s@.subrange(i as int, i + k + 1)[k as int] != p@.take(k + 1)[k as int]);
                assert(s@.subrange(i as int, (i + p.len()) as int)[k as int] != p@[k as int]);
                k = p.len();
                assert(s@.subrange(i as int, i + k) != p@.take(k as int));
            } else {
                if same {
                    assert(s@.subrange(i as int, i + k + 1) =~= p@.take(k + 1));
                } else {
                    assert(s@.subrange(i as int, i + k + 1) != p@.take(k + 1)) by {
                        assert(s@.subrange(i as int, i + k + 1).take(k as int) =~= s@.subrange(i as int, i + k));
                        assert(p@.take(k + 1).take(k as int) =~= p@.take(k as int));
                    }
                }
                k = k + 1;
            }
        }
        assert(p@.take(p.len() as int) =~= p@);
        if same {
            return Some(i);
        }
        i = i + 1;
    }
    None
}

/// Whether `p` occurs in `s`.
pub fn contains(s: &Vec<char>, p: &Vec<char>) -> (b: bool)
    ensures
        b == contains_pat(s@, p@),
{
    let r = find_pat(s, p, 0);
    proof {
        lemma_find_from(s@, p@, 0);
    }
    r.is_some()
}

// ------------------------------------------------------------------------------------------
// Splitting at a pattern
// ------------------------------------------------------------------------------------------

/// The pieces of `s[start..]` between the occurrences of `p`, as `str::split` with a
/// non-empty string pattern gives them.
pub open spec fn split_from(s: Seq<char>, p: Seq<char>, start: int) -> Seq<Seq<char>>
    decreases s.len() + 1 - start,
{
    if 0 <= start <= s.len() && p.len() > 0 {
        let r = find_from(s, p, start);
        if r >= 0 {
            proof {
                lemma_find_from(s, p, start);
            }
            seq![s.subrange(start, r)] + split_from(s, p, r + p.len())
        } else {
            seq![s.subrange(start, s.len() as int)]
        }
    } else {
        seq![s.subrange(start, s.len() as int)]
    }
}

/// The pieces of `s` between the occurrences of `p`.
pub open spec fn split_pat(s: Seq<char>, p: Seq<char>) -> Seq<Seq<char>> {
    split_from(s, p, 0)
}

pub proof fn lemma_split_from_nonempty(s: Seq<char>, p: Seq<char>, start: int)
    ensures
        split_from(s, p, start).len() >= 1,
    decreases s.len() + 1 - start,
{
    if 0 <= start <= s.len() && p.len() > 0 {
        lemma_find_from(s, p, start);
        let r = find_from(s, p, start);
        if r >= 0 {
            lemma_split_from_nonempty(s, p, r + p.len());
        }
    }
}

/// A pattern that occurs splits a text into at least two pieces.
pub proof fn lemma_split_pat_contains(s: Seq<char>, p: Seq<char>)
    requires
        p.len() > 0,
        contains_pat(s, p),
    ensures
        split_pat(s, p).len() >= 2,
{
    lemma_find_from(s, p, 0);
    let r = find_from(s, p, 0);
    assert(r >= 0);
    lemma_split_from_nonempty(s, p, r + p.len());
}

/// Splits `s` at every occurrence of the non-empty pattern `p`.
pub fn split(s: &Vec<char>, p: &Vec<char>) -> (pieces: Vec<String>)
    requires
        p.len() > 0,
    ensures
        views(pieces@) == split_pat(s@, p@),
{
    let mut pieces: Vec<String> = Vec::new();
    let mut start: usize = 0;
    loop
        invariant
            start <= s.len(),
            p.len() > 0,
            views(pieces@) + split_from(s@, p@, start as int) == split_pat(s@, p@),
        decreases s.len() - start,
    {
        let r = find_pat(s, p, start);
        proof {
            lemma_find_from(s@, p@, start as int);
        }
        match r {
            Some(i) => {
                let piece = string_of(s, start, i);
                let ghost before = pieces@;
                pieces.push(piece);
                assert(views(pieces@) =~= views(before).push(piece@));
                assert(views(pieces@) + split_from(s@, p@, (i + p.len()) as int) =~= views(before)
                    + split_from(s@, p@, start as int));
                start = i + p.len();
            },
            None => {
                let piece = string_of(s, start, s.len());
                let ghost before = pieces@;
                pieces.push(piece);
                assert(views(pieces@) =~= views(before) + split_from(s@, p@, start as int));
                return pieces;
            },
        }
    }
}

// ------------------------------------------------------------------------------------------
// Fields between separators
// ------------------------------------------------------------------------------------------

/// Which characters separate fields.
#[derive(Debug, Clone, Copy, PartialEq, Eq, Structural)]
pub enum Separators {
    /// White space, as `str::split_whitespace` uses it.
    Whitespace,
    /// The delimiters of a request line: `/`, a blank and a carriage return.
    RequestDelimiters,
}

pub open spec fn is_sep(k: Separators, c: char) -> bool {
    match k {
        Separators::Whitespace => is_ws(c),
        Separators::RequestDelimiters => c == '/' || c == ' ' || c == '\r',
    }
}

/// The non-empty runs of non-separator characters of `s`, in order: what splitting at
/// every separator and dropping the empty pieces gives.
pub open spec fn fields(s: Seq<char>, k: Separators) -> Seq<Seq<char>>
    decreases s.len(),
{
    if s.len() == 0 {
        seq![]
    } else {
        let prev = fields(s.drop_last(), k);
        let c = s.last();
        if is_sep(k, c) {
            prev
        } else if s.len() >= 2 && !is_sep(k, s[s.len() - 2]) {
            prev.update(prev.len() - 1, prev.last().push(c))
        } else {
            prev.push(seq![c])
        }
    }
}

pub fn is_separator(k: Separators, c: char) -> (b: bool)
    ensures
        b == is_sep(k, c),
{
    match k {
        Separators::Whitespace => is_whitespace(c),
        Separators::RequestDelimiters => c == '/' || c == ' ' || c == '\r',
    }
}

/// The fields of `s`.
pub fn split_fields(s: &Vec<char>, k: Separators) -> (out: Vec<String>)
    ensures
        views(out@) == fields(s@, k),
{
    let mut out: Vec<String> = Vec::new();
    let mut in_field = false;
    let mut field_start: usize = 0;
    let mut i: usize = 0;
    assert(s@.take(0) =~= Seq::<char>::empty());
    while i < s.len()
        invariant
            i <= s.len(),
            field_start <= i,
            in_field ==> field_start < i && s@.subrange(field_start as int, i as int).len() > 0,
            in_field <==> (i > 0 && !is_sep(k, s@[i - 1])),
            in_field ==> fields(s@.take(i as int), k) == views(out@).push(s@.subrange(field_start as int, i as int)),
            !in_field ==> fields(s@.take(i as int), k) == views(out@),
        decreases s.len() - i,
    {
        let c = s[i];
        let ghost t = s@.take(i + 1);
        assert(t.drop_last() =~= s@.take(i as int));
        assert(t.last() == c);
        if is_separator(k, c) {
            if in_field {
                let piece = string_of(s, field_start, i);
                let ghost before = out@;
                out.push(piece);
                assert(views(out@) =~= views(before).push(piece@));
            }
            in_field = false;
        } else {
            if in_field {
                assert(t[t.len() - 2] == s@[i - 1]);
                assert(s@.subrange(field_start as int, i + 1) =~= s@.subrange(field_start as int, i as int).push(c));
                assert(fields(t, k) =~= views(out@).push(s@.subrange(field_start as int, i + 1)));
            } else {
                field_start = i;
                assert(s@.subrange(field_start as int, i + 1) =~= seq![c]);
            }
            in_field = true;
        }
        i = i + 1;
    }
    assert(s@.take(s.len() as int) =~= s@);
    if in_field {
        let piece = string_of(s, field_start, s.len());
        let ghost before = out@;
        out.push(piece);
        assert(views(out@) =~= views(before).push(piece@));
    }
    out
}

// ------------------------------------------------------------------------------------------
// Lines
// ------------------------------------------------------------------------------------------

/// A line without a carriage return at its end.
pub open spec fn strip_cr(l: Seq<char>) -> Seq<char> {
    if l.len() > 0 && l.last() == '\r' {
        l.drop_last()
    } else {
        l
    }
}

/// The lines of a text, as `str::lines` and `BufRead::lines` give them: the pieces between
/// line feeds, each ended by a line feed losing a carriage return at its end, and no empty
/// last line after a final line feed.
pub open spec fn lines_of(s: Seq<char>) -> Seq<Seq<char>> {
    if s.len() == 0 {
        seq![]
    } else {
        let pieces = split_on(s, '\n');
        let ended = pieces.drop_last().map_values(|l: Seq<char>| strip_cr(l));
        if s.last() == '\n' {
            ended
        } else {
            ended.push(pieces.last())
        }
    }
}

/// The string of `s[lo..hi]` without a carriage return at its end.
fn line_string(s: &Vec<char>, lo: usize, hi: usize) -> (l: String)
    requires
        lo <= hi <= s.len(),
    ensures
        l@ == strip_cr(s@.subrange(lo as int, hi as int)),
{
    if hi > lo && s[hi - 1] == '\r' {
        assert(s@.subrange(lo as int, hi as int).drop_last() =~= s@.subrange(lo as int, hi - 1));
        string_of(s, lo, hi - 1)
    } else {
        string_of(s, lo, hi)
    }
}

/// The lines of a text.
pub fn lines(s: &Vec<char>) -> (out: Vec<String>)
    ensures
        views(out@) == lines_of(s@),
{
    let mut out: Vec<String> = Vec::new();
    let ghost mut raw: Seq<Seq<char>> = Seq::empty();
    let mut start: usize = 0;
    let mut i: usize = 0;
    assert(s@.take(0) =~= Seq::<char>::empty());
    while i < s.len()
        invariant
            start <= i <= s.len(),
            split_on(s@.take(i as int), '\n') == raw.push(s@.subrange(start as int, i as int)),
            views(out@) == raw.map_values(|l: Seq<char>| strip_cr(l)),
            i > 0 && s@[i - 1] == '\n' ==> start == i,
            start > 0 ==> s@[start - 1] == '\n',
        decreases s.len() - i,
    {
        let ghost t = s@.take(i + 1);
        assert(t.drop_last() =~= s@.take(i as int));
        if s[i] == '\n' {
            let l = line_string(s, start, i);
            let ghost before = out@;
            let ghost old_raw = raw;
            proof {
                raw = raw.push(s@.subrange(start as int, i as int));
            }
            out.push(l);
            assert(views(out@) =~= views(before).push(l@));
            assert(raw.map_values(|l: Seq<char>| strip_cr(l)) =~= old_raw.map_values(|l: Seq<char>| strip_cr(l)).push(l@));
            start = i + 1;
            assert(s@.subrange(start as int, i + 1) =~= Seq::<char>::empty());
        } else {
            assert(s@.subrange(start as int, i + 1) =~= s@.subrange(start as int, i as int).push(s@[i as int]));
        }
        i = i + 1;
    }
    assert(s@.take(s.len() as int) =~= s@);
    if start < s.len() {
        let l = string_of(s, start, s.len());
        let ghost before = out@;
        out.push(l);
        assert(views(out@) =~= views(before).push(l@));
        assert(split_on(s@, '\n').drop_last() =~= raw);
    } else {
        if s.len() > 0 {
            assert(split_on(s@, '\n').drop_last() =~= raw);
        } else {
            assert(raw.map_values(|l: Seq<char>| strip_cr(l)) =~= Seq::<Seq<char>>::empty()) by {
                lemma_split_len(s@, '\n');
            }
        }
    }
    out
}

// ------------------------------------------------------------------------------------------
// Removing a character, reading a number
// ------------------------------------------------------------------------------------------

/// The characters other than `c`.
pub open spec fn other_than(c: char) -> spec_fn(char) -> bool {
    |x: char| x != c
}

/// `s` without any occurrence of `c`, as `str::replace(c, "")` gives it.
pub open spec fn without_char(s: Seq<char>, c: char) -> Seq<char> {
    s.filter(other_than(c))
}

/// `s` without any occurrence of `c`.
pub fn remove_char(s: &Vec<char>, c: char) -> (out: String)
    ensures
        out@ == without_char(s@, c),
{
    let mut out = String::new();
    let mut i: usize = 0;
    assert(s@.take(0) =~= Seq::<char>::empty());
    while i < s.len()
        invariant
            i <= s.len(),
            out@ == without_char(s@.take(i as int), c),
        decreases s.len() - i,
    {
        let ghost t = s@.take(i + 1);
        assert(t =~= s@.take(i as int).push(s@[i as int]));
        proof {
            s@.take(i as int).lemma_filter_push(s@[i as int], other_than(c));
        }
        if s[i] != c {
            push_char(&mut out, s[i]);
        }
        i = i + 1;
    }
    assert(s@.take(s.len() as int) =~= s@);
    out
}

/// The value of a string of decimal digits.
pub open spec fn digits_value(s: Seq<char>) -> int
    decreases s.len(),
{
    if s.len() == 0 {
        0
    } else {
        digits_value(s.drop_last()) * 10 + (s.last() as int - '0' as int)
    }
}

pub open spec fn all_digits(s: Seq<char>) -> bool {
    forall|i: int| 0 <= i < s.len() ==> '0' <= #[trigger] s[i] <= '9'
}

/// The digits of an unsigned number: the text after an optional leading `+`.
pub open spec fn unsigned_digits(s: Seq<char>) -> Seq<char> {
    if s.len() > 0 && s[0] == '+' {
        s.drop_first()
    } else {
        s
    }
}

/// What `str::parse::<usize>` gives: a number for an optional `+` followed by at least
/// one decimal digit and nothing else, whose value fits a `usize`.
pub open spec fn parsed_usize(s: Seq<char>) -> Option<usize> {
    let d = unsigned_digits(s);
    if d.len() > 0 && all_digits(d) && digits_value(d) <= usize::MAX {
        Some(digits_value(d) as usize)
    } else {
        None
    }
}

proof fn lemma_digits_nonneg(s: Seq<char>)
    requires
        all_digits(s),
    ensures
        0 <= digits_value(s),
    decreases s.len(),
{
    if s.len() > 0 {
        lemma_digits_nonneg(s.drop_last());
        assert('0' <= s[s.len() - 1] <= '9');
    }
}

proof fn lemma_digits_monotone(s: Seq<char>, i: int)
    requires
        0 <= i <= s.len(),
        all_digits(s),
    ensures
        0 <= digits_value(s.take(i)) <= digits_value(s),
    decreases s.len(),
{
    if i == s.len() {
        assert(s.take(i) =~= s);
        lemma_digits_nonneg(s);
    } else {
        lemma_digits_monotone(s.drop_last(), i);
        assert(s.drop_last().take(i) =~= s.take(i));
        assert('0' <= s[s.len() - 1] <= '9');
    }
}

/// Reads an unsigned number.
pub fn parse_usize(s: &Vec<char>) -> (r: Option<usize>)
    ensures
        r == parsed_usize(s@),
{
    let mut i: usize = 0;
    if s.len() > 0 && s[0] == '+' {
        i = 1;
    }
    let ghost d = unsigned_digits(s@);
    assert(d =~= s@.subrange(i as int, s.len() as int));
    if i == s.len() {
        assert(d.len() == 0);
        return None;
    }
    let start = i;
    let mut value: usize = 0;
    assert(d.take(0) =~= Seq::<char>::empty());
    while i < s.len()
        invariant
            start <= i <= s.len(),
            d == s@.subrange(start as int, s.len() as int),
            d == unsigned_digits(s@),
            all_digits(d.take(i - start)),
            value == digits_value(d.take(i - start)),
        decreases s.len() - i,
    {
        let c = s[i];
        assert(d.take(i - start + 1).drop_last() =~= d.take(i - start));
        assert(d.take(i - start + 1).last() == c);
        if c < '0' || c > '9' {
            assert(d[i - start] == c);
            assert(!all_digits(d));
            assert(parsed_usize(s@) == None::<usize>);
            return None;
        }
        let digit = (c as u32 - '0' as u32) as usize;
        assert(digit == c as int - '0' as int);
        match value.checked_mul(10) {
            Some(v) => match v.checked_add(digit) {
                Some(w) => {
                    value = w;
                },
                None => {
                    proof {
                        assert(d[i - start] == c);
                        assert(all_digits(d.take(i - start + 1)));
                        assert(digits_value(d.take(i - start + 1)) == value * 10 + digit);
                        if all_digits(d) {
                            lemma_digits_monotone(d, i - start + 1);
                        }
                        assert(parsed_usize(s@) == None::<usize>);
                    }
                    return None;
                },
            },
            None => {
                proof {
                    assert(d[i - start] == c);
                    assert(all_digits(d.take(i - start + 1)));
                    assert(digits_value(d.take(i - start + 1)) == value * 10 + digit);
                    if all_digits(d) {
                        lemma_digits_monotone(d, i - start + 1);
                    }
                }
                return None;
            },
        }
        i = i + 1;
    }
    assert(d.take(s.len() - start) =~= d);
    Some(value)
}

/// `s` without its last character, as `String::pop` leaves it; an empty string stays empty.
pub open spec fn popped(s: Seq<char>) -> Seq<char> {
    if s.len() > 0 {
        s.drop_last()
    } else {
        s
    }
}

/// A line read from the terminal without its last character (the line feed).
pub fn chomp(s: &String) -> (r: String)
    ensures
        r@ == popped(s@),
{
    let chars = to_chars(s.as_str());
    if chars.len() > 0 {
        string_of(&chars, 0, chars.len() - 1)
    } else {
        assert(chars@.subrange(0, 0) =~= chars@);
        string_of(&chars, 0, 0)
    }
}

// ------------------------------------------------------------------------------------------
// Laws of splitting
// ------------------------------------------------------------------------------------------

/// The pieces joined back together, with `p` between each two.
pub open spec fn join(pieces: Seq<Seq<char>>, p: Seq<char>) -> Seq<char>
    decreases pieces.len(),
{
    if pieces.len() == 0 {
        seq![]
    } else if pieces.len() == 1 {
        pieces[0]
    } else {
        pieces[0] + p + join(pieces.drop_first(), p)
    }
}

proof fn lemma_join_from(s: Seq<char>, p: Seq<char>, start: int)
    requires
        p.len() > 0,
        0 <= start <= s.len(),
    ensures
        join(split_from(s, p, start), p) == s.subrange(start, s.len() as int),
    decreases s.len() + 1 - start,
{
    lemma_find_from(s, p, start);
    let r = find_from(s, p, start);
    if r >= 0 {
        lemma_join_from(s, p, r + p.len());
        lemma_split_from_nonempty(s, p, r + p.len());
        let pieces = split_from(s, p, start);
        assert(pieces.drop_first() =~= split_from(s, p, r + p.len()));
        assert(s.subrange(r, r + p.len()) == p);
        assert(s.subrange(start, s.len() as int) =~= s.subrange(start, r) + p + s.subrange(
            r + p.len(),
            s.len() as int,
        ));
    }
}

/// Splitting loses nothing: the pieces of `s` between the occurrences of `p`, joined back
/// with `p`, give `s`.
pub proof fn law_split_join(s: Seq<char>, p: Seq<char>)
    requires
        p.len() > 0,
    ensures
        join(split_pat(s, p), p) == s,
{
    lemma_join_from(s, p, 0);
    assert(s.subrange(0, s.len() as int) =~= s);
}

/// Fields are never empty and never hold a separator.
pub proof fn law_fields_clean(s: Seq<char>, k: Separators)
    ensures
        forall|i: int| 0 <= i < fields(s, k).len() ==> (#[trigger] fields(s, k)[i]).len() > 0,
        forall|i: int, j: int|
            0 <= i < fields(s, k).len() && 0 <= j < fields(s, k)[i].len() ==> !is_sep(
                k,
                #[trigger] fields(s, k)[i][j],
            ),
    decreases s.len(),
{
    if s.len() > 0 {
        law_fields_clean(s.drop_last(), k);
        lemma_fields_len(s.drop_last(), k);
        let prev = fields(s.drop_last(), k);
        let c = s.last();
        let f = fields(s, k);
        if !is_sep(k, c) {
            if s.len() >= 2 && !is_sep(k, s[s.len() - 2]) {
                assert(s.drop_last().last() == s[s.len() - 2]);
                assert forall|i: int| 0 <= i < f.len() implies (#[trigger] f[i]).len() > 0 && forall|j: int|
                    0 <= j < f[i].len() ==> !is_sep(k, #[trigger] f[i][j]) by {
                    if i == f.len() - 1 {
                        assert(f[i] == prev.last().push(c));
                        assert forall|j: int| 0 <= j < f[i].len() implies !is_sep(k, #[trigger] f[i][j]) by {
                            if j < f[i].len() - 1 {
                                assert(f[i][j] == prev[prev.len() - 1][j]);
                            }
                        }
                    } else {
                        assert(f[i] == prev[i]);
                    }
                }
            } else {
                assert forall|i: int| 0 <= i < f.len() implies (#[trigger] f[i]).len() > 0 && forall|j: int|
                    0 <= j < f[i].len() ==> !is_sep(k, #[trigger] f[i][j]) by {
                    if i < f.len() - 1 {
                        assert(f[i] == prev[i]);
                    }
                }
            }
        }
    }
}

pub proof fn lemma_fields_len(s: Seq<char>, k: Separators)
    ensures
        fields(s, k).len() <= s.len(),
        s.len() > 0 && !is_sep(k, s.last()) ==> fields(s, k).len() >= 1,
    decreases s.len(),
{
    if s.len() > 0 {
        lemma_fields_len(s.drop_last(), k);
        if s.len() >= 2 {
            assert(s.drop_last().last() == s[s.len() - 2]);
        }
    }
}

/// No line holds a line feed.
pub proof fn law_lines_clean(s: Seq<char>)
    ensures
        forall|i: int, j: int|
            0 <= i < lines_of(s).len() && 0 <= j < lines_of(s)[i].len() ==> #[trigger] lines_of(s)[i][j]
                != '\n',
{
    lemma_split_no_sep(s, '\n');
    if s.len() > 0 {
        lemma_split_nonempty(s, '\n');
        let pieces = split_on(s, '\n');
        assert forall|i: int, j: int|
            0 <= i < lines_of(s).len() && 0 <= j < lines_of(s)[i].len() implies #[trigger] lines_of(s)[i][j]
                != '\n' by {
            if i < pieces.len() - 1 {
                assert(lines_of(s)[i] == strip_cr(pieces[i]));
                if pieces[i].len() > 0 && pieces[i].last() == '\r' {
                    assert(lines_of(s)[i][j] == pieces[i][j]);
                }
            } else {
                assert(lines_of(s)[i] == pieces[i]);
            }
        }
    }
}

proof fn lemma_split_no_sep(s: Seq<char>, sep: char)
    ensures
        forall|i: int, j: int|
            0 <= i < split_on(s, sep).len() && 0 <= j < split_on(s, sep)[i].len() ==> #[trigger] split_on(
                s,
                sep,
            )[i][j] != sep,
    decreases s.len(),
{
    if s.len() > 0 {
        lemma_split_no_sep(s.drop_last(), sep);
        lemma_split_nonempty(s.drop_last(), sep);
    }
}

} // verus!
