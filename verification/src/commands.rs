use vstd::prelude::*;

use crate::text::{
    contains, contains_pat, fields, lines, lines_of, parsed_usize, parse_usize, remove_char,
    split_fields, to_chars, views, without_char, Separators,
};

verus! {

broadcast use vstd::string::group_string_axioms;

// ------------------------------------------------------------------------------------------
// order: sorting lines
// ------------------------------------------------------------------------------------------

/// `a` comes no later than `b` in the order of `str`: lexicographic by character, which is
/// the order of their UTF-8 bytes.
pub open spec fn lex_le(a: Seq<char>, b: Seq<char>) -> bool
    decreases a.len(),
{
    if a.len() == 0 {
        true
    } else if b.len() == 0 {
        false
    } else if a[0] != b[0] {
        a[0] < b[0]
    } else {
        lex_le(a.drop_first(), b.drop_first())
    }
}

pub proof fn lemma_lex_total(a: Seq<char>, b: Seq<char>)
    ensures
        lex_le(a, b) || lex_le(b, a),
    decreases a.len(),
{
    if a.len() > 0 && b.len() > 0 && a[0] == b[0] {
        lemma_lex_total(a.drop_first(), b.drop_first());
    }
}

pub proof fn lemma_lex_trans(a: Seq<char>, b: Seq<char>, c: Seq<char>)
    requires
        lex_le(a, b),
        lex_le(b, c),
    ensures
        lex_le(a, c),
    decreases a.len(),
{
    if a.len() > 0 && b.len() > 0 && c.len() > 0 && a[0] == b[0] && b[0] == c[0] {
        lemma_lex_trans(a.drop_first(), b.drop_first(), c.drop_first());
    }
}

pub proof fn lemma_lex_antisym(a: Seq<char>, b: Seq<char>)
    requires
        lex_le(a, b),
        lex_le(b, a),
    ensures
        a == b,
    decreases a.len(),
{
    if a.len() > 0 && b.len() > 0 {
        lemma_lex_antisym(a.drop_first(), b.drop_first());
        assert(a =~= seq![a[0]] + a.drop_first());
        assert(b =~= seq![b[0]] + b.drop_first());
    } else {
        assert(a =~= b);
    }
}

/// Whether `a` comes no later than `b`.
pub fn lex_le_exec(a: &Vec<char>, b: &Vec<char>) -> (r: bool)
    ensures
        r == lex_le(a@, b@),
{
    let mut i: usize = 0;
    assert(a@.skip(0) =~= a@);
    assert(b@.skip(0) =~= b@);
    while i < a.len() && i < b.len() && a[i] == b[i]
        invariant
            i <= a.len(),
            i <= b.len(),
            lex_le(a@, b@) == lex_le(a@.skip(i as int), b@.skip(i as int)),
        decreases a.len() - i,
    {
        assert(a@.skip(i as int).drop_first() =~= a@.skip(i + 1));
        assert(b@.skip(i as int).drop_first() =~= b@.skip(i + 1));
        i = i + 1;
    }
    if i == a.len() {
        true
    } else if i == b.len() {
        false
    } else {
        a[i] < b[i]
    }
}

/// Every element comes no later than every element after it.
pub open spec fn sorted(s: Seq<Seq<char>>) -> bool {
    forall|i: int, j: int| 0 <= i < j < s.len() ==> lex_le(#[trigger] s[i], #[trigger] s[j])
}

/// Every element comes no earlier than every element after it.
pub open spec fn sorted_desc(s: Seq<Seq<char>>) -> bool {
    forall|i: int, j: int| 0 <= i < j < s.len() ==> lex_le(#[trigger] s[j], #[trigger] s[i])
}

/// The lines sorted in the order of `str`, or in the reverse of that order.
pub fn sort_lines(v: Vec<String>, reverse: bool) -> (r: Vec<String>)
    ensures
        views(r@).to_multiset() == views(v@).to_multiset(),
        !reverse ==> sorted(views(r@)),
        reverse ==> sorted_desc(views(r@)),
{
    broadcast use vstd::seq_lib::group_to_multiset_ensures;

    let mut r: Vec<String> = Vec::new();
    let mut k: usize = 0;
    while k < v.len()
        invariant
            k <= v.len(),
            views(r@).to_multiset() == views(v@.take(k as int)).to_multiset(),
            sorted(views(r@)),
        decreases v.len() - k,
    {
        let x = v[k].clone();
        let xc = to_chars(x.as_str());
        let ghost xs = x@;
        let mut p: usize = 0;
        while p < r.len() && lex_le_exec(&to_chars(r[p].as_str()), &xc)
            invariant
                p <= r.len(),
                xc@ == xs,
                forall|j: int| 0 <= j < p ==> lex_le(#[trigger] views(r@)[j], xs),
            decreases r.len() - p,
        {
            p = p + 1;
        }
        let ghost before = views(r@);
        proof {
            if p < r.len() {
                assert(!lex_le(before[p as int], xs));
                lemma_lex_total(before[p as int], xs);
                assert forall|j: int| p <= j < before.len() implies lex_le(xs, #[trigger] before[j]) by {
                    if j > p {
                        lemma_lex_trans(xs, before[p as int], before[j]);
                    }
                }
            }
        }
        r.insert(p, x);
        proof {
            assert(views(r@) =~= before.insert(p as int, xs));
            assert(views(v@.take(k + 1)) =~= views(v@.take(k as int)).push(xs));
            vstd::seq_lib::to_multiset_insert(before, p as int, xs);
            vstd::seq_lib::to_multiset_build(views(v@.take(k as int)), xs);
            assert forall|i: int, j: int| 0 <= i < j < views(r@).len() implies lex_le(
                #[trigger] views(r@)[i],
                #[trigger] views(r@)[j],
            ) by {
                let s = views(r@);
                if i < p && j > p {
                    assert(s[i] == before[i]);
                    assert(s[j] == before[j - 1]);
                } else if i > p {
                    assert(s[i] == before[i - 1]);
                    assert(s[j] == before[j - 1]);
                } else if j < p {
                    assert(s[i] == before[i]);
                    assert(s[j] == before[j]);
                }
            }
        }
        k = k + 1;
    }
    assert(v@.take(v.len() as int) =~= v@);
    if reverse {
        let ghost up = views(r@);
        let mut out: Vec<String> = Vec::new();
        let mut i = r.len();
        while i > 0
            invariant
                i <= r.len(),
                up == views(r@),
                sorted(up),
                views(out@) == up.subrange(i as int, up.len() as int).reverse(),
            decreases i,
        {
            i = i - 1;
            let ghost before = views(out@);
            out.push(r[i].clone());
            assert(views(out@) =~= before.push(up[i as int]));
            assert(up.subrange(i as int, up.len() as int).reverse() =~= up.subrange(
                i + 1,
                up.len() as int,
            ).reverse().push(up[i as int]));
        }
        proof {
            assert(up.subrange(0, up.len() as int) =~= up);
            up.lemma_reverse_to_multiset();
            let d = views(out@);
            assert forall|a: int, b: int| 0 <= a < b < d.len() implies lex_le(#[trigger] d[b], #[trigger] d[a]) by {
                assert(d[a] == up[up.len() - 1 - a]);
                assert(d[b] == up[up.len() - 1 - b]);
            }
        }
        out
    } else {
        r
    }
}

/// Where the options of `order` end: the first argument is the reverse flag when it holds
/// `-r`.
pub open spec fn order_reverse(args: Seq<String>) -> bool {
    contains_pat(args[0]@, "-r"@)
}

/// Reads the arguments of `order` (without the program's name): whether the lines go in
/// reverse order, and the index of the first file.
pub fn order_options(args: &Vec<String>) -> (r: (bool, usize))
    requires
        args.len() >= 1,
    ensures
        r.0 == order_reverse(args@),
        r.1 == if r.0 {
            1usize
        } else {
            0usize
        },
{
    let first = to_chars(args[0].as_str());
    let flag = to_chars("-r");
    if contains(&first, &flag) {
        (true, 1)
    } else {
        (false, 0)
    }
}

// ------------------------------------------------------------------------------------------
// counter: words, characters and lines
// ------------------------------------------------------------------------------------------

/// Bytes of the UTF-8 encoding of a character, as `char::len_utf8` gives them.
pub open spec fn utf8_len(c: char) -> nat {
    if (c as u32) < 0x80 {
        1
    } else if (c as u32) < 0x800 {
        2
    } else if (c as u32) < 0x10000 {
        3
    } else {
        4
    }
}

/// Bytes of the UTF-8 encoding of a text: what `str::len` gives.
pub open spec fn byte_len(s: Seq<char>) -> nat
    decreases s.len(),
{
    if s.len() == 0 {
        0
    } else {
        byte_len(s.drop_last()) + utf8_len(s.last())
    }
}

/// Words of the lines: the fields between white space, line by line.
pub open spec fn words_in(ls: Seq<Seq<char>>) -> nat
    decreases ls.len(),
{
    if ls.len() == 0 {
        0
    } else {
        words_in(ls.drop_last()) + fields(ls.last(), Separators::Whitespace).len()
    }
}

/// Characters of the lines as `counter` counts them: the bytes of each line and one for
/// its line feed.
pub open spec fn chars_in(ls: Seq<Seq<char>>) -> nat
    decreases ls.len(),
{
    if ls.len() == 0 {
        0
    } else {
        chars_in(ls.drop_last()) + byte_len(ls.last()) + 1
    }
}

/// What `counter` counts in a file.
#[derive(Debug, Clone, Copy, PartialEq, Eq, Structural)]
pub struct Counts {
    pub words: usize,
    pub chars: usize,
    pub lines: usize,
}

proof fn lemma_byte_len(s: Seq<char>)
    ensures
        s.len() <= byte_len(s),
    decreases s.len(),
{
    if s.len() > 0 {
        lemma_byte_len(s.drop_last());
    }
}

/// A text has no more words than characters, and no more lines than characters: words
/// and line count together never exceed the character count.
pub proof fn law_counts_bounded(ls: Seq<Seq<char>>)
    ensures
        words_in(ls) + ls.len() <= chars_in(ls),
    decreases ls.len(),
{
    if ls.len() > 0 {
        law_counts_bounded(ls.drop_last());
        crate::text::lemma_fields_len(ls.last(), Separators::Whitespace);
        lemma_byte_len(ls.last());
    }
}

proof fn lemma_counts_prefix(ls: Seq<Seq<char>>, k: int)
    requires
        0 <= k <= ls.len(),
    ensures
        chars_in(ls.take(k)) <= chars_in(ls),
    decreases ls.len(),
{
    if k < ls.len() {
        lemma_counts_prefix(ls.drop_last(), k);
        assert(ls.drop_last().take(k) =~= ls.take(k));
    } else {
        assert(ls.take(k) =~= ls);
    }
}

/// Bytes of the UTF-8 encoding of `c`.
fn char_bytes(c: char) -> (n: usize)
    ensures
        n == utf8_len(c),
{
    let u = c as u32;
    if u < 0x80 {
        1
    } else if u < 0x800 {
        2
    } else if u < 0x10000 {
        3
    } else {
        4
    }
}

/// Words, characters and lines of a file's text: the lines as `BufRead::lines` reads them;
/// the words of each line between white space; for the characters, the bytes of each line
/// and one for its line feed.
pub fn count(content: &String) -> (c: Counts)
    requires
        chars_in(lines_of(content@)) <= usize::MAX,
    ensures
        c.lines == lines_of(content@).len(),
        c.words == words_in(lines_of(content@)),
        c.chars == chars_in(lines_of(content@)),
{
    let chars = to_chars(content.as_str());
    let ls = lines(&chars);
    let ghost all = lines_of(content@);
    let mut words: usize = 0;
    let mut total: usize = 0;
    let mut k: usize = 0;
    assert(all.take(0) =~= Seq::<Seq<char>>::empty());
    while k < ls.len()
        invariant
            k <= ls.len(),
            all == views(ls@),
            chars_in(all) <= usize::MAX,
            words == words_in(all.take(k as int)),
            total == chars_in(all.take(k as int)),
        decreases ls.len() - k,
    {
        let line = to_chars(ls[k].as_str());
        assert(all.take(k + 1).drop_last() =~= all.take(k as int));
        assert(all.take(k + 1).last() == line@);
        proof {
            lemma_counts_prefix(all, k + 1);
            law_counts_bounded(all.take(k + 1));
        }
        let n_words = split_fields(&line, Separators::Whitespace).len();
        words = words + n_words;
        let mut bytes: usize = 0;
        let mut i: usize = 0;
        assert(line@.take(0) =~= Seq::<char>::empty());
        while i < line.len()
            invariant
                i <= line.len(),
                bytes == byte_len(line@.take(i as int)),
                byte_len(line@) + total + 1 <= usize::MAX,
                total == chars_in(all.take(k as int)),
            decreases line.len() - i,
        {
            assert(line@.take(i + 1).drop_last() =~= line@.take(i as int));
            proof {
                lemma_byte_prefix(line@, i + 1);
            }
            bytes = bytes + char_bytes(line[i]);
            i = i + 1;
        }
        assert(line@.take(line.len() as int) =~= line@);
        total = total + bytes + 1;
        k = k + 1;
    }
    assert(all.take(ls.len() as int) =~= all);
    Counts { words, chars: total, lines: ls.len() }
}

proof fn lemma_byte_prefix(s: Seq<char>, k: int)
    requires
        0 <= k <= s.len(),
    ensures
        byte_len(s.take(k)) <= byte_len(s),
    decreases s.len(),
{
    if k < s.len() {
        lemma_byte_prefix(s.drop_last(), k);
        assert(s.drop_last().take(k) =~= s.take(k));
    } else {
        assert(s.take(k) =~= s);
    }
}

/// Which counts `counter` shows, and where its files start among its arguments.
#[derive(Debug, Clone, Copy, PartialEq, Eq, Structural)]
pub struct CounterOptions {
    pub words: bool,
    pub lines: bool,
    pub chars: bool,
    pub first_file: usize,
}

/// The first argument begins with a dash.
pub open spec fn has_flag(args: Seq<String>) -> bool {
    args.len() > 0 && args[0]@.len() > 0 && args[0]@[0] == '-'
}

/// Reads the arguments of `counter` (without the program's name): when the first begins
/// with a dash, the letters `w`, `l` and `c` after it choose words, lines and characters,
/// and the files follow it; a dash followed by a single other character (dashes aside), or
/// no dash at all, shows all three. `None` for a dash followed by no character but dashes,
/// or by several characters none of which is `w`, `l` or `c`: no option can be read there.
pub fn counter_options(args: &Vec<String>) -> (o: Option<CounterOptions>)
    ensures
        has_flag(args@) ==> {
            let letters = args@[0]@.drop_first();
            let w = letters.contains('w');
            let l = letters.contains('l');
            let c = letters.contains('c');
            let rest = without_char(args@[0]@, '-');
            &&& (w || l || c) ==> o == Some(CounterOptions { words: w, lines: l, chars: c, first_file: 1 })
            &&& (!(w || l || c) && rest.len() == 1) ==> o == Some(
                CounterOptions { words: true, lines: true, chars: true, first_file: 1 },
            )
            &&& (!(w || l || c) && rest.len() != 1) ==> o == None::<CounterOptions>
        },
        !has_flag(args@) ==> o == Some(CounterOptions { words: true, lines: true, chars: true, first_file: 0 }),
{
    if args.len() > 0 {
        let first = to_chars(args[0].as_str());
        if first.len() > 0 && first[0] == '-' {
            let mut w = false;
            let mut l = false;
            let mut c = false;
            let mut i: usize = 1;
            let ghost letters = first@.drop_first();
            while i < first.len()
                invariant
                    1 <= i <= first.len(),
                    letters == first@.drop_first(),
                    w == letters.take(i - 1).contains('w'),
                    l == letters.take(i - 1).contains('l'),
                    c == letters.take(i - 1).contains('c'),
                decreases first.len() - i,
            {
                let ghost pre = letters.take(i - 1);
                let ghost post = letters.take(i as int);
                assert(post =~= pre.push(first@[i as int]));
                assert(forall|ch: char| post.contains(ch) <==> (pre.contains(ch) || first@[i as int] == ch)) by {
                    assert forall|ch: char| post.contains(ch) implies (pre.contains(ch) || first@[i as int] == ch) by {
                        let j = choose|j: int| 0 <= j < post.len() && post[j] == ch;
                        if j < pre.len() {
                            assert(pre[j] == ch);
                        }
                    }
                    assert forall|ch: char| pre.contains(ch) implies post.contains(ch) by {
                        let j = choose|j: int| 0 <= j < pre.len() && pre[j] == ch;
                        assert(post[j] == ch);
                    }
                    assert(post[post.len() - 1] == first@[i as int]);
                }
                if first[i] == 'w' {
                    w = true;
                }
                if first[i] == 'l' {
                    l = true;
                }
                if first[i] == 'c' {
                    c = true;
                }
                i = i + 1;
            }
            assert(letters.take(first.len() - 1) =~= letters);
            if w || l || c {
                return Some(CounterOptions { words: w, lines: l, chars: c, first_file: 1 });
            }
            let rest = to_chars(remove_char(&first, '-').as_str());
            if rest.len() == 1 {
                return Some(CounterOptions { words: true, lines: true, chars: true, first_file: 1 });
            } else {
                return None;
            }
        }
    }
    Some(CounterOptions { words: true, lines: true, chars: true, first_file: 0 })
}

// ------------------------------------------------------------------------------------------
// start: the first lines of files
// ------------------------------------------------------------------------------------------

/// How many lines `start` shows of each file when no number is given.
pub const DEFAULT_LINES: usize = 10;

/// What `start` does with one of its arguments.
#[derive(Debug, Clone, Copy, PartialEq, Eq, Structural)]
pub enum StartStep {
    /// The argument is an option: from here on, show this many lines of each file.
    Count(usize),
    /// The argument is a file: show this many of its first lines.
    File(usize),
    /// The argument is an option without a number: `start` cannot go on.
    Fail,
}

/// The argument begins with a dash.
pub open spec fn is_dash_arg(arg: Seq<char>) -> bool {
    arg.len() > 0 && arg[0] == '-'
}

/// What `start` does with `args[i..]` when `n` lines are shown of each file: an argument
/// that begins with a dash sets `n` to the number it holds (the argument without its
/// dashes), or ends the run when it holds no number; every other argument is a file.
pub open spec fn start_steps(args: Seq<Seq<char>>, i: int, n: usize) -> Seq<StartStep>
    decreases args.len() - i,
{
    if i < 0 || i >= args.len() {
        seq![]
    } else if is_dash_arg(args[i]) {
        match parsed_usize(without_char(args[i], '-')) {
            Some(m) => seq![StartStep::Count(m)] + start_steps(args, i + 1, m),
            None => seq![StartStep::Fail],
        }
    } else {
        seq![StartStep::File(n)] + start_steps(args, i + 1, n)
    }
}

/// Reads the arguments of `start` (without the program's name), one step per argument up
/// to the first that cannot be read: ten lines of each file, or, after an argument that
/// begins with a dash, as many as the number after the dash.
pub fn start_plan(args: &Vec<String>) -> (steps: Vec<StartStep>)
    ensures
        steps@ == start_steps(views(args@), 0, DEFAULT_LINES),
{
    let ghost v = views(args@);
    let mut steps: Vec<StartStep> = Vec::new();
    let mut n: usize = DEFAULT_LINES;
    let mut i: usize = 0;
    while i < args.len()
        invariant
            i <= args.len(),
            v == views(args@),
            steps@ + start_steps(v, i as int, n) == start_steps(v, 0, DEFAULT_LINES),
        decreases args.len() - i,
    {
        let arg = to_chars(args[i].as_str());
        assert(arg@ == v[i as int]);
        if arg.len() > 0 && arg[0] == '-' {
            let digits = remove_char(&arg, '-');
            match parse_usize(&to_chars(digits.as_str())) {
                Some(m) => {
                    assert(steps@.push(StartStep::Count(m)) + start_steps(v, i + 1, m) =~= steps@
                        + start_steps(v, i as int, n));
                    steps.push(StartStep::Count(m));
                    n = m;
                },
                None => {
                    assert(steps@.push(StartStep::Fail) =~= steps@ + start_steps(v, i as int, n));
                    steps.push(StartStep::Fail);
                    return steps;
                },
            }
        } else {
            assert(steps@.push(StartStep::File(n)) + start_steps(v, i + 1, n) =~= steps@
                + start_steps(v, i as int, n));
            steps.push(StartStep::File(n));
        }
        i = i + 1;
    }
    assert(steps@ + start_steps(v, i as int, n) =~= steps@);
    steps
}

/// The first `n` lines of a file's text, or all of them when it has fewer.
pub fn first_lines(content: &String, n: usize) -> (r: Vec<String>)
    ensures
        views(r@) == lines_of(content@).take(
            if n <= lines_of(content@).len() {
                n as int
            } else {
                lines_of(content@).len() as int
            },
        ),
{
    let chars = to_chars(content.as_str());
    let ls = lines(&chars);
    let mut r: Vec<String> = Vec::new();
    let mut k: usize = 0;
    while k < ls.len() && k < n
        invariant
            k <= ls.len(),
            k <= n,
            views(r@) == views(ls@).take(k as int),
        decreases ls.len() - k,
    {
        let ghost before = r@;
        r.push(ls[k].clone());
        assert(views(r@) =~= views(before).push(ls@[k as int]@));
        assert(views(r@) =~= views(ls@).take(k + 1));
        k = k + 1;
    }
    r
}

// ------------------------------------------------------------------------------------------
// findtext: lines holding a pattern
// ------------------------------------------------------------------------------------------

/// The lines of `ls` that hold `pattern`, in order.
pub open spec fn lines_with(ls: Seq<Seq<char>>, pattern: Seq<char>) -> Seq<Seq<char>>
    decreases ls.len(),
{
    if ls.len() == 0 {
        seq![]
    } else if contains_pat(ls.last(), pattern) {
        lines_with(ls.drop_last(), pattern).push(ls.last())
    } else {
        lines_with(ls.drop_last(), pattern)
    }
}

/// The lines of a file's text that hold `pattern`.
pub fn matching_lines(content: &String, pattern: &String) -> (r: Vec<String>)
    ensures
        views(r@) == lines_with(lines_of(content@), pattern@),
{
    let chars = to_chars(content.as_str());
    let pat = to_chars(pattern.as_str());
    let ls = lines(&chars);
    let ghost all = views(ls@);
    let mut r: Vec<String> = Vec::new();
    let mut k: usize = 0;
    assert(all.take(0) =~= Seq::<Seq<char>>::empty());
    while k < ls.len()
        invariant
            k <= ls.len(),
            all == views(ls@),
            pat@ == pattern@,
            views(r@) == lines_with(all.take(k as int), pattern@),
        decreases ls.len() - k,
    {
        assert(all.take(k + 1).drop_last() =~= all.take(k as int));
        assert(all.take(k + 1).last() == ls@[k as int]@);
        let line = to_chars(ls[k].as_str());
        if contains(&line, &pat) {
            let ghost before = r@;
            r.push(ls[k].clone());
            assert(views(r@) =~= views(before).push(ls@[k as int]@));
        }
        k = k + 1;
    }
    assert(all.take(ls.len() as int) =~= all);
    r
}

/// Every line `findtext` reports holds the pattern, and every line of the text that holds
/// the pattern is reported.
pub proof fn law_matches_hold(ls: Seq<Seq<char>>, pattern: Seq<char>)
    ensures
        forall|i: int| 0 <= i < lines_with(ls, pattern).len() ==> contains_pat(#[trigger] lines_with(ls, pattern)[i], pattern),
        forall|i: int| 0 <= i < ls.len() && contains_pat(#[trigger] ls[i], pattern) ==> lines_with(ls, pattern).contains(ls[i]),
    decreases ls.len(),
{
    if ls.len() > 0 {
        law_matches_hold(ls.drop_last(), pattern);
        let prev = lines_with(ls.drop_last(), pattern);
        let cur = lines_with(ls, pattern);
        assert forall|i: int| 0 <= i < ls.len() && contains_pat(#[trigger] ls[i], pattern) implies cur.contains(ls[i]) by {
            if i < ls.len() - 1 {
                assert(ls.drop_last()[i] == ls[i]);
                assert(prev.contains(ls[i]));
                let j = choose|j: int| 0 <= j < prev.len() && prev[j] == ls[i];
                if contains_pat(ls.last(), pattern) {
                    assert(cur[j] == prev[j]);
                }
            } else {
                assert(cur[cur.len() - 1] == ls[i]);
            }
        }
        assert forall|i: int| 0 <= i < cur.len() implies contains_pat(#[trigger] cur[i], pattern) by {
            if i < prev.len() {
                assert(cur[i] == prev[i]);
            }
        }
    }
}

// ------------------------------------------------------------------------------------------
// duplicate and newname: two paths
// ------------------------------------------------------------------------------------------

/// What a program that takes two paths does with its command line.
#[derive(Debug, Clone, Copy, PartialEq, Eq, Structural)]
pub enum PairArgs {
    /// Only the program's name: too few arguments.
    NotEnough,
    /// The program's name and two paths.
    Pair,
    /// Any other number of arguments.
    Invalid,
}

/// Classifies a command line of `count` words, the program's name included.
pub fn pair_args(count: usize) -> (r: PairArgs)
    ensures
        r == if count == 1 {
            PairArgs::NotEnough
        } else if count == 3 {
            PairArgs::Pair
        } else {
            PairArgs::Invalid
        },
{
    match count {
        1 => PairArgs::NotEnough,
        3 => PairArgs::Pair,
        _ => PairArgs::Invalid,
    }
}

// ------------------------------------------------------------------------------------------
// Laws of sorting
// ------------------------------------------------------------------------------------------

proof fn lemma_lex_refl(a: Seq<char>)
    ensures
        lex_le(a, a),
    decreases a.len(),
{
    if a.len() > 0 {
        lemma_lex_refl(a.drop_first());
    }
}

proof fn lemma_lex_total_ordering()
    ensures
        vstd::relations::total_ordering(|x: Seq<char>, y: Seq<char>| lex_le(x, y)),
{
    let leq = |x: Seq<char>, y: Seq<char>| lex_le(x, y);
    assert forall|x: Seq<char>| #[trigger] leq(x, x) by {
        lemma_lex_refl(x);
    }
    assert forall|x: Seq<char>, y: Seq<char>| #[trigger] leq(x, y) && #[trigger] leq(y, x) implies x == y by {
        lemma_lex_antisym(x, y);
    }
    assert forall|x: Seq<char>, y: Seq<char>, z: Seq<char>| #[trigger] leq(x, y) && #[trigger] leq(y, z) implies leq(x, z) by {
        lemma_lex_trans(x, y, z);
    }
    assert forall|x: Seq<char>, y: Seq<char>| #[trigger] leq(x, y) || #[trigger] leq(y, x) by {
        lemma_lex_total(x, y);
    }
}

/// Sorting leaves no choice: two arrangements of the same lines that are both in order
/// are the same.
pub proof fn law_sorted_unique(a: Seq<Seq<char>>, b: Seq<Seq<char>>)
    requires
        sorted(a),
        sorted(b),
        a.to_multiset() == b.to_multiset(),
    ensures
        a == b,
{
    let leq = |x: Seq<char>, y: Seq<char>| lex_le(x, y);
    lemma_lex_total_ordering();
    assert(vstd::relations::sorted_by(a, leq));
    assert(vstd::relations::sorted_by(b, leq));
    vstd::seq_lib::lemma_sorted_unique(a, b, leq);
}

/// The reverse order is the order reversed: lines in descending order are the same lines in
/// ascending order, back to front.
pub proof fn law_reverse_order(up: Seq<Seq<char>>, down: Seq<Seq<char>>)
    requires
        sorted(up),
        sorted_desc(down),
        up.to_multiset() == down.to_multiset(),
    ensures
        down == up.reverse(),
{
    let r = down.reverse();
    assert(sorted(r)) by {
        assert forall|i: int, j: int| 0 <= i < j < r.len() implies lex_le(#[trigger] r[i], #[trigger] r[j]) by {
            assert(r[i] == down[down.len() - 1 - i]);
            assert(r[j] == down[down.len() - 1 - j]);
        }
    }
    down.lemma_reverse_to_multiset();
    law_sorted_unique(up, r);
    assert(down =~= r.reverse());
}


// ------------------------------------------------------------------------------------------
// Laws of the orders, the counts and the search
// ------------------------------------------------------------------------------------------

/// Lines are ordered by their characters: when two lines first differ at index `i`, the
/// one with the smaller character there comes first, and never the other way round.
pub proof fn law_order_by_first_difference(a: Seq<char>, b: Seq<char>, i: int)
    requires
        0 <= i < a.len(),
        i < b.len(),
        a.take(i) == b.take(i),
        a[i] < b[i],
    ensures
        lex_le(a, b),
        !lex_le(b, a),
    decreases i,
{
    if i > 0 {
        assert(a[0] == a.take(i)[0]);
        assert(b[0] == b.take(i)[0]);
        assert(a.drop_first().take(i - 1) =~= a.take(i).drop_first());
        assert(b.drop_first().take(i - 1) =~= b.take(i).drop_first());
        law_order_by_first_difference(a.drop_first(), b.drop_first(), i - 1);
    }
}

/// A line comes before every line it is the beginning of.
pub proof fn law_prefix_first(a: Seq<char>, b: Seq<char>)
    requires
        a.len() <= b.len(),
        b.take(a.len() as int) == a,
    ensures
        lex_le(a, b),
    decreases a.len(),
{
    if a.len() > 0 {
        assert(a[0] == b.take(a.len() as int)[0]);
        assert(b.drop_first().take(a.len() - 1) =~= a.drop_first());
        law_prefix_first(a.drop_first(), b.drop_first());
    }
}

/// In lines sorted as `order` sorts them, of two lines that first differ at index `i` the
/// earlier one has the smaller character there.
pub proof fn law_sorted_by_characters(s: Seq<Seq<char>>, j: int, k: int, i: int)
    requires
        sorted(s),
        0 <= j < k < s.len(),
        0 <= i < s[j].len(),
        i < s[k].len(),
        s[j].take(i) == s[k].take(i),
        s[j][i] != s[k][i],
    ensures
        s[j][i] < s[k][i],
{
    assert(lex_le(s[j], s[k]));
    if s[k][i] < s[j][i] {
        law_order_by_first_difference(s[k], s[j], i);
    }
}

/// A character takes as many bytes in UTF-8 as it needs: `n` bytes carry 7, 11, 16 or 21
/// bits of the code point, and the encoding is the shortest whose bits hold it.
pub proof fn law_utf8_len_shortest(c: char)
    ensures
        1 <= utf8_len(c) <= 4,
        utf8_len(c) == 1 ==> (c as u32) < 0x80,
        utf8_len(c) == 2 ==> 0x80 <= (c as u32) < 0x800,
        utf8_len(c) == 3 ==> 0x800 <= (c as u32) < 0x10000,
        utf8_len(c) == 4 ==> 0x10000 <= (c as u32),
{
}

/// A text has at least one byte per character and at most four, and exactly one per
/// character when every character is ASCII.
pub proof fn law_byte_len_bounds(s: Seq<char>)
    ensures
        s.len() <= byte_len(s) <= 4 * s.len(),
        (forall|k: int| 0 <= k < s.len() ==> (s[k] as u32) < 0x80) ==> byte_len(s) == s.len(),
    decreases s.len(),
{
    if s.len() > 0 {
        law_byte_len_bounds(s.drop_last());
        law_utf8_len_shortest(s.last());
        if forall|k: int| 0 <= k < s.len() ==> (s[k] as u32) < 0x80 {
            assert forall|k: int| 0 <= k < s.drop_last().len() implies (s.drop_last()[k] as u32) < 0x80 by {
                assert(s.drop_last()[k] == s[k]);
            }
        }
    }
}

/// `findtext` reports exactly the lines that hold the pattern, each as often as it occurs
/// and in the order of the text.
pub proof fn law_matches_are_the_filter(ls: Seq<Seq<char>>, pattern: Seq<char>)
    ensures
        lines_with(ls, pattern) == ls.filter(|l: Seq<char>| contains_pat(l, pattern)),
    decreases ls.len(),
{
    reveal_with_fuel(Seq::filter, 1);
    if ls.len() > 0 {
        law_matches_are_the_filter(ls.drop_last(), pattern);
    }
}

} // verus!
