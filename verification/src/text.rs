//! Text as sequences of characters: finding a separator, splitting at it,
//! cutting a line into words, and joining pieces again.

use vstd::prelude::*;
use vstd::string::StrSliceExecFns;

verus! {

/// The characters that separate the entries of a protocol list: space, tab,
/// line feed, form feed and carriage return.
pub open spec fn is_blank(c: char) -> bool {
    c == ' ' || c == '\t' || c == '\n' || c == '\x0C' || c == '\r'
}

/// The number of characters of `s` in front of the first `sep`; the length of
/// `s` if there is none.
pub open spec fn find(s: Seq<char>, sep: char) -> int
    decreases s.len(),
{
    if s.len() == 0 || s[0] == sep {
        0
    } else {
        1 + find(s.drop_first(), sep)
    }
}

/// The pieces of `s` between the occurrences of `sep`.  There is always at
/// least one piece, and pieces may be empty.
pub open spec fn split(s: Seq<char>, sep: char) -> Seq<Seq<char>>
    decreases s.len(),
{
    let i = find(s, sep);
    if 0 <= i < s.len() {
        seq![s.take(i)] + split(s.skip(i + 1), sep)
    } else {
        seq![s]
    }
}

/// The number of characters of `s` in front of the first blank; the length of
/// `s` if there is none.
pub open spec fn word_len(s: Seq<char>) -> int
    decreases s.len(),
{
    if s.len() == 0 || is_blank(s[0]) {
        0
    } else {
        1 + word_len(s.drop_first())
    }
}

/// The words of `s`: its maximal runs of characters that are not blank, in
/// order.
pub open spec fn words(s: Seq<char>) -> Seq<Seq<char>>
    decreases s.len(),
{
    let n = word_len(s);
    let head = if n > 0 {
        seq![s.take(n)]
    } else {
        Seq::empty()
    };
    if 0 <= n < s.len() {
        head + words(s.skip(n + 1))
    } else {
        head
    }
}

/// The pieces written one after the other with `sep` between them.
pub open spec fn join(pieces: Seq<Seq<char>>, sep: char) -> Seq<char>
    decreases pieces.len(),
{
    if pieces.len() == 0 {
        Seq::empty()
    } else if pieces.len() == 1 {
        pieces[0]
    } else {
        join(pieces.drop_last(), sep) + seq![sep] + pieces.last()
    }
}

/// Whether `w` can be a word of a text: it is not empty and holds no blank.
pub open spec fn is_word(w: Seq<char>) -> bool {
    w.len() > 0 && forall|i: int| 0 <= i < w.len() ==> !is_blank(#[trigger] w[i])
}

/// Whether every one of `ws` can be a word of a text.
pub open spec fn are_words(ws: Seq<Seq<char>>) -> bool {
    forall|k: int| 0 <= k < ws.len() ==> is_word(#[trigger] ws[k])
}

/// `find` returns the position of the first separator.
pub proof fn lemma_find(s: Seq<char>, sep: char)
    ensures
        0 <= find(s, sep) <= s.len(),
        forall|j: int| 0 <= j < find(s, sep) ==> s[j] != sep,
        find(s, sep) < s.len() ==> s[find(s, sep)] == sep,
    decreases s.len(),
{
    if s.len() == 0 || s[0] == sep {
    } else {
        let t = s.drop_first();
        lemma_find(t, sep);
        assert forall|j: int| 0 <= j < find(s, sep) implies s[j] != sep by {
            if j > 0 {
                assert(s[j] == t[j - 1]);
            }
        }
        assert(find(s, sep) < s.len() ==> s[find(s, sep)] == t[find(t, sep)]);
    }
}

/// A position with a separator, or the end, and no separator in front of it
/// is what `find` returns.
pub proof fn lemma_find_is(s: Seq<char>, sep: char, i: int)
    requires
        0 <= i <= s.len(),
        forall|j: int| 0 <= j < i ==> s[j] != sep,
        i < s.len() ==> s[i] == sep,
    ensures
        find(s, sep) == i,
    decreases s.len(),
{
    if s.len() == 0 || s[0] == sep {
    } else {
        let t = s.drop_first();
        assert forall|j: int| 0 <= j < i - 1 implies t[j] != sep by {
            assert(t[j] == s[j + 1]);
        }
        lemma_find_is(t, sep, i - 1);
    }
}

/// `word_len` returns the position of the first blank.
pub proof fn lemma_word_len(s: Seq<char>)
    ensures
        0 <= word_len(s) <= s.len(),
        forall|j: int| 0 <= j < word_len(s) ==> !is_blank(s[j]),
        word_len(s) < s.len() ==> is_blank(s[word_len(s)]),
    decreases s.len(),
{
    if s.len() == 0 || is_blank(s[0]) {
    } else {
        let t = s.drop_first();
        lemma_word_len(t);
        assert forall|j: int| 0 <= j < word_len(s) implies !is_blank(s[j]) by {
            if j > 0 {
                assert(s[j] == t[j - 1]);
            }
        }
        assert(word_len(s) < s.len() ==> s[word_len(s)] == t[word_len(t)]);
    }
}

/// A position with a blank, or the end, and no blank in front of it is what
/// `word_len` returns.
pub proof fn lemma_word_len_is(s: Seq<char>, i: int)
    requires
        0 <= i <= s.len(),
        forall|j: int| 0 <= j < i ==> !is_blank(s[j]),
        i < s.len() ==> is_blank(s[i]),
    ensures
        word_len(s) == i,
    decreases s.len(),
{
    if s.len() == 0 || is_blank(s[0]) {
    } else {
        let t = s.drop_first();
        assert forall|j: int| 0 <= j < i - 1 implies !is_blank(t[j]) by {
            assert(t[j] == s[j + 1]);
        }
        lemma_word_len_is(t, i - 1);
    }
}

/// The words of a text are not empty and hold no blank.
pub proof fn lemma_words_are_words(s: Seq<char>)
    ensures
        are_words(words(s)),
    decreases s.len(),
{
    let n = word_len(s);
    lemma_word_len(s);
    if n < s.len() {
        lemma_words_are_words(s.skip(n + 1));
    }
    assert forall|k: int| 0 <= k < words(s).len() implies is_word(#[trigger] words(s)[k]) by {
        if n > 0 && k == 0 {
            let w = s.take(n);
            assert(words(s)[0] == w);
            assert forall|i: int| 0 <= i < w.len() implies !is_blank(#[trigger] w[i]) by {
                assert(w[i] == s[i]);
            }
        } else {
            let rest = words(s.skip(n + 1));
            let shift = if n > 0 {
                1int
            } else {
                0int
            };
            assert(words(s)[k] == rest[k - shift]);
        }
    }
}

/// The words of two texts with a space between them are the words of the
/// first and the words of the second.
pub proof fn lemma_words_concat(a: Seq<char>, b: Seq<char>)
    ensures
        words(a + seq![' '] + b) == words(a) + words(b),
    decreases a.len(),
{
    let x = a + seq![' '] + b;
    let n = word_len(a);
    lemma_word_len(a);
    assert forall|j: int| 0 <= j < n implies !is_blank(x[j]) by {
        assert(x[j] == a[j]);
    }
    assert(x[n] == if n < a.len() {
        a[n]
    } else {
        ' '
    });
    lemma_word_len_is(x, n);
    assert(x.take(n) =~= a.take(n));
    if n < a.len() {
        assert(x.skip(n + 1) =~= a.skip(n + 1) + seq![' '] + b);
        lemma_words_concat(a.skip(n + 1), b);
        assert(words(x) =~= words(a) + words(b));
    } else {
        assert(x.skip(n + 1) =~= b);
        assert(words(x) =~= words(a) + words(b));
    }
}

/// Words joined with spaces are the words of the joined text.
pub proof fn lemma_words_of_join(lines: Seq<Seq<char>>)
    requires
        are_words(lines),
    ensures
        words(join(lines, ' ')) == lines,
    decreases lines.len(),
{
    if lines.len() == 0 {
        assert(words(join(lines, ' ')) =~= lines);
    } else {
        let last = lines.last();
        assert(is_word(lines[lines.len() - 1]));
        lemma_word_len_is(last, last.len() as int);
        assert(last.take(last.len() as int) =~= last);
        assert(words(last) =~= seq![last]);
        if lines.len() == 1 {
            assert(words(join(lines, ' ')) =~= lines);
        } else {
            let earlier = lines.drop_last();
            assert(are_words(earlier)) by {
                assert forall|k: int| 0 <= k < earlier.len() implies is_word(
                    #[trigger] earlier[k],
                ) by {
                    assert(earlier[k] == lines[k]);
                }
            }
            lemma_words_of_join(earlier);
            lemma_words_concat(join(earlier, ' '), last);
            assert(earlier + seq![last] =~= lines);
        }
    }
}

/// The characters of a string, in a vector.
pub(crate) fn chars_of(s: &str) -> (cs: Vec<char>)
    ensures
        cs@ == s@,
{
    let mut cs: Vec<char> = Vec::new();
    for c in it: s.chars()
        invariant
            cs@ == it.seq().take(it.index()),
            it.seq() == s@,
    {
        cs.push(c);
    }
    cs
}

/// Whether `c` is a blank.
pub(crate) fn is_blank_char(c: char) -> (b: bool)
    ensures
        b == is_blank(c),
{
    c == ' ' || c == '\t' || c == '\n' || c == '\x0C' || c == '\r'
}

/// The position of the first `sep` in `cs[from..to]`, or `to`.
pub(crate) fn find_char(cs: &Vec<char>, from: usize, to: usize, sep: char) -> (i: usize)
    requires
        from <= to <= cs.len(),
    ensures
        from <= i <= to,
        i - from == find(cs@.subrange(from as int, to as int), sep),
{
    let mut i: usize = from;
    while i < to && cs[i] != sep
        invariant
            from <= i <= to <= cs.len(),
            forall|j: int| from <= j < i ==> cs@[j] != sep,
        decreases to - i,
    {
        i += 1;
    }
    proof {
        lemma_find_is(cs@.subrange(from as int, to as int), sep, i - from);
    }
    i
}

/// The position of the first blank in `cs[from..to]`, or `to`.
pub(crate) fn find_blank(cs: &Vec<char>, from: usize, to: usize) -> (i: usize)
    requires
        from <= to <= cs.len(),
    ensures
        from <= i <= to,
        i - from == word_len(cs@.subrange(from as int, to as int)),
{
    let mut i: usize = from;
    while i < to && !is_blank_char(cs[i])
        invariant
            from <= i <= to <= cs.len(),
            forall|j: int| from <= j < i ==> !is_blank(cs@[j]),
        decreases to - i,
    {
        i += 1;
    }
    proof {
        lemma_word_len_is(cs@.subrange(from as int, to as int), i - from);
    }
    i
}

/// Whether `cs[from..to]` is the text `word`.
pub(crate) fn chars_match(cs: &Vec<char>, from: usize, to: usize, word: &str) -> (b: bool)
    requires
        from <= to <= cs.len(),
    ensures
        b == (cs@.subrange(from as int, to as int) == word@),
{
    let w = chars_of(word);
    let ghost part = cs@.subrange(from as int, to as int);
    if w.len() != to - from {
        assert(part.len() != word@.len());
        return false;
    }
    let mut i: usize = 0;
    while i < w.len()
        invariant
            from <= to <= cs.len(),
            w.len() == to - from,
            w@ == word@,
            i <= w.len(),
            part == cs@.subrange(from as int, to as int),
            forall|j: int| 0 <= j < i ==> part[j] == w@[j],
        decreases w.len() - i,
    {
        if cs[from + i] != w[i] {
            assert(part[i as int] != w@[i as int]);
            return false;
        }
        i += 1;
    }
    assert(part =~= w@);
    true
}

/// Where the words of `cs` begin and end: for each word, in order, the
/// position of its first character and the position behind its last one.
pub(crate) fn split_words(cs: &Vec<char>) -> (bounds: Vec<(usize, usize)>)
    ensures
        bounds@.len() == words(cs@).len(),
        forall|i: int|
            0 <= i < bounds@.len() ==> {
                &&& (#[trigger] bounds@[i]).0 < bounds@[i].1 <= cs@.len()
                &&& cs@.subrange(bounds@[i].0 as int, bounds@[i].1 as int) == words(cs@)[i]
            },
{
    let n = cs.len();
    let mut bounds: Vec<(usize, usize)> = Vec::new();
    let ghost mut done: Seq<Seq<char>> = Seq::empty();
    let mut pos: usize = 0;
    assert(cs@.subrange(0, n as int) =~= cs@);
    loop
        invariant
            pos <= n,
            n == cs.len(),
            done.len() == bounds@.len(),
            forall|i: int|
                0 <= i < bounds@.len() ==> {
                    &&& (#[trigger] bounds@[i]).0 < bounds@[i].1 <= n
                    &&& cs@.subrange(bounds@[i].0 as int, bounds@[i].1 as int) == done[i]
                },
            words(cs@) == done + words(cs@.subrange(pos as int, n as int)),
        decreases n - pos,
    {
        let ghost rest = cs@.subrange(pos as int, n as int);
        let end = find_blank(cs, pos, n);
        if end > pos {
            bounds.push((pos, end));
            proof {
                assert(rest.take(end - pos) =~= cs@.subrange(pos as int, end as int));
                done = done.push(cs@.subrange(pos as int, end as int));
            }
        }
        if end == n {
            assert(words(cs@) =~= done);
            return bounds;
        }
        proof {
            assert(rest.skip(end - pos + 1) =~= cs@.subrange(end + 1, n as int));
            assert(words(cs@) =~= done + words(cs@.subrange(end + 1, n as int)));
        }
        pos = end + 1;
    }
}

/// The part of `s` from the character at `from` up to the character at `to`.
/// Where the caller knows that `s` is ASCII, the part is found without
/// walking through `s`.
pub(crate) fn slice_chars<'a>(s: &'a str, ascii: bool, from: usize, to: usize) -> (part: &'a str)
    requires
        ascii ==> s.is_ascii(),
        from <= to <= s@.len(),
    ensures
        part@ == s@.subrange(from as int, to as int),
{
    if ascii {
        s.substring_ascii(from, to)
    } else {
        s.substring_char(from, to)
    }
}

} // verus!
