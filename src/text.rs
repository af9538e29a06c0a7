//! Characters, lines and whitespace-separated words of a text.
use vstd::prelude::*;

verus! {

broadcast use vstd::string::group_string_axioms;

/// The whitespace that separates the words of a header line.
pub open spec fn is_space(c: char) -> bool {
    c == ' ' || c == '\t' || c == '\n' || c == '\r' || c == '\x0C'
}

/// A line that holds nothing but whitespace (or nothing at all).
pub open spec fn is_blank(l: Seq<char>) -> bool {
    forall|i: int| 0 <= i < l.len() ==> is_space(#[trigger] l[i])
}

/// Number of characters before the first line break of `s` (all of them if none).
pub open spec fn line_len(s: Seq<char>) -> nat
    decreases s.len(),
{
    if s.len() == 0 || s[0] == '\n' {
        0
    } else {
        1 + line_len(s.drop_first())
    }
}

/// The lines of `s`: the pieces between line breaks, where a final line break
/// closes the last line rather than opening an empty one.
pub open spec fn lines_of(s: Seq<char>) -> Seq<Seq<char>>
    decreases s.len(),
{
    if s.len() == 0 {
        Seq::empty()
    } else {
        let k = line_len(s);
        if k >= s.len() {
            seq![s]
        } else {
            seq![s.take(k as int)] + lines_of(s.skip(k + 1 as int))
        }
    }
}

/// Number of leading characters of `s` that are not whitespace.
pub open spec fn word_len(s: Seq<char>) -> nat
    decreases s.len(),
{
    if s.len() == 0 || is_space(s[0]) {
        0
    } else {
        1 + word_len(s.drop_first())
    }
}

/// The maximal runs of non-whitespace characters of `s`, in order.
pub open spec fn words_of(s: Seq<char>) -> Seq<Seq<char>>
    decreases s.len(),
{
    if s.len() == 0 {
        Seq::empty()
    } else if is_space(s[0]) {
        words_of(s.drop_first())
    } else {
        let k = word_len(s);
        proof {
            lemma_word_len_bound(s);
        }
        seq![s.take(k as int)] + words_of(s.skip(k as int))
    }
}

pub proof fn lemma_word_len_bound(s: Seq<char>)
    ensures
        word_len(s) <= s.len(),
        s.len() > 0 && !is_space(s[0]) ==> word_len(s) > 0,
    decreases s.len(),
{
    if s.len() > 0 && !is_space(s[0]) {
        lemma_word_len_bound(s.drop_first());
    }
}

/// `line_len` is the position of the first line break.
pub proof fn lemma_line_len_exact(s: Seq<char>, k: int)
    requires
        0 <= k <= s.len(),
        forall|j: int| 0 <= j < k ==> s[j] != '\n',
        k == s.len() || s[k] == '\n',
    ensures
        line_len(s) == k,
    decreases k,
{
    if k > 0 {
        lemma_line_len_exact(s.drop_first(), k - 1);
    }
}

/// `word_len` is the position of the first whitespace character.
pub proof fn lemma_word_len_exact(s: Seq<char>, k: int)
    requires
        0 <= k <= s.len(),
        forall|j: int| 0 <= j < k ==> !is_space(#[trigger] s[j]),
        k == s.len() || is_space(s[k]),
    ensures
        word_len(s) == k,
    decreases k,
{
    if k > 0 {
        assert forall|j: int| 0 <= j < k - 1 implies !is_space(#[trigger] s.drop_first()[j]) by {
            assert(s.drop_first()[j] == s[j + 1]);
        }
        lemma_word_len_exact(s.drop_first(), k - 1);
    }
}

pub fn is_space_char(c: char) -> (b: bool)
    ensures
        b == is_space(c),
{
    c == ' ' || c == '\t' || c == '\n' || c == '\r' || c == '\x0C'
}

/// The characters of `s`, in order.
pub fn chars_of(s: &str) -> (r: Vec<char>)
    ensures
        r@ == s@,
{
    let mut r: Vec<char> = Vec::new();
    for c in it: s.chars()
        invariant
            r@ == it.seq().take(it.index() as int),
    {
        r.push(c);
    }
    r
}

/// The pieces of `s` that the index pairs of `spans` delimit.
pub open spec fn pieces(s: Seq<char>, spans: Seq<(usize, usize)>) -> Seq<Seq<char>> {
    Seq::new(spans.len(), |i: int| s.subrange(spans[i].0 as int, spans[i].1 as int))
}

/// The views of a list of strings.
pub open spec fn views(v: Seq<String>) -> Seq<Seq<char>> {
    Seq::new(v.len(), |i: int| v[i]@)
}

/// Where each line of `s` starts and ends.
pub fn line_spans(s: &Vec<char>) -> (r: Vec<(usize, usize)>)
    ensures
        pieces(s@, r@) == lines_of(s@),
        forall|i: int| 0 <= i < r.len() ==> (#[trigger] r@[i]).0 <= r@[i].1 <= s.len(),
{
    let mut r: Vec<(usize, usize)> = Vec::new();
    let mut start: usize = 0;
    let mut i: usize = 0;
    assert(s@.skip(0) =~= s@);
    assert(pieces(s@, r@) + lines_of(s@) =~= lines_of(s@));
    while i < s.len()
        invariant
            start <= i <= s.len(),
            forall|j: int| start <= j < i ==> s@[j] != '\n',
            forall|k: int| 0 <= k < r.len() ==> (#[trigger] r@[k]).0 <= r@[k].1 <= start,
            lines_of(s@) == pieces(s@, r@) + lines_of(s@.skip(start as int)),
        decreases s.len() - i,
    {
        if s[i] == '\n' {
            let ghost t = s@.skip(start as int);
            let ghost k = i - start;
            proof {
                lemma_line_len_exact(t, k as int);
                assert(t.take(k as int) =~= s@.subrange(start as int, i as int));
                assert(t.skip(k + 1 as int) =~= s@.skip(i + 1));
            }
            let ghost before = pieces(s@, r@);
            r.push((start, i));
            assert(pieces(s@, r@) =~= before.push(s@.subrange(start as int, i as int)));
            start = i + 1;
        }
        i = i + 1;
    }
    if start < s.len() {
        let ghost t = s@.skip(start as int);
        proof {
            lemma_line_len_exact(t, t.len() as int);
            assert(t =~= s@.subrange(start as int, s.len() as int));
        }
        let ghost before = pieces(s@, r@);
        r.push((start, s.len()));
        assert(pieces(s@, r@) =~= before.push(s@.subrange(start as int, s.len() as int)));
    } else {
        assert(lines_of(s@.skip(start as int)) =~= Seq::<Seq<char>>::empty());
        assert(pieces(s@, r@) + Seq::<Seq<char>>::empty() =~= pieces(s@, r@));
    }
    r
}

/// The words of the line that runs from `lo` to `hi` in `text`.
pub fn words_in(text: &str, s: &Vec<char>, lo: usize, hi: usize) -> (r: Vec<String>)
    requires
        s@ == text@,
        lo <= hi <= s.len(),
    ensures
        views(r@) == words_of(s@.subrange(lo as int, hi as int)),
{
    let mut r: Vec<String> = Vec::new();
    let mut i: usize = lo;
    while i < hi
        invariant
            s@ == text@,
            lo <= i <= hi <= s.len(),
            words_of(s@.subrange(lo as int, hi as int)) == views(r@) + words_of(
                s@.subrange(i as int, hi as int),
            ),
        decreases hi - i,
    {
        let ghost t = s@.subrange(i as int, hi as int);
        if is_space_char(s[i]) {
            assert(t.drop_first() =~= s@.subrange(i + 1, hi as int));
            i = i + 1;
        } else {
            let mut j: usize = i;
            while j < hi && !is_space_char(s[j])
                invariant
                    i <= j <= hi <= s.len(),
                    forall|m: int| i <= m < j ==> !is_space(#[trigger] s@[m]),
                decreases hi - j,
            {
                j = j + 1;
            }
            proof {
                assert forall|m: int| 0 <= m < j - i implies !is_space(#[trigger] t[m]) by {
                    assert(t[m] == s@[i + m]);
                }
                lemma_word_len_exact(t, j - i);
                assert(t.take(j - i) =~= s@.subrange(i as int, j as int));
                assert(t.skip(j - i) =~= s@.subrange(j as int, hi as int));
            }
            let w = text.substring_char(i, j).to_string();
            let ghost before = views(r@);
            r.push(w);
            assert(views(r@) =~= before.push(s@.subrange(i as int, j as int)));
            i = j;
        }
    }
    assert(s@.subrange(i as int, hi as int) =~= Seq::<char>::empty());
    assert(views(r@) + Seq::<Seq<char>>::empty() =~= views(r@));
    r
}

} // verus!
