//! The definition-file grammar.
//!
//! A file is a sequence of lines. Blank lines and comment lines (starting with
//! `#`) may stand between tasks. A task is a header line (not blank, first
//! character neither `#` nor a space) followed by its body: the longest run of
//! blank lines and lines that start with a space. Any other arrangement, such
//! as an indented line where a header is expected, makes the whole file
//! malformed.
use vstd::prelude::*;

use crate::error::Error;
use crate::task::{task_views, Task, TaskSpec};
use crate::text::{
    chars_of, is_blank, is_space, is_space_char, line_spans, lines_of, pieces, views, words_in,
    words_of,
};

verus! {

broadcast use vstd::string::group_string_axioms;

pub open spec fn is_comment(l: Seq<char>) -> bool {
    !is_blank(l) && l[0] == '#'
}

pub open spec fn is_indented(l: Seq<char>) -> bool {
    !is_blank(l) && l[0] == ' '
}

pub open spec fn is_header(l: Seq<char>) -> bool {
    !is_blank(l) && l[0] != '#' && l[0] != ' '
}

/// A line that may belong to a body.
pub open spec fn is_body_line(l: Seq<char>) -> bool {
    is_blank(l) || is_indented(l)
}

/// The word that marks a task as variadic when it ends a header.
pub open spec fn ellipsis() -> Seq<char> {
    seq!['.', '.', '.']
}

/// Number of leading lines of `ls` that may belong to a body.
pub open spec fn body_len(ls: Seq<Seq<char>>) -> nat
    decreases ls.len(),
{
    if ls.len() > 0 && is_body_line(ls[0]) {
        1 + body_len(ls.drop_first())
    } else {
        0
    }
}

/// `b` without its trailing blank lines.
pub open spec fn trim_blank_tail(b: Seq<Seq<char>>) -> Seq<Seq<char>>
    decreases b.len(),
{
    if b.len() > 0 && is_blank(b.last()) {
        trim_blank_tail(b.drop_last())
    } else {
        b
    }
}

/// The task whose header has the words `words` and whose body is `body`.
pub open spec fn task_from_words(words: Seq<Seq<char>>, body: Seq<Seq<char>>) -> TaskSpec {
    let rest = words.drop_first();
    let variadic = rest.len() > 0 && rest.last() == ellipsis();
    TaskSpec {
        name: words[0],
        parameters: if variadic {
            rest.drop_last()
        } else {
            rest
        },
        variadic,
        body,
    }
}

/// The task that a header line and the lines of its body describe.
pub open spec fn task_of(header: Seq<char>, body: Seq<Seq<char>>) -> TaskSpec {
    task_from_words(words_of(header), trim_blank_tail(body))
}

/// The tasks that the lines `ls` define, or `None` where they break the grammar.
pub open spec fn parse_lines(ls: Seq<Seq<char>>) -> Option<Seq<TaskSpec>>
    decreases ls.len(),
{
    if ls.len() == 0 {
        Some(Seq::empty())
    } else if is_header(ls[0]) {
        let rest = ls.drop_first();
        let n = body_len(rest);
        proof {
            lemma_body_len_bound(rest);
        }
        match parse_lines(rest.skip(n as int)) {
            Some(ts) => Some(seq![task_of(ls[0], rest.take(n as int))] + ts),
            None => None,
        }
    } else if is_indented(ls[0]) {
        None
    } else {
        parse_lines(ls.drop_first())
    }
}

/// The tasks that the text `s` defines, or `None` where it is malformed.
pub open spec fn parse_text(s: Seq<char>) -> Option<Seq<TaskSpec>> {
    parse_lines(lines_of(s))
}

pub proof fn lemma_body_len_bound(ls: Seq<Seq<char>>)
    ensures
        body_len(ls) <= ls.len(),
    decreases ls.len(),
{
    if ls.len() > 0 && is_body_line(ls[0]) {
        lemma_body_len_bound(ls.drop_first());
    }
}

/// `body_len` is the position of the first line that cannot belong to a body.
pub proof fn lemma_body_len_exact(ls: Seq<Seq<char>>, k: int)
    requires
        0 <= k <= ls.len(),
        forall|j: int| 0 <= j < k ==> is_body_line(#[trigger] ls[j]),
        k == ls.len() || !is_body_line(ls[k]),
    ensures
        body_len(ls) == k,
    decreases k,
{
    if k > 0 {
        assert forall|j: int| 0 <= j < k - 1 implies is_body_line(#[trigger] ls.drop_first()[j]) by {
            assert(ls.drop_first()[j] == ls[j + 1]);
        }
        lemma_body_len_exact(ls.drop_first(), k - 1);
    }
}

/// Trimming stops at the last line that is not blank.
pub proof fn lemma_trim_exact(b: Seq<Seq<char>>, k: int)
    requires
        0 <= k <= b.len(),
        forall|j: int| k <= j < b.len() ==> is_blank(#[trigger] b[j]),
        k == 0 || !is_blank(b[k - 1]),
    ensures
        trim_blank_tail(b) == b.take(k),
    decreases b.len(),
{
    if b.len() > k {
        assert(b.drop_last().take(k) =~= b.take(k));
        lemma_trim_exact(b.drop_last(), k);
    } else {
        assert(b.take(k) =~= b);
    }
}

/// A line that is not blank has a word.
pub proof fn lemma_words_nonempty(l: Seq<char>)
    requires
        !is_blank(l),
    ensures
        words_of(l).len() > 0,
    decreases l.len(),
{
    if is_space(l[0]) {
        assert(!is_blank(l.drop_first())) by {
            let i = choose|i: int| 0 <= i < l.len() && !is_space(#[trigger] l[i]);
            assert(l.drop_first()[i - 1] == l[i]);
        }
        lemma_words_nonempty(l.drop_first());
    }
}

/// Whether the characters of `s` from `lo` to `hi` are all whitespace.
fn blank_between(s: &Vec<char>, lo: usize, hi: usize) -> (b: bool)
    requires
        lo <= hi <= s.len(),
    ensures
        b == is_blank(s@.subrange(lo as int, hi as int)),
{
    let mut i: usize = lo;
    while i < hi
        invariant
            lo <= i <= hi <= s.len(),
            forall|j: int| lo <= j < i ==> is_space(#[trigger] s@[j]),
        decreases hi - i,
    {
        if !is_space_char(s[i]) {
            assert(s@.subrange(lo as int, hi as int)[i - lo] == s@[i as int]);
            return false;
        }
        i = i + 1;
    }
    assert forall|j: int| 0 <= j < hi - lo implies is_space(
        #[trigger] s@.subrange(lo as int, hi as int)[j],
    ) by {
        assert(s@.subrange(lo as int, hi as int)[j] == s@[lo + j]);
    }
    true
}

/// Whether a string is the variadic marker `...`.
fn is_ellipsis(w: &String) -> (b: bool)
    ensures
        b == (w@ == ellipsis()),
{
    let t = w.as_str();
    if t.unicode_len() != 3 {
        return false;
    }
    let b = t.get_char(0) == '.' && t.get_char(1) == '.' && t.get_char(2) == '.';
    assert(b ==> w@ =~= ellipsis());
    b
}

/// The text of the line that runs from `lo` to `hi`.
fn line_string(text: &str, s: &Vec<char>, lo: usize, hi: usize) -> (r: String)
    requires
        s@ == text@,
        lo <= hi <= s.len(),
    ensures
        r@ == s@.subrange(lo as int, hi as int),
{
    text.substring_char(lo, hi).to_string()
}

/// Builds a task from the words of its header and its body lines.
fn task_from(words: Vec<String>, body: Vec<String>) -> (r: Task)
    requires
        words.len() > 0,
    ensures
        r@ == task_from_words(views(words@), views(body@)),
{
    let mut parameters = words;
    let ghost w = views(parameters@);
    let name = parameters.remove(0);
    assert(views(parameters@) =~= w.drop_first());
    let variadic = parameters.len() > 0 && is_ellipsis(&parameters[parameters.len() - 1]);
    if variadic {
        let ghost rest = views(parameters@);
        parameters.pop();
        assert(views(parameters@) =~= rest.drop_last());
    }
    Task { name, parameters, variadic, body }
}

/// Whether the line from `lo` to `hi` may belong to a body.
fn body_line_between(s: &Vec<char>, lo: usize, hi: usize) -> (b: bool)
    requires
        lo <= hi <= s.len(),
    ensures
        b == is_body_line(s@.subrange(lo as int, hi as int)),
{
    blank_between(s, lo, hi) || s[lo] == ' '
}

/// Reads the task whose header is line `i`; returns it with the index of the
/// first line after its body.
fn read_task(text: &str, s: &Vec<char>, spans: &Vec<(usize, usize)>, i: usize) -> (r: (Task, usize))
    requires
        s@ == text@,
        forall|m: int| 0 <= m < spans.len() ==> (#[trigger] spans@[m]).0 <= spans@[m].1 <= s.len(),
        i < spans.len(),
        is_header(pieces(s@, spans@)[i as int]),
    ensures
        r.1 == i + 1 + body_len(pieces(s@, spans@).skip(i + 1)),
        r.1 <= spans.len(),
        r.0@ == task_of(
            pieces(s@, spans@)[i as int],
            pieces(s@, spans@).subrange(i + 1, r.1 as int),
        ),
{
    let ghost ls = pieces(s@, spans@);
    let (lo, hi) = spans[i];
    let words = words_in(text, s, lo, hi);
    proof {
        lemma_words_nonempty(ls[i as int]);
    }
    let mut j: usize = i + 1;
    while j < spans.len() && body_line_between(s, spans[j].0, spans[j].1)
        invariant
            i < j <= spans.len(),
            ls == pieces(s@, spans@),
            forall|m: int| 0 <= m < spans.len() ==> (#[trigger] spans@[m]).0 <= spans@[m].1 <= s.len(),
            forall|m: int| i < m < j ==> is_body_line(#[trigger] ls[m]),
        decreases spans.len() - j,
    {
        j = j + 1;
    }
    proof {
        let rest = ls.skip(i + 1);
        assert forall|m: int| 0 <= m < j - i - 1 implies is_body_line(#[trigger] rest[m]) by {
            assert(rest[m] == ls[i + 1 + m]);
        }
        if j < spans.len() {
            assert(rest[j - i - 1] == ls[j as int]);
        }
        lemma_body_len_exact(rest, j - i - 1);
    }
    let mut k: usize = j;
    while k > i + 1 && blank_between(s, spans[k - 1].0, spans[k - 1].1)
        invariant
            i < k <= j <= spans.len(),
            ls == pieces(s@, spans@),
            forall|m: int| 0 <= m < spans.len() ==> (#[trigger] spans@[m]).0 <= spans@[m].1 <= s.len(),
            forall|m: int| k <= m < j ==> is_blank(#[trigger] ls[m]),
        decreases k,
    {
        k = k - 1;
    }
    let mut body: Vec<String> = Vec::new();
    let mut m: usize = i + 1;
    while m < k
        invariant
            s@ == text@,
            i < m <= k <= spans.len(),
            ls == pieces(s@, spans@),
            forall|q: int| 0 <= q < spans.len() ==> (#[trigger] spans@[q]).0 <= spans@[q].1 <= s.len(),
            views(body@) == ls.subrange(i + 1, m as int),
        decreases k - m,
    {
        let line = line_string(text, s, spans[m].0, spans[m].1);
        let ghost before = views(body@);
        body.push(line);
        assert(views(body@) =~= before.push(ls[m as int]));
        assert(ls.subrange(i + 1, m + 1) =~= ls.subrange(i + 1, m as int).push(ls[m as int]));
        m = m + 1;
    }
    proof {
        let b = ls.subrange(i + 1, j as int);
        assert forall|q: int| k - i - 1 <= q < b.len() implies is_blank(#[trigger] b[q]) by {
            assert(b[q] == ls[i + 1 + q]);
        }
        if k > i + 1 {
            assert(b[k - i - 2] == ls[k - 1]);
        }
        lemma_trim_exact(b, k - i - 1);
        assert(b.take(k - i - 1) =~= ls.subrange(i + 1, k as int));
    }
    (task_from(words, body), j)
}

/// Combines the tasks read so far with what the rest of the file gives.
pub open spec fn prepend(done: Seq<TaskSpec>, rest: Option<Seq<TaskSpec>>) -> Option<
    Seq<TaskSpec>,
> {
    match rest {
        Some(ts) => Some(done + ts),
        None => None,
    }
}

/// The tasks that a definition file defines, in the order of their headers.
/// Fails, with nothing read, where the text breaks the grammar.
pub fn parse(text: &str) -> (r: Result<Vec<Task>, Error>)
    ensures
        match parse_text(text@) {
            Some(ts) => r is Ok && task_views(r->Ok_0@) == ts,
            None => r is Err && r->Err_0 is MalformedDefinitionFile,
        },
{
    let s = chars_of(text);
    let spans = line_spans(&s);
    let ghost ls = pieces(s@, spans@);
    let mut tasks: Vec<Task> = Vec::new();
    let mut i: usize = 0;
    assert(ls.skip(0) =~= ls);
    assert(prepend(task_views(tasks@), parse_lines(ls)) =~= parse_lines(ls)) by {
        assert(task_views(tasks@) =~= Seq::<TaskSpec>::empty());
        if let Some(ts) = parse_lines(ls) {
            assert(Seq::<TaskSpec>::empty() + ts =~= ts);
        }
    }
    while i < spans.len()
        invariant
            s@ == text@,
            ls == pieces(s@, spans@),
            ls == lines_of(text@),
            forall|m: int| 0 <= m < spans.len() ==> (#[trigger] spans@[m]).0 <= spans@[m].1 <= s.len(),
            i <= spans.len(),
            parse_lines(ls) == prepend(task_views(tasks@), parse_lines(ls.skip(i as int))),
        decreases spans.len() - i,
    {
        let ghost rest = ls.skip(i as int);
        assert(rest[0] == ls[i as int]);
        assert(rest.drop_first() =~= ls.skip(i + 1));
        let (lo, hi) = spans[i];
        if blank_between(&s, lo, hi) || s[lo] == '#' {
            i = i + 1;
        } else if s[lo] == ' ' {
            return Err(Error::MalformedDefinitionFile);
        } else {
            let (task, j) = read_task(text, &s, &spans, i);
            proof {
                let n = body_len(rest.drop_first());
                assert(rest.drop_first().skip(n as int) =~= ls.skip(j as int));
                assert(rest.drop_first().take(n as int) =~= ls.subrange(i + 1, j as int));
            }
            let ghost before = task_views(tasks@);
            tasks.push(task);
            assert(task_views(tasks@) =~= before.push(task@));
            proof {
                if let Some(ts) = parse_lines(ls.skip(j as int)) {
                    assert(before + (seq![task@] + ts) =~= before.push(task@) + ts);
                }
            }
            i = j;
        }
    }
    assert(ls.skip(i as int) =~= Seq::<Seq<char>>::empty());
    assert(task_views(tasks@) + Seq::<TaskSpec>::empty() =~= task_views(tasks@));
    Ok(tasks)
}

/// An indented line with nothing but blank and comment lines before it is a
/// body line without a header: the text defines no task at all.
pub proof fn lemma_body_before_header(ls: Seq<Seq<char>>, i: int)
    requires
        0 <= i < ls.len(),
        is_indented(ls[i]),
        forall|j: int| 0 <= j < i ==> is_blank(#[trigger] ls[j]) || is_comment(ls[j]),
    ensures
        parse_lines(ls) is None,
    decreases i,
{
    if i > 0 {
        assert forall|j: int| 0 <= j < i - 1 implies is_blank(#[trigger] ls.drop_first()[j])
            || is_comment(ls.drop_first()[j]) by {
            assert(ls.drop_first()[j] == ls[j + 1]);
        }
        lemma_body_before_header(ls.drop_first(), i - 1);
    }
}

/// After a comment line the grammar expects no body: where the lines after
/// it do not parse, neither does the whole.
proof fn lemma_fails_after_comment(ls: Seq<Seq<char>>, c: int)
    requires
        0 <= c < ls.len(),
        is_comment(ls[c]),
        parse_lines(ls.skip(c + 1)) is None,
    ensures
        parse_lines(ls) is None,
    decreases ls.len(),
{
    if c == 0 {
        assert(ls.skip(1) =~= ls.drop_first());
    } else if is_header(ls[0]) {
        let rest = ls.drop_first();
        let n = body_len(rest);
        lemma_body_len_bound(rest);
        lemma_body_len_prefix(rest, c - 1);
        let tail = rest.skip(n as int);
        assert(tail[c - 1 - n] == ls[c]);
        assert(tail.skip(c - n) =~= ls.skip(c + 1));
        lemma_fails_after_comment(tail, c - 1 - n);
    } else if !is_indented(ls[0]) {
        assert(ls.drop_first()[c - 1] == ls[c]);
        assert(ls.drop_first().skip(c) =~= ls.skip(c + 1));
        lemma_fails_after_comment(ls.drop_first(), c - 1);
    }
}

/// A body never runs past a line that cannot belong to it.
proof fn lemma_body_len_prefix(ls: Seq<Seq<char>>, k: int)
    requires
        0 <= k < ls.len(),
        !is_body_line(ls[k]),
    ensures
        body_len(ls) <= k,
    decreases k,
{
    if k > 0 && is_body_line(ls[0]) {
        assert(ls.drop_first()[k - 1] == ls[k]);
        lemma_body_len_prefix(ls.drop_first(), k - 1);
    }
}

/// An indented line whose nearest line that is not blank is a comment is a
/// body line without a header: the text defines no task at all.
pub proof fn lemma_body_after_comment(ls: Seq<Seq<char>>, c: int, i: int)
    requires
        0 <= c < i < ls.len(),
        is_comment(ls[c]),
        forall|j: int| c < j < i ==> is_blank(#[trigger] ls[j]),
        is_indented(ls[i]),
    ensures
        parse_lines(ls) is None,
{
    let tail = ls.skip(c + 1);
    assert forall|j: int| 0 <= j < i - c - 1 implies is_blank(#[trigger] tail[j])
        || is_comment(tail[j]) by {
        assert(tail[j] == ls[c + 1 + j]);
    }
    assert(tail[i - c - 1] == ls[i]);
    lemma_body_before_header(tail, i - c - 1);
    lemma_fails_after_comment(ls, c);
}

} // verus!
