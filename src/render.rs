//! Writing tasks back out as definition-file text, and the law that parsing
//! that text gives the same tasks.
use vstd::prelude::*;

use crate::parser::{
    body_len, ellipsis, is_body_line, is_header, lemma_body_len_exact, lemma_trim_exact,
    parse_lines, parse_text, task_from_words, task_of, trim_blank_tail,
};
use crate::task::{task_views, Task, TaskSpec};
use crate::text::{
    is_blank, is_space, lemma_line_len_exact, lemma_word_len_exact, line_len, lines_of, word_len,
    words_of,
};

verus! {

broadcast use vstd::string::group_string_axioms;

/// A non-empty run of characters without whitespace.
pub open spec fn is_word(w: Seq<char>) -> bool {
    w.len() > 0 && forall|i: int| 0 <= i < w.len() ==> !is_space(#[trigger] w[i])
}

pub open spec fn no_line_break(l: Seq<char>) -> bool {
    forall|i: int| 0 <= i < l.len() ==> #[trigger] l[i] != '\n'
}

/// The words of a header after the name.
pub open spec fn header_words(t: TaskSpec) -> Seq<Seq<char>> {
    if t.variadic {
        t.parameters.push(ellipsis())
    } else {
        t.parameters
    }
}

/// Each word preceded by one space.
pub open spec fn spaced(ws: Seq<Seq<char>>) -> Seq<char>
    decreases ws.len(),
{
    if ws.len() == 0 {
        Seq::empty()
    } else {
        seq![' '] + ws[0] + spaced(ws.drop_first())
    }
}

/// The header line of a task, with single spaces between its words.
pub open spec fn header_line(t: TaskSpec) -> Seq<char> {
    t.name + spaced(header_words(t))
}

/// Each task as its header line followed by its body lines.
pub open spec fn render_lines(ts: Seq<TaskSpec>) -> Seq<Seq<char>>
    decreases ts.len(),
{
    if ts.len() == 0 {
        Seq::empty()
    } else {
        seq![header_line(ts[0])] + ts[0].body + render_lines(ts.drop_first())
    }
}

/// Lines joined into a text, each ended by a line break.
pub open spec fn unlines(ls: Seq<Seq<char>>) -> Seq<char>
    decreases ls.len(),
{
    if ls.len() == 0 {
        Seq::empty()
    } else {
        ls[0] + seq!['\n'] + unlines(ls.drop_first())
    }
}

/// The definition-file text that writes out the tasks `ts`.
pub open spec fn render_text(ts: Seq<TaskSpec>) -> Seq<char> {
    unlines(render_lines(ts))
}

/// What holds of every task that parsing yields.
pub open spec fn well_shaped(t: TaskSpec) -> bool {
    &&& is_word(t.name)
    &&& forall|i: int| 0 <= i < t.parameters.len() ==> is_word(#[trigger] t.parameters[i])
    &&& !t.variadic ==> (t.parameters.len() == 0 || t.parameters.last() != ellipsis())
    &&& forall|i: int|
        0 <= i < t.body.len() ==> is_body_line(#[trigger] t.body[i]) && no_line_break(t.body[i])
    &&& t.body.len() > 0 ==> !is_blank(t.body.last())
}

proof fn lemma_line_len_stops(s: Seq<char>)
    ensures
        line_len(s) <= s.len(),
        forall|j: int| 0 <= j < line_len(s) ==> s[j] != '\n',
    decreases s.len(),
{
    if s.len() > 0 && s[0] != '\n' {
        lemma_line_len_stops(s.drop_first());
        assert forall|j: int| 0 <= j < line_len(s) implies s[j] != '\n' by {
            if j > 0 {
                assert(s[j] == s.drop_first()[j - 1]);
            }
        }
    }
}

/// No line of a text holds a line break.
proof fn lemma_lines_unbroken(s: Seq<char>)
    ensures
        forall|i: int| 0 <= i < lines_of(s).len() ==> no_line_break(#[trigger] lines_of(s)[i]),
    decreases s.len(),
{
    if s.len() > 0 {
        let k = line_len(s);
        lemma_line_len_stops(s);
        if k < s.len() {
            lemma_lines_unbroken(s.skip(k + 1 as int));
            let ls = lines_of(s);
            assert forall|i: int| 0 <= i < ls.len() implies no_line_break(#[trigger] ls[i]) by {
                if i > 0 {
                    assert(ls[i] == lines_of(s.skip(k + 1 as int))[i - 1]);
                }
            }
        }
    }
}

proof fn lemma_word_len_stops(s: Seq<char>)
    ensures
        word_len(s) <= s.len(),
        forall|j: int| 0 <= j < word_len(s) ==> !is_space(#[trigger] s[j]),
    decreases s.len(),
{
    if s.len() > 0 && !is_space(s[0]) {
        lemma_word_len_stops(s.drop_first());
        assert forall|j: int| 0 <= j < word_len(s) implies !is_space(#[trigger] s[j]) by {
            if j > 0 {
                assert(s[j] == s.drop_first()[j - 1]);
            }
        }
    }
}

/// Every word of a line is a word.
proof fn lemma_words_are_words(s: Seq<char>)
    ensures
        forall|i: int| 0 <= i < words_of(s).len() ==> is_word(#[trigger] words_of(s)[i]),
    decreases s.len(),
{
    if s.len() > 0 {
        if is_space(s[0]) {
            lemma_words_are_words(s.drop_first());
            assert(words_of(s) == words_of(s.drop_first()));
        } else {
            let k = word_len(s);
            crate::text::lemma_word_len_bound(s);
            lemma_word_len_stops(s);
            lemma_words_are_words(s.skip(k as int));
            let ws = words_of(s);
            assert(ws == seq![s.take(k as int)] + words_of(s.skip(k as int)));
            assert forall|i: int| 0 <= i < ws.len() implies is_word(#[trigger] ws[i]) by {
                if i > 0 {
                    assert(ws[i] == words_of(s.skip(k as int))[i - 1]);
                } else {
                    let w = s.take(k as int);
                    assert(ws[0] == w);
                    assert forall|j: int| 0 <= j < w.len() implies !is_space(#[trigger] w[j]) by {
                        assert(w[j] == s[j]);
                    }
                }
            }
        }
    }
}

proof fn lemma_body_len_lines(ls: Seq<Seq<char>>)
    ensures
        body_len(ls) <= ls.len(),
        forall|j: int| 0 <= j < body_len(ls) ==> is_body_line(#[trigger] ls[j]),
    decreases ls.len(),
{
    if ls.len() > 0 && is_body_line(ls[0]) {
        lemma_body_len_lines(ls.drop_first());
        assert forall|j: int| 0 <= j < body_len(ls) implies is_body_line(#[trigger] ls[j]) by {
            if j > 0 {
                assert(ls[j] == ls.drop_first()[j - 1]);
            }
        }
    }
}

proof fn lemma_trim_prefix(b: Seq<Seq<char>>)
    ensures
        trim_blank_tail(b).len() <= b.len(),
        trim_blank_tail(b) == b.take(trim_blank_tail(b).len() as int),
        trim_blank_tail(b).len() > 0 ==> !is_blank(trim_blank_tail(b).last()),
    decreases b.len(),
{
    if b.len() > 0 && is_blank(b.last()) {
        lemma_trim_prefix(b.drop_last());
        let m = trim_blank_tail(b).len() as int;
        assert(b.drop_last().take(m) =~= b.take(m));
    } else {
        assert(b.take(b.len() as int) =~= b);
    }
}

/// Parsing yields well-shaped tasks.
proof fn lemma_parse_shaped(ls: Seq<Seq<char>>)
    requires
        forall|i: int| 0 <= i < ls.len() ==> no_line_break(#[trigger] ls[i]),
        parse_lines(ls) is Some,
    ensures
        forall|i: int|
            0 <= i < parse_lines(ls)->0.len() ==> well_shaped(#[trigger] parse_lines(ls)->0[i]),
    decreases ls.len(),
{
    if ls.len() == 0 {
    } else if is_header(ls[0]) {
        let rest = ls.drop_first();
        let n = body_len(rest);
        lemma_body_len_lines(rest);
        let tail = rest.skip(n as int);
        assert forall|i: int| 0 <= i < tail.len() implies no_line_break(#[trigger] tail[i]) by {
            assert(tail[i] == ls[i + 1 + n]);
        }
        lemma_parse_shaped(tail);
        let body = rest.take(n as int);
        let t = task_of(ls[0], body);
        crate::parser::lemma_words_nonempty(ls[0]);
        lemma_words_are_words(ls[0]);
        lemma_trim_prefix(body);
        let ws = words_of(ls[0]);
        assert(is_word(ws[0]));
        assert forall|i: int| 0 <= i < t.parameters.len() implies is_word(
            #[trigger] t.parameters[i],
        ) by {
            assert(t.parameters[i] == ws[i + 1]);
        }
        assert forall|i: int| 0 <= i < t.body.len() implies is_body_line(#[trigger] t.body[i])
            && no_line_break(t.body[i]) by {
            assert(t.body[i] == body[i]);
            assert(body[i] == ls[i + 1]);
        }
        let r = parse_lines(ls)->0;
        assert forall|i: int| 0 <= i < r.len() implies well_shaped(#[trigger] r[i]) by {
            if i > 0 {
                assert(r[i] == parse_lines(tail)->0[i - 1]);
            }
        }
    } else {
        assert forall|i: int| 0 <= i < ls.len() - 1 implies no_line_break(
            #[trigger] ls.drop_first()[i],
        ) by {
            assert(ls.drop_first()[i] == ls[i + 1]);
        }
        lemma_parse_shaped(ls.drop_first());
    }
}

/// Splitting joined lines gives them back.
proof fn lemma_unlines(ls: Seq<Seq<char>>)
    requires
        forall|i: int| 0 <= i < ls.len() ==> no_line_break(#[trigger] ls[i]),
    ensures
        lines_of(unlines(ls)) == ls,
    decreases ls.len(),
{
    if ls.len() > 0 {
        let l = ls[0];
        let u = unlines(ls.drop_first());
        let s = unlines(ls);
        assert(s == l + seq!['\n'] + u);
        assert forall|j: int| 0 <= j < l.len() implies s[j] != '\n' by {
            assert(s[j] == l[j]);
        }
        lemma_line_len_exact(s, l.len() as int);
        assert(s.take(l.len() as int) =~= l);
        assert(s.skip(l.len() + 1 as int) =~= u);
        assert forall|i: int| 0 <= i < ls.len() - 1 implies no_line_break(
            #[trigger] ls.drop_first()[i],
        ) by {
            assert(ls.drop_first()[i] == ls[i + 1]);
        }
        lemma_unlines(ls.drop_first());
        assert(seq![l] + ls.drop_first() =~= ls);
    }
}

/// A word followed by whitespace or nothing is the first word.
proof fn lemma_words_word_then(w: Seq<char>, r: Seq<char>)
    requires
        is_word(w),
        r.len() == 0 || is_space(r[0]),
    ensures
        words_of(w + r) == seq![w] + words_of(r),
{
    let s = w + r;
    assert forall|j: int| 0 <= j < w.len() implies !is_space(#[trigger] s[j]) by {
        assert(s[j] == w[j]);
    }
    if r.len() > 0 {
        assert(s[w.len() as int] == r[0]);
    }
    lemma_word_len_exact(s, w.len() as int);
    assert(s.take(w.len() as int) =~= w);
    assert(s.skip(w.len() as int) =~= r);
}

proof fn lemma_words_spaced(ws: Seq<Seq<char>>)
    requires
        forall|i: int| 0 <= i < ws.len() ==> is_word(#[trigger] ws[i]),
    ensures
        words_of(spaced(ws)) == ws,
        spaced(ws).len() == 0 || spaced(ws)[0] == ' ',
    decreases ws.len(),
{
    if ws.len() > 0 {
        let rest = ws.drop_first();
        assert forall|i: int| 0 <= i < rest.len() implies is_word(#[trigger] rest[i]) by {
            assert(rest[i] == ws[i + 1]);
        }
        lemma_words_spaced(rest);
        let s = spaced(ws);
        assert(s.drop_first() =~= ws[0] + spaced(rest));
        assert(is_word(ws[0]));
        lemma_words_word_then(ws[0], spaced(rest));
        assert(seq![ws[0]] + rest =~= ws);
    }
}

proof fn lemma_no_break_concat(a: Seq<char>, b: Seq<char>)
    requires
        no_line_break(a),
        no_line_break(b),
    ensures
        no_line_break(a + b),
{
    assert forall|i: int| 0 <= i < (a + b).len() implies #[trigger] (a + b)[i] != '\n' by {
        if i < a.len() {
            assert((a + b)[i] == a[i]);
        } else {
            assert((a + b)[i] == b[i - a.len()]);
        }
    }
}

proof fn lemma_spaced_unbroken(ws: Seq<Seq<char>>)
    requires
        forall|i: int| 0 <= i < ws.len() ==> is_word(#[trigger] ws[i]),
    ensures
        no_line_break(spaced(ws)),
    decreases ws.len(),
{
    if ws.len() > 0 {
        let rest = ws.drop_first();
        assert forall|i: int| 0 <= i < rest.len() implies is_word(#[trigger] rest[i]) by {
            assert(rest[i] == ws[i + 1]);
        }
        lemma_spaced_unbroken(rest);
        assert(is_word(ws[0]));
        assert(no_line_break(seq![' ']));
        lemma_no_break_concat(seq![' '], ws[0]);
        lemma_no_break_concat(seq![' '] + ws[0], spaced(rest));
    }
}

/// What the header line of a well-shaped task is made of.
proof fn lemma_header_line(t: TaskSpec)
    requires
        well_shaped(t),
        t.name[0] != '#',
    ensures
        is_header(header_line(t)),
        no_line_break(header_line(t)),
        words_of(header_line(t)) == seq![t.name] + header_words(t),
{
    let hw = header_words(t);
    assert forall|i: int| 0 <= i < hw.len() implies is_word(#[trigger] hw[i]) by {
        if i < t.parameters.len() {
            assert(hw[i] == t.parameters[i]);
        } else {
            assert(hw[i] == ellipsis());
        }
    }
    lemma_words_spaced(hw);
    lemma_spaced_unbroken(hw);
    lemma_words_word_then(t.name, spaced(hw));
    let h = header_line(t);
    assert(h[0] == t.name[0]);
    assert(!is_blank(h));
    assert(no_line_break(t.name));
    lemma_no_break_concat(t.name, spaced(hw));
}

/// Parsing the rendering of well-shaped tasks gives them back.
proof fn lemma_parse_render(ts: Seq<TaskSpec>)
    requires
        forall|i: int| 0 <= i < ts.len() ==> well_shaped(#[trigger] ts[i]),
        forall|i: int| 0 <= i < ts.len() ==> (#[trigger] ts[i]).name[0] != '#',
    ensures
        parse_lines(render_lines(ts)) == Some(ts),
        forall|i: int|
            0 <= i < render_lines(ts).len() ==> no_line_break(#[trigger] render_lines(ts)[i]),
        render_lines(ts).len() > 0 ==> is_header(render_lines(ts)[0]),
    decreases ts.len(),
{
    if ts.len() > 0 {
        let t = ts[0];
        let more = ts.drop_first();
        assert forall|i: int| 0 <= i < more.len() implies well_shaped(#[trigger] more[i]) && more[i].name[0] != '#' by {
            assert(more[i] == ts[i + 1]);
        }
        lemma_parse_render(more);
        lemma_header_line(t);
        let h = header_line(t);
        let r = render_lines(more);
        let ls = render_lines(ts);
        assert(ls == seq![h] + t.body + r);
        let rest = ls.drop_first();
        assert(rest =~= t.body + r);
        assert forall|j: int| 0 <= j < t.body.len() implies is_body_line(#[trigger] rest[j]) by {
            assert(rest[j] == t.body[j]);
        }
        if r.len() > 0 {
            assert(rest[t.body.len() as int] == r[0]);
        }
        lemma_body_len_exact(rest, t.body.len() as int);
        assert(rest.skip(t.body.len() as int) =~= r);
        assert(rest.take(t.body.len() as int) =~= t.body);
        lemma_trim_exact(t.body, t.body.len() as int);
        assert(t.body.take(t.body.len() as int) =~= t.body);
        let words = words_of(h);
        let got = task_from_words(words, t.body);
        assert(words.drop_first() =~= header_words(t));
        if t.variadic {
            assert(header_words(t).drop_last() =~= t.parameters);
        }
        assert(got == t);
        assert(seq![t] + more =~= ts);
        assert forall|i: int| 0 <= i < ls.len() implies no_line_break(#[trigger] ls[i]) by {
            if i == 0 {
            } else if i < 1 + t.body.len() {
                assert(ls[i] == t.body[i - 1]);
            } else {
                assert(ls[i] == r[i - 1 - t.body.len()]);
            }
        }
    } else {
        assert(render_lines(ts) =~= Seq::<Seq<char>>::empty());
    }
}

/// Writing out the tasks of a definition file, with single spaces between
/// header words and without comments or blank lines between tasks, gives a
/// text that defines the same tasks. Excluded are names that start with `#`:
/// such a name can only come from a header that starts with a tab, and
/// written out it would start a comment line.
pub proof fn lemma_round_trip(s: Seq<char>)
    requires
        parse_text(s) is Some,
        forall|i: int|
            0 <= i < parse_text(s)->0.len() ==> (#[trigger] parse_text(s)->0[i]).name[0] != '#',
    ensures
        parse_text(render_text(parse_text(s)->0)) == parse_text(s),
{
    let ts = parse_text(s)->0;
    lemma_lines_unbroken(s);
    lemma_parse_shaped(lines_of(s));
    lemma_parse_render(ts);
    lemma_unlines(render_lines(ts));
}

proof fn lemma_unlines_concat(a: Seq<Seq<char>>, b: Seq<Seq<char>>)
    ensures
        unlines(a + b) == unlines(a) + unlines(b),
    decreases a.len(),
{
    if a.len() == 0 {
        assert(a + b =~= b);
        assert(unlines(a) + unlines(b) =~= unlines(b));
    } else {
        lemma_unlines_concat(a.drop_first(), b);
        assert((a + b).drop_first() =~= a.drop_first() + b);
        assert(unlines(a + b) =~= unlines(a) + unlines(b));
    }
}

proof fn lemma_unlines_push(a: Seq<Seq<char>>, l: Seq<char>)
    ensures
        unlines(a.push(l)) == unlines(a) + l + seq!['\n'],
{
    lemma_unlines_concat(a, seq![l]);
    assert(a + seq![l] =~= a.push(l));
    assert(seq![l].drop_first() =~= Seq::<Seq<char>>::empty());
    assert(unlines(seq![l].drop_first()) == Seq::<char>::empty());
    assert(unlines(seq![l]) =~= l + seq!['\n']);
    assert(unlines(a) + (l + seq!['\n']) =~= unlines(a) + l + seq!['\n']);
}

proof fn lemma_spaced_push(ws: Seq<Seq<char>>, w: Seq<char>)
    ensures
        spaced(ws.push(w)) == spaced(ws) + seq![' '] + w,
    decreases ws.len(),
{
    if ws.len() == 0 {
        assert(ws.push(w).drop_first() =~= Seq::<Seq<char>>::empty());
        assert(spaced(ws.push(w).drop_first()) == Seq::<char>::empty());
        assert(ws.push(w)[0] == w);
        assert(spaced(ws.push(w)) =~= seq![' '] + w);
        assert(spaced(ws) + seq![' '] + w =~= seq![' '] + w);
    } else {
        lemma_spaced_push(ws.drop_first(), w);
        assert(ws.push(w).drop_first() =~= ws.drop_first().push(w));
        assert(spaced(ws.push(w)) =~= spaced(ws) + seq![' '] + w);
    }
}

proof fn lemma_render_push(ts: Seq<TaskSpec>, t: TaskSpec)
    ensures
        render_lines(ts.push(t)) == render_lines(ts) + (seq![header_line(t)] + t.body),
    decreases ts.len(),
{
    if ts.len() == 0 {
        assert(ts.push(t).drop_first() =~= Seq::<TaskSpec>::empty());
        assert(render_lines(ts.push(t).drop_first()) == Seq::<Seq<char>>::empty());
        assert(ts.push(t)[0] == t);
        assert(render_lines(ts) == Seq::<Seq<char>>::empty());
        assert(render_lines(ts.push(t)) =~= render_lines(ts) + (seq![header_line(t)] + t.body));
    } else {
        lemma_render_push(ts.drop_first(), t);
        assert(ts.push(t).drop_first() =~= ts.drop_first().push(t));
        assert(render_lines(ts.push(t)) =~= render_lines(ts) + (seq![header_line(t)] + t.body));
    }
}

/// The header line of `t`: its name, its parameters and, where it is
/// variadic, the marker `...`, each after one space.
pub fn header_text(t: &Task) -> (r: String)
    ensures
        r@ == header_line(t@),
{
    let mut r = t.name.clone();
    let ghost ps = t@.parameters;
    let mut i: usize = 0;
    assert(r@ =~= t@.name + spaced(ps.take(0)));
    while i < t.parameters.len()
        invariant
            i <= t.parameters.len(),
            ps == t@.parameters,
            r@ == t@.name + spaced(ps.take(i as int)),
        decreases t.parameters.len() - i,
    {
        proof {
            reveal_strlit(" ");
            lemma_spaced_push(ps.take(i as int), ps[i as int]);
            assert(ps.take(i + 1) =~= ps.take(i as int).push(ps[i as int]));
            assert(ps[i as int] == t.parameters@[i as int]@);
        }
        r.append(" ");
        r.append(t.parameters[i].as_str());
        assert(r@ =~= t@.name + spaced(ps.take(i + 1)));
        i = i + 1;
    }
    assert(ps.take(i as int) =~= ps);
    if t.variadic {
        proof {
            reveal_strlit(" ...");
            lemma_spaced_push(ps, ellipsis());
        }
        r.append(" ...");
        assert(r@ =~= t@.name + spaced(ps.push(ellipsis())));
    }
    r
}

/// Definition-file text that writes out `tasks`: each header line followed by
/// its body lines, every line ended by a line break.
pub fn render(tasks: &Vec<Task>) -> (r: String)
    ensures
        r@ == render_text(task_views(tasks@)),
{
    let ghost ts = task_views(tasks@);
    let mut r = String::new();
    let mut i: usize = 0;
    assert(ts.take(0) =~= Seq::<TaskSpec>::empty());
    assert(r@ =~= unlines(render_lines(ts.take(0))));
    while i < tasks.len()
        invariant
            i <= tasks.len(),
            ts == task_views(tasks@),
            r@ == unlines(render_lines(ts.take(i as int))),
        decreases tasks.len() - i,
    {
        let t = &tasks[i];
        assert(ts[i as int] == t@);
        let ghost done = render_lines(ts.take(i as int));
        let header = header_text(t);
        proof {
            reveal_strlit("\n");
            lemma_unlines_push(done, header@);
        }
        r.append(header.as_str());
        r.append("\n");
        assert(r@ =~= unlines(done.push(header@)));
        let mut j: usize = 0;
        assert(done + (seq![header_line(t@)] + t@.body.take(0)) =~= done.push(header@));
        while j < t.body.len()
            invariant
                i < tasks.len(),
                ts == task_views(tasks@),
                j <= t.body.len(),
                t@ == ts[i as int],
                r@ == unlines(done + (seq![header_line(t@)] + t@.body.take(j as int))),
            decreases t.body.len() - j,
        {
            let ghost before = done + (seq![header_line(t@)] + t@.body.take(j as int));
            proof {
                reveal_strlit("\n");
                lemma_unlines_push(before, t@.body[j as int]);
                assert(t@.body[j as int] == t.body@[j as int]@);
                assert(before.push(t@.body[j as int]) =~= done + (seq![header_line(t@)]
                    + t@.body.take(j + 1)));
            }
            r.append(t.body[j].as_str());
            r.append("\n");
            assert(r@ =~= unlines(before.push(t@.body[j as int])));
            j = j + 1;
        }
        proof {
            assert(t@.body.take(j as int) =~= t@.body);
            lemma_render_push(ts.take(i as int), t@);
            assert(ts.take(i + 1) =~= ts.take(i as int).push(t@));
        }
        i = i + 1;
    }
    assert(ts.take(i as int) =~= ts);
    r
}

} // verus!
