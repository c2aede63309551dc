//! The modified PHP files that `git status --short` reports.
//!
//! Each line of `git status --short` reads `XY path`: two status letters and a
//! space, then the path. A line shorter than four bytes carries no path; the
//! path is what follows the third byte, trimmed. Paths that end with `.php`
//! are kept, with every `back/` taken out of them unless they already start
//! with `src/` or `tests/` (the project sits under `back/` in the repository
//! while the container sees it at its root).
use vstd::prelude::*;

use crate::command::{views, CommandError};
use crate::text::{
    first_index_of, is_white, lemma_trim_no_white_ends, occurs_at, chars_of, ends_with, has_prefix_at, has_suffix_at, lemma_first_index_is,
    lemma_utf8_len_at_least_len, lemma_utf8_len_grows, lemma_utf8_len_take_step, lines_of, piece,
    starts_with, strip_cr, trim, trim_bounds, utf8_len, utf8_width,
};

verus! {

pub open spec fn back_dir() -> Seq<char> {
    seq!['b', 'a', 'c', 'k', '/']
}

pub open spec fn src_dir() -> Seq<char> {
    seq!['s', 'r', 'c', '/']
}

pub open spec fn tests_dir() -> Seq<char> {
    seq!['t', 'e', 's', 't', 's', '/']
}

pub open spec fn php_extension() -> Seq<char> {
    seq!['.', 'p', 'h', 'p']
}

/// `s` with every `back/` removed, matches taken left to right without
/// overlap (`str::replace("back/", "")`).
pub open spec fn without_back(s: Seq<char>) -> Seq<char>
    decreases s.len(),
{
    if s.len() == 0 {
        s
    } else if starts_with(s, back_dir()) {
        without_back(s.skip(5))
    } else {
        seq![s[0]] + without_back(s.skip(1))
    }
}

/// The path as the container sees it.
pub open spec fn cleaned_path(p: Seq<char>) -> Seq<char> {
    if starts_with(p, src_dir()) || starts_with(p, tests_dir()) {
        p
    } else {
        without_back(p)
    }
}

/// The number of leading characters of `l` that make up exactly its first
/// three bytes in UTF-8, if its third byte ends a character.
pub open spec fn byte_cut_3(l: Seq<char>) -> Option<int> {
    if l.len() >= 1 && utf8_width(l[0]) == 3 {
        Some(1)
    } else if l.len() >= 2 && utf8_width(l[0]) + utf8_width(l[1]) == 3 {
        Some(2)
    } else if l.len() >= 3 && utf8_width(l[0]) == 1 && utf8_width(l[1]) == 1 && utf8_width(l[2])
        == 1 {
        Some(3)
    } else {
        None
    }
}

/// A status line can be read: it is shorter than four bytes or its third
/// byte ends a character (else taking its path would split a character).
pub open spec fn line_is_readable(l: Seq<char>) -> bool {
    utf8_len(l) < 4 || byte_cut_3(l) is Some
}

pub open spec fn status_is_readable(out: Seq<char>) -> bool {
    forall|i: int| 0 <= i < lines_of(out).len() ==> line_is_readable(#[trigger] lines_of(out)[i])
}

/// The PHP file that one status line names, if any.
pub open spec fn status_entry(l: Seq<char>) -> Option<Seq<char>> {
    if utf8_len(l) < 4 {
        None
    } else {
        match byte_cut_3(l) {
            None => None,
            Some(k) => {
                let p = trim(l.skip(k));
                if p.len() == 0 {
                    None
                } else if ends_with(p, php_extension()) {
                    Some(cleaned_path(p))
                } else {
                    None
                }
            },
        }
    }
}

pub open spec fn entry_seq(l: Seq<char>) -> Seq<Seq<char>> {
    match status_entry(l) {
        Some(f) => seq![f],
        None => Seq::empty(),
    }
}

pub open spec fn entries_of(ls: Seq<Seq<char>>) -> Seq<Seq<char>>
    decreases ls.len(),
{
    if ls.len() == 0 {
        Seq::empty()
    } else {
        entry_seq(ls[0]) + entries_of(ls.skip(1))
    }
}

/// The modified PHP files that a `git status --short` output names, in order.
pub open spec fn modified_php_files(out: Seq<char>) -> Seq<Seq<char>> {
    entries_of(lines_of(out))
}

// ---------------------------------------------------------------- lemmas

proof fn lemma_entries_push(a: Seq<Seq<char>>, l: Seq<char>)
    ensures
        entries_of(a.push(l)) == entries_of(a) + entry_seq(l),
    decreases a.len(),
{
    if a.len() == 0 {
        assert(seq![l].skip(1) =~= Seq::<Seq<char>>::empty());
        assert(a.push(l) =~= seq![l]);
        assert(entries_of(Seq::<Seq<char>>::empty()) =~= Seq::<Seq<char>>::empty());
        assert(entries_of(seq![l]) =~= entry_seq(l) + entries_of(Seq::<Seq<char>>::empty()));
        assert(entries_of(seq![l]) =~= entry_seq(l));
    } else {
        assert(a.push(l).skip(1) =~= a.skip(1).push(l));
        lemma_entries_push(a.skip(1), l);
        assert(a.push(l)[0] == a[0]);
    }
}

/// Every file that the status names ends with `.php`.
pub proof fn lemma_without_back_keeps_php(s: Seq<char>)
    requires
        ends_with(s, php_extension()),
    ensures
        ends_with(without_back(s), php_extension()),
    decreases s.len(),
{
    let w = without_back(s);
    if starts_with(s, back_dir()) {
        let t = s.skip(5);
        assert(s[s.len() - 4] == '.');
        assert(t.len() >= 4) by {
            if t.len() < 4 {
                // s[4] == '/' would be one of the last four characters of s
                let j = 4 - (s.len() - 4);
                assert(s.take(5)[4] == '/');
                assert(s.skip(s.len() - 4)[4 - (s.len() - 4)] == s[4]);
                assert(php_extension()[j] != '/');
            }
        }
        assert(t.skip(t.len() - 4) =~= s.skip(s.len() - 4));
        lemma_without_back_keeps_php(t);
    } else {
        let t = s.skip(1);
        if s.len() > 4 {
            assert(t.skip(t.len() - 4) =~= s.skip(s.len() - 4));
            lemma_without_back_keeps_php(t);
            let r = without_back(t);
            assert((seq![s[0]] + r).skip((seq![s[0]] + r).len() - 4) =~= r.skip(r.len() - 4));
        } else {
            // s is exactly ".php", which holds no "back/"
            assert(s =~= php_extension());
            assert(t.len() == 3);
            assert(!starts_with(t, back_dir()));
            let t2 = t.skip(1);
            assert(!starts_with(t2, back_dir()));
            let t3 = t2.skip(1);
            assert(!starts_with(t3, back_dir()));
            let t4 = t3.skip(1);
            assert(t4.len() == 0);
            assert(without_back(t4) =~= t4);
            assert(without_back(t3) =~= seq![t3[0]] + without_back(t4));
            assert(without_back(t2) =~= seq![t2[0]] + without_back(t3));
            assert(without_back(t) =~= seq![t[0]] + without_back(t2));
            assert(w =~= s);
        }
    }
}

/// Every path that `modified_php_files` lists ends with `.php`.
pub proof fn lemma_modified_files_end_with_php(out: Seq<char>)
    ensures
        forall|i: int|
            0 <= i < modified_php_files(out).len() ==> ends_with(
                #[trigger] modified_php_files(out)[i],
                php_extension(),
            ),
{
    lemma_entries_end_with_php(lines_of(out));
}

proof fn lemma_entries_end_with_php(ls: Seq<Seq<char>>)
    ensures
        forall|i: int|
            0 <= i < entries_of(ls).len() ==> ends_with(#[trigger] entries_of(ls)[i], php_extension()),
    decreases ls.len(),
{
    if ls.len() > 0 {
        lemma_entries_end_with_php(ls.skip(1));
        let l = ls[0];
        match status_entry(l) {
            Some(f) => {
                let p = trim(l.skip(byte_cut_3(l)->0));
                if !(starts_with(p, src_dir()) || starts_with(p, tests_dir())) {
                    lemma_without_back_keeps_php(p);
                }
            },
            None => {},
        }
        let e = entries_of(ls);
        assert forall|i: int| 0 <= i < e.len() implies ends_with(#[trigger] e[i], php_extension()) by {
            let h = entry_seq(l);
            if i < h.len() {
                assert(e[i] == h[i]);
            } else {
                assert(e[i] == entries_of(ls.skip(1))[i - h.len()]);
            }
        }
    }
}

/// A path in which `back/` does not occur is kept as it is.
pub proof fn lemma_without_back_keeps_plain_path(p: Seq<char>)
    requires
        forall|i: int| !occurs_at(p, back_dir(), i),
    ensures
        without_back(p) == p,
        cleaned_path(p) == p,
    decreases p.len(),
{
    if p.len() > 0 {
        assert(!starts_with(p, back_dir())) by {
            if starts_with(p, back_dir()) {
                assert(p.subrange(0, 5) =~= p.take(5));
                assert(occurs_at(p, back_dir(), 0));
            }
        }
        let t = p.skip(1);
        assert forall|i: int| !occurs_at(t, back_dir(), i) by {
            if occurs_at(t, back_dir(), i) {
                assert(p.subrange(i + 1, i + 1 + 5) =~= t.subrange(i, i + 5));
                assert(occurs_at(p, back_dir(), i + 1));
            }
        }
        lemma_without_back_keeps_plain_path(t);
        assert(seq![p[0]] + t =~= p);
    }
}

/// The project directory `back/` in front of a path is taken away, and so
/// is any `back/` inside it: `back/config/services.php` is linted as
/// `config/services.php`.
pub proof fn lemma_back_dir_is_dropped(q: Seq<char>)
    requires
        forall|i: int| !occurs_at(q, back_dir(), i),
    ensures
        cleaned_path(back_dir() + q) == q,
{
    let p = back_dir() + q;
    assert(p.take(5) =~= back_dir());
    assert(p.skip(5) =~= q);
    assert(p[0] == 'b');
    assert(!starts_with(p, src_dir())) by {
        if starts_with(p, src_dir()) {
            assert(p.take(4)[0] == p[0]);
        }
    }
    assert(!starts_with(p, tests_dir())) by {
        if starts_with(p, tests_dir()) {
            assert(p.take(6)[0] == p[0]);
        }
    }
    lemma_without_back_keeps_plain_path(q);
}

/// Every `back/` goes, not only the first: dropping a `back/` in front of a
/// path leaves the rest to be cleaned the same way, and any other character
/// is kept in place.
pub proof fn lemma_every_back_dir_goes(q: Seq<char>, c: char)
    ensures
        without_back(back_dir() + q) == without_back(q),
        cleaned_path(back_dir() + q) == without_back(q),
        c != 'b' ==> without_back(seq![c] + q) == seq![c] + without_back(q),
{
    let p = back_dir() + q;
    assert(p.take(5) =~= back_dir());
    assert(p.skip(5) =~= q);
    assert(p[0] == 'b');
    assert(!starts_with(p, src_dir())) by {
        if starts_with(p, src_dir()) {
            assert(p.take(4)[0] == p[0]);
        }
    }
    assert(!starts_with(p, tests_dir())) by {
        if starts_with(p, tests_dir()) {
            assert(p.take(6)[0] == p[0]);
        }
    }
    let r = seq![c] + q;
    assert(r.skip(1) =~= q);
    if c != 'b' {
        assert(!starts_with(r, back_dir())) by {
            if starts_with(r, back_dir()) {
                assert(r.take(5)[0] == r[0]);
            }
        }
    }
}

/// Every modified file whose path ends with `.php` is listed, whatever
/// directory it lies in: a status line of two ASCII status letters, a space
/// and a path without whitespace names that path, cleaned; and a status
/// output made of that one line lists exactly that file.
pub proof fn lemma_every_php_path_is_listed(x: char, y: char, p: Seq<char>)
    requires
        utf8_width(x) == 1,
        utf8_width(y) == 1,
        x != '\n',
        y != '\n',
        ends_with(p, php_extension()),
        forall|i: int| 0 <= i < p.len() ==> !is_white(#[trigger] p[i]),
    ensures
        status_entry(seq![x, y, ' '] + p) == Some(cleaned_path(p)),
        line_is_readable(seq![x, y, ' '] + p),
        modified_php_files(seq![x, y, ' '] + p + seq!['\n']) == seq![cleaned_path(p)],
{
    let l = seq![x, y, ' '] + p;
    assert(utf8_width(' ') == 1);
    assert(byte_cut_3(l) == Some(3int));
    lemma_utf8_len_at_least_len(l);
    assert(l.skip(3) =~= p);
    assert(p.len() >= 4);
    lemma_trim_no_white_ends(p);
    assert(status_entry(l) == Some(cleaned_path(p)));
    let s = l + seq!['\n'];
    assert(is_white('\n'));
    assert forall|i: int| 0 <= i < l.len() implies #[trigger] s[i] != '\n' by {
        assert(s[i] == l[i]);
        if i >= 3 {
            assert(l[i] == p[i - 3]);
        }
    }
    assert(s[l.len() as int] == '\n');
    lemma_first_index_is(s, '\n', l.len() as int);
    assert(s.take(l.len() as int) =~= l);
    assert(l.last() == p.last());
    assert(strip_cr(l) == l);
    assert(s.skip(l.len() + 1 as int) =~= Seq::<char>::empty());
    let e = s.skip(l.len() + 1 as int);
    assert(lines_of(e) == Seq::<Seq<char>>::empty());
    assert(first_index_of(s, '\n') == l.len());
    assert(lines_of(s) == seq![strip_cr(s.take(l.len() as int))] + lines_of(e));
    assert(lines_of(s) =~= seq![l]);
    let ls = seq![l];
    assert(ls.skip(1) =~= Seq::<Seq<char>>::empty());
    assert(entries_of(ls.skip(1)) == Seq::<Seq<char>>::empty());
    assert(entry_seq(ls[0]) == seq![cleaned_path(p)]);
    assert(entries_of(ls) == entry_seq(ls[0]) + entries_of(ls.skip(1)));
    assert(entries_of(ls) =~= seq![cleaned_path(p)]);
}

// ---------------------------------------------------------------- exec

fn width(c: char) -> (w: usize)
    ensures
        w == utf8_width(c),
{
    let u = c as u32;
    if u < 0x80 {
        1
    } else if u < 0x800 {
        2
    } else if u < 0x10000 {
        3
    } else {
        4
    }
}

/// The path as the container sees it: every `back/` is taken out of
/// `file_path` unless it starts with `src/` or `tests/`.
pub fn clean_modified_file(file_path: String) -> (r: String)
    ensures
        r@ == cleaned_path(file_path@),
{
    let cs = chars_of(file_path.as_str());
    let n = cs.len();
    let src = vec!['s', 'r', 'c', '/'];
    let tests = vec!['t', 'e', 's', 't', 's', '/'];
    assert(cs@.subrange(0, n as int) =~= file_path@);
    if has_prefix_at(&cs, 0, n, &src) || has_prefix_at(&cs, 0, n, &tests) {
        proof {
            assert(src@ =~= src_dir());
            assert(tests@ =~= tests_dir());
        }
        return file_path;
    }
    proof {
        assert(src@ =~= src_dir());
        assert(tests@ =~= tests_dir());
    }
    let back = vec!['b', 'a', 'c', 'k', '/'];
    assert(back@ =~= back_dir());
    let ghost s = file_path@;
    let mut out = String::new();
    let mut i: usize = 0;
    assert(s.skip(0) =~= s);
    while i < n
        invariant
            cs@ == s,
            s == file_path@,
            n == s.len(),
            i <= n,
            back@ == back_dir(),
            without_back(s) == out@ + without_back(s.skip(i as int)),
        decreases n - i,
    {
        let ghost t = s.skip(i as int);
        assert(cs@.subrange(i as int, n as int) =~= t);
        if has_prefix_at(&cs, i, n, &back) {
            assert(t.skip(5) =~= s.skip(i + 5));
            i = i + 5;
        } else {
            let ghost before = out@;
            let one = file_path.as_str().substring_char(i, i + 1);
            out.append(one);
            proof {
                assert(t.skip(1) =~= s.skip(i + 1));
                assert(one@ =~= seq![t[0]]);
                assert(without_back(t) == seq![t[0]] + without_back(s.skip(i + 1)));
                assert(before + (seq![t[0]] + without_back(s.skip(i + 1))) =~= out@ + without_back(
                    s.skip(i + 1),
                ));
            }
            i = i + 1;
        }
    }
    assert(s.skip(n as int) =~= Seq::<char>::empty());
    assert(out@ + Seq::<char>::empty() =~= out@);
    out
}

/// What line `cs[from..to]` of the status contributes: `None` when the line
/// cannot be read, else its PHP file if it names one.
fn entry_of_line(text: &str, cs: &Vec<char>, from: usize, to: usize) -> (r: Option<Option<String>>)
    requires
        cs@ == text@,
        from <= to <= cs@.len(),
    ensures
        r is None <==> !line_is_readable(cs@.subrange(from as int, to as int)),
        r matches Some(e) ==> (match e {
            Some(f) => status_entry(cs@.subrange(from as int, to as int)) == Some(f@),
            None => status_entry(cs@.subrange(from as int, to as int)) is None,
        }),
{
    let ghost l = cs@.subrange(from as int, to as int);
    // bytes in the first (at most four) characters
    let m = if to - from < 4 {
        to - from
    } else {
        4
    };
    let mut acc: usize = 0;
    let mut k: usize = 0;
    while k < m
        invariant
            from <= to <= cs@.len(),
            l == cs@.subrange(from as int, to as int),
            m <= 4,
            m <= l.len(),
            k <= m,
            acc == utf8_len(l.take(k as int)),
            acc <= 4 * k,
        decreases m - k,
    {
        proof {
            lemma_utf8_len_take_step(l, k as int);
        }
        acc = acc + width(cs[from + k]);
        k = k + 1;
    }
    proof {
        lemma_utf8_len_grows(l, m as int);
        lemma_utf8_len_at_least_len(l.take(m as int));
        if m == l.len() {
            assert(l.take(m as int) =~= l);
        }
    }
    if m < 4 && acc < 4 {
        return Some(None);
    }
    assert(utf8_len(l) >= 4);
    let w0 = width(cs[from]);
    let cut: usize = if w0 == 3 {
        1
    } else if to - from >= 2 && w0 + width(cs[from + 1]) == 3 {
        2
    } else if to - from >= 3 && w0 == 1 && width(cs[from + 1]) == 1 && width(cs[from + 2]) == 1 {
        3
    } else {
        return None;
    };
    assert(byte_cut_3(l) == Some(cut as int));
    let (a, b) = trim_bounds(cs, from + cut, to);
    assert(cs@.subrange(from + cut, to as int) =~= l.skip(cut as int));
    if a == b {
        return Some(None);
    }
    let php = vec!['.', 'p', 'h', 'p'];
    assert(php@ =~= php_extension());
    if has_suffix_at(cs, a, b, &php) {
        let p = piece(text, a, b);
        Some(Some(clean_modified_file(p)))
    } else {
        Some(None)
    }
}

/// The PHP files that `output` names, or `None` when a line cannot be read.
pub fn try_parse_git_status(output: &str) -> (r: Option<Vec<String>>)
    ensures
        r is Some <==> status_is_readable(output@),
        r matches Some(v) ==> views(v@) == modified_php_files(output@),
{
    let cs = chars_of(output);
    let n = cs.len();
    let mut out: Vec<String> = Vec::new();
    let mut start: usize = 0;
    let mut i: usize = 0;
    let ghost s = output@;
    let ghost mut done: Seq<Seq<char>> = Seq::empty();
    assert(s.skip(0) =~= s);
    assert(views(out@) =~= Seq::<Seq<char>>::empty());
    while i < n
        invariant
            cs@ == s,
            s == output@,
            n == s.len(),
            start <= i <= n,
            forall|k: int| start <= k < i ==> cs@[k] != '\n',
            lines_of(s) == done + lines_of(s.skip(start as int)),
            views(out@) == entries_of(done),
            forall|k: int| 0 <= k < done.len() ==> line_is_readable(#[trigger] done[k]),
        decreases n - i,
    {
        if cs[i] == '\n' {
            let end = if i > start && cs[i - 1] == '\r' {
                i - 1
            } else {
                i
            };
            let ghost t = s.skip(start as int);
            let ghost line = cs@.subrange(start as int, end as int);
            proof {
                assert forall|k: int| 0 <= k < i - start implies #[trigger] t[k] != '\n' by {
                    assert(t[k] == cs@[start + k]);
                }
                assert(t[i - start] == cs@[i as int]);
                lemma_first_index_is(t, '\n', i - start);
                assert(t.take(i - start) =~= cs@.subrange(start as int, i as int));
                assert(strip_cr(t.take(i - start)) =~= line);
                assert(t.skip(i - start + 1) =~= s.skip(i + 1));
                assert(lines_of(t) == seq![line] + lines_of(s.skip(i + 1)));
                assert(lines_of(s) =~= done.push(line) + lines_of(s.skip(i + 1)));
            }
            match entry_of_line(output, &cs, start, end) {
                None => {
                    proof {
                        assert(lines_of(s)[done.len() as int] == line);
                    }
                    return None;
                },
                Some(Some(f)) => {
                    proof {
                        lemma_entries_push(done, line);
                    }
                    out.push(f);
                    proof {
                        assert(views(out@) =~= entries_of(done) + seq![f@]);
                    }
                },
                Some(None) => {
                    proof {
                        lemma_entries_push(done, line);
                        assert(entries_of(done.push(line)) =~= entries_of(done));
                    }
                },
            }
            proof {
                done = done.push(line);
            }
            start = i + 1;
        }
        i = i + 1;
    }
    if start < n {
        let ghost t = s.skip(start as int);
        let ghost line = cs@.subrange(start as int, n as int);
        proof {
            assert(t =~= line);
            assert forall|k: int| 0 <= k < t.len() implies #[trigger] t[k] != '\n' by {
                assert(t[k] == cs@[start + k]);
            }
            lemma_first_index_is(t, '\n', t.len() as int);
            assert(lines_of(t) == seq![line]);
            assert(lines_of(s) =~= done.push(line));
        }
        match entry_of_line(output, &cs, start, n) {
            None => {
                proof {
                    assert(lines_of(s)[done.len() as int] == line);
                }
                return None;
            },
            Some(Some(f)) => {
                proof {
                    lemma_entries_push(done, line);
                }
                out.push(f);
                proof {
                    assert(views(out@) =~= entries_of(done) + seq![f@]);
                }
            },
            Some(None) => {
                proof {
                    lemma_entries_push(done, line);
                    assert(entries_of(done.push(line)) =~= entries_of(done));
                }
            },
        }
        proof {
            done = done.push(line);
        }
    } else {
        proof {
            assert(s.skip(start as int) =~= Seq::<char>::empty());
            assert(lines_of(s) =~= done);
        }
    }
    assert(lines_of(s) == done);
    Some(out)
}

/// The modified PHP files that a `git status --short` output names.
pub fn parse_git_status(output: &str) -> (r: Vec<String>)
    requires
        status_is_readable(output@),
    ensures
        views(r@) == modified_php_files(output@),
{
    match try_parse_git_status(output) {
        Some(v) => v,
        None => Vec::new(),
    }
}

/// Whether every line of `output` can be read (see `line_is_readable`).
pub fn status_is_readable_exec(output: &str) -> (b: bool)
    ensures
        b == status_is_readable(output@),
{
    try_parse_git_status(output).is_some()
}

/// The modified PHP files, from what `git status --short` gave: its failure
/// passes through unchanged.
pub fn get_modified_files(git_status: Result<String, CommandError>) -> (r: Result<
    Vec<String>,
    CommandError,
>)
    requires
        git_status matches Ok(out) ==> status_is_readable(out@),
    ensures
        git_status is Err <==> r is Err,
        git_status matches Err(e) ==> r == Err::<Vec<String>, CommandError>(e),
        git_status matches Ok(out) ==> (r matches Ok(v) && views(v@) == modified_php_files(out@)),
{
    match git_status {
        Ok(out) => Ok(parse_git_status(out.as_str())),
        Err(e) => Err(e),
    }
}

} // verus!
