//! Character-level text primitives: whitespace trimming, line splitting,
//! prefix/suffix/substring tests and ordering, each with a specification
//! over `Seq<char>` and a verified implementation.
use vstd::prelude::*;

verus! {

/// The Unicode `White_Space` property, which is what `char::is_whitespace` tests.
pub open spec fn is_white(c: char) -> bool {
    let u = c as u32;
    ||| 0x09 <= u <= 0x0d
    ||| u == 0x20
    ||| u == 0x85
    ||| u == 0xa0
    ||| u == 0x1680
    ||| 0x2000 <= u <= 0x200a
    ||| u == 0x2028
    ||| u == 0x2029
    ||| u == 0x202f
    ||| u == 0x205f
    ||| u == 0x3000
}

/// Number of leading whitespace characters.
pub open spec fn lead_white(s: Seq<char>) -> nat
    decreases s.len(),
{
    if s.len() > 0 && is_white(s[0]) {
        1 + lead_white(s.skip(1))
    } else {
        0
    }
}

/// Number of trailing whitespace characters.
pub open spec fn trail_white(s: Seq<char>) -> nat
    decreases s.len(),
{
    if s.len() > 0 && is_white(s.last()) {
        1 + trail_white(s.drop_last())
    } else {
        0
    }
}

/// `s` without leading whitespace (`str::trim_start`).
pub open spec fn trim_start(s: Seq<char>) -> Seq<char> {
    s.skip(lead_white(s) as int)
}

/// `s` without trailing whitespace (`str::trim_end`).
pub open spec fn trim_end(s: Seq<char>) -> Seq<char> {
    s.take(s.len() - trail_white(s))
}

/// `s` without leading and trailing whitespace (`str::trim`).
pub open spec fn trim(s: Seq<char>) -> Seq<char> {
    trim_end(trim_start(s))
}

/// Index of the first `c` in `s`, or `s.len()` when there is none.
pub open spec fn first_index_of(s: Seq<char>, c: char) -> nat
    decreases s.len(),
{
    if s.len() == 0 {
        0
    } else if s[0] == c {
        0
    } else {
        1 + first_index_of(s.skip(1), c)
    }
}

/// `s` without one trailing carriage return, if it has one.
pub open spec fn strip_cr(s: Seq<char>) -> Seq<char> {
    if s.len() > 0 && s.last() == '\r' {
        s.drop_last()
    } else {
        s
    }
}

/// The lines of `s` as `str::lines` yields them: pieces ended by `'\n'`, each
/// without its `'\n'` and without one `'\r'` before it, and a last piece
/// without a line ending (kept as it is) when `s` does not end with `'\n'`.
pub open spec fn lines_of(s: Seq<char>) -> Seq<Seq<char>>
    decreases s.len(),
{
    if s.len() == 0 {
        Seq::empty()
    } else {
        let i = first_index_of(s, '\n');
        if i < s.len() {
            seq![strip_cr(s.take(i as int))] + lines_of(s.skip(i + 1 as int))
        } else {
            seq![s]
        }
    }
}

/// The pieces of `s` between occurrences of `c`, as `str::split(c)` yields them.
pub open spec fn split_on(s: Seq<char>, c: char) -> Seq<Seq<char>>
    decreases s.len(),
{
    let i = first_index_of(s, c);
    if i < s.len() {
        seq![s.take(i as int)] + split_on(s.skip(i + 1 as int), c)
    } else {
        seq![s]
    }
}

pub open spec fn starts_with(s: Seq<char>, p: Seq<char>) -> bool {
    p.len() <= s.len() && s.take(p.len() as int) == p
}

pub open spec fn ends_with(s: Seq<char>, p: Seq<char>) -> bool {
    p.len() <= s.len() && s.skip(s.len() - p.len()) == p
}

/// `needle` occurs in `hay` starting at `i`.
pub open spec fn occurs_at(hay: Seq<char>, needle: Seq<char>, i: int) -> bool {
    0 <= i && i + needle.len() <= hay.len() && hay.subrange(i, i + needle.len()) == needle
}

/// `str::contains` with a string pattern.
pub open spec fn contains_text(hay: Seq<char>, needle: Seq<char>) -> bool {
    exists|i: int| occurs_at(hay, needle, i)
}

/// Lexicographic order by code point, which is the order `str` comparison
/// gives (UTF-8 preserves the order of code points).
pub open spec fn text_less(a: Seq<char>, b: Seq<char>) -> bool
    decreases a.len(),
{
    if a.len() == 0 {
        b.len() > 0
    } else if b.len() == 0 {
        false
    } else if a[0] != b[0] {
        (a[0] as u32) < (b[0] as u32)
    } else {
        text_less(a.skip(1), b.skip(1))
    }
}

/// The number of bytes of `c` in UTF-8.
pub open spec fn utf8_width(c: char) -> int {
    let u = c as u32;
    if u < 0x80 {
        1
    } else if u < 0x800 {
        2
    } else if u < 0x10000 {
        3
    } else {
        4
    }
}

/// The number of bytes of `s` in UTF-8 (`str::len`).
pub open spec fn utf8_len(s: Seq<char>) -> int
    decreases s.len(),
{
    if s.len() == 0 {
        0
    } else {
        utf8_len(s.drop_last()) + utf8_width(s.last())
    }
}

// ---------------------------------------------------------------- lemmas

pub proof fn lemma_lead_white_is(s: Seq<char>, k: int)
    requires
        0 <= k <= s.len(),
        forall|i: int| 0 <= i < k ==> is_white(#[trigger] s[i]),
        k == s.len() || !is_white(s[k]),
    ensures
        lead_white(s) == k,
    decreases k,
{
    if k > 0 {
        assert(is_white(s[0]));
        lemma_lead_white_is(s.skip(1), k - 1);
    } else if s.len() > 0 {
        assert(!is_white(s[0]));
    }
}

pub proof fn lemma_trail_white_is(s: Seq<char>, k: int)
    requires
        0 <= k <= s.len(),
        forall|i: int| s.len() - k <= i < s.len() ==> is_white(#[trigger] s[i]),
        k == s.len() || !is_white(s[s.len() - k - 1]),
    ensures
        trail_white(s) == k,
    decreases k,
{
    if k > 0 {
        assert(is_white(s[s.len() - 1]));
        let t = s.drop_last();
        assert forall|i: int| t.len() - (k - 1) <= i < t.len() implies is_white(#[trigger] t[i]) by {
            assert(t[i] == s[i]);
        }
        if k - 1 < t.len() {
            assert(t[t.len() - (k - 1) - 1] == s[s.len() - k - 1]);
        }
        lemma_trail_white_is(t, k - 1);
    } else if s.len() > 0 {
        assert(!is_white(s[s.len() - 1]));
    }
}

/// A text with no whitespace at either end is its own trim.
pub proof fn lemma_trim_no_white_ends(s: Seq<char>)
    requires
        s.len() > 0,
        !is_white(s[0]),
        !is_white(s.last()),
    ensures
        trim(s) == s,
{
    lemma_lead_white_is(s, 0);
    assert(s.skip(0) =~= s);
    lemma_trail_white_is(s, 0);
    assert(s.take(s.len() as int) =~= s);
}

pub proof fn lemma_first_index_is(s: Seq<char>, c: char, k: int)
    requires
        0 <= k <= s.len(),
        forall|i: int| 0 <= i < k ==> #[trigger] s[i] != c,
        k == s.len() || s[k] == c,
    ensures
        first_index_of(s, c) == k,
    decreases k,
{
    if k > 0 {
        assert(s[0] != c);
        lemma_first_index_is(s.skip(1), c, k - 1);
    } else if s.len() > 0 {
        assert(s[0] == c);
    }
}

pub proof fn lemma_utf8_len_take_step(s: Seq<char>, i: int)
    requires
        0 <= i < s.len(),
    ensures
        utf8_len(s.take(i + 1)) == utf8_len(s.take(i)) + utf8_width(s[i]),
{
    assert(s.take(i + 1).drop_last() =~= s.take(i));
}

pub proof fn lemma_utf8_len_at_least_len(s: Seq<char>)
    ensures
        utf8_len(s) >= s.len(),
    decreases s.len(),
{
    if s.len() > 0 {
        lemma_utf8_len_at_least_len(s.drop_last());
    }
}

pub proof fn lemma_utf8_len_grows(s: Seq<char>, i: int)
    requires
        0 <= i <= s.len(),
    ensures
        utf8_len(s.take(i)) <= utf8_len(s),
    decreases s.len() - i,
{
    if i < s.len() {
        lemma_utf8_len_take_step(s, i);
        lemma_utf8_len_grows(s, i + 1);
    } else {
        assert(s.take(i) =~= s);
    }
}

/// Space, tab, line feed, carriage return, vertical tab and form feed are
/// whitespace; letters, digits and the punctuation of paths and versions are
/// not.
pub proof fn lemma_whitespace_chars(c: char)
    ensures
        is_white(' ') && is_white('\t') && is_white('\n') && is_white('\r'),
        is_white('\u{0b}') && is_white('\u{0c}'),
        ('a' <= c <= 'z' || 'A' <= c <= 'Z' || '0' <= c <= '9' || c == '.' || c == '/' || c == '-'
            || c == '_' || c == '+') ==> !is_white(c),
{
}

/// A line ended by `\n` (with or without a `\r` before it) is one line,
/// without its ending; a text without `\n` is one line, kept whole.
pub proof fn lemma_lines_split_at_newline(a: Seq<char>, b: Seq<char>)
    requires
        forall|i: int| 0 <= i < a.len() ==> #[trigger] a[i] != '\n',
    ensures
        lines_of(a + seq!['\n'] + b) == seq![strip_cr(a)] + lines_of(b),
        lines_of(a + seq!['\r', '\n'] + b) == seq![a] + lines_of(b),
        a.len() > 0 ==> lines_of(a) == seq![a],
        lines_of(Seq::<char>::empty()) == Seq::<Seq<char>>::empty(),
{
    let s = a + seq!['\n'] + b;
    assert forall|i: int| 0 <= i < a.len() implies #[trigger] s[i] != '\n' by {
        assert(s[i] == a[i]);
    }
    assert(s[a.len() as int] == '\n');
    lemma_first_index_is(s, '\n', a.len() as int);
    assert(s.take(a.len() as int) =~= a);
    assert(s.skip(a.len() + 1 as int) =~= b);
    let ar = a.push('\r');
    let t = a + seq!['\r', '\n'] + b;
    assert(t =~= ar + seq!['\n'] + b);
    assert forall|i: int| 0 <= i < ar.len() implies #[trigger] t[i] != '\n' by {
        assert(t[i] == ar[i]);
    }
    assert(t[ar.len() as int] == '\n');
    lemma_first_index_is(t, '\n', ar.len() as int);
    assert(t.take(ar.len() as int) =~= ar);
    assert(t.skip(ar.len() + 1 as int) =~= b);
    assert(strip_cr(ar) =~= a);
    lemma_first_index_is(a, '\n', a.len() as int);
}

/// Text order: a proper prefix comes first, and otherwise the first
/// differing character decides, by code point.
pub proof fn lemma_text_order(a: Seq<char>, b: Seq<char>, x: char, y: char)
    ensures
        b.len() > 0 ==> text_less(a, a + b),
        !text_less(a + b, a),
        (x as u32) < (y as u32) ==> text_less(a + seq![x] + b, a + seq![y]),
    decreases a.len(),
{
    if a.len() > 0 {
        lemma_text_order(a.skip(1), b, x, y);
        assert((a + b).skip(1) =~= a.skip(1) + b);
        assert((a + seq![x] + b).skip(1) =~= a.skip(1) + seq![x] + b);
        assert((a + seq![y]).skip(1) =~= a.skip(1) + seq![y]);
        assert((a + b)[0] == a[0]);
        assert((a + seq![x] + b)[0] == a[0]);
        assert((a + seq![y])[0] == a[0]);
    } else {
        assert(a + b =~= b);
        assert(a + seq![x] + b =~= seq![x] + b);
        assert(a + seq![y] =~= seq![y]);
        assert((seq![x] + b)[0] == x);
    }
}

/// A text contains whatever stands in it.
pub proof fn lemma_contains_piece(x: Seq<char>, p: Seq<char>, y: Seq<char>)
    ensures
        contains_text(x + p + y, p),
{
    assert((x + p + y).subrange(x.len() as int, x.len() + p.len() as int) =~= p);
    assert(occurs_at(x + p + y, p, x.len() as int));
}

// ---------------------------------------------------------------- exec

/// `lines` joined with `'\n'` between them (`[&str]::join("\n")`).
pub open spec fn join_lines(ls: Seq<Seq<char>>) -> Seq<char>
    decreases ls.len(),
{
    if ls.len() == 0 {
        Seq::empty()
    } else if ls.len() == 1 {
        ls[0]
    } else {
        join_lines(ls.drop_last()) + seq!['\n'] + ls.last()
    }
}

/// A join of lines starts with the first line and ends with the last.
pub proof fn lemma_join_lines_ends(ls: Seq<Seq<char>>)
    requires
        ls.len() > 0,
    ensures
        starts_with(join_lines(ls), ls[0]),
        ends_with(join_lines(ls), ls.last()),
    decreases ls.len(),
{
    let j = join_lines(ls);
    if ls.len() == 1 {
        assert(j.take(j.len() as int) =~= j);
        assert(j.skip(0) =~= j);
    } else {
        let init = ls.drop_last();
        lemma_join_lines_ends(init);
        let p = join_lines(init);
        assert(j == p + seq!['\n'] + ls.last());
        assert(j.take(ls[0].len() as int) =~= p.take(ls[0].len() as int));
        assert(init[0] == ls[0]);
        assert(j.skip(j.len() - ls.last().len()) =~= ls.last());
    }
}

/// The bounds in `cs` of each line of `cs` (see `lines_of`).
pub fn line_spans(cs: &Vec<char>) -> (r: Vec<(usize, usize)>)
    ensures
        r@.len() == lines_of(cs@).len(),
        forall|k: int|
            0 <= k < r@.len() ==> (#[trigger] r@[k]).0 <= r@[k].1 <= cs@.len() && cs@.subrange(
                r@[k].0 as int,
                r@[k].1 as int,
            ) == lines_of(cs@)[k],
{
    let n = cs.len();
    let ghost s = cs@;
    let mut out: Vec<(usize, usize)> = Vec::new();
    let mut start: usize = 0;
    let mut i: usize = 0;
    let ghost mut done: Seq<Seq<char>> = Seq::empty();
    assert(s.skip(0) =~= s);
    while i < n
        invariant
            cs@ == s,
            n == s.len(),
            start <= i <= n,
            forall|k: int| start <= k < i ==> cs@[k] != '\n',
            lines_of(s) == done + lines_of(s.skip(start as int)),
            out@.len() == done.len(),
            forall|k: int|
                0 <= k < out@.len() ==> (#[trigger] out@[k]).0 <= out@[k].1 <= n && s.subrange(
                    out@[k].0 as int,
                    out@[k].1 as int,
                ) == done[k],
        decreases n - i,
    {
        if cs[i] == '\n' {
            let end = if i > start && cs[i - 1] == '\r' {
                i - 1
            } else {
                i
            };
            let ghost t = s.skip(start as int);
            let ghost line = s.subrange(start as int, end as int);
            proof {
                assert forall|k: int| 0 <= k < i - start implies #[trigger] t[k] != '\n' by {
                    assert(t[k] == cs@[start + k]);
                }
                assert(t[i - start] == cs@[i as int]);
                lemma_first_index_is(t, '\n', i - start);
                assert(t.take(i - start) =~= s.subrange(start as int, i as int));
                assert(strip_cr(t.take(i - start)) =~= line);
                assert(t.skip(i - start + 1) =~= s.skip(i + 1));
                assert(lines_of(t) == seq![line] + lines_of(s.skip(i + 1)));
                assert(lines_of(s) =~= done.push(line) + lines_of(s.skip(i + 1)));
            }
            out.push((start, end));
            proof {
                done = done.push(line);
            }
            start = i + 1;
        }
        i = i + 1;
    }
    if start < n {
        let ghost t = s.skip(start as int);
        let ghost line = s.subrange(start as int, n as int);
        proof {
            assert(t =~= line);
            assert forall|k: int| 0 <= k < t.len() implies #[trigger] t[k] != '\n' by {
                assert(t[k] == cs@[start + k]);
            }
            lemma_first_index_is(t, '\n', t.len() as int);
            assert(lines_of(t) == seq![line]);
            assert(lines_of(s) =~= done.push(line));
        }
        out.push((start, n));
        proof {
            done = done.push(line);
        }
    } else {
        proof {
            assert(s.skip(start as int) =~= Seq::<char>::empty());
            assert(lines_of(s) =~= done);
        }
    }
    out
}

/// The characters of `s`.
pub fn chars_of(s: &str) -> (r: Vec<char>)
    ensures
        r@ == s@,
{
    let mut out: Vec<char> = Vec::new();
    for c in it: s.chars()
        invariant
            out@ == it.seq().take(it.index() as int),
    {
        out.push(c);
    }
    out
}

/// The characters of `s` from `a` up to `b`, as a new `String`.
pub fn piece(s: &str, a: usize, b: usize) -> (r: String)
    requires
        a <= b <= s@.len(),
    ensures
        r@ == s@.subrange(a as int, b as int),
{
    s.substring_char(a, b).to_string()
}

/// `char::is_whitespace`.
pub fn white(c: char) -> (b: bool)
    ensures
        b == is_white(c),
{
    let u = c as u32;
    (0x09 <= u && u <= 0x0d) || u == 0x20 || u == 0x85 || u == 0xa0 || u == 0x1680 || (0x2000
        <= u && u <= 0x200a) || u == 0x2028 || u == 0x2029 || u == 0x202f || u == 0x205f || u
        == 0x3000
}

/// Bounds `(a, b)` of `trim(cs[from..to])` inside `cs`.
pub fn trim_bounds(cs: &Vec<char>, from: usize, to: usize) -> (r: (usize, usize))
    requires
        from <= to <= cs@.len(),
    ensures
        from <= r.0 <= r.1 <= to,
        cs@.subrange(r.0 as int, r.1 as int) == trim(cs@.subrange(from as int, to as int)),
        cs@.subrange(r.0 as int, to as int) == trim_start(cs@.subrange(from as int, to as int)),
{
    let ghost s = cs@.subrange(from as int, to as int);
    let mut a = from;
    while a < to && white(cs[a])
        invariant
            from <= a <= to <= cs@.len(),
            s == cs@.subrange(from as int, to as int),
            forall|i: int| from <= i < a ==> is_white(#[trigger] cs@[i]),
        decreases to - a,
    {
        a = a + 1;
    }
    proof {
        assert forall|i: int| 0 <= i < a - from implies is_white(#[trigger] s[i]) by {
            assert(s[i] == cs@[from + i]);
        }
        if a < to {
            assert(s[a - from] == cs@[a as int]);
        }
        lemma_lead_white_is(s, a - from);
        assert(trim_start(s) =~= cs@.subrange(a as int, to as int));
    }
    let ghost t = cs@.subrange(a as int, to as int);
    let mut b = to;
    while b > a && white(cs[b - 1])
        invariant
            from <= a <= b <= to <= cs@.len(),
            t == cs@.subrange(a as int, to as int),
            forall|i: int| b <= i < to ==> is_white(#[trigger] cs@[i]),
        decreases b - a,
    {
        b = b - 1;
    }
    proof {
        let k = to - b;
        assert forall|i: int| t.len() - k <= i < t.len() implies is_white(#[trigger] t[i]) by {
            assert(t[i] == cs@[a + i]);
        }
        if k < t.len() {
            assert(t[t.len() - k - 1] == cs@[b - 1]);
        }
        lemma_trail_white_is(t, k);
        assert(trim_end(t) =~= cs@.subrange(a as int, b as int));
    }
    (a, b)
}

/// `cs[from..to]` starts with `p`.
pub fn has_prefix_at(cs: &Vec<char>, from: usize, to: usize, p: &Vec<char>) -> (b: bool)
    requires
        from <= to <= cs@.len(),
    ensures
        b == starts_with(cs@.subrange(from as int, to as int), p@),
{
    let ghost s = cs@.subrange(from as int, to as int);
    if p.len() > to - from {
        return false;
    }
    let mut i: usize = 0;
    while i < p.len()
        invariant
            from <= to <= cs@.len(),
            p@.len() <= to - from,
            i <= p@.len(),
            s == cs@.subrange(from as int, to as int),
            forall|j: int| 0 <= j < i ==> cs@[from + j] == p@[j],
        decreases p@.len() - i,
    {
        if cs[from + i] != p[i] {
            assert(s.take(p@.len() as int)[i as int] != p@[i as int]);
            return false;
        }
        i = i + 1;
    }
    assert(s.take(p@.len() as int) =~= p@);
    true
}

/// `cs[from..to]` ends with `p`.
pub fn has_suffix_at(cs: &Vec<char>, from: usize, to: usize, p: &Vec<char>) -> (b: bool)
    requires
        from <= to <= cs@.len(),
    ensures
        b == ends_with(cs@.subrange(from as int, to as int), p@),
{
    let ghost s = cs@.subrange(from as int, to as int);
    if p.len() > to - from {
        return false;
    }
    let start = to - p.len();
    let mut i: usize = 0;
    while i < p.len()
        invariant
            from <= start <= to <= cs@.len(),
            start + p@.len() == to,
            i <= p@.len(),
            s == cs@.subrange(from as int, to as int),
            forall|j: int| 0 <= j < i ==> cs@[start + j] == p@[j],
        decreases p@.len() - i,
    {
        if cs[start + i] != p[i] {
            assert(s.skip(s.len() - p@.len())[i as int] != p@[i as int]);
            return false;
        }
        i = i + 1;
    }
    assert(s.skip(s.len() - p@.len()) =~= p@);
    true
}

/// `needle` occurs in `hay` at position `i`.
pub fn occurs_at_exec(hay: &Vec<char>, needle: &Vec<char>, i: usize) -> (b: bool)
    ensures
        b == occurs_at(hay@, needle@, i as int),
{
    let h = hay.len();
    let n = needle.len();
    if i > h || n > h - i {
        return false;
    }
    let mut j: usize = 0;
    while j < n
        invariant
            h == hay@.len(),
            n == needle@.len(),
            i + needle@.len() <= hay@.len(),
            j <= needle@.len(),
            forall|k: int| 0 <= k < j ==> hay@[i + k] == needle@[k],
        decreases needle@.len() - j,
    {
        if hay[i + j] != needle[j] {
            assert(hay@.subrange(i as int, i + needle@.len())[j as int] != needle@[j as int]);
            return false;
        }
        j = j + 1;
    }
    assert(hay@.subrange(i as int, i + needle@.len()) =~= needle@);
    true
}

/// `str::contains` with a string pattern.
pub fn contains(hay: &str, needle: &str) -> (b: bool)
    ensures
        b == contains_text(hay@, needle@),
{
    let h = chars_of(hay);
    let n = chars_of(needle);
    if n.len() > h.len() {
        assert forall|i: int| !occurs_at(hay@, needle@, i) by {}
        return false;
    }
    let last = h.len() - n.len();
    let mut i: usize = 0;
    while i < last
        invariant
            h@ == hay@,
            n@ == needle@,
            i <= last,
            last + n@.len() == h@.len(),
            forall|k: int| 0 <= k < i ==> !occurs_at(hay@, needle@, k),
        decreases last - i,
    {
        if occurs_at_exec(&h, &n, i) {
            return true;
        }
        i = i + 1;
    }
    if occurs_at_exec(&h, &n, last) {
        return true;
    }
    false
}

/// Equality of two texts.
pub fn same_text(a: &str, b: &str) -> (r: bool)
    ensures
        r == (a@ == b@),
{
    let x = chars_of(a);
    let y = chars_of(b);
    if x.len() != y.len() {
        return false;
    }
    let mut i: usize = 0;
    while i < x.len()
        invariant
            x@ == a@,
            y@ == b@,
            x@.len() == y@.len(),
            i <= x@.len(),
            forall|k: int| 0 <= k < i ==> x@[k] == y@[k],
        decreases x@.len() - i,
    {
        if x[i] != y[i] {
            return false;
        }
        i = i + 1;
    }
    assert(x@ =~= y@);
    true
}

/// `a < b` for texts.
pub fn less_text(a: &str, b: &str) -> (r: bool)
    ensures
        r == text_less(a@, b@),
{
    let x = chars_of(a);
    let y = chars_of(b);
    let mut i: usize = 0;
    assert(a@.skip(0) =~= a@);
    assert(b@.skip(0) =~= b@);
    while i < x.len() && i < y.len() && x[i] == y[i]
        invariant
            x@ == a@,
            y@ == b@,
            i <= x@.len(),
            i <= y@.len(),
            text_less(a@, b@) == text_less(a@.skip(i as int), b@.skip(i as int)),
        decreases x@.len() - i,
    {
        proof {
            let xs = a@.skip(i as int);
            let ys = b@.skip(i as int);
            assert(xs.skip(1) =~= a@.skip(i + 1));
            assert(ys.skip(1) =~= b@.skip(i + 1));
        }
        i = i + 1;
    }
    proof {
        let xs = a@.skip(i as int);
        let ys = b@.skip(i as int);
        if i < x.len() && i < y.len() {
            assert(xs[0] == x@[i as int]);
            assert(ys[0] == y@[i as int]);
        }
    }
    if i == x.len() {
        i < y.len()
    } else if i == y.len() {
        false
    } else {
        (x[i] as u32) < (y[i] as u32)
    }
}

/// `trim(s)` as a new `String`.
pub fn trimmed(s: &str) -> (r: String)
    ensures
        r@ == trim(s@),
{
    let cs = chars_of(s);
    let (a, b) = trim_bounds(&cs, 0, cs.len());
    assert(cs@.subrange(0, cs@.len() as int) =~= s@);
    piece(s, a, b)
}

/// `trim_end(s)` as a new `String`.
pub fn trimmed_end(s: &str) -> (r: String)
    ensures
        r@ == trim_end(s@),
{
    let cs = chars_of(s);
    let mut b = cs.len();
    while b > 0 && white(cs[b - 1])
        invariant
            cs@ == s@,
            b <= cs@.len(),
            forall|i: int| b <= i < cs@.len() ==> is_white(#[trigger] cs@[i]),
        decreases b,
    {
        b = b - 1;
    }
    proof {
        lemma_trail_white_is(s@, cs@.len() - b);
    }
    piece(s, 0, b)
}

} // verus!
