//! Deciding whether a published release is newer than the running one, and
//! which of its assets to download for this platform.
use vstd::prelude::*;

use crate::text::{
    chars_of, contains, contains_text, first_index_of, is_white, lemma_first_index_is,
    lemma_contains_piece, lemma_lead_white_is, lemma_trail_white_is, lemma_trim_no_white_ends, less_text, same_text, split_on, text_less, trim,
    trim_bounds,
};

verus! {

// ---------------------------------------------------------------- numbers

pub open spec fn is_digit(c: char) -> bool {
    '0' <= c && c <= '9'
}

pub open spec fn digit_value(c: char) -> int {
    (c as u32) - ('0' as u32)
}

pub open spec fn all_digits(d: Seq<char>) -> bool {
    forall|i: int| 0 <= i < d.len() ==> is_digit(#[trigger] d[i])
}

/// The number that the decimal digits `d` write.
pub open spec fn digits_value(d: Seq<char>) -> int
    decreases d.len(),
{
    if d.len() == 0 {
        0
    } else {
        digits_value(d.drop_last()) * 10 + digit_value(d.last())
    }
}

/// `str::parse::<u64>`: an optional `+`, then one or more decimal digits
/// whose value fits in a `u64`.
pub open spec fn parse_u64_text(p: Seq<char>) -> Option<u64> {
    let body = if p.len() > 0 && p[0] == '+' {
        p.skip(1)
    } else {
        p
    };
    if body.len() == 0 || !all_digits(body) || digits_value(body) > u64::MAX {
        None
    } else {
        Some(digits_value(body) as u64)
    }
}

proof fn lemma_digits_value_nonneg(d: Seq<char>)
    requires
        all_digits(d),
    ensures
        digits_value(d) >= 0,
    decreases d.len(),
{
    if d.len() > 0 {
        assert(is_digit(d[d.len() - 1]));
        lemma_digits_value_nonneg(d.drop_last());
    }
}

proof fn lemma_digits_value_prefix(d: Seq<char>, k: int)
    requires
        all_digits(d),
        0 <= k <= d.len(),
    ensures
        digits_value(d.take(k)) <= digits_value(d),
    decreases d.len(),
{
    if k < d.len() {
        let e = d.drop_last();
        assert(is_digit(d[d.len() - 1]));
        lemma_digits_value_prefix(e, k);
        lemma_digits_value_nonneg(e);
        assert(e.take(k) =~= d.take(k));
    } else {
        assert(d.take(k) =~= d);
    }
}

/// `cs[from..to]` parsed as `str::parse::<u64>` does.
fn parse_u64_at(cs: &Vec<char>, from: usize, to: usize) -> (r: Option<u64>)
    requires
        from <= to <= cs@.len(),
    ensures
        r == parse_u64_text(cs@.subrange(from as int, to as int)),
{
    let ghost p = cs@.subrange(from as int, to as int);
    let start = if from < to && cs[from] == '+' {
        from + 1
    } else {
        from
    };
    let ghost body = cs@.subrange(start as int, to as int);
    assert(body =~= (if p.len() > 0 && p[0] == '+' {
        p.skip(1)
    } else {
        p
    }));
    if start == to {
        return None;
    }
    let mut acc: u64 = 0;
    let mut j: usize = start;
    while j < to
        invariant
            from <= start <= j <= to <= cs@.len(),
            body == cs@.subrange(start as int, to as int),
            p == cs@.subrange(from as int, to as int),
            body == (if p.len() > 0 && p[0] == '+' {
                p.skip(1)
            } else {
                p
            }),
            body.len() > 0,
            all_digits(body.take(j - start)),
            acc == digits_value(body.take(j - start)),
        decreases to - j,
    {
        let c = cs[j];
        let ghost k = j - start;
        if !('0' <= c && c <= '9') {
            assert(body[k] == c);
            assert(!is_digit(body[k]));
            return None;
        }
        proof {
            assert(body.take(k + 1).drop_last() =~= body.take(k));
            assert(body.take(k + 1).last() == c);
            assert(all_digits(body.take(k + 1)));
        }
        let d = (c as u32 - '0' as u32) as u64;
        match acc.checked_mul(10) {
            None => {
                proof {
                    lemma_digits_value_nonneg(body.take(k));
                    if all_digits(body) {
                        lemma_digits_value_prefix(body, k + 1);
                    }
                }
                return None;
            },
            Some(m) => match m.checked_add(d) {
                None => {
                    proof {
                        assert(digits_value(body.take(k + 1)) == acc * 10 + d);
                        if all_digits(body) {
                            lemma_digits_value_prefix(body, k + 1);
                        }
                    }
                    return None;
                },
                Some(v) => {
                    acc = v;
                },
            },
        }
        j = j + 1;
    }
    assert(body.take(to - start) =~= body);
    Some(acc)
}

// ---------------------------------------------------------------- versions

/// `s` without its leading `'v'`s (`str::trim_start_matches('v')`).
pub open spec fn strip_leading_v(s: Seq<char>) -> Seq<char>
    decreases s.len(),
{
    if s.len() > 0 && s[0] == 'v' {
        strip_leading_v(s.skip(1))
    } else {
        s
    }
}

/// The `(major, minor, patch)` that a tag such as `v0.8.0` names: after its
/// leading `v`s, exactly three dot-separated parts, each a `u64`.
pub open spec fn semver_of(s: Seq<char>) -> Option<(u64, u64, u64)> {
    let parts = split_on(strip_leading_v(s), '.');
    if parts.len() != 3 {
        None
    } else {
        match (parse_u64_text(parts[0]), parse_u64_text(parts[1]), parse_u64_text(parts[2])) {
            (Some(a), Some(b), Some(c)) => Some((a, b, c)),
            _ => None,
        }
    }
}

/// Tuple order on versions.
pub open spec fn version_gt(c: (u64, u64, u64), b: (u64, u64, u64)) -> bool {
    c.0 > b.0 || (c.0 == b.0 && (c.1 > b.1 || (c.1 == b.1 && c.2 > b.2)))
}

/// `candidate` is newer than `baseline`: by version numbers when both parse,
/// else by text order.
pub open spec fn newer(candidate: Seq<char>, baseline: Seq<char>) -> bool {
    match (semver_of(candidate), semver_of(baseline)) {
        (Some(c), Some(b)) => version_gt(c, b),
        _ => text_less(baseline, candidate),
    }
}

proof fn lemma_split_nonempty(s: Seq<char>, c: char)
    ensures
        split_on(s, c).len() >= 1,
    decreases s.len(),
{
    let i = first_index_of(s, c);
    if i < s.len() {
        lemma_split_nonempty(s.skip(i + 1 as int), c);
    }
}

/// Index of the first `c` in `cs[from..to]` (as an index of `cs`), or `to`.
fn find_char(cs: &Vec<char>, from: usize, to: usize, c: char) -> (r: usize)
    requires
        from <= to <= cs@.len(),
    ensures
        from <= r <= to,
        r - from == first_index_of(cs@.subrange(from as int, to as int), c),
{
    let ghost t = cs@.subrange(from as int, to as int);
    let mut i = from;
    while i < to && cs[i] != c
        invariant
            from <= i <= to <= cs@.len(),
            t == cs@.subrange(from as int, to as int),
            forall|k: int| from <= k < i ==> cs@[k] != c,
        decreases to - i,
    {
        i = i + 1;
    }
    proof {
        assert forall|k: int| 0 <= k < i - from implies #[trigger] t[k] != c by {
            assert(t[k] == cs@[from + k]);
        }
        if i < to {
            assert(t[i - from] == cs@[i as int]);
        }
        lemma_first_index_is(t, c, i - from);
    }
    i
}

/// Unfolds `split_on` once at a separator found at `d` (an index of `cs`).
proof fn lemma_split_step(cs: Seq<char>, from: int, to: int, d: int, c: char)
    requires
        0 <= from <= d < to <= cs.len(),
        d - from == first_index_of(cs.subrange(from, to), c),
    ensures
        split_on(cs.subrange(from, to), c) == seq![cs.subrange(from, d)] + split_on(
            cs.subrange(d + 1, to),
            c,
        ),
{
    let t = cs.subrange(from, to);
    assert(t.take(d - from) =~= cs.subrange(from, d));
    assert(t.skip(d - from + 1) =~= cs.subrange(d + 1, to));
}

/// The version numbers of a tag such as `v0.8.0`.
pub fn parse_semver(v: &str) -> (r: Option<(u64, u64, u64)>)
    ensures
        r == semver_of(v@),
{
    let cs = chars_of(v);
    let n = cs.len();
    let mut a: usize = 0;
    assert(cs@.subrange(0, n as int) =~= v@);
    while a < n && cs[a] == 'v'
        invariant
            cs@ == v@,
            n == cs@.len(),
            a <= n,
            strip_leading_v(v@) == strip_leading_v(cs@.subrange(a as int, n as int)),
        decreases n - a,
    {
        proof {
            assert(cs@.subrange(a as int, n as int).skip(1) =~= cs@.subrange(a + 1, n as int));
        }
        a = a + 1;
    }
    proof {
        assert(cs@.subrange(0, n as int) =~= v@);
    }
    let ghost t = cs@.subrange(a as int, n as int);
    assert(strip_leading_v(v@) == t);
    let d1 = find_char(&cs, a, n, '.');
    if d1 == n {
        proof {
            assert(split_on(t, '.') == seq![t]);
        }
        return None;
    }
    proof {
        lemma_split_step(cs@, a as int, n as int, d1 as int, '.');
    }
    let d2 = find_char(&cs, d1 + 1, n, '.');
    if d2 == n {
        proof {
            let u = cs@.subrange(d1 + 1, n as int);
            assert(split_on(u, '.') == seq![u]);
            assert(split_on(t, '.').len() == 2);
        }
        return None;
    }
    proof {
        lemma_split_step(cs@, d1 + 1, n as int, d2 as int, '.');
    }
    let d3 = find_char(&cs, d2 + 1, n, '.');
    if d3 < n {
        proof {
            lemma_split_step(cs@, d2 + 1, n as int, d3 as int, '.');
            lemma_split_nonempty(cs@.subrange(d3 + 1, n as int), '.');
            assert(split_on(t, '.').len() >= 4);
        }
        return None;
    }
    proof {
        let w = cs@.subrange(d2 + 1, n as int);
        assert(split_on(w, '.') == seq![w]);
        let parts = split_on(t, '.');
        assert(parts.len() == 3);
        assert(parts[0] == cs@.subrange(a as int, d1 as int));
        assert(parts[1] == cs@.subrange(d1 + 1, d2 as int));
        assert(parts[2] == w);
    }
    let major = match parse_u64_at(&cs, a, d1) {
        Some(x) => x,
        None => return None,
    };
    let minor = match parse_u64_at(&cs, d1 + 1, d2) {
        Some(x) => x,
        None => return None,
    };
    let patch = match parse_u64_at(&cs, d2 + 1, n) {
        Some(x) => x,
        None => return None,
    };
    Some((major, minor, patch))
}

/// Whether release tag `candidate` is newer than `baseline`: by version
/// numbers when both parse, else by plain text order.
pub fn is_newer(candidate: &str, baseline: &str) -> (r: bool)
    ensures
        r == newer(candidate@, baseline@),
{
    match (parse_semver(candidate), parse_semver(baseline)) {
        (Some(c), Some(b)) => {
            c.0 > b.0 || (c.0 == b.0 && (c.1 > b.1 || (c.1 == b.1 && c.2 > b.2)))
        },
        _ => less_text(baseline, candidate),
    }
}

// ---------------------------------------------------------------- laws

proof fn lemma_text_less_irreflexive(a: Seq<char>)
    ensures
        !text_less(a, a),
    decreases a.len(),
{
    if a.len() > 0 {
        lemma_text_less_irreflexive(a.skip(1));
    }
}

proof fn lemma_text_less_asymmetric(a: Seq<char>, b: Seq<char>)
    ensures
        text_less(a, b) ==> !text_less(b, a),
    decreases a.len(),
{
    if a.len() > 0 && b.len() > 0 && a[0] == b[0] {
        lemma_text_less_asymmetric(a.skip(1), b.skip(1));
    }
}

/// No tag is newer than itself.
pub proof fn lemma_newer_irreflexive(a: Seq<char>)
    ensures
        !newer(a, a),
{
    lemma_text_less_irreflexive(a);
}

/// Of two tags, at most one is newer than the other.
pub proof fn lemma_newer_asymmetric(a: Seq<char>, b: Seq<char>)
    ensures
        newer(a, b) ==> !newer(b, a),
{
    lemma_text_less_asymmetric(a, b);
    lemma_text_less_asymmetric(b, a);
}

/// A leading `v` does not change the version a tag names.
pub proof fn lemma_semver_ignores_leading_v(s: Seq<char>)
    ensures
        semver_of(seq!['v'] + s) == semver_of(s),
{
    assert((seq!['v'] + s).skip(1) =~= s);
}

/// Between tags that both name versions, the newer one has the larger
/// major number; with equal majors, the larger minor number; with equal
/// majors and minors, the larger patch number. Of two different versions
/// exactly one is newer, and a version is never newer than itself.
pub proof fn lemma_newer_orders_versions(a: Seq<char>, b: Seq<char>)
    requires
        semver_of(a) is Some,
        semver_of(b) is Some,
    ensures
        ({
            let x = semver_of(a)->0;
            let y = semver_of(b)->0;
            &&& x.0 > y.0 ==> newer(a, b)
            &&& x.0 == y.0 && x.1 > y.1 ==> newer(a, b)
            &&& x.0 == y.0 && x.1 == y.1 && x.2 > y.2 ==> newer(a, b)
            &&& newer(a, b) ==> x.0 > y.0 || (x.0 == y.0 && (x.1 > y.1 || (x.1 == y.1 && x.2
                > y.2)))
            &&& x != y ==> (newer(a, b) <==> !newer(b, a))
            &&& x == y ==> !newer(a, b)
        }),
{
}

/// A release whose tag differs from the running one only in a larger
/// patch (or minor, or major) number is offered as an update.
pub proof fn lemma_later_release_is_newer(a: u64, b: u64, c: u64, d: u64)
    requires
        d > c,
    ensures
        newer(version_text(a, b, d), version_text(a, b, c)),
        newer(seq!['v'] + version_text(a, b, d), seq!['v'] + version_text(a, b, c)),
        newer(version_text(a, d, 0), version_text(a, c, u64::MAX)),
        newer(version_text(d, 0, 0), version_text(c, u64::MAX, u64::MAX)),
{
    lemma_semver_reads_version_text(a, b, d);
    lemma_semver_reads_version_text(a, b, c);
    lemma_semver_reads_version_text(a, d, 0);
    lemma_semver_reads_version_text(a, c, u64::MAX);
    lemma_semver_reads_version_text(d, 0, 0);
    lemma_semver_reads_version_text(c, u64::MAX, u64::MAX);
}

/// On tags that both parse, `newer` is transitive.
pub proof fn lemma_newer_transitive_on_versions(a: Seq<char>, b: Seq<char>, c: Seq<char>)
    requires
        semver_of(a) is Some,
        semver_of(b) is Some,
        semver_of(c) is Some,
        newer(a, b),
        newer(b, c),
    ensures
        newer(a, c),
{
}

/// The decimal digit for `d` (0 to 9).
pub open spec fn digit_char(d: int) -> char {
    if d == 0 {
        '0'
    } else if d == 1 {
        '1'
    } else if d == 2 {
        '2'
    } else if d == 3 {
        '3'
    } else if d == 4 {
        '4'
    } else if d == 5 {
        '5'
    } else if d == 6 {
        '6'
    } else if d == 7 {
        '7'
    } else if d == 8 {
        '8'
    } else {
        '9'
    }
}

/// `n` written in decimal, without leading zeros (as `format!("{}", n)`).
pub open spec fn decimal(n: nat) -> Seq<char>
    decreases n,
{
    if n < 10 {
        seq![digit_char(n as int)]
    } else {
        decimal(n / 10).push(digit_char((n % 10) as int))
    }
}

/// The tag `a.b.c` (as `format!("{}.{}.{}", a, b, c)`).
pub open spec fn version_text(a: u64, b: u64, c: u64) -> Seq<char> {
    decimal(a as nat) + seq!['.'] + decimal(b as nat) + seq!['.'] + decimal(c as nat)
}

proof fn lemma_decimal(n: nat)
    ensures
        decimal(n).len() >= 1,
        all_digits(decimal(n)),
        digits_value(decimal(n)) == n,
    decreases n,
{
    if n >= 10 {
        lemma_decimal(n / 10);
        let d = decimal(n / 10);
        let e = d.push(digit_char((n % 10) as int));
        assert(e.drop_last() =~= d);
        assert forall|i: int| 0 <= i < e.len() implies is_digit(#[trigger] e[i]) by {
            if i < d.len() {
                assert(e[i] == d[i]);
            }
        }
        assert(decimal(n) == e);
        assert(e.last() == digit_char((n % 10) as int));
        assert(digit_value(digit_char((n % 10) as int)) == n % 10);
        assert(digits_value(e) == digits_value(d) * 10 + digit_value(e.last()));
        assert((n / 10) * 10 + n % 10 == n);
    } else {
        let e = seq![digit_char(n as int)];
        assert(decimal(n) == e);
        assert(digit_value(digit_char(n as int)) == n);
        assert(e.drop_last() =~= Seq::<char>::empty());
        assert(digits_value(e) == digits_value(e.drop_last()) * 10 + digit_value(e.last()));
    }
}

proof fn lemma_parse_decimal(n: u64)
    ensures
        parse_u64_text(decimal(n as nat)) == Some(n),
        forall|i: int| 0 <= i < decimal(n as nat).len() ==> #[trigger] decimal(n as nat)[i] != '.',
        decimal(n as nat)[0] != 'v',
{
    lemma_decimal(n as nat);
    let d = decimal(n as nat);
    assert(is_digit(d[0]));
    assert forall|i: int| 0 <= i < d.len() implies #[trigger] d[i] != '.' by {
        assert(is_digit(d[i]));
    }
}

/// Splitting at the first `c`, when `x` holds none.
proof fn lemma_split_at_first(x: Seq<char>, y: Seq<char>, c: char)
    requires
        forall|i: int| 0 <= i < x.len() ==> #[trigger] x[i] != c,
    ensures
        split_on(x + seq![c] + y, c) == seq![x] + split_on(y, c),
        split_on(x, c) == seq![x],
{
    let s = x + seq![c] + y;
    assert forall|i: int| 0 <= i < x.len() implies #[trigger] s[i] != c by {
        assert(s[i] == x[i]);
    }
    assert(s[x.len() as int] == c);
    lemma_first_index_is(s, c, x.len() as int);
    assert(s.take(x.len() as int) =~= x);
    assert(s.skip(x.len() + 1 as int) =~= y);
    lemma_first_index_is(x, c, x.len() as int);
}

/// A number reads as itself in decimal, also after a `+` sign; a `-` sign,
/// an empty text or a text with a non-digit is no number.
pub proof fn lemma_u64_text(n: u64, x: Seq<char>, c: char)
    requires
        !is_digit(c),
    ensures
        parse_u64_text(decimal(n as nat)) == Some(n),
        parse_u64_text(seq!['+'] + decimal(n as nat)) == Some(n),
        parse_u64_text(seq!['-'] + decimal(n as nat)) is None,
        parse_u64_text(Seq::empty()) is None,
        c != '+' ==> parse_u64_text(seq![c] + x) is None,
        parse_u64_text(x + seq![c]) is None,
{
    lemma_parse_decimal(n);
    lemma_decimal(n as nat);
    let d = decimal(n as nat);
    assert((seq!['+'] + d)[0] == '+');
    assert((seq!['+'] + d).skip(1) =~= d);
    assert(!is_digit((seq!['-'] + d)[0]));
    assert(!is_digit((seq![c] + x)[0]));
    let e = x + seq![c];
    if e.len() > 0 && e[0] == '+' {
        if e.len() > 1 {
            assert(e.skip(1)[e.len() - 2] == e[e.len() - 1]);
            assert(e[e.len() - 1] == c);
        }
    } else {
        assert(e[e.len() - 1] == c);
    }
}

/// An asset is chosen for a platform when its name holds the platform's
/// name anywhere.
pub proof fn lemma_asset_named_for_platform(a: Asset, platform: Seq<char>, x: Seq<char>, y: Seq<char>)
    requires
        a.name@ == x + platform + y,
    ensures
        asset_matches(a, platform),
{
    lemma_contains_piece(x, platform, y);
}

/// A tag written as three `u64` numbers separated by dots, with or without
/// a leading `v`, reads back as those numbers.
pub proof fn lemma_semver_reads_version_text(a: u64, b: u64, c: u64)
    ensures
        semver_of(version_text(a, b, c)) == Some((a, b, c)),
        semver_of(seq!['v'] + version_text(a, b, c)) == Some((a, b, c)),
{
    lemma_parse_decimal(a);
    lemma_parse_decimal(b);
    lemma_parse_decimal(c);
    let (x, y, z) = (decimal(a as nat), decimal(b as nat), decimal(c as nat));
    let t = version_text(a, b, c);
    assert(t =~= x + seq!['.'] + (y + seq!['.'] + z));
    lemma_split_at_first(x, y + seq!['.'] + z, '.');
    lemma_split_at_first(y, z, '.');
    lemma_split_at_first(z, Seq::empty(), '.');
    assert(t[0] == x[0]);
    assert(strip_leading_v(t) == t);
    let parts = split_on(t, '.');
    assert(parts =~= seq![x, y, z]);
    lemma_semver_ignores_leading_v(t);
}

// ---------------------------------------------------------------- releases

/// A downloadable file of a release.
pub struct Asset {
    pub name: String,
    pub browser_download_url: String,
}

/// A published release: its tag and its assets.
pub struct RepoRelease {
    pub tag_name: String,
    pub assets: Vec<Asset>,
}

/// Why no download could be chosen.
pub enum UpdateError {
    /// No asset of the release is built for `platform`.
    AssetNotFound { platform: String },
}

pub open spec fn asset_matches(a: Asset, platform: Seq<char>) -> bool {
    contains_text(a.name@, platform)
}

impl UpdateError {
    /// The message the updater shows for this error.
    pub fn message(&self) -> (m: String)
        ensures
            (match self {
                UpdateError::AssetNotFound { platform } => m@
                    == "no se encontró un asset para la plataforma '"@ + platform@ + "'"@,
            }),
    {
        match self {
            UpdateError::AssetNotFound { platform } => {
                let mut m = String::from_str("no se encontró un asset para la plataforma '");
                m.append(platform.as_str());
                m.append("'");
                m
            },
        }
    }
}

/// The download URL of the first asset whose name contains `platform`.
pub fn find_asset_url(release: &RepoRelease, platform: &str) -> (r: Result<String, UpdateError>)
    ensures
        (match r {
            Ok(url) => exists|i: int|
                0 <= i < release.assets@.len() && asset_matches(release.assets@[i], platform@) && (
                forall|j: int| 0 <= j < i ==> !asset_matches(#[trigger] release.assets@[j], platform@))
                    && url@ == release.assets@[i].browser_download_url@,
            Err(UpdateError::AssetNotFound { platform: p }) => p@ == platform@ && forall|i: int|
                0 <= i < release.assets@.len() ==> !asset_matches(
                    #[trigger] release.assets@[i],
                    platform@,
                ),
        }),
{
    let mut i: usize = 0;
    while i < release.assets.len()
        invariant
            i <= release.assets@.len(),
            forall|j: int| 0 <= j < i ==> !asset_matches(#[trigger] release.assets@[j], platform@),
        decreases release.assets@.len() - i,
    {
        let a = &release.assets[i];
        if contains(a.name.as_str(), platform) {
            let url = a.browser_download_url.clone();
            assert(asset_matches(release.assets@[i as int], platform@));
            return Ok(url);
        }
        i = i + 1;
    }
    Err(UpdateError::AssetNotFound { platform: String::from_str(platform) })
}

/// The name that release assets use for the platform with operating system
/// `os` and architecture `arch` (the values of `std::env::consts::{OS, ARCH}`),
/// or `None` for a platform that has no build.
pub fn platform_identifier(os: &str, arch: &str) -> (r: Option<&'static str>)
    ensures
        (os@ == "linux"@ && arch@ == "x86_64"@) ==> r == Some("x86_64-unknown-linux-gnu"),
        (os@ == "linux"@ && arch@ == "aarch64"@) ==> r == Some("aarch64-unknown-linux-gnu"),
        (os@ == "macos"@ && arch@ == "x86_64"@) ==> r == Some("x86_64-apple-darwin"),
        (os@ == "macos"@ && arch@ == "aarch64"@) ==> r == Some("aarch64-apple-darwin"),
        (os@ == "windows"@ && arch@ == "x86_64"@) ==> r == Some("x86_64-pc-windows-msvc"),
        r is None <==> !((os@ == "linux"@ && (arch@ == "x86_64"@ || arch@ == "aarch64"@)) || (
        os@ == "macos"@ && (arch@ == "x86_64"@ || arch@ == "aarch64"@)) || (os@ == "windows"@
            && arch@ == "x86_64"@)),
{
    proof {
        reveal_strlit("linux");
        reveal_strlit("macos");
        reveal_strlit("windows");
        reveal_strlit("x86_64");
        reveal_strlit("aarch64");
    }
    assert("linux"@.len() == 5 && "linux"@[0] == 'l');
    assert("macos"@.len() == 5 && "macos"@[0] == 'm');
    assert("windows"@.len() == 7);
    assert("x86_64"@.len() == 6);
    assert("aarch64"@.len() == 7);
    let linux = same_text(os, "linux");
    let macos = same_text(os, "macos");
    let windows = same_text(os, "windows");
    let x86 = same_text(arch, "x86_64");
    let arm = same_text(arch, "aarch64");
    if linux && x86 {
        Some("x86_64-unknown-linux-gnu")
    } else if linux && arm {
        Some("aarch64-unknown-linux-gnu")
    } else if macos && x86 {
        Some("x86_64-apple-darwin")
    } else if macos && arm {
        Some("aarch64-apple-darwin")
    } else if windows && x86 {
        Some("x86_64-pc-windows-msvc")
    } else {
        None
    }
}

/// What the version check concludes.
#[derive(Clone, Copy, Debug, PartialEq, Eq)]
pub enum ReleaseCheck {
    /// The latest release could not be looked up.
    LookupFailed,
    /// The running version is not older than the latest release.
    UpToDate,
    /// A newer release exists.
    UpdateAvailable,
}

/// The tag that stands for a failed lookup of the latest release.
pub open spec fn lookup_failed_tag() -> Seq<char> {
    seq!['E', 'R', 'R', 'O', 'R']
}

/// Compares the latest release's tag with the running version's tag.
pub fn check_release(latest_tag: &str, current_version: &str) -> (r: ReleaseCheck)
    ensures
        latest_tag@ == lookup_failed_tag() ==> r == ReleaseCheck::LookupFailed,
        latest_tag@ != lookup_failed_tag() ==> (r == if newer(latest_tag@, current_version@) {
            ReleaseCheck::UpdateAvailable
        } else {
            ReleaseCheck::UpToDate
        }),
{
    let tag = chars_of(latest_tag);
    let failed = vec!['E', 'R', 'R', 'O', 'R'];
    let mut same = tag.len() == failed.len();
    let mut i: usize = 0;
    while same && i < tag.len()
        invariant
            tag@ == latest_tag@,
            failed@ == lookup_failed_tag(),
            same ==> tag@.len() == failed@.len(),
            same ==> forall|k: int| 0 <= k < i ==> tag@[k] == failed@[k],
            !same ==> tag@ != failed@,
            i <= tag@.len(),
        decreases tag@.len() - i,
    {
        if tag[i] != failed[i] {
            same = false;
        }
        i = i + 1;
    }
    if same {
        assert(tag@ =~= failed@);
        ReleaseCheck::LookupFailed
    } else if is_newer(latest_tag, current_version) {
        ReleaseCheck::UpdateAvailable
    } else {
        ReleaseCheck::UpToDate
    }
}

/// The answer to "update now?" accepts: `y` or `Y`, surrounding whitespace
/// aside (what `trim().to_lowercase() == "y"` accepts).
pub open spec fn accepts(answer: Seq<char>) -> bool {
    trim(answer) == seq!['y'] || trim(answer) == seq!['Y']
}

/// An answer accepts the update exactly when, whitespace around it aside, it
/// is the single letter `y` or `Y`: any other answer (`n`, `N`, `no`, `yes`,
/// an empty line) declines it, and surrounding whitespace changes nothing.
pub proof fn lemma_only_y_accepts(answer: Seq<char>, pre: Seq<char>, post: Seq<char>)
    requires
        forall|i: int| 0 <= i < pre.len() ==> is_white(#[trigger] pre[i]),
        forall|i: int| 0 <= i < post.len() ==> is_white(#[trigger] post[i]),
    ensures
        accepts(answer) <==> (trim(answer).len() == 1 && (trim(answer)[0] == 'y' || trim(answer)[0]
            == 'Y')),
        accepts(seq!['y']) && accepts(seq!['Y']),
        !accepts(seq!['n']) && !accepts(seq!['N']) && !accepts(seq!['n', 'o']) && !accepts(
            seq!['y', 'e', 's'],
        ) && !accepts(Seq::empty()),
        accepts(pre + seq!['y'] + post),
        !accepts(pre + seq!['N'] + post),
{
    if trim(answer).len() == 1 {
        assert(seq!['y'].len() == 1 && seq!['y'][0] == 'y');
        assert(seq!['Y'].len() == 1 && seq!['Y'][0] == 'Y');
        if trim(answer)[0] == 'y' {
            assert(trim(answer) =~= seq!['y']);
        }
        if trim(answer)[0] == 'Y' {
            assert(trim(answer) =~= seq!['Y']);
        }
    }
    lemma_trim_padded(pre, 'y', post);
    lemma_trim_padded(pre, 'N', post);
    lemma_trim_padded(Seq::empty(), 'y', Seq::empty());
    lemma_trim_padded(Seq::empty(), 'Y', Seq::empty());
    lemma_trim_padded(Seq::empty(), 'n', Seq::empty());
    lemma_trim_padded(Seq::empty(), 'N', Seq::empty());
    assert(seq!['y'] =~= Seq::<char>::empty() + seq!['y'] + Seq::<char>::empty());
    assert(seq!['Y'] =~= Seq::<char>::empty() + seq!['Y'] + Seq::<char>::empty());
    assert(seq!['n'] =~= Seq::<char>::empty() + seq!['n'] + Seq::<char>::empty());
    assert(seq!['N'] =~= Seq::<char>::empty() + seq!['N'] + Seq::<char>::empty());
    lemma_trim_no_white_ends(seq!['n', 'o']);
    lemma_trim_no_white_ends(seq!['y', 'e', 's']);
    lemma_lead_white_is(Seq::<char>::empty(), 0);
}

/// The whitespace-padded single letter `c` trims to `c`.
proof fn lemma_trim_padded(pre: Seq<char>, c: char, post: Seq<char>)
    requires
        forall|i: int| 0 <= i < pre.len() ==> is_white(#[trigger] pre[i]),
        forall|i: int| 0 <= i < post.len() ==> is_white(#[trigger] post[i]),
        !is_white(c),
    ensures
        trim(pre + seq![c] + post) == seq![c],
{
    let s = pre + seq![c] + post;
    assert forall|i: int| 0 <= i < pre.len() implies is_white(#[trigger] s[i]) by {
        assert(s[i] == pre[i]);
    }
    assert(s[pre.len() as int] == c);
    lemma_lead_white_is(s, pre.len() as int);
    let t = s.skip(pre.len() as int);
    assert(t =~= seq![c] + post);
    assert forall|i: int| t.len() - post.len() <= i < t.len() implies is_white(#[trigger] t[i]) by {
        assert(t[i] == post[i - 1]);
    }
    assert(t[t.len() - post.len() - 1] == c);
    lemma_trail_white_is(t, post.len() as int);
    assert(t.take(1) =~= seq![c]);
}

/// Whether the user's answer accepts the update.
pub fn accepts_update(answer: &str) -> (b: bool)
    ensures
        b == accepts(answer@),
{
    let cs = chars_of(answer);
    let (a, e) = trim_bounds(&cs, 0, cs.len());
    assert(cs@.subrange(0, cs@.len() as int) =~= answer@);
    let ghost t = cs@.subrange(a as int, e as int);
    assert(t == trim(answer@));
    if e - a == 1 && (cs[a] == 'y' || cs[a] == 'Y') {
        assert(t =~= seq![cs@[a as int]]);
        true
    } else {
        if e - a == 1 {
            assert(t[0] == cs@[a as int]);
            assert(seq!['y'][0] == 'y');
            assert(seq!['Y'][0] == 'Y');
        } else {
            assert(seq!['y'].len() == 1);
            assert(seq!['Y'].len() == 1);
        }
        false
    }
}

} // verus!
