//! Text helpers for scraped fields: indenting multi-line text by nesting
//! level, trimming a domain to its last two labels, and reading the counts
//! out of scraped score and comment labels.

use vstd::prelude::*;
use vstd::string::StrSliceExecFns;
use vstd::string::StringExecFns;

verus! {

/// A run of `w` spaces.
pub open spec fn spaces(w: int) -> Seq<char> {
    Seq::new(w as nat, |i: int| ' ')
}

/// The position of the first line feed, or the length if there is none.
pub open spec fn first_newline(s: Seq<char>) -> int
    decreases s.len(),
{
    if s.len() == 0 {
        0
    } else if s[0] == '\n' {
        0
    } else {
        1 + first_newline(s.drop_first())
    }
}

proof fn lemma_first_newline(s: Seq<char>)
    ensures
        0 <= first_newline(s) <= s.len(),
        forall|j: int| 0 <= j < first_newline(s) ==> s[j] != '\n',
        first_newline(s) < s.len() ==> s[first_newline(s)] == '\n',
    decreases s.len(),
{
    if s.len() > 0 && s[0] != '\n' {
        lemma_first_newline(s.drop_first());
        assert forall|j: int| 0 <= j < first_newline(s) implies s[j] != '\n' by {
            if j > 0 {
                assert(s.drop_first()[j - 1] == s[j]);
            }
        }
    }
}

/// A line as `str::lines` hands it out: without a carriage return right
/// before the line feed.
pub open spec fn strip_cr(l: Seq<char>) -> Seq<char> {
    if l.len() > 0 && l[l.len() - 1] == '\r' {
        l.drop_last()
    } else {
        l
    }
}

/// The lines of `s`, split at line feeds, each without its line ending; a
/// trailing line feed opens no further line. A carriage return is dropped
/// only right before a line feed, so a final segment with no line feed after
/// it keeps any `'\r'` it ends in, just as `str::lines` does.
pub open spec fn split_lines(s: Seq<char>) -> Seq<Seq<char>>
    decreases s.len(),
{
    if s.len() == 0 {
        Seq::empty()
    } else {
        let i = first_newline(s);
        if 0 <= i < s.len() {
            seq![strip_cr(s.take(i))] + split_lines(s.skip(i + 1))
        } else {
            seq![s]
        }
    }
}

/// The lines each led by `p`, joined with line feeds.
pub open spec fn join_lines(ls: Seq<Seq<char>>, p: Seq<char>) -> Seq<char>
    decreases ls.len(),
{
    if ls.len() == 0 {
        Seq::empty()
    } else if ls.len() == 1 {
        p + ls[0]
    } else {
        p + ls[0] + seq!['\n'] + join_lines(ls.drop_first(), p)
    }
}

/// `s` with every line led by two spaces per level of `level`.
pub open spec fn indent_spec(s: Seq<char>, level: int) -> Seq<char> {
    join_lines(split_lines(s), spaces(2 * level))
}

/// The position of the first line feed, found by scanning.
fn find_newline(s: &str) -> (i: usize)
    ensures
        i == first_newline(s@),
{
    let n = s.unicode_len();
    let mut i: usize = 0;
    while i < n && s.get_char(i) != '\n'
        invariant
            n == s@.len(),
            0 <= i <= n,
            forall|j: int| 0 <= j < i ==> s@[j] != '\n',
        decreases n - i,
    {
        i = i + 1;
    }
    proof {
        lemma_first_newline(s@);
        let fnl = first_newline(s@);
        if i < fnl {
            assert(s@[i as int] == '\n');
            assert(false);
        }
        if fnl < i {
            assert(s@[fnl] != '\n');
            assert(false);
        }
    }
    i
}

/// Two spaces for every level.
fn make_prefix(level: usize) -> (r: String)
    requires
        2 * level <= usize::MAX,
    ensures
        r@ == spaces(2 * level),
{
    let mut r = String::new();
    let mut k: usize = 0;
    while k < level
        invariant
            2 * level <= usize::MAX,
            k <= level,
            r@ == spaces(2 * k),
        decreases level - k,
    {
        r.append("  ");
        proof {
            reveal_strlit("  ");
            assert(r@ =~= spaces(2 * (k + 1)));
        }
        k = k + 1;
    }
    r
}

fn indent_with(text: &str, prefix: &str) -> (r: String)
    ensures
        r@ == join_lines(split_lines(text@), prefix@),
    decreases text@.len(),
{
    let n = text.unicode_len();
    if n == 0 {
        return String::new();
    }
    let i = find_newline(text);
    proof {
        lemma_first_newline(text@);
    }
    // a carriage return is dropped only when the line feed at `i` follows it
    let line_end = if i < n && i > 0 && text.get_char(i - 1) == '\r' {
        i - 1
    } else {
        i
    };
    let mut out = String::new();
    out.append(prefix);
    out.append(text.substring_char(0, line_end));
    proof {
        if i < n {
            assert(text@.subrange(0, line_end as int) =~= strip_cr(text@.take(i as int)));
            assert(out@ == prefix@ + strip_cr(text@.take(i as int)));
        } else {
            assert(text@.subrange(0, line_end as int) =~= text@);
            assert(out@ == prefix@ + text@);
        }
    }
    if i < n && i + 1 < n {
        out.append("\n");
        let sub = indent_with(text.substring_char(i + 1, n), prefix);
        out.append(sub.as_str());
        proof {
            reveal_strlit("\n");
            let rest = text@.skip(i + 1);
            assert(rest.len() > 0);
            assert(split_lines(rest).len() >= 1);
            let lines = split_lines(text@);
            assert(lines == seq![strip_cr(text@.take(i as int))] + split_lines(rest));
            assert(lines.len() >= 2);
            assert(lines.drop_first() =~= split_lines(rest));
            assert(lines[0] == strip_cr(text@.take(i as int)));
            assert("\n"@ =~= seq!['\n']);
            assert(out@ =~= prefix@ + lines[0] + seq!['\n'] + join_lines(
                lines.drop_first(),
                prefix@,
            ));
        }
    } else {
        proof {
            let lines = split_lines(text@);
            if i < n {
                // the line feed is the last character: one line only
                assert(text@.skip(i + 1).len() == 0);
                assert(split_lines(text@.skip(i + 1)) =~= Seq::<Seq<char>>::empty());
                assert(lines =~= seq![strip_cr(text@.take(i as int))]);
            } else {
                // no line feed at all: the whole text is the one line, kept as is
                assert(lines == seq![text@]);
            }
            assert(lines.len() == 1);
            assert(out@ == prefix@ + lines[0]);
        }
    }
    out
}

/// Leads every line of `text` with two spaces per `level`.
pub fn indent(text: &str, level: usize) -> (r: String)
    requires
        2 * level <= usize::MAX,
    ensures
        r@ == indent_spec(text@, level as int),
{
    let prefix = make_prefix(level);
    indent_with(text, prefix.as_str())
}

/// `s` with every occurrence of `pat` removed, scanning left to right.
pub open spec fn remove_all(s: Seq<char>, pat: Seq<char>) -> Seq<char>
    decreases s.len(),
{
    if pat.len() == 0 || s.len() < pat.len() {
        s
    } else if s.take(pat.len() as int) == pat {
        remove_all(s.skip(pat.len() as int), pat)
    } else {
        seq![s[0]] + remove_all(s.drop_first(), pat)
    }
}

fn remove_all_str(s: &str, pat: &str) -> (r: String)
    requires
        pat@.len() >= 1,
    ensures
        r@ == remove_all(s@, pat@),
    decreases s@.len(),
{
    let n = s.unicode_len();
    let m = pat.unicode_len();
    if n < m {
        return s.to_owned();
    }
    let mut k: usize = 0;
    while k < m && s.get_char(k) == pat.get_char(k)
        invariant
            m == pat@.len(),
            n == s@.len(),
            m <= n,
            0 <= k <= m,
            forall|j: int| 0 <= j < k ==> s@[j] == pat@[j],
        decreases m - k,
    {
        k = k + 1;
    }
    if k == m {
        proof {
            assert(s@.take(m as int) =~= pat@);
        }
        let rest = s.substring_char(m, n);
        let r = remove_all_str(rest, pat);
        proof {
            assert(rest@ == s@.skip(m as int));
        }
        r
    } else {
        proof {
            assert(s@[k as int] != pat@[k as int]);
            assert(s@.take(m as int)[k as int] == s@[k as int]);
            assert(s@.take(m as int) != pat@);
        }
        let mut out = s.substring_char(0, 1).to_owned();
        let sub = remove_all_str(s.substring_char(1, n), pat);
        out.append(sub.as_str());
        proof {
            assert(s@.subrange(0, 1) =~= seq![s@[0]]);
            assert(s@.subrange(1, n as int) == s@.drop_first());
            assert(out@ == seq![s@[0]] + remove_all(s@.drop_first(), pat@));
        }
        out
    }
}

/// The characters are all decimal digits, and there is at least one.
pub open spec fn is_digits(s: Seq<char>) -> bool {
    s.len() > 0 && forall|i: int| 0 <= i < s.len() ==> '0' <= #[trigger] s[i] <= '9'
}

/// The number the digits spell, most significant first.
pub open spec fn digits_val(s: Seq<char>) -> int
    decreases s.len(),
{
    if s.len() == 0 {
        0
    } else {
        digits_val(s.drop_last()) * 10 + (s[s.len() - 1] as int - '0' as int)
    }
}

proof fn lemma_digits_val_nonneg(s: Seq<char>)
    requires
        forall|i: int| 0 <= i < s.len() ==> '0' <= #[trigger] s[i] <= '9',
    ensures
        digits_val(s) >= 0,
    decreases s.len(),
{
    if s.len() > 0 {
        lemma_digits_val_nonneg(s.drop_last());
    }
}

proof fn lemma_digits_val_prefix(s: Seq<char>, j: int)
    requires
        forall|i: int| 0 <= i < s.len() ==> '0' <= #[trigger] s[i] <= '9',
        0 <= j <= s.len(),
    ensures
        digits_val(s.take(j)) <= digits_val(s),
    decreases s.len() - j,
{
    if j < s.len() {
        lemma_digits_val_prefix(s, j + 1);
        assert(s.take(j + 1).drop_last() =~= s.take(j));
        lemma_digits_val_nonneg(s.take(j));
        assert(digits_val(s.take(j + 1)) == digits_val(s.take(j)) * 10 + (s[j] as int
            - '0' as int));
    } else {
        assert(s.take(j) =~= s);
    }
}

/// Reads an unsigned decimal number out of a digit string.
fn parse_digits(s: &str) -> (r: u32)
    requires
        is_digits(s@),
        digits_val(s@) <= u32::MAX,
    ensures
        r == digits_val(s@),
{
    let n = s.unicode_len();
    let mut r: u32 = 0;
    let mut i: usize = 0;
    proof {
        assert(s@.take(0) =~= Seq::<char>::empty());
    }
    while i < n
        invariant
            is_digits(s@),
            digits_val(s@) <= u32::MAX,
            n == s@.len(),
            0 <= i <= n,
            r == digits_val(s@.take(i as int)),
        decreases n - i,
    {
        let c = s.get_char(i);
        let d = c as u32 - '0' as u32;
        proof {
            lemma_digits_val_prefix(s@, i + 1);
            lemma_digits_val_nonneg(s@.take(i as int));
            assert(s@.take(i + 1).drop_last() =~= s@.take(i as int));
            assert(digits_val(s@.take(i + 1)) == digits_val(s@.take(i as int)) * 10 + (s@[i as int] as int
                - '0' as int));
        }
        r = r * 10 + d;
        i = i + 1;
    }
    proof {
        assert(s@.take(n as int) =~= s@);
    }
    r
}

/// The digits left of a scraped score label once the "point" wording is
/// removed.
pub open spec fn score_digits(s: Seq<char>) -> Seq<char> {
    remove_all(remove_all(s, " points"@), " point"@)
}

/// Reads the number out of a scraped score label such as "123 points".
pub fn parse_score(score: String) -> (r: u32)
    requires
        is_digits(score_digits(score@)),
        digits_val(score_digits(score@)) <= u32::MAX,
    ensures
        r == digits_val(score_digits(score@)),
{
    proof {
        reveal_strlit(" points");
        reveal_strlit(" point");
    }
    let s1 = remove_all_str(score.as_str(), " points");
    let s2 = remove_all_str(s1.as_str(), " point");
    parse_digits(s2.as_str())
}

/// The digits left of a scraped comment-count label once the "comment"
/// wording is removed.
pub open spec fn comment_count_digits(s: Seq<char>) -> Seq<char> {
    remove_all(remove_all(s, "&nbsp;comments"@), "&nbsp;comment"@)
}

/// Reads the number out of a scraped comment-count label such as
/// "45&nbsp;comments".
pub fn parse_comment_count(comment_count: String) -> (r: u32)
    requires
        is_digits(comment_count_digits(comment_count@)),
        digits_val(comment_count_digits(comment_count@)) <= u32::MAX,
    ensures
        r == digits_val(comment_count_digits(comment_count@)),
{
    proof {
        reveal_strlit("&nbsp;comments");
        reveal_strlit("&nbsp;comment");
    }
    let s1 = remove_all_str(comment_count.as_str(), "&nbsp;comments");
    let s2 = remove_all_str(s1.as_str(), "&nbsp;comment");
    parse_digits(s2.as_str())
}

/// The positions of the last two dots, carried left to right: `d1` trails
/// `d2`, which trails the scan.
pub open spec fn dots_fold(s: Seq<char>, i: int, d1: int, d2: int) -> (int, int)
    decreases s.len() - i,
{
    if i < 0 || i >= s.len() {
        (d1, d2)
    } else if s[i] == '.' {
        dots_fold(s, i + 1, d2, i)
    } else {
        dots_fold(s, i + 1, d1, d2)
    }
}

/// Where the kept part of a domain starts: right after the second-to-last
/// dot, or at the start when no two dots precede the last label.
pub open spec fn subdomain_start(s: Seq<char>) -> int {
    let d = dots_fold(s, 0, 0, 0);
    if d.0 == 0 {
        0
    } else {
        d.0 + 1
    }
}

proof fn lemma_dots_fold_bounds(s: Seq<char>, i: int, d1: int, d2: int)
    requires
        0 <= i,
        0 <= d1,
        0 <= d2,
        d1 == 0 || d1 < s.len(),
        d2 == 0 || d2 < s.len(),
    ensures
        ({
            let d = dots_fold(s, i, d1, d2);
            &&& 0 <= d.0
            &&& 0 <= d.1
            &&& (d.0 == 0 || d.0 < s.len())
            &&& (d.1 == 0 || d.1 < s.len())
        }),
    decreases s.len() - i,
{
    if 0 <= i < s.len() {
        if s[i] == '.' {
            lemma_dots_fold_bounds(s, i + 1, d2, i);
        } else {
            lemma_dots_fold_bounds(s, i + 1, d1, d2);
        }
    }
}

/// Trims a domain to its last two labels: everything up to and including the
/// second-to-last dot is dropped, so "news.example.co" keeps "example.co".
pub fn remove_subdomains<'a>(domain: &'a str) -> (r: &'a str)
    ensures
        r@ == domain@.skip(subdomain_start(domain@)),
{
    let n = domain.unicode_len();
    let mut d1: usize = 0;
    let mut d2: usize = 0;
    let mut i: usize = 0;
    while i < n
        invariant
            n == domain@.len(),
            0 <= i <= n,
            d1 == 0 || d1 < n,
            d2 == 0 || d2 < n,
            dots_fold(domain@, i as int, d1 as int, d2 as int) == dots_fold(domain@, 0, 0, 0),
        decreases n - i,
    {
        let c = domain.get_char(i);
        if c == '.' {
            d1 = d2;
            d2 = i;
        }
        i = i + 1;
    }
    let start = if d1 == 0 {
        0
    } else {
        d1 + 1
    };
    proof {
        lemma_dots_fold_bounds(domain@, 0, 0, 0);
        assert(dots_fold(domain@, n as int, d1 as int, d2 as int) == (d1 as int, d2 as int));
    }
    domain.substring_char(start, n)
}

} // verus!
