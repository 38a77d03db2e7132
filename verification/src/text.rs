//! Text as sequences of characters: trimming, case folding and joining.

use vstd::prelude::*;
use vstd::string::StringExecFns;

verus! {

/// Whether `c` has the Unicode property `White_Space`, as `char::is_whitespace`
/// reports it.
pub uninterp spec fn is_white_space(c: char) -> bool;

/// The lower-case form of a text, as `str::to_lowercase` gives it.
pub uninterp spec fn lowercase_of(text: Seq<char>) -> Seq<char>;

/// Calls `char::is_whitespace`. The answer is taken on trust and named
/// [`is_white_space`].
#[verifier::external_body]
pub(crate) fn is_whitespace(c: char) -> (r: bool)
    ensures
        r == is_white_space(c),
{
    c.is_whitespace()
}

/// Calls `str::to_lowercase`. The result is taken on trust and named
/// [`lowercase_of`].
#[verifier::external_body]
pub(crate) fn to_lowercase(text: &str) -> (r: String)
    ensures
        r@ == lowercase_of(text@),
{
    text.to_lowercase()
}

/// `s` without its leading white space.
pub open spec fn skip_leading(s: Seq<char>) -> Seq<char>
    decreases s.len(),
{
    if s.len() > 0 && is_white_space(s[0]) {
        skip_leading(s.drop_first())
    } else {
        s
    }
}

/// `s` without its trailing white space.
pub open spec fn skip_trailing(s: Seq<char>) -> Seq<char>
    decreases s.len(),
{
    if s.len() > 0 && is_white_space(s.last()) {
        skip_trailing(s.drop_last())
    } else {
        s
    }
}

/// `s` without leading and trailing white space.
pub open spec fn trimmed(s: Seq<char>) -> Seq<char> {
    skip_trailing(skip_leading(s))
}

/// Every character of `s` is white space.
pub open spec fn is_blank(s: Seq<char>) -> bool {
    forall|i: int| 0 <= i < s.len() ==> is_white_space(#[trigger] s[i])
}

/// The lower-case form of an ASCII capital letter; any other character as it is.
pub open spec fn fold(c: char) -> char {
    if 'A' <= c && c <= 'Z' {
        ((c as u8) + 32) as u8 as char
    } else {
        c
    }
}

/// The lines that hold a text, in order.
pub open spec fn present(lines: Seq<Option<Seq<char>>>) -> Seq<Seq<char>>
    decreases lines.len(),
{
    if lines.len() == 0 {
        Seq::empty()
    } else {
        match lines.last() {
            Some(line) => present(lines.drop_last()).push(line),
            None => present(lines.drop_last()),
        }
    }
}

/// The lines one after the other, a line feed between each two.
pub open spec fn joined(lines: Seq<Seq<char>>) -> Seq<char>
    decreases lines.len(),
{
    if lines.len() == 0 {
        Seq::empty()
    } else if lines.len() == 1 {
        lines[0]
    } else {
        joined(lines.drop_last()) + seq!['\n'] + lines.last()
    }
}

/// What a list of optional lines holds, each line by its characters.
pub open spec fn line_views(lines: Seq<Option<String>>) -> Seq<Option<Seq<char>>> {
    lines.map_values(
        |line: Option<String>|
            match line {
                Some(s) => Some(s@),
                None => None,
            },
    )
}

/// Leading white space can be skipped one character at a time.
proof fn lemma_skip_leading_step(s: Seq<char>, from: int)
    requires
        0 <= from < s.len(),
        is_white_space(s[from]),
    ensures
        skip_leading(s.subrange(from, s.len() as int)) == skip_leading(
            s.subrange(from + 1, s.len() as int),
        ),
{
    let tail = s.subrange(from, s.len() as int);
    assert(tail[0] == s[from]);
    assert(tail.drop_first() =~= s.subrange(from + 1, s.len() as int));
}

/// Trailing white space can be skipped one character at a time.
proof fn lemma_skip_trailing_step(s: Seq<char>, from: int, to: int)
    requires
        0 <= from < to <= s.len(),
        is_white_space(s[to - 1]),
    ensures
        skip_trailing(s.subrange(from, to)) == skip_trailing(s.subrange(from, to - 1)),
{
    let part = s.subrange(from, to);
    assert(part.last() == s[to - 1]);
    assert(part.drop_last() =~= s.subrange(from, to - 1));
}

/// A text of white space alone trims to nothing.
pub proof fn lemma_blank_trims_to_nothing(s: Seq<char>)
    requires
        is_blank(s),
    ensures
        trimmed(s).len() == 0,
    decreases s.len(),
{
    if s.len() > 0 {
        assert(is_white_space(s[0]));
        let rest = s.drop_first();
        assert forall|i: int| 0 <= i < rest.len() implies is_white_space(#[trigger] rest[i]) by {
            assert(rest[i] == s[i + 1]);
        }
        lemma_blank_trims_to_nothing(rest);
    }
}

/// Skipping leading white space leaves a suffix that does not start with white
/// space; skipping trailing white space leaves a prefix that does not end with it.
proof fn lemma_skip_shape(s: Seq<char>)
    ensures
        skip_leading(s).len() <= s.len(),
        skip_trailing(s).len() <= s.len(),
        skip_leading(s).len() > 0 ==> !is_white_space(skip_leading(s)[0]),
        skip_trailing(s).len() > 0 ==> !is_white_space(skip_trailing(s).last()),
        skip_trailing(s).len() > 0 ==> skip_trailing(s)[0] == s[0],
        s.len() > 0 && !is_white_space(s[0]) ==> skip_trailing(s).len() > 0,
    decreases s.len(),
{
    if s.len() > 0 {
        lemma_skip_shape(s.drop_first());
        lemma_skip_shape(s.drop_last());
        if s.len() > 1 {
            assert(s.drop_last()[0] == s[0]);
        }
    }
}

/// What is left after trimming neither starts nor ends with white space, and a
/// text that holds anything else than white space does not trim to nothing.
pub proof fn lemma_trimmed_shape(s: Seq<char>)
    ensures
        trimmed(s).len() <= s.len(),
        trimmed(s).len() > 0 ==> !is_white_space(trimmed(s)[0]) && !is_white_space(
            trimmed(s).last(),
        ),
        trimmed(s).len() == 0 <==> is_blank(s),
{
    lemma_skip_shape(s);
    lemma_skip_shape(skip_leading(s));
    lemma_blank_iff(s);
}

/// A text trims to nothing exactly when it is white space alone.
proof fn lemma_blank_iff(s: Seq<char>)
    ensures
        trimmed(s).len() == 0 <==> is_blank(s),
    decreases s.len(),
{
    if is_blank(s) {
        lemma_blank_trims_to_nothing(s);
    } else if s.len() > 0 {
        if is_white_space(s[0]) {
            let rest = s.drop_first();
            let i = choose|i: int| 0 <= i < s.len() && !is_white_space(#[trigger] s[i]);
            assert(rest[i - 1] == s[i]);
            assert(!is_blank(rest));
            lemma_blank_iff(rest);
        } else {
            lemma_skip_shape(s);
        }
    }
}

/// The characters of a text, in order.
pub fn chars_of(text: &str) -> (chars: Vec<char>)
    ensures
        chars@ == text@,
{
    let mut chars: Vec<char> = Vec::new();
    for c in it: text.chars()
        invariant
            chars@ == it.seq().take(it.index() as int),
    {
        chars.push(c);
    }
    chars
}

/// Whether two texts hold the same characters.
pub fn same_text(a: &str, b: &str) -> (r: bool)
    ensures
        r == (a@ == b@),
{
    let left = a.to_owned();
    let right = b.to_owned();
    left == right
}

/// The lower-case form of an ASCII capital letter; any other character as it is.
pub fn fold_char(c: char) -> (r: char)
    ensures
        r == fold(c),
{
    if 'A' <= c && c <= 'Z' {
        let code: u8 = c as u8;
        (code + 32) as char
    } else {
        c
    }
}

/// The text without leading and trailing white space.
pub fn trim(text: &str) -> (r: String)
    ensures
        r@ == trimmed(text@),
{
    let chars = chars_of(text);
    let n = chars.len();
    let mut start: usize = 0;
    assert(text@.subrange(0, n as int) =~= text@);
    while start < n && is_whitespace(chars[start])
        invariant
            start <= n,
            n == chars.len(),
            chars@ == text@,
            skip_leading(text@) == skip_leading(text@.subrange(start as int, n as int)),
        decreases n - start,
    {
        proof {
            lemma_skip_leading_step(text@, start as int);
        }
        start += 1;
    }
    let mut end: usize = n;
    while end > start && is_whitespace(chars[end - 1])
        invariant
            start <= end <= n,
            n == chars.len(),
            chars@ == text@,
            skip_trailing(text@.subrange(start as int, n as int)) == skip_trailing(
                text@.subrange(start as int, end as int),
            ),
        decreases end - start,
    {
        proof {
            lemma_skip_trailing_step(text@, start as int, end as int);
        }
        end -= 1;
    }
    proof {
        let tail = text@.subrange(start as int, n as int);
        if start < n {
            assert(tail[0] == text@[start as int]);
        }
        assert(skip_leading(tail) == tail);
        let part = text@.subrange(start as int, end as int);
        if end > start {
            assert(part.last() == text@[end - 1]);
        }
        assert(skip_trailing(part) == part);
    }
    text.substring_char(start, end).to_owned()
}

/// The recognised lines of a page, joined by line feeds; lines without a text
/// are left out.
pub fn join_lines(lines: &Vec<Option<String>>) -> (r: String)
    ensures
        r@ == joined(present(line_views(lines@))),
{
    let ghost views = line_views(lines@);
    let mut out = String::new();
    let mut started = false;
    let mut i: usize = 0;
    proof {
        assert(views.take(0) =~= Seq::empty());
    }
    while i < lines.len()
        invariant
            i <= lines.len(),
            views == line_views(lines@),
            out@ == joined(present(views.take(i as int))),
            started == (present(views.take(i as int)).len() > 0),
        decreases lines.len() - i,
    {
        proof {
            let next = views.take(i + 1);
            assert(next.drop_last() =~= views.take(i as int));
            assert(next.last() == views[i as int]);
        }
        match &lines[i] {
            Some(line) => {
                proof {
                    reveal_strlit("\n");
                    let before = present(views.take(i as int));
                    let after = present(views.take(i + 1));
                    assert(after == before.push(line@));
                    assert(after.drop_last() =~= before);
                    assert("\n"@ =~= seq!['\n']);
                }
                if started {
                    out.append("\n");
                }
                out.append(line.as_str());
                started = true;
            },
            None => {},
        }
        i += 1;
    }
    proof {
        assert(views.take(lines.len() as int) =~= views);
    }
    out
}

} // verus!
