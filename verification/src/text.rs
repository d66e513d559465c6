//! Small verified operations on strings, stated over their character views.

use vstd::prelude::*;
use vstd::string::*;
use crate::trusted::string_of_chars;

verus! {

/// `p` is a prefix of `s`.
pub open spec fn is_prefix(p: Seq<char>, s: Seq<char>) -> bool {
    p.len() <= s.len() && s.subrange(0, p.len() as int) == p
}

/// `p` is a suffix of `s`.
pub open spec fn is_suffix(p: Seq<char>, s: Seq<char>) -> bool {
    p.len() <= s.len() && s.subrange(s.len() - p.len(), s.len() as int) == p
}

/// The characters of a string, in order.
pub fn to_chars(s: &str) -> (r: Vec<char>)
    ensures
        r@ == s@,
{
    broadcast use vstd::string::group_string_axioms;
    let mut r: Vec<char> = Vec::new();
    for c in it: s.chars()
        invariant
            it.seq() == s@,
            r@ == s@.take(it.index() as int),
    {
        r.push(c);
        assert(r@ =~= s@.take(it.index() + 1));
    }
    assert(r@ =~= s@);
    r
}

/// Whether the characters spell out the given text.
pub fn spells(chars: &Vec<char>, lit: &str) -> (r: bool)
    ensures
        r == (chars@ == lit@),
{
    let n: usize = lit.unicode_len();
    if chars.len() != n {
        return false;
    }
    let mut i: usize = 0;
    while i < n
        invariant
            n == lit@.len(),
            chars.len() == n,
            i <= n,
            forall|j: int| 0 <= j < i ==> chars@[j] == lit@[j],
        decreases n - i,
    {
        if chars[i] != lit.get_char(i) {
            return false;
        }
        i = i + 1;
    }
    assert(chars@ =~= lit@);
    true
}

/// Whether the characters begin with the given text.
pub fn begins_with(chars: &Vec<char>, lit: &str) -> (r: bool)
    ensures
        r == is_prefix(lit@, chars@),
{
    let n: usize = lit.unicode_len();
    if chars.len() < n {
        return false;
    }
    let mut i: usize = 0;
    while i < n
        invariant
            n == lit@.len(),
            chars.len() >= n,
            i <= n,
            forall|j: int| 0 <= j < i ==> chars@[j] == lit@[j],
        decreases n - i,
    {
        if chars[i] != lit.get_char(i) {
            assert(chars@.subrange(0, n as int)[i as int] != lit@[i as int]);
            return false;
        }
        i = i + 1;
    }
    assert(chars@.subrange(0, n as int) =~= lit@);
    true
}

/// Whether the characters end with the given text.
pub fn finishes_with(chars: &Vec<char>, lit: &str) -> (r: bool)
    ensures
        r == is_suffix(lit@, chars@),
{
    let n: usize = lit.unicode_len();
    let m: usize = chars.len();
    if m < n {
        return false;
    }
    let mut i: usize = 0;
    while i < n
        invariant
            n == lit@.len(),
            m == chars.len(),
            m >= n,
            i <= n,
            forall|j: int| 0 <= j < i ==> chars@[m - n + j] == lit@[j],
        decreases n - i,
    {
        if chars[m - n + i] != lit.get_char(i) {
            assert(chars@.subrange(m - n, m as int)[i as int] != lit@[i as int]);
            return false;
        }
        i = i + 1;
    }
    assert(chars@.subrange(m - n, m as int) =~= lit@);
    true
}

/// Whether a character is whitespace: one of those that Unicode gives the
/// property White_Space.
pub open spec fn is_space(c: char) -> bool {
    let u = c as u32;
    ||| 0x09 <= u <= 0x0D
    ||| u == 0x20
    ||| u == 0x85
    ||| u == 0xA0
    ||| u == 0x1680
    ||| 0x2000 <= u <= 0x200A
    ||| u == 0x2028
    ||| u == 0x2029
    ||| u == 0x202F
    ||| u == 0x205F
    ||| u == 0x3000
}

/// The place of the first character from `i` on that is no whitespace, or
/// the length of the text where there is none.
pub open spec fn skip_spaces(s: Seq<char>, i: nat) -> nat
    decreases s.len() - i,
{
    if i < s.len() && is_space(s[i as int]) {
        skip_spaces(s, i + 1)
    } else {
        i
    }
}

/// The place after the last character before `j` that is no whitespace, or
/// 0 where there is none.
pub open spec fn drop_spaces(s: Seq<char>, j: nat) -> nat
    decreases j,
{
    if 0 < j <= s.len() && is_space(s[j - 1]) {
        drop_spaces(s, (j - 1) as nat)
    } else {
        j
    }
}

/// A text without the whitespace at its start and at its end.
pub open spec fn trimmed(s: Seq<char>) -> Seq<char> {
    let from = skip_spaces(s, 0);
    let to = drop_spaces(s, s.len());
    if from < to {
        s.subrange(from as int, to as int)
    } else {
        Seq::empty()
    }
}

/// Whether a text holds nothing but whitespace.
pub open spec fn is_blank(s: Seq<char>) -> bool {
    skip_spaces(s, 0) == s.len()
}

/// The place of the first line feed from `i` on, or the length of the text
/// where there is none.
pub open spec fn line_end(s: Seq<char>, i: nat) -> nat
    decreases s.len() - i,
{
    if i < s.len() && s[i as int] != '\n' {
        line_end(s, i + 1)
    } else {
        i
    }
}

/// A line without the carriage return at its end, if it has one.
pub open spec fn without_cr(line: Seq<char>) -> Seq<char> {
    if line.len() > 0 && line.last() == '\r' {
        line.drop_last()
    } else {
        line
    }
}

/// The lines of a text. A line ends at a line feed; the line feed, and a
/// carriage return just before it, are not part of the line. What follows
/// the last line feed is a line too, unless it is empty.
pub open spec fn text_lines(s: Seq<char>) -> Seq<Seq<char>>
    decreases s.len(),
{
    if s.len() == 0 {
        Seq::empty()
    } else {
        let e = line_end(s, 0);
        if e < s.len() {
            seq![without_cr(s.take(e as int))] + text_lines(s.skip(e as int + 1))
        } else {
            seq![s]
        }
    }
}

/// Whether a character is whitespace.
pub fn is_whitespace(c: char) -> (r: bool)
    ensures
        r == is_space(c),
{
    let u: u32 = c as u32;
    (0x09 <= u && u <= 0x0D) || u == 0x20 || u == 0x85 || u == 0xA0 || u == 0x1680 || (0x2000 <= u
        && u <= 0x200A) || u == 0x2028 || u == 0x2029 || u == 0x202F || u == 0x205F || u == 0x3000
}

/// The place of the first character that is no whitespace.
fn first_nonspace(chars: &Vec<char>) -> (i: usize)
    ensures
        i == skip_spaces(chars@, 0),
        i <= chars.len(),
{
    let mut i: usize = 0;
    while i < chars.len() && is_whitespace(chars[i])
        invariant
            i <= chars.len(),
            skip_spaces(chars@, i as nat) == skip_spaces(chars@, 0),
        decreases chars.len() - i,
    {
        i = i + 1;
    }
    i
}

/// The place after the last character that is no whitespace.
fn last_nonspace(chars: &Vec<char>) -> (j: usize)
    ensures
        j == drop_spaces(chars@, chars@.len()),
        j <= chars.len(),
{
    let mut j: usize = chars.len();
    while j > 0 && is_whitespace(chars[j - 1])
        invariant
            j <= chars.len(),
            drop_spaces(chars@, j as nat) == drop_spaces(chars@, chars@.len()),
        decreases j,
    {
        j = j - 1;
    }
    j
}

/// Whether a text holds nothing but whitespace.
pub fn blank(s: &str) -> (r: bool)
    ensures
        r == is_blank(s@),
{
    let chars = to_chars(s);
    first_nonspace(&chars) == chars.len()
}

/// The characters from `from` up to `to`, as a string.
fn slice_string(chars: &Vec<char>, from: usize, to: usize) -> (r: String)
    requires
        from <= to <= chars.len(),
    ensures
        r@ == chars@.subrange(from as int, to as int),
{
    let mut part: Vec<char> = Vec::new();
    let mut i: usize = from;
    while i < to
        invariant
            from <= i <= to,
            to <= chars.len(),
            part@ == chars@.subrange(from as int, i as int),
        decreases to - i,
    {
        part.push(chars[i]);
        assert(part@ =~= chars@.subrange(from as int, i + 1));
        i = i + 1;
    }
    string_of_chars(&part)
}

/// A text without the whitespace at its start and at its end.
pub fn trim(s: &str) -> (r: String)
    ensures
        r@ == trimmed(s@),
{
    let chars = to_chars(s);
    let from = first_nonspace(&chars);
    let to = last_nonspace(&chars);
    if from < to {
        slice_string(&chars, from, to)
    } else {
        String::new()
    }
}

/// The lines of a text.
pub fn split_lines(s: &str) -> (r: Vec<String>)
    ensures
        r@.map_values(|l: String| l@) == text_lines(s@),
{
    let chars = to_chars(s);
    let n: usize = chars.len();
    let mut r: Vec<String> = Vec::new();
    let mut start: usize = 0;
    let ghost all = s@;
    proof {
        assert(all.skip(0) =~= all);
        assert(r@.map_values(|l: String| l@) =~= Seq::empty());
    }
    while start < n
        invariant
            start <= n,
            n == chars.len(),
            chars@ == all,
            r@.map_values(|l: String| l@) + text_lines(all.skip(start as int)) == text_lines(all),
        decreases n - start,
    {
        let ghost rest = all.skip(start as int);
        let ghost done = r@.map_values(|l: String| l@);
        let mut end: usize = start;
        while end < n && chars[end] != '\n'
            invariant
                start <= end <= n,
                n == chars.len(),
                chars@ == all,
                rest == all.skip(start as int),
                line_end(rest, (end - start) as nat) == line_end(rest, 0),
            decreases n - end,
        {
            end = end + 1;
        }
        let ghost e = (end - start) as nat;
        assert(line_end(rest, 0) == e);
        if end < n {
            let cut: usize = if end > start && chars[end - 1] == '\r' {
                (end - 1) as usize
            } else {
                end
            };
            r.push(slice_string(&chars, start, cut));
            proof {
                let line = rest.take(e as int);
                assert(line =~= all.subrange(start as int, end as int));
                assert(without_cr(line) =~= all.subrange(start as int, cut as int));
                assert(rest.skip(e as int + 1) =~= all.skip(end + 1));
                assert(r@.map_values(|l: String| l@) =~= done.push(without_cr(line)));
                assert(text_lines(rest) == seq![without_cr(line)] + text_lines(all.skip(end + 1)));
                let after = text_lines(all.skip(end + 1));
                assert(done.push(without_cr(line)) + after =~= done + (seq![without_cr(line)]
                    + after));
            }
            start = end + 1;
        } else {
            r.push(slice_string(&chars, start, n));
            proof {
                assert(rest =~= all.subrange(start as int, n as int));
                assert(text_lines(rest) == seq![rest]);
                assert(r@.map_values(|l: String| l@) =~= done.push(rest));
                assert(all.skip(n as int).len() == 0);
                assert(text_lines(all.skip(n as int)) =~= Seq::empty());
                assert(done.push(rest) + text_lines(all.skip(n as int)) =~= done + seq![rest]);
            }
            start = n;
        }
    }
    proof {
        assert(all.skip(start as int).len() == 0);
        assert(r@.map_values(|l: String| l@) + Seq::empty() =~= r@.map_values(|l: String| l@));
    }
    r
}

} // verus!
