//! Verified helpers over character sequences: truncation, joining, line
//! counting, searching for a separator character, and concatenation.

use vstd::prelude::*;
use vstd::string::StrSliceExecFns;
use vstd::string::StringExecFns;

verus! {

/// The first `n` characters of `s`, or all of `s` when it is shorter.
pub open spec fn take_chars(s: Seq<char>, n: int) -> Seq<char> {
    if s.len() <= n {
        s
    } else {
        s.subrange(0, n)
    }
}

/// Copy of at most the first `n` characters of `s`.
pub fn truncate_chars(s: &str, n: usize) -> (r: String)
    ensures
        r@ == take_chars(s@, n as int),
{
    let len = s.unicode_len();
    if len <= n {
        String::from_str(s)
    } else {
        let sub = s.substring_char(0, n);
        String::from_str(sub)
    }
}

/// How many newline characters `s` holds.
pub open spec fn newline_count(s: Seq<char>) -> nat
    decreases s.len(),
{
    if s.len() == 0 {
        0
    } else {
        newline_count(s.drop_last()) + (if s.last() == '\n' {
            1nat
        } else {
            0nat
        })
    }
}

/// The number of lines of `s`, as a newline-terminated or unterminated text:
/// empty text has no line, and a trailing newline does not start a new one.
pub open spec fn line_count(s: Seq<char>) -> nat {
    newline_count(s) + (if s.len() > 0 && s.last() != '\n' {
        1nat
    } else {
        0nat
    })
}

proof fn lemma_newline_count_le(s: Seq<char>)
    ensures
        newline_count(s) <= s.len(),
    decreases s.len(),
{
    if s.len() > 0 {
        lemma_newline_count_le(s.drop_last());
    }
}

/// Number of lines of `s`, counted as `line_count` specifies.
pub fn count_lines(s: &str) -> (n: usize)
    ensures
        n as nat == line_count(s@),
{
    let len = s.unicode_len();
    let mut nl: usize = 0;
    let mut i: usize = 0;
    while i < len
        invariant
            i <= len,
            len as nat == s@.len(),
            nl as nat == newline_count(s@.subrange(0, i as int)),
            nl <= i,
        decreases len - i,
    {
        let c = s.get_char(i);
        proof {
            let pre = s@.subrange(0, i as int);
            let cur = s@.subrange(0, i + 1);
            assert(cur.drop_last() =~= pre);
            assert(cur.last() == s@[i as int]);
        }
        if c == '\n' {
            nl = nl + 1;
        }
        i = i + 1;
    }
    proof {
        assert(s@.subrange(0, len as int) =~= s@);
    }
    if len > 0 {
        let last = s.get_char(len - 1);
        if last != '\n' {
            proof {
                lemma_newline_count_le(s@.drop_last());
                assert(s@.drop_last() == s@.subrange(0, s@.len() - 1));
                assert(newline_count(s@) == newline_count(s@.drop_last()));
            }
            nl + 1
        } else {
            nl
        }
    } else {
        nl
    }
}

/// The items of `items` in order, separated by single newline characters.
pub open spec fn join_lines(items: Seq<Seq<char>>) -> Seq<char>
    decreases items.len(),
{
    if items.len() == 0 {
        Seq::empty()
    } else if items.len() == 1 {
        items[0]
    } else {
        join_lines(items.drop_last()) + seq!['\n'] + items.last()
    }
}

/// Join the given strings with a newline between each neighbouring pair.
pub fn join_with_newlines(items: &Vec<String>) -> (r: String)
    ensures
        r@ == join_lines(items@.map_values(|s: String| s@)),
{
    let ghost model: Seq<Seq<char>> = items@.map_values(|s: String| s@);
    let mut r = String::new();
    let mut i: usize = 0;
    while i < items.len()
        invariant
            i <= items.len(),
            model == items@.map_values(|s: String| s@),
            model.len() == items@.len(),
            r@ == join_lines(model.subrange(0, i as int)),
        decreases items.len() - i,
    {
        proof {
            reveal_strlit("\n");
            assert("\n"@ =~= seq!['\n']);
            let pre = model.subrange(0, i as int);
            let cur = model.subrange(0, i + 1);
            assert(cur.drop_last() =~= pre);
            assert(cur.last() == model[i as int]);
            assert(model[i as int] == items@[i as int]@);
        }
        if i > 0 {
            r.append("\n");
        }
        let item: &String = &items[i];
        r.append(item.as_str());
        i = i + 1;
    }
    proof {
        assert(model.subrange(0, items@.len() as int) =~= model);
    }
    r
}

/// Position of the first occurrence of `c` in `s` at or after `i`.
pub open spec fn find_from(s: Seq<char>, c: char, i: int) -> Option<int>
    decreases s.len() - i,
{
    if i < 0 || i >= s.len() {
        None
    } else if s[i] == c {
        Some(i)
    } else {
        find_from(s, c, i + 1)
    }
}

/// Position of the last occurrence of `c` in `s` at or before `i`.
pub open spec fn rfind_from(s: Seq<char>, c: char, i: int) -> Option<int>
    decreases i + 1,
{
    if i < 0 || i >= s.len() {
        None
    } else if s[i] == c {
        Some(i)
    } else {
        rfind_from(s, c, i - 1)
    }
}

/// Position of the first occurrence of `c` in `s`, if any.
pub fn find_char(s: &str, c: char) -> (r: Option<usize>)
    ensures
        ({
            let f = find_from(s@, c, 0);
            match r {
                Some(i) => f == Some(i as int) && i < s@.len(),
                None => f is None,
            }
        }),
{
    let len = s.unicode_len();
    let mut i: usize = 0;
    while i < len
        invariant
            i <= len,
            len as nat == s@.len(),
            find_from(s@, c, 0) == find_from(s@, c, i as int),
        decreases len - i,
    {
        if s.get_char(i) == c {
            return Some(i);
        }
        i = i + 1;
    }
    None
}

/// Position of the last occurrence of `c` in `s`, if any.
pub fn rfind_char(s: &str, c: char) -> (r: Option<usize>)
    ensures
        ({
            let f = rfind_from(s@, c, s@.len() - 1);
            match r {
                Some(i) => f == Some(i as int) && i < s@.len(),
                None => f is None,
            }
        }),
{
    let len = s.unicode_len();
    let mut i: usize = len;
    while i > 0
        invariant
            i <= len,
            len as nat == s@.len(),
            rfind_from(s@, c, s@.len() - 1) == rfind_from(s@, c, i - 1),
        decreases i,
    {
        if s.get_char(i - 1) == c {
            return Some(i - 1);
        }
        i = i - 1;
    }
    None
}

/// The two halves of `s` around the last occurrence of `c`: everything
/// before it and everything after it; when `c` does not occur, all of `s`
/// and the empty string.
pub open spec fn split_around_last(s: Seq<char>, c: char) -> (Seq<char>, Seq<char>) {
    match rfind_from(s, c, s.len() - 1) {
        Some(i) => (s.subrange(0, i), s.subrange(i + 1, s.len() as int)),
        None => (s, Seq::empty()),
    }
}

/// Split `s` at the last occurrence of `c`, which must be present.
pub fn split_at_last(s: &str, c: char) -> (r: (String, String))
    requires
        rfind_from(s@, c, s@.len() - 1) is Some,
    ensures
        r.0@ == split_around_last(s@, c).0,
        r.1@ == split_around_last(s@, c).1,
{
    let len = s.unicode_len();
    match rfind_char(s, c) {
        Some(i) => {
            let before = String::from_str(s.substring_char(0, i));
            let after = String::from_str(s.substring_char(i + 1, len));
            (before, after)
        },
        None => vstd::pervasive::unreached(),
    }
}

/// `s` with every trailing occurrence of `c` removed.
pub open spec fn trimmed_end(s: Seq<char>, c: char) -> Seq<char>
    decreases s.len(),
{
    if s.len() > 0 && s.last() == c {
        trimmed_end(s.drop_last(), c)
    } else {
        s
    }
}

/// Copy of `s` with every trailing occurrence of `c` removed.
pub fn trim_end_char(s: &str, c: char) -> (r: String)
    ensures
        r@ == trimmed_end(s@, c),
{
    let len = s.unicode_len();
    let mut end: usize = len;
    proof {
        assert(s@.subrange(0, len as int) =~= s@);
    }
    while end > 0 && s.get_char(end - 1) == c
        invariant
            end <= len,
            len as nat == s@.len(),
            trimmed_end(s@, c) == trimmed_end(s@.subrange(0, end as int), c),
        decreases end,
    {
        proof {
            let cur = s@.subrange(0, end as int);
            let pre = s@.subrange(0, end - 1);
            assert(cur.last() == s@[end - 1]);
            assert(cur.drop_last() =~= pre);
        }
        end = end - 1;
    }
    proof {
        let cur = s@.subrange(0, end as int);
        if end > 0 {
            assert(cur.last() == s@[end - 1]);
        }
        assert(trimmed_end(cur, c) == cur);
    }
    String::from_str(s.substring_char(0, end))
}

/// `a` followed by `b`.
pub fn concat2(a: &str, b: &str) -> (r: String)
    ensures
        r@ == a@ + b@,
{
    let mut r = String::from_str(a);
    r.append(b);
    r
}

/// `a`, `b` and `c` in order.
pub fn concat3(a: &str, b: &str, c: &str) -> (r: String)
    ensures
        r@ == a@ + b@ + c@,
{
    let mut r = String::from_str(a);
    r.append(b);
    r.append(c);
    r
}

} // verus!
