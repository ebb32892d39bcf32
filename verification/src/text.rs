//! Case conversion and whitespace classification for command text.
//!
//! Case mapping follows Unicode, as implemented by the standard
//! library; its full tables are not restated here. Instead the mapped
//! sequences carry opaque names (`lower_of`, `upper_char_of`,
//! `is_space`), and every contract of the library is stated over those
//! names.

use vstd::prelude::*;

verus! {

/// The character sequence that `str::to_lowercase` returns for `s`.
pub uninterp spec fn lower_of(s: Seq<char>) -> Seq<char>;

/// The character sequence that `char::to_uppercase` yields for `c`.
pub uninterp spec fn upper_char_of(c: char) -> Seq<char>;

/// Whether `char::is_whitespace` holds of `c`.
pub uninterp spec fn is_space(c: char) -> bool;

/// Relies on `str::to_lowercase`: the result depends on the characters
/// alone, and lowercasing an empty string yields an empty string.
#[verifier::external_body]
pub fn lowercase(s: &str) -> (r: String)
    ensures
        r@ == lower_of(s@),
        s@.len() == 0 ==> r@.len() == 0,
{
    s.to_lowercase()
}

/// Relies on `char::to_uppercase`: the result depends on the character
/// alone and yields one or more characters.
#[verifier::external_body]
pub fn uppercase_char(c: char) -> (r: String)
    ensures
        r@ == upper_char_of(c),
        r@.len() >= 1,
{
    c.to_uppercase().collect::<String>()
}

/// Relies on `char::is_whitespace`: whether `c` has the Unicode
/// `White_Space` property.
#[verifier::external_body]
pub fn is_whitespace(c: char) -> (r: bool)
    ensures
        r == is_space(c),
{
    c.is_whitespace()
}

/// The canonical department form: the first character uppercased, the
/// remaining characters lowercased; an empty token stays empty.
pub open spec fn canon_of(s: Seq<char>) -> Seq<char> {
    if s.len() == 0 {
        Seq::empty()
    } else {
        upper_char_of(s[0]) + lower_of(s.skip(1))
    }
}

/// The segments of `s` between single space characters, in order,
/// empty segments included; any string has at least one segment.
pub open spec fn split_spaces(s: Seq<char>) -> Seq<Seq<char>>
    decreases s.len(),
{
    if s.len() == 0 {
        seq![Seq::<char>::empty()]
    } else if s[0] == ' ' {
        seq![Seq::<char>::empty()] + split_spaces(s.skip(1))
    } else {
        let rest = split_spaces(s.skip(1));
        seq![seq![s[0]] + rest[0]] + rest.skip(1)
    }
}

/// `s` without its trailing whitespace characters.
pub open spec fn trim_end_of(s: Seq<char>) -> Seq<char>
    decreases s.len(),
{
    if s.len() > 0 && is_space(s.last()) {
        trim_end_of(s.drop_last())
    } else {
        s
    }
}

/// The tokens of an input line: its space-separated segments, each
/// with trailing whitespace stripped.
pub open spec fn tokens_of(line: Seq<char>) -> Seq<Seq<char>> {
    split_spaces(line).map_values(|t: Seq<char>| trim_end_of(t))
}

pub proof fn lemma_split_spaces_len(s: Seq<char>)
    ensures
        split_spaces(s).len() >= 1,
    decreases s.len(),
{
    if s.len() == 0 {
    } else if s[0] == ' ' {
        lemma_split_spaces_len(s.skip(1));
    } else {
        lemma_split_spaces_len(s.skip(1));
    }
}

pub proof fn lemma_split_no_space(s: Seq<char>)
    requires
        forall|i: int| 0 <= i < s.len() ==> s[i] != ' ',
    ensures
        split_spaces(s) == seq![s],
    decreases s.len(),
{
    if s.len() == 0 {
        assert(s =~= Seq::<char>::empty());
    } else {
        lemma_split_no_space(s.skip(1));
        assert(seq![s[0]] + s.skip(1) =~= s);
        assert(split_spaces(s) =~= seq![s]);
    }
}

pub proof fn lemma_split_first_space(s: Seq<char>, j: int)
    requires
        0 <= j < s.len(),
        s[j] == ' ',
        forall|i: int| 0 <= i < j ==> s[i] != ' ',
    ensures
        split_spaces(s) == seq![s.take(j)] + split_spaces(s.skip(j + 1)),
    decreases j,
{
    if j == 0 {
        assert(s.take(0) =~= Seq::<char>::empty());
        assert(split_spaces(s) =~= seq![s.take(0)] + split_spaces(s.skip(1)));
    } else {
        let t = s.skip(1);
        lemma_split_first_space(t, j - 1);
        lemma_split_spaces_len(t.skip(j));
        assert(t.skip(j) =~= s.skip(j + 1));
        assert(seq![s[0]] + t.take(j - 1) =~= s.take(j));
        assert(split_spaces(s) =~= seq![s.take(j)] + split_spaces(s.skip(j + 1)));
    }
}

/// Splits an input line into its tokens: segments between single
/// spaces, each with trailing whitespace stripped.
pub fn tokenize(line: &str) -> (toks: Vec<String>)
    ensures
        toks@.len() == tokens_of(line@).len(),
        forall|i: int| 0 <= i < toks@.len() ==> toks@[i]@ == tokens_of(line@)[i],
{
    let n = line.unicode_len();
    let mut toks: Vec<String> = Vec::new();
    let ghost mut consumed: Seq<Seq<char>> = Seq::empty();
    let mut start: usize = 0;
    let mut j: usize = 0;
    proof {
        assert(line@.skip(0) =~= line@);
        assert(Seq::<Seq<char>>::empty() + split_spaces(line@) =~= split_spaces(line@));
    }
    while j < n
        invariant
            n == line@.len(),
            start <= j <= n,
            forall|i: int| start <= i < j ==> line@[i] != ' ',
            split_spaces(line@) == consumed + split_spaces(line@.skip(start as int)),
            toks@.len() == consumed.len(),
            forall|i: int| 0 <= i < consumed.len() ==> toks@[i]@ == trim_end_of(consumed[i]),
        decreases n - j,
    {
        if line.get_char(j) == ' ' {
            let tok = trimmed_segment(line, start, j);
            toks.push(tok);
            proof {
                lemma_split_first_space(line@.skip(start as int), j - start);
                assert(line@.skip(start as int).take(j - start) =~= line@.subrange(
                    start as int,
                    j as int,
                ));
                assert(line@.skip(start as int).skip(j - start + 1) =~= line@.skip(j + 1));
                consumed = consumed.push(line@.subrange(start as int, j as int));
                assert(split_spaces(line@) =~= consumed + split_spaces(line@.skip(j + 1)));
            }
            start = j + 1;
        }
        j += 1;
    }
    let tok = trimmed_segment(line, start, n);
    toks.push(tok);
    proof {
        lemma_split_no_space(line@.skip(start as int));
        assert(line@.skip(start as int) =~= line@.subrange(start as int, n as int));
        consumed = consumed.push(line@.subrange(start as int, n as int));
        assert(split_spaces(line@) =~= consumed);
        assert forall|i: int| 0 <= i < toks@.len() implies toks@[i]@ == tokens_of(line@)[i] by {
            assert(tokens_of(line@)[i] == trim_end_of(split_spaces(line@)[i]));
        }
    }
    toks
}

/// The segment of `line` from `start` to `end`, with trailing
/// whitespace stripped.
fn trimmed_segment(line: &str, start: usize, end: usize) -> (tok: String)
    requires
        start <= end <= line@.len(),
    ensures
        tok@ == trim_end_of(line@.subrange(start as int, end as int)),
{
    let mut e = end;
    while e > start && is_whitespace(line.get_char(e - 1))
        invariant
            start <= e <= end <= line@.len(),
            trim_end_of(line@.subrange(start as int, end as int)) == trim_end_of(
                line@.subrange(start as int, e as int),
            ),
        decreases e,
    {
        proof {
            assert(line@.subrange(start as int, e as int).drop_last() =~= line@.subrange(
                start as int,
                e - 1,
            ));
        }
        e -= 1;
    }
    let tok = line.substring_char(start, e);
    String::from_str(tok)
}

/// Whether two strings hold the same characters.
pub fn str_eq(a: &str, b: &str) -> (r: bool)
    ensures
        r == (a@ == b@),
{
    let na = a.unicode_len();
    let nb = b.unicode_len();
    if na != nb {
        return false;
    }
    let mut i: usize = 0;
    while i < na
        invariant
            na == a@.len(),
            na == b@.len(),
            i <= na,
            forall|k: int| 0 <= k < i ==> a@[k] == b@[k],
        decreases na - i,
    {
        if a.get_char(i) != b.get_char(i) {
            return false;
        }
        i += 1;
    }
    proof {
        assert(a@ =~= b@);
    }
    true
}

/// Canonicalizes a department token.
pub fn canonicalize(s: &str) -> (r: String)
    ensures
        r@ == canon_of(s@),
{
    let n = s.unicode_len();
    if n == 0 {
        String::new()
    } else {
        let first = s.get_char(0);
        let rest = s.substring_char(1, n);
        let mut out = uppercase_char(first);
        let low = lowercase(rest);
        out.append(low.as_str());
        proof {
            assert(rest@ =~= s@.skip(1));
        }
        out
    }
}

} // verus!
