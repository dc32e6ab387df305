//! Character classes, source positions, case-insensitive matching and
//! whitespace trimming, shared by the lexer and the parser.

use vstd::prelude::*;

verus! {

/// Horizontal whitespace: skipped between tokens, never inside them.
pub open spec fn is_blank(c: char) -> bool {
    c == ' ' || c == '\t'
}

pub open spec fn is_alpha(c: char) -> bool {
    ('a' <= c && c <= 'z') || ('A' <= c && c <= 'Z')
}

pub open spec fn is_digit(c: char) -> bool {
    '0' <= c && c <= '9'
}

pub open spec fn is_alnum(c: char) -> bool {
    is_alpha(c) || is_digit(c)
}

/// The whitespace set that trimming removes at either end of a lexeme.
pub open spec fn is_space(c: char) -> bool {
    c == ' ' || c == '\t' || c == '\n' || c == '\r'
}

pub fn blank_char(c: char) -> (r: bool)
    ensures
        r == is_blank(c),
{
    c == ' ' || c == '\t'
}

pub fn alpha_char(c: char) -> (r: bool)
    ensures
        r == is_alpha(c),
{
    ('a' <= c && c <= 'z') || ('A' <= c && c <= 'Z')
}

pub fn alnum_char(c: char) -> (r: bool)
    ensures
        r == is_alnum(c),
{
    alpha_char(c) || ('0' <= c && c <= '9')
}

pub fn space_char(c: char) -> (r: bool)
    ensures
        r == is_space(c),
{
    c == ' ' || c == '\t' || c == '\n' || c == '\r'
}

/// `c` equals the upper-case letter `u`, ignoring the case of `c`.
pub open spec fn ci_eq(c: char, u: char) -> bool {
    c == u || ('A' <= u && u <= 'Z' && c as u32 == u as u32 + 32)
}

/// `w` spells the upper-case word `lit`, ignoring case.
pub open spec fn ci_seq_eq(w: Seq<char>, lit: Seq<char>) -> bool {
    w.len() == lit.len() && (forall|i: int| 0 <= i < w.len() ==> ci_eq(w[i], #[trigger] lit[i]))
}

pub fn ci_eq_char(c: char, u: char) -> (r: bool)
    ensures
        r == ci_eq(c, u),
{
    c == u || ('A' <= u && u <= 'Z' && (c as u32) as u64 == (u as u32) as u64 + 32)
}

/// 1-indexed line of the position `i` characters into `s`.
pub open spec fn line_at(s: Seq<char>, i: int) -> int
    decreases i,
{
    if i <= 0 {
        1
    } else if s[i - 1] == '\n' {
        line_at(s, i - 1) + 1
    } else {
        line_at(s, i - 1)
    }
}

/// 1-indexed column of the position `i` characters into `s`.
pub open spec fn col_at(s: Seq<char>, i: int) -> int
    decreases i,
{
    if i <= 0 {
        1
    } else if s[i - 1] == '\n' {
        1
    } else {
        col_at(s, i - 1) + 1
    }
}

pub proof fn lemma_position_bounds(s: Seq<char>, i: int)
    requires
        0 <= i,
    ensures
        1 <= line_at(s, i) <= i + 1,
        1 <= col_at(s, i) <= i + 1,
    decreases i,
{
    if i > 0 {
        lemma_position_bounds(s, i - 1);
    }
}

/// First position at or after `i` whose character is not trimmed whitespace.
pub open spec fn trim_start_idx(s: Seq<char>, i: int) -> int
    decreases s.len() - i,
    when 0 <= i <= s.len()
{
    if i < s.len() && is_space(s[i]) {
        trim_start_idx(s, i + 1)
    } else {
        i
    }
}

/// Last position at or before `j` such that everything from it to `j` is trimmed whitespace.
pub open spec fn trim_end_idx(s: Seq<char>, j: int) -> int
    decreases j,
    when 0 <= j <= s.len()
{
    if j > 0 && is_space(s[j - 1]) {
        trim_end_idx(s, j - 1)
    } else {
        j
    }
}

/// `s` with trimmed whitespace removed from both ends.
pub open spec fn trimmed(s: Seq<char>) -> Seq<char> {
    let a = trim_start_idx(s, 0);
    let b = trim_end_idx(s, s.len() as int);
    if a <= b {
        s.subrange(a, b)
    } else {
        Seq::empty()
    }
}

/// A non-whitespace character keeps everything up to and including it when
/// trimming from the right.
pub proof fn lemma_trim_end_above(s: Seq<char>, j: int, p: int)
    requires
        0 <= p < j <= s.len(),
        !is_space(s[p]),
    ensures
        trim_end_idx(s, j) > p,
    decreases j,
{
    if j > 0 && is_space(s[j - 1]) {
        lemma_trim_end_above(s, j - 1, p);
    }
}

/// Character-by-character string equality, usable where no specification of
/// `str` comparison is available.
pub fn str_eq(a: &str, b: &str) -> (r: bool)
    ensures
        r == (a@ == b@),
{
    let na = a.unicode_len();
    let nb = b.unicode_len();
    if na != nb {
        return false;
    }
    let mut i: usize = 0;
    while i < na
        invariant
            na == a@.len(),
            nb == b@.len(),
            na == nb,
            0 <= i <= na,
            forall|j: int| 0 <= j < i ==> a@[j] == b@[j],
        decreases na - i,
    {
        if a.get_char(i) != b.get_char(i) {
            return false;
        }
        i += 1;
    }
    proof {
        assert(a@ =~= b@);
    }
    true
}

/// `s` with trimmed whitespace removed from both ends, as a fresh string.
pub fn trim_str(s: &str) -> (r: String)
    ensures
        r@ == trimmed(s@),
{
    let n = s.unicode_len();
    let mut a: usize = 0;
    while a < n && space_char(s.get_char(a))
        invariant
            n == s@.len(),
            0 <= a <= n,
            trim_start_idx(s@, 0) == trim_start_idx(s@, a as int),
        decreases n - a,
    {
        a += 1;
    }
    proof {
        assert(trim_start_idx(s@, 0) == a as int);
    }
    if a == n {
        proof {
            lemma_trim_end_bounds(s@, n as int);
            assert(trimmed(s@).len() == 0);
        }
        let r = String::new();
        proof {
            assert(r@ =~= trimmed(s@));
        }
        r
    } else {
        let mut b: usize = n;
        while b > 0 && space_char(s.get_char(b - 1))
            invariant
                n == s@.len(),
                0 <= b <= n,
                trim_end_idx(s@, n as int) == trim_end_idx(s@, b as int),
            decreases b,
        {
            b -= 1;
        }
        proof {
            assert(trim_end_idx(s@, n as int) == b as int);
            assert(!is_space(s@[a as int]));
            lemma_trim_end_above(s@, n as int, a as int);
            assert(a < b);
        }
        let r = s.substring_char(a, b).to_owned();
        proof {
            assert(r@ =~= trimmed(s@));
        }
        r
    }
}

pub proof fn lemma_trim_start_bounds(s: Seq<char>, i: int)
    requires
        0 <= i <= s.len(),
    ensures
        i <= trim_start_idx(s, i) <= s.len(),
    decreases s.len() - i,
{
    if i < s.len() && is_space(s[i]) {
        lemma_trim_start_bounds(s, i + 1);
    }
}

pub proof fn lemma_trim_end_bounds(s: Seq<char>, j: int)
    requires
        0 <= j <= s.len(),
    ensures
        0 <= trim_end_idx(s, j) <= j,
    decreases j,
{
    if j > 0 && is_space(s[j - 1]) {
        lemma_trim_end_bounds(s, j - 1);
    }
}

} // verus!
