//! Reading the plain text inputs of the algorithms: lines, fields split at
//! a delimiter, and unsigned decimal numbers, each with the meaning that
//! `str::lines`, `str::split` and `usize::from_str` give them.
use vstd::prelude::*;
use vstd::std_specs::iter::IteratorSpec;

verus! {

/// Why a field is not an unsigned decimal number.
#[derive(Debug, Clone, Copy, PartialEq, Eq, Structural)]
pub enum IntError {
    /// The field is empty.
    Empty,
    /// The field holds a character that is not a digit.
    InvalidDigit,
    /// The number does not fit in a `usize`.
    PosOverflow,
}

/// The first index at or after `i` that holds `c`, or the length.
pub open spec fn find(s: Seq<char>, c: char, i: int) -> int
    decreases s.len() - i,
{
    if i >= s.len() || s[i] == c {
        i
    } else {
        find(s, c, i + 1)
    }
}

pub proof fn lemma_find(s: Seq<char>, c: char, i: int)
    requires
        0 <= i,
    ensures
        i <= find(s, c, i),
        i <= s.len() ==> find(s, c, i) <= s.len(),
        find(s, c, i) < s.len() ==> s[find(s, c, i)] == c,
        forall|k: int| i <= k < find(s, c, i) ==> s[k] != c,
    decreases s.len() - i,
{
    if i < s.len() && s[i] != c {
        lemma_find(s, c, i + 1);
    }
}

/// The line content: without the carriage return of a `\r\n` ending.
pub open spec fn strip_cr(l: Seq<char>) -> Seq<char> {
    if l.len() > 0 && l.last() == '\r' {
        l.drop_last()
    } else {
        l
    }
}

/// The lines from index `i` on, as `str::lines` yields them: split at
/// `\n`, a `\r` before the `\n` dropped, no empty line after a final `\n`.
pub open spec fn lines_from(s: Seq<char>, i: int) -> Seq<Seq<char>>
    decreases s.len() + 1 - i,
{
    if i < 0 || i >= s.len() {
        Seq::empty()
    } else {
        let e = find(s, '\n', i);
        let line = if e < s.len() { strip_cr(s.subrange(i, e)) } else { s.subrange(i, e) };
        proof {
            lemma_find(s, '\n', i);
        }
        seq![line] + lines_from(s, e + 1)
    }
}

/// The lines of a text.
pub open spec fn lines(s: Seq<char>) -> Seq<Seq<char>> {
    lines_from(s, 0)
}

/// The fields from index `i` on, split at `sep` as `str::split` does: a
/// text with `k` separators has `k + 1` fields, some of them maybe empty.
pub open spec fn split_from(s: Seq<char>, sep: char, i: int) -> Seq<Seq<char>>
    decreases s.len() - i,
{
    if i < 0 || i > s.len() {
        Seq::empty()
    } else {
        let e = find(s, sep, i);
        proof {
            lemma_find(s, sep, i);
        }
        if e >= s.len() {
            seq![s.subrange(i, s.len() as int)]
        } else {
            seq![s.subrange(i, e)] + split_from(s, sep, e + 1)
        }
    }
}

/// The fields of a text split at `sep`.
pub open spec fn fields(s: Seq<char>, sep: char) -> Seq<Seq<char>> {
    split_from(s, sep, 0)
}

/// The character is a decimal digit.
pub open spec fn is_digit(c: char) -> bool {
    48 <= (c as u32) <= 57
}

/// The value of a decimal digit.
pub open spec fn digit(c: char) -> nat {
    ((c as u32) - 48) as nat
}

/// Reads the digits from index `i` on after the value `acc` read so far,
/// failing at the first character that is no digit, or at the first digit
/// that takes the value past `usize::MAX`.
pub open spec fn scan_digits(t: Seq<char>, i: int, acc: nat) -> Result<nat, IntError>
    decreases t.len() - i,
{
    if i < 0 || i >= t.len() {
        Ok(acc)
    } else if !is_digit(t[i]) {
        Err(IntError::InvalidDigit)
    } else if acc * 10 + digit(t[i]) > usize::MAX {
        Err(IntError::PosOverflow)
    } else {
        scan_digits(t, i + 1, acc * 10 + digit(t[i]))
    }
}

/// The meaning of `usize::from_str`: an optional `+`, then one digit or
/// more, with a value that fits in a `usize`.
pub open spec fn read_usize(t: Seq<char>) -> Result<nat, IntError> {
    if t.len() == 0 {
        Err(IntError::Empty)
    } else if t[0] == '+' {
        if t.len() == 1 {
            Err(IntError::InvalidDigit)
        } else {
            scan_digits(t, 1, 0)
        }
    } else {
        scan_digits(t, 0, 0)
    }
}

/// The field reads as a number.
pub open spec fn reads(t: Seq<char>) -> bool {
    read_usize(t) is Ok
}

/// The number a field reads as.
pub open spec fn value(t: Seq<char>) -> nat {
    read_usize(t)->Ok_0
}

proof fn lemma_scan_bound(t: Seq<char>, i: int, acc: nat)
    requires
        acc <= usize::MAX,
    ensures
        scan_digits(t, i, acc) matches Ok(v) ==> v <= usize::MAX,
    decreases t.len() - i,
{
    if 0 <= i < t.len() && is_digit(t[i]) && acc * 10 + digit(t[i]) <= usize::MAX {
        lemma_scan_bound(t, i + 1, acc * 10 + digit(t[i]));
    }
}

/// The characters of a string, in order.
pub fn chars_of(s: &str) -> (v: Vec<char>)
    ensures
        v@ == s@,
{
    broadcast use vstd::string::axiom_spec_iter, vstd::string::next_postcondition;
    let mut it = s.chars();
    let mut v: Vec<char> = Vec::new();
    loop
        invariant
            v@ + it.remaining() == s@,
            it.decrease() is Some,
            it.obeys_prophetic_iter_laws(),
        ensures
            v@ == s@,
        decreases it.decrease()->0,
    {
        let ghost v0 = v@;
        match it.next() {
            Some(c) => {
                v.push(c);
                assert(v@ + it.remaining() =~= v0 + seq![c] + it.remaining());
            },
            None => {
                assert(v@ =~= s@);
                break;
            },
        }
    }
    v
}

/// The first index at or after `from` that holds `c`, or the length.
pub fn find_char(t: &[char], c: char, from: usize) -> (e: usize)
    requires
        from <= t@.len(),
    ensures
        e == find(t@, c, from as int),
{
    let mut k = from;
    while k < t.len() && t[k] != c
        invariant
            from <= k <= t@.len(),
            find(t@, c, k as int) == find(t@, c, from as int),
        decreases t@.len() - k,
    {
        k = k + 1;
    }
    k
}

/// A copy of the characters in `[lo, hi)`.
pub fn copy_range(t: &[char], lo: usize, hi: usize) -> (v: Vec<char>)
    requires
        lo <= hi <= t@.len(),
    ensures
        v@ == t@.subrange(lo as int, hi as int),
{
    let mut v: Vec<char> = Vec::new();
    let mut k = lo;
    while k < hi
        invariant
            lo <= k <= hi <= t@.len(),
            v@ == t@.subrange(lo as int, k as int),
        decreases hi - k,
    {
        v.push(t[k]);
        k = k + 1;
        assert(v@ =~= t@.subrange(lo as int, k as int));
    }
    v
}

/// The views of a list of character vectors.
pub open spec fn views(v: Seq<Vec<char>>) -> Seq<Seq<char>> {
    v.map_values(|x: Vec<char>| x@)
}

/// The lines of a text, as `str::lines` yields them.
pub fn split_lines(t: &[char]) -> (r: Vec<Vec<char>>)
    ensures
        views(r@) == lines(t@),
{
    let mut r: Vec<Vec<char>> = Vec::new();
    let mut pos: usize = 0;
    let n = t.len();
    while pos < n
        invariant_except_break
            pos <= n,
            n == t@.len(),
            lines(t@) == views(r@) + lines_from(t@, pos as int),
        ensures
            lines(t@) == views(r@),
        decreases n - pos,
    {
        let e = find_char(t, '\n', pos);
        proof {
            lemma_find(t@, '\n', pos as int);
        }
        let mut line = copy_range(t, pos, e);
        if e < n && line.len() > 0 && line[line.len() - 1] == '\r' {
            line.pop();
        }
        let ghost r0 = r@;
        assert(line@ == lines_from(t@, pos as int)[0]);
        r.push(line);
        assert(views(r@) =~= views(r0).push(line@));
        assert(lines_from(t@, pos as int) =~= seq![line@] + lines_from(t@, e + 1));
        if e >= n {
            assert(lines_from(t@, e + 1) =~= Seq::<Seq<char>>::empty());
            assert(lines(t@) =~= views(r@));
            break;
        }
        pos = e + 1;
    }
    r
}

/// The fields of a line split at `sep`, as `str::split` yields them.
pub fn split_fields(t: &[char], sep: char) -> (r: Vec<Vec<char>>)
    ensures
        views(r@) == fields(t@, sep),
        r@.len() >= 1,
{
    let mut r: Vec<Vec<char>> = Vec::new();
    let mut pos: usize = 0;
    let n = t.len();
    loop
        invariant_except_break
            n == t@.len(),
            pos <= n,
            fields(t@, sep) == views(r@) + split_from(t@, sep, pos as int),
        ensures
            fields(t@, sep) == views(r@),
            r@.len() >= 1,
        decreases n - pos,
    {
        let e = find_char(t, sep, pos);
        proof {
            lemma_find(t@, sep, pos as int);
        }
        let ghost r0 = r@;
        if e >= n {
            let f = copy_range(t, pos, n);
            r.push(f);
            assert(views(r@) =~= views(r0).push(f@));
            assert(split_from(t@, sep, pos as int) =~= seq![f@]);
            break;
        }
        let f = copy_range(t, pos, e);
        r.push(f);
        assert(views(r@) =~= views(r0).push(f@));
        assert(split_from(t@, sep, pos as int) =~= seq![f@] + split_from(t@, sep, e + 1));
        pos = e + 1;
    }
    r
}

/// Reads an unsigned decimal number as `usize::from_str` does.
pub fn parse_usize(t: &[char]) -> (r: Result<usize, IntError>)
    ensures
        r matches Ok(v) ==> read_usize(t@) == Ok::<nat, IntError>(v as nat),
        r matches Err(e) ==> read_usize(t@) == Err::<nat, IntError>(e),
{
    if t.len() == 0 {
        return Err(IntError::Empty);
    }
    let mut k: usize = 0;
    if t[0] == '+' {
        if t.len() == 1 {
            return Err(IntError::InvalidDigit);
        }
        k = 1;
    }
    let ghost start = k as int;
    let mut acc: usize = 0;
    while k < t.len()
        invariant
            start <= k <= t@.len(),
            read_usize(t@) == scan_digits(t@, k as int, acc as nat),
        decreases t@.len() - k,
    {
        let c = t[k];
        let code = c as u32;
        if code < 48 || code > 57 {
            return Err(IntError::InvalidDigit);
        }
        let d = (code - 48) as usize;
        if acc > (usize::MAX - d) / 10 {
            assert(acc * 10 + d > usize::MAX) by (nonlinear_arith)
                requires
                    acc > (usize::MAX - d) / 10,
                    d <= 9,
            ;
            return Err(IntError::PosOverflow);
        }
        assert(acc * 10 + d <= usize::MAX) by (nonlinear_arith)
            requires
                acc <= (usize::MAX - d) / 10,
                d <= 9,
        ;
        acc = acc * 10 + d;
        k = k + 1;
    }
    Ok(acc)
}

/// Reads a field that must hold a number.
pub fn read_value(t: &[char]) -> (r: Option<usize>)
    ensures
        r is Some <==> reads(t@),
        r matches Some(v) ==> v as nat == value(t@),
{
    match parse_usize(t) {
        Ok(v) => Some(v),
        Err(_) => None,
    }
}

} // verus!
