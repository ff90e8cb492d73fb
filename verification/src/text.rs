//! Character-level text: searching, slicing, line indentation and decimal
//! numbers.
//!
//! A document is handled as the sequence of its characters, and every position
//! is a character index into that sequence.

use vstd::prelude::*;

verus! {

/// `String::push` appends one character to the end of the string and changes
/// nothing else.
pub assume_specification[ String::push ](s: &mut String, c: char)
    ensures
        final(s)@ == old(s)@.push(c),
;

// ─── Characters ──────────────────────────────────────────────────────────────

/// The characters with Unicode's `White_Space` property.
pub open spec fn is_white_space(c: char) -> bool {
    ||| '\u{9}' <= c <= '\u{d}'
    ||| c == ' '
    ||| c == '\u{85}'
    ||| c == '\u{a0}'
    ||| c == '\u{1680}'
    ||| '\u{2000}' <= c <= '\u{200a}'
    ||| c == '\u{2028}'
    ||| c == '\u{2029}'
    ||| c == '\u{202f}'
    ||| c == '\u{205f}'
    ||| c == '\u{3000}'
}

/// Whether `c` is white space.
pub fn whitespace(c: char) -> (res: bool)
    ensures
        res == is_white_space(c),
{
    ('\u{9}' <= c && c <= '\u{d}') || c == ' ' || c == '\u{85}' || c == '\u{a0}'
        || c == '\u{1680}' || ('\u{2000}' <= c && c <= '\u{200a}') || c == '\u{2028}'
        || c == '\u{2029}' || c == '\u{202f}' || c == '\u{205f}' || c == '\u{3000}'
}

// ─── Between strings and characters ──────────────────────────────────────────

/// The characters of `s`.
pub fn to_chars(s: &str) -> (res: Vec<char>)
    ensures
        res@ == s@,
{
    let mut out: Vec<char> = Vec::new();
    for c in iter: s.chars()
        invariant
            iter.seq() == s@,
            out@ == s@.take(iter.index() as int),
    {
        out.push(c);
    }
    assert(s@.take(s@.len() as int) == s@);
    out
}

/// The string whose characters are `s`.
pub fn to_text(s: &[char]) -> (res: String)
    ensures
        res@ == s@,
{
    let mut out = String::new();
    let mut i: usize = 0;
    while i < s.len()
        invariant
            i <= s@.len(),
            out@ == s@.take(i as int),
        decreases s@.len() - i,
    {
        out.push(s[i]);
        i = i + 1;
    }
    assert(s@.take(s@.len() as int) == s@);
    out
}

/// The string that holds the characters of `s` from `from` up to `to`.
pub fn slice_text(s: &[char], from: usize, to: usize) -> (res: String)
    requires
        from <= to <= s@.len(),
    ensures
        res@ == s@.subrange(from as int, to as int),
{
    let mut out = String::new();
    let mut i: usize = from;
    while i < to
        invariant
            from <= i <= to <= s@.len(),
            out@ == s@.subrange(from as int, i as int),
        decreases to - i,
    {
        out.push(s[i]);
        i = i + 1;
        assert(s@.subrange(from as int, i as int) == s@.subrange(from as int, i - 1).push(
            s@[i - 1],
        ));
    }
    out
}

/// Append the characters of `s` from `from` up to `to`.
pub fn append_range(out: &mut Vec<char>, s: &[char], from: usize, to: usize)
    requires
        from <= to <= s@.len(),
    ensures
        final(out)@ == old(out)@ + s@.subrange(from as int, to as int),
{
    let mut i: usize = from;
    assert(out@ == old(out)@ + s@.subrange(from as int, from as int));
    while i < to
        invariant
            from <= i <= to <= s@.len(),
            out@ == old(out)@ + s@.subrange(from as int, i as int),
        decreases to - i,
    {
        out.push(s[i]);
        i = i + 1;
        assert(s@.subrange(from as int, i as int) == s@.subrange(from as int, i - 1).push(
            s@[i - 1],
        ));
    }
}

/// Append the characters of `s`.
pub fn append_str(out: &mut Vec<char>, s: &str)
    ensures
        final(out)@ == old(out)@ + s@,
{
    let chars = to_chars(s);
    append_range(out, chars.as_slice(), 0, chars.len());
    assert(chars@.subrange(0, chars@.len() as int) == s@);
}

/// Whether two strings hold the same characters.
pub fn same_text(a: &str, b: &str) -> (res: bool)
    ensures
        res == (a@ == b@),
{
    let x = to_chars(a);
    let y = to_chars(b);
    if x.len() != y.len() {
        return false;
    }
    let mut i: usize = 0;
    while i < x.len()
        invariant
            i <= x@.len() == y@.len(),
            x@ == a@,
            y@ == b@,
            forall|k: int| 0 <= k < i ==> x@[k] == y@[k],
        decreases x@.len() - i,
    {
        if x[i] != y[i] {
            assert(a@[i as int] != b@[i as int]);
            return false;
        }
        i = i + 1;
    }
    assert(a@ =~= b@);
    true
}

/// The views of a sequence of strings.
pub open spec fn views(strings: Seq<String>) -> Seq<Seq<char>> {
    strings.map_values(|s: String| s@)
}

// ─── Searching ───────────────────────────────────────────────────────────────

/// Whether `pat` stands in `s` at `at`.
pub open spec fn occurs_at(s: Seq<char>, at: int, pat: Seq<char>) -> bool {
    &&& 0 <= at
    &&& at + pat.len() <= s.len()
    &&& s.subrange(at, at + pat.len()) == pat
}

/// The first position from `lo` on at which `pat` stands in `s` and ends no
/// later than `hi`.
pub open spec fn first_match(s: Seq<char>, lo: int, hi: int, pat: Seq<char>) -> Option<int>
    decreases hi - lo,
{
    if lo < 0 || lo + pat.len() > hi || lo >= hi {
        None
    } else if occurs_at(s, lo, pat) {
        Some(lo)
    } else {
        first_match(s, lo + 1, hi, pat)
    }
}

/// The first position in `lo..hi` at which `c` stands in `s`.
pub open spec fn first_char(s: Seq<char>, lo: int, hi: int, c: char) -> Option<int>
    decreases hi - lo,
{
    if lo >= hi {
        None
    } else if s[lo] == c {
        Some(lo)
    } else {
        first_char(s, lo + 1, hi, c)
    }
}

/// The last position in `lo..hi` at which `c` stands in `s`.
pub open spec fn last_char(s: Seq<char>, lo: int, hi: int, c: char) -> Option<int>
    decreases hi - lo,
{
    if lo >= hi {
        None
    } else if s[hi - 1] == c {
        Some(hi - 1)
    } else {
        last_char(s, lo, hi - 1, c)
    }
}

/// Whether `pat` stands somewhere in `s`.
pub open spec fn contains_text(s: Seq<char>, pat: Seq<char>) -> bool {
    exists|at: int| #[trigger] occurs_at(s, at, pat)
}

/// Whether `pat` stands in `s` at `at`.
pub fn matches_at(s: &[char], at: usize, pat: &[char]) -> (res: bool)
    ensures
        res == occurs_at(s@, at as int, pat@),
{
    let len = s.len();
    if pat.len() > len || at > len - pat.len() {
        return false;
    }
    let mut i: usize = 0;
    while i < pat.len()
        invariant
            len == s@.len(),
            at + pat@.len() <= s@.len(),
            i <= pat@.len(),
            forall|k: int| 0 <= k < i ==> s@[at + k] == #[trigger] pat@[k],
        decreases pat@.len() - i,
    {
        if s[at + i] != pat[i] {
            assert(s@.subrange(at as int, at + pat@.len())[i as int] != pat@[i as int]);
            return false;
        }
        i = i + 1;
    }
    assert(s@.subrange(at as int, at + pat@.len()) =~= pat@);
    true
}

/// The first position from `lo` on at which the non-empty `pat` stands in `s`
/// and ends no later than `hi`.
pub fn find(s: &[char], lo: usize, hi: usize, pat: &[char]) -> (res: Option<usize>)
    requires
        hi <= s@.len(),
    ensures
        match res {
            Some(at) => first_match(s@, lo as int, hi as int, pat@) == Some(at as int),
            None => first_match(s@, lo as int, hi as int, pat@) is None,
        },
        res matches Some(at) ==> lo <= at && at + pat@.len() <= hi && at < hi,
{
    let mut i: usize = lo;
    while i < hi && pat.len() <= hi - i
        invariant
            lo <= i,
            hi <= s@.len(),
            i > lo ==> i <= hi,
            first_match(s@, lo as int, hi as int, pat@) == first_match(
                s@,
                i as int,
                hi as int,
                pat@,
            ),
        decreases hi - i,
    {
        if matches_at(s, i, pat) {
            return Some(i);
        }
        i = i + 1;
    }
    None
}

/// The first position in `lo..hi` at which `c` stands in `s`.
pub fn find_char(s: &[char], lo: usize, hi: usize, c: char) -> (res: Option<usize>)
    requires
        hi <= s@.len(),
    ensures
        match res {
            Some(at) => first_char(s@, lo as int, hi as int, c) == Some(at as int),
            None => first_char(s@, lo as int, hi as int, c) is None,
        },
        res matches Some(at) ==> lo <= at < hi && s@[at as int] == c,
{
    let mut i: usize = lo;
    while i < hi
        invariant
            lo <= i,
            hi <= s@.len(),
            first_char(s@, lo as int, hi as int, c) == first_char(s@, i as int, hi as int, c),
        decreases hi - i,
    {
        if s[i] == c {
            return Some(i);
        }
        i = i + 1;
    }
    None
}

/// The last position in `lo..hi` at which `c` stands in `s`.
pub fn rfind_char(s: &[char], lo: usize, hi: usize, c: char) -> (res: Option<usize>)
    requires
        hi <= s@.len(),
    ensures
        match res {
            Some(at) => last_char(s@, lo as int, hi as int, c) == Some(at as int),
            None => last_char(s@, lo as int, hi as int, c) is None,
        },
        res matches Some(at) ==> lo <= at < hi && s@[at as int] == c,
{
    let mut i: usize = hi;
    while i > lo
        invariant
            i <= hi <= s@.len(),
            last_char(s@, lo as int, hi as int, c) == last_char(s@, lo as int, i as int, c),
        decreases i,
    {
        if s[i - 1] == c {
            return Some(i - 1);
        }
        i = i - 1;
    }
    None
}

/// What [`first_match`] finds: the leftmost occurrence in the range.
pub proof fn lemma_first_match(s: Seq<char>, lo: int, hi: int, pat: Seq<char>)
    requires
        0 <= lo,
        hi <= s.len(),
        pat.len() > 0,
    ensures
        match first_match(s, lo, hi, pat) {
            Some(at) => {
                &&& lo <= at
                &&& at + pat.len() <= hi
                &&& occurs_at(s, at, pat)
                &&& forall|k: int| lo <= k < at ==> !#[trigger] occurs_at(s, k, pat)
            },
            None => forall|k: int|
                lo <= k && k + pat.len() <= hi ==> !#[trigger] occurs_at(s, k, pat),
        },
    decreases hi - lo,
{
    if lo + pat.len() > hi || lo >= hi {
    } else if occurs_at(s, lo, pat) {
    } else {
        lemma_first_match(s, lo + 1, hi, pat);
    }
}

/// What [`first_char`] finds: the leftmost occurrence in the range.
pub proof fn lemma_first_char(s: Seq<char>, lo: int, hi: int, c: char)
    requires
        0 <= lo,
        hi <= s.len(),
    ensures
        match first_char(s, lo, hi, c) {
            Some(at) => {
                &&& lo <= at < hi
                &&& s[at] == c
                &&& forall|k: int| lo <= k < at ==> s[k] != c
            },
            None => forall|k: int| lo <= k < hi ==> s[k] != c,
        },
    decreases hi - lo,
{
    if lo < hi && s[lo] != c {
        lemma_first_char(s, lo + 1, hi, c);
    }
}

/// What [`last_char`] finds: the rightmost occurrence in the range.
pub proof fn lemma_last_char(s: Seq<char>, lo: int, hi: int, c: char)
    requires
        0 <= lo,
        hi <= s.len(),
    ensures
        match last_char(s, lo, hi, c) {
            Some(at) => {
                &&& lo <= at < hi
                &&& s[at] == c
                &&& forall|k: int| at < k < hi ==> s[k] != c
            },
            None => forall|k: int| lo <= k < hi ==> s[k] != c,
        },
    decreases hi - lo,
{
    if lo < hi && s[hi - 1] != c {
        lemma_last_char(s, lo, hi - 1, c);
    }
}

// ─── Lines ───────────────────────────────────────────────────────────────────

/// Where the line that `offset` sits on starts.
pub open spec fn line_start(s: Seq<char>, offset: int) -> int {
    match last_char(s, 0, offset, '\n') {
        Some(p) => p + 1,
        None => 0,
    }
}

/// The end of the run of white space that starts at `from`, no further than
/// `to`.
pub open spec fn white_end(s: Seq<char>, from: int, to: int) -> int
    decreases to - from,
{
    if from < to && is_white_space(s[from]) {
        white_end(s, from + 1, to)
    } else {
        from
    }
}

/// The leading white space of the line that `offset` sits on.
pub open spec fn indent(s: Seq<char>, offset: int) -> Seq<char> {
    let start = line_start(s, offset);
    s.subrange(start, white_end(s, start, offset))
}

/// [`white_end`] stays in its range and covers white space only.
pub proof fn lemma_white_end(s: Seq<char>, from: int, to: int)
    requires
        0 <= from <= to <= s.len(),
    ensures
        from <= white_end(s, from, to) <= to,
        forall|k: int| from <= k < white_end(s, from, to) ==> is_white_space(s[k]),
        white_end(s, from, to) < to ==> !is_white_space(s[white_end(s, from, to)]),
    decreases to - from,
{
    if from < to && is_white_space(s[from]) {
        lemma_white_end(s, from + 1, to);
    }
}

/// Indentation is white space.
pub proof fn lemma_indent_is_blank(s: Seq<char>, at: int)
    requires
        0 <= at <= s.len(),
    ensures
        forall|k: int| 0 <= k < indent(s, at).len() ==> is_white_space(#[trigger] indent(s, at)[k]),
{
    lemma_last_char(s, 0, at, '\n');
    let start = line_start(s, at);
    lemma_white_end(s, start, at);
    let t = indent(s, at);
    assert forall|k: int| 0 <= k < t.len() implies is_white_space(#[trigger] t[k]) by {
        assert(t[k] == s[start + k]);
    }
}

/// The end of the run of white space that starts at `from`, no further than
/// `to`.
pub fn skip_white(s: &[char], from: usize, to: usize) -> (res: usize)
    requires
        from <= to <= s@.len(),
    ensures
        res == white_end(s@, from as int, to as int),
        from <= res <= to,
{
    let mut i: usize = from;
    while i < to && whitespace(s[i])
        invariant
            from <= i <= to <= s@.len(),
            white_end(s@, from as int, to as int) == white_end(s@, i as int, to as int),
        decreases to - i,
    {
        i = i + 1;
    }
    i
}

/// The start of the run of white space that ends at `at`, no further down than
/// `floor`.
pub open spec fn gap_start(s: Seq<char>, floor: int, at: int) -> int
    decreases at - floor,
{
    if floor < at && is_white_space(s[at - 1]) {
        gap_start(s, floor, at - 1)
    } else {
        at
    }
}

/// [`gap_start`] stays in its range and covers white space only.
pub proof fn lemma_gap_start(s: Seq<char>, floor: int, at: int)
    requires
        0 <= floor <= at <= s.len(),
    ensures
        floor <= gap_start(s, floor, at) <= at,
        forall|k: int| gap_start(s, floor, at) <= k < at ==> is_white_space(#[trigger] s[k]),
    decreases at - floor,
{
    if floor < at && is_white_space(s[at - 1]) {
        lemma_gap_start(s, floor, at - 1);
    }
}

/// The start of the run of white space that ends at `at`, no further down than
/// `floor`.
pub fn skip_white_back(s: &[char], floor: usize, at: usize) -> (res: usize)
    requires
        floor <= at <= s@.len(),
    ensures
        res == gap_start(s@, floor as int, at as int),
        floor <= res <= at,
{
    let mut i: usize = at;
    while floor < i && whitespace(s[i - 1])
        invariant
            floor <= i <= at <= s@.len(),
            gap_start(s@, floor as int, at as int) == gap_start(s@, floor as int, i as int),
        decreases i,
    {
        i = i - 1;
    }
    i
}

/// The leading white space of the line that `offset` sits on.
pub fn indent_at(content: &[char], offset: usize) -> (res: String)
    requires
        offset <= content@.len(),
    ensures
        res@ == indent(content@, offset as int),
{
    let start = match rfind_char(content, 0, offset, '\n') {
        Some(p) => p + 1,
        None => 0,
    };
    let end = skip_white(content, start, offset);
    slice_text(content, start, end)
}

// ─── Decimal numbers ─────────────────────────────────────────────────────────

/// The digit that stands for `d`.
pub open spec fn digit(d: int) -> char {
    if d == 0 {
        '0'
    } else if d == 1 {
        '1'
    } else if d == 2 {
        '2'
    } else if d == 3 {
        '3'
    } else if d == 4 {
        '4'
    } else if d == 5 {
        '5'
    } else if d == 6 {
        '6'
    } else if d == 7 {
        '7'
    } else if d == 8 {
        '8'
    } else {
        '9'
    }
}

/// `n` written in decimal, without leading zeros.
pub open spec fn decimal(n: nat) -> Seq<char>
    decreases n,
{
    if n < 10 {
        seq![digit(n as int)]
    } else {
        decimal(n / 10).push(digit((n % 10) as int))
    }
}

fn digit_char(d: u64) -> (res: char)
    requires
        d < 10,
    ensures
        res == digit(d as int),
{
    if d == 0 {
        '0'
    } else if d == 1 {
        '1'
    } else if d == 2 {
        '2'
    } else if d == 3 {
        '3'
    } else if d == 4 {
        '4'
    } else if d == 5 {
        '5'
    } else if d == 6 {
        '6'
    } else if d == 7 {
        '7'
    } else if d == 8 {
        '8'
    } else {
        '9'
    }
}

/// `n` written in decimal, without leading zeros.
pub fn decimal_text(n: u64) -> (res: String)
    ensures
        res@ == decimal(n as nat),
    decreases n,
{
    if n < 10 {
        let mut out = String::new();
        out.push(digit_char(n));
        assert(out@ == seq![digit(n as int)]);
        out
    } else {
        let mut out = decimal_text(n / 10);
        out.push(digit_char(n % 10));
        out
    }
}

// ─── Putting texts together ──────────────────────────────────────────────────

/// Three texts, one behind the other.
pub fn join3(a: &str, b: &str, c: &str) -> (res: String)
    ensures
        res@ == a@ + b@ + c@,
{
    let mut out: Vec<char> = Vec::new();
    append_str(&mut out, a);
    append_str(&mut out, b);
    append_str(&mut out, c);
    assert(out@ =~= a@ + b@ + c@);
    to_text(out.as_slice())
}

/// Five texts, one behind the other.
pub fn join5(a: &str, b: &str, c: &str, d: &str, e: &str) -> (res: String)
    ensures
        res@ == a@ + b@ + c@ + d@ + e@,
{
    let mut out: Vec<char> = Vec::new();
    append_str(&mut out, a);
    append_str(&mut out, b);
    append_str(&mut out, c);
    append_str(&mut out, d);
    append_str(&mut out, e);
    assert(out@ =~= a@ + b@ + c@ + d@ + e@);
    to_text(out.as_slice())
}

/// `list`, with `separator` between its texts.
pub open spec fn joined_texts(list: Seq<Seq<char>>, separator: Seq<char>) -> Seq<char>
    decreases list.len(),
{
    if list.len() == 0 {
        Seq::empty()
    } else if list.len() == 1 {
        list[0]
    } else {
        joined_texts(list.drop_last(), separator) + separator + list.last()
    }
}

/// The texts of `list`, with `separator` between them.
pub fn join_texts(list: &[String], separator: &str) -> (res: String)
    ensures
        res@ == joined_texts(views(list@), separator@),
{
    let ghost all = views(list@);
    let mut out: Vec<char> = Vec::new();
    let mut i: usize = 0;
    assert(all.take(0) =~= Seq::<Seq<char>>::empty());
    while i < list.len()
        invariant
            i <= list@.len(),
            all == views(list@),
            out@ == joined_texts(all.take(i as int), separator@),
        decreases list@.len() - i,
    {
        proof {
            assert(all.take(i + 1).drop_last() =~= all.take(i as int));
            assert(all.take(i + 1).last() == list@[i as int]@);
        }
        if i > 0 {
            append_str(&mut out, separator);
        } else {
            assert(out@ + list@[0]@ =~= list@[0]@);
        }
        append_str(&mut out, list[i].as_str());
        i = i + 1;
    }
    assert(all.take(all.len() as int) =~= all);
    to_text(out.as_slice())
}

// ─── Replacing ───────────────────────────────────────────────────────────────

/// Whether `pat` stands somewhere in `s`.
pub fn has_text(s: &[char], pat: &[char]) -> (res: bool)
    requires
        pat@.len() > 0,
    ensures
        res == contains_text(s@, pat@),
{
    let len = s.len();
    proof {
        lemma_first_match(s@, 0, len as int, pat@);
    }
    match find(s, 0, len, pat) {
        Some(at) => {
            assert(occurs_at(s@, at as int, pat@));
            true
        },
        None => false,
    }
}

/// `s`, from `from` on, with every occurrence of `pat` replaced by `rep`, from
/// left to right.
pub open spec fn replaced_from(
    s: Seq<char>,
    from: int,
    hi: int,
    pat: Seq<char>,
    rep: Seq<char>,
) -> Seq<char>
    decreases hi - from,
{
    match first_match(s, from, hi, pat) {
        Some(at) if from <= at && at + pat.len() <= hi && pat.len() > 0 => s.subrange(from, at) + rep + replaced_from(
            s,
            at + pat.len(),
            hi,
            pat,
            rep,
        ),
        _ => s.subrange(from, hi),
    }
}

/// How often `pat` stands in `from..hi`, from left to right without overlap.
pub open spec fn count_from(s: Seq<char>, from: int, hi: int, pat: Seq<char>) -> nat
    decreases hi - from,
{
    match first_match(s, from, hi, pat) {
        Some(at) if from <= at && at + pat.len() <= hi && pat.len() > 0 => 1 + count_from(s, at + pat.len(), hi, pat),
        _ => 0,
    }
}

/// Append what stands in `from..hi`, with every occurrence of `pat` replaced by
/// `rep`, and say how often that was.
pub fn append_replaced(
    out: &mut Vec<char>,
    s: &[char],
    from: usize,
    hi: usize,
    pat: &[char],
    rep: &[char],
) -> (res: usize)
    requires
        from <= hi <= s@.len(),
        pat@.len() > 0,
    ensures
        final(out)@ == old(out)@ + replaced_from(s@, from as int, hi as int, pat@, rep@),
        res == count_from(s@, from as int, hi as int, pat@),
        res <= hi - from,
{
    let mut i: usize = from;
    let mut count: usize = 0;
    let ghost whole = replaced_from(s@, from as int, hi as int, pat@, rep@);
    while i < hi
        invariant
            from <= i <= hi <= s@.len(),
            pat@.len() > 0,
            count <= i - from,
            whole == replaced_from(s@, from as int, hi as int, pat@, rep@),
            old(out)@ + whole == out@ + replaced_from(s@, i as int, hi as int, pat@, rep@),
            count_from(s@, from as int, hi as int, pat@) == count + count_from(
                s@,
                i as int,
                hi as int,
                pat@,
            ),
        decreases hi - i,
    {
        match find(s, i, hi, pat) {
            Some(at) => {
                let ghost before = out@;
                append_range(out, s, i, at);
                append_range(out, rep, 0, rep.len());
                proof {
                    assert(rep@.subrange(0, rep@.len() as int) =~= rep@);
                    let rest = replaced_from(s@, at + pat@.len(), hi as int, pat@, rep@);
                    assert(before + (s@.subrange(i as int, at as int) + rep@ + rest) =~= out@
                        + rest);
                }
                i = at + pat.len();
                count = count + 1;
            },
            None => {
                append_range(out, s, i, hi);
                return count;
            },
        }
    }
    assert(out@ + replaced_from(s@, i as int, hi as int, pat@, rep@) =~= out@);
    count
}

/// The white space characters, by their code points.
pub proof fn law_white_space_characters(c: char)
    ensures
        is_white_space(c) <==> {
            let n = c as u32;
            ||| n == 0x9 || n == 0xa || n == 0xb || n == 0xc || n == 0xd
            ||| n == 0x20 || n == 0x85 || n == 0xa0 || n == 0x1680
            ||| n == 0x2000 || n == 0x2001 || n == 0x2002 || n == 0x2003 || n == 0x2004
            ||| n == 0x2005 || n == 0x2006 || n == 0x2007 || n == 0x2008 || n == 0x2009
            ||| n == 0x200a || n == 0x2028 || n == 0x2029 || n == 0x202f || n == 0x205f
            ||| n == 0x3000
        },
{
}

} // verus!
