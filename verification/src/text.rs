//! The layout of notes: lines, and the blank line that parts one block of
//! lines from the next.

use vstd::prelude::*;

verus! {

/// The byte that ends a line.
pub const LF: u8 = 10;

/// The byte that may stand before the one that ends a line.
pub const CR: u8 = 13;

/// A line without the carriage return that it ends in, if it ends in one.
pub open spec fn without_cr(line: Seq<u8>) -> Seq<u8> {
    if line.len() > 0 && line.last() == CR {
        line.drop_last()
    } else {
        line
    }
}

/// The lines of `s` from the line on that starts at `start`, of which the
/// bytes before `at` hold no line feed. A line ends at a line feed; the line
/// feed, and a carriage return just before it, are not part of the line.
/// What follows the last line feed is a line too, unless it is empty.
pub open spec fn lines_from(s: Seq<u8>, start: int, at: int) -> Seq<Seq<u8>>
    decreases s.len() - at,
{
    if at >= s.len() {
        if start < s.len() {
            seq![s.subrange(start, s.len() as int)]
        } else {
            Seq::empty()
        }
    } else if s[at] == LF {
        seq![without_cr(s.subrange(start, at))] + lines_from(s, at + 1, at + 1)
    } else {
        lines_from(s, start, at + 1)
    }
}

/// The lines of `s`.
pub open spec fn lines_of(s: Seq<u8>) -> Seq<Seq<u8>> {
    lines_from(s, 0, 0)
}

/// What each of the slices holds.
pub open spec fn views(v: Seq<&[u8]>) -> Seq<Seq<u8>> {
    Seq::new(v.len(), |i: int| v[i]@)
}

/// Splits `data` into its lines.
pub fn split_lines(data: &[u8]) -> (out: Vec<&[u8]>)
    ensures
        views(out@) == lines_of(data@),
{
    let n = data.len();
    let mut out: Vec<&[u8]> = Vec::new();
    let mut pos: usize = 0;
    while pos < n
        invariant
            n == data@.len(),
            pos <= n,
            lines_of(data@) == views(out@) + lines_from(data@, pos as int, pos as int),
        decreases n - pos,
    {
        let mut end: usize = pos;
        while end < n && data[end] != LF
            invariant
                n == data@.len(),
                pos <= end <= n,
                lines_from(data@, pos as int, pos as int) == lines_from(
                    data@,
                    pos as int,
                    end as int,
                ),
            decreases n - end,
        {
            end += 1;
        }
        let ghost before = out@;
        if end == n {
            out.push(&data[pos..end]);
            proof {
                assert(views(out@) =~= views(before) + lines_from(data@, pos as int, pos as int));
                assert(lines_from(data@, end as int, end as int) =~= Seq::<Seq<u8>>::empty());
                assert(views(out@) + lines_from(data@, end as int, end as int) =~= views(out@));
            }
            pos = end;
        } else {
            let cut: usize = if end > pos && data[end - 1] == CR {
                (end - 1) as usize
            } else {
                end
            };
            out.push(&data[pos..cut]);
            proof {
                let line = data@.subrange(pos as int, end as int);
                assert(data@.subrange(pos as int, cut as int) =~= without_cr(line));
                assert(views(out@) =~= views(before) + seq![without_cr(line)]);
                assert(views(before) + lines_from(data@, pos as int, pos as int) =~= views(out@)
                    + lines_from(data@, end + 1, end + 1));
            }
            pos = end + 1;
        }
    }
    proof {
        assert(views(out@) + lines_from(data@, pos as int, pos as int) =~= views(out@));
    }
    out
}

/// `pat` stands in `s` at place `i`.
pub open spec fn occurs_at(s: Seq<u8>, pat: Seq<u8>, i: int) -> bool {
    0 <= i && i + pat.len() <= s.len() && s.subrange(i, i + pat.len()) == pat
}

/// `pat` stands in `s` at place `i`, and nowhere before.
pub open spec fn is_first(s: Seq<u8>, pat: Seq<u8>, i: int) -> bool {
    occurs_at(s, pat, i) && forall|k: int| 0 <= k < i ==> !occurs_at(s, pat, k)
}

/// The first place at which `pat` stands in `s`, if it stands anywhere.
pub open spec fn first_of(s: Seq<u8>, pat: Seq<u8>) -> Option<int> {
    if exists|i: int| is_first(s, pat, i) {
        Some(choose|i: int| is_first(s, pat, i))
    } else {
        None
    }
}

/// An empty line between two lines that end in a line feed.
pub open spec fn blank_lf() -> Seq<u8> {
    seq![LF, LF]
}

/// An empty line between two lines that end in a carriage return and a
/// line feed.
pub open spec fn blank_crlf() -> Seq<u8> {
    seq![CR, LF, CR, LF]
}

/// What stands in `s` before and after its first blank line: the first two
/// line feeds in a row or, where there are none, the first two pairs of a
/// carriage return and a line feed in a row.
pub open spec fn parted(s: Seq<u8>) -> Option<(Seq<u8>, Seq<u8>)> {
    match first_of(s, blank_lf()) {
        Some(i) => Some((s.subrange(0, i), s.subrange(i + 2, s.len() as int))),
        None => match first_of(s, blank_crlf()) {
            Some(i) => Some((s.subrange(0, i), s.subrange(i + 4, s.len() as int))),
            None => None,
        },
    }
}

/// There is one first place at most.
pub proof fn lemma_first_unique(s: Seq<u8>, pat: Seq<u8>, i: int)
    requires
        is_first(s, pat, i),
    ensures
        first_of(s, pat) == Some(i),
{
    let j = choose|j: int| is_first(s, pat, j);
    assert(is_first(s, pat, j));
    if i < j {
        assert(!occurs_at(s, pat, i));
    }
    if j < i {
        assert(!occurs_at(s, pat, j));
    }
}

/// Where `pat` first stands in `data`, if it does anywhere.
pub fn find(data: &[u8], pat: &[u8]) -> (r: Option<usize>)
    ensures
        match r {
            Some(i) => first_of(data@, pat@) == Some(i as int) && i + pat@.len() <= data@.len(),
            None => first_of(data@, pat@) is None,
        },
{
    let n = data.len();
    let width = pat.len();
    if width > n {
        return None;
    }
    let last = n - width;
    let mut i: usize = 0;
    while i <= last
        invariant
            n == data@.len(),
            width == pat@.len(),
            last == n - width,
            i <= last + 1,
            forall|k: int| 0 <= k < i ==> !occurs_at(data@, pat@, k),
        decreases last + 1 - i,
    {
        let mut k: usize = 0;
        while k < width && data[i + k] == pat[k]
            invariant
                n == data@.len(),
                width == pat@.len(),
                last == n - width,
                i <= last,
                k <= width,
                forall|d: int| 0 <= d < k ==> data@[i + d] == pat@[d],
            decreases width - k,
        {
            k += 1;
        }
        if k == width {
            proof {
                assert(data@.subrange(i as int, i + pat@.len()) =~= pat@);
                lemma_first_unique(data@, pat@, i as int);
            }
            return Some(i);
        }
        proof {
            let here = data@.subrange(i as int, i + pat@.len());
            assert(here[k as int] == data@[i + k]);
        }
        i += 1;
    }
    None
}

/// Parts `s` at its first blank line. Without a blank line there is nothing
/// to part.
pub fn split_emptyline(s: &[u8]) -> (r: Option<(&[u8], &[u8])>)
    ensures
        match r {
            Some((head, tail)) => parted(s@) == Some((head@, tail@)),
            None => parted(s@) is None,
        },
{
    let lf: [u8; 2] = [LF, LF];
    let crlf: [u8; 4] = [CR, LF, CR, LF];
    proof {
        assert(lf@ =~= blank_lf());
        assert(crlf@ =~= blank_crlf());
    }
    let n = s.len();
    match find(s, &lf) {
        Some(i) => Some((&s[0..i], &s[i + 2..n])),
        None => match find(s, &crlf) {
            Some(i) => Some((&s[0..i], &s[i + 4..n])),
            None => None,
        },
    }
}

/// A byte that counts as blank at either end of the notes: a space, a tab,
/// a line feed, a vertical tab, a form feed or a carriage return.
pub open spec fn is_blank(b: u8) -> bool {
    b == 32 || (9 <= b && b <= 13)
}

/// The place of the first byte of `s` at or after `from` that is not blank,
/// or the length of `s`.
pub open spec fn blank_end(s: Seq<u8>, from: int) -> int
    decreases s.len() - from,
{
    if 0 <= from < s.len() && is_blank(s[from]) {
        blank_end(s, from + 1)
    } else {
        from
    }
}

/// The place after the last byte of `s` before `to` that is not blank, but
/// no less than `low`.
pub open spec fn blank_start(s: Seq<u8>, low: int, to: int) -> int
    decreases to,
{
    if 0 <= low && low < to && to <= s.len() && is_blank(s[to - 1]) {
        blank_start(s, low, to - 1)
    } else {
        to
    }
}

/// `s` without the blanks at its ends.
pub open spec fn trimmed(s: Seq<u8>) -> Seq<u8> {
    let start = blank_end(s, 0);
    s.subrange(start, blank_start(s, start, s.len() as int))
}

/// The notes without the blanks at their ends.
pub fn trim(input: &[u8]) -> (s: &[u8])
    ensures
        s@ == trimmed(input@),
{
    let n = input.len();
    let mut start: usize = 0;
    while start < n && is_blank_byte(input[start])
        invariant
            n == input@.len(),
            start <= n,
            blank_end(input@, 0) == blank_end(input@, start as int),
        decreases n - start,
    {
        start += 1;
    }
    let mut end: usize = n;
    while end > start && is_blank_byte(input[end - 1])
        invariant
            n == input@.len(),
            start <= end <= n,
            blank_start(input@, start as int, n as int) == blank_start(
                input@,
                start as int,
                end as int,
            ),
        decreases end,
    {
        end -= 1;
    }
    &input[start..end]
}

/// Whether a byte counts as blank.
fn is_blank_byte(b: u8) -> (r: bool)
    ensures
        r == is_blank(b),
{
    b == 32 || (9 <= b && b <= 13)
}

/// What stands in `s` before and after the first `pat`, if `pat` stands in
/// `s` at all.
pub open spec fn split_first(s: Seq<u8>, pat: Seq<u8>) -> Option<(Seq<u8>, Seq<u8>)> {
    match first_of(s, pat) {
        Some(i) => Some((s.subrange(0, i), s.subrange(i + pat.len(), s.len() as int))),
        None => None,
    }
}

/// Parts `s` at the first `pat`.
pub fn split_once<'a>(s: &'a [u8], pat: &[u8]) -> (r: Option<(&'a [u8], &'a [u8])>)
    ensures
        match r {
            Some((head, tail)) => split_first(s@, pat@) == Some((head@, tail@)),
            None => split_first(s@, pat@) is None,
        },
{
    let n = s.len();
    match find(s, pat) {
        Some(i) => Some((&s[0..i], &s[i + pat.len()..n])),
        None => None,
    }
}

/// `s` without `p` at its start, if it starts with `p`.
pub open spec fn without_prefix(s: Seq<u8>, p: Seq<u8>) -> Option<Seq<u8>> {
    if p.len() <= s.len() && s.subrange(0, p.len() as int) == p {
        Some(s.subrange(p.len() as int, s.len() as int))
    } else {
        None
    }
}

/// `s` without `p` at its end, if it ends with `p`.
pub open spec fn without_suffix(s: Seq<u8>, p: Seq<u8>) -> Option<Seq<u8>> {
    if p.len() <= s.len() && s.subrange(s.len() - p.len(), s.len() as int) == p {
        Some(s.subrange(0, s.len() - p.len()))
    } else {
        None
    }
}

/// Whether `p` stands in `s` at place `at`.
fn stands_at(s: &[u8], p: &[u8], at: usize) -> (r: bool)
    requires
        at + p@.len() <= s@.len(),
    ensures
        r == (s@.subrange(at as int, at + p@.len()) == p@),
{
    let width = p.len();
    let n = s.len();
    let mut k: usize = 0;
    while k < width
        invariant
            width == p@.len(),
            n == s@.len(),
            at + width <= n,
            k <= width,
            forall|d: int| 0 <= d < k ==> s@[at + d] == p@[d],
        decreases width - k,
    {
        if s[at + k] != p[k] {
            proof {
                assert(s@.subrange(at as int, at + p@.len())[k as int] == s@[at + k]);
            }
            return false;
        }
        k += 1;
    }
    proof {
        assert(s@.subrange(at as int, at + p@.len()) =~= p@);
    }
    true
}

/// `s` without `p` at its start, if it starts with `p`.
pub fn strip_prefix<'a>(s: &'a [u8], p: &[u8]) -> (r: Option<&'a [u8]>)
    ensures
        match r {
            Some(rest) => without_prefix(s@, p@) == Some(rest@),
            None => without_prefix(s@, p@) is None,
        },
{
    let n = s.len();
    let width = p.len();
    if width <= n && stands_at(s, p, 0) {
        Some(&s[width..n])
    } else {
        None
    }
}

/// `s` without `p` at its end, if it ends with `p`.
pub fn strip_suffix<'a>(s: &'a [u8], p: &[u8]) -> (r: Option<&'a [u8]>)
    ensures
        match r {
            Some(rest) => without_suffix(s@, p@) == Some(rest@),
            None => without_suffix(s@, p@) is None,
        },
{
    let n = s.len();
    let width = p.len();
    if width <= n && stands_at(s, p, n - width) {
        Some(&s[0..n - width])
    } else {
        None
    }
}

/// The fields of `s` from the field on that starts at `start`, of which the
/// bytes before `at` hold no `sep`. Fields are what stands between one
/// `sep` and the next; there is one field more than there are `sep`.
pub open spec fn fields_from(s: Seq<u8>, sep: u8, start: int, at: int) -> Seq<Seq<u8>>
    decreases s.len() - at,
{
    if at >= s.len() {
        seq![s.subrange(start, s.len() as int)]
    } else if s[at] == sep {
        seq![s.subrange(start, at)] + fields_from(s, sep, at + 1, at + 1)
    } else {
        fields_from(s, sep, start, at + 1)
    }
}

/// The fields of `s` between its `sep`.
pub open spec fn fields_of(s: Seq<u8>, sep: u8) -> Seq<Seq<u8>> {
    fields_from(s, sep, 0, 0)
}

/// Splits `data` into the fields between its `sep`.
pub fn split_fields(data: &[u8], sep: u8) -> (out: Vec<&[u8]>)
    ensures
        views(out@) == fields_of(data@, sep),
        out@.len() > 0,
{
    let n = data.len();
    let mut out: Vec<&[u8]> = Vec::new();
    let mut start: usize = 0;
    let mut at: usize = 0;
    proof {
        assert(views(out@) + fields_from(data@, sep, 0, 0) =~= fields_of(data@, sep));
    }
    while at < n
        invariant
            n == data@.len(),
            start <= at <= n,
            fields_of(data@, sep) == views(out@) + fields_from(data@, sep, start as int, at as int),
        decreases n - at,
    {
        if data[at] == sep {
            let ghost before = out@;
            out.push(&data[start..at]);
            proof {
                assert(views(out@) =~= views(before) + seq![data@.subrange(start as int, at as int)]);
                assert(views(before) + fields_from(data@, sep, start as int, at as int) =~= views(
                    out@,
                ) + fields_from(data@, sep, at + 1, at + 1));
            }
            start = at + 1;
        }
        at += 1;
    }
    let ghost before = out@;
    out.push(&data[start..n]);
    proof {
        assert(views(out@) =~= views(before) + fields_from(data@, sep, start as int, at as int));
    }
    out
}

} // verus!
