//! Character sequences: searching, splitting, joining, trimming and replacing.
//!
//! Every operation is stated over `Seq<char>` and implemented over `Vec<char>`.
//! Patterns are matched from left to right and matches never overlap.

use vstd::prelude::*;

verus! {

/// `String::push` of the standard library: the string afterwards is the string
/// before with `ch` appended.
pub assume_specification[ std::string::String::push ](s: &mut std::string::String, ch: char)
    ensures
        final(s)@ == old(s)@.push(ch),
;

/// The characters with the Unicode property `White_Space`.
pub open spec fn is_whitespace(c: char) -> bool {
    let u = c as u32;
    ||| 0x09 <= u <= 0x0d
    ||| u == 0x20
    ||| u == 0x85
    ||| u == 0xa0
    ||| u == 0x1680
    ||| 0x2000 <= u <= 0x200a
    ||| u == 0x2028
    ||| u == 0x2029
    ||| u == 0x202f
    ||| u == 0x205f
    ||| u == 0x3000
}

/// Whether `pat` occurs in `s` starting at index `i`.
pub open spec fn occurs_at(s: Seq<char>, pat: Seq<char>, i: int) -> bool {
    0 <= i && i + pat.len() <= s.len() && s.subrange(i, i + pat.len()) == pat
}

/// The least index at or after `from` at which `pat` occurs in `s`.
pub open spec fn find_from(s: Seq<char>, pat: Seq<char>, from: int) -> Option<int>
    decreases s.len() - from,
{
    if from < 0 || from + pat.len() > s.len() {
        None
    } else if occurs_at(s, pat, from) {
        Some(from)
    } else if from < s.len() {
        find_from(s, pat, from + 1)
    } else {
        None
    }
}

/// The least index at which `pat` occurs in `s`.
pub open spec fn find(s: Seq<char>, pat: Seq<char>) -> Option<int> {
    find_from(s, pat, 0)
}

/// `find_from` returns the first occurrence at or after `from`, and `None`
/// exactly when there is no occurrence there.
pub proof fn lemma_find_from_first(s: Seq<char>, pat: Seq<char>, from: int)
    requires
        0 <= from,
    ensures
        match find_from(s, pat, from) {
            Some(i) => from <= i && occurs_at(s, pat, i) && forall|j: int|
                from <= j < i ==> !occurs_at(s, pat, j),
            None => forall|j: int| from <= j ==> !occurs_at(s, pat, j),
        },
    decreases s.len() - from,
{
    if from + pat.len() > s.len() {
    } else if occurs_at(s, pat, from) {
    } else if from < s.len() {
        lemma_find_from_first(s, pat, from + 1);
    } else {
        assert(s.subrange(from, from + pat.len()) =~= pat);
    }
}

/// The pieces of `s` from index `from` on that lie between the occurrences of
/// `pat`. An empty pattern splits nothing.
pub open spec fn split_from(s: Seq<char>, pat: Seq<char>, from: int) -> Seq<Seq<char>>
    decreases s.len() - from,
    via split_from_terminates
{
    if pat.len() == 0 || from < 0 {
        seq![s.subrange(from, s.len() as int)]
    } else {
        match find_from(s, pat, from) {
            None => seq![s.subrange(from, s.len() as int)],
            Some(i) => seq![s.subrange(from, i)] + split_from(s, pat, i + pat.len()),
        }
    }
}

#[via_fn]
proof fn split_from_terminates(s: Seq<char>, pat: Seq<char>, from: int) {
    if from >= 0 {
        lemma_find_from_first(s, pat, from);
    }
}

/// The pieces of `s` that lie between the occurrences of `pat`: always at
/// least one piece, and one more than there are matches.
pub open spec fn split(s: Seq<char>, pat: Seq<char>) -> Seq<Seq<char>> {
    split_from(s, pat, 0)
}

/// The pieces in order, with `sep` between each two neighbours.
pub open spec fn join(parts: Seq<Seq<char>>, sep: Seq<char>) -> Seq<char>
    decreases parts.len(),
{
    if parts.len() == 0 {
        Seq::empty()
    } else if parts.len() == 1 {
        parts[0]
    } else {
        join(parts.drop_last(), sep) + sep + parts.last()
    }
}

/// `s` with every match of `pat` replaced by `to`.
pub open spec fn replace(s: Seq<char>, pat: Seq<char>, to: Seq<char>) -> Seq<char> {
    join(split(s, pat), to)
}

/// The index of the first character at or after `from` that is no whitespace,
/// or the length of `s` if there is none.
pub open spec fn skip_whitespace(s: Seq<char>, from: int) -> int
    decreases s.len() - from,
{
    if 0 <= from < s.len() && is_whitespace(s[from]) {
        skip_whitespace(s, from + 1)
    } else {
        from
    }
}

/// The index behind the last character in `lo..to` that is no whitespace, or
/// `lo` if there is none.
pub open spec fn skip_whitespace_back(s: Seq<char>, lo: int, to: int) -> int
    decreases to,
{
    if 0 <= lo < to <= s.len() && is_whitespace(s[to - 1]) {
        skip_whitespace_back(s, lo, to - 1)
    } else {
        to
    }
}

/// `s` without its leading and trailing whitespace.
pub open spec fn trim(s: Seq<char>) -> Seq<char> {
    let lo = skip_whitespace(s, 0);
    let hi = skip_whitespace_back(s, lo, s.len() as int);
    s.subrange(lo, hi)
}

/// The character sequences that the given vectors hold.
pub open spec fn pieces(parts: Seq<Vec<char>>) -> Seq<Seq<char>> {
    Seq::new(parts.len(), |i: int| parts[i]@)
}

/// Whether `s` begins with `prefix`.
pub open spec fn starts_with(s: Seq<char>, prefix: Seq<char>) -> bool {
    occurs_at(s, prefix, 0)
}

/// Bounds of `skip_whitespace`: it moves forward over whitespace only.
pub proof fn lemma_skip_whitespace(s: Seq<char>, from: int)
    requires
        0 <= from <= s.len(),
    ensures
        from <= skip_whitespace(s, from) <= s.len(),
        forall|j: int| from <= j < skip_whitespace(s, from) ==> is_whitespace(s[j]),
        skip_whitespace(s, from) < s.len() ==> !is_whitespace(s[skip_whitespace(s, from)]),
    decreases s.len() - from,
{
    if from < s.len() && is_whitespace(s[from]) {
        lemma_skip_whitespace(s, from + 1);
    }
}

/// Bounds of `skip_whitespace_back`: it moves backward over whitespace only.
pub proof fn lemma_skip_whitespace_back(s: Seq<char>, lo: int, to: int)
    requires
        0 <= lo <= to <= s.len(),
    ensures
        lo <= skip_whitespace_back(s, lo, to) <= to,
        forall|j: int| skip_whitespace_back(s, lo, to) <= j < to ==> is_whitespace(s[j]),
        lo < skip_whitespace_back(s, lo, to) ==> !is_whitespace(
            s[skip_whitespace_back(s, lo, to) - 1],
        ),
    decreases to,
{
    if lo < to && is_whitespace(s[to - 1]) {
        lemma_skip_whitespace_back(s, lo, to - 1);
    }
}

/// Trimming cuts a stretch out of `s`: what is cut away on either side is
/// whitespace, and what is left neither begins nor ends with whitespace.
pub proof fn lemma_trim(s: Seq<char>)
    ensures
        exists|lo: int, hi: int|
            {
                &&& 0 <= lo <= hi <= s.len()
                &&& #[trigger] s.subrange(lo, hi) == trim(s)
                &&& forall|j: int| 0 <= j < lo ==> is_whitespace(s[j])
                &&& forall|j: int| hi <= j < s.len() ==> is_whitespace(s[j])
            },
        trim(s).len() > 0 ==> !is_whitespace(trim(s).first()) && !is_whitespace(trim(s).last()),
{
    let lo = skip_whitespace(s, 0);
    lemma_skip_whitespace(s, 0);
    let hi = skip_whitespace_back(s, lo, s.len() as int);
    lemma_skip_whitespace_back(s, lo, s.len() as int);
    assert(s.subrange(lo, hi) == trim(s));
}

/// Joining with a piece in front: the piece, the separator, and the rest joined.
pub proof fn lemma_join_front(x: Seq<char>, rest: Seq<Seq<char>>, sep: Seq<char>)
    requires
        rest.len() > 0,
    ensures
        join(seq![x] + rest, sep) == x + sep + join(rest, sep),
    decreases rest.len(),
{
    let all = seq![x] + rest;
    assert(all.last() == rest.last());
    if rest.len() == 1 {
        assert(all.drop_last() =~= seq![x]);
        assert(join(seq![x], sep) == x);
        assert(join(rest, sep) == rest[0]);
    } else {
        assert(all.drop_last() =~= seq![x] + rest.drop_last());
        lemma_join_front(x, rest.drop_last(), sep);
        assert(join(all, sep) =~= x + sep + join(rest, sep));
    }
}

/// Splitting loses nothing: the pieces, joined by the pattern, are the text
/// again. There is always at least one piece.
pub proof fn lemma_split_join(s: Seq<char>, pat: Seq<char>, from: int)
    requires
        0 <= from <= s.len(),
    ensures
        split_from(s, pat, from).len() >= 1,
        join(split_from(s, pat, from), pat) == s.subrange(from, s.len() as int),
    decreases s.len() - from,
{
    if pat.len() > 0 {
        lemma_find_from_first(s, pat, from);
        match find_from(s, pat, from) {
            None => {},
            Some(i) => {
                let rest = split_from(s, pat, i + pat.len());
                lemma_split_join(s, pat, i + pat.len());
                lemma_join_front(s.subrange(from, i), rest, pat);
                assert(s.subrange(from, i) + pat + s.subrange(i + pat.len(), s.len() as int)
                    =~= s.subrange(from, s.len() as int)) by {
                    assert(s.subrange(i, i + pat.len()) == pat);
                }
            },
        }
    }
}

/// No piece of a split holds the pattern.
pub proof fn lemma_split_pieces(s: Seq<char>, pat: Seq<char>, from: int, k: int)
    requires
        0 <= from <= s.len(),
        pat.len() > 0,
        0 <= k < split_from(s, pat, from).len(),
    ensures
        find(split_from(s, pat, from)[k], pat) is None,
    decreases s.len() - from,
{
    lemma_find_from_first(s, pat, from);
    let end = match find_from(s, pat, from) {
        None => s.len() as int,
        Some(i) => i,
    };
    let piece = s.subrange(from, end);
    if k == 0 {
        lemma_find_from_first(piece, pat, 0);
        if find(piece, pat) is Some {
            let j = find(piece, pat)->0;
            assert(s.subrange(from + j, from + j + pat.len()) =~= piece.subrange(
                j,
                j + pat.len(),
            ));
            assert(occurs_at(s, pat, from + j));
        }
    } else {
        let i = find_from(s, pat, from)->0;
        let rest = split_from(s, pat, i + pat.len());
        assert(split_from(s, pat, from)[k] == rest[k - 1]);
        lemma_split_pieces(s, pat, i + pat.len(), k - 1);
    }
}

/// A text with one match has two pieces: what stands before the match and
/// what stands behind it.
pub proof fn lemma_split_once(head: Seq<char>, pat: Seq<char>, rest: Seq<char>)
    requires
        pat.len() > 0,
        find(head + pat, pat) == Some(head.len() as int),
        find(rest, pat) is None,
    ensures
        split(head + pat + rest, pat) == seq![head, rest],
{
    let t = head + pat + rest;
    let n = head.len() as int;
    let m = pat.len() as int;
    assert(t.subrange(n, n + m) =~= pat);
    assert(t.subrange(0, n) =~= head);
    assert(t.subrange(n + m, t.len() as int) =~= rest);
    assert(find_from(t, pat, 0) == Some(n)) by {
        lemma_find_from_first(t, pat, 0);
        lemma_find_from_first(head + pat, pat, 0);
        assert(occurs_at(t, pat, n));
        let i = find_from(t, pat, 0)->0;
        if i < n {
            assert((head + pat).subrange(i, i + m) =~= t.subrange(i, i + m));
            assert(occurs_at(head + pat, pat, i));
        }
    }
    assert(find_from(t, pat, n + m) is None) by {
        lemma_find_from_first(t, pat, n + m);
        lemma_find_from_first(rest, pat, 0);
        if find_from(t, pat, n + m) is Some {
            let j = find_from(t, pat, n + m)->0;
            assert(rest.subrange(j - n - m, j - n) =~= t.subrange(j, j + m));
            assert(occurs_at(rest, pat, j - n - m));
        }
    }
    assert(split_from(t, pat, n + m) =~= seq![rest]);
    assert(split(t, pat) =~= seq![head, rest]);
}

/// Replacing a pattern by itself changes nothing.
pub proof fn lemma_replace_same(s: Seq<char>, pat: Seq<char>)
    ensures
        replace(s, pat, pat) == s,
{
    lemma_split_join(s, pat, 0);
    assert(s.subrange(0, s.len() as int) =~= s);
}

/// A text that does not hold the pattern is left as it is.
pub proof fn lemma_replace_none(s: Seq<char>, pat: Seq<char>, to: Seq<char>)
    requires
        find(s, pat) is None,
    ensures
        replace(s, pat, to) == s,
{
    assert(split(s, pat) =~= seq![s.subrange(0, s.len() as int)]);
    assert(s.subrange(0, s.len() as int) =~= s);
}

/// Tests whether `c` is whitespace.
pub fn is_space(c: char) -> (r: bool)
    ensures
        r == is_whitespace(c),
{
    let u: u32 = c as u32;
    (0x09 <= u && u <= 0x0d) || u == 0x20 || u == 0x85 || u == 0xa0 || u == 0x1680 || (0x2000 <= u
        && u <= 0x200a) || u == 0x2028 || u == 0x2029 || u == 0x202f || u == 0x205f || u == 0x3000
}

/// The characters of a string.
pub fn chars_of(s: &str) -> (v: Vec<char>)
    ensures
        v@ == s@,
{
    let mut v: Vec<char> = Vec::new();
    for c in it: s.chars()
        invariant
            it.seq() == s@,
            v@ == s@.take(it.index() as int),
    {
        v.push(c);
    }
    v
}

/// The string made of the given characters.
pub fn string_of(v: &Vec<char>) -> (s: String)
    ensures
        s@ == v@,
{
    let mut s = String::new();
    let mut i: usize = 0;
    while i < v.len()
        invariant
            i <= v.len(),
            s@ == v@.take(i as int),
        decreases v.len() - i,
    {
        s.push(v[i]);
        i += 1;
    }
    s
}

/// Copies the characters `lo..hi` of `s`.
pub(crate) fn slice(s: &Vec<char>, lo: usize, hi: usize) -> (r: Vec<char>)
    requires
        lo <= hi <= s.len(),
    ensures
        r@ == s@.subrange(lo as int, hi as int),
{
    let mut r: Vec<char> = Vec::new();
    let mut i: usize = lo;
    while i < hi
        invariant
            lo <= i <= hi <= s.len(),
            r@ == s@.subrange(lo as int, i as int),
        decreases hi - i,
    {
        r.push(s[i]);
        i += 1;
    }
    r
}

/// Appends the characters of `src` to `dst`.
pub fn append(dst: &mut Vec<char>, src: &Vec<char>)
    ensures
        final(dst)@ == old(dst)@ + src@,
{
    let mut i: usize = 0;
    while i < src.len()
        invariant
            i <= src.len(),
            dst@ == old(dst)@ + src@.take(i as int),
        decreases src.len() - i,
    {
        dst.push(src[i]);
        i += 1;
    }
}

/// Tests whether `pat` occurs in `s` at index `i`.
pub fn matches_at(s: &Vec<char>, pat: &Vec<char>, i: usize) -> (r: bool)
    ensures
        r == occurs_at(s@, pat@, i as int),
{
    if pat.len() > s.len() || i > s.len() - pat.len() {
        return false;
    }
    let mut k: usize = 0;
    while k < pat.len()
        invariant
            k <= pat.len(),
            i + pat.len() <= s.len(),
            forall|j: int| 0 <= j < k ==> s@[i + j] == pat@[j],
        decreases pat.len() - k,
    {
        if s[i + k] != pat[k] {
            assert(s@.subrange(i as int, i + pat.len())[k as int] != pat@[k as int]);
            return false;
        }
        k += 1;
    }
    assert(s@.subrange(i as int, i + pat.len()) =~= pat@);
    true
}

/// Finds the first occurrence of `pat` in `s` at or after `from`.
pub fn find_in(s: &Vec<char>, pat: &Vec<char>, from: usize) -> (r: Option<usize>)
    ensures
        match r {
            Some(i) => find_from(s@, pat@, from as int) == Some(i as int) && from <= i && i
                + pat.len() <= s.len(),
            None => find_from(s@, pat@, from as int) is None,
        },
{
    if pat.len() > s.len() {
        return None;
    }
    let last: usize = s.len() - pat.len();
    let mut i: usize = from;
    while i <= last
        invariant
            from <= i,
            last == s.len() - pat.len(),
            find_from(s@, pat@, from as int) == find_from(s@, pat@, i as int),
        decreases last - i,
    {
        if matches_at(s, pat, i) {
            return Some(i);
        }
        if i == last {
            assert(find_from(s@, pat@, i + 1) is None);
            return None;
        }
        i += 1;
    }
    None
}

/// Splits `s` at every match of `pat`.
pub fn split_at_matches(s: &Vec<char>, pat: &Vec<char>) -> (r: Vec<Vec<char>>)
    ensures
        pieces(r@) == split(s@, pat@),
        r.len() >= 1,
{
    let mut r: Vec<Vec<char>> = Vec::new();
    if pat.len() == 0 {
        r.push(slice(s, 0, s.len()));
        assert(pieces(r@) =~= split(s@, pat@));
        return r;
    }
    let mut pos: usize = 0;
    loop
        invariant
            pos <= s.len(),
            pat.len() > 0,
            split(s@, pat@) == pieces(r@) + split_from(
                s@,
                pat@,
                pos as int,
            ),
        decreases s.len() - pos,
    {
        let ghost before = pieces(r@);
        match find_in(s, pat, pos) {
            None => {
                r.push(slice(s, pos, s.len()));
                assert(pieces(r@) =~= before + split_from(
                    s@,
                    pat@,
                    pos as int,
                ));
                return r;
            },
            Some(i) => {
                r.push(slice(s, pos, i));
                assert(pieces(r@) =~= before.push(
                    s@.subrange(pos as int, i as int),
                ));
                assert(before + split_from(s@, pat@, pos as int) =~= before.push(
                    s@.subrange(pos as int, i as int),
                ) + split_from(s@, pat@, i + pat.len()));
                pos = i + pat.len();
            },
        }
    }
}

/// Concatenates `parts`, with `sep` between each two neighbours.
pub fn join_with(parts: &Vec<Vec<char>>, sep: &Vec<char>) -> (r: Vec<char>)
    ensures
        r@ == join(pieces(parts@), sep@),
{
    let ghost views = pieces(parts@);
    let mut r: Vec<char> = Vec::new();
    let mut i: usize = 0;
    while i < parts.len()
        invariant
            i <= parts.len(),
            views == pieces(parts@),
            r@ == join(views.take(i as int), sep@),
        decreases parts.len() - i,
    {
        if i > 0 {
            append(&mut r, sep);
        }
        append(&mut r, &parts[i]);
        proof {
            let next = views.take(i + 1);
            assert(next.drop_last() =~= views.take(i as int));
            assert(next.last() == parts@[i as int]@);
        }
        i += 1;
    }
    assert(views.take(parts.len() as int) =~= views);
    r
}

/// Replaces every match of `pat` in `s` by `to`.
pub fn replace_all(s: &Vec<char>, pat: &Vec<char>, to: &Vec<char>) -> (r: Vec<char>)
    ensures
        r@ == replace(s@, pat@, to@),
{
    let parts = split_at_matches(s, pat);
    join_with(&parts, to)
}

/// Removes leading and trailing whitespace.
pub fn trimmed(s: &Vec<char>) -> (r: Vec<char>)
    ensures
        r@ == trim(s@),
{
    let mut lo: usize = 0;
    while lo < s.len() && is_space(s[lo])
        invariant
            lo <= s.len(),
            skip_whitespace(s@, 0) == skip_whitespace(s@, lo as int),
        decreases s.len() - lo,
    {
        lo += 1;
    }
    let mut hi: usize = s.len();
    while lo < hi && is_space(s[hi - 1])
        invariant
            lo <= hi <= s.len(),
            skip_whitespace_back(s@, lo as int, s.len() as int) == skip_whitespace_back(
                s@,
                lo as int,
                hi as int,
            ),
        decreases hi,
    {
        hi -= 1;
    }
    slice(s, lo, hi)
}

/// Tests whether `s` begins with `prefix`.
pub fn has_prefix(s: &Vec<char>, prefix: &Vec<char>) -> (r: bool)
    ensures
        r == starts_with(s@, prefix@),
{
    matches_at(s, prefix, 0)
}

} // verus!
