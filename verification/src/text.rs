//! Character-level text primitives shared by the parsers: searching,
//! trimming and slicing, each with its meaning stated over `Seq<char>`.

use vstd::prelude::*;

verus! {

/// The Unicode `White_Space` property, the set that `char::is_whitespace`
/// and `str::trim` use.
pub open spec fn is_ws(c: char) -> bool {
    let u = c as u32;
    (0x09 <= u && u <= 0x0D) || u == 0x20 || u == 0x85 || u == 0xA0 || u == 0x1680
        || (0x2000 <= u && u <= 0x200A) || u == 0x2028 || u == 0x2029 || u == 0x202F
        || u == 0x205F || u == 0x3000
}

pub fn is_whitespace(c: char) -> (b: bool)
    ensures
        b == is_ws(c),
{
    let u = c as u32;
    (0x09 <= u && u <= 0x0D) || u == 0x20 || u == 0x85 || u == 0xA0 || u == 0x1680 || (0x2000
        <= u && u <= 0x200A) || u == 0x2028 || u == 0x2029 || u == 0x202F || u == 0x205F || u
        == 0x3000
}

/// Name for what `char::is_alphanumeric` returns (the Unicode `Alphabetic`
/// or `Numeric` classes); the tables behind it are Unicode's own.
pub uninterp spec fn unicode_alphanumeric(c: char) -> bool;

/// Calls `char::is_alphanumeric`; the result is named, not restated.
#[verifier::external_body]
pub(crate) fn is_alphanumeric(c: char) -> (b: bool)
    ensures
        b == unicode_alphanumeric(c),
{
    c.is_alphanumeric()
}

/// The characters of a string slice, in order.
pub fn chars_of(s: &str) -> (v: Vec<char>)
    ensures
        v@ == s@,
{
    let mut v: Vec<char> = Vec::new();
    broadcast use vstd::string::group_string_axioms;
    for c in it: s.chars()
        invariant
            v@ == it.seq().take(it.index() as int),
    {
        v.push(c);
    }
    assert(v@ =~= s@);
    v
}

/// Builds a `String` from characters.
pub fn string_of(v: &[char]) -> (s: String)
    ensures
        s@ == v@,
{
    let mut s = String::new();
    let mut i: usize = 0;
    while i < v.len()
        invariant
            i <= v@.len(),
            s@ == v@.take(i as int),
        decreases v@.len() - i,
    {
        push_char(&mut s, v[i]);
        i = i + 1;
        assert(s@ =~= v@.take(i as int));
    }
    assert(v@.take(v@.len() as int) =~= v@);
    s
}

/// Appends one character (`String::push`).
#[verifier::external_body]
pub(crate) fn push_char(s: &mut String, c: char)
    ensures
        final(s)@ == old(s)@.push(c),
{
    s.push(c)
}

/// Appends a string slice.
pub fn push_str(s: &mut String, t: &str)
    ensures
        final(s)@ == old(s)@ + t@,
{
    s.append(t)
}

/// A copy of `v[from..to]`.
pub fn slice(v: &[char], from: usize, to: usize) -> (r: Vec<char>)
    requires
        from <= to <= v@.len(),
    ensures
        r@ == v@.subrange(from as int, to as int),
{
    let mut r: Vec<char> = Vec::new();
    let mut i = from;
    while i < to
        invariant
            from <= i <= to <= v@.len(),
            r@ == v@.subrange(from as int, i as int),
        decreases to - i,
    {
        r.push(v[i]);
        i = i + 1;
    }
    r
}

/// `v[from..to]` as a `String`.
pub fn slice_string(v: &[char], from: usize, to: usize) -> (s: String)
    requires
        from <= to <= v@.len(),
    ensures
        s@ == v@.subrange(from as int, to as int),
{
    let r = slice(v, from, to);
    string_of(r.as_slice())
}

/// Whether `p` occurs in `s` at position `i`.
pub open spec fn matches_at(s: Seq<char>, p: Seq<char>, i: int) -> bool {
    0 <= i && i + p.len() <= s.len() && s.subrange(i, i + p.len()) == p
}

/// The first position at or after `from` where `p` occurs in `s`
/// (`str::find` on `s[from..]`, shifted by `from`).
pub open spec fn find_from(s: Seq<char>, p: Seq<char>, from: int) -> Option<int>
    decreases s.len() + 1 - from,
{
    if from < 0 || from + p.len() > s.len() {
        None
    } else if s.subrange(from, from + p.len()) == p {
        Some(from)
    } else {
        find_from(s, p, from + 1)
    }
}

pub proof fn lemma_find_from(s: Seq<char>, p: Seq<char>, from: int)
    requires
        0 <= from,
    ensures
        match find_from(s, p, from) {
            Some(i) => from <= i && matches_at(s, p, i) && forall|j: int|
                from <= j < i ==> !matches_at(s, p, j),
            None => forall|j: int| from <= j ==> !matches_at(s, p, j),
        },
    decreases s.len() + 1 - from,
{
    if from + p.len() > s.len() {
    } else if s.subrange(from, from + p.len()) == p {
    } else {
        lemma_find_from(s, p, from + 1);
    }
}

pub proof fn lemma_find_from_skip(s: Seq<char>, p: Seq<char>, from: int, mid: int)
    requires
        0 <= from <= mid,
        forall|j: int| from <= j < mid ==> !matches_at(s, p, j),
    ensures
        find_from(s, p, from) == find_from(s, p, mid),
    decreases mid - from,
{
    if from < mid {
        if from + p.len() > s.len() {
            lemma_find_from(s, p, mid);
        } else {
            assert(!matches_at(s, p, from));
            lemma_find_from_skip(s, p, from + 1, mid);
        }
    }
}

/// `str::find`: the first position at or after `from` where `p` occurs.
pub fn find(s: &[char], p: &[char], from: usize) -> (r: Option<usize>)
    requires
        from <= s@.len(),
    ensures
        match r {
            Some(i) => find_from(s@, p@, from as int) == Some(i as int),
            None => find_from(s@, p@, from as int) is None,
        },
{
    let n = s.len();
    let m = p.len();
    if m > n || from > n - m {
        proof {
            lemma_find_from(s@, p@, from as int);
        }
        return None;
    }
    if m == 0 {
        assert(s@.subrange(from as int, from as int) =~= p@);
        return Some(from);
    }
    let mut i = from;
    while i <= n - m
        invariant
            from <= i <= n - m + 1,
            m == p@.len(),
            n == s@.len(),
            1 <= m <= n,
            forall|j: int| from <= j < i ==> !matches_at(s@, p@, j),
        decreases n + 1 - i,
    {
        if matches_here(s, p, i) {
            proof {
                lemma_find_from_skip(s@, p@, from as int, i as int);
            }
            return Some(i);
        }
        i = i + 1;
    }
    proof {
        lemma_find_from_skip(s@, p@, from as int, i as int);
        lemma_find_from(s@, p@, i as int);
    }
    None
}

/// Whether `p` occurs in `s` at position `i`.
pub fn matches_here(s: &[char], p: &[char], i: usize) -> (b: bool)
    ensures
        b == matches_at(s@, p@, i as int),
{
    if i > s.len() || p.len() > s.len() - i {
        return false;
    }
    let m = p.len();
    let n = s.len();
    let mut k: usize = 0;
    while k < m
        invariant
            0 <= k <= m,
            n == s@.len(),
            i + m <= n,
            m == p@.len(),
            forall|t: int| 0 <= t < k ==> s@[i + t] == p@[t],
        decreases m - k,
    {
        if s[i + k] != p[k] {
            assert(s@.subrange(i as int, i + m)[k as int] != p@[k as int]);
            return false;
        }
        k = k + 1;
    }
    assert(s@.subrange(i as int, i + m) =~= p@);
    true
}

/// Finds one character at or after `from`.
pub fn find_char(s: &[char], c: char, from: usize) -> (r: Option<usize>)
    requires
        from <= s@.len(),
    ensures
        match r {
            Some(i) => find_from(s@, seq![c], from as int) == Some(i as int),
            None => find_from(s@, seq![c], from as int) is None,
        },
{
    let p = vec![c];
    assert(p@ =~= seq![c]);
    find(s, p.as_slice(), from)
}


/// `s` with leading whitespace removed (`str::trim_start`).
pub open spec fn trim_start(s: Seq<char>) -> Seq<char>
    decreases s.len(),
{
    if s.len() > 0 && is_ws(s[0]) {
        trim_start(s.drop_first())
    } else {
        s
    }
}

/// `s` with trailing whitespace removed (`str::trim_end`).
pub open spec fn trim_end(s: Seq<char>) -> Seq<char>
    decreases s.len(),
{
    if s.len() > 0 && is_ws(s.last()) {
        trim_end(s.drop_last())
    } else {
        s
    }
}

/// `str::trim`.
pub open spec fn trim(s: Seq<char>) -> Seq<char> {
    trim_end(trim_start(s))
}

/// The first index at or after `from` (below `to`) that is not whitespace.
pub fn skip_ws(v: &[char], from: usize, to: usize) -> (k: usize)
    requires
        from <= to <= v@.len(),
    ensures
        from <= k <= to,
        trim_start(v@.subrange(from as int, to as int)) == v@.subrange(k as int, to as int),
{
    let mut k = from;
    while k < to && is_whitespace(v[k])
        invariant
            from <= k <= to <= v@.len(),
            trim_start(v@.subrange(from as int, to as int)) == trim_start(
                v@.subrange(k as int, to as int),
            ),
        decreases to - k,
    {
        assert(v@.subrange(k as int, to as int).drop_first() =~= v@.subrange(k + 1, to as int));
        k = k + 1;
    }
    k
}

/// The end of `v[from..to]` once trailing whitespace is dropped.
pub fn skip_ws_back(v: &[char], from: usize, to: usize) -> (k: usize)
    requires
        from <= to <= v@.len(),
    ensures
        from <= k <= to,
        trim_end(v@.subrange(from as int, to as int)) == v@.subrange(from as int, k as int),
{
    let mut k = to;
    while k > from && is_whitespace(v[k - 1])
        invariant
            from <= k <= to <= v@.len(),
            trim_end(v@.subrange(from as int, to as int)) == trim_end(
                v@.subrange(from as int, k as int),
            ),
        decreases k,
    {
        assert(v@.subrange(from as int, k as int).drop_last() =~= v@.subrange(
            from as int,
            k - 1,
        ));
        k = k - 1;
    }
    k
}

pub proof fn lemma_trim_start_is_suffix(s: Seq<char>)
    ensures
        trim_start(s).len() <= s.len(),
        trim_start(s) == s.skip(s.len() - trim_start(s).len()),
    decreases s.len(),
{
    if s.len() > 0 && is_ws(s[0]) {
        lemma_trim_start_is_suffix(s.drop_first());
        assert(s.drop_first().skip(s.drop_first().len() - trim_start(s.drop_first()).len())
            =~= s.skip(s.len() - trim_start(s).len()));
    } else {
        assert(s.skip(0) =~= s);
    }
}

pub proof fn lemma_trim_end_is_prefix(s: Seq<char>)
    ensures
        trim_end(s).len() <= s.len(),
        trim_end(s) == s.take(trim_end(s).len() as int),
    decreases s.len(),
{
    if s.len() > 0 && is_ws(s.last()) {
        lemma_trim_end_is_prefix(s.drop_last());
        assert(s.drop_last().take(trim_end(s.drop_last()).len() as int) =~= s.take(
            trim_end(s).len() as int,
        ));
    } else {
        assert(s.take(s.len() as int) =~= s);
    }
}

/// The bounds of `trim(v[from..to])` inside `v`.
pub fn trim_bounds(v: &[char], from: usize, to: usize) -> (r: (usize, usize))
    requires
        from <= to <= v@.len(),
    ensures
        from <= r.0 <= r.1 <= to,
        trim(v@.subrange(from as int, to as int)) == v@.subrange(r.0 as int, r.1 as int),
{
    let a = skip_ws(v, from, to);
    let b = skip_ws_back(v, a, to);
    (a, b)
}

/// `trim(v[from..to])` as a `String`.
pub fn trimmed_string(v: &[char], from: usize, to: usize) -> (s: String)
    requires
        from <= to <= v@.len(),
    ensures
        s@ == trim(v@.subrange(from as int, to as int)),
{
    let (a, b) = trim_bounds(v, from, to);
    slice_string(v, a, b)
}

/// Whether `s` begins with `p`.
pub open spec fn starts_with(s: Seq<char>, p: Seq<char>) -> bool {
    p.len() <= s.len() && s.take(p.len() as int) == p
}

/// Whether `s` ends with `p`.
pub open spec fn ends_with(s: Seq<char>, p: Seq<char>) -> bool {
    p.len() <= s.len() && s.skip(s.len() - p.len()) == p
}

/// Whether two character sequences are equal.
pub fn chars_eq(a: &[char], b: &[char]) -> (r: bool)
    ensures
        r == (a@ == b@),
{
    if a.len() != b.len() {
        return false;
    }
    let mut i: usize = 0;
    while i < a.len()
        invariant
            a@.len() == b@.len(),
            0 <= i <= a@.len(),
            forall|j: int| 0 <= j < i ==> a@[j] == b@[j],
        decreases a@.len() - i,
    {
        if a[i] != b[i] {
            return false;
        }
        i = i + 1;
    }
    assert(a@ =~= b@);
    true
}

/// The first index at or after `i` holding a newline, or the length.
pub open spec fn next_nl(s: Seq<char>, i: int) -> int
    decreases s.len() - i,
{
    if i < 0 || i >= s.len() {
        s.len() as int
    } else if s[i] == '\n' {
        i
    } else {
        next_nl(s, i + 1)
    }
}

pub proof fn lemma_next_nl(s: Seq<char>, i: int)
    requires
        0 <= i <= s.len(),
    ensures
        i <= next_nl(s, i) <= s.len(),
        next_nl(s, i) < s.len() ==> s[next_nl(s, i)] == '\n',
        forall|j: int| i <= j < next_nl(s, i) ==> s[j] != '\n',
    decreases s.len() - i,
{
    if i < s.len() && s[i] != '\n' {
        lemma_next_nl(s, i + 1);
    }
}

/// `str::find('\n')` on `s[i..]`, or the length when there is none.
pub fn next_newline(v: &[char], i: usize) -> (k: usize)
    requires
        i <= v@.len(),
    ensures
        k as int == next_nl(v@, i as int),
        i <= k <= v@.len(),
{
    proof {
        lemma_next_nl(v@, i as int);
    }
    let mut k = i;
    while k < v.len() && v[k] != '\n'
        invariant
            i <= k <= v@.len(),
            next_nl(v@, i as int) == next_nl(v@, k as int),
        decreases v@.len() - k,
    {
        k = k + 1;
    }
    k
}

/// A trailing carriage return dropped, as `str::lines` does before a newline.
pub open spec fn strip_cr(l: Seq<char>) -> Seq<char> {
    if l.len() > 0 && l.last() == '\r' {
        l.drop_last()
    } else {
        l
    }
}

/// The lines of `s[start..]` as `str::lines` splits them.
pub open spec fn lines_from(s: Seq<char>, start: int) -> Seq<Seq<char>>
    decreases s.len() - start,
{
    if start < 0 || start >= s.len() {
        seq![]
    } else {
        let e = next_nl(s, start);
        if start <= e && e < s.len() {
            seq![strip_cr(s.subrange(start, e))] + lines_from(s, e + 1)
        } else {
            seq![s.subrange(start, s.len() as int)]
        }
    }
}

/// `str::lines`.
pub open spec fn lines(s: Seq<char>) -> Seq<Seq<char>> {
    lines_from(s, 0)
}

/// The views of a vector of character vectors.
pub open spec fn views(v: Seq<Vec<char>>) -> Seq<Seq<char>> {
    v.map_values(|l: Vec<char>| l@)
}

/// Splits text into lines (`str::lines`).
pub fn split_lines(v: &[char]) -> (r: Vec<Vec<char>>)
    ensures
        views(r@) == lines(v@),
{
    let n = v.len();
    let mut r: Vec<Vec<char>> = Vec::new();
    let mut start: usize = 0;
    while start < n
        invariant
            start <= n == v@.len(),
            views(r@) + lines_from(v@, start as int) == lines(v@),
        decreases n - start,
    {
        let e = next_newline(v, start);
        let ghost old_r = views(r@);
        if e < n {
            let mut line = slice(v, start, e);
            if line.len() > 0 && line[line.len() - 1] == '\r' {
                line.pop();
            }
            r.push(line);
            assert(views(r@) =~= old_r + seq![strip_cr(v@.subrange(start as int, e as int))]);
            start = e + 1;
        } else {
            let line = slice(v, start, n);
            r.push(line);
            assert(views(r@) =~= old_r + seq![v@.subrange(start as int, n as int)]);
            start = n;
        }
    }
    assert(views(r@) + lines_from(v@, start as int) =~= views(r@));
    r
}

/// Lines joined with newlines (`[&str]::join("\n")`).
pub open spec fn join_lines(ls: Seq<Seq<char>>) -> Seq<char>
    decreases ls.len(),
{
    if ls.len() == 0 {
        seq![]
    } else if ls.len() == 1 {
        ls[0]
    } else {
        join_lines(ls.drop_last()) + seq!['\n'] + ls.last()
    }
}

/// Joins `ls[from..to]` with newlines.
pub fn join_range(ls: &Vec<Vec<char>>, from: usize, to: usize) -> (r: Vec<char>)
    requires
        from <= to <= ls@.len(),
    ensures
        r@ == join_lines(views(ls@).subrange(from as int, to as int)),
{
    let mut r: Vec<char> = Vec::new();
    let mut i = from;
    while i < to
        invariant
            from <= i <= to <= ls@.len(),
            r@ == join_lines(views(ls@).subrange(from as int, i as int)),
        decreases to - i,
    {
        let ghost pre = r@;
        if i > from {
            r.push('\n');
        }
        let line = &ls[i];
        let mut k: usize = 0;
        let ghost mid = r@;
        while k < line.len()
            invariant
                0 <= k <= line@.len(),
                r@ == mid + line@.take(k as int),
            decreases line@.len() - k,
        {
            r.push(line[k]);
            assert(r@ =~= mid + line@.take(k + 1));
            k = k + 1;
        }
        assert(line@.take(line@.len() as int) =~= line@);
        let ghost sub = views(ls@).subrange(from as int, i + 1);
        assert(sub.drop_last() =~= views(ls@).subrange(from as int, i as int));
        assert(sub.last() == line@);
        if i > from {
            assert(r@ =~= pre + seq!['\n'] + line@);
        } else {
            assert(sub =~= seq![line@]);
        }
        i = i + 1;
    }
    r
}

/// The first whitespace position at or after `i`, if any.
pub open spec fn first_ws_from(s: Seq<char>, i: int) -> Option<int>
    decreases s.len() - i,
{
    if i < 0 || i >= s.len() {
        None
    } else if is_ws(s[i]) {
        Some(i)
    } else {
        first_ws_from(s, i + 1)
    }
}

pub fn find_ws(v: &[char], from: usize) -> (r: Option<usize>)
    requires
        from <= v@.len(),
    ensures
        match r {
            Some(i) => first_ws_from(v@, from as int) == Some(i as int) && from <= i < v@.len(),
            None => first_ws_from(v@, from as int) is None,
        },
{
    let mut i = from;
    while i < v.len()
        invariant
            from <= i <= v@.len(),
            first_ws_from(v@, from as int) == first_ws_from(v@, i as int),
        decreases v@.len() - i,
    {
        if is_whitespace(v[i]) {
            return Some(i);
        }
        i = i + 1;
    }
    None
}

/// Name for what `format!("{:?}", s)` writes for a string: the text in
/// double quotes with `char::escape_debug` escapes.
pub uninterp spec fn debug_quoted(s: Seq<char>) -> Seq<char>;

/// Formats a string slice with `Debug`.
#[verifier::external_body]
pub(crate) fn debug_str(s: &str) -> (r: String)
    ensures
        r@ == debug_quoted(s@),
{
    format!("{s:?}")
}

} // verus!
