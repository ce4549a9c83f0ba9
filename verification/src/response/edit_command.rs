//! Edit commands: a search text and its replacement, carried as heredocs,
//! with the checks and the rewrite that apply them to a file's content.

use crate::numfmt::{dec, all_digits, usize_to_string};
use crate::text::find;
use vstd::utf8::{encode_scalar, encode_utf8};
use crate::text::{
    chars_eq, chars_of, debug_quoted, debug_str, find_char, find_from, find_ws, first_ws_from,
    is_whitespace, is_ws, join_lines, join_range, lemma_find_from, lines, skip_ws, slice,
    split_lines, starts_with, string_of, trim, trim_start, trimmed_string, views, next_nl,
    lemma_next_nl, lines_from, strip_cr,
};
use vstd::prelude::*;

verus! {

/// Replace the one occurrence of `search` by `replace`.
#[derive(Debug, Clone, PartialEq, Eq)]
pub struct EditCommand {
    pub search: String,
    pub replace: String,
}

impl View for EditCommand {
    type V = (Seq<char>, Seq<char>);

    open spec fn view(&self) -> (Seq<char>, Seq<char>) {
        (self.search@, self.replace@)
    }
}

impl EditCommand {
    /// A copy of the command, equal to it.
    pub fn duplicate(&self) -> (r: EditCommand)
        ensures
            r == *self,
    {
        EditCommand { search: self.search.clone(), replace: self.replace.clone() }
    }
}

/// Why an edit cannot be made.
#[derive(Debug, Clone, PartialEq, Eq)]
pub enum EditError {
    Parse { line: usize, message: String },
    OverlappingRanges { cmd_a: String, cmd_b: String },
    SearchNotFound { search: String },
    AmbiguousSearch { search: String, count: usize },
}

/// An edit error as plain values.
pub enum EditFault {
    Parse { line: nat, message: Seq<char> },
    OverlappingRanges { cmd_a: Seq<char>, cmd_b: Seq<char> },
    SearchNotFound { search: Seq<char> },
    AmbiguousSearch { search: Seq<char>, count: nat },
}

impl View for EditError {
    type V = EditFault;

    open spec fn view(&self) -> EditFault {
        match self {
            EditError::Parse { line, message } => EditFault::Parse {
                line: *line as nat,
                message: message@,
            },
            EditError::OverlappingRanges { cmd_a, cmd_b } => EditFault::OverlappingRanges {
                cmd_a: cmd_a@,
                cmd_b: cmd_b@,
            },
            EditError::SearchNotFound { search } => EditFault::SearchNotFound { search: search@ },
            EditError::AmbiguousSearch { search, count } => EditFault::AmbiguousSearch {
                search: search@,
                count: *count as nat,
            },
        }
    }
}

/// The message an edit error displays.
pub open spec fn fault_message(f: EditFault) -> Seq<char> {
    match f {
        EditFault::Parse { line, message } => "parse error at line "@ + dec(line) + ": "@
            + message,
        EditFault::OverlappingRanges { cmd_a, cmd_b } => "overlapping ranges: "@ + cmd_a
            + " vs "@ + cmd_b,
        EditFault::SearchNotFound { search } => "search text not found: "@ + debug_quoted(
            search,
        ),
        EditFault::AmbiguousSearch { search, count } => "search text found "@ + dec(count)
            + " times (must be unique): "@ + debug_quoted(search),
    }
}

impl EditError {
    /// The error's message (what `Display` writes).
    pub fn to_string(&self) -> (s: String)
        ensures
            s@ == fault_message(self@),
    {
        let mut s = String::new();
        match self {
            EditError::Parse { line, message } => {
                s.append("parse error at line ");
                s.append(usize_to_string(*line).as_str());
                s.append(": ");
                s.append(message.as_str());
            },
            EditError::OverlappingRanges { cmd_a, cmd_b } => {
                s.append("overlapping ranges: ");
                s.append(cmd_a.as_str());
                s.append(" vs ");
                s.append(cmd_b.as_str());
            },
            EditError::SearchNotFound { search } => {
                s.append("search text not found: ");
                s.append(debug_str(search.as_str()).as_str());
            },
            EditError::AmbiguousSearch { search, count } => {
                s.append("search text found ");
                s.append(usize_to_string(*count).as_str());
                s.append(" times (must be unique): ");
                s.append(debug_str(search.as_str()).as_str());
            },
        }
        s
    }
}

/// The delimiter a heredoc opening line names: `<<'D'`, `<<"D"`, or a bare
/// `<<D` that ends at the first whitespace or at the end of the line.
pub open spec fn edit_delim(line: Seq<char>) -> Option<Seq<char>> {
    let t = trim_start(line);
    if !starts_with(t, seq!['<', '<']) {
        None
    } else {
        let a = trim_start(t.skip(2));
        if a.len() > 0 && a[0] == '\'' {
            match find_from(a, seq!['\''], 1) {
                Some(e) => Some(a.subrange(1, e)),
                None => None,
            }
        } else if a.len() > 0 && a[0] == '"' {
            match find_from(a, seq!['"'], 1) {
                Some(e) => Some(a.subrange(1, e)),
                None => None,
            }
        } else {
            match first_ws_from(a, 0) {
                Some(e) => Some(a.take(e)),
                None => if a.len() > 0 {
                    Some(a)
                } else {
                    None
                },
            }
        }
    }
}

/// Reads the heredoc delimiter of a line, if it opens one.
pub fn line_delim(line: &Vec<char>) -> (r: Option<Vec<char>>)
    ensures
        match r {
            Some(d) => edit_delim(line@) == Some(d@),
            None => edit_delim(line@) is None,
        },
{
    let n = line.len();
    let t = skip_ws(line.as_slice(), 0, n);
    assert(line@.subrange(0, n as int) =~= line@);
    let ghost ts = line@.subrange(t as int, n as int);
    if !(t < n && n - t >= 2 && line[t] == '<' && line[t + 1] == '<') {
        assert(!starts_with(ts, seq!['<', '<'])) by {
            if starts_with(ts, seq!['<', '<']) {
                assert(ts.take(2)[0] == ts[0]);
                assert(ts.take(2)[1] == ts[1]);
            }
        }
        return None;
    }
    assert(ts.take(2) =~= seq!['<', '<']);
    let a = skip_ws(line.as_slice(), t + 2, n);
    assert(ts.skip(2) =~= line@.subrange(t + 2, n as int));
    let ghost av = line@.subrange(a as int, n as int);
    let body = slice(line.as_slice(), a, n);
    assert(body@ == av);
    if a < n && (line[a] == '\'' || line[a] == '"') {
        let q = line[a];
        let found = find_char(body.as_slice(), q, 1);
        proof {
            lemma_find_from(body@, seq![q], 1);
        }
        match found {
            Some(e) => Some(slice(body.as_slice(), 1, e)),
            None => None,
        }
    } else {
        match find_ws(body.as_slice(), 0) {
            Some(e) => Some(slice(body.as_slice(), 0, e)),
            None => if body.len() > 0 {
                assert(body@.subrange(0, body@.len() as int) =~= body@);
                Some(slice(body.as_slice(), 0, body.len()))
            } else {
                None
            },
        }
    }
}

/// The first line at or after `j` whose trimmed text is `d`, or the count
/// of lines when there is none.
pub open spec fn close_line(ls: Seq<Seq<char>>, d: Seq<char>, j: int) -> int
    decreases ls.len() - j,
{
    if j < 0 || j >= ls.len() {
        ls.len() as int
    } else if trim(ls[j]) == d {
        j
    } else {
        close_line(ls, d, j + 1)
    }
}

pub proof fn lemma_close_line(ls: Seq<Seq<char>>, d: Seq<char>, j: int)
    requires
        0 <= j <= ls.len(),
    ensures
        j <= close_line(ls, d, j) <= ls.len(),
    decreases ls.len() - j,
{
    if j < ls.len() && trim(ls[j]) != d {
        lemma_close_line(ls, d, j + 1);
    }
}

/// The heredoc bodies found in `ls[i..]`, or the first unclosed one as
/// (its first body line, its delimiter).
pub open spec fn heredocs_from(ls: Seq<Seq<char>>, i: int) -> Result<
    Seq<Seq<char>>,
    (int, Seq<char>),
>
    decreases ls.len() - i,
{
    if i < 0 || i >= ls.len() {
        Ok(seq![])
    } else {
        match edit_delim(ls[i]) {
            Some(d) => {
                let c = close_line(ls, d, i + 1);
                if c >= ls.len() {
                    Err((i + 1, d))
                } else if c >= i + 1 {
                    match heredocs_from(ls, c + 1) {
                        Ok(r) => Ok(seq![join_lines(ls.subrange(i + 1, c))] + r),
                        Err(e) => Err(e),
                    }
                } else {
                    Ok(seq![])
                }
            },
            None => heredocs_from(ls, i + 1),
        }
    }
}

/// The heredoc bodies of an edit block's content, in order.
pub open spec fn heredocs(content: Seq<char>) -> Result<Seq<Seq<char>>, (int, Seq<char>)> {
    heredocs_from(lines(content), 0)
}

fn close_index(ls: &Vec<Vec<char>>, d: &Vec<char>, j: usize) -> (c: usize)
    requires
        j <= ls@.len(),
    ensures
        c as int == close_line(views(ls@), d@, j as int),
{
    let mut k = j;
    while k < ls.len()
        invariant
            j <= k <= ls@.len(),
            close_line(views(ls@), d@, j as int) == close_line(views(ls@), d@, k as int),
        decreases ls@.len() - k,
    {
        let line = &ls[k];
        let tl = trimmed_string(line.as_slice(), 0, line.len());
        let tv = chars_of(tl.as_str());
        assert(line@.subrange(0, line@.len() as int) =~= line@);
        assert(views(ls@)[k as int] == line@);
        if chars_eq(tv.as_slice(), d.as_slice()) {
            return k;
        }
        k = k + 1;
    }
    k
}

/// Collects the heredoc bodies of the lines (`extract_heredocs`).
fn extract_heredocs(ls: &Vec<Vec<char>>) -> (r: Result<Vec<Vec<char>>, EditError>)
    ensures
        match heredocs_from(views(ls@), 0) {
            Ok(hs) => r matches Ok(v) && views(v@) == hs,
            Err((line, d)) => r matches Err(e) && e@ == (EditFault::Parse {
                line: line as nat,
                message: "unclosed heredoc: "@ + d,
            }),
        },
{
    let n = ls.len();
    let mut acc: Vec<Vec<char>> = Vec::new();
    let mut i: usize = 0;
    while i < n
        invariant
            0 <= i <= n == ls@.len(),
            heredocs_from(views(ls@), 0) == match heredocs_from(views(ls@), i as int) {
                Ok(rest) => Ok(views(acc@) + rest),
                Err(e) => Err(e),
            },
        decreases n - i,
    {
        let ghost lsv = views(ls@);
        assert(lsv[i as int] == ls@[i as int]@);
        match line_delim(&ls[i]) {
            Some(d) => {
                let c = close_index(ls, &d, i + 1);
                proof {
                    lemma_close_line(lsv, d@, i + 1);
                }
                if c >= n {
                    let mut msg = String::new();
                    msg.append("unclosed heredoc: ");
                    msg.append(string_of(d.as_slice()).as_str());
                    return Err(EditError::Parse { line: i + 1, message: msg });
                }
                let body = join_range(ls, i + 1, c);
                let ghost pre = views(acc@);
                acc.push(body);
                assert(views(acc@) =~= pre + seq![body@]);
                proof {
                    match heredocs_from(lsv, c + 1) {
                        Ok(rest) => {
                            assert(pre + (seq![body@] + rest) =~= views(acc@) + rest);
                        },
                        Err(e) => {},
                    }
                }
                i = c + 1;
            },
            None => {
                i = i + 1;
            },
        }
    }
    assert(views(acc@) + seq![] =~= views(acc@));
    Ok(acc)
}

/// Where the token that ends just before `j` begins (after the whitespace
/// before it, or at the start of the line).
pub open spec fn token_start(line: Seq<char>, j: int) -> int
    decreases j,
{
    if j <= 0 || j > line.len() {
        0
    } else if is_ws(line[j - 1]) {
        j
    } else {
        token_start(line, j - 1)
    }
}

/// The text a line reference names: in `... L<digits>:text`, the text after
/// the first colon, when the token before that colon is `L` and digits.
pub open spec fn line_ref(line: Seq<char>) -> Option<Seq<char>> {
    match find_from(line, seq![':'], 0) {
        None => None,
        Some(c) => {
            let t = token_start(line, c);
            if 0 <= t && t + 1 < c && line[t] == 'L' && all_digits(line.subrange(t + 1, c)) {
                Some(line.skip(c + 1))
            } else {
                None
            }
        },
    }
}

/// The line references in `ls[0..k]`, in order.
pub open spec fn refs_upto(ls: Seq<Seq<char>>, k: int) -> Seq<Seq<char>>
    decreases k,
{
    if k <= 0 || k > ls.len() {
        seq![]
    } else {
        match line_ref(ls[k - 1]) {
            Some(r) => refs_upto(ls, k - 1).push(r),
            None => refs_upto(ls, k - 1),
        }
    }
}

/// The first line at or after `i` that opens a heredoc, or the count of
/// lines.
pub open spec fn first_opener(ls: Seq<Seq<char>>, i: int) -> int
    decreases ls.len() - i,
{
    if i < 0 || i >= ls.len() {
        ls.len() as int
    } else if edit_delim(ls[i]) is Some {
        i
    } else {
        first_opener(ls, i + 1)
    }
}

/// What `parse_edit_command` yields: the first heredoc is the search text
/// and the second the replacement; a block with one heredoc may name its
/// search text by a single line reference (`L<n>:text`) before it.
pub open spec fn parse_edit_spec(content: Seq<char>) -> Result<
    (Seq<char>, Seq<char>),
    EditFault,
> {
    let ls = lines(content);
    match heredocs_from(ls, 0) {
        Err((line, d)) => Err(
            EditFault::Parse { line: line as nat, message: "unclosed heredoc: "@ + d },
        ),
        Ok(hs) => {
            let refs = refs_upto(ls, first_opener(ls, 0));
            if hs.len() == 1 && refs.len() == 1 {
                Ok((refs[0], hs[0]))
            } else if hs.len() < 2 {
                Err(
                    EditFault::Parse {
                        line: 1,
                        message: "edit block must contain two heredocs: first for search, second for replace"@,
                    },
                )
            } else if hs.len() > 2 {
                Err(
                    EditFault::Parse {
                        line: 1,
                        message: "edit block contains "@ + dec(hs.len())
                            + " heredocs, expected exactly 2"@,
                    },
                )
            } else {
                Ok((hs[0], hs[1]))
            }
        },
    }
}

fn is_ascii_digit(c: char) -> (b: bool)
    ensures
        b == crate::numfmt::is_digit(c),
{
    '0' <= c && c <= '9'
}

fn token_start_index(line: &Vec<char>, j: usize) -> (t: usize)
    requires
        j <= line@.len(),
    ensures
        t as int == token_start(line@, j as int),
        t <= j,
{
    let mut k = j;
    while k > 0 && !is_whitespace(line[k - 1])
        invariant
            k <= j <= line@.len(),
            token_start(line@, j as int) == token_start(line@, k as int),
        decreases k,
    {
        k = k - 1;
    }
    k
}

/// The text named by a line reference on this line, if any.
fn line_reference(line: &Vec<char>) -> (r: Option<Vec<char>>)
    ensures
        match r {
            Some(t) => line_ref(line@) == Some(t@),
            None => line_ref(line@) is None,
        },
{
    match find_char(line.as_slice(), ':', 0) {
        None => None,
        Some(c) => {
            proof {
                lemma_find_from(line@, seq![':'], 0);
            }
            let t = token_start_index(line, c);
            if !(t < c && c - t > 1 && line[t] == 'L') {
                return None;
            }
            let mut k = t + 1;
            while k < c
                invariant
                    t + 1 <= k <= c < line.len(),
                    find_from(line@, seq![':'], 0) == Some(c as int),
                    t as int == token_start(line@, c as int),
                    line@[t as int] == 'L',
                    all_digits(line@.subrange(t + 1, k as int)),
                decreases c - k,
            {
                if !is_ascii_digit(line[k]) {
                    assert(!all_digits(line@.subrange(t + 1, c as int))) by {
                        assert(line@.subrange(t + 1, c as int)[k - t - 1] == line@[k as int]);
                    }
                    return None;
                }
                assert(all_digits(line@.subrange(t + 1, k + 1))) by {
                    assert forall|i: int| 0 <= i < k + 1 - (t + 1) implies crate::numfmt::is_digit(
                        #[trigger] line@.subrange(t + 1, k + 1)[i],
                    ) by {
                        if i < k - (t + 1) {
                            assert(line@.subrange(t + 1, k + 1)[i] == line@.subrange(
                                t + 1,
                                k as int,
                            )[i]);
                        }
                    }
                }
                k = k + 1;
            }
            Some(slice(line.as_slice(), c + 1, line.len()))
        },
    }
}

/// Parses an edit block's content into its search and replacement texts.
pub fn parse_edit_command(content: &str) -> (r: Result<EditCommand, EditError>)
    ensures
        match parse_edit_spec(content@) {
            Ok(cmd) => r matches Ok(c) && c@ == cmd,
            Err(f) => r matches Err(e) && e@ == f,
        },
{
    let v = chars_of(content);
    let ls = split_lines(v.as_slice());
    let ghost lsv = views(ls@);
    let hs = match extract_heredocs(&ls) {
        Ok(h) => h,
        Err(e) => {
            return Err(e);
        },
    };
    let n = hs.len();
    if n == 1 {
        // search for the line references before the first opener
        let mut refs: Vec<Vec<char>> = Vec::new();
        let mut i: usize = 0;
        while i < ls.len() && line_delim(&ls[i]).is_none()
            invariant
                0 <= i <= ls@.len(),
                lsv == views(ls@),
                first_opener(lsv, 0) == first_opener(lsv, i as int),
                views(refs@) == refs_upto(lsv, i as int),
            decreases ls@.len() - i,
        {
            assert(lsv[i as int] == ls@[i as int]@);
            let ghost pre = views(refs@);
            match line_reference(&ls[i]) {
                Some(t) => {
                    refs.push(t);
                    assert(views(refs@) =~= pre.push(t@));
                },
                None => {},
            }
            i = i + 1;
        }
        proof {
            if i < ls@.len() {
                assert(lsv[i as int] == ls@[i as int]@);
            }
        }
        if refs.len() == 1 {
            assert(views(refs@)[0] == refs@[0]@);
            assert(views(hs@)[0] == hs@[0]@);
            return Ok(
                EditCommand {
                    search: string_of(refs[0].as_slice()),
                    replace: string_of(hs[0].as_slice()),
                },
            );
        }
    }
    if n < 2 {
        return Err(
            EditError::Parse {
                line: 1,
                message: String::from_str(
                    "edit block must contain two heredocs: first for search, second for replace",
                ),
            },
        );
    }
    if n > 2 {
        let mut msg = String::new();
        msg.append("edit block contains ");
        msg.append(usize_to_string(n).as_str());
        msg.append(" heredocs, expected exactly 2");
        return Err(EditError::Parse { line: 1, message: msg });
    }
    assert(views(hs@)[0] == hs@[0]@);
    assert(views(hs@)[1] == hs@[1]@);
    Ok(EditCommand { search: string_of(hs[0].as_slice()), replace: string_of(hs[1].as_slice()) })
}

/// The text an edit command is written as: two heredocs.
pub open spec fn serialize_edit_spec(search: Seq<char>, replace: Seq<char>) -> Seq<char> {
    "<<'TAIDELIM'\n"@ + search + "\nTAIDELIM\n<<'TAIDELIM'\n"@ + replace + "\nTAIDELIM"@
}

/// Writes an edit command as two heredocs.
pub fn serialize_edit_command(cmd: &EditCommand) -> (s: String)
    ensures
        s@ == serialize_edit_spec(cmd.search@, cmd.replace@),
{
    let mut s = String::new();
    s.append("<<'TAIDELIM'\n");
    s.append(cmd.search.as_str());
    s.append("\nTAIDELIM\n<<'TAIDELIM'\n");
    s.append(cmd.replace.as_str());
    s.append("\nTAIDELIM");
    s
}

/// The UTF-8 length in bytes of a character sequence.
pub open spec fn byte_len(s: Seq<char>) -> nat {
    encode_utf8(s).len()
}

pub proof fn lemma_encode_concat(a: Seq<char>, b: Seq<char>)
    ensures
        encode_utf8(a + b) == encode_utf8(a) + encode_utf8(b),
    decreases a.len(),
{
    if a.len() == 0 {
        assert(a + b =~= b);
        assert(encode_utf8(a) =~= Seq::<u8>::empty());
        assert(encode_utf8(a) + encode_utf8(b) =~= encode_utf8(b));
    } else {
        lemma_encode_concat(a.drop_first(), b);
        assert((a + b).drop_first() =~= a.drop_first() + b);
        assert((a + b)[0] == a[0]);
        assert(encode_scalar(a[0] as u32) + (encode_utf8(a.drop_first()) + encode_utf8(b))
            =~= (encode_scalar(a[0] as u32) + encode_utf8(a.drop_first())) + encode_utf8(b));
    }
}

/// The length of a text in bytes: its UTF-8 encoding's length.
pub fn utf8_len(s: &str) -> (n: usize)
    ensures
        n as nat == byte_len(s@),
{
    s.as_bytes().len()
}

/// The number of bytes of a character's UTF-8 encoding.
pub fn utf8_width(c: char) -> (w: usize)
    ensures
        w as nat == encode_scalar(c as u32).len(),
        1 <= w <= 4,
{
    proof {
        vstd::utf8::char_is_scalar(c);
    }
    let u = c as u32;
    if u <= 0x7F {
        1
    } else if u <= 0x7FF {
        2
    } else if u <= 0xFFFF {
        3
    } else {
        4
    }
}

pub proof fn lemma_byte_len_step(s: Seq<char>, k: int)
    requires
        0 <= k < s.len(),
    ensures
        byte_len(s.take(k + 1)) == byte_len(s.take(k)) + encode_scalar(s[k] as u32).len(),
{
    assert(s.take(k + 1) =~= s.take(k) + seq![s[k]]);
    lemma_encode_concat(s.take(k), seq![s[k]]);
    assert(seq![s[k]].drop_first() =~= Seq::<char>::empty());
    let x = seq![s[k]];
    assert(x.drop_first() =~= Seq::<char>::empty());
    assert(encode_utf8(x.drop_first()) == Seq::<u8>::empty());
    assert(encode_utf8(x) == encode_scalar(x[0] as u32) + encode_utf8(x.drop_first()));
    assert(encode_utf8(x) =~= encode_scalar(s[k] as u32));
}

pub proof fn lemma_byte_len_mono(s: Seq<char>, i: int, j: int)
    requires
        0 <= i <= j <= s.len(),
    ensures
        byte_len(s.take(i)) <= byte_len(s.take(j)),
        i < j ==> byte_len(s.take(i)) < byte_len(s.take(j)),
    decreases j - i,
{
    if i < j {
        lemma_byte_len_mono(s, i, j - 1);
        lemma_byte_len_step(s, j - 1);
        vstd::utf8::char_is_scalar(s[j - 1]);
    }
}

/// The byte offset of character index `k` of `v`.
pub fn byte_offset(v: &[char], k: usize) -> (b: usize)
    requires
        k <= v@.len(),
        byte_len(v@) <= usize::MAX,
    ensures
        b as nat == byte_len(v@.take(k as int)),
{
    let mut b: usize = 0;
    let mut i: usize = 0;
    assert(v@.take(0) =~= Seq::<char>::empty());
    while i < k
        invariant
            i <= k <= v@.len(),
            byte_len(v@) <= usize::MAX,
            b as nat == byte_len(v@.take(i as int)),
        decreases k - i,
    {
        let w = utf8_width(v[i]);
        proof {
            lemma_byte_len_step(v@, i as int);
            lemma_byte_len_mono(v@, i + 1, v@.len() as int);
            assert(v@.take(v@.len() as int) =~= v@);
        }
        b = b + w;
        i = i + 1;
    }
    b
}

/// How many positions at or after `from` in `s` start an occurrence of `p`;
/// overlapping occurrences count each (an empty `p` occurs at every
/// position, the end included).
pub open spec fn count_from(s: Seq<char>, p: Seq<char>, from: int) -> nat
    decreases s.len() + 1 - from,
{
    if from < 0 || from > s.len() {
        0
    } else {
        match find_from(s, p, from) {
            Some(i) => if from <= i && i <= s.len() {
                1 + count_from(s, p, i + 1)
            } else {
                0
            },
            None => 0,
        }
    }
}

/// What `validate_search_unique` returns on a file's text.
pub open spec fn search_unique_spec(search: Seq<char>, file: Seq<char>) -> Result<nat, EditFault> {
    let n = count_from(file, search, 0);
    if n == 0 {
        Err(EditFault::SearchNotFound { search })
    } else if n >= 2 {
        Err(EditFault::AmbiguousSearch { search, count: saturated(n) })
    } else {
        Ok(byte_len(file.take(find_from(file, search, 0)->0)))
    }
}

/// A count as `usize` holds it: at most `usize::MAX`.
pub open spec fn saturated(n: nat) -> nat {
    if n > usize::MAX {
        usize::MAX as nat
    } else {
        n
    }
}

/// Counts the positions where `p` occurs in `v`, overlapping occurrences
/// included (at most `usize::MAX`), and finds the first.
fn count_matches(v: &[char], p: &[char]) -> (r: (usize, Option<usize>))
    ensures
        r.0 as nat == saturated(count_from(v@, p@, 0)),
        match r.1 {
            Some(i) => find_from(v@, p@, 0) == Some(i as int) && i <= v@.len(),
            None => find_from(v@, p@, 0) is None,
        },
{
    let n = v.len();
    let step: usize = 1;
    let first = find(v, p, 0);
    proof {
        lemma_find_from(v@, p@, 0);
    }
    let first_pos = match first {
        None => {
            return (0, None);
        },
        Some(i) => i,
    };
    let mut count: usize = 1;
    let ghost mut c: nat = 1;
    let mut from: usize = 0;
    let mut done = false;
    assert(first_pos + step <= n + 1);
    if step > n - first_pos {
        done = true;
        assert(count_from(v@, p@, first_pos + step) == 0);
    } else {
        from = first_pos + step;
    }
    while !done
        invariant
            n == v@.len(),
            step == 1,
            1 <= step,
            from <= n,
            count as nat == saturated(c),
            count_from(v@, p@, 0) == c + (if done {
                0
            } else {
                count_from(v@, p@, from as int)
            }),
        decreases n + 1 - from + (if done {
            0int
        } else {
            1int
        }),
    {
        let f = find(v, p, from);
        proof {
            lemma_find_from(v@, p@, from as int);
        }
        match f {
            None => {
                done = true;
            },
            Some(i) => {
                assert(i + step <= n + 1);
                if count < usize::MAX {
                    count = count + 1;
                }
                proof {
                    c = c + 1;
                }
                if step > n - i {
                    assert(count_from(v@, p@, i + step) == 0);
                    done = true;
                } else {
                    from = i + step;
                }
            },
        }
    }
    (count, Some(first_pos))
}

/// Checks that the search text occurs exactly once in the file and returns
/// the byte position of that occurrence.
pub fn validate_search_unique(cmd: &EditCommand, file_content: &str) -> (r: Result<
    usize,
    EditError,
>)
    ensures
        match search_unique_spec(cmd.search@, file_content@) {
            Ok(pos) => r matches Ok(b) && b as nat == pos,
            Err(f) => r matches Err(e) && e@ == f,
        },
{
    let _ = utf8_len(file_content);
    let v = chars_of(file_content);
    let p = chars_of(cmd.search.as_str());
    let (count, first) = count_matches(v.as_slice(), p.as_slice());
    if count == 0 {
        return Err(EditError::SearchNotFound { search: cmd.search.clone() });
    }
    if count >= 2 {
        return Err(EditError::AmbiguousSearch { search: cmd.search.clone(), count });
    }
    match first {
        Some(i) => Ok(byte_offset(v.as_slice(), i)),
        None => {
            assert(false);
            Err(EditError::SearchNotFound { search: cmd.search.clone() })
        },
    }
}

/// What checking an edit against a file view yields: the search text must
/// occur there exactly once.
pub open spec fn texts_check_spec(search: Seq<char>, output: Seq<char>) -> Result<(), EditFault> {
    let n = count_from(output, search, 0);
    if n == 0 {
        Err(EditFault::SearchNotFound { search })
    } else if n >= 2 {
        Err(EditFault::AmbiguousSearch { search, count: saturated(n) })
    } else {
        Ok(())
    }
}

/// Checks an edit command against the file view the agent saw.
pub fn validate_texts_against_output(cmd: &EditCommand, output: &str) -> (r: Result<
    (),
    EditError,
>)
    ensures
        match texts_check_spec(cmd.search@, output@) {
            Ok(()) => r is Ok,
            Err(f) => r matches Err(e) && e@ == f,
        },
{
    let v = chars_of(output);
    let p = chars_of(cmd.search.as_str());
    let (count, _first) = count_matches(v.as_slice(), p.as_slice());
    if count == 0 {
        Err(EditError::SearchNotFound { search: cmd.search.clone() })
    } else if count >= 2 {
        Err(EditError::AmbiguousSearch { search: cmd.search.clone(), count })
    } else {
        Ok(())
    }
}

/// Where a pair keyed `key` goes in `s[..j]` under a stable sort: after
/// every pair whose key is not greater.
pub open spec fn insert_point(s: Seq<(usize, usize)>, key: usize, j: int) -> int
    decreases j,
{
    if j <= 0 || j > s.len() {
        0
    } else if s[j - 1].0 > key {
        insert_point(s, key, j - 1)
    } else {
        j
    }
}

/// `s` with `e` inserted at its stable place.
pub open spec fn insert_by_key(s: Seq<(usize, usize)>, e: (usize, usize)) -> Seq<(usize, usize)> {
    let k = insert_point(s, e.0, s.len() as int);
    s.take(k).push(e) + s.skip(k)
}

/// The pairs stably sorted by their first component (`sort_by_key`).
pub open spec fn sort_by_key(s: Seq<(usize, usize)>) -> Seq<(usize, usize)>
    decreases s.len(),
{
    if s.len() == 0 {
        s
    } else {
        insert_by_key(sort_by_key(s.drop_last()), s.last())
    }
}

pub proof fn lemma_insert_point(s: Seq<(usize, usize)>, key: usize, j: int)
    requires
        0 <= j <= s.len(),
    ensures
        0 <= insert_point(s, key, j) <= j,
    decreases j,
{
    if j > 0 && s[j - 1].0 > key {
        lemma_insert_point(s, key, j - 1);
    }
}

pub proof fn lemma_sort_len(s: Seq<(usize, usize)>)
    ensures
        sort_by_key(s).len() == s.len(),
    decreases s.len(),
{
    if s.len() > 0 {
        lemma_sort_len(s.drop_last());
        let t = sort_by_key(s.drop_last());
        lemma_insert_point(t, s.last().0, t.len() as int);
    }
}

/// Sorts pairs by their first component, keeping equal keys in order.
pub fn sort_pairs(v: &[(usize, usize)]) -> (r: Vec<(usize, usize)>)
    ensures
        r@ == sort_by_key(v@),
{
    let mut r: Vec<(usize, usize)> = Vec::new();
    let mut i: usize = 0;
    assert(v@.take(0) =~= Seq::<(usize, usize)>::empty());
    while i < v.len()
        invariant
            0 <= i <= v@.len(),
            r@ == sort_by_key(v@.take(i as int)),
        decreases v@.len() - i,
    {
        let e = v[i];
        proof {
            lemma_sort_len(v@.take(i as int));
        }
        let mut j = r.len();
        while j > 0 && r[j - 1].0 > e.0
            invariant
                j <= r@.len(),
                insert_point(r@, e.0, r@.len() as int) == insert_point(r@, e.0, j as int),
            decreases j,
        {
            j = j - 1;
        }
        let ghost before = r@;
        assert(insert_point(before, e.0, j as int) == j as int);
        r.insert(j, e);
        assert(r@ =~= before.take(j as int).push(e) + before.skip(j as int));
        assert(v@.take(i + 1).drop_last() =~= v@.take(i as int));
        assert(v@.take(i + 1).last() == e);
        i = i + 1;
    }
    assert(v@.take(v@.len() as int) =~= v@);
    r
}

/// The first index `i` where, in `s`, the next range starts before range
/// `i` ends.
pub open spec fn first_overlap(s: Seq<(usize, usize)>, i: int) -> Option<int>
    decreases s.len() - i,
{
    if i < 0 || i + 1 >= s.len() {
        None
    } else if s[i + 1].0 < s[i].1 {
        Some(i)
    } else {
        first_overlap(s, i + 1)
    }
}

/// How an overlapping range is described.
pub open spec fn range_text(r: (usize, usize)) -> Seq<char> {
    "search at byte "@ + dec(r.0 as nat) + ".."@ + dec(r.1 as nat)
}

fn describe_range(r: (usize, usize)) -> (s: String)
    ensures
        s@ == range_text(r),
{
    let mut s = String::from_str("search at byte ");
    s.append(usize_to_string(r.0).as_str());
    s.append("..");
    s.append(usize_to_string(r.1).as_str());
    s
}

/// What `validate_no_overlaps` returns: the first pair of neighbours, in
/// order of start, whose second starts before the first ends.
pub open spec fn no_overlaps_spec(ranges: Seq<(usize, usize)>) -> Result<(), EditFault> {
    let s = sort_by_key(ranges);
    match first_overlap(s, 0) {
        None => Ok(()),
        Some(i) => Err(
            EditFault::OverlappingRanges { cmd_a: range_text(s[i]), cmd_b: range_text(s[i + 1]) },
        ),
    }
}

/// Checks that no two of the `(start, end)` byte ranges overlap.
pub fn validate_no_overlaps(ranges: &[(usize, usize)]) -> (r: Result<(), EditError>)
    ensures
        match no_overlaps_spec(ranges@) {
            Ok(()) => r is Ok,
            Err(f) => r matches Err(e) && e@ == f,
        },
{
    let s = sort_pairs(ranges);
    let n = s.len();
    let mut i: usize = 0;
    while i < n && i + 1 < n
        invariant
            n == s@.len(),
            s@ == sort_by_key(ranges@),
            0 <= i,
            i <= n,
            first_overlap(s@, 0) == first_overlap(s@, i as int),
        decreases n - i,
    {
        let first = s[i];
        let second = s[i + 1];
        if second.0 < first.1 {
            return Err(
                EditError::OverlappingRanges {
                    cmd_a: describe_range(first),
                    cmd_b: describe_range(second),
                },
            );
        }
        i = i + 1;
    }
    Ok(())
}

/// Whether byte offset `b` falls on a character boundary of `c`.
pub open spec fn is_boundary(c: Seq<char>, b: int) -> bool {
    exists|k: int| 0 <= k <= c.len() && #[trigger] byte_len(c.take(k)) == b
}

/// The character index at byte offset `b` of `c`.
pub open spec fn char_index(c: Seq<char>, b: int) -> int {
    choose|k: int| 0 <= k <= c.len() && #[trigger] byte_len(c.take(k)) == b
}

pub proof fn lemma_char_index_unique(c: Seq<char>, b: int, k: int)
    requires
        0 <= k <= c.len(),
        byte_len(c.take(k)) == b,
    ensures
        char_index(c, b) == k,
{
    let j = char_index(c, b);
    assert(0 <= j <= c.len() && byte_len(c.take(j)) == b);
    if j < k {
        lemma_byte_len_mono(c, j, k);
    } else if k < j {
        lemma_byte_len_mono(c, k, j);
    }
}

/// The character index at a byte offset that is a boundary.
fn char_index_at(v: &[char], b: usize) -> (k: usize)
    requires
        is_boundary(v@, b as int),
    ensures
        k as int == char_index(v@, b as int),
        k <= v@.len(),
        byte_len(v@.take(k as int)) == b,
{
    let ghost target = choose|k: int| 0 <= k <= v@.len() && #[trigger] byte_len(v@.take(k)) == b;
    let mut i: usize = 0;
    let mut off: usize = 0;
    assert(v@.take(0) =~= Seq::<char>::empty());
    while off < b
        invariant
            0 <= i <= target <= v@.len(),
            byte_len(v@.take(target)) == b,
            off as nat == byte_len(v@.take(i as int)),
            off <= b,
        decreases b - off,
    {
        proof {
            if i == target {
                assert(false);
            }
            lemma_byte_len_step(v@, i as int);
            lemma_byte_len_mono(v@, i + 1, target);
            vstd::utf8::char_is_scalar(v@[i as int]);
        }
        let w = utf8_width(v[i]);
        off = off + w;
        i = i + 1;
    }
    proof {
        lemma_char_index_unique(v@, b as int, i as int);
    }
    i
}

/// The keys an edit list is sorted by: each edit's byte position with its
/// index in the list.
pub open spec fn edit_keys(edits: Seq<(usize, &str, &str)>) -> Seq<(usize, usize)> {
    Seq::new(edits.len(), |i: int| (edits[i].0, i as usize))
}

/// The byte end of an edit's range.
pub open spec fn edit_end(e: (usize, &str, &str)) -> int {
    e.0 + byte_len(e.1@)
}

/// What `apply_edits` may be given: every range lies on character
/// boundaries, and in order of position each range ends before the next
/// begins.
pub open spec fn edits_apply(c: Seq<char>, edits: Seq<(usize, &str, &str)>) -> bool {
    let order = sort_by_key(edit_keys(edits));
    &&& forall|i: int|
        0 <= i < edits.len() ==> is_boundary(c, #[trigger] edits[i].0 as int) && is_boundary(
            c,
            edit_end(edits[i]),
        )
    &&& forall|j: int|
        0 <= j < order.len() - 1 ==> edit_end(edits[#[trigger] order[j].1 as int]) <= order[j
            + 1].0
    &&& forall|j: int| 0 <= j < order.len() ==> 0 <= #[trigger] order[j].1 < edits.len()
}

/// `c[from..]` with the edits of `order`, taken in that order, replacing
/// their ranges.
pub open spec fn splice(
    c: Seq<char>,
    edits: Seq<(usize, &str, &str)>,
    order: Seq<(usize, usize)>,
    from: int,
) -> Seq<char>
    decreases order.len(),
{
    if order.len() == 0 {
        c.subrange(from, c.len() as int)
    } else {
        let e = edits[order[0].1 as int];
        c.subrange(from, char_index(c, e.0 as int)) + e.2@ + splice(
            c,
            edits,
            order.drop_first(),
            char_index(c, edit_end(e)),
        )
    }
}

/// Every pair of the sorted sequence comes from the input.
pub proof fn lemma_sort_elems(s: Seq<(usize, usize)>)
    ensures
        forall|j: int|
            0 <= j < sort_by_key(s).len() ==> s.contains(#[trigger] sort_by_key(s)[j]),
    decreases s.len(),
{
    lemma_sort_len(s);
    if s.len() > 0 {
        let t = sort_by_key(s.drop_last());
        lemma_sort_elems(s.drop_last());
        lemma_sort_len(s.drop_last());
        let e = s.last();
        let k = insert_point(t, e.0, t.len() as int);
        lemma_insert_point(t, e.0, t.len() as int);
        let u = sort_by_key(s);
        assert(u == t.take(k).push(e) + t.skip(k));
        assert forall|j: int| 0 <= j < u.len() implies s.contains(#[trigger] u[j]) by {
            if j < k {
                assert(u[j] == t[j]);
                let w = choose|w: int| 0 <= w < s.drop_last().len() && s.drop_last()[w] == t[j];
                assert(s[w] == t[j]);
            } else if j == k {
                assert(u[j] == s[s.len() - 1]);
            } else {
                assert(u[j] == t[j - 1]);
                let w = choose|w: int|
                    0 <= w < s.drop_last().len() && s.drop_last()[w] == t[j - 1];
                assert(s[w] == t[j - 1]);
            }
        }
    }
}

pub proof fn lemma_keys_sorted_indices(edits: Seq<(usize, &str, &str)>)
    requires
        edits.len() <= usize::MAX,
    ensures
        forall|j: int|
            0 <= j < sort_by_key(edit_keys(edits)).len() ==> 0 <= #[trigger] sort_by_key(
                edit_keys(edits),
            )[j].1 < edits.len() && sort_by_key(edit_keys(edits))[j].0 == edits[sort_by_key(
                edit_keys(edits),
            )[j].1 as int].0,
{
    let keys = edit_keys(edits);
    lemma_sort_elems(keys);
    assert forall|j: int|
        0 <= j < sort_by_key(keys).len() implies 0 <= #[trigger] sort_by_key(keys)[j].1
        < edits.len() && sort_by_key(keys)[j].0 == edits[sort_by_key(keys)[j].1 as int].0 by {
        let w = choose|w: int| 0 <= w < keys.len() && keys[w] == sort_by_key(keys)[j];
        assert(keys[w].1 == w as usize);
    }
}

/// Replaces each edit's byte range `[pos, pos + search.len())` by its
/// replacement, taking the edits in order of position.
pub fn apply_edits(content: &str, edits: &[(usize, &str, &str)]) -> (r: String)
    requires
        edits_apply(content@, edits@),
    ensures
        r@ == splice(content@, edits@, sort_by_key(edit_keys(edits@)), 0),
{
    let _ = utf8_len(content);
    let v = chars_of(content);
    let n = edits.len();
    let mut keys: Vec<(usize, usize)> = Vec::new();
    let mut i: usize = 0;
    while i < n
        invariant
            0 <= i <= n == edits@.len(),
            keys@ == edit_keys(edits@).take(i as int),
        decreases n - i,
    {
        keys.push((edits[i].0, i));
        assert(keys@ =~= edit_keys(edits@).take(i + 1));
        i = i + 1;
    }
    assert(keys@ =~= edit_keys(edits@));
    let order = sort_pairs(keys.as_slice());
    proof {
        lemma_sort_len(edit_keys(edits@));
        lemma_keys_sorted_indices(edits@);
    }
    let ghost c = content@;
    let mut res: Vec<char> = Vec::new();
    let mut cur: usize = 0;
    let mut j: usize = 0;
    assert(order@.skip(0) =~= order@);
    while j < order.len()
        invariant
            c == v@,
            byte_len(c) <= usize::MAX,
            edits_apply(c, edits@),
            forall|q: int|
                0 <= q < order@.len() ==> 0 <= #[trigger] order@[q].1 < edits@.len()
                    && order@[q].0 == edits@[order@[q].1 as int].0,
            order@ == sort_by_key(edit_keys(edits@)),
            0 <= j <= order@.len(),
            cur <= v@.len(),
            j == 0 ==> cur == 0,
            j > 0 ==> byte_len(c.take(cur as int)) == edit_end(edits@[order@[j - 1].1 as int]),
            splice(c, edits@, order@, 0) == res@ + splice(c, edits@, order@.skip(j as int), cur as int),
        decreases order@.len() - j,
    {
        let (pos, idx) = order[j];
        assert(0 <= order@[j as int].1 < edits@.len());
        let e = edits[idx];
        assert(is_boundary(c, e.0 as int) && is_boundary(c, edit_end(e)));
        let cs = char_index_at(v.as_slice(), pos);
        proof {
            lemma_char_index_unique(c, pos as int, cs as int);
            if j > 0 {
                assert(edit_end(edits@[order@[j - 1].1 as int]) <= order@[j as int].0);
            } else {
                assert(c.take(0) =~= Seq::<char>::empty());
            }
            if cur > cs {
                lemma_byte_len_mono(c, cs as int, cur as int);
            }
        }
        proof {
            let kk = choose|kk: int| 0 <= kk <= c.len() && #[trigger] byte_len(c.take(kk)) == edit_end(e);
            lemma_byte_len_mono(c, kk, c.len() as int);
            assert(c.take(c.len() as int) =~= c);
        }
        let slen = utf8_len(e.1);
        assert(slen as int == byte_len(e.1@));
        let ce = char_index_at(v.as_slice(), pos + slen);
        proof {
            if cs > ce {
                lemma_byte_len_mono(c, ce as int, cs as int);
            }
        }
        let ghost pre = res@;
        let mut k = cur;
        while k < cs
            invariant
                cur <= k <= cs <= v@.len(),
                res@ == pre + v@.subrange(cur as int, k as int),
            decreases cs - k,
        {
            res.push(v[k]);
            assert(res@ =~= pre + v@.subrange(cur as int, k + 1));
            k = k + 1;
        }
        let rv = chars_of(e.2);
        let ghost mid = res@;
        let mut t: usize = 0;
        while t < rv.len()
            invariant
                0 <= t <= rv@.len(),
                res@ == mid + rv@.take(t as int),
            decreases rv@.len() - t,
        {
            res.push(rv[t]);
            assert(res@ =~= mid + rv@.take(t + 1));
            t = t + 1;
        }
        assert(rv@.take(rv@.len() as int) =~= rv@);
        assert(order@.skip(j as int).drop_first() =~= order@.skip(j + 1));
        assert(order@.skip(j as int)[0] == order@[j as int]);
        assert(res@ + splice(c, edits@, order@.skip(j + 1), ce as int) =~= pre + (
        v@.subrange(cur as int, cs as int) + e.2@ + splice(c, edits@, order@.skip(j + 1), ce as int)));
        cur = ce;
        j = j + 1;
    }
    let ghost pre = res@;
    let mut k = cur;
    while k < v.len()
        invariant
            cur <= k <= v@.len(),
            res@ == pre + v@.subrange(cur as int, k as int),
        decreases v@.len() - k,
    {
        res.push(v[k]);
        assert(res@ =~= pre + v@.subrange(cur as int, k + 1));
        k = k + 1;
    }
    assert(res@ =~= pre + splice(c, edits@, order@.skip(j as int), cur as int));
    string_of(res.as_slice())
}

/// The pieces of `x` between its newlines, all of them (`str::split('\n')`).
pub open spec fn split_nl(x: Seq<char>) -> Seq<Seq<char>>
    decreases x.len(),
{
    let e = next_nl(x, 0);
    if e < x.len() {
        proof {
            lemma_next_nl(x, 0);
        }
        seq![x.take(e)] + split_nl(x.skip(e + 1))
    } else {
        seq![x]
    }
}

/// The lines of text that continues, after a newline, past `x`: the
/// pieces of `x`, then the lines after it.
proof fn lemma_lines_through(t: Seq<char>, p: int, x: Seq<char>)
    requires
        0 <= p,
        p + x.len() < t.len(),
        t.subrange(p, p + x.len()) == x,
        t[p + x.len()] == '\n',
    ensures
        lines_from(t, p) == split_nl(x).map_values(|l: Seq<char>| strip_cr(l)) + lines_from(
            t,
            p + x.len() + 1,
        ),
    decreases x.len(),
{
    lemma_next_nl(x, 0);
    lemma_next_nl(t, p);
    let e = next_nl(x, 0);
    let et = next_nl(t, p);
    assert forall|j: int| 0 <= j < e implies #[trigger] x[j] != '\n' && t[p + j] != '\n' by {
        assert(t[p + j] == x[j]);
    }
    if e < x.len() {
        assert(t[p + e] == x[e]);
        assert(et == p + e) by {
            if et < p + e {
                assert(t[et] == x[et - p]);
            }
        }
        assert(t.subrange(p, et) =~= x.take(e));
        let y = x.skip(e + 1);
        assert(t.subrange(p + e + 1, p + e + 1 + y.len()) =~= y);
        lemma_lines_through(t, p + e + 1, y);
        assert(split_nl(x) == seq![x.take(e)] + split_nl(y));
        assert(split_nl(x).map_values(|l: Seq<char>| strip_cr(l)) =~= seq![strip_cr(x.take(e))]
            + split_nl(y).map_values(|l: Seq<char>| strip_cr(l)));
    } else {
        assert forall|j: int| 0 <= j < x.len() implies #[trigger] x[j] != '\n' && t[p + j] != '\n' by {
            assert(t[p + j] == x[j]);
        }
        assert(et == p + x.len()) by {
            if et < p + x.len() {
                assert(t[et] == x[et - p]);
            }
        }
        assert(t.subrange(p, et) =~= x);
        assert(split_nl(x) == seq![x]);
        assert(split_nl(x).map_values(|l: Seq<char>| strip_cr(l)) =~= seq![strip_cr(x)]);
    }
}

proof fn lemma_join_cons(a: Seq<char>, rest: Seq<Seq<char>>)
    requires
        rest.len() > 0,
    ensures
        join_lines(seq![a] + rest) == a + seq!['\n'] + join_lines(rest),
    decreases rest.len(),
{
    let l = seq![a] + rest;
    if rest.len() == 1 {
        assert(l.drop_last() =~= seq![a]);
        assert(join_lines(seq![a]) == a);
        assert(join_lines(rest) == rest[0]);
        assert(l.last() == rest[0]);
        assert(join_lines(l) == join_lines(l.drop_last()) + seq!['\n'] + l.last());
    } else {
        lemma_join_cons(a, rest.drop_last());
        assert(l.drop_last() =~= seq![a] + rest.drop_last());
        assert(l.last() == rest.last());
        assert(join_lines(l) == join_lines(l.drop_last()) + seq!['\n'] + l.last());
        assert(join_lines(rest) == join_lines(rest.drop_last()) + seq!['\n'] + rest.last());
        assert(join_lines(l) =~= a + seq!['\n'] + join_lines(rest));
    }
}

/// Joining the pieces between newlines gives the text back.
proof fn lemma_join_split(x: Seq<char>)
    ensures
        join_lines(split_nl(x)) == x,
    decreases x.len(),
{
    lemma_next_nl(x, 0);
    let e = next_nl(x, 0);
    if e < x.len() {
        let y = x.skip(e + 1);
        lemma_join_split(y);
        assert(split_nl(y).len() > 0) by {
            lemma_split_nonempty(y);
        }
        lemma_join_cons(x.take(e), split_nl(y));
        assert(x =~= x.take(e) + seq!['\n'] + y);
    } else {
        assert(join_lines(seq![x]) == x);
    }
}

proof fn lemma_split_nonempty(x: Seq<char>)
    ensures
        split_nl(x).len() > 0,
    decreases x.len(),
{
    lemma_next_nl(x, 0);
}

/// The delimiter an edit command is written with.
pub open spec fn tai_delim() -> Seq<char> {
    seq!['T', 'A', 'I', 'D', 'E', 'L', 'I', 'M']
}

/// The line that opens a heredoc delimited by it.
pub open spec fn tai_opener() -> Seq<char> {
    seq!['<', '<', '\''] + tai_delim() + seq!['\'']
}

/// Whether a text survives being written as a heredoc body: none of its
/// lines ends in a carriage return (which reading lines drops) or trims to
/// the delimiter (which would close the heredoc early).
pub open spec fn heredoc_safe(x: Seq<char>) -> bool {
    forall|i: int|
        0 <= i < split_nl(x).len() ==> !(#[trigger] split_nl(x)[i].len() > 0
            && split_nl(x)[i].last() == '\r') && trim(split_nl(x)[i]) != tai_delim()
}

proof fn lemma_strip_safe(x: Seq<char>)
    requires
        heredoc_safe(x),
    ensures
        split_nl(x).map_values(|l: Seq<char>| strip_cr(l)) == split_nl(x),
{
    assert(split_nl(x).map_values(|l: Seq<char>| strip_cr(l)) =~= split_nl(x)) by {
        assert forall|i: int| 0 <= i < split_nl(x).len() implies strip_cr(
            #[trigger] split_nl(x)[i],
        ) == split_nl(x)[i] by {}
    }
}

proof fn lemma_no_nl_split(x: Seq<char>)
    requires
        forall|j: int| 0 <= j < x.len() ==> x[j] != '\n',
    ensures
        split_nl(x) == seq![x],
{
    lemma_next_nl(x, 0);
    if next_nl(x, 0) < x.len() {
        assert(x[next_nl(x, 0)] == '\n');
    }
}

proof fn lemma_close_at(ls: Seq<Seq<char>>, d: Seq<char>, j: int, k: int)
    requires
        0 <= j <= k < ls.len(),
        forall|i: int| j <= i < k ==> trim(#[trigger] ls[i]) != d,
        trim(ls[k]) == d,
    ensures
        close_line(ls, d, j) == k,
    decreases k - j,
{
    if j < k {
        lemma_close_at(ls, d, j + 1, k);
    }
}

proof fn lemma_trim_plain(x: Seq<char>)
    requires
        x.len() > 0,
        !is_ws(x[0]),
        !is_ws(x.last()),
    ensures
        trim(x) == x,
{
    assert(trim_start(x) == x);
}

proof fn lemma_opener_delim()
    ensures
        edit_delim(tai_opener()) == Some(tai_delim()),
        trim(tai_opener()) != tai_delim(),
        trim(tai_delim()) == tai_delim(),
{
    let o = tai_opener();
    lemma_trim_plain(o);
    lemma_trim_plain(tai_delim());
    assert(trim_start(o) == o);
    assert(o.take(2) =~= seq!['<', '<']);
    let a = o.skip(2);
    assert(trim_start(a) == a);
    assert(a[0] == '\'');
    assert forall|j: int| 1 <= j < 9 implies !crate::text::matches_at(a, seq!['\''], j) by {
        assert(a.subrange(j, j + 1)[0] == a[j]);
    }
    crate::text::lemma_find_from_skip(a, seq!['\''], 1, 9);
    assert(a.subrange(9, 10) =~= seq!['\'']);
    assert(find_from(a, seq!['\''], 9) == Some(9int));
    assert(a.subrange(1, 9) =~= tai_delim());
}

pub open spec fn written_lines(search: Seq<char>, replace: Seq<char>) -> Seq<Seq<char>> {
    seq![tai_opener()] + split_nl(search) + seq![tai_delim()] + seq![tai_opener()] + split_nl(
        replace,
    ) + seq![tai_delim()]
}

#[verifier::rlimit(50)]
proof fn lemma_written_lines(search: Seq<char>, replace: Seq<char>)
    requires
        heredoc_safe(search),
        heredoc_safe(replace),
    ensures
        crate::text::lines(serialize_edit_spec(search, replace)) == written_lines(search, replace),
{
    reveal_strlit("<<'TAIDELIM'\n");
    reveal_strlit("\nTAIDELIM\n<<'TAIDELIM'\n");
    reveal_strlit("\nTAIDELIM");
    let o = tai_opener();
    let c = tai_delim();
    let nl = seq!['\n'];
    let t = serialize_edit_spec(search, replace);
    assert("<<'TAIDELIM'\n"@ =~= o + nl);
    assert("\nTAIDELIM\n<<'TAIDELIM'\n"@ =~= nl + c + nl + o + nl);
    assert("\nTAIDELIM"@ =~= nl + c);
    assert(t =~= o + nl + search + nl + c + nl + o + nl + replace + nl + c);
    let p1: int = o.len() as int + 1;
    let p2: int = p1 + search.len() + 1;
    let p3: int = p2 + c.len() + 1;
    let p4: int = p3 + o.len() + 1;
    let p5: int = p4 + replace.len() + 1;
    assert(t.len() == p5 + c.len());
    assert(t.subrange(0, o.len() as int) =~= o);
    assert(t.subrange(p1, p1 + search.len()) =~= search);
    assert(t.subrange(p2, p2 + c.len()) =~= c);
    assert(t.subrange(p3, p3 + o.len()) =~= o);
    assert(t.subrange(p4, p4 + replace.len()) =~= replace);
    assert(t.subrange(p5, t.len() as int) =~= c);
    assert forall|j: int| 0 <= j < o.len() implies o[j] != '\n' by {}
    assert forall|j: int| 0 <= j < c.len() implies c[j] != '\n' by {}
    lemma_no_nl_split(o);
    lemma_no_nl_split(c);
    lemma_strip_safe(search);
    lemma_strip_safe(replace);
    lemma_lines_through(t, 0, o);
    lemma_lines_through(t, p1, search);
    lemma_lines_through(t, p2, c);
    lemma_lines_through(t, p3, o);
    lemma_lines_through(t, p4, replace);
    lemma_next_nl(t, p5);
    assert forall|j: int| p5 <= j < t.len() implies t[j] != '\n' by {
        assert(t[j] == c[j - p5]);
    }
    assert(next_nl(t, p5) == t.len()) by {
        if next_nl(t, p5) < t.len() {
            assert(t[next_nl(t, p5)] == '\n');
        }
    }
    assert(lines_from(t, p5) == seq![c]);
    assert(seq![o].map_values(|l: Seq<char>| strip_cr(l)) =~= seq![o]);
    assert(seq![c].map_values(|l: Seq<char>| strip_cr(l)) =~= seq![c]);
    assert(crate::text::lines(t) =~= written_lines(search, replace));
}

proof fn lemma_written_heredocs(search: Seq<char>, replace: Seq<char>)
    requires
        heredoc_safe(search),
        heredoc_safe(replace),
    ensures
        heredocs_from(written_lines(search, replace), 0) == Ok::<Seq<Seq<char>>, (int, Seq<char>)>(
            seq![search, replace],
        ),
        first_opener(written_lines(search, replace), 0) == 0,
{
    let o = tai_opener();
    let c = tai_delim();
    let ls = written_lines(search, replace);
    let ss = split_nl(search);
    let rs = split_nl(replace);
    lemma_opener_delim();
    let n1 = ss.len() as int;
    let n2 = rs.len() as int;
    assert(ls[0] == o);
    assert forall|i: int| 1 <= i < 1 + n1 implies trim(#[trigger] ls[i]) != c by {
        assert(ls[i] == ss[i - 1]);
    }
    assert(ls[1 + n1] == c);
    lemma_close_at(ls, c, 1, 1 + n1);
    assert(ls.subrange(1, 1 + n1) =~= ss);
    lemma_join_split(search);
    assert(ls[2 + n1] == o);
    assert forall|i: int| 3 + n1 <= i < 3 + n1 + n2 implies trim(#[trigger] ls[i]) != c by {
        assert(ls[i] == rs[i - 3 - n1]);
    }
    assert(ls[3 + n1 + n2] == c);
    lemma_close_at(ls, c, 3 + n1, 3 + n1 + n2);
    assert(ls.subrange(3 + n1, 3 + n1 + n2) =~= rs);
    lemma_join_split(replace);
    assert(ls.len() == 4 + n1 + n2);
    assert(heredocs_from(ls, 4 + n1 + n2) == Ok::<Seq<Seq<char>>, (int, Seq<char>)>(seq![]));
    assert(heredocs_from(ls, 2 + n1) == Ok::<Seq<Seq<char>>, (int, Seq<char>)>(
        seq![replace] + seq![],
    ));
    assert(heredocs_from(ls, 0) == Ok::<Seq<Seq<char>>, (int, Seq<char>)>(
        seq![search] + (seq![replace] + seq![]),
    ));
    assert(seq![search] + (seq![replace] + seq![]) =~= seq![search, replace]);
}

/// Reading back a written edit command gives the command, when its texts
/// survive being written as heredocs.
pub proof fn lemma_edit_roundtrip(search: Seq<char>, replace: Seq<char>)
    requires
        heredoc_safe(search),
        heredoc_safe(replace),
    ensures
        parse_edit_spec(serialize_edit_spec(search, replace)) == Ok::<(Seq<char>, Seq<char>), EditFault>((search, replace)),
{
    lemma_written_lines(search, replace);
    lemma_written_heredocs(search, replace);
    let ls = written_lines(search, replace);
    assert(refs_upto(ls, 0) == Seq::<Seq<char>>::empty());
}

} // verus!
