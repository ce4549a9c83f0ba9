//! The agent response protocol: prose and fenced blocks.
//!
//! A response is prose with fenced blocks in it. A block opens with three
//! backticks and a header `mode[.dashboard]:window` on the rest of that
//! line, and runs to the next three backticks, except that a heredoc in the
//! body (`<<'D'` ... a line `D`) may hold backticks of its own.

pub mod edit_command;
pub mod roundtrip;
pub mod overlaps;
pub mod shape;

use crate::agent::{AgentResponse, ResponseV};
use crate::response::edit_command::{
    EditFault, fault_message, parse_edit_command, parse_edit_spec, serialize_edit_command,
    serialize_edit_spec,
};
use crate::text::{
    chars_of, ends_with, find, find_char, find_from, is_alphanumeric, lemma_find_from,
    lemma_next_nl, lemma_trim_end_is_prefix, next_newline, next_nl,
    push_char, skip_ws, skip_ws_back, slice, starts_with, string_of, trim, trim_bounds, trim_end,
    trim_start, unicode_alphanumeric,
};
use crate::types::{
    BlockMode, BlockV, ModeV, ParsedBlock, blocks_view, mode_from_name, mode_name, opt_view,
    parse_block_mode, strings_view,
};
use vstd::prelude::*;

verus! {

/// The three backticks that open and close a block.
pub open spec fn fence() -> Seq<char> {
    seq!['`', '`', '`']
}

/// The suffix that pins a block to the dashboard.
pub open spec fn dashboard_suffix() -> Seq<char> {
    seq!['.', 'd', 'a', 's', 'h', 'b', 'o', 'a', 'r', 'd']
}

/// A header's mode part: a mode name, optionally followed by `.dashboard`.
pub open spec fn mode_spec_of(spec: Seq<char>) -> Option<(ModeV, bool)> {
    if ends_with(spec, dashboard_suffix()) {
        match mode_from_name(spec.take(spec.len() - dashboard_suffix().len())) {
            Some(m) => Some((m, true)),
            None => None,
        }
    } else {
        match mode_from_name(spec) {
            Some(m) => Some((m, false)),
            None => None,
        }
    }
}

/// A block header: `mode[.dashboard]:window`, or a bare mode with an empty
/// window; the window is everything after the first colon.
pub open spec fn header_of(h: Seq<char>) -> Option<(Seq<char>, ModeV, bool)> {
    match find_from(h, seq![':'], 0) {
        Some(p) => match mode_spec_of(h.take(p)) {
            Some((m, d)) => Some((h.skip(p + 1), m, d)),
            None => None,
        },
        None => match mode_spec_of(h) {
            Some((m, d)) => Some((Seq::empty(), m, d)),
            None => None,
        },
    }
}

/// A character that may stand in an unquoted heredoc delimiter.
pub open spec fn is_delim_char(c: char) -> bool {
    unicode_alphanumeric(c) || c == '_' || c == '-'
}

/// The end of the run of delimiter characters that starts at `i`.
pub open spec fn word_end(s: Seq<char>, i: int) -> int
    decreases s.len() - i,
{
    if i < 0 || i >= s.len() {
        s.len() as int
    } else if is_delim_char(s[i]) {
        word_end(s, i + 1)
    } else {
        i
    }
}

pub proof fn lemma_word_end(s: Seq<char>, i: int)
    requires
        0 <= i <= s.len(),
    ensures
        i <= word_end(s, i) <= s.len(),
    decreases s.len() - i,
{
    if i < s.len() && is_delim_char(s[i]) {
        lemma_word_end(s, i + 1);
    }
}

/// The delimiter a heredoc marker names, read from just after `<<` and
/// any whitespace: `'D'`, `"D"`, or a run of delimiter characters; with
/// the position just after it.
pub open spec fn delim_token(a: Seq<char>) -> Option<(Seq<char>, int)> {
    if a.len() > 0 && (a[0] == '\'' || a[0] == '"') {
        match find_from(a, seq![a[0]], 1) {
            Some(e) => Some((a.subrange(1, e), e + 1)),
            None => None,
        }
    } else {
        let w = word_end(a, 0);
        if w == 0 {
            None
        } else {
            Some((a.take(w), w))
        }
    }
}

/// The delimiter of the first heredoc marker (`<<`) in `c`.
pub open spec fn heredoc_delimiter(c: Seq<char>) -> Option<Seq<char>> {
    match find_from(c, seq!['<', '<'], 0) {
        Some(p) => match delim_token(trim_start(c.skip(p + 2))) {
            Some((d, _)) => Some(d),
            None => None,
        },
        None => None,
    }
}

/// `s` without its trailing newlines.
pub open spec fn trim_newlines_end(s: Seq<char>) -> Seq<char>
    decreases s.len(),
{
    if s.len() > 0 && s.last() == '\n' {
        trim_newlines_end(s.drop_last())
    } else {
        s
    }
}

/// A heredoc body cut at its closing delimiter: at the first line that
/// starts with it, else before a delimiter at the very end, else at the
/// end without trailing whitespace.
pub open spec fn heredoc_end(body: Seq<char>, d: Seq<char>) -> Seq<char> {
    match find_from(body, seq!['\n'] + d, 0) {
        Some(e) => body.take(e),
        None => if ends_with(trim_end(body), d) {
            trim_newlines_end(body.take(body.len() - d.len()))
        } else {
            trim_end(body)
        },
    }
}

/// A suffix of text without trailing whitespace has none either.
pub proof fn lemma_trimmed_suffix(raw: Seq<char>, i: int)
    requires
        trim_end(raw) == raw,
        0 <= i <= raw.len(),
    ensures
        trim_end(raw.skip(i)) == raw.skip(i),
{
    if i < raw.len() {
        assert(raw.skip(i).last() == raw.last());
        if crate::text::is_ws(raw.last()) {
            lemma_trim_end_is_prefix(raw.drop_last());
        }
    } else {
        assert(raw.skip(i) =~= Seq::<char>::empty());
    }
}

/// The body of a block whose content is one heredoc: the content must
/// start with the marker line; the body runs to the first line that starts
/// with the delimiter, else to a delimiter at the very end, else to the
/// end. For content without trailing whitespace.
pub open spec fn heredoc_content(raw: Seq<char>) -> Option<Seq<char>> {
    let t = trim_start(raw);
    if !starts_with(t, seq!['<', '<']) {
        None
    } else {
        let after = trim_start(t.skip(2));
        match delim_token(after) {
            None => None,
            Some((d, k)) => {
                let ad = after.skip(k);
                if !(ad.len() > 0 && ad[0] == '\n') {
                    None
                } else {
                    Some(heredoc_end(ad.skip(1), d))
                }
            },
        }
    }
}

/// A block header as read from a response.
#[derive(Debug)]
pub struct Header {
    pub window: String,
    pub mode: BlockMode,
    pub dashboard: bool,
}

fn mode_from_chars(v: &[char]) -> (r: Option<BlockMode>)
    ensures
        match r {
            Some(m) => mode_from_name(v@) == Some(m@),
            None => mode_from_name(v@) is None,
        },
{
    let s = string_of(v);
    match parse_block_mode(s.as_str()) {
        Ok(m) => Some(m),
        Err(_) => None,
    }
}

fn mode_spec_from_chars(v: &[char]) -> (r: Option<(BlockMode, bool)>)
    ensures
        match r {
            Some((m, d)) => mode_spec_of(v@) == Some((m@, d)),
            None => mode_spec_of(v@) is None,
        },
{
    let suffix = vec!['.', 'd', 'a', 's', 'h', 'b', 'o', 'a', 'r', 'd'];
    assert(suffix@ =~= dashboard_suffix());
    let n = v.len();
    if n >= 10 && crate::text::matches_here(v, suffix.as_slice(), n - 10) {
        assert(v@.skip(n - 10) =~= v@.subrange(n - 10, n as int));
        let base = slice(v, 0, n - 10);
        assert(base@ =~= v@.take(n - 10));
        match mode_from_chars(base.as_slice()) {
            Some(m) => Some((m, true)),
            None => None,
        }
    } else {
        assert(!ends_with(v@, dashboard_suffix())) by {
            if ends_with(v@, dashboard_suffix()) {
                assert(v@.skip(n - 10) =~= v@.subrange(n - 10, n as int));
            }
        }
        match mode_from_chars(v) {
            Some(m) => Some((m, false)),
            None => None,
        }
    }
}

fn header_from_chars(h: &[char]) -> (r: Option<Header>)
    ensures
        match r {
            Some(hd) => header_of(h@) == Some((hd.window@, hd.mode@, hd.dashboard)),
            None => header_of(h@) is None,
        },
{
    match find_char(h, ':', 0) {
        Some(p) => {
            proof {
                lemma_find_from(h@, seq![':'], 0);
                assert(crate::text::matches_at(h@, seq![':'], p as int));
            }
            assert(p < h.len());
            let head = slice(h, 0, p);
            assert(head@ =~= h@.take(p as int));
            match mode_spec_from_chars(head.as_slice()) {
                Some((mode, dashboard)) => {
                    let w = slice(h, p + 1, h.len());
                    assert(w@ =~= h@.skip(p + 1));
                    Some(Header { window: string_of(w.as_slice()), mode, dashboard })
                },
                None => None,
            }
        },
        None => match mode_spec_from_chars(h) {
            Some((mode, dashboard)) => {
                let w = String::new();
                assert(w@ =~= Seq::<char>::empty());
                Some(Header { window: w, mode, dashboard })
            },
            None => None,
        },
    }
}

/// Reads a block header (the trimmed text after the opening backticks).
pub fn parse_block_header(header: &str) -> (r: Option<Header>)
    ensures
        match r {
            Some(hd) => header_of(header@) == Some((hd.window@, hd.mode@, hd.dashboard)),
            None => header_of(header@) is None,
        },
{
    let v = chars_of(header);
    header_from_chars(v.as_slice())
}

fn delim_char(c: char) -> (b: bool)
    ensures
        b == is_delim_char(c),
{
    is_alphanumeric(c) || c == '_' || c == '-'
}

fn word_end_at(v: &[char], i: usize) -> (k: usize)
    requires
        i <= v@.len(),
    ensures
        k as int == word_end(v@, i as int),
        i <= k <= v@.len(),
{
    let mut k = i;
    while k < v.len() && delim_char(v[k])
        invariant
            i <= k <= v@.len(),
            word_end(v@, i as int) == word_end(v@, k as int),
        decreases v@.len() - k,
    {
        k = k + 1;
    }
    k
}

fn read_delim_token(a: &[char]) -> (r: Option<(Vec<char>, usize)>)
    ensures
        match r {
            Some((d, k)) => delim_token(a@) == Some((d@, k as int)) && k <= a@.len(),
            None => delim_token(a@) is None,
        },
{
    if a.len() > 0 && (a[0] == '\'' || a[0] == '"') {
        let q = a[0];
        match find_char(a, q, 1) {
            Some(e) => {
                proof {
                    lemma_find_from(a@, seq![q], 1);
                }
                Some((slice(a, 1, e), e + 1))
            },
            None => None,
        }
    } else {
        let w = word_end_at(a, 0);
        if w == 0 {
            None
        } else {
            let d = slice(a, 0, w);
            assert(d@ =~= a@.take(w as int));
            Some((d, w))
        }
    }
}

/// The delimiter of the first heredoc marker in `v[from..to]`.
fn delimiter_in(v: &[char], from: usize, to: usize) -> (r: Option<Vec<char>>)
    requires
        from <= to <= v@.len(),
    ensures
        match r {
            Some(d) => heredoc_delimiter(v@.subrange(from as int, to as int)) == Some(d@),
            None => heredoc_delimiter(v@.subrange(from as int, to as int)) is None,
        },
{
    let c = slice(v, from, to);
    let lt = vec!['<', '<'];
    assert(lt@ =~= seq!['<', '<']);
    match find(c.as_slice(), lt.as_slice(), 0) {
        Some(p) => {
            proof {
                lemma_find_from(c@, seq!['<', '<'], 0);
            }
            let n = c.len();
            let a = skip_ws(c.as_slice(), p + 2, n);
            assert(c@.skip(p + 2) =~= c@.subrange(p + 2, n as int));
            let after = slice(c.as_slice(), a, n);
            match read_delim_token(after.as_slice()) {
                Some((d, _)) => Some(d),
                None => None,
            }
        },
        None => None,
    }
}

/// The delimiter of the first heredoc marker (`<<`) in the text, if one
/// follows it.
pub fn extract_heredoc_delimiter(content: &str) -> (r: Option<String>)
    ensures
        match r {
            Some(d) => heredoc_delimiter(content@) == Some(d@),
            None => heredoc_delimiter(content@) is None,
        },
{
    let v = chars_of(content);
    assert(v@.subrange(0, v@.len() as int) =~= v@);
    match delimiter_in(v.as_slice(), 0, v.len()) {
        Some(d) => Some(string_of(d.as_slice())),
        None => None,
    }
}

/// Drops trailing newlines.
fn trim_newlines_end_of(v: &[char], to: usize) -> (k: usize)
    requires
        to <= v@.len(),
    ensures
        k <= to,
        trim_newlines_end(v@.take(to as int)) == v@.take(k as int),
{
    let mut k = to;
    while k > 0 && v[k - 1] == '\n'
        invariant
            k <= to <= v@.len(),
            trim_newlines_end(v@.take(to as int)) == trim_newlines_end(v@.take(k as int)),
        decreases k,
    {
        assert(v@.take(k as int).drop_last() =~= v@.take(k - 1));
        k = k - 1;
    }
    k
}

/// The body of a block whose content is one heredoc.
fn heredoc_body(raw: &[char]) -> (r: Option<Vec<char>>)
    requires
        trim_end(raw@) == raw@,
    ensures
        match r {
            Some(b) => heredoc_content(raw@) == Some(b@),
            None => heredoc_content(raw@) is None,
        },
{
    let n = raw.len();
    let t = skip_ws(raw, 0, n);
    assert(raw@.subrange(0, n as int) =~= raw@);
    let ghost tv = raw@.subrange(t as int, n as int);
    if !(n - t >= 2 && raw[t] == '<' && raw[t + 1] == '<') {
        assert(!starts_with(tv, seq!['<', '<'])) by {
            if starts_with(tv, seq!['<', '<']) {
                assert(tv.take(2)[0] == tv[0]);
                assert(tv.take(2)[1] == tv[1]);
            }
        }
        return None;
    }
    assert(tv.take(2) =~= seq!['<', '<']);
    let a = skip_ws(raw, t + 2, n);
    assert(tv.skip(2) =~= raw@.subrange(t + 2, n as int));
    let after = slice(raw, a, n);
    let ghost av = after@;
    match read_delim_token(after.as_slice()) {
        None => None,
        Some((d, k)) => {
            let m = after.len();
            assert(av.skip(k as int) =~= after@.subrange(k as int, m as int));
            if !(k < m && after[k] == '\n') {
                return None;
            }
            let body = slice(after.as_slice(), k + 1, m);
            assert(av.skip(k as int).skip(1) =~= body@);
            assert(body@ =~= raw@.skip(a + k + 1));
            proof {
                lemma_trimmed_suffix(raw@, a + k + 1);
            }
            Some(heredoc_end_of(body.as_slice(), d.as_slice()))
        },
    }
}

/// `'\n'` followed by `d`.
fn newline_then(d: &[char]) -> (p: Vec<char>)
    ensures
        p@ == seq!['\n'] + d@,
{
    let mut p: Vec<char> = Vec::new();
    p.push('\n');
    let mut i: usize = 0;
    while i < d.len()
        invariant
            0 <= i <= d@.len(),
            p@ == seq!['\n'] + d@.take(i as int),
        decreases d@.len() - i,
    {
        p.push(d[i]);
        assert(p@ =~= seq!['\n'] + d@.take(i + 1));
        i = i + 1;
    }
    assert(d@.take(d@.len() as int) =~= d@);
    p
}

fn heredoc_end_of(body: &[char], d: &[char]) -> (r: Vec<char>)
    requires
        trim_end(body@) == body@,
    ensures
        r@ == heredoc_end(body@, d@),
{
    let pat = newline_then(d);
    match find(body, pat.as_slice(), 0) {
        Some(e) => {
            proof {
                lemma_find_from(body@, pat@, 0);
            }
            let r = slice(body, 0, e);
            assert(r@ =~= body@.take(e as int));
            r
        },
        None => {
            let bl = body.len();
            let dl = d.len();
            if dl <= bl && crate::text::matches_here(body, d, bl - dl) {
                assert(body@.skip(bl - dl) =~= body@.subrange(bl - dl, bl as int));
                let kk = trim_newlines_end_of(body, bl - dl);
                let r = slice(body, 0, kk);
                assert(r@ =~= body@.take(kk as int));
                r
            } else {
                assert(!ends_with(body@, d@)) by {
                    if ends_with(body@, d@) {
                        assert(body@.skip(bl - dl) =~= body@.subrange(bl - dl, bl as int));
                    }
                }
                let r = slice(body, 0, bl);
                assert(r@ =~= body@);
                r
            }
        },
    }
}

/// Where the text after the line at `pos` starts: just past its newline,
/// or the end.
pub open spec fn line_after(s: Seq<char>, pos: int) -> int {
    let e = next_nl(s, pos);
    if e < s.len() {
        e + 1
    } else {
        s.len() as int
    }
}

pub proof fn lemma_line_after(s: Seq<char>, pos: int)
    requires
        0 <= pos < s.len(),
    ensures
        pos < line_after(s, pos) <= s.len(),
{
    lemma_next_nl(s, pos);
}

/// Reads a block body from `pos` with `acc` read so far, inside the
/// heredoc that `delim` closes if any; gives where the text after the
/// block starts, and the body. A line that trims to the delimiter closes
/// the heredoc; outside one, a marker before the next backticks opens one
/// at the end of its line; the backticks close the block, taking a
/// newline right after them.
pub open spec fn body_from(s: Seq<char>, pos: int, delim: Option<Seq<char>>, acc: Seq<char>) -> (
    int,
    Seq<char>,
)
    decreases s.len() - pos,
{
    if pos < 0 || pos >= s.len() {
        (s.len() as int, acc)
    } else {
        proof {
            lemma_line_after(s, pos);
        }
        let e = next_nl(s, pos);
        let next = line_after(s, pos);
        match delim {
            Some(d) => {
                let line = s.subrange(pos, e);
                if trim(line) == d {
                    body_from(s, next, None, acc)
                } else {
                    body_from(s, next, Some(d), acc + line + seq!['\n'])
                }
            },
            None => match find_from(s, fence(), pos) {
                Some(cp) => {
                    let before = s.subrange(pos, cp);
                    match heredoc_delimiter(before) {
                        Some(d) => body_from(s, next, Some(d), acc + s.subrange(pos, e) + seq!['\n']),
                        None => {
                            let ce = cp + 3;
                            (if ce < s.len() && s[ce] == '\n' {
                                ce + 1
                            } else {
                                ce
                            }, acc + before)
                        },
                    }
                },
                None => (s.len() as int, acc + s.skip(pos)),
            },
        }
    }
}

pub proof fn lemma_body_from(s: Seq<char>, pos: int, delim: Option<Seq<char>>, acc: Seq<char>)
    requires
        0 <= pos <= s.len(),
    ensures
        pos <= body_from(s, pos, delim, acc).0 <= s.len(),
    decreases s.len() - pos,
{
    if pos < s.len() {
        lemma_line_after(s, pos);
        let next = line_after(s, pos);
        match delim {
            Some(d) => {
                lemma_body_from(s, next, None, acc);
                lemma_body_from(s, next, Some(d), acc + s.subrange(pos, next_nl(s, pos)) + seq!['\n']);
            },
            None => {
                lemma_find_from(s, fence(), pos);
                match find_from(s, fence(), pos) {
                    Some(cp) => {
                        match heredoc_delimiter(s.subrange(pos, cp)) {
                            Some(d) => {
                                lemma_body_from(
                                    s,
                                    next,
                                    Some(d),
                                    acc + s.subrange(pos, next_nl(s, pos)) + seq!['\n'],
                                );
                            },
                            None => {},
                        }
                    },
                    None => {},
                }
            },
        }
    }
}

/// One piece of a response, as plain values.
pub enum SegV {
    Block { window: Seq<char>, mode: ModeV, dashboard: bool, content: Seq<char> },
    Prose(Seq<char>),
}

/// The header that follows the opening backticks at `from`: the rest of
/// the line, trimmed; with where the body starts.
pub open spec fn header_at(s: Seq<char>, from: int) -> (int, Option<(Seq<char>, ModeV, bool)>) {
    let nl = next_nl(s, from);
    (if nl < s.len() {
        nl + 1
    } else {
        s.len() as int
    }, header_of(trim(s.subrange(from, nl))))
}

/// A prose piece for the trimmed text, when anything is left of it.
pub open spec fn prose_piece(t: Seq<char>) -> Seq<SegV> {
    if trim(t).len() > 0 {
        seq![SegV::Prose(trim(t))]
    } else {
        seq![]
    }
}

/// The block piece for a header and a body: none for an unknown header, or
/// for a block other than a task with an empty window.
pub open spec fn block_piece(hdr: Option<(Seq<char>, ModeV, bool)>, content: Seq<char>) -> Seq<
    SegV,
> {
    match hdr {
        Some((w, m, d)) => if w.len() > 0 || m is Task {
            seq![SegV::Block { window: w, mode: m, dashboard: d, content: trim_end(content) }]
        } else {
            seq![]
        },
        None => seq![],
    }
}

/// The pieces of `s[pos..]`: prose between blocks, trimmed and dropped when
/// empty; each block with a known mode and a window (or a task block),
/// its body with trailing whitespace dropped. A block with an unknown
/// header is skipped.
pub open spec fn segments_from(s: Seq<char>, pos: int) -> Seq<SegV>
    decreases s.len() - pos,
{
    if pos < 0 || pos >= s.len() {
        seq![]
    } else {
        match find_from(s, fence(), pos) {
            None => prose_piece(s.skip(pos)),
            Some(bs) => {
                proof {
                    lemma_find_from(s, fence(), pos);
                    lemma_next_nl(s, bs + 3);
                    lemma_body_from(s, header_at(s, bs + 3).0, None, seq![]);
                }
                let (he, hdr) = header_at(s, bs + 3);
                let (ce, content) = body_from(s, he, None, seq![]);
                prose_piece(s.subrange(pos, bs)) + block_piece(hdr, content) + segments_from(s, ce)
            },
        }
    }
}

/// The pieces of a response.
pub open spec fn segments_of(s: Seq<char>) -> Seq<SegV> {
    segments_from(s, 0)
}

/// One piece of a response: prose, or a block.
#[derive(Debug)]
pub enum ParsedSegment {
    Block { window: String, mode: BlockMode, dashboard: bool, content: String },
    Prose(String),
}

impl View for ParsedSegment {
    type V = SegV;

    open spec fn view(&self) -> SegV {
        match self {
            ParsedSegment::Block { window, mode, dashboard, content } => SegV::Block {
                window: window@,
                mode: mode@,
                dashboard: *dashboard,
                content: content@,
            },
            ParsedSegment::Prose(t) => SegV::Prose(t@),
        }
    }
}

pub open spec fn segments_view(v: Seq<ParsedSegment>) -> Seq<SegV> {
    v.map_values(|p: ParsedSegment| p@)
}

/// Appends `v[from..to]` to `acc`.
fn extend_chars(acc: &mut Vec<char>, v: &[char], from: usize, to: usize)
    requires
        from <= to <= v@.len(),
    ensures
        final(acc)@ == old(acc)@ + v@.subrange(from as int, to as int),
{
    let ghost start = acc@;
    let mut i = from;
    while i < to
        invariant
            from <= i <= to <= v@.len(),
            acc@ == start + v@.subrange(from as int, i as int),
        decreases to - i,
    {
        acc.push(v[i]);
        assert(acc@ =~= start + v@.subrange(from as int, i + 1));
        i = i + 1;
    }
}

/// Reads a block body from `from` (see `body_from`).
fn block_body(v: &[char], from: usize) -> (r: (usize, Vec<char>))
    requires
        from <= v@.len(),
    ensures
        (r.0 as int, r.1@) == body_from(v@, from as int, None, seq![]),
        from <= r.0 <= v@.len(),
{
    let n = v.len();
    let mut pos = from;
    let mut content: Vec<char> = Vec::new();
    let mut delim: Option<Vec<char>> = None;
    let ghost target = body_from(v@, from as int, None, seq![]);
    proof {
        lemma_body_from(v@, from as int, None, seq![]);
    }
    while pos < n
        invariant
            from <= pos <= n == v@.len(),
            target == body_from(v@, from as int, None, seq![]),
            target == body_from(v@, pos as int, opt_chars(delim), content@),
            from <= target.0 <= n,
        decreases n - pos,
    {
        proof {
            lemma_line_after(v@, pos as int);
        }
        let e = next_newline(v, pos);
        let next = if e < n { e + 1 } else { n };
        match delim {
            Some(d) => {
                let (a, b) = trim_bounds(v, pos, e);
                let t = slice(v, a, b);
                if crate::text::chars_eq(t.as_slice(), d.as_slice()) {
                    delim = None;
                } else {
                    let ghost c0 = content@;
                    extend_chars(&mut content, v, pos, e);
                    content.push('\n');
                    assert(content@ =~= c0 + v@.subrange(pos as int, e as int) + seq!['\n']);
                    delim = Some(d);
                }
                pos = next;
            },
            None => {
                let fence_v = vec!['`', '`', '`'];
                assert(fence_v@ =~= fence());
                match find(v, fence_v.as_slice(), pos) {
                    Some(cp) => {
                        proof {
                            lemma_find_from(v@, fence(), pos as int);
                        }
                        match delimiter_in(v, pos, cp) {
                            Some(d) => {
                                let ghost c0 = content@;
                                extend_chars(&mut content, v, pos, e);
                                content.push('\n');
                                assert(content@ =~= c0 + v@.subrange(pos as int, e as int) + seq!['\n']);
                                delim = Some(d);
                                pos = next;
                            },
                            None => {
                                extend_chars(&mut content, v, pos, cp);
                                let ce = cp + 3;
                                let after = if ce < n && v[ce] == '\n' {
                                    ce + 1
                                } else {
                                    ce
                                };
                                return (after, content);
                            },
                        }
                    },
                    None => {
                        extend_chars(&mut content, v, pos, n);
                        assert(v@.skip(pos as int) =~= v@.subrange(pos as int, n as int));
                        return (n, content);
                    },
                }
            },
        }
    }
    (n, content)
}

pub open spec fn opt_chars(o: Option<Vec<char>>) -> Option<Seq<char>> {
    match o {
        Some(v) => Some(v@),
        None => None,
    }
}

fn prose_segment(v: &[char], from: usize, to: usize, out: &mut Vec<ParsedSegment>)
    requires
        from <= to <= v@.len(),
    ensures
        segments_view(final(out)@) == segments_view(old(out)@) + prose_piece(
            v@.subrange(from as int, to as int),
        ),
{
    let (a, b) = trim_bounds(v, from, to);
    let ghost pre = segments_view(out@);
    if a < b {
        let t = slice(v, a, b);
        out.push(ParsedSegment::Prose(string_of(t.as_slice())));
        assert(segments_view(out@) =~= pre + prose_piece(v@.subrange(from as int, to as int)));
    } else {
        assert(prose_piece(v@.subrange(from as int, to as int)) =~= Seq::<SegV>::empty());
        assert(segments_view(out@) =~= pre + prose_piece(v@.subrange(from as int, to as int)));
    }
}

/// Splits a response into prose and blocks.
pub fn parse_response_segments(input: &str) -> (r: Vec<ParsedSegment>)
    ensures
        segments_view(r@) == segments_of(input@),
{
    let v = chars_of(input);
    let n = v.len();
    let mut out: Vec<ParsedSegment> = Vec::new();
    let mut pos: usize = 0;
    let fence_v = vec!['`', '`', '`'];
    assert(fence_v@ =~= fence());
    while pos < n
        invariant
            pos <= n == v@.len(),
            v@ == input@,
            fence_v@ == fence(),
            segments_of(input@) == segments_view(out@) + segments_from(v@, pos as int),
        decreases n - pos,
    {
        match find(v.as_slice(), fence_v.as_slice(), pos) {
            None => {
                let ghost pre = segments_view(out@);
                prose_segment(v.as_slice(), pos, n, &mut out);
                assert(v@.skip(pos as int) =~= v@.subrange(pos as int, n as int));
                assert(segments_from(v@, n as int) =~= Seq::<SegV>::empty());
                assert(segments_view(out@) + segments_from(v@, n as int) =~= pre + segments_from(v@, pos as int));
                pos = n;
            },
            Some(bs) => {
                proof {
                    lemma_find_from(v@, fence(), pos as int);
                    lemma_next_nl(v@, bs + 3);
                }
                let ghost pre = segments_view(out@);
                prose_segment(v.as_slice(), pos, bs, &mut out);
                let hs = bs + 3;
                let nl = next_newline(v.as_slice(), hs);
                let he = if nl < n { nl + 1 } else { n };
                let (a, b) = trim_bounds(v.as_slice(), hs, nl);
                let hv = slice(v.as_slice(), a, b);
                let hdr = header_from_chars(hv.as_slice());
                let (ce, content) = block_body(v.as_slice(), he);
                let ghost mid = segments_view(out@);
                assert(v@.subrange(hs as int, nl as int) =~= v@.subrange(hs as int, nl as int));
                assert(header_at(v@, hs as int) == (he as int, header_of(hv@)));
                match hdr {
                    Some(h) => {
                        let is_task = match h.mode {
                            BlockMode::Task => true,
                            _ => false,
                        };
                        if h.window.as_str().unicode_len() > 0 || is_task {
                            let m = content.len();
                            let k = skip_ws_back(content.as_slice(), 0, m);
                            assert(content@.subrange(0, m as int) =~= content@);
                            let body = slice(content.as_slice(), 0, k);
                            out.push(
                                ParsedSegment::Block {
                                    window: h.window,
                                    mode: h.mode,
                                    dashboard: h.dashboard,
                                    content: string_of(body.as_slice()),
                                },
                            );
                            assert(segments_view(out@) =~= mid + block_piece(header_of(hv@), content@));
                        } else {
                            assert(segments_view(out@) =~= mid + block_piece(header_of(hv@), content@));
                        }
                    },
                    None => {
                        assert(segments_view(out@) =~= mid + block_piece(header_of(hv@), content@));
                    },
                }
                assert(segments_from(v@, pos as int) == prose_piece(v@.subrange(pos as int, bs as int))
                    + block_piece(header_of(hv@), content@) + segments_from(v@, ce as int));
                assert(segments_view(out@) + segments_from(v@, ce as int) =~= pre + segments_from(
                    v@,
                    pos as int,
                ));
                pos = ce;
            },
        }
    }
    assert(segments_view(out@) + segments_from(v@, pos as int) =~= segments_view(out@));
    out
}

/// `trim_end` is idempotent.
pub proof fn lemma_trim_end_idem(s: Seq<char>)
    ensures
        trim_end(trim_end(s)) == trim_end(s),
    decreases s.len(),
{
    if s.len() > 0 && crate::text::is_ws(s.last()) {
        lemma_trim_end_idem(s.drop_last());
    }
}

/// Every block piece's body is free of trailing whitespace.
pub proof fn lemma_segment_bodies_trimmed(s: Seq<char>, pos: int)
    requires
        0 <= pos <= s.len(),
    ensures
        forall|i: int|
            0 <= i < segments_from(s, pos).len() ==> (#[trigger] segments_from(s, pos)[i] matches SegV::Block { content, .. } ==> trim_end(content) == content),
    decreases s.len() - pos,
{
    if pos < s.len() {
        match find_from(s, fence(), pos) {
            None => {},
            Some(bs) => {
                lemma_find_from(s, fence(), pos);
                lemma_next_nl(s, bs + 3);
                let (he, hdr) = header_at(s, bs + 3);
                lemma_body_from(s, he, None, seq![]);
                let (ce, content) = body_from(s, he, None, seq![]);
                lemma_segment_bodies_trimmed(s, ce);
                lemma_trim_end_idem(content);
                let a = prose_piece(s.subrange(pos, bs));
                let b = block_piece(hdr, content);
                let c = segments_from(s, ce);
                assert(segments_from(s, pos) == a + b + c);
                assert forall|i: int| 0 <= i < segments_from(s, pos).len() implies (#[trigger] segments_from(s, pos)[i] matches SegV::Block { content, .. } ==> trim_end(content) == content) by {
                    if i < a.len() {
                        assert(segments_from(s, pos)[i] == a[i]);
                    } else if i < a.len() + b.len() {
                        assert(segments_from(s, pos)[i] == b[i - a.len()]);
                    } else {
                        assert(segments_from(s, pos)[i] == c[i - a.len() - b.len()]);
                    }
                }
            },
        }
    }
}

/// What the response parser has gathered after some pieces: the blocks,
/// the prose waiting for the next block, the task, whether it is complete,
/// and the heredoc violations.
pub struct FoldV {
    pub blocks: Seq<BlockV>,
    pub prose: Option<Seq<char>>,
    pub task: Seq<char>,
    pub complete: bool,
    pub violations: Seq<Seq<char>>,
}

pub open spec fn fold_start() -> FoldV {
    FoldV {
        blocks: seq![],
        prose: None,
        task: seq![],
        complete: false,
        violations: seq![],
    }
}

/// The complaint for a write or edit block whose body is not a heredoc.
pub open spec fn heredoc_violation(m: ModeV, w: Seq<char>) -> Seq<char> {
    mode_name(m) + seq![':'] + w + " — content must use heredoc (<<'TAIDELIM' ... TAIDELIM)"@
}

/// Whether a heredoc marker occurs in `c`.
pub open spec fn has_marker(c: Seq<char>) -> bool {
    find_from(c, seq!['<', '<'], 0) is Some
}

/// A block with the waiting prose attached.
pub open spec fn with_prose(
    st: FoldV,
    w: Seq<char>,
    m: ModeV,
    d: bool,
    c: Seq<char>,
) -> FoldV {
    FoldV {
        blocks: st.blocks.push(BlockV { window: w, mode: m, content: c, prose: st.prose, dashboard: d }),
        prose: None,
        ..st
    }
}

/// One piece taken in: prose waits (joined by a newline to prose before
/// it) for the next block; a task block sets the task, and completes it
/// when its window is `complete`; a write block's body is unwrapped from
/// its heredoc; a write or edit block without one is flagged.
pub open spec fn fold_step(st: FoldV, seg: SegV) -> FoldV {
    match seg {
        SegV::Prose(t) => FoldV {
            prose: Some(
                match st.prose {
                    Some(p) => p + seq!['\n'] + t,
                    None => t,
                },
            ),
            ..st
        },
        SegV::Block { window: w, mode: m, dashboard: d, content: c } => {
            if m is Task {
                FoldV { task: c, complete: st.complete || w == "complete"@, prose: None, ..st }
            } else if m is Edit {
                let n = with_prose(st, w, m, d, c);
                if has_marker(c) {
                    n
                } else {
                    FoldV { violations: st.violations.push(heredoc_violation(m, w)), ..n }
                }
            } else if m is Write {
                match heredoc_content(c) {
                    Some(x) => with_prose(st, w, m, d, x),
                    None => FoldV {
                        violations: st.violations.push(heredoc_violation(m, w)),
                        ..with_prose(st, w, m, d, c)
                    },
                }
            } else {
                with_prose(st, w, m, d, c)
            }
        },
    }
}

/// The state after the first `k` pieces.
pub open spec fn fold_upto(segs: Seq<SegV>, k: int) -> FoldV
    decreases k,
{
    if k <= 0 || k > segs.len() {
        fold_start()
    } else {
        fold_step(fold_upto(segs, k - 1), segs[k - 1])
    }
}

/// An edit block not yet carrying a command gets the one its content
/// parses to, when it parses.
pub open spec fn resolve_block(b: BlockV) -> BlockV {
    if b.mode == ModeV::Edit(None) {
        match parse_edit_spec(b.content) {
            Ok(c) => BlockV { mode: ModeV::Edit(Some(c)), ..b },
            Err(_) => b,
        }
    } else {
        b
    }
}

/// The complaint for an edit block whose command does not parse.
pub open spec fn edit_error_message(w: Seq<char>, f: EditFault) -> Seq<char> {
    "edit:"@ + w + " — "@ + fault_message(f)
}

/// The complaints for the edit blocks among the first `k` blocks whose
/// command does not parse, in order.
pub open spec fn edit_errors_upto(bs: Seq<BlockV>, k: int) -> Seq<Seq<char>>
    decreases k,
{
    if k <= 0 || k > bs.len() {
        seq![]
    } else {
        let prev = edit_errors_upto(bs, k - 1);
        let b = bs[k - 1];
        if b.mode == ModeV::Edit(None) {
            match parse_edit_spec(b.content) {
                Err(f) => prev.push(edit_error_message(b.window, f)),
                Ok(_) => prev,
            }
        } else {
            prev
        }
    }
}

/// What `parse_response` reads from a response text.
pub open spec fn response_of(s: Seq<char>) -> ResponseV {
    let segs = segments_of(s);
    let f = fold_upto(segs, segs.len() as int);
    ResponseV {
        reasoning: seq![],
        segments: f.blocks.map_values(|b: BlockV| resolve_block(b)),
        task: f.task,
        complete: f.complete,
        heredoc_violations: f.violations,
        edit_parse_errors: edit_errors_upto(f.blocks, f.blocks.len() as int),
    }
}

fn violation_text(mode: &BlockMode, window: &String) -> (s: String)
    ensures
        s@ == heredoc_violation(mode@, window@),
{
    let mut s = mode.to_string();
    s.append(":");
    s.append(window.as_str());
    s.append(" — content must use heredoc (<<'TAIDELIM' ... TAIDELIM)");
    proof {
        reveal_strlit(":");
    }
    assert(s@ =~= heredoc_violation(mode@, window@));
    s
}

fn copy_opt(o: &Option<String>) -> (r: Option<String>)
    ensures
        r == *o,
{
    match o {
        Some(p) => Some(p.clone()),
        None => None,
    }
}

/// Takes in one piece (see `fold_step`).
fn take_segment(
    seg: &ParsedSegment,
    blocks: &mut Vec<ParsedBlock>,
    prose: &mut Option<String>,
    task: &mut String,
    complete: &mut bool,
    violations: &mut Vec<String>,
)
    requires
        seg@ matches SegV::Block { content, .. } ==> trim_end(content) == content,
    ensures
        (FoldV {
            blocks: blocks_view(final(blocks)@),
            prose: opt_view(*final(prose)),
            task: final(task)@,
            complete: *final(complete),
            violations: strings_view(final(violations)@),
        }) == fold_step(
            FoldV {
                blocks: blocks_view(old(blocks)@),
                prose: opt_view(*old(prose)),
                task: old(task)@,
                complete: *old(complete),
                violations: strings_view(old(violations)@),
            },
            seg@,
        ),
{
    let ghost b0 = blocks_view(blocks@);
    let ghost v0 = strings_view(violations@);
    let ghost st0 = FoldV {
        blocks: blocks_view(blocks@),
        prose: opt_view(*prose),
        task: task@,
        complete: *complete,
        violations: strings_view(violations@),
    };
    match seg {
        ParsedSegment::Prose(t) => {
            let np = match prose {
                Some(p) => {
                    let mut q = p.clone();
                    push_char(&mut q, '\n');
                    q.append(t.as_str());
                    assert(q@ =~= p@ + seq!['\n'] + t@);
                    q
                },
                None => t.clone(),
            };
            *prose = Some(np);
            assert(FoldV {
                blocks: blocks_view(blocks@),
                prose: opt_view(*prose),
                task: task@,
                complete: *complete,
                violations: strings_view(violations@),
            } == fold_step(st0, seg@));
        },
        ParsedSegment::Block { window, mode, dashboard, content } => {
            let is_task = match mode {
                BlockMode::Task => true,
                _ => false,
            };
            if is_task {
                if crate::types::str_eq(window.as_str(), "complete") {
                    *complete = true;
                }
                *task = content.clone();
                *prose = None;
                return ;
            }
            let is_edit = match mode {
                BlockMode::Edit(_) => true,
                _ => false,
            };
            let is_write = match mode {
                BlockMode::Write => true,
                _ => false,
            };
            let mut body = content.clone();
            let mut flagged = false;
            if is_edit {
                let cv = chars_of(content.as_str());
                let lt = vec!['<', '<'];
                assert(lt@ =~= seq!['<', '<']);
                if find(cv.as_slice(), lt.as_slice(), 0).is_none() {
                    flagged = true;
                }
            } else if is_write {
                let cv = chars_of(content.as_str());
                match heredoc_body(cv.as_slice()) {
                    Some(x) => {
                        body = string_of(x.as_slice());
                    },
                    None => {
                        flagged = true;
                    },
                }
            }
            if flagged {
                violations.push(violation_text(mode, window));
            }
            let ghost n = with_prose(st0, window@, mode@, *dashboard, body@);
            let b = ParsedBlock {
                window: window.clone(),
                mode: mode.duplicate(),
                content: body,
                prose: copy_opt(prose),
                dashboard: *dashboard,
            };
            blocks.push(b);
            *prose = None;
            assert(blocks_view(blocks@) =~= b0.push(b@));
            if flagged {
                assert(strings_view(violations@) =~= v0.push(heredoc_violation(mode@, window@)));
                assert(fold_step(st0, seg@) == FoldV { violations: v0.push(heredoc_violation(mode@, window@)), ..n });
            } else {
                assert(strings_view(violations@) =~= v0);
                assert(fold_step(st0, seg@) == n);
            }
            assert(FoldV {
                blocks: blocks_view(blocks@),
                prose: opt_view(*prose),
                task: task@,
                complete: *complete,
                violations: strings_view(violations@),
            } == fold_step(st0, seg@));
        },
    }
}

fn resolve_blocks(blocks: &Vec<ParsedBlock>) -> (r: (Vec<ParsedBlock>, Vec<String>))
    ensures
        blocks_view(r.0@) == blocks_view(blocks@).map_values(|b: BlockV| resolve_block(b)),
        strings_view(r.1@) == edit_errors_upto(blocks_view(blocks@), blocks@.len() as int),
{
    let ghost bv = blocks_view(blocks@);
    let mut out: Vec<ParsedBlock> = Vec::new();
    let mut errs: Vec<String> = Vec::new();
    let mut i: usize = 0;
    while i < blocks.len()
        invariant
            0 <= i <= blocks@.len(),
            bv == blocks_view(blocks@),
            blocks_view(out@) == bv.take(i as int).map_values(|b: BlockV| resolve_block(b)),
            strings_view(errs@) == edit_errors_upto(bv, i as int),
        decreases blocks@.len() - i,
    {
        let b = &blocks[i];
        let ghost o0 = blocks_view(out@);
        let ghost e0 = strings_view(errs@);
        assert(bv[i as int] == b@);
        let unparsed = match &b.mode {
            BlockMode::Edit(None) => true,
            _ => false,
        };
        if unparsed {
            match parse_edit_command(b.content.as_str()) {
                Ok(cmd) => {
                    out.push(
                        ParsedBlock {
                            window: b.window.clone(),
                            mode: BlockMode::Edit(Some(cmd)),
                            content: b.content.clone(),
                            prose: copy_opt(&b.prose),
                            dashboard: b.dashboard,
                        },
                    );
                },
                Err(e) => {
                    let mut m = String::from_str("edit:");
                    m.append(b.window.as_str());
                    m.append(" — ");
                    m.append(e.to_string().as_str());
                    errs.push(m);
                    out.push(b.duplicate());
                    assert(strings_view(errs@) =~= e0.push(edit_error_message(b.window@, e@)));
                },
            }
        } else {
            out.push(b.duplicate());
        }
        assert(bv.take(i + 1).map_values(|b: BlockV| resolve_block(b)) =~= bv.take(
            i as int,
        ).map_values(|b: BlockV| resolve_block(b)).push(resolve_block(bv[i as int])));
        assert(blocks_view(out@) =~= o0.push(resolve_block(bv[i as int])));
        assert(strings_view(errs@) =~= edit_errors_upto(bv, i + 1));
        i = i + 1;
    }
    assert(bv.take(blocks@.len() as int) =~= bv);
    (out, errs)
}

/// Reads an agent response: its blocks (prose attached to the block after
/// it, edit commands parsed), its task, whether it completes the task,
/// and what it got wrong.
pub fn parse_response(input: &str) -> (r: AgentResponse)
    ensures
        r@ == response_of(input@),
{
    let segs = parse_response_segments(input);
    let ghost sv = segments_view(segs@);
    proof {
        lemma_segment_bodies_trimmed(input@, 0);
    }
    let mut blocks: Vec<ParsedBlock> = Vec::new();
    let mut prose: Option<String> = None;
    let mut task = String::new();
    let mut complete = false;
    let mut violations: Vec<String> = Vec::new();
    let mut i: usize = 0;
    assert(blocks_view(blocks@) =~= Seq::<BlockV>::empty());
    assert(strings_view(violations@) =~= Seq::<Seq<char>>::empty());
    assert(task@ =~= Seq::<char>::empty());
    while i < segs.len()
        invariant
            0 <= i <= segs@.len(),
            sv == segments_view(segs@),
            sv == segments_of(input@),
            forall|j: int|
                0 <= j < sv.len() ==> (#[trigger] sv[j] matches SegV::Block { content, .. } ==> trim_end(content) == content),
            (FoldV {
                blocks: blocks_view(blocks@),
                prose: opt_view(prose),
                task: task@,
                complete: complete,
                violations: strings_view(violations@),
            }) == fold_upto(sv, i as int),
        decreases segs@.len() - i,
    {
        assert(sv[i as int] == segs[i as int]@);
        take_segment(&segs[i], &mut blocks, &mut prose, &mut task, &mut complete, &mut violations);
        i = i + 1;
    }
    let (resolved, errs) = resolve_blocks(&blocks);
    AgentResponse {
        reasoning: String::new(),
        segments: resolved,
        task,
        complete,
        heredoc_violations: violations,
        edit_parse_errors: errs,
    }
}

/// A block header's mode part as written: the mode's name, with
/// `.dashboard` for a pinned block.
pub open spec fn mode_prefix(m: ModeV, dashboard: bool) -> Seq<char> {
    if dashboard {
        mode_name(m) + dashboard_suffix()
    } else {
        mode_name(m)
    }
}

/// The fenced part of a non-task block after its header.
pub open spec fn block_tail(b: BlockV) -> Seq<char> {
    match b.mode {
        ModeV::Watch | ModeV::Exec | ModeV::Ask | ModeV::Delegate => "\n"@ + b.content + "\n```\n"@,
        ModeV::Write => "\n<<'TAIDELIM'\n"@ + b.content + "\nTAIDELIM\n```\n"@,
        ModeV::Edit(c) => "\n<<'TAIDELIM'\n"@ + match c {
            Some((se, re)) => serialize_edit_spec(se, re),
            None => b.content,
        } + "\nTAIDELIM\n```\n"@,
        _ => "\n```\n"@,
    }
}

/// The fenced part of a block.
pub open spec fn block_fence(b: BlockV) -> Seq<char> {
    if b.mode is Task {
        "```task\n"@ + b.content + "\n```\n"@
    } else {
        "```"@ + mode_prefix(b.mode, b.dashboard) + ":"@ + b.window + block_tail(b)
    }
}

/// How a block is written back into a response: its prose on the line
/// before it, then the fenced block; write and edit bodies as heredocs, an
/// edit with its parsed command written out; close and file blocks empty;
/// a task block without a window.
pub open spec fn block_text(b: BlockV) -> Seq<char> {
    match b.prose {
        Some(p) => p + seq!['\n'] + block_fence(b),
        None => block_fence(b),
    }
}

/// The blocks written one after the other.
pub open spec fn blocks_text(bs: Seq<BlockV>) -> Seq<char>
    decreases bs.len(),
{
    if bs.len() == 0 {
        seq![]
    } else {
        blocks_text(bs.drop_last()) + block_text(bs.last())
    }
}

fn write_tail(b: &ParsedBlock, text: &mut String)
    ensures
        final(text)@ == old(text)@ + block_tail(b@),
{
    let ghost t0 = text@;
    match &b.mode {
        BlockMode::Watch | BlockMode::Exec | BlockMode::Ask | BlockMode::Delegate => {
            text.append("\n");
            text.append(b.content.as_str());
            text.append("\n```\n");
        },
        BlockMode::Write => {
            text.append("\n<<'TAIDELIM'\n");
            text.append(b.content.as_str());
            text.append("\nTAIDELIM\n```\n");
        },
        BlockMode::Edit(c) => {
            text.append("\n<<'TAIDELIM'\n");
            match c {
                Some(cmd) => {
                    let e = serialize_edit_command(cmd);
                    text.append(e.as_str());
                },
                None => {
                    text.append(b.content.as_str());
                },
            }
            text.append("\nTAIDELIM\n```\n");
        },
        _ => {
            text.append("\n```\n");
        },
    }
    assert(text@ =~= t0 + block_tail(b@));
}

fn write_fence(b: &ParsedBlock, text: &mut String)
    ensures
        final(text)@ == old(text)@ + block_fence(b@),
{
    let ghost t0 = text@;
    let is_task = match b.mode {
        BlockMode::Task => true,
        _ => false,
    };
    if is_task {
        text.append("```task\n");
        text.append(b.content.as_str());
        text.append("\n```\n");
        assert(text@ =~= t0 + block_fence(b@));
        return ;
    }
    text.append("```");
    text.append(b.mode.name());
    if b.dashboard {
        text.append(".dashboard");
        proof {
            reveal_strlit(".dashboard");
        }
        assert(".dashboard"@ =~= dashboard_suffix());
    }
    text.append(":");
    let ghost t1 = text@;
    assert(t1 =~= t0 + "```"@ + mode_prefix(b@.mode, b@.dashboard) + ":"@);
    text.append(b.window.as_str());
    write_tail(b, text);
    assert(text@ =~= t0 + block_fence(b@));
}

fn write_block(b: &ParsedBlock, text: &mut String)
    ensures
        final(text)@ == old(text)@ + block_text(b@),
{
    let ghost t0 = text@;
    match &b.prose {
        Some(p) => {
            text.append(p.as_str());
            push_char(text, '\n');
        },
        None => {},
    }
    write_fence(b, text);
    assert(text@ =~= t0 + block_text(b@));
}

/// Writes blocks back as response text (see `block_text`).
pub fn serialize_blocks(segments: &[ParsedBlock]) -> (text: String)
    ensures
        text@ == blocks_text(blocks_view(segments@)),
{
    let mut text = String::new();
    let ghost bv = blocks_view(segments@);
    let mut i: usize = 0;
    while i < segments.len()
        invariant
            0 <= i <= segments@.len(),
            bv == blocks_view(segments@),
            text@ == blocks_text(bv.take(i as int)),
        decreases segments@.len() - i,
    {
        write_block(&segments[i], &mut text);
        assert(bv.take(i + 1).drop_last() =~= bv.take(i as int));
        i = i + 1;
    }
    assert(bv.take(segments@.len() as int) =~= bv);
    text
}

} // verus!
