//! Writing blocks and reading them back.

use crate::agent::ResponseV;
use crate::response::{
    block_fence, block_piece, block_tail, block_text, blocks_text, body_from, dashboard_suffix,
    edit_errors_upto, fence, fold_start, fold_step, fold_upto, header_at, header_of,
    heredoc_delimiter, mode_prefix, prose_piece, resolve_block, response_of, segments_from,
    segments_of, FoldV, SegV,
};
use crate::text::{
    ends_with, find_from, is_ws, lemma_find_from, lemma_find_from_skip, lemma_next_nl,
    matches_at, next_nl, trim, trim_end, trim_start,
};
use crate::response::edit_command::{
    heredoc_safe, lemma_edit_roundtrip, parse_edit_spec, serialize_edit_spec, tai_delim,
    tai_opener, EditFault,
};
use crate::response::{delim_token, heredoc_content, heredoc_end};
use crate::types::{lemma_mode_name_roundtrip, mode_name, BlockV, ModeV};
use vstd::prelude::*;

verus! {

/// Whether `p` occurs in `x`.
pub open spec fn occurs(x: Seq<char>, p: Seq<char>) -> bool {
    find_from(x, p, 0) is Some
}

/// A block that reads back as written: a window of one line without
/// trailing whitespace; a body without trailing whitespace that is, by
/// mode, free of backticks fences and heredoc markers (watch, exec, ask,
/// delegate), empty (file, close), or not empty and free of the heredoc
/// delimiter (write); prose, if any, trimmed, not empty and free of
/// fences.
pub open spec fn plain_block(b: BlockV) -> bool {
    &&& b.window.len() > 0
    &&& !occurs(b.window, seq!['\n'])
    &&& trim_end(b.window) == b.window
    &&& trim_end(b.content) == b.content
    &&& match b.mode {
        ModeV::Watch | ModeV::Exec | ModeV::Ask | ModeV::Delegate => !occurs(b.content, fence())
            && !occurs(b.content, seq!['<', '<']),
        ModeV::File | ModeV::Close => b.content.len() == 0,
        ModeV::Write => b.content.len() > 0 && !occurs(b.content, tai_delim()),
        _ => false,
    }
    &&& match b.prose {
        Some(p) => p.len() > 0 && trim(p) == p && !occurs(p, fence()),
        None => true,
    }
}

proof fn lemma_mode_name_shape(m: ModeV)
    ensures
        mode_name(m).len() > 0,
        mode_name(m).len() < 10,
        !is_ws(mode_name(m)[0]),
        forall|j: int| 0 <= j < mode_name(m).len() ==> #[trigger] mode_name(m)[j] != ':',
        forall|j: int| 0 <= j < mode_name(m).len() ==> #[trigger] mode_name(m)[j] != '\n',
{
    reveal_strlit("watch");
    reveal_strlit("close");
    reveal_strlit("exec");
    reveal_strlit("ask");
    reveal_strlit("file");
    reveal_strlit("edit");
    reveal_strlit("write");
    reveal_strlit("task");
    reveal_strlit("delegate");
}

/// The header of a written block reads back as its window, mode and pin.
proof fn lemma_header_back(m: ModeV, d: bool, w: Seq<char>)
    requires
        !(m is Edit),
        w.len() > 0,
        trim_end(w) == w,
    ensures
        header_of(trim(mode_prefix(m, d) + seq![':'] + w)) == Some((w, m, d)),
{
    let pre = mode_prefix(m, d);
    let h = pre + seq![':'] + w;
    lemma_mode_name_shape(m);
    lemma_mode_name_roundtrip(m);
    let sfx = dashboard_suffix();
    assert forall|j: int| 0 <= j < pre.len() implies #[trigger] pre[j] != ':' by {
        if j >= mode_name(m).len() {
            assert(pre[j] == sfx[j - mode_name(m).len()]);
        }
    }
    assert(h[0] == pre[0]);
    assert(!is_ws(h[0]));
    assert(h.last() == w.last());
    assert(!is_ws(w.last())) by {
        if is_ws(w.last()) {
            crate::text::lemma_trim_end_is_prefix(w.drop_last());
        }
    }
    assert(trim_start(h) == h);
    assert(trim_end(h) == h);
    assert(trim(h) == h);
    assert forall|j: int| 0 <= j < pre.len() implies !matches_at(h, seq![':'], j) by {
        assert(h.subrange(j, j + 1)[0] == h[j]);
        assert(h[j] == pre[j]);
    }
    lemma_find_from_skip(h, seq![':'], 0, pre.len() as int);
    assert(h.subrange(pre.len() as int, pre.len() as int + 1) =~= seq![':']);
    assert(find_from(h, seq![':'], 0) == Some(pre.len() as int));
    assert(h.take(pre.len() as int) =~= pre);
    assert(h.skip(pre.len() as int + 1) =~= w);
    if d {
        assert(pre.skip(pre.len() - sfx.len()) =~= sfx);
        assert(pre.take(pre.len() - sfx.len()) =~= mode_name(m));
    } else {
        assert(!ends_with(pre, sfx));
    }
}

/// The characters of `x` stand in `s` from `pos` on.
proof fn lemma_sub(s: Seq<char>, pos: int, x: Seq<char>, i: int, j: int)
    requires
        0 <= pos,
        pos + x.len() <= s.len(),
        s.subrange(pos, pos + x.len()) == x,
        0 <= i <= j <= x.len(),
    ensures
        s.subrange(pos + i, pos + j) == x.subrange(i, j),
{
    assert forall|k: int| 0 <= k < j - i implies #[trigger] s.subrange(pos + i, pos + j)[k]
        == x.subrange(i, j)[k] by {
        assert(s.subrange(pos, pos + x.len())[i + k] == s[pos + i + k]);
    }
    assert(s.subrange(pos + i, pos + j) =~= x.subrange(i, j));
}

/// A character that does not occur is nowhere.
proof fn lemma_no_char(x: Seq<char>, c: char)
    requires
        !occurs(x, seq![c]),
    ensures
        forall|j: int| 0 <= j < x.len() ==> x[j] != c,
{
    lemma_find_from(x, seq![c], 0);
    assert forall|j: int| 0 <= j < x.len() implies x[j] != c by {
        if x[j] == c {
            assert(x.subrange(j, j + 1) =~= seq![c]);
            assert(matches_at(x, seq![c], j));
        }
    }
}

/// What does not occur in `x` does not occur in `s` where `x` stands.
proof fn lemma_no_match_inside(s: Seq<char>, pos: int, x: Seq<char>, p: Seq<char>)
    requires
        0 <= pos,
        pos + x.len() <= s.len(),
        s.subrange(pos, pos + x.len()) == x,
        !occurs(x, p),
    ensures
        forall|j: int| pos <= j && j + p.len() <= pos + x.len() ==> !matches_at(s, p, j),
{
    lemma_find_from(x, p, 0);
    assert forall|j: int| pos <= j && j + p.len() <= pos + x.len() implies !matches_at(
        s,
        p,
        j,
    ) by {
        if matches_at(s, p, j) {
            lemma_sub(s, pos, x, j - pos, j - pos + p.len());
            assert(matches_at(x, p, j - pos));
        }
    }
}

/// A pattern that does not end in a newline gains no occurrence from a
/// newline put after the text.
proof fn lemma_occurs_newline(x: Seq<char>, p: Seq<char>)
    requires
        !occurs(x, p),
        p.len() > 0,
        p.last() != '\n',
    ensures
        !occurs(x + seq!['\n'], p),
{
    let y = x + seq!['\n'];
    lemma_find_from(x, p, 0);
    lemma_find_from(y, p, 0);
    assert forall|j: int| 0 <= j implies !matches_at(y, p, j) by {
        if matches_at(y, p, j) {
            if j + p.len() <= x.len() {
                assert(y.subrange(j, j + p.len()) =~= x.subrange(j, j + p.len()));
                assert(matches_at(x, p, j));
            } else {
                assert(y.subrange(j, j + p.len())[p.len() - 1] == y[x.len() as int]);
            }
        }
    }
}

/// The ends of a trimmed, non-empty text are not whitespace.
proof fn lemma_trimmed_ends(p: Seq<char>)
    requires
        p.len() > 0,
        trim(p) == p,
    ensures
        !is_ws(p[0]),
        !is_ws(p.last()),
{
    if is_ws(p[0]) {
        crate::text::lemma_trim_start_is_suffix(p.drop_first());
        crate::text::lemma_trim_end_is_prefix(trim_start(p));
    }
    assert(trim_start(p) == p);
    if is_ws(p.last()) {
        crate::text::lemma_trim_end_is_prefix(p.drop_last());
    }
}

/// The prose line written before a block.
spec fn prose_part(b: BlockV) -> Seq<char> {
    match b.prose {
        Some(p) => p + seq!['\n'],
        None => seq![],
    }
}

/// What stands between a block's header line and its closing backticks.
spec fn body_region(b: BlockV) -> Seq<char> {
    if b.mode is File || b.mode is Close {
        seq![]
    } else if b.mode is Write {
        tai_opener() + seq!['\n'] + b.content + seq!['\n'] + tai_delim() + seq!['\n']
    } else {
        b.content + seq!['\n']
    }
}

/// What the parser reads as a block's body.
spec fn read_body(b: BlockV) -> Seq<char> {
    if b.mode is Write {
        tai_opener() + seq!['\n'] + b.content + seq!['\n']
    } else {
        body_region(b)
    }
}

/// A block's body as the parser hands it on, before a write body is
/// taken out of its heredoc.
spec fn raw_content(b: BlockV) -> Seq<char> {
    if b.mode is Write {
        tai_opener() + seq!['\n'] + b.content
    } else {
        b.content
    }
}

/// The pieces a written block reads back as.
spec fn block_segments(b: BlockV) -> Seq<SegV> {
    let blk = seq![
        SegV::Block {
            window: b.window,
            mode: b.mode,
            dashboard: b.dashboard,
            content: raw_content(b),
        },
    ];
    match b.prose {
        Some(p) => seq![SegV::Prose(p)] + blk,
        None => blk,
    }
}

proof fn lemma_block_text_shape(b: BlockV)
    requires
        plain_block(b),
    ensures
        block_text(b) == prose_part(b) + fence() + header_text(b) + seq!['\n'] + body_region(b)
            + fence() + seq!['\n'],
{
    reveal_strlit("```");
    reveal_strlit(":");
    reveal_strlit("\n```\n");
    reveal_strlit("\n");
    reveal_strlit("\n<<'TAIDELIM'\n");
    reveal_strlit("\nTAIDELIM\n```\n");
    assert(block_tail(b) =~= seq!['\n'] + body_region(b) + fence() + seq!['\n']);
    assert(block_fence(b) =~= fence() + mode_prefix(b.mode, b.dashboard) + seq![':'] + b.window
        + seq!['\n'] + body_region(b) + fence() + seq!['\n']);
    assert(block_text(b) =~= prose_part(b) + fence() + header_text(b) + seq!['\n'] + body_region(b)
        + fence() + seq!['\n']);
}

/// The first backticks at or after `pos` are the ones after `pp`, when
/// `pp` is empty or a line without backticks.
proof fn lemma_fence_found(s: Seq<char>, pos: int, pp: Seq<char>)
    requires
        0 <= pos,
        pos + pp.len() + 3 <= s.len(),
        s.subrange(pos, pos + pp.len()) == pp,
        s.subrange(pos + pp.len(), pos + pp.len() + 3) == fence(),
        pp.len() == 0 || (pp.last() == '\n' && !occurs(pp.drop_last(), fence())),
    ensures
        find_from(s, fence(), pos) == Some(pos + pp.len()),
{
    let f = pos + pp.len();
    if pp.len() > 0 {
        let x = pp.drop_last();
        lemma_sub(s, pos, pp, 0, x.len() as int);
        assert(pp.subrange(0, x.len() as int) =~= x);
        lemma_no_match_inside(s, pos, x, fence());
        assert(s[f - 1] == '\n') by {
            assert(s.subrange(pos, pos + pp.len())[pp.len() - 1] == s[f - 1]);
        }
        assert forall|j: int| pos <= j < f implies !matches_at(s, fence(), j) by {
            if matches_at(s, fence(), j) && j + 3 > pos + x.len() {
                assert(s.subrange(j, j + 3)[f - 1 - j] == s[f - 1]);
            }
        }
    }
    lemma_find_from_skip(s, fence(), pos, f);
}

/// The header line written after the opening backticks reads back.
proof fn lemma_header_found(s: Seq<char>, hs: int, m: ModeV, d: bool, w: Seq<char>)
    requires
        !(m is Edit),
        w.len() > 0,
        trim_end(w) == w,
        !occurs(w, seq!['\n']),
        0 <= hs,
        hs + (mode_prefix(m, d) + seq![':'] + w).len() < s.len(),
        s.subrange(hs, hs + (mode_prefix(m, d) + seq![':'] + w).len()) == mode_prefix(m, d)
            + seq![':'] + w,
        s[hs + (mode_prefix(m, d) + seq![':'] + w).len()] == '\n',
    ensures
        header_at(s, hs) == (hs + (mode_prefix(m, d) + seq![':'] + w).len() + 1, Some((w, m, d))),
{
    let pre = mode_prefix(m, d);
    let h = pre + seq![':'] + w;
    let e = hs + h.len();
    lemma_mode_name_shape(m);
    lemma_no_char(w, '\n');
    lemma_next_nl(s, hs);
    assert forall|j: int| 0 <= j < h.len() implies #[trigger] h[j] != '\n' by {
        if j < mode_name(m).len() {
        } else if j < pre.len() {
            assert(pre[j] == dashboard_suffix()[j - mode_name(m).len()]);
        } else if j > pre.len() {
            assert(h[j] == w[j - pre.len() - 1]);
        }
    }
    assert forall|j: int| hs <= j < e implies s[j] != '\n' by {
        assert(s.subrange(hs, e)[j - hs] == s[j]);
    }
    assert(next_nl(s, hs) == e);
    lemma_header_back(m, d, w);
}

/// The body written after the header line reads back, up to and past the
/// closing backticks and their newline.
proof fn lemma_body_found(s: Seq<char>, he: int, b: BlockV)
    requires
        plain_block(b),
        0 <= he,
        he + body_region(b).len() + 4 <= s.len(),
        s.subrange(he, he + body_region(b).len()) == body_region(b),
        s.subrange(he + body_region(b).len(), he + body_region(b).len() + 3) == fence(),
        s[he + body_region(b).len() + 3] == '\n',
    ensures
        body_from(s, he, None, seq![]) == (he + body_region(b).len() + 4, read_body(b)),
        trim_end(read_body(b)) == raw_content(b),
{
    if b.mode is Write {
        lemma_write_body_found(s, he, b);
    } else {
        let body = body_region(b);
        if body.len() > 0 {
            assert(body.drop_last() =~= b.content);
            lemma_occurs_newline(b.content, seq!['<', '<']);
            assert(body.drop_last() =~= b.content);
        } else {
            assert(b.content =~= body);
        }
        lemma_fence_found(s, he, body);
        assert(heredoc_delimiter(body) is None);
        assert(seq![] + body =~= body);
    }
}

/// A write body reads back inside its heredoc, up to its closing line.
proof fn lemma_write_body_found(s: Seq<char>, he: int, b: BlockV)
    requires
        plain_block(b),
        b.mode is Write,
        0 <= he,
        he + body_region(b).len() + 4 <= s.len(),
        s.subrange(he, he + body_region(b).len()) == body_region(b),
        s.subrange(he + body_region(b).len(), he + body_region(b).len() + 3) == fence(),
        s[he + body_region(b).len() + 3] == '\n',
    ensures
        body_from(s, he, None, seq![]) == (he + body_region(b).len() + 4, read_body(b)),
        trim_end(read_body(b)) == raw_content(b),
{
    let c = b.content;
    let d = tai_delim();
    let body = body_region(b);
    let n = c.len() as int;
    let cl = he + body.len();
    assert(body.len() == n + 23);
    assert(body.subrange(0, 13) =~= tai_opener() + seq!['\n']);
    assert(body.subrange(13, 13 + n) =~= c);
    assert(body[13 + n] == '\n');
    assert(body.subrange(14 + n, 23 + n) =~= d + seq!['\n']);
    lemma_sub(s, he, body, 0, 13);
    lemma_sub(s, he, body, 13, 13 + n);
    lemma_sub(s, he, body, 14 + n, 23 + n);
    assert(s[he + 13 + n] == '\n') by {
        assert(s.subrange(he, cl)[13 + n] == s[he + 13 + n]);
    }
    assert(matches_at(s, fence(), cl));
    lemma_find_from(s, fence(), he + 13);
    lemma_write_open(s, he);
    let acc0 = tai_opener() + seq!['\n'];
    lemma_heredoc_lines(s, he + 13, c, d, acc0);
    let p2 = he + 14 + n;
    assert(s.subrange(p2, p2 + 13) =~= d + seq!['\n'] + fence() + seq!['\n']) by {
        assert forall|j: int| 0 <= j < 13 implies #[trigger] s.subrange(p2, p2 + 13)[j] == (d
            + seq!['\n'] + fence() + seq!['\n'])[j] by {
            if j < 9 {
                assert(s.subrange(p2, p2 + 9)[j] == s[p2 + j]);
            } else if j < 12 {
                assert(s.subrange(cl, cl + 3)[j - 9] == s[p2 + j]);
            }
        }
    }
    lemma_write_close(s, p2, acc0 + c + seq!['\n']);
    assert(!is_ws(c.last())) by {
        if is_ws(c.last()) {
            crate::text::lemma_trim_end_is_prefix(c.drop_last());
        }
    }
    let rb = read_body(b);
    let raw = raw_content(b);
    assert(rb.drop_last() =~= raw);
    assert(raw.last() == c.last());
    assert(rb.last() == '\n');
    assert(trim_end(raw) == raw);
    assert(trim_end(rb) == trim_end(rb.drop_last()));
}

/// The prose written before a block reads back as one prose piece.
proof fn lemma_prose_found(b: BlockV)
    requires
        plain_block(b),
    ensures
        prose_piece(prose_part(b)) == match b.prose {
            Some(p) => seq![SegV::Prose(p)],
            None => Seq::<SegV>::empty(),
        },
{
    match b.prose {
        Some(p) => {
            lemma_trimmed_ends(p);
            let x = p + seq!['\n'];
            assert(x[0] == p[0]);
            assert(trim_start(x) == x);
            assert(x.drop_last() =~= p);
            assert(trim_end(p) == p);
            assert(trim(x) == p);
        },
        None => {
            assert(trim_start(Seq::<char>::empty()) == Seq::<char>::empty());
        },
    }
}

/// A block's header line as written, without the backticks.
spec fn header_text(b: BlockV) -> Seq<char> {
    mode_prefix(b.mode, b.dashboard) + seq![':'] + b.window
}

/// The parts of a fenced text, found by position.
proof fn lemma_fenced_parts(pp: Seq<char>, h: Seq<char>, body: Seq<char>)
    ensures
        ({
            let t = pp + fence() + h + seq!['\n'] + body + fence() + seq!['\n'];
            let fp = pp.len() as int;
            let nl = fp + 3 + h.len();
            let cp = nl + 1 + body.len();
            &&& t.len() == cp + 4
            &&& t.subrange(0, fp) == pp
            &&& t.subrange(fp, fp + 3) == fence()
            &&& t.subrange(fp + 3, nl) == h
            &&& t[nl] == '\n'
            &&& t.subrange(nl + 1, cp) == body
            &&& t.subrange(cp, cp + 3) == fence()
            &&& t[cp + 3] == '\n'
        }),
{
    let t = pp + fence() + h + seq!['\n'] + body + fence() + seq!['\n'];
    let fp = pp.len() as int;
    let nl = fp + 3 + h.len();
    let cp = nl + 1 + body.len();
    assert(t.subrange(0, fp) =~= pp);
    assert(t.subrange(fp, fp + 3) =~= fence());
    assert(t.subrange(fp + 3, nl) =~= h);
    assert(t.subrange(nl + 1, cp) =~= body);
    assert(t.subrange(cp, cp + 3) =~= fence());
}

/// Where the parts of a fenced text written at `pos` stand in `s`.
proof fn lemma_fenced_chars(s: Seq<char>, pos: int, pp: Seq<char>, h: Seq<char>, body: Seq<char>)
    requires
        0 <= pos,
        pos + (pp + fence() + h + seq!['\n'] + body + fence() + seq!['\n']).len() <= s.len(),
        s.subrange(pos, pos + (pp + fence() + h + seq!['\n'] + body + fence() + seq!['\n']).len())
            == pp + fence() + h + seq!['\n'] + body + fence() + seq!['\n'],
    ensures
        ({
            let fp = pos + pp.len();
            let nl = fp + 3 + h.len();
            let cp = nl + 1 + body.len();
            &&& s.subrange(pos, fp) == pp
            &&& s.subrange(fp, fp + 3) == fence()
            &&& s.subrange(fp + 3, nl) == h
            &&& s[nl] == '\n'
            &&& s.subrange(nl + 1, cp) == body
            &&& s.subrange(cp, cp + 3) == fence()
            &&& s[cp + 3] == '\n'
        }),
{
    let t = pp + fence() + h + seq!['\n'] + body + fence() + seq!['\n'];
    lemma_fenced_parts(pp, h, body);
    let fp = pp.len() as int;
    let nl = fp + 3 + h.len();
    let cp = nl + 1 + body.len();
    lemma_sub(s, pos, t, 0, fp);
    lemma_sub(s, pos, t, fp, fp + 3);
    lemma_sub(s, pos, t, fp + 3, nl);
    lemma_sub(s, pos, t, nl + 1, cp);
    lemma_sub(s, pos, t, cp, cp + 3);
    assert(s.subrange(pos, pos + t.len())[nl] == s[pos + nl]);
    assert(s.subrange(pos, pos + t.len())[cp + 3] == s[pos + cp + 3]);
}

/// Where the parts of a block written at `pos` are read again.
proof fn lemma_block_layout(s: Seq<char>, pos: int, b: BlockV)
    requires
        plain_block(b),
        0 <= pos,
        pos + block_text(b).len() <= s.len(),
        s.subrange(pos, pos + block_text(b).len()) == block_text(b),
    ensures
        s.subrange(pos, pos + prose_part(b).len()) == prose_part(b),
        find_from(s, fence(), pos) == Some(pos + prose_part(b).len()),
        header_at(s, pos + prose_part(b).len() + 3) == (
            pos + prose_part(b).len() + header_text(b).len() + 4,
            Some((b.window, b.mode, b.dashboard)),
        ),
        body_from(s, pos + prose_part(b).len() + header_text(b).len() + 4, None, seq![]) == (
            pos + block_text(b).len(),
            read_body(b),
        ),
        trim_end(read_body(b)) == raw_content(b),
{
    lemma_block_text_shape(b);
    let pp = prose_part(b);
    lemma_fenced_parts(pp, header_text(b), body_region(b));
    lemma_fenced_chars(s, pos, pp, header_text(b), body_region(b));
    if pp.len() > 0 {
        assert(pp.drop_last() =~= b.prose->0);
    }
    lemma_fence_found(s, pos, pp);
    lemma_header_found(s, pos + pp.len() + 3, b.mode, b.dashboard, b.window);
    lemma_body_found(s, pos + pp.len() + header_text(b).len() + 4, b);
}

/// A block written at `pos` reads back as its pieces, and reading goes on
/// just after it.
proof fn lemma_block_segments(s: Seq<char>, pos: int, b: BlockV)
    requires
        plain_block(b),
        0 <= pos,
        pos + block_text(b).len() <= s.len(),
        s.subrange(pos, pos + block_text(b).len()) == block_text(b),
    ensures
        segments_from(s, pos) == block_segments(b) + segments_from(s, pos + block_text(b).len()),
{
    lemma_block_layout(s, pos, b);
    lemma_prose_found(b);
    let fp = prose_part(b).len() as int;
    let hdr = Some((b.window, b.mode, b.dashboard));
    let body = read_body(b);
    let blk = seq![
        SegV::Block {
            window: b.window,
            mode: b.mode,
            dashboard: b.dashboard,
            content: raw_content(b),
        },
    ];
    assert(block_piece(hdr, body) == blk);
    assert(prose_piece(s.subrange(pos, pos + fp)) + blk =~= block_segments(b));
}

/// The pieces that the blocks from the `i`-th on read back as.
spec fn segments_after(bs: Seq<BlockV>, i: int) -> Seq<SegV>
    decreases bs.len() - i,
{
    if i < 0 || i >= bs.len() {
        seq![]
    } else {
        block_segments(bs[i]) + segments_after(bs, i + 1)
    }
}

/// The text of the first blocks starts the text of all of them.
proof fn lemma_blocks_text_prefix(bs: Seq<BlockV>, i: int)
    requires
        0 <= i <= bs.len(),
    ensures
        blocks_text(bs.take(i)).len() <= blocks_text(bs).len(),
        blocks_text(bs).take(blocks_text(bs.take(i)).len() as int) == blocks_text(bs.take(i)),
    decreases bs.len(),
{
    if i == bs.len() {
        assert(bs.take(i) =~= bs);
        assert(blocks_text(bs).take(blocks_text(bs).len() as int) =~= blocks_text(bs));
    } else {
        lemma_blocks_text_prefix(bs.drop_last(), i);
        assert(bs.drop_last().take(i) =~= bs.take(i));
        let a = blocks_text(bs.drop_last());
        let n = blocks_text(bs.take(i)).len() as int;
        assert((a + block_text(bs.last())).take(n) =~= a.take(n));
    }
}

proof fn lemma_blocks_text_step(bs: Seq<BlockV>, i: int)
    requires
        0 <= i < bs.len(),
    ensures
        blocks_text(bs.take(i + 1)) == blocks_text(bs.take(i)) + block_text(bs[i]),
{
    assert(bs.take(i + 1).drop_last() =~= bs.take(i));
}

/// Read from where the `i`-th block was written, the text gives back the
/// pieces of the blocks from there on.
proof fn lemma_segments_after(bs: Seq<BlockV>, i: int)
    requires
        forall|k: int| 0 <= k < bs.len() ==> plain_block(#[trigger] bs[k]),
        0 <= i <= bs.len(),
    ensures
        segments_from(blocks_text(bs), blocks_text(bs.take(i)).len() as int) == segments_after(
            bs,
            i,
        ),
    decreases bs.len() - i,
{
    let s = blocks_text(bs);
    if i == bs.len() {
        assert(bs.take(i) =~= bs);
    } else {
        lemma_blocks_text_step(bs, i);
        lemma_blocks_text_prefix(bs, i + 1);
        let a = blocks_text(bs.take(i));
        let bt = block_text(bs[i]);
        let n = (a.len() + bt.len()) as int;
        assert forall|k: int| 0 <= k < bt.len() implies #[trigger] s.subrange(
            a.len() as int,
            n,
        )[k] == bt[k] by {
            assert(s.take(n)[a.len() + k] == s[a.len() + k]);
            assert((a + bt)[a.len() + k] == bt[k]);
        }
        assert(s.subrange(a.len() as int, n) =~= bt);
        lemma_block_segments(s, a.len() as int, bs[i]);
        lemma_segments_after(bs, i + 1);
    }
}

/// The parser's state after taking in some pieces from a given state.
spec fn fold_seq(st: FoldV, segs: Seq<SegV>) -> FoldV
    decreases segs.len(),
{
    if segs.len() == 0 {
        st
    } else {
        fold_step(fold_seq(st, segs.drop_last()), segs.last())
    }
}

proof fn lemma_fold_upto_seq(segs: Seq<SegV>, k: int)
    requires
        0 <= k <= segs.len(),
    ensures
        fold_upto(segs, k) == fold_seq(fold_start(), segs.take(k)),
    decreases k,
{
    if k > 0 {
        lemma_fold_upto_seq(segs, k - 1);
        assert(segs.take(k).drop_last() =~= segs.take(k - 1));
    } else {
        assert(segs.take(0) =~= Seq::<SegV>::empty());
    }
}

proof fn lemma_fold_seq_append(st: FoldV, a: Seq<SegV>, b: Seq<SegV>)
    ensures
        fold_seq(st, a + b) == fold_seq(fold_seq(st, a), b),
    decreases b.len(),
{
    if b.len() == 0 {
        assert(a + b =~= a);
    } else {
        lemma_fold_seq_append(st, a, b.drop_last());
        assert((a + b).drop_last() =~= a + b.drop_last());
    }
}

/// The parser's state after the given blocks, with nothing else seen.
spec fn plain_state(bs: Seq<BlockV>) -> FoldV {
    FoldV { blocks: bs, prose: None, task: seq![], complete: false, violations: seq![] }
}

proof fn lemma_fold_block(bs: Seq<BlockV>, b: BlockV)
    requires
        plain_block(b),
    ensures
        fold_seq(plain_state(bs), block_segments(b)) == plain_state(bs.push(b)),
{
    reveal_with_fuel(fold_seq, 3);
    if b.mode is Write {
        lemma_write_content(b.content);
    }
    let segs = block_segments(b);
    match b.prose {
        Some(p) => {
            assert(segs.drop_last() =~= seq![SegV::Prose(p)]);
            assert(segs.drop_last().drop_last() =~= Seq::<SegV>::empty());
        },
        None => {
            assert(segs.drop_last() =~= Seq::<SegV>::empty());
        },
    }
}

proof fn lemma_fold_after(bs: Seq<BlockV>, i: int)
    requires
        forall|k: int| 0 <= k < bs.len() ==> plain_block(#[trigger] bs[k]),
        0 <= i <= bs.len(),
    ensures
        fold_seq(plain_state(bs.take(i)), segments_after(bs, i)) == plain_state(bs),
    decreases bs.len() - i,
{
    if i == bs.len() {
        assert(bs.take(i) =~= bs);
    } else {
        lemma_fold_seq_append(plain_state(bs.take(i)), block_segments(bs[i]), segments_after(bs, i + 1));
        lemma_fold_block(bs.take(i), bs[i]);
        assert(bs.take(i).push(bs[i]) =~= bs.take(i + 1));
        lemma_fold_after(bs, i + 1);
    }
}

proof fn lemma_no_edit_errors(bs: Seq<BlockV>, k: int)
    requires
        forall|j: int| 0 <= j < bs.len() ==> !(#[trigger] bs[j].mode is Edit),
    ensures
        edit_errors_upto(bs, k) == Seq::<Seq<char>>::empty(),
    decreases k,
{
    if k > 0 && k <= bs.len() {
        lemma_no_edit_errors(bs, k - 1);
    }
}

/// Blocks written out as a response read back as the same blocks, in the
/// same order, with their prose, and with no task and no complaints; this
/// holds of blocks that survive the trip as `plain_block` describes.
pub proof fn lemma_blocks_roundtrip(bs: Seq<BlockV>)
    requires
        forall|k: int| 0 <= k < bs.len() ==> plain_block(#[trigger] bs[k]),
    ensures
        response_of(blocks_text(bs)) == (ResponseV {
            reasoning: seq![],
            segments: bs,
            task: seq![],
            complete: false,
            heredoc_violations: seq![],
            edit_parse_errors: seq![],
        }),
{
    let s = blocks_text(bs);
    assert(bs.take(0) =~= Seq::<BlockV>::empty());
    lemma_segments_after(bs, 0);
    let segs = segments_of(s);
    assert(segs == segments_after(bs, 0));
    lemma_fold_upto_seq(segs, segs.len() as int);
    assert(segs.take(segs.len() as int) =~= segs);
    lemma_fold_after(bs, 0);
    assert(fold_start() == plain_state(bs.take(0)));
    let f = fold_upto(segs, segs.len() as int);
    assert(f == plain_state(bs));
    assert forall|j: int| 0 <= j < bs.len() implies !(#[trigger] bs[j].mode is Edit) by {
        assert(plain_block(bs[j]));
    }
    lemma_no_edit_errors(bs, bs.len() as int);
    assert(f.blocks.map_values(|b: BlockV| resolve_block(b)) =~= bs);
}

/// What does not occur in `x` occurs in no part of it.
proof fn lemma_no_match_in_part(x: Seq<char>, p: Seq<char>, i: int, j: int)
    requires
        !occurs(x, p),
        0 <= i <= j <= x.len(),
    ensures
        !occurs(x.subrange(i, j), p),
{
    let y = x.subrange(i, j);
    lemma_find_from(x, p, 0);
    lemma_find_from(y, p, 0);
    if find_from(y, p, 0) is Some {
        let k = find_from(y, p, 0)->0;
        assert(y.subrange(k, k + p.len()) =~= x.subrange(i + k, i + k + p.len()));
        assert(matches_at(x, p, i + k));
    }
}

/// A line that trims to `d` holds `d`.
proof fn lemma_trim_holds(l: Seq<char>, d: Seq<char>)
    requires
        trim(l) == d,
    ensures
        occurs(l, d),
{
    crate::text::lemma_trim_start_is_suffix(l);
    let t = trim_start(l);
    crate::text::lemma_trim_end_is_prefix(t);
    let a = l.len() - t.len();
    assert(l.subrange(a, a + d.len()) =~= d);
    assert(matches_at(l, d, a));
    lemma_find_from(l, d, 0);
}

/// Inside a heredoc, lines that do not hold the delimiter are taken as
/// they are, each with its newline.
proof fn lemma_heredoc_lines(s: Seq<char>, pos: int, x: Seq<char>, d: Seq<char>, acc: Seq<char>)
    requires
        0 <= pos,
        pos + x.len() < s.len(),
        s.subrange(pos, pos + x.len()) == x,
        s[pos + x.len()] == '\n',
        !occurs(x, d),
    ensures
        body_from(s, pos, Some(d), acc) == body_from(
            s,
            pos + x.len() + 1,
            Some(d),
            acc + x + seq!['\n'],
        ),
    decreases x.len(),
{
    lemma_next_nl(s, pos);
    let e = next_nl(s, pos);
    assert(e <= pos + x.len()) by {
        if e > pos + x.len() {
            assert(s[pos + x.len()] != '\n');
        }
    }
    let k = e - pos;
    let line = s.subrange(pos, e);
    lemma_sub(s, pos, x, 0, k);
    lemma_no_match_in_part(x, d, 0, k);
    if trim(line) == d {
        lemma_trim_holds(line, d);
    }
    if k < x.len() {
        assert(x[k] == '\n') by {
            assert(s.subrange(pos, pos + x.len())[k] == s[e]);
        }
        let y = x.subrange(k + 1, x.len() as int);
        lemma_sub(s, pos, x, k + 1, x.len() as int);
        lemma_no_match_in_part(x, d, k + 1, x.len() as int);
        lemma_heredoc_lines(s, e + 1, y, d, acc + line + seq!['\n']);
        assert(acc + line + seq!['\n'] + y + seq!['\n'] =~= acc + x + seq!['\n']);
    } else {
        assert(line =~= x);
    }
}

/// A write body, as its heredoc opener line and its text, reads back as
/// the text.
proof fn lemma_write_content(c: Seq<char>)
    requires
        c.len() > 0,
        trim_end(c) == c,
        !occurs(c, tai_delim()),
    ensures
        heredoc_content(tai_opener() + seq!['\n'] + c) == Some(c),
{
    let raw = tai_opener() + seq!['\n'] + c;
    let d = tai_delim();
    assert(!is_ws(raw[0]));
    assert(trim_start(raw) == raw);
    assert(raw.take(2) =~= seq!['<', '<']);
    let after = raw.skip(2);
    assert(!is_ws(after[0]));
    assert(trim_start(after) == after);
    let q = seq!['\''];
    assert(after =~= seq!['\'', 'T', 'A', 'I', 'D', 'E', 'L', 'I', 'M', '\''] + seq!['\n'] + c);
    assert forall|j: int| 1 <= j < 9 implies !matches_at(after, q, j) by {
        assert(after.subrange(j, j + 1)[0] == after[j]);
    }
    lemma_find_from_skip(after, q, 1, 9);
    assert(after.subrange(9, 10) =~= q);
    assert(after[0] == '\'');
    assert(find_from(after, seq![after[0]], 1) == Some(9int));
    assert(after.subrange(1, 9) =~= d);
    assert(after.skip(10) =~= seq!['\n'] + c);
    assert((seq!['\n'] + c).skip(1) =~= c);
    lemma_heredoc_end_plain(c);
}

/// A heredoc body without the delimiter is cut only at its trailing
/// whitespace.
proof fn lemma_heredoc_end_plain(c: Seq<char>)
    requires
        trim_end(c) == c,
        !occurs(c, tai_delim()),
    ensures
        heredoc_end(c, tai_delim()) == c,
{
    let d = tai_delim();
    let nd = seq!['\n'] + d;
    lemma_find_from(c, d, 0);
    lemma_find_from(c, nd, 0);
    if find_from(c, nd, 0) is Some {
        let k = find_from(c, nd, 0)->0;
        assert(matches_at(c, nd, k));
        assert(c.subrange(k, k + nd.len()) == nd);
        assert(nd.skip(1) =~= d);
        assert(c.subrange(k + 1, k + 1 + d.len()) =~= c.subrange(k, k + nd.len()).skip(1));
        assert(matches_at(c, d, k + 1));
    }
    if ends_with(c, d) {
        assert(matches_at(c, d, c.len() - d.len()));
    }
}

/// The quoted delimiter of a heredoc opener reads back.
proof fn lemma_quoted_token(a: Seq<char>)
    requires
        a.len() >= 10,
        a.take(10) == seq!['\''] + tai_delim() + seq!['\''],
    ensures
        delim_token(a) == Some((tai_delim(), 10int)),
{
    let q = seq!['\''];
    assert(a[0] == a.take(10)[0]);
    assert(a[0] == '\'');
    assert forall|j: int| 1 <= j < 9 implies !matches_at(a, q, j) by {
        assert(a.subrange(j, j + 1)[0] == a[j]);
        assert(a[j] == a.take(10)[j]);
    }
    lemma_find_from_skip(a, q, 1, 9);
    assert(a[9] == a.take(10)[9]);
    assert(a.subrange(9, 10) =~= q);
    assert(a.subrange(1, 9) =~= tai_delim()) by {
        assert forall|j: int| 0 <= j < 8 implies a.subrange(1, 9)[j] == tai_delim()[j] by {
            assert(a[j + 1] == a.take(10)[j + 1]);
        }
    }
}

/// The opener line of a written heredoc is read as such: the rest of the
/// body is read inside the heredoc.
proof fn lemma_write_open(s: Seq<char>, he: int)
    requires
        0 <= he,
        he + 13 <= s.len(),
        s.subrange(he, he + 13) == tai_opener() + seq!['\n'],
        find_from(s, fence(), he + 13) is Some,
    ensures
        body_from(s, he, None, seq![]) == body_from(
            s,
            he + 13,
            Some(tai_delim()),
            tai_opener() + seq!['\n'],
        ),
{
    let m = tai_opener() + seq!['\n'];
    assert forall|j: int| he <= j < he + 13 implies !matches_at(s, fence(), j) by {
        assert(s.subrange(he, he + 13)[j - he] == s[j]);
        if matches_at(s, fence(), j) {
            assert(s.subrange(j, j + 3)[0] == s[j]);
        }
    }
    lemma_find_from_skip(s, fence(), he, he + 13);
    lemma_find_from(s, fence(), he + 13);
    let cp = find_from(s, fence(), he)->0;
    let before = s.subrange(he, cp);
    assert(before.subrange(0, 2) =~= seq!['<', '<']) by {
        assert(s.subrange(he, he + 13)[0] == s[he]);
        assert(s.subrange(he, he + 13)[1] == s[he + 1]);
    }
    assert(find_from(before, seq!['<', '<'], 0) == Some(0int));
    let a = before.skip(2);
    assert(a[0] == s[he + 2]);
    assert(s.subrange(he, he + 13)[2] == s[he + 2]);
    assert(trim_start(a) == a);
    assert(a.take(10) =~= seq!['\''] + tai_delim() + seq!['\'']) by {
        assert forall|j: int| 0 <= j < 10 implies a.take(10)[j] == (seq!['\''] + tai_delim()
            + seq!['\''])[j] by {
            assert(s.subrange(he, he + 13)[j + 2] == s[he + j + 2]);
        }
    }
    lemma_quoted_token(a);
    assert(heredoc_delimiter(before) == Some(tai_delim()));
    lemma_next_nl(s, he);
    assert forall|j: int| he <= j < he + 12 implies s[j] != '\n' by {
        assert(s.subrange(he, he + 13)[j - he] == s[j]);
    }
    assert(s[he + 12] == '\n') by {
        assert(s.subrange(he, he + 13)[12] == s[he + 12]);
    }
    assert(next_nl(s, he) == he + 12);
    assert(s.subrange(he, he + 12) =~= tai_opener()) by {
        assert forall|j: int| 0 <= j < 12 implies s.subrange(he, he + 12)[j] == tai_opener()[j] by {
            assert(s.subrange(he, he + 13)[j] == s[he + j]);
        }
    }
    assert(seq![] + tai_opener() + seq!['\n'] =~= m);
}

/// The closing line of a written heredoc ends it, and the backticks after
/// it end the block.
proof fn lemma_write_close(s: Seq<char>, pos: int, acc: Seq<char>)
    requires
        0 <= pos,
        pos + 13 <= s.len(),
        s.subrange(pos, pos + 13) == tai_delim() + seq!['\n'] + fence() + seq!['\n'],
    ensures
        body_from(s, pos, Some(tai_delim()), acc) == (pos + 13, acc),
{
    let d = tai_delim();
    let t = tai_delim() + seq!['\n'] + fence() + seq!['\n'];
    lemma_next_nl(s, pos);
    assert forall|j: int| pos <= j < pos + 8 implies s[j] != '\n' by {
        assert(s.subrange(pos, pos + 13)[j - pos] == s[j]);
    }
    assert(s.subrange(pos, pos + 13)[8] == s[pos + 8]);
    assert(next_nl(s, pos) == pos + 8);
    assert(s.subrange(pos, pos + 8) =~= d) by {
        assert forall|j: int| 0 <= j < 8 implies s.subrange(pos, pos + 8)[j] == d[j] by {
            assert(s.subrange(pos, pos + 13)[j] == s[pos + j]);
        }
    }
    assert(trim_start(d) == d);
    assert(trim_end(d) == d);
    let f = pos + 9;
    assert(s.subrange(f, f + 3) =~= fence()) by {
        assert forall|j: int| 0 <= j < 3 implies s.subrange(f, f + 3)[j] == fence()[j] by {
            assert(s.subrange(pos, pos + 13)[9 + j] == s[f + j]);
        }
    }
    assert(s.subrange(pos, pos + 13)[12] == s[pos + 12]);
    assert(find_from(s, fence(), f) == Some(f));
    assert(s.subrange(f, f) =~= Seq::<char>::empty());
    assert(heredoc_delimiter(Seq::<char>::empty()) is None);
    assert(acc + Seq::<char>::empty() =~= acc);
    assert(trim(d) == d);
    assert(body_from(s, pos, Some(d), acc) == body_from(s, f, None, acc));
    assert(body_from(s, f, None, acc) == (pos + 13, acc));
}

/// An edit block that carries a parsed command is written so that its
/// command reads back as the same search and replace texts: the fenced
/// block, after its header line and heredoc opener, holds an edit body
/// that parses to the command (for heredoc-safe texts).
pub proof fn lemma_edit_block_written_back(
    w: Seq<char>,
    d: bool,
    content: Seq<char>,
    search: Seq<char>,
    replace: Seq<char>,
)
    requires
        heredoc_safe(search),
        heredoc_safe(replace),
    ensures
        exists|x: Seq<char>|
            blocks_text(
                seq![
                    BlockV {
                        window: w,
                        mode: ModeV::Edit(Some((search, replace))),
                        content,
                        prose: None,
                        dashboard: d,
                    },
                ],
            ) == "```"@ + mode_prefix(ModeV::Edit(None), d) + ":"@ + w + "\n<<'TAIDELIM'\n"@ + x
                + "\nTAIDELIM\n```\n"@ && parse_edit_spec(x) == Ok::<
                (Seq<char>, Seq<char>),
                EditFault,
            >((search, replace)),
{
    let b = BlockV {
        window: w,
        mode: ModeV::Edit(Some((search, replace))),
        content,
        prose: None,
        dashboard: d,
    };
    let x = serialize_edit_spec(search, replace);
    lemma_edit_roundtrip(search, replace);
    let bs = seq![b];
    assert(bs.drop_last() =~= Seq::<BlockV>::empty());
    assert(bs.last() == b);
    assert(blocks_text(bs.drop_last()) == Seq::<char>::empty());
    assert(blocks_text(bs) == blocks_text(bs.drop_last()) + block_text(bs.last()));
    assert(blocks_text(bs) =~= block_text(b));
    assert(mode_name(ModeV::Edit(Some((search, replace)))) == mode_name(ModeV::Edit(None)));
    assert(block_text(b) =~= "```"@ + mode_prefix(ModeV::Edit(None), d) + ":"@ + w
        + "\n<<'TAIDELIM'\n"@ + x + "\nTAIDELIM\n```\n"@);
}

} // verus!