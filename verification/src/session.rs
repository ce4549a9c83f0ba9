//! The session directory's file formats: output files, tick files and
//! response file names, and the session's short id.

use crate::backend::CmdOutput;
use crate::numfmt::{dec, dec_int, dec_padded, i32_to_string, is_digit, lemma_dec_digits,
    lemma_i32_roundtrip, parse_i32, parse_i32_spec, parse_u64, parse_u64_spec, u64_to_padded};
use crate::text::{
    chars_of, is_ws, lines, next_newline, next_nl, slice, starts_with,
    strip_cr, string_of, trim, trim_bounds, trim_start,
};
use vstd::prelude::*;

verus! {

pub open spec fn exit_word() -> Seq<char> {
    seq!['e', 'x', 'i', 't', ' ']
}

pub open spec fn signal_word() -> Seq<char> {
    seq!['s', 'i', 'g', 'n', 'a', 'l', ' ']
}

/// The first line of an output file, or `exit 0` for an empty file.
pub open spec fn out_first_line(raw: Seq<char>) -> Seq<char> {
    let ls = lines(raw);
    if ls.len() > 0 {
        ls[0]
    } else {
        exit_word() + seq!['0']
    }
}

/// The status line's code: `exit N` (0 when N does not parse), `signal N`
/// (-1 when N does not parse), else 0.
pub open spec fn out_exit_code(first: Seq<char>) -> i32 {
    if starts_with(first, exit_word()) {
        match parse_i32_spec(trim(first.skip(5))) {
            Some(c) => c,
            None => 0,
        }
    } else if starts_with(first, signal_word()) {
        match parse_i32_spec(trim(first.skip(7))) {
            Some(c) => c,
            None => -1i32,
        }
    } else {
        0
    }
}

/// What an output file holds: the code of its status line, and the text
/// after that line.
pub open spec fn out_file_spec(raw: Seq<char>) -> (i32, Seq<char>) {
    let first = out_first_line(raw);
    let l = first.len();
    (out_exit_code(first), if raw.len() > l + 1 {
        raw.skip(l as int + 1)
    } else {
        Seq::empty()
    })
}

/// How an output is written to its file: a status line, then the text.
pub open spec fn out_file_text(exit_code: i32, stdout: Seq<char>) -> Seq<char> {
    exit_word() + dec_int(exit_code as int) + seq!['\n'] + stdout
}

fn code_after(v: &[char], k: usize, default: i32) -> (c: i32)
    requires
        k <= v@.len(),
    ensures
        c == match parse_i32_spec(trim(v@.skip(k as int))) {
            Some(x) => x,
            None => default,
        },
{
    let n = v.len();
    let (a, b) = trim_bounds(v, k, n);
    assert(v@.skip(k as int) =~= v@.subrange(k as int, n as int));
    let t = slice(v, a, b);
    match parse_i32(t.as_slice()) {
        Some(x) => x,
        None => default,
    }
}

fn starts_with_chars(v: &[char], p: &[char]) -> (b: bool)
    ensures
        b == starts_with(v@, p@),
{
    if p.len() > v.len() {
        return false;
    }
    let r = crate::text::matches_here(v, p, 0);
    assert(v@.subrange(0, p@.len() as int) =~= v@.take(p@.len() as int));
    r
}

/// Reads an output file: its exit code and its text.
pub fn parse_out_file(raw: &str) -> (r: (i32, String))
    ensures
        (r.0, r.1@) == out_file_spec(raw@),
{
    let v = chars_of(raw);
    let n = v.len();
    let first: Vec<char> = if n == 0 {
        assert(lines(raw@) =~= Seq::<Seq<char>>::empty());
        vec!['e', 'x', 'i', 't', ' ', '0']
    } else {
        let e = next_newline(v.as_slice(), 0);
        let mut line = slice(v.as_slice(), 0, e);
        if e < n && line.len() > 0 && line[line.len() - 1] == '\r' {
            line.pop();
        }
        assert(lines(raw@)[0] == line@);
        line
    };
    assert(first@ =~= out_first_line(raw@));
    let l = first.len();
    let ew = vec!['e', 'x', 'i', 't', ' '];
    let sw = vec!['s', 'i', 'g', 'n', 'a', 'l', ' '];
    assert(ew@ =~= exit_word());
    assert(sw@ =~= signal_word());
    let code = if starts_with_chars(first.as_slice(), ew.as_slice()) {
        code_after(first.as_slice(), 5, 0)
    } else if starts_with_chars(first.as_slice(), sw.as_slice()) {
        code_after(first.as_slice(), 7, -1)
    } else {
        0
    };
    let rest = if n > l && n - l > 1 {
        let r = slice(v.as_slice(), l + 1, n);
        assert(r@ =~= raw@.skip(l + 1));
        string_of(r.as_slice())
    } else {
        let r = String::new();
        assert(r@ =~= Seq::<char>::empty());
        r
    };
    (code, rest)
}

/// Writes an output as the text of its file.
pub fn format_out(output: &CmdOutput) -> (s: String)
    ensures
        s@ == out_file_text(output.exit_code, output.stdout@),
{
    let mut s = String::from_str("exit ");
    s.append(i32_to_string(output.exit_code).as_str());
    crate::text::push_char(&mut s, '\n');
    s.append(output.stdout.as_str());
    proof {
        reveal_strlit("exit ");
    }
    assert(s@ =~= out_file_text(output.exit_code, output.stdout@));
    s
}

proof fn lemma_dec_int_plain(n: i32)
    ensures
        dec_int(n as int).len() > 0,
        forall|i: int|
            0 <= i < dec_int(n as int).len() ==> (#[trigger] dec_int(n as int)[i] != '\n'
                && !is_ws(dec_int(n as int)[i])),
        is_digit(dec_int(n as int).last()),
{
    let d = dec_int(n as int);
    if n < 0 {
        let m = (-n) as nat;
        lemma_dec_digits(m);
        assert forall|i: int| 0 <= i < d.len() implies (#[trigger] d[i] != '\n' && !is_ws(d[i])) by {
            if i > 0 {
                assert(d[i] == dec(m)[i - 1]);
                assert(is_digit(dec(m)[i - 1]));
            }
        }
        assert(d.last() == dec(m).last());
        assert(is_digit(dec(m)[dec(m).len() - 1]));
    } else {
        lemma_dec_digits(n as nat);
        assert forall|i: int| 0 <= i < d.len() implies (#[trigger] d[i] != '\n' && !is_ws(d[i])) by {
            assert(is_digit(d[i]));
        }
        assert(is_digit(d[d.len() - 1]));
    }
}

proof fn lemma_no_ws_trim(s: Seq<char>)
    requires
        forall|i: int| 0 <= i < s.len() ==> !is_ws(#[trigger] s[i]),
    ensures
        trim(s) == s,
{
    if s.len() > 0 {
        assert(!is_ws(s[0]));
        assert(!is_ws(s[s.len() - 1]));
    }
    assert(trim_start(s) == s);
}

/// Reading back an output's file gives the output: the exit code and the
/// text, whatever the text holds.
pub proof fn lemma_out_file_roundtrip(exit_code: i32, stdout: Seq<char>)
    ensures
        out_file_spec(out_file_text(exit_code, stdout)) == (exit_code, stdout),
{
    let d = dec_int(exit_code as int);
    let head = exit_word() + d;
    let raw = out_file_text(exit_code, stdout);
    lemma_dec_int_plain(exit_code);
    assert(raw =~= head + seq!['\n'] + stdout);
    assert forall|i: int| 0 <= i < head.len() implies raw[i] != '\n' by {
        if i >= 5 {
            assert(raw[i] == d[i - 5]);
        }
    }
    assert(raw[head.len() as int] == '\n');
    assert(next_nl(raw, 0) == head.len()) by {
        assert forall|j: int| 0 <= j <= head.len() implies next_nl(raw, j) == head.len() by {
            lemma_nl_at(raw, j, head.len() as int);
        }
    }
    assert(raw.subrange(0, head.len() as int) =~= head);
    assert(head.last() == d.last());
    assert(strip_cr(head) == head);
    assert(lines(raw)[0] == head);
    assert(out_first_line(raw) == head);
    assert(head.take(5) =~= exit_word());
    assert(head.skip(5) =~= d);
    lemma_no_ws_trim(d);
    lemma_i32_roundtrip(exit_code);
    if stdout.len() > 0 {
        assert(raw.skip(head.len() as int + 1) =~= stdout);
    } else {
        assert(stdout =~= Seq::<char>::empty());
    }
}

proof fn lemma_nl_at(s: Seq<char>, j: int, k: int)
    requires
        0 <= j <= k < s.len(),
        s[k] == '\n',
        forall|i: int| 0 <= i < k ==> s[i] != '\n',
    ensures
        next_nl(s, j) == k,
    decreases k - j,
{
    if j < k {
        lemma_nl_at(s, j + 1, k);
    }
}

/// The name of a window's output file.
pub open spec fn out_file_name_spec(title: Seq<char>) -> Seq<char> {
    title + seq!['.', 'o', 'u', 't']
}

pub fn out_file_name(title: &str) -> (s: String)
    ensures
        s@ == out_file_name_spec(title@),
{
    let mut s = String::from_str(title);
    s.append(".out");
    proof {
        reveal_strlit(".out");
    }
    assert(s@ =~= out_file_name_spec(title@));
    s
}

/// The name of a tick's response file: the tick number zero-padded to
/// five digits.
pub open spec fn tick_file_name_spec(tick_n: u64) -> Seq<char> {
    dec_padded(tick_n as nat, 5) + seq!['.', 't', 'o', 'm', 'l']
}

pub fn tick_file_name(tick_n: u64) -> (s: String)
    ensures
        s@ == tick_file_name_spec(tick_n),
{
    let mut s = u64_to_padded(tick_n, 5);
    s.append(".toml");
    proof {
        reveal_strlit(".toml");
    }
    assert(s@ =~= tick_file_name_spec(tick_n));
    s
}

/// The characters a session id is written in.
pub open spec fn id_charset() -> Seq<char> {
    seq![
        'a', 'b', 'c', 'd', 'e', 'f', 'g', 'h', 'i', 'j', 'k', 'l', 'm', 'n', 'o', 'p', 'q',
        'r', 's', 't', 'u', 'v', 'w', 'x', 'y', 'z', '0', '1', '2', '3', '4', '5', '6', '7',
        '8', '9',
    ]
}

/// The short id made of some bytes: the first six, each taken modulo the
/// charset's size as an index into it.
pub open spec fn short_id_spec(bytes: Seq<u8>) -> Seq<char> {
    let k = if bytes.len() < 6 {
        bytes.len() as int
    } else {
        6
    };
    Seq::new(k as nat, |i: int| id_charset()[(bytes[i] as int) % 36])
}

/// Writes the short id of some bytes.
pub fn short_id_from_bytes(bytes: &[u8]) -> (s: String)
    ensures
        s@ == short_id_spec(bytes@),
{
    let cs = vec![
        'a', 'b', 'c', 'd', 'e', 'f', 'g', 'h', 'i', 'j', 'k', 'l', 'm', 'n', 'o', 'p', 'q',
        'r', 's', 't', 'u', 'v', 'w', 'x', 'y', 'z', '0', '1', '2', '3', '4', '5', '6', '7',
        '8', '9',
    ];
    assert(cs@ =~= id_charset());
    let k = if bytes.len() < 6 {
        bytes.len()
    } else {
        6
    };
    let mut v: Vec<char> = Vec::new();
    let mut i: usize = 0;
    while i < k
        invariant
            0 <= i <= k <= bytes@.len(),
            k == (if bytes@.len() < 6 {
                bytes@.len() as int
            } else {
                6
            }),
            cs@ == id_charset(),
            v@ =~= short_id_spec(bytes@).take(i as int),
        decreases k - i,
    {
        let idx = (bytes[i] as usize) % 36;
        v.push(cs[idx]);
        assert(v@ =~= short_id_spec(bytes@).take(i + 1));
        i = i + 1;
    }
    assert(v@ =~= short_id_spec(bytes@));
    string_of(v.as_slice())
}

/// Calls `getrandom::fill` on sixteen bytes: `Some` of them when the
/// system's random source filled them, `None` when it failed. The bytes
/// are random, so nothing is stated of their values.
#[verifier::external_body]
fn random_bytes() -> (r: Option<Vec<u8>>)
    ensures
        r matches Some(b) ==> b@.len() == 16,
{
    let mut b = [0u8; 16];
    match getrandom::fill(&mut b) {
        Ok(()) => Some(b.to_vec()),
        Err(_) => None,
    }
}

/// The bytes of a version 4 UUID made of sixteen random bytes: the bytes
/// kept, but for the version in byte 6 and the variant in byte 8.
pub open spec fn uuid_v4_bytes(b: Seq<u8>) -> Seq<u8> {
    b.update(6, (b[6] & 0x0f) | 0x40).update(8, (b[8] & 0x3f) | 0x80)
}

/// Calls `uuid::Builder::from_random_bytes` and hands out the UUID's
/// bytes: the given bytes with the version (4) set in byte 6 and the
/// RFC 4122 variant set in byte 8.
#[verifier::external_body]
fn uuid_from_random_bytes(b: &[u8]) -> (r: Vec<u8>)
    requires
        b@.len() == 16,
    ensures
        r@ == uuid_v4_bytes(b@),
{
    let mut a = [0u8; 16];
    a.copy_from_slice(b);
    uuid::Builder::from_random_bytes(a).into_uuid().into_bytes().to_vec()
}

/// A new session id: six characters of the id charset drawn from a random
/// version 4 UUID; `None` when the system's random source fails.
pub fn generate_short_id() -> (r: Option<String>)
    ensures
        r matches Some(s) ==> s@.len() == 6 && exists|b: Seq<u8>|
            b.len() == 16 && s@ == short_id_spec(uuid_v4_bytes(b)),
{
    match random_bytes() {
        Some(b) => {
            let u = uuid_from_random_bytes(b.as_slice());
            Some(short_id_from_bytes(u.as_slice()))
        },
        None => None,
    }
}

/// Where a session lives: its workspace (where commands run), its
/// internal directory, and the project it works on.
pub struct SessionDir {
    workspace: String,
    internal: String,
    project: String,
}

impl SessionDir {
    /// A session at `workspace`, with its internal files in `.session`
    /// under it.
    pub fn at(workspace: String, project: String) -> (s: SessionDir)
        ensures
            s.workspace_spec() == workspace@,
            s.internal_spec() == workspace@ + seq!['/', '.', 's', 'e', 's', 's', 'i', 'o', 'n'],
            s.project_spec() == project@,
    {
        let mut internal = workspace.clone();
        internal.append("/.session");
        proof {
            reveal_strlit("/.session");
        }
        assert(internal@ =~= workspace@ + seq!['/', '.', 's', 'e', 's', 's', 'i', 'o', 'n']);
        SessionDir { workspace, internal, project }
    }

    pub closed spec fn workspace_spec(&self) -> Seq<char> {
        self.workspace@
    }

    pub closed spec fn internal_spec(&self) -> Seq<char> {
        self.internal@
    }

    pub closed spec fn project_spec(&self) -> Seq<char> {
        self.project@
    }

    pub fn workspace(&self) -> (p: &str)
        ensures
            p@ == self.workspace_spec(),
    {
        self.workspace.as_str()
    }

    /// The session's path, which is its workspace.
    pub fn session_path(&self) -> (p: &str)
        ensures
            p@ == self.workspace_spec(),
    {
        self.workspace.as_str()
    }

    pub fn internal_path(&self) -> (p: &str)
        ensures
            p@ == self.internal_spec(),
    {
        self.internal.as_str()
    }

    pub fn project(&self) -> (p: &str)
        ensures
            p@ == self.project_spec(),
    {
        self.project.as_str()
    }
}

/// The tick a tick file holds: its trimmed text read as a number, or the
/// default when it does not read.
pub open spec fn tick_text_spec(text: Seq<char>, default: u64) -> u64 {
    match parse_u64_spec(trim(text)) {
        Some(n) => n,
        None => default,
    }
}

pub fn parse_tick(text: &str, default: u64) -> (n: u64)
    ensures
        n == tick_text_spec(text@, default),
{
    let v = chars_of(text);
    let (a, b) = trim_bounds(v.as_slice(), 0, v.len());
    assert(v@.subrange(0, v@.len() as int) =~= v@);
    let t = slice(v.as_slice(), a, b);
    match parse_u64(t.as_slice()) {
        Some(n) => n,
        None => default,
    }
}

/// The tick a response file is named for: `<digits>.toml`.
pub open spec fn tick_of_name_spec(name: Seq<char>) -> Option<u64> {
    let suffix = seq!['.', 't', 'o', 'm', 'l'];
    if name.len() >= 5 && name.skip(name.len() - 5) == suffix {
        parse_u64_spec(name.take(name.len() - 5))
    } else {
        None
    }
}

pub fn tick_of_file_name(name: &str) -> (r: Option<u64>)
    ensures
        r == tick_of_name_spec(name@),
{
    let v = chars_of(name);
    let n = v.len();
    let suffix = vec!['.', 't', 'o', 'm', 'l'];
    if n >= 5 && crate::text::matches_here(v.as_slice(), suffix.as_slice(), n - 5) {
        assert(v@.skip(n - 5) =~= v@.subrange(n - 5, n as int));
        assert(suffix@ =~= seq!['.', 't', 'o', 'm', 'l']);
        let head = slice(v.as_slice(), 0, n - 5);
        assert(head@ =~= v@.take(n - 5));
        parse_u64(head.as_slice())
    } else {
        proof {
            if n >= 5 && v@.skip(n - 5) == seq!['.', 't', 'o', 'm', 'l'] {
                assert(v@.skip(n - 5) =~= v@.subrange(n - 5, n as int));
                assert(suffix@ =~= seq!['.', 't', 'o', 'm', 'l']);
            }
        }
        None
    }
}

pub open spec fn ascending(s: Seq<u64>) -> bool {
    forall|i: int, j: int| 0 <= i <= j < s.len() ==> s[i] <= s[j]
}

/// The ticks in ascending order.
pub fn sort_ticks(v: &Vec<u64>) -> (r: Vec<u64>)
    ensures
        ascending(r@),
        r@.to_multiset() == v@.to_multiset(),
{
    broadcast use vstd::seq_lib::to_multiset_build, vstd::seq_lib::to_multiset_insert;

    let mut r: Vec<u64> = Vec::new();
    let mut i: usize = 0;
    assert(v@.take(0) =~= Seq::<u64>::empty());
    while i < v.len()
        invariant
            0 <= i <= v@.len(),
            ascending(r@),
            r@.to_multiset() == v@.take(i as int).to_multiset(),
        decreases v@.len() - i,
    {
        let x = v[i];
        let mut k: usize = 0;
        while k < r.len() && r[k] <= x
            invariant
                0 <= k <= r@.len(),
                forall|j: int| 0 <= j < k ==> r@[j] <= x,
            decreases r@.len() - k,
        {
            k = k + 1;
        }
        let ghost before = r@;
        r.insert(k, x);
        assert(r@ == before.insert(k as int, x));
        proof {
            vstd::seq_lib::to_multiset_insert(before, k as int, x);
            vstd::seq_lib::to_multiset_build(v@.take(i as int), x);
        }
        assert(ascending(r@)) by {
            assert forall|a: int, b: int| 0 <= a <= b < r@.len() implies r@[a] <= r@[b] by {
                if a < k && b < k {
                    assert(r@[a] == before[a] && r@[b] == before[b]);
                } else if a < k && b == k {
                    assert(r@[a] == before[a]);
                } else if a < k {
                    assert(r@[a] == before[a] && r@[b] == before[b - 1]);
                } else if a == k && b == k {
                } else if a == k {
                    assert(r@[b] == before[b - 1]);
                    assert(k < before.len() && !(before[k as int] <= x) || b - 1 >= k);
                    assert(before[k as int] <= before[b - 1]);
                } else {
                    assert(r@[a] == before[a - 1] && r@[b] == before[b - 1]);
                }
            }
        }
        assert(v@.take(i + 1) =~= v@.take(i as int).push(x));
        i = i + 1;
    }
    assert(v@.take(v@.len() as int) =~= v@);
    r
}

/// `s` centered in `width` columns with `fill` around it, the extra
/// column (if any) on the right, as `{:^width$}` pads.
pub open spec fn centered(s: Seq<char>, fill: char, width: nat) -> Seq<char> {
    if s.len() >= width {
        s
    } else {
        let pad = (width - s.len()) as nat;
        Seq::new(pad / 2, |i: int| fill) + s + Seq::new((pad - pad / 2) as nat, |i: int| fill)
    }
}

fn repeat_char(c: char, n: usize, out: &mut String)
    ensures
        final(out)@ == old(out)@ + Seq::new(n as nat, |i: int| c),
{
    let ghost start = out@;
    let mut k: usize = 0;
    while k < n
        invariant
            0 <= k <= n,
            out@ == start + Seq::new(k as nat, |i: int| c),
        decreases n - k,
    {
        crate::text::push_char(out, c);
        assert(out@ =~= start + Seq::new((k + 1) as nat, |i: int| c));
        k = k + 1;
    }
}

fn center_into(s: &str, fill: char, width: usize, out: &mut String)
    ensures
        final(out)@ == old(out)@ + centered(s@, fill, width as nat),
{
    let ghost start = out@;
    let n = chars_of(s).len();
    if n >= width {
        out.append(s);
    } else {
        let pad = width - n;
        repeat_char(fill, pad / 2, out);
        out.append(s);
        repeat_char(fill, pad - pad / 2, out);
        assert(out@ =~= start + centered(s@, fill, width as nat));
    }
}

/// The lines printed to tell how to resume a session: a blank line, then
/// a box at least 50 columns wide around `tai <path>`.
pub open spec fn banner_spec(path: Seq<char>) -> Seq<Seq<char>> {
    let to_resume = "  tai "@ + path + "  "@;
    let width: nat = if to_resume.len() > 50 {
        to_resume.len()
    } else {
        50
    };
    seq![
        Seq::empty(),
        seq!['╔'] + centered(" TO RESUME SESSION "@, '═', width) + seq!['╗'],
        seq!['║'] + centered(" "@, ' ', width) + seq!['║'],
        seq!['║'] + centered(to_resume, ' ', width) + seq!['║'],
        seq!['║'] + centered(" "@, ' ', width) + seq!['║'],
        seq!['╚'] + Seq::new(width, |i: int| '═') + seq!['╝'],
    ]
}

pub fn banner_lines(path: &str) -> (r: Vec<String>)
    ensures
        crate::types::strings_view(r@) == banner_spec(path@),
{
    let mut to_resume = String::from_str("  tai ");
    to_resume.append(path);
    to_resume.append("  ");
    let n = chars_of(to_resume.as_str()).len();
    let width: usize = if n > 50 {
        n
    } else {
        50
    };
    let ghost w = width as nat;
    let ghost tr = to_resume@;
    let mut top = String::new();
    crate::text::push_char(&mut top, '╔');
    center_into(" TO RESUME SESSION ", '═', width, &mut top);
    crate::text::push_char(&mut top, '╗');
    assert(top@ =~= seq!['╔'] + centered(" TO RESUME SESSION "@, '═', w) + seq!['╗']);
    let mut blank = String::new();
    crate::text::push_char(&mut blank, '║');
    center_into(" ", ' ', width, &mut blank);
    crate::text::push_char(&mut blank, '║');
    assert(blank@ =~= seq!['║'] + centered(" "@, ' ', w) + seq!['║']);
    let mut mid = String::new();
    crate::text::push_char(&mut mid, '║');
    center_into(to_resume.as_str(), ' ', width, &mut mid);
    crate::text::push_char(&mut mid, '║');
    assert(mid@ =~= seq!['║'] + centered(tr, ' ', w) + seq!['║']);
    let mut blank2 = String::new();
    crate::text::push_char(&mut blank2, '║');
    center_into(" ", ' ', width, &mut blank2);
    crate::text::push_char(&mut blank2, '║');
    assert(blank2@ =~= seq!['║'] + centered(" "@, ' ', w) + seq!['║']);
    let mut bottom = String::new();
    crate::text::push_char(&mut bottom, '╚');
    repeat_char('═', width, &mut bottom);
    crate::text::push_char(&mut bottom, '╝');
    assert(bottom@ =~= seq!['╚'] + Seq::new(w, |i: int| '═') + seq!['╝']);
    let first = String::new();
    assert(first@ =~= Seq::<char>::empty());
    let ghost lines = seq![first@, top@, blank@, mid@, blank2@, bottom@];
    assert(lines =~= banner_spec(path@));
    let mut r: Vec<String> = Vec::new();
    r.push(first);
    r.push(top);
    r.push(blank);
    r.push(mid);
    r.push(blank2);
    r.push(bottom);
    assert(crate::types::strings_view(r@) =~= lines);
    r
}

} // verus!
