//! The text of the federation manifest (`.decided/corpus.md`): newline
//! normalisation, its lines, fenced YAML blocks, and the lexical rules that
//! declarations must meet before any YAML is interpreted.
use vstd::prelude::*;

use crate::federation::{ParentCorpusError, ParentCorpusErrorCode, ParentDeclaration};
use crate::order::{ascending_by, keys_by, keys_views, lemma_visit_ascending, sort_indices, strings_view, visit};
use crate::hashing::{bytes_of, utf8};
use crate::text::{ascii_lower_seq, to_ascii_lower, chars_of, is_white, char_is_white, string_from_chars, owned, push_str, join, join_strings, views, str_eq, decimal, usize_to_string};

verus! {

/// `\r\n` and lone `\r` become `\n`.
pub open spec fn normalized(s: Seq<char>) -> Seq<char>
    decreases s.len(),
{
    if s.len() == 0 {
        s
    } else if s[0] == '\r' && s.len() > 1 && s[1] == '\n' {
        seq!['\n'] + normalized(s.skip(2))
    } else if s[0] == '\r' {
        seq!['\n'] + normalized(s.skip(1))
    } else {
        seq![s[0]] + normalized(s.skip(1))
    }
}

/// `text.replace("\r\n", "\n").replace('\r', "\n")`.
pub fn normalize_newlines(text: &str) -> (r: String)
    ensures
        r@ == normalized(text@),
{
    let cs = chars_of(text);
    let n = cs.len();
    let mut out: Vec<char> = Vec::new();
    let mut i: usize = 0;
    assert(cs@.skip(0) =~= cs@);
    assert(out@ + normalized(cs@.skip(0)) =~= normalized(cs@));
    while i < n
        invariant
            cs@ == text@,
            n == cs@.len(),
            i <= n,
            out@ + normalized(cs@.skip(i as int)) == normalized(cs@),
        decreases n - i,
    {
        let ghost rest = cs@.skip(i as int);
        if cs[i] == '\r' && i + 1 < n && cs[i + 1] == '\n' {
            assert(rest.skip(2) =~= cs@.skip(i as int + 2));
            out.push('\n');
            i += 2;
        } else {
            assert(rest.skip(1) =~= cs@.skip(i as int + 1));
            if cs[i] == '\r' {
                out.push('\n');
            } else {
                out.push(cs[i]);
            }
            i += 1;
        }
        assert(out@ + normalized(cs@.skip(i as int)) =~= normalized(cs@));
    }
    assert(cs@.skip(n as int) =~= Seq::<char>::empty());
    assert(out@ =~= out@ + normalized(cs@.skip(n as int)));
    assert(cs@.skip(0) =~= cs@);
    string_from_chars(out.as_slice())
}

/// The parts of `s` between `\n` characters; there is always one more part
/// than there are newlines.
pub open spec fn lf_parts(s: Seq<char>) -> Seq<Seq<char>>
    decreases s.len(),
{
    if s.len() == 0 {
        seq![Seq::empty()]
    } else {
        let p = lf_parts(s.drop_last());
        if s.last() == '\n' {
            p.push(Seq::empty())
        } else {
            p.update(p.len() - 1, p.last().push(s.last()))
        }
    }
}

/// A terminated line without its `\r`, if it has one.
pub open spec fn strip_cr(l: Seq<char>) -> Seq<char> {
    if l.len() > 0 && l.last() == '\r' { l.drop_last() } else { l }
}

/// The lines of `s` as `str::lines` yields them: split at `\n`, a `\r`
/// before a `\n` dropped, and no empty final line.
pub open spec fn lines_of(s: Seq<char>) -> Seq<Seq<char>> {
    let p = lf_parts(s);
    let terminated = Seq::new((p.len() - 1) as nat, |i: int| strip_cr(p[i]));
    if p.last().len() == 0 { terminated } else { terminated.push(p.last()) }
}

proof fn lemma_lf_parts_nonempty(s: Seq<char>)
    ensures
        lf_parts(s).len() >= 1,
    decreases s.len(),
{
    if s.len() > 0 {
        lemma_lf_parts_nonempty(s.drop_last());
    }
}

/// The lines of a text.
pub fn text_lines(text: &str) -> (r: Vec<String>)
    ensures
        crate::text::views(r@) == lines_of(text@),
{
    let cs = chars_of(text);
    let n = cs.len();
    let mut done: Vec<String> = Vec::new();
    let mut cur: Vec<char> = Vec::new();
    let mut i: usize = 0;
    while i < n
        invariant
            cs@ == text@,
            n == cs@.len(),
            i <= n,
            lf_parts(cs@.take(i as int)).len() == done@.len() + 1,
            forall|k: int| 0 <= k < done@.len() ==> (#[trigger] done@[k])@ == strip_cr(lf_parts(cs@.take(i as int))[k]),
            cur@ == lf_parts(cs@.take(i as int)).last(),
        decreases n - i,
    {
        let ghost pre = cs@.take(i as int);
        assert(cs@.take(i as int + 1).drop_last() =~= pre);
        proof {
            lemma_lf_parts_nonempty(pre);
        }
        if cs[i] == '\n' {
            let ends_cr = cur.len() > 0 && cur[cur.len() - 1] == '\r';
            let line = if ends_cr {
                let k = cur.len() - 1;
                string_from_chars(&cur.as_slice()[0..k])
            } else {
                string_from_chars(cur.as_slice())
            };
            proof {
                if ends_cr {
                    assert(cur@.subrange(0, cur@.len() - 1) =~= cur@.drop_last());
                }
            }
            done.push(line);
            cur = Vec::new();
        } else {
            cur.push(cs[i]);
        }
        i += 1;
    }
    assert(cs@.take(n as int) =~= cs@);
    proof {
        lemma_lf_parts_nonempty(cs@);
    }
    if cur.len() > 0 {
        done.push(string_from_chars(cur.as_slice()));
    }
    proof {
        let p = lf_parts(text@);
        let terminated = Seq::new((p.len() - 1) as nat, |i: int| strip_cr(p[i]));
        if cur@.len() == 0 {
            assert(crate::text::views(done@) =~= terminated);
        } else {
            assert(crate::text::views(done@) =~= terminated.push(p.last()));
        }
    }
    done
}

/// The leading spaces of a line.
pub open spec fn indent_of(l: Seq<char>) -> int
    decreases l.len(),
{
    if l.len() > 0 && l[0] == ' ' { 1 + indent_of(l.drop_first()) } else { 0 }
}

/// How many times `c` repeats at the front of `l`.
pub open spec fn run_of(l: Seq<char>, c: char) -> int
    decreases l.len(),
{
    if l.len() > 0 && l[0] == c { 1 + run_of(l.drop_first(), c) } else { 0 }
}

proof fn lemma_run_bounds(l: Seq<char>, c: char)
    ensures
        0 <= run_of(l, c) <= l.len(),
        forall|k: int| 0 <= k < run_of(l, c) ==> l[k] == c,
        run_of(l, c) < l.len() ==> l[run_of(l, c)] != c,
    decreases l.len(),
{
    if l.len() > 0 && l[0] == c {
        lemma_run_bounds(l.drop_first(), c);
        assert forall|k: int| 0 <= k < run_of(l, c) implies l[k] == c by {
            if k > 0 {
                assert(l[k] == l.drop_first()[k - 1]);
            }
        }
        if run_of(l, c) < l.len() {
            assert(l[run_of(l, c)] == l.drop_first()[run_of(l, c) - 1]);
        }
    }
}

fn run_len(cs: &Vec<char>, from: usize, c: char) -> (r: usize)
    requires
        from <= cs@.len(),
    ensures
        r == run_of(cs@.skip(from as int), c),
        from + r <= cs@.len(),
{
    let mut k: usize = from;
    while k < cs.len() && cs[k] == c
        invariant
            from <= k <= cs@.len(),
            forall|q: int| from <= q < k ==> cs@[q] == c,
        decreases cs@.len() - k,
    {
        k += 1;
    }
    proof {
        let l = cs@.skip(from as int);
        lemma_run_bounds(l, c);
        let m = run_of(l, c);
        if m < k - from {
            assert(l[m] == cs@[from + m]);
        } else if m > k - from {
            assert(l[k - from] == c);
            assert(cs@[k as int] == c);
        }
    }
    k - from
}

/// Text without surrounding whitespace (`str::trim`).
pub open spec fn trim_white(s: Seq<char>) -> Seq<char>
    decreases s.len(),
{
    if s.len() > 0 && is_white(s[0]) {
        trim_white(s.drop_first())
    } else if s.len() > 0 && is_white(s.last()) {
        trim_white(s.drop_last())
    } else {
        s
    }
}

fn trim(cs: &Vec<char>, from: usize) -> (r: String)
    requires
        from <= cs@.len(),
    ensures
        r@ == trim_white(cs@.skip(from as int)),
{
    let mut a: usize = from;
    let mut b: usize = cs.len();
    assert(cs@.subrange(a as int, b as int) =~= cs@.skip(from as int));
    while a < b && (char_is_white(cs[a]) || char_is_white(cs[b - 1]))
        invariant
            from <= a <= b <= cs@.len(),
            trim_white(cs@.skip(from as int)) == trim_white(cs@.subrange(a as int, b as int)),
        decreases b - a,
    {
        let ghost s = cs@.subrange(a as int, b as int);
        if char_is_white(cs[a]) {
            assert(s.drop_first() =~= cs@.subrange(a as int + 1, b as int));
            a += 1;
        } else {
            assert(s.drop_last() =~= cs@.subrange(a as int, b as int - 1));
            b -= 1;
        }
    }
    string_from_chars(&cs.as_slice()[a..b])
}

/// An opening code fence: its marker, its length and its trimmed info
/// string.
pub open spec fn fence_open_spec(l: Seq<char>) -> Option<(char, int, Seq<char>)> {
    let indent = indent_of(l);
    let rest = l.skip(indent);
    if indent > 3 || rest.len() == 0 || (rest[0] != '`' && rest[0] != '~') {
        None
    } else {
        let count = run_of(rest, rest[0]);
        if count < 3 { None } else { Some((rest[0], count, trim_white(rest.skip(count)))) }
    }
}

/// A line that closes a fence of `count` markers `marker`.
pub open spec fn fence_close_spec(l: Seq<char>, marker: char, count: int) -> bool {
    let indent = indent_of(l);
    let rest = l.skip(indent);
    indent <= 3 && run_of(rest, marker) >= count && trim_white(rest.skip(run_of(rest, marker))).len() == 0
}

proof fn lemma_indent_is_run(l: Seq<char>)
    ensures
        indent_of(l) == run_of(l, ' '),
    decreases l.len(),
{
    if l.len() > 0 && l[0] == ' ' {
        lemma_indent_is_run(l.drop_first());
    }
}

fn fence_open(line: &str) -> (r: Option<(char, usize, String)>)
    ensures
        match r {
            Some((m, c, info)) => fence_open_spec(line@) == Some((m, c as int, info@)),
            None => fence_open_spec(line@) is None,
        },
{
    let cs = chars_of(line);
    let indent = run_len(&cs, 0, ' ');
    proof {
        assert(cs@.skip(0) =~= cs@);
        lemma_indent_is_run(cs@);
    }
    if indent > 3 || indent >= cs.len() {
        return None;
    }
    let marker = cs[indent];
    assert(cs@.skip(indent as int)[0] == marker);
    if marker != '`' && marker != '~' {
        return None;
    }
    let count = run_len(&cs, indent, marker);
    assert(cs@.skip(indent as int).skip(count as int) =~= cs@.skip((indent + count) as int));
    assert(cs@.skip(indent as int).skip(run_of(cs@.skip(indent as int), marker)) =~= cs@.skip((indent + count) as int));
    if count < 3 {
        return None;
    }
    let info = trim(&cs, indent + count);
    Some((marker, count, info))
}

fn fence_close(line: &str, marker: char, count: usize) -> (r: bool)
    ensures
        r == fence_close_spec(line@, marker, count as int),
{
    let cs = chars_of(line);
    let indent = run_len(&cs, 0, ' ');
    proof {
        assert(cs@.skip(0) =~= cs@);
        lemma_indent_is_run(cs@);
    }
    if indent > 3 {
        return false;
    }
    let seen = run_len(&cs, indent, marker);
    assert(cs@.skip(indent as int).skip(seen as int) =~= cs@.skip((indent + seen) as int));
    if seen < count {
        return false;
    }
    let n = cs.len();
    assert(indent + seen <= n);
    let from: usize = indent + seen;
    let tail = trim(&cs, from);
    tail.as_str().is_empty()
}


/// The first line from `k` on, before `e`, that closes the fence; `e` when
/// none does.
pub open spec fn close_at(lines: Seq<Seq<char>>, k: int, e: int, m: char, c: int) -> int
    decreases e - k,
{
    if k >= e {
        e
    } else if fence_close_spec(lines[k], m, c) {
        k
    } else {
        close_at(lines, k + 1, e, m, c)
    }
}

pub proof fn lemma_close_at_bounds(lines: Seq<Seq<char>>, k: int, e: int, m: char, c: int)
    requires
        k <= e,
    ensures
        k <= close_at(lines, k, e, m, c) <= e,
    decreases e - k,
{
    if k < e && !fence_close_spec(lines[k], m, c) {
        lemma_close_at_bounds(lines, k + 1, e, m, c);
    }
}

/// The YAML blocks fenced between lines `i` and `e`, appended to `acc`;
/// `None` when a fence opened there is never closed.
pub open spec fn blocks_from(lines: Seq<Seq<char>>, i: int, e: int, acc: Seq<Seq<char>>) -> Option<Seq<Seq<char>>>
    decreases e - i,
{
    if i >= e {
        Some(acc)
    } else {
        match fence_open_spec(lines[i]) {
            None => blocks_from(lines, i + 1, e, acc),
            Some((m, c, info)) => {
                let j = close_at(lines, i + 1, e, m, c);
                proof {
                    lemma_close_at_bounds(lines, i + 1, e, m, c);
                }
                if j >= e {
                    None
                } else {
                    blocks_from(lines, j + 1, e, if info == "yaml"@ { acc.push(join(lines.subrange(i + 1, j), "\n"@)) } else { acc })
                }
            },
        }
    }
}

/// The fenced `yaml` blocks of the text between lines `start` and `end`.
pub open spec fn yaml_blocks(text: Seq<char>, start: int, end: int) -> Option<Seq<Seq<char>>> {
    let lines = lines_of(text);
    let e = if end < lines.len() { end } else { lines.len() as int };
    blocks_from(lines, start, e, Seq::empty())
}

/// `malformed federation manifest <path>: <reason>`.
pub open spec fn malformed_message(path: Seq<char>, reason: Seq<char>) -> Seq<char> {
    "malformed federation manifest "@ + path + ": "@ + reason
}

/// A malformed-manifest error at `path`.
pub fn malformed(path: &str, reason: &str) -> (r: ParentCorpusError)
    ensures
        r.code == ParentCorpusErrorCode::MalformedManifest,
        r.message@ == malformed_message(path@, reason@),
        r.path matches Some(p) && p@ == path@,
{
    let mut m = owned("malformed federation manifest ");
    push_str(&mut m, path);
    push_str(&mut m, ": ");
    push_str(&mut m, reason);
    ParentCorpusError::at(ParentCorpusErrorCode::MalformedManifest, path, m.as_str())
}

fn close_index(lines: &Vec<String>, k: usize, e: usize, m: char, c: usize) -> (r: usize)
    requires
        k <= e <= lines@.len(),
    ensures
        r == close_at(views(lines@), k as int, e as int, m, c as int),
        k <= r <= e,
{
    let mut j = k;
    while j < e && !fence_close(lines[j].as_str(), m, c)
        invariant
            k <= j <= e <= lines@.len(),
            close_at(views(lines@), k as int, e as int, m, c as int) == close_at(views(lines@), j as int, e as int, m, c as int),
        decreases e - j,
    {
        assert(views(lines@)[j as int] == lines@[j as int]@);
        j += 1;
    }
    if j < e {
        assert(views(lines@)[j as int] == lines@[j as int]@);
    }
    j
}

fn joined_lines(lines: &Vec<String>, a: usize, b: usize) -> (r: String)
    requires
        a <= b <= lines@.len(),
    ensures
        r@ == join(views(lines@).subrange(a as int, b as int), "\n"@),
{
    let mut part: Vec<String> = Vec::new();
    let mut k = a;
    while k < b
        invariant
            a <= k <= b <= lines@.len(),
            views(part@) == views(lines@).subrange(a as int, k as int),
        decreases b - k,
    {
        let line = lines[k].clone();
        let ghost before = part@;
        part.push(line);
        assert(views(part@) =~= views(before).push(lines@[k as int]@));
        assert(views(part@) =~= views(lines@).subrange(a as int, k as int + 1));
        k += 1;
    }
    join_strings(&part, "\n")
}

/// The fenced `yaml` blocks between lines `start` and `end` of a manifest;
/// a fence left open is a malformed manifest.
pub fn fenced_yaml_blocks(path: &str, text: &str, start: usize, end: usize) -> (r: Result<Vec<String>, ParentCorpusError>)
    ensures
        match r {
            Ok(v) => yaml_blocks(text@, start as int, end as int) == Some(views(v@)),
            Err(err) => yaml_blocks(text@, start as int, end as int) is None
                && err.code == ParentCorpusErrorCode::MalformedManifest
                && err.message@ == malformed_message(path@, "unterminated fenced block"@)
                && (err.path matches Some(p) && p@ == path@),
        },
{
    let lines = text_lines(text);
    let ghost lv = views(lines@);
    let e = if end < lines.len() { end } else { lines.len() };
    let mut blocks: Vec<String> = Vec::new();
    let mut i = start;
    assert(views(blocks@) =~= Seq::<Seq<char>>::empty());
    while i < e
        invariant
            lv == views(lines@),
            lv == lines_of(text@),
            e <= lines@.len(),
            e == (if end < lines_of(text@).len() { end as int } else { lines_of(text@).len() as int }),
            yaml_blocks(text@, start as int, end as int) == blocks_from(lv, i as int, e as int, views(blocks@)),
        decreases e - i,
    {
        assert(lv[i as int] == lines@[i as int]@);
        match fence_open(lines[i].as_str()) {
            None => {
                i += 1;
            },
            Some((m, c, info)) => {
                let j = close_index(&lines, i + 1, e, m, c);
                proof {
                    lemma_close_at_bounds(lv, i as int + 1, e as int, m, c as int);
                }
                if j >= e {
                    return Err(malformed(path, "unterminated fenced block"));
                }
                if str_eq(info.as_str(), "yaml") {
                    let block = joined_lines(&lines, i + 1, j);
                    let ghost before = views(blocks@);
                    blocks.push(block);
                    assert(views(blocks@) =~= before.push(join(lv.subrange(i as int + 1, j as int), "\n"@)));
                }
                i = j + 1;
            },
        }
    }
    Ok(blocks)
}


pub const V2_MAX_ALIAS_BYTES: usize = 64;
pub const V2_MAX_SOURCE_BYTES: usize = 255;
pub const V2_MAX_PATH_BYTES: usize = 4096;
pub const V2_MAX_PATH_COMPONENTS: usize = 64;
pub const V2_MAX_PATH_COMPONENT_BYTES: usize = 255;
pub const V2_MAX_DIRECT_PARENTS: usize = 32;
pub const V2_MAX_OVERRIDES: usize = 4096;

/// An ASCII lower-case letter or digit.
pub open spec fn is_lower_alnum(b: u8) -> bool {
    (0x61 <= b && b <= 0x7a) || (0x30 <= b && b <= 0x39)
}

/// A lower-case local name: letters, digits, `-`, `_` and `.`, starting and
/// ending with a letter or digit.
pub open spec fn valid_alias_bytes(b: Seq<u8>) -> bool {
    &&& b.len() > 0
    &&& is_lower_alnum(b[0])
    &&& is_lower_alnum(b.last())
    &&& forall|i: int| 0 <= i < b.len() ==> is_lower_alnum(#[trigger] b[i]) || b[i] == 0x2d || b[i] == 0x5f || b[i] == 0x2e
}

/// Whether an alias has the lower-case local-name syntax.
pub fn valid_alias(alias: &str) -> (r: bool)
    ensures
        r == valid_alias_bytes(utf8(alias@)),
{
    let b = bytes_of(alias);
    let n = b.len();
    if n == 0 {
        return false;
    }
    let first = b[0];
    let last = b[n - 1];
    assert(b@.last() == b@[n - 1]);
    if !(((0x61 <= first && first <= 0x7a) || (0x30 <= first && first <= 0x39))
        && ((0x61 <= last && last <= 0x7a) || (0x30 <= last && last <= 0x39))) {
        return false;
    }
    let mut i: usize = 0;
    while i < n
        invariant
            n == b@.len(),
            b@ == utf8(alias@),
            n > 0,
            is_lower_alnum(b@[0]),
            is_lower_alnum(b@.last()),
            i <= n,
            forall|k: int| 0 <= k < i ==> is_lower_alnum(#[trigger] b@[k]) || b@[k] == 0x2d || b@[k] == 0x5f || b@[k] == 0x2e,
        decreases n - i,
    {
        let c = b[i];
        if !((0x61 <= c && c <= 0x7a) || (0x30 <= c && c <= 0x39) || c == 0x2d || c == 0x5f || c == 0x2e) {
            return false;
        }
        i += 1;
    }
    true
}

/// A lower-case hexadecimal digit.
pub open spec fn is_lower_hex(c: char) -> bool {
    ('0' <= c && c <= '9') || ('a' <= c && c <= 'f')
}

/// `sha256-v2:` followed by exactly 64 lower-case hexadecimal digits.
pub open spec fn valid_v2_digest_spec(d: Seq<char>) -> bool {
    &&& d.len() == 74
    &&& d.take(10) == "sha256-v2:"@
    &&& forall|i: int| 10 <= i < 74 ==> is_lower_hex(#[trigger] d[i])
}

/// Whether a pin is a full version-2 digest.
pub fn valid_v2_digest(digest: &str) -> (r: bool)
    ensures
        r == valid_v2_digest_spec(digest@),
{
    let cs = chars_of(digest);
    if cs.len() != 74 {
        return false;
    }
    let prefix = string_from_chars(&cs.as_slice()[0..10]);
    assert(cs@.subrange(0, 10) =~= cs@.take(10));
    if !str_eq(prefix.as_str(), "sha256-v2:") {
        return false;
    }
    let mut i: usize = 10;
    while i < 74
        invariant
            cs@ == digest@,
            cs@.len() == 74,
            10 <= i <= 74,
            forall|k: int| 10 <= k < i ==> is_lower_hex(#[trigger] cs@[k]),
        decreases 74 - i,
    {
        let c = cs[i];
        if !(('0' <= c && c <= '9') || ('a' <= c && c <= 'f')) {
            return false;
        }
        i += 1;
    }
    true
}

/// The parts of `s` between occurrences of `c`.
pub open spec fn split_on(s: Seq<char>, c: char) -> Seq<Seq<char>>
    decreases s.len(),
{
    if s.len() == 0 {
        seq![Seq::empty()]
    } else {
        let p = split_on(s.drop_last(), c);
        if s.last() == c {
            p.push(Seq::empty())
        } else {
            p.update(p.len() - 1, p.last().push(s.last()))
        }
    }
}

proof fn lemma_split_nonempty(s: Seq<char>, c: char)
    ensures
        split_on(s, c).len() >= 1,
    decreases s.len(),
{
    if s.len() > 0 {
        lemma_split_nonempty(s.drop_last(), c);
    }
}

/// `s.split(c)`.
pub fn split_char(s: &str, c: char) -> (r: Vec<String>)
    ensures
        views(r@) == split_on(s@, c),
{
    let cs = chars_of(s);
    let n = cs.len();
    let mut done: Vec<String> = Vec::new();
    let mut cur: Vec<char> = Vec::new();
    let mut i: usize = 0;
    while i < n
        invariant
            cs@ == s@,
            n == cs@.len(),
            i <= n,
            split_on(cs@.take(i as int), c).len() == done@.len() + 1,
            forall|k: int| 0 <= k < done@.len() ==> (#[trigger] done@[k])@ == split_on(cs@.take(i as int), c)[k],
            cur@ == split_on(cs@.take(i as int), c).last(),
        decreases n - i,
    {
        let ghost pre = cs@.take(i as int);
        assert(cs@.take(i as int + 1).drop_last() =~= pre);
        proof {
            lemma_split_nonempty(pre, c);
        }
        if cs[i] == c {
            done.push(string_from_chars(cur.as_slice()));
            cur = Vec::new();
        } else {
            cur.push(cs[i]);
        }
        i += 1;
    }
    assert(cs@.take(n as int) =~= cs@);
    proof {
        lemma_split_nonempty(cs@, c);
    }
    done.push(string_from_chars(cur.as_slice()));
    assert(views(done@) =~= split_on(s@, c));
    done
}

/// What is wrong with one path component, if anything: 1 for an empty,
/// `.` or `..` component, 2 for one longer than the byte limit.
pub open spec fn component_problem(c: Seq<char>) -> int {
    if c.len() == 0 || c == "."@ || c == ".."@ {
        1
    } else if utf8(c).len() > V2_MAX_PATH_COMPONENT_BYTES {
        2
    } else {
        0
    }
}

/// The problem of the first faulty component from `i` on, or 0.
pub open spec fn first_component_problem(cs: Seq<Seq<char>>, i: int) -> int
    decreases cs.len() - i,
{
    if i >= cs.len() {
        0
    } else if component_problem(cs[i]) != 0 {
        component_problem(cs[i])
    } else {
        first_component_problem(cs, i + 1)
    }
}

/// Why a version-2 path value is refused, after the quoted field name.
pub open spec fn v2_path_reason(v: Seq<char>) -> Option<Seq<char>> {
    let bytes = utf8(v);
    let parts = split_on(v, '/');
    if v.len() == 0 {
        Some("must be a non-empty POSIX-relative path"@)
    } else if bytes.len() > V2_MAX_PATH_BYTES {
        Some("exceeds 4096 UTF-8 bytes"@)
    } else if v[0] == '/' || v.contains('\\') || (bytes.len() > 1 && bytes[1] == 0x3a) {
        Some("must be POSIX-relative"@)
    } else if parts.len() > V2_MAX_PATH_COMPONENTS {
        Some("exceeds 64 path components"@)
    } else if first_component_problem(parts, 0) == 1 {
        Some("must not contain empty, '.', or '..' components"@)
    } else if first_component_problem(parts, 0) == 2 {
        Some("component exceeds 255 UTF-8 bytes"@)
    } else {
        None
    }
}

fn contains_char(cs: &Vec<char>, c: char) -> (r: bool)
    ensures
        r == cs@.contains(c),
{
    let mut i: usize = 0;
    while i < cs.len()
        invariant
            i <= cs@.len(),
            forall|k: int| 0 <= k < i ==> cs@[k] != c,
        decreases cs@.len() - i,
    {
        if cs[i] == c {
            return true;
        }
        i += 1;
    }
    false
}

fn first_problem(parts: &Vec<String>) -> (r: u8)
    ensures
        r as int == first_component_problem(views(parts@), 0),
{
    let mut i = parts.len();
    let mut found: u8 = 0;
    while i > 0
        invariant
            i <= parts@.len(),
            found as int == first_component_problem(views(parts@), i as int),
        decreases i,
    {
        i -= 1;
        let p = parts[i].as_str();
        assert(views(parts@)[i as int] == p@);
        let cp: u8 = if p.is_empty() || str_eq(p, ".") || str_eq(p, "..") {
            1
        } else if bytes_of(p).len() > V2_MAX_PATH_COMPONENT_BYTES {
            2
        } else {
            0
        };
        proof {
            reveal_strlit(".");
            reveal_strlit("..");
        }
        if cp != 0 {
            found = cp;
        }
    }
    found
}

/// The reason a version-2 path is refused, quoted with its field.
pub open spec fn field_reason(field: Seq<char>, reason: Seq<char>) -> Seq<char> {
    "'"@ + field + "' "@ + reason
}

/// A version-2 `root` or `corpus` value must be a POSIX-relative path of
/// non-empty, non-dot components within the byte and component limits.
pub fn validate_v2_path(value: &str, field: &str) -> (r: Result<(), String>)
    ensures
        match v2_path_reason(value@) {
            None => r is Ok,
            Some(reason) => r matches Err(m) && m@ == field_reason(field@, reason),
        },
{
    let cs = chars_of(value);
    let bytes = bytes_of(value);
    let reason: Option<&'static str> = if cs.len() == 0 {
        Some("must be a non-empty POSIX-relative path")
    } else if bytes.len() > V2_MAX_PATH_BYTES {
        Some("exceeds 4096 UTF-8 bytes")
    } else if cs[0] == '/' || contains_char(&cs, '\\') || (bytes.len() > 1 && bytes[1] == 0x3a) {
        Some("must be POSIX-relative")
    } else {
        let parts = split_char(value, '/');
        if parts.len() > V2_MAX_PATH_COMPONENTS {
            Some("exceeds 64 path components")
        } else {
            let p = first_problem(&parts);
            if p == 1 {
                Some("must not contain empty, '.', or '..' components")
            } else if p == 2 {
                Some("component exceeds 255 UTF-8 bytes")
            } else {
                None
            }
        }
    };
    match reason {
        None => Ok(()),
        Some(text) => {
            let mut m = owned("'");
            push_str(&mut m, field);
            push_str(&mut m, "' ");
            push_str(&mut m, text);
            Err(m)
        },
    }
}

/// `federation limit exceeded: dimension=<d>, limit=<l>, observed=<o>`.
pub open spec fn limit_message(dimension: Seq<char>, limit: nat, observed: nat) -> Seq<char> {
    "federation limit exceeded: dimension="@ + dimension + ", limit="@ + decimal(limit) + ", observed="@ + decimal(observed)
}

/// A limit error at `path`.
pub fn limit_error(path: &str, dimension: &str, limit: usize, observed: usize) -> (r: ParentCorpusError)
    ensures
        r.code == ParentCorpusErrorCode::LimitExceeded,
        r.message@ == limit_message(dimension@, limit as nat, observed as nat),
        r.path matches Some(p) && p@ == path@,
{
    let mut m = owned("federation limit exceeded: dimension=");
    push_str(&mut m, dimension);
    push_str(&mut m, ", limit=");
    push_str(&mut m, usize_to_string(limit).as_str());
    push_str(&mut m, ", observed=");
    push_str(&mut m, usize_to_string(observed).as_str());
    ParentCorpusError::at(ParentCorpusErrorCode::LimitExceeded, path, m.as_str())
}

/// Some component is longer than the byte limit.
pub open spec fn long_component(parts: Seq<Seq<char>>) -> bool {
    exists|i: int| 0 <= i < parts.len() && utf8(#[trigger] parts[i]).len() > V2_MAX_PATH_COMPONENT_BYTES
}

/// The limit a version-2 path value breaks first, as (dimension suffix,
/// limit).
pub open spec fn v2_path_limit(v: Seq<char>) -> Option<(Seq<char>, nat)> {
    let parts = split_on(v, '/');
    if utf8(v).len() > V2_MAX_PATH_BYTES {
        Some(("-path-bytes"@, V2_MAX_PATH_BYTES as nat))
    } else if parts.len() > V2_MAX_PATH_COMPONENTS {
        Some(("-path-components"@, V2_MAX_PATH_COMPONENTS as nat))
    } else if long_component(parts) {
        Some(("-path-component-bytes"@, V2_MAX_PATH_COMPONENT_BYTES as nat))
    } else {
        None
    }
}

/// A version-2 path value within the path limits; a breach is reported at
/// `path` with the limit and the limit plus one.
pub fn validate_v2_path_limits(path: &str, value: &str, field: &str) -> (r: Result<(), ParentCorpusError>)
    ensures
        match v2_path_limit(value@) {
            None => r is Ok,
            Some((suffix, limit)) => r matches Err(e) && e.code == ParentCorpusErrorCode::LimitExceeded
                && e.message@ == limit_message(field@ + suffix, limit, limit + 1)
                && (e.path matches Some(p) && p@ == path@),
        },
{
    let bytes = bytes_of(value);
    if bytes.len() > V2_MAX_PATH_BYTES {
        let mut d = owned(field);
        push_str(&mut d, "-path-bytes");
        return Err(limit_error(path, d.as_str(), V2_MAX_PATH_BYTES, V2_MAX_PATH_BYTES + 1));
    }
    let parts = split_char(value, '/');
    if parts.len() > V2_MAX_PATH_COMPONENTS {
        let mut d = owned(field);
        push_str(&mut d, "-path-components");
        return Err(limit_error(path, d.as_str(), V2_MAX_PATH_COMPONENTS, V2_MAX_PATH_COMPONENTS + 1));
    }
    let mut i: usize = 0;
    while i < parts.len()
        invariant
            i <= parts@.len(),
            views(parts@) == split_on(value@, '/'),
            utf8(value@).len() <= V2_MAX_PATH_BYTES,
            parts@.len() <= V2_MAX_PATH_COMPONENTS,
            forall|k: int| 0 <= k < i ==> utf8(#[trigger] views(parts@)[k]).len() <= V2_MAX_PATH_COMPONENT_BYTES,
        decreases parts@.len() - i,
    {
        assert(views(parts@)[i as int] == parts@[i as int]@);
        if bytes_of(parts[i].as_str()).len() > V2_MAX_PATH_COMPONENT_BYTES {
            let mut d = owned(field);
            push_str(&mut d, "-path-component-bytes");
            assert(utf8(views(parts@)[i as int]).len() > V2_MAX_PATH_COMPONENT_BYTES);
            assert(long_component(views(parts@)));
            return Err(limit_error(path, d.as_str(), V2_MAX_PATH_COMPONENT_BYTES, V2_MAX_PATH_COMPONENT_BYTES + 1));
        }
        i += 1;
    }
    Ok(())
}


/// The unquoted, uncommented characters of a YAML line from position `i`
/// on, given the quoting state there: quoted text and comments are
/// dropped, and a backslash escapes the next character inside double
/// quotes.
pub open spec fn plain_from(l: Seq<char>, i: int, single: bool, double: bool, escaped: bool) -> Seq<char>
    decreases l.len() - i,
{
    if i >= l.len() {
        Seq::empty()
    } else {
        let c = l[i];
        if escaped {
            plain_from(l, i + 1, single, double, false)
        } else if double && c == '\\' {
            plain_from(l, i + 1, single, double, true)
        } else if !double && c == '\'' {
            plain_from(l, i + 1, !single, double, false)
        } else if !single && c == '"' {
            plain_from(l, i + 1, single, !double, false)
        } else if !single && !double && c == '#' {
            Seq::empty()
        } else if !single && !double {
            seq![c] + plain_from(l, i + 1, single, double, false)
        } else {
            plain_from(l, i + 1, single, double, false)
        }
    }
}

/// A character that separates YAML tokens for the lexical check.
pub open spec fn is_token_sep(c: char) -> bool {
    is_white(c) || c == ':' || c == ',' || c == '[' || c == ']' || c == '{' || c == '}'
}

/// A token of `p` starts at `i` with an anchor, alias or tag sigil.
pub open spec fn sigil_at(p: Seq<char>, i: int) -> bool {
    (p[i] == '&' || p[i] == '*' || p[i] == '!') && (i == 0 || is_token_sep(p[i - 1]))
}

/// Some token of `p` starts with an anchor, alias or tag sigil.
pub open spec fn has_sigil_token(p: Seq<char>) -> bool {
    exists|i: int| 0 <= i < p.len() && #[trigger] sigil_at(p, i)
}

/// `s` without leading whitespace.
pub open spec fn trim_start_white(s: Seq<char>) -> Seq<char>
    decreases s.len(),
{
    if s.len() > 0 && is_white(s[0]) { trim_start_white(s.drop_first()) } else { s }
}

/// A plain line that uses an anchor, alias, tag or merge key.
pub open spec fn forbidden_plain(p: Seq<char>) -> bool {
    ||| has_sigil_token(p)
    ||| (trim_start_white(p).len() >= 3 && trim_start_white(p).take(3) == "<<:"@)
    ||| crate::text::contains_seq(p, " <<:"@)
}

/// The first line from `i` on that uses a forbidden YAML construct.
pub open spec fn first_forbidden_line(lines: Seq<Seq<char>>, i: int) -> Option<int>
    decreases lines.len() - i,
{
    if i >= lines.len() {
        None
    } else if forbidden_plain(plain_from(lines[i], 0, false, false, false)) {
        Some(i)
    } else {
        first_forbidden_line(lines, i + 1)
    }
}

fn plain_line(line: &str) -> (r: Vec<char>)
    ensures
        r@ == plain_from(line@, 0, false, false, false),
{
    let cs = chars_of(line);
    let mut out: Vec<char> = Vec::new();
    let mut single = false;
    let mut double = false;
    let mut escaped = false;
    let mut i: usize = 0;
    while i < cs.len()
        invariant
            cs@ == line@,
            i <= cs@.len(),
            out@ + plain_from(cs@, i as int, single, double, escaped) == plain_from(cs@, 0, false, false, false),
        decreases cs@.len() - i,
    {
        let c = cs[i];
        if escaped {
            escaped = false;
        } else if double && c == '\\' {
            escaped = true;
        } else if !double && c == '\'' {
            single = !single;
        } else if !single && c == '"' {
            double = !double;
        } else if !single && !double && c == '#' {
            assert(out@ + Seq::<char>::empty() =~= out@);
            return out;
        } else if !single && !double {
            let ghost before = out@;
            out.push(c);
            assert(before + (seq![c] + plain_from(cs@, i as int + 1, single, double, false)) =~= out@ + plain_from(cs@, i as int + 1, single, double, false));
        }
        i += 1;
    }
    assert(out@ + Seq::<char>::empty() =~= out@);
    out
}

fn sigil_token(p: &Vec<char>) -> (r: bool)
    ensures
        r == has_sigil_token(p@),
{
    let mut i: usize = 0;
    while i < p.len()
        invariant
            i <= p@.len(),
            forall|k: int| 0 <= k < i ==> !#[trigger] sigil_at(p@, k),
        decreases p@.len() - i,
    {
        let c = p[i];
        if c == '&' || c == '*' || c == '!' {
            if i == 0 {
                assert(sigil_at(p@, 0));
                return true;
            }
            let q = p[i - 1];
            if char_is_white(q) || q == ':' || q == ',' || q == '[' || q == ']' || q == '{' || q == '}' {
                assert(sigil_at(p@, i as int));
                return true;
            }
        }
        assert(!sigil_at(p@, i as int));
        i += 1;
    }
    false
}

fn forbidden(p: &Vec<char>) -> (r: bool)
    ensures
        r == forbidden_plain(p@),
{
    if sigil_token(p) {
        return true;
    }
    let mut a: usize = 0;
    assert(p@.skip(0) =~= p@);
    while a < p.len() && char_is_white(p[a])
        invariant
            a <= p@.len(),
            trim_start_white(p@) == trim_start_white(p@.skip(a as int)),
        decreases p@.len() - a,
    {
        assert(p@.skip(a as int).drop_first() =~= p@.skip(a as int + 1));
        a += 1;
    }
    assert(p@.skip(0) =~= p@);
    let ghost t = p@.skip(a as int);
    assert(trim_start_white(t) == t);
    let merge_start = a < p.len() && p.len() - a >= 3 && p[a] == '<' && p[a + 1] == '<' && p[a + 2] == ':';
    proof {
        reveal_strlit("<<:");
        if a + 3 <= p@.len() {
            assert(t.take(3) =~= seq![p@[a as int], p@[a as int + 1], p@[a as int + 2]]);
        }
    }
    if merge_start {
        proof {
            assert(t.len() >= 3);
            assert(t[0] == '<' && t[1] == '<' && t[2] == ':');
            assert(t.take(3) =~= "<<:"@);
        }
        return true;
    }
    let text = string_from_chars(p.as_slice());
    crate::text::str_contains(text.as_str(), " <<:")
}

/// Version-2 YAML may not use anchors, aliases, custom tags or merge keys;
/// the first line that does is reported, counting from one.
pub fn strict_yaml_lexical_check(path: &str, yaml: &str) -> (r: Result<(), ParentCorpusError>)
    ensures
        match first_forbidden_line(lines_of(yaml@), 0) {
            None => r is Ok,
            Some(i) => r matches Err(e) && e.code == ParentCorpusErrorCode::MalformedManifest
                && e.message@ == malformed_message(path@,
                    "version 2 YAML forbids anchors, aliases, custom tags, and merge keys (line "@ + decimal((i + 1) as nat) + ")"@)
                && (e.path matches Some(p) && p@ == path@),
        },
{
    let lines = text_lines(yaml);
    let ghost lv = views(lines@);
    let mut i: usize = 0;
    while i < lines.len()
        invariant
            lv == views(lines@),
            lv == lines_of(yaml@),
            i <= lines@.len(),
            first_forbidden_line(lv, 0) == first_forbidden_line(lv, i as int),
        decreases lines@.len() - i,
    {
        assert(lv[i as int] == lines@[i as int]@);
        let plain = plain_line(lines[i].as_str());
        if forbidden(&plain) {
            let mut reason = owned("version 2 YAML forbids anchors, aliases, custom tags, and merge keys (line ");
            push_str(&mut reason, usize_to_string(i + 1).as_str());
            push_str(&mut reason, ")");
            return Err(malformed(path, reason.as_str()));
        }
        i += 1;
    }
    Ok(())
}


/// Why a version-1 `root` or `corpus` value is refused, after the quoted
/// field name: it must be non-empty, not absolute, and free of `..`
/// components.
pub open spec fn relative_path_reason(v: Seq<char>) -> Option<Seq<char>> {
    if v.len() == 0 {
        Some("must be a non-empty relative path"@)
    } else if v[0] == '/' {
        Some("must not be absolute"@)
    } else if split_on(v, '/').contains(".."@) {
        Some("must not contain '..'"@)
    } else {
        None
    }
}

/// A version-1 path value must be repository-relative.
pub fn validate_relative_path(value: &str, field: &str) -> (r: Result<(), String>)
    ensures
        match relative_path_reason(value@) {
            None => r is Ok,
            Some(reason) => r matches Err(m) && m@ == field_reason(field@, reason),
        },
{
    let cs = chars_of(value);
    let reason: Option<&'static str> = if cs.len() == 0 {
        Some("must be a non-empty relative path")
    } else if cs[0] == '/' {
        Some("must not be absolute")
    } else {
        let parts = split_char(value, '/');
        let mut i: usize = 0;
        let mut up = false;
        while i < parts.len()
            invariant
                i <= parts@.len(),
                views(parts@) == split_on(value@, '/'),
                up == (exists|k: int| 0 <= k < i && views(parts@)[k] == ".."@),
            decreases parts@.len() - i,
        {
            assert(views(parts@)[i as int] == parts@[i as int]@);
            if str_eq(parts[i].as_str(), "..") {
                up = true;
            }
            i += 1;
        }
        proof {
            if split_on(value@, '/').contains(".."@) {
                let k = choose|k: int| 0 <= k < split_on(value@, '/').len() && split_on(value@, '/')[k] == ".."@;
                assert(views(parts@)[k] == ".."@);
            }
        }
        if up { Some("must not contain '..'") } else { None }
    };
    match reason {
        None => Ok(()),
        Some(text) => {
            let mut m = owned("'");
            push_str(&mut m, field);
            push_str(&mut m, "' ");
            push_str(&mut m, text);
            Err(m)
        },
    }
}

/// `sha256:` followed by exactly 64 lower-case hexadecimal digits.
pub open spec fn valid_v1_digest_spec(d: Seq<char>) -> bool {
    &&& d.len() == 71
    &&& d.take(7) == "sha256:"@
    &&& forall|i: int| 7 <= i < 71 ==> is_lower_hex(#[trigger] d[i])
}

/// Whether a pin is a full version-1 digest.
pub fn valid_v1_digest(digest: &str) -> (r: bool)
    ensures
        r == valid_v1_digest_spec(digest@),
{
    let cs = chars_of(digest);
    if cs.len() != 71 {
        return false;
    }
    let prefix = string_from_chars(&cs.as_slice()[0..7]);
    assert(cs@.subrange(0, 7) =~= cs@.take(7));
    if !str_eq(prefix.as_str(), "sha256:") {
        return false;
    }
    let mut i: usize = 7;
    while i < 71
        invariant
            cs@ == digest@,
            cs@.len() == 71,
            7 <= i <= 71,
            forall|k: int| 7 <= k < i ==> is_lower_hex(#[trigger] cs@[k]),
        decreases 71 - i,
    {
        let c = cs[i];
        if !(('0' <= c && c <= '9') || ('a' <= c && c <= 'f')) {
            return false;
        }
        i += 1;
    }
    true
}


/// Line `line` is a top-level ATX `##` heading: at most three spaces of
/// indent, then `## ` or `##` and a tab.
pub open spec fn atx_h2_spec(lines: Seq<Seq<char>>, line: int) -> bool {
    0 <= line < lines.len() && {
        let raw = lines[line];
        let indent = indent_of(raw);
        let rest = raw.skip(indent);
        indent <= 3 && rest.len() >= 3 && rest[0] == '#' && rest[1] == '#' && (rest[2] == ' ' || rest[2] == '\t')
    }
}

/// A Setext underline: only `=` or only `-`, at least one, after at most
/// three spaces and before trailing whitespace.
pub open spec fn setext_underline(l: Seq<char>) -> bool {
    let indent = indent_of(l);
    let u = crate::text::trim_end_white(l.skip(indent));
    indent <= 3 && u.len() > 0 && ((forall|i: int| 0 <= i < u.len() ==> u[i] == '=') || (forall|i: int| 0 <= i < u.len() ==> u[i] == '-'))
}

/// Line `line` starts a top-level heading: an ATX heading of any level, or
/// a line whose next line is a Setext underline.
pub open spec fn top_heading_spec(lines: Seq<Seq<char>>, line: int) -> bool {
    0 <= line < lines.len() && {
        let raw = lines[line];
        let indent = indent_of(raw);
        let rest = raw.skip(indent);
        indent <= 3 && ((rest.len() > 0 && rest[0] == '#') || (line + 1 < lines.len() && setext_underline(lines[line + 1])))
    }
}

/// Whether line `line` is a top-level `##` heading.
pub fn is_top_level_atx_h2(lines: &Vec<String>, line: i64) -> (r: bool)
    ensures
        r == atx_h2_spec(views(lines@), line as int),
{
    if line < 0 || line as u64 >= lines.len() as u64 {
        return false;
    }
    let raw = chars_of(lines[line as usize].as_str());
    assert(views(lines@)[line as int] == lines@[line as int]@);
    let indent = run_len(&raw, 0, ' ');
    proof {
        assert(raw@.skip(0) =~= raw@);
        lemma_indent_is_run(raw@);
    }
    if indent > 3 {
        return false;
    }
    let n = raw.len();
    if n - indent < 3 {
        return false;
    }
    assert(raw@.skip(indent as int)[0] == raw@[indent as int]);
    assert(raw@.skip(indent as int)[1] == raw@[indent as int + 1]);
    assert(raw@.skip(indent as int)[2] == raw@[indent as int + 2]);
    raw[indent] == '#' && raw[indent + 1] == '#' && (raw[indent + 2] == ' ' || raw[indent + 2] == '\t')
}

fn underline(l: &str) -> (r: bool)
    ensures
        r == setext_underline(l@),
{
    let cs = chars_of(l);
    let indent = run_len(&cs, 0, ' ');
    proof {
        assert(cs@.skip(0) =~= cs@);
        lemma_indent_is_run(cs@);
    }
    if indent > 3 {
        return false;
    }
    let n = cs.len();
    let rest = string_from_chars(&cs.as_slice()[indent..n]);
    assert(cs@.subrange(indent as int, cs@.len() as int) =~= cs@.skip(indent as int));
    let trimmed = crate::text::trim_end(rest.as_str());
    let u = chars_of(trimmed.as_str());
    if u.len() == 0 {
        return false;
    }
    let mut all_eq = true;
    let mut all_dash = true;
    let mut i: usize = 0;
    while i < u.len()
        invariant
            i <= u@.len(),
            all_eq == (forall|k: int| 0 <= k < i ==> u@[k] == '='),
            all_dash == (forall|k: int| 0 <= k < i ==> u@[k] == '-'),
        decreases u@.len() - i,
    {
        if u[i] != '=' {
            all_eq = false;
        }
        if u[i] != '-' {
            all_dash = false;
        }
        i += 1;
    }
    all_eq || all_dash
}

/// Whether line `line` starts a top-level heading of any level.
pub fn is_top_level_heading(lines: &Vec<String>, line: i64) -> (r: bool)
    ensures
        r == top_heading_spec(views(lines@), line as int),
{
    if line < 0 || line as u64 >= lines.len() as u64 {
        return false;
    }
    let index = line as usize;
    let raw = chars_of(lines[index].as_str());
    assert(views(lines@)[index as int] == lines@[index as int]@);
    let indent = run_len(&raw, 0, ' ');
    proof {
        assert(raw@.skip(0) =~= raw@);
        lemma_indent_is_run(raw@);
    }
    if indent > 3 {
        return false;
    }
    if indent < raw.len() && raw[indent] == '#' {
        assert(raw@.skip(indent as int)[0] == raw@[indent as int]);
        return true;
    }
    proof {
        if raw@.skip(indent as int).len() > 0 {
            assert(raw@.skip(indent as int)[0] == raw@[indent as int]);
        }
    }
    if index + 1 < lines.len() {
        assert(views(lines@)[index as int + 1] == lines@[index as int + 1]@);
        underline(lines[index + 1].as_str())
    } else {
        false
    }
}

/// One parent entry of a version-2 `## inherits` mapping, as read.
#[derive(Debug, Clone, PartialEq, Eq)]
pub struct RawGraphParent {
    pub alias: String,
    pub source: String,
    pub root: String,
    pub corpus: String,
    pub digest: String,
}

/// A parent declaration as plain values: version, alias, source, root,
/// corpus, digest.
pub type DeclarationView = (u32, Seq<char>, Seq<char>, Seq<char>, Seq<char>, Seq<char>);

pub open spec fn declaration_view(d: ParentDeclaration) -> DeclarationView {
    (d.version, d.alias@, d.source@, d.root@, d.corpus@, d.digest@)
}

pub open spec fn declaration_views(v: Seq<ParentDeclaration>) -> Seq<DeclarationView> {
    Seq::new(v.len(), |i: int| declaration_view(v[i]))
}

/// The declaration a valid raw parent becomes.
pub open spec fn raw_declaration(p: RawGraphParent) -> DeclarationView {
    (2u32, p.alias@, p.source@, p.root@, p.corpus@, p.digest@)
}

pub open spec fn raw_declarations(v: Seq<RawGraphParent>) -> Seq<DeclarationView> {
    Seq::new(v.len(), |i: int| raw_declaration(v[i]))
}

/// Parents are ordered by source, digest, alias, root, corpus.
pub open spec fn declaration_key(d: DeclarationView) -> Seq<Seq<char>> {
    seq![d.2, d.5, d.1, d.3, d.4]
}

pub const ALIAS_SYNTAX: &'static str = "'alias' must match the version 2 lowercase syntax and be at most 64 bytes";
pub const SOURCE_SYNTAX: &'static str = "'source' must be a lower-case slash-namespaced identity of at most 255 bytes";
pub const DIGEST_SYNTAX: &'static str = "'digest' must be sha256-v2: followed by exactly 64 lowercase hexadecimal characters";

/// Why one raw parent is refused, as code and message, if it is.
/// `source_valid` is whether its source is a corpus identity.
pub open spec fn graph_parent_error(path: Seq<char>, p: RawGraphParent, source_valid: bool) -> Option<(ParentCorpusErrorCode, Seq<char>)> {
    if utf8(p.alias@).len() > V2_MAX_ALIAS_BYTES {
        Some((ParentCorpusErrorCode::LimitExceeded, limit_message("alias-bytes"@, V2_MAX_ALIAS_BYTES as nat, (V2_MAX_ALIAS_BYTES + 1) as nat)))
    } else if !valid_alias_bytes(utf8(p.alias@)) {
        Some((ParentCorpusErrorCode::MalformedManifest, malformed_message(path, ALIAS_SYNTAX@)))
    } else if utf8(p.source@).len() > V2_MAX_SOURCE_BYTES {
        Some((ParentCorpusErrorCode::LimitExceeded, limit_message("source-bytes"@, V2_MAX_SOURCE_BYTES as nat, (V2_MAX_SOURCE_BYTES + 1) as nat)))
    } else if !source_valid {
        Some((ParentCorpusErrorCode::MalformedManifest, malformed_message(path, SOURCE_SYNTAX@)))
    } else if v2_path_limit(p.root@) is Some {
        let (suffix, limit) = v2_path_limit(p.root@).unwrap();
        Some((ParentCorpusErrorCode::LimitExceeded, limit_message("root"@ + suffix, limit, limit + 1)))
    } else if v2_path_limit(p.corpus@) is Some {
        let (suffix, limit) = v2_path_limit(p.corpus@).unwrap();
        Some((ParentCorpusErrorCode::LimitExceeded, limit_message("corpus"@ + suffix, limit, limit + 1)))
    } else if v2_path_reason(p.root@) is Some {
        Some((ParentCorpusErrorCode::PathEscape, field_reason("root"@, v2_path_reason(p.root@).unwrap())))
    } else if v2_path_reason(p.corpus@) is Some {
        Some((ParentCorpusErrorCode::PathEscape, field_reason("corpus"@, v2_path_reason(p.corpus@).unwrap())))
    } else if !valid_v2_digest_spec(p.digest@) {
        Some((ParentCorpusErrorCode::MalformedManifest, malformed_message(path, DIGEST_SYNTAX@)))
    } else {
        None
    }
}

/// Checks one raw parent; `source_valid` is whether its source is a corpus
/// identity.
fn graph_parent(path: &str, raw: &RawGraphParent, source_valid: bool) -> (r: Result<ParentDeclaration, ParentCorpusError>)
    ensures
        match r {
            Ok(d) => graph_parent_error(path@, *raw, source_valid).is_none() && declaration_view(d) == raw_declaration(*raw),
            Err(e) => graph_parent_error(path@, *raw, source_valid) == Some((e.code, e.message@))
                && (e.path matches Some(p) && p@ == path@),
        },
{
    if bytes_of(raw.alias.as_str()).len() > V2_MAX_ALIAS_BYTES {
        return Err(limit_error(path, "alias-bytes", V2_MAX_ALIAS_BYTES, V2_MAX_ALIAS_BYTES + 1));
    }
    if !valid_alias(raw.alias.as_str()) {
        return Err(malformed(path, ALIAS_SYNTAX));
    }
    if bytes_of(raw.source.as_str()).len() > V2_MAX_SOURCE_BYTES {
        return Err(limit_error(path, "source-bytes", V2_MAX_SOURCE_BYTES, V2_MAX_SOURCE_BYTES + 1));
    }
    if !source_valid {
        return Err(malformed(path, SOURCE_SYNTAX));
    }
    validate_v2_path_limits(path, raw.root.as_str(), "root")?;
    validate_v2_path_limits(path, raw.corpus.as_str(), "corpus")?;
    match validate_v2_path(raw.root.as_str(), "root") {
        Ok(()) => {},
        Err(reason) => return Err(ParentCorpusError::at(ParentCorpusErrorCode::PathEscape, path, reason.as_str())),
    }
    match validate_v2_path(raw.corpus.as_str(), "corpus") {
        Ok(()) => {},
        Err(reason) => return Err(ParentCorpusError::at(ParentCorpusErrorCode::PathEscape, path, reason.as_str())),
    }
    if !valid_v2_digest(raw.digest.as_str()) {
        return Err(malformed(path, DIGEST_SYNTAX));
    }
    Ok(ParentDeclaration {
        version: 2,
        alias: owned(raw.alias.as_str()),
        source: owned(raw.source.as_str()),
        root: owned(raw.root.as_str()),
        corpus: owned(raw.corpus.as_str()),
        digest: owned(raw.digest.as_str()),
    })
}

pub open spec fn duplicate_alias_message(alias: Seq<char>) -> Seq<char> {
    "duplicate direct parent alias '"@ + alias + "'"@
}

pub open spec fn duplicate_source_message(source: Seq<char>) -> Seq<char> {
    "duplicate direct parent source '"@ + source + "'"@
}

/// The first refusal among the first `upto` raw parents, checked in order:
/// each parent's own rules, then its alias, then its source against the
/// parents before it.
pub open spec fn parents_prefix_error(path: Seq<char>, raw: Seq<RawGraphParent>, valid: Seq<bool>, upto: int) -> Option<(ParentCorpusErrorCode, Seq<char>)>
    decreases upto,
{
    if upto <= 0 {
        None
    } else {
        let before = parents_prefix_error(path, raw, valid, upto - 1);
        let p = raw[upto - 1];
        if before is Some {
            before
        } else if graph_parent_error(path, p, valid[upto - 1]) is Some {
            graph_parent_error(path, p, valid[upto - 1])
        } else if exists|j: int| 0 <= j < upto - 1 && (#[trigger] raw[j]).alias@ == p.alias@ {
            Some((ParentCorpusErrorCode::DuplicateParent, duplicate_alias_message(p.alias@)))
        } else if exists|j: int| 0 <= j < upto - 1 && (#[trigger] raw[j]).source@ == p.source@ {
            Some((ParentCorpusErrorCode::DuplicateParent, duplicate_source_message(p.source@)))
        } else {
            None
        }
    }
}

/// Why the parent list of a version-2 mapping is refused, if it is.
pub open spec fn parents_error(path: Seq<char>, version: u32, raw: Seq<RawGraphParent>, valid: Seq<bool>) -> Option<(ParentCorpusErrorCode, Seq<char>)> {
    if version != 2 {
        Some((ParentCorpusErrorCode::MalformedManifest,
            malformed_message(path, "unsupported inheritance manifest version: "@ + decimal(version as nat))))
    } else if raw.len() == 0 {
        Some((ParentCorpusErrorCode::MalformedManifest, malformed_message(path, "version 2 parents must not be empty"@)))
    } else if raw.len() > V2_MAX_DIRECT_PARENTS {
        Some((ParentCorpusErrorCode::LimitExceeded,
            limit_message("direct-parents"@, V2_MAX_DIRECT_PARENTS as nat, (V2_MAX_DIRECT_PARENTS + 1) as nat)))
    } else {
        parents_prefix_error(path, raw, valid, raw.len() as int)
    }
}

proof fn lemma_prefix_error_persists(path: Seq<char>, raw: Seq<RawGraphParent>, valid: Seq<bool>, i: int, upto: int)
    requires
        0 <= i <= upto,
        parents_prefix_error(path, raw, valid, i) is Some,
    ensures
        parents_prefix_error(path, raw, valid, upto) == parents_prefix_error(path, raw, valid, i),
    decreases upto - i,
{
    if i < upto {
        lemma_prefix_error_persists(path, raw, valid, i, upto - 1);
    }
}

proof fn lemma_prefix_ok_aliases_distinct(path: Seq<char>, raw: Seq<RawGraphParent>, valid: Seq<bool>, upto: int)
    requires
        0 <= upto <= raw.len(),
        parents_prefix_error(path, raw, valid, upto) is None,
    ensures
        forall|i: int, j: int| 0 <= i < j < upto ==> (#[trigger] raw[i]).alias@ != (#[trigger] raw[j]).alias@,
    decreases upto,
{
    if upto > 0 {
        lemma_prefix_ok_aliases_distinct(path, raw, valid, upto - 1);
        assert forall|i: int, j: int| 0 <= i < j < upto implies (#[trigger] raw[i]).alias@ != (#[trigger] raw[j]).alias@ by {
            if j == upto - 1 && raw[i].alias@ == raw[j].alias@ {
                assert(exists|k: int| 0 <= k < upto - 1 && (#[trigger] raw[k]).alias@ == raw[upto - 1].alias@);
            }
        }
    }
}

/// Validates the direct parents of a version-2 `## inherits` mapping and
/// returns them ordered by source, digest, alias, root and corpus.
/// `source_valid[i]` is whether the source of `raw[i]` is a corpus identity.
pub fn graph_manifest_parents(path: &str, version: u32, raw: &Vec<RawGraphParent>, source_valid: &Vec<bool>) -> (r: Result<Vec<ParentDeclaration>, ParentCorpusError>)
    requires
        source_valid@.len() == raw@.len(),
    ensures
        match r {
            Ok(v) => parents_error(path@, version, raw@, source_valid@).is_none()
                && v@.len() == raw@.len()
                && ascending_by(declaration_views(v@), |d: DeclarationView| declaration_key(d))
                && (forall|x: DeclarationView| declaration_views(v@).contains(x) <==> raw_declarations(raw@).contains(x)),
            Err(e) => parents_error(path@, version, raw@, source_valid@) == Some((e.code, e.message@))
                && (e.path matches Some(p) && p@ == path@),
        },
{
    if version != 2 {
        let mut m = owned("unsupported inheritance manifest version: ");
        push_str(&mut m, usize_to_string(version as usize).as_str());
        return Err(malformed(path, m.as_str()));
    }
    if raw.len() == 0 {
        return Err(malformed(path, "version 2 parents must not be empty"));
    }
    if raw.len() > V2_MAX_DIRECT_PARENTS {
        return Err(limit_error(path, "direct-parents", V2_MAX_DIRECT_PARENTS, V2_MAX_DIRECT_PARENTS + 1));
    }
    let mut decls: Vec<ParentDeclaration> = Vec::new();
    let mut keys: Vec<Vec<String>> = Vec::new();
    let mut i: usize = 0;
    while i < raw.len()
        invariant
            i <= raw@.len(),
            decls@.len() == i,
            2 == version,
            0 < raw@.len() <= V2_MAX_DIRECT_PARENTS,
            source_valid@.len() == raw@.len(),
            parents_prefix_error(path@, raw@, source_valid@, i as int) is None,
            declaration_views(decls@) == raw_declarations(raw@).take(i as int),
            keys_views(keys@) == Seq::new(i as nat, |k: int| declaration_key(raw_declaration(raw@[k]))),
        decreases raw@.len() - i,
    {
        let p = &raw[i];
        let d = match graph_parent(path, p, source_valid[i]) {
            Ok(d) => d,
            Err(e) => {
                proof {
                    lemma_prefix_error_persists(path@, raw@, source_valid@, i as int + 1, raw@.len() as int);
                }
                return Err(e);
            },
        };
        let mut j: usize = 0;
        while j < i
            invariant
                j <= i < raw@.len(),
                decls@.len() == i,
                *p == raw@[i as int],
                declaration_views(decls@) == raw_declarations(raw@).take(i as int),
                forall|k: int| 0 <= k < j ==> (#[trigger] raw@[k]).alias@ != raw@[i as int].alias@,
                2 == version,
                0 < raw@.len() <= V2_MAX_DIRECT_PARENTS,
                source_valid@.len() == raw@.len(),
                parents_prefix_error(path@, raw@, source_valid@, i as int) is None,
                graph_parent_error(path@, raw@[i as int], source_valid@[i as int]) is None,
            decreases i - j,
        {
            assert(declaration_views(decls@)[j as int] == raw_declaration(raw@[j as int]));
            assert(decls@[j as int].alias@ == raw@[j as int].alias@);
            if str_eq(decls[j].alias.as_str(), p.alias.as_str()) {
                let mut m = owned("duplicate direct parent alias '");
                push_str(&mut m, p.alias.as_str());
                push_str(&mut m, "'");
                proof {
                    assert(exists|k: int| 0 <= k < i && (#[trigger] raw@[k]).alias@ == raw@[i as int].alias@);
                    lemma_prefix_error_persists(path@, raw@, source_valid@, i as int + 1, raw@.len() as int);
                }
                return Err(ParentCorpusError::at(ParentCorpusErrorCode::DuplicateParent, path, m.as_str()));
            }
            j += 1;
        }
        let mut j: usize = 0;
        while j < i
            invariant
                j <= i < raw@.len(),
                decls@.len() == i,
                *p == raw@[i as int],
                declaration_views(decls@) == raw_declarations(raw@).take(i as int),
                forall|k: int| 0 <= k < i ==> (#[trigger] raw@[k]).alias@ != raw@[i as int].alias@,
                forall|k: int| 0 <= k < j ==> (#[trigger] raw@[k]).source@ != raw@[i as int].source@,
                2 == version,
                0 < raw@.len() <= V2_MAX_DIRECT_PARENTS,
                source_valid@.len() == raw@.len(),
                parents_prefix_error(path@, raw@, source_valid@, i as int) is None,
                graph_parent_error(path@, raw@[i as int], source_valid@[i as int]) is None,
            decreases i - j,
        {
            assert(declaration_views(decls@)[j as int] == raw_declaration(raw@[j as int]));
            assert(decls@[j as int].source@ == raw@[j as int].source@);
            if str_eq(decls[j].source.as_str(), p.source.as_str()) {
                let mut m = owned("duplicate direct parent source '");
                push_str(&mut m, p.source.as_str());
                push_str(&mut m, "'");
                proof {
                    assert(exists|k: int| 0 <= k < i && (#[trigger] raw@[k]).source@ == raw@[i as int].source@);
                    lemma_prefix_error_persists(path@, raw@, source_valid@, i as int + 1, raw@.len() as int);
                }
                return Err(ParentCorpusError::at(ParentCorpusErrorCode::DuplicateParent, path, m.as_str()));
            }
            j += 1;
        }
        let key: Vec<String> = vec![owned(d.source.as_str()), owned(d.digest.as_str()), owned(d.alias.as_str()),
            owned(d.root.as_str()), owned(d.corpus.as_str())];
        assert(strings_view(key@) =~= declaration_key(raw_declaration(raw@[i as int])));
        let ghost kb = keys_views(keys@);
        keys.push(key);
        assert(keys_views(keys@) =~= Seq::new((i + 1) as nat, |k: int| declaration_key(raw_declaration(raw@[k])))) by {
            assert(keys_views(keys@) =~= kb.push(strings_view(key@)));
        }
        let ghost db = declaration_views(decls@);
        decls.push(d);
        assert(declaration_views(decls@) =~= db.push(declaration_view(d)));
        assert(declaration_views(decls@) =~= raw_declarations(raw@).take(i as int + 1));
        proof {
            assert(!(exists|k: int| 0 <= k < i && (#[trigger] raw@[k]).alias@ == raw@[i as int].alias@));
            assert(!(exists|k: int| 0 <= k < i && (#[trigger] raw@[k]).source@ == raw@[i as int].source@));
        }
        i += 1;
    }
    assert(declaration_views(decls@) =~= raw_declarations(raw@));
    let ghost dv = declaration_views(decls@);
    let ghost f = |d: DeclarationView| declaration_key(d);
    proof {
        lemma_prefix_ok_aliases_distinct(path@, raw@, source_valid@, raw@.len() as int);
        assert(keys_by(dv, f) =~= keys_views(keys@));
        assert forall|a: int, b: int| 0 <= a < b < dv.len() implies f(#[trigger] dv[a]) != f(#[trigger] dv[b]) by {
            assert(f(dv[a])[2] == raw@[a].alias@);
            assert(f(dv[b])[2] == raw@[b].alias@);
        }
    }
    let ord = sort_indices(keys);
    proof {
        lemma_visit_ascending(dv, ord@, f);
    }
    let mut out: Vec<ParentDeclaration> = Vec::new();
    let mut k: usize = 0;
    while k < ord.len()
        invariant
            k <= ord@.len(),
            ord@.len() == decls@.len(),
            forall|q: int| 0 <= q < ord@.len() ==> ord@[q] < decls@.len(),
            dv == declaration_views(decls@),
            declaration_views(out@) == visit(dv, ord@).take(k as int),
        decreases ord@.len() - k,
    {
        let x = &decls[ord[k]];
        let y = ParentDeclaration {
            version: x.version,
            alias: owned(x.alias.as_str()),
            source: owned(x.source.as_str()),
            root: owned(x.root.as_str()),
            corpus: owned(x.corpus.as_str()),
            digest: owned(x.digest.as_str()),
        };
        let ghost ob = declaration_views(out@);
        out.push(y);
        assert(declaration_views(out@) =~= ob.push(declaration_view(y)));
        assert(declaration_views(out@) =~= visit(dv, ord@).take(k as int + 1));
        k += 1;
    }
    assert(declaration_views(out@) =~= visit(dv, ord@));
    Ok(out)
}

pub open spec fn override_operands_present(items: Seq<RawGraphOverride>) -> bool {
    forall|i: int| 0 <= i < items.len() ==> (#[trigger] items[i]).target@.len() > 0
        && items[i].replacement@.len() > 0 && items[i].rationale@.len() > 0
}

/// One item of a version-2 `## overrides` mapping, as read.
#[derive(Debug, Clone, PartialEq, Eq)]
pub struct RawGraphOverride {
    pub target: String,
    pub replacement: String,
    pub rationale: String,
}

/// Why a version-2 `## overrides` mapping is refused, if it is.
pub open spec fn overrides_error(path: Seq<char>, version: u32, items: Seq<RawGraphOverride>) -> Option<(ParentCorpusErrorCode, Seq<char>)> {
    if version != 2 {
        Some((ParentCorpusErrorCode::MalformedManifest, malformed_message(path, "## overrides version must match ## inherits version 2"@)))
    } else if !override_operands_present(items) {
        Some((ParentCorpusErrorCode::MalformedManifest,
            malformed_message(path, "version 2 override operands must be non-empty canonical references"@)))
    } else if items.len() > V2_MAX_OVERRIDES {
        Some((ParentCorpusErrorCode::LimitExceeded, limit_message("overrides"@, V2_MAX_OVERRIDES as nat, (V2_MAX_OVERRIDES + 1) as nat)))
    } else {
        None
    }
}

/// Checks the version and operands of a version-2 `## overrides` mapping.
pub fn check_graph_overrides(path: &str, version: u32, items: &Vec<RawGraphOverride>) -> (r: Result<(), ParentCorpusError>)
    ensures
        match r {
            Ok(()) => overrides_error(path@, version, items@).is_none(),
            Err(e) => overrides_error(path@, version, items@) == Some((e.code, e.message@))
                && (e.path matches Some(p) && p@ == path@),
        },
{
    if version != 2 {
        return Err(malformed(path, "## overrides version must match ## inherits version 2"));
    }
    let mut i: usize = 0;
    while i < items.len()
        invariant
            i <= items@.len(),
            version == 2,
            forall|k: int| 0 <= k < i ==> (#[trigger] items@[k]).target@.len() > 0
                && items@[k].replacement@.len() > 0 && items@[k].rationale@.len() > 0,
        decreases items@.len() - i,
    {
        let it = &items[i];
        if it.target.as_str().is_empty() || it.replacement.as_str().is_empty() || it.rationale.as_str().is_empty() {
            assert(!override_operands_present(items@));
            return Err(malformed(path, "version 2 override operands must be non-empty canonical references"));
        }
        i += 1;
    }
    assert(override_operands_present(items@));
    if items.len() > V2_MAX_OVERRIDES {
        return Err(limit_error(path, "overrides", V2_MAX_OVERRIDES, V2_MAX_OVERRIDES + 1));
    }
    Ok(())
}

/// One event of the Markdown reader as the manifest rules read it: whether
/// it is a heading, its tag (`h1`, `h2`, ...), its text, and its line.
#[derive(Debug, Clone, PartialEq, Eq)]
pub struct MarkdownEvent {
    pub heading: bool,
    pub tag: String,
    pub content: String,
    pub line: i64,
}

/// A top-level `## name` heading opens a section.
pub open spec fn opens_section(lines: Seq<Seq<char>>, e: MarkdownEvent, name: Seq<char>) -> bool {
    e.heading && e.tag@ == "h2"@ && e.content@ == name && atx_h2_spec(lines, e.line as int)
}

/// A top-level first- or second-level heading ends a section.
pub open spec fn closes_section(lines: Seq<Seq<char>>, e: MarkdownEvent) -> bool {
    e.heading && e.line >= 0 && (e.tag@ == "h1"@ || e.tag@ == "h2"@) && top_heading_spec(lines, e.line as int)
}

/// The first event from position `from` on that ends a section.
pub open spec fn first_close(lines: Seq<Seq<char>>, events: Seq<MarkdownEvent>, from: int) -> Option<int>
    decreases events.len() - from,
{
    if from < 0 || from >= events.len() {
        None
    } else if closes_section(lines, events[from]) {
        Some(from)
    } else {
        first_close(lines, events, from + 1)
    }
}

/// The lines a section opened by event `i` spans: from the line after the
/// heading up to the next top-level heading, or to the end of the text.
pub open spec fn section_of(lines: Seq<Seq<char>>, events: Seq<MarkdownEvent>, i: int) -> (int, int) {
    let start = (if events[i].line < 0 { 0 } else { events[i].line as int }) + 1;
    let end = match first_close(lines, events, i + 1) {
        Some(j) => events[j].line as int,
        None => lines.len() as int,
    };
    (start, end)
}

/// The sections named `name` opened among the first `upto` events.
pub open spec fn sections_upto(lines: Seq<Seq<char>>, events: Seq<MarkdownEvent>, name: Seq<char>, upto: int) -> Seq<(int, int)>
    decreases upto,
{
    if upto <= 0 {
        Seq::empty()
    } else {
        let before = sections_upto(lines, events, name, upto - 1);
        if opens_section(lines, events[upto - 1], name) { before.push(section_of(lines, events, upto - 1)) } else { before }
    }
}

pub open spec fn pairs_view(v: Seq<(usize, usize)>) -> Seq<(int, int)> {
    Seq::new(v.len(), |i: int| (v[i].0 as int, v[i].1 as int))
}

fn closes_section_exec(lines: &Vec<String>, e: &MarkdownEvent) -> (r: bool)
    ensures
        r == closes_section(views(lines@), *e),
{
    e.heading && e.line >= 0 && (str_eq(e.tag.as_str(), "h1") || str_eq(e.tag.as_str(), "h2")) && is_top_level_heading(lines, e.line)
}

/// The line ranges of the top-level `## name` sections of a manifest text,
/// given the reader's events for it.
pub fn heading_sections(text: &str, events: &Vec<MarkdownEvent>, name: &str) -> (r: Vec<(usize, usize)>)
    requires
        forall|k: int| 0 <= k < events@.len() ==> (#[trigger] events@[k]).line < usize::MAX,
    ensures
        pairs_view(r@) == sections_upto(lines_of(text@), events@, name@, events@.len() as int),
{
    let lines = text_lines(text);
    let ghost lv = views(lines@);
    let mut sections: Vec<(usize, usize)> = Vec::new();
    let mut i: usize = 0;
    while i < events.len()
        invariant
            i <= events@.len(),
            lv == views(lines@),
            lv == lines_of(text@),
            forall|k: int| 0 <= k < events@.len() ==> (#[trigger] events@[k]).line < usize::MAX,
            pairs_view(sections@) == sections_upto(lv, events@, name@, i as int),
        decreases events@.len() - i,
    {
        let e = &events[i];
        let opens = e.heading && str_eq(e.tag.as_str(), "h2") && str_eq(e.content.as_str(), name) && is_top_level_atx_h2(&lines, e.line);
        if opens {
            let start: usize = if e.line < 0 { 1 } else { e.line as usize + 1 };
            let mut j: usize = i + 1;
            let mut end: usize = lines.len();
            while j < events.len()
                invariant_except_break
                    i < j <= events@.len(),
                    lv == views(lines@),
                    forall|k: int| 0 <= k < events@.len() ==> (#[trigger] events@[k]).line < usize::MAX,
                    first_close(lv, events@, i as int + 1) == first_close(lv, events@, j as int),
                    end == lines@.len(),
                ensures
                    end as int == match first_close(lv, events@, i as int + 1) {
                        Some(q) => events@[q].line as int,
                        None => lv.len() as int,
                    },
                decreases events@.len() - j,
            {
                if closes_section_exec(&lines, &events[j]) {
                    end = events[j].line as usize;
                    break;
                }
                j += 1;
            }
            let ghost before = pairs_view(sections@);
            sections.push((start, end));
            assert(pairs_view(sections@) =~= before.push(section_of(lv, events@, i as int)));
        }
        i += 1;
    }
    sections
}

/// A top-level `##` heading that spells `inherits` or `overrides` in
/// another letter case.
pub open spec fn misspelled(lines: Seq<Seq<char>>, e: MarkdownEvent) -> bool {
    &&& e.heading && e.tag@ == "h2"@ && atx_h2_spec(lines, e.line as int)
    &&& (ascii_lower_seq(e.content@) == "inherits"@ && e.content@ != "inherits"@)
        || (ascii_lower_seq(e.content@) == "overrides"@ && e.content@ != "overrides"@)
}

/// The first misspelled heading among the events from `from` on.
pub open spec fn first_misspelled(lines: Seq<Seq<char>>, events: Seq<MarkdownEvent>, from: int) -> Option<int>
    decreases events.len() - from,
{
    if from < 0 || from >= events.len() {
        None
    } else if misspelled(lines, events[from]) {
        Some(from)
    } else {
        first_misspelled(lines, events, from + 1)
    }
}

pub open spec fn misspelling_reason(content: Seq<char>) -> Seq<char> {
    "federation heading must use exact lowercase spelling: ## "@ + ascii_lower_seq(content)
}

/// Refuses a manifest whose operational headings are not spelled in exact
/// lower case.
pub fn reject_misspelled_operational_headings(path: &str, text: &str, events: &Vec<MarkdownEvent>) -> (r: Result<(), ParentCorpusError>)
    ensures
        match first_misspelled(lines_of(text@), events@, 0) {
            None => r is Ok,
            Some(k) => r matches Err(e) && e.code == ParentCorpusErrorCode::MalformedManifest
                && e.message@ == malformed_message(path@, misspelling_reason(events@[k].content@))
                && (e.path matches Some(p) && p@ == path@),
        },
{
    let lines = text_lines(text);
    let ghost lv = views(lines@);
    let mut i: usize = 0;
    while i < events.len()
        invariant
            i <= events@.len(),
            lv == views(lines@),
            lv == lines_of(text@),
            first_misspelled(lv, events@, 0) == first_misspelled(lv, events@, i as int),
        decreases events@.len() - i,
    {
        let e = &events[i];
        if e.heading && str_eq(e.tag.as_str(), "h2") && is_top_level_atx_h2(&lines, e.line) {
            let lower = to_ascii_lower(e.content.as_str());
            if (str_eq(lower.as_str(), "inherits") && !str_eq(e.content.as_str(), "inherits"))
                || (str_eq(lower.as_str(), "overrides") && !str_eq(e.content.as_str(), "overrides")) {
                let mut m = owned("federation heading must use exact lowercase spelling: ## ");
                push_str(&mut m, lower.as_str());
                return Err(malformed(path, m.as_str()));
            }
        }
        i += 1;
    }
    Ok(())
}

/// A refusal as its error code and message.
pub type Refusal = (ParentCorpusErrorCode, Seq<char>);

pub open spec fn malformed_refusal(path: Seq<char>, reason: Seq<char>) -> Refusal {
    (ParentCorpusErrorCode::MalformedManifest, malformed_message(path, reason))
}

/// The refusal for a misspelled operational heading, if there is one.
pub open spec fn spelling_refusal(path: Seq<char>, text: Seq<char>, events: Seq<MarkdownEvent>) -> Option<Refusal> {
    match first_misspelled(lines_of(text), events, 0) {
        Some(k) => Some(malformed_refusal(path, misspelling_reason(events[k].content@))),
        None => None,
    }
}

/// The sections named `name` of a manifest text.
pub open spec fn named_sections(text: Seq<char>, events: Seq<MarkdownEvent>, name: Seq<char>) -> Seq<(int, int)> {
    sections_upto(lines_of(text), events, name, events.len() as int)
}

pub open spec fn lines_fit(events: Seq<MarkdownEvent>) -> bool {
    forall|k: int| 0 <= k < events.len() ==> (#[trigger] events[k]).line < usize::MAX
}

/// What the `## inherits` section of a version-2 manifest yields: its one
/// fenced YAML block, or the refusal.
pub open spec fn graph_inherits_outcome(path: Seq<char>, text: Seq<char>, events: Seq<MarkdownEvent>) -> Result<Seq<char>, Refusal> {
    if spelling_refusal(path, text, events) is Some {
        Err(spelling_refusal(path, text, events).unwrap())
    } else {
        let secs = named_sections(text, events, "inherits"@);
        if secs.len() != 1 {
            Err(malformed_refusal(path, "manifest must contain exactly one exact lowercase '## inherits' heading"@))
        } else {
            match yaml_blocks(text, secs[0].0, secs[0].1) {
                None => Err(malformed_refusal(path, "unterminated fenced block"@)),
                Some(b) => if b.len() != 1 {
                    Err(malformed_refusal(path, "## inherits must contain exactly one fenced yaml block"@))
                } else {
                    Ok(b[0])
                },
            }
        }
    }
}

/// What the `## inherits` section of a version-1 manifest yields.
pub open spec fn inherits_outcome(path: Seq<char>, text: Seq<char>, events: Seq<MarkdownEvent>) -> Result<Seq<char>, Refusal> {
    if spelling_refusal(path, text, events) is Some {
        Err(spelling_refusal(path, text, events).unwrap())
    } else {
        let secs = named_sections(text, events, "inherits"@);
        if secs.len() > 1 {
            Err((ParentCorpusErrorCode::MultipleParents, "the first federation increment accepts exactly one ## inherits declaration"@))
        } else if secs.len() == 0 {
            Err(malformed_refusal(path, "missing exact lowercase heading '## inherits'"@))
        } else {
            match yaml_blocks(text, secs[0].0, secs[0].1) {
                None => Err(malformed_refusal(path, "unterminated fenced block"@)),
                Some(b) => if b.len() > 1 {
                    Err((ParentCorpusErrorCode::MultipleParents, "## inherits must contain exactly one fenced YAML mapping"@))
                } else if b.len() == 0 {
                    Err(malformed_refusal(path, "## inherits must contain exactly one fenced yaml block"@))
                } else {
                    Ok(b[0])
                },
            }
        }
    }
}

/// What the optional `## overrides` section yields: no block when the
/// section is absent, its one fenced YAML block, or the refusal.
pub open spec fn overrides_outcome(path: Seq<char>, text: Seq<char>, events: Seq<MarkdownEvent>) -> Result<Option<Seq<char>>, Refusal> {
    let secs = named_sections(text, events, "overrides"@);
    if secs.len() > 1 {
        Err(malformed_refusal(path, "## overrides may appear at most once"@))
    } else if secs.len() == 0 {
        Ok(None)
    } else {
        match yaml_blocks(text, secs[0].0, secs[0].1) {
            None => Err(malformed_refusal(path, "unterminated fenced block"@)),
            Some(b) => if b.len() != 1 {
                Err(malformed_refusal(path, "## overrides must contain exactly one fenced yaml block"@))
            } else {
                Ok(Some(b[0]))
            },
        }
    }
}

/// The error's code and message, when it is reported at `path`.
pub open spec fn refused_at(e: ParentCorpusError, path: Seq<char>, refusal: Refusal) -> bool {
    e.code == refusal.0 && e.message@ == refusal.1 && (e.path matches Some(p) && p@ == path)
}

/// The YAML block of the `## inherits` section of a version-2 manifest
/// (`text` with its newlines normalized; `events` the reader's events for
/// it).
pub fn graph_inherits_block(path: &str, text: &str, events: &Vec<MarkdownEvent>) -> (r: Result<String, ParentCorpusError>)
    requires
        lines_fit(events@),
    ensures
        match graph_inherits_outcome(path@, text@, events@) {
            Ok(b) => r matches Ok(s) && s@ == b,
            Err(refusal) => r matches Err(e) && refused_at(e, path@, refusal),
        },
{
    reject_misspelled_operational_headings(path, text, events)?;
    let sections = heading_sections(text, events, "inherits");
    if sections.len() != 1 {
        return Err(malformed(path, "manifest must contain exactly one exact lowercase '## inherits' heading"));
    }
    assert(pairs_view(sections@)[0] == (sections@[0].0 as int, sections@[0].1 as int));
    let (start, end) = sections[0];
    let mut blocks = fenced_yaml_blocks(path, text, start, end)?;
    if blocks.len() != 1 {
        return Err(malformed(path, "## inherits must contain exactly one fenced yaml block"));
    }
    assert(views(blocks@)[0] == blocks@[0]@);
    Ok(blocks.remove(0))
}

/// The YAML block of the `## inherits` section of a version-1 manifest.
pub fn inherits_block(path: &str, text: &str, events: &Vec<MarkdownEvent>) -> (r: Result<String, ParentCorpusError>)
    requires
        lines_fit(events@),
    ensures
        match inherits_outcome(path@, text@, events@) {
            Ok(b) => r matches Ok(s) && s@ == b,
            Err(refusal) => r matches Err(e) && refused_at(e, path@, refusal),
        },
{
    reject_misspelled_operational_headings(path, text, events)?;
    let sections = heading_sections(text, events, "inherits");
    if sections.len() > 1 {
        return Err(ParentCorpusError::at(ParentCorpusErrorCode::MultipleParents, path,
            "the first federation increment accepts exactly one ## inherits declaration"));
    }
    if sections.len() == 0 {
        return Err(malformed(path, "missing exact lowercase heading '## inherits'"));
    }
    assert(pairs_view(sections@)[0] == (sections@[0].0 as int, sections@[0].1 as int));
    let (start, end) = sections[0];
    let mut blocks = fenced_yaml_blocks(path, text, start, end)?;
    if blocks.len() > 1 {
        return Err(ParentCorpusError::at(ParentCorpusErrorCode::MultipleParents, path,
            "## inherits must contain exactly one fenced YAML mapping"));
    }
    if blocks.len() == 0 {
        return Err(malformed(path, "## inherits must contain exactly one fenced yaml block"));
    }
    assert(views(blocks@)[0] == blocks@[0]@);
    Ok(blocks.remove(0))
}

/// The YAML block of the optional `## overrides` section.
pub fn overrides_block(path: &str, text: &str, events: &Vec<MarkdownEvent>) -> (r: Result<Option<String>, ParentCorpusError>)
    requires
        lines_fit(events@),
    ensures
        match overrides_outcome(path@, text@, events@) {
            Ok(b) => r matches Ok(o) && opt_text(o) == b,
            Err(refusal) => r matches Err(e) && refused_at(e, path@, refusal),
        },
{
    let sections = heading_sections(text, events, "overrides");
    if sections.len() > 1 {
        return Err(malformed(path, "## overrides may appear at most once"));
    }
    if sections.len() == 0 {
        return Ok(None);
    }
    assert(pairs_view(sections@)[0] == (sections@[0].0 as int, sections@[0].1 as int));
    let (start, end) = sections[0];
    let mut blocks = fenced_yaml_blocks(path, text, start, end)?;
    if blocks.len() != 1 {
        return Err(malformed(path, "## overrides must contain exactly one fenced yaml block"));
    }
    assert(views(blocks@)[0] == blocks@[0]@);
    Ok(Some(blocks.remove(0)))
}

pub open spec fn opt_text(o: Option<String>) -> Option<Seq<char>> {
    match o {
        Some(s) => Some(s@),
        None => None,
    }
}

pub const V1_ALIAS_SYNTAX: &'static str = "'alias' must be a lowercase local name containing only letters, digits, '.', '_', or '-'";
pub const V1_SOURCE_SYNTAX: &'static str = "'source' must be a lower-case slash-namespaced corpus identity";
pub const V1_DIGEST_SYNTAX: &'static str = "'digest' must be sha256: followed by exactly 64 lowercase hexadecimal characters";

/// Why the one parent of a version-1 manifest is refused, if it is;
/// `source_valid` is whether its source is a corpus identity.
pub open spec fn v1_declaration_refusal(path: Seq<char>, version: u32, p: RawGraphParent, source_valid: bool) -> Option<Refusal> {
    if version != 1 {
        Some(malformed_refusal(path, "unsupported inheritance manifest version: "@ + decimal(version as nat)))
    } else if !valid_alias_bytes(utf8(p.alias@)) {
        Some(malformed_refusal(path, V1_ALIAS_SYNTAX@))
    } else if !source_valid {
        Some(malformed_refusal(path, V1_SOURCE_SYNTAX@))
    } else if relative_path_reason(p.root@) is Some {
        Some((ParentCorpusErrorCode::PathEscape, field_reason("root"@, relative_path_reason(p.root@).unwrap())))
    } else if relative_path_reason(p.corpus@) is Some {
        Some((ParentCorpusErrorCode::PathEscape, field_reason("corpus"@, relative_path_reason(p.corpus@).unwrap())))
    } else if !valid_v1_digest_spec(p.digest@) {
        Some(malformed_refusal(path, V1_DIGEST_SYNTAX@))
    } else {
        None
    }
}

/// Validates the one parent declared by a version-1 manifest.
pub fn parent_declaration_v1(path: &str, version: u32, raw: &RawGraphParent, source_valid: bool) -> (r: Result<ParentDeclaration, ParentCorpusError>)
    ensures
        match r {
            Ok(d) => v1_declaration_refusal(path@, version, *raw, source_valid).is_none()
                && declaration_view(d) == (version, raw.alias@, raw.source@, raw.root@, raw.corpus@, raw.digest@),
            Err(e) => v1_declaration_refusal(path@, version, *raw, source_valid) == Some((e.code, e.message@))
                && (e.path matches Some(p) && p@ == path@),
        },
{
    if version != 1 {
        let mut m = owned("unsupported inheritance manifest version: ");
        push_str(&mut m, usize_to_string(version as usize).as_str());
        return Err(malformed(path, m.as_str()));
    }
    if !valid_alias(raw.alias.as_str()) {
        return Err(malformed(path, V1_ALIAS_SYNTAX));
    }
    if !source_valid {
        return Err(malformed(path, V1_SOURCE_SYNTAX));
    }
    match validate_relative_path(raw.root.as_str(), "root") {
        Ok(()) => {},
        Err(reason) => return Err(ParentCorpusError::at(ParentCorpusErrorCode::PathEscape, path, reason.as_str())),
    }
    match validate_relative_path(raw.corpus.as_str(), "corpus") {
        Ok(()) => {},
        Err(reason) => return Err(ParentCorpusError::at(ParentCorpusErrorCode::PathEscape, path, reason.as_str())),
    }
    if !valid_v1_digest(raw.digest.as_str()) {
        return Err(malformed(path, V1_DIGEST_SYNTAX));
    }
    Ok(ParentDeclaration {
        version,
        alias: owned(raw.alias.as_str()),
        source: owned(raw.source.as_str()),
        root: owned(raw.root.as_str()),
        corpus: owned(raw.corpus.as_str()),
        digest: owned(raw.digest.as_str()),
    })
}

} // verus!
