//! Deterministic renderer for the governing-decisions pull-request comment.
use vstd::prelude::*;

use crate::corpus::{ArtifactKey, ArtifactOrigin, Layer};
use crate::text::{chars_of, concat3, decimal, join, join_strings, owned, push_str, str_eq, trim_end_char, trim_end_matches_char, usize_to_string, views, keys_lt, is_white, char_is_white};
use crate::order::{sorted_unique, strictly_ascending, lemma_keys_lt_one};
use crate::corpus::pair_key;
use crate::graph_composition::{sort_unique_keys, keys_ascending, keys_view};

verus! {

pub const MARKER: &'static str = "<!-- lore-decisions-on-pr -->";

/// How many changed paths a bullet shows before collapsing the rest.
pub const PATHS_SHOWN: usize = 3;

/// One governing decision. `matching_entries` and `changed_paths` hold
/// distinct values in ascending order.
#[derive(Debug)]
pub struct HeraldDecision {
    pub key: Option<ArtifactKey>,
    pub origin: Option<ArtifactOrigin>,
    pub id: String,
    pub title: String,
    pub status: String,
    pub path: String,
    pub matching_entries: Vec<String>,
    pub changed_paths: Vec<String>,
}

#[derive(Debug)]
pub struct HeraldReport {
    pub decisions: Vec<HeraldDecision>,
}

impl HeraldReport {
    pub fn has_decisions(&self) -> (r: bool)
        ensures
            r == (self.decisions@.len() > 0),
    {
        self.decisions.len() > 0
    }
}

/// Each value between back-quotes.
pub open spec fn quoted(v: Seq<Seq<char>>) -> Seq<Seq<char>> {
    Seq::new(v.len(), |i: int| "`"@ + v[i] + "`"@)
}

fn quote_all(v: &Vec<String>, upto: usize) -> (r: Vec<String>)
    requires
        upto <= v@.len(),
    ensures
        views(r@) == quoted(views(v@.take(upto as int))),
{
    let mut r: Vec<String> = Vec::new();
    let mut i: usize = 0;
    while i < upto
        invariant
            i <= upto <= v@.len(),
            views(r@) == quoted(views(v@.take(i as int))),
        decreases upto - i,
    {
        let ghost before = r@;
        let s = concat3("`", v[i].as_str(), "`");
        r.push(s);
        proof {
            assert(r@ =~= before.push(s));
            assert(views(r@) =~= views(before).push(s@));
            assert(v@.take(i + 1) =~= v@.take(i as int).push(v@[i as int]));
            assert(views(v@.take(i + 1)) =~= views(v@.take(i as int)).push(v@[i as int]@));
            assert(quoted(views(v@.take(i + 1))) =~= quoted(views(v@.take(i as int))).push("`"@ + v@[i as int]@ + "`"@));
        }
        i += 1;
    }
    r
}

pub open spec fn is_inherited(d: HeraldDecision) -> bool {
    d.origin matches Some(o) && o.layer == Layer::Inherited
}

/// The link target of a decision.
pub open spec fn link_spec(d: HeraldDecision, link_base: Seq<char>) -> Seq<char> {
    if link_base.len() == 0 { d.path@ } else { trim_end_char(link_base, '/') + "/"@ + d.path@ }
}

/// One decision bullet.
pub open spec fn bullet_spec(d: HeraldDecision, link_base: Seq<char>) -> Seq<char> {
    let scopes = join(quoted(views(d.matching_entries@)), ", "@);
    let n = d.changed_paths@.len();
    let shown = if n < 3 { n } else { 3 };
    let changed = join(quoted(views(d.changed_paths@.take(shown as int))), ", "@);
    let changed = if n > 3 { changed + " +"@ + decimal((n - 3) as nat) + " more"@ } else { changed };
    let label = if is_inherited(d) {
        "**"@ + d.id@ + " — "@ + d.title@ + "**"@
    } else {
        "**["@ + d.id@ + " — "@ + d.title@ + "]("@ + link_spec(d, link_base) + ")**"@
    };
    "- "@ + label + " ("@ + d.status@ + ") — applies to "@ + scopes + " — changed: "@ + changed
}

fn bullet(decision: &HeraldDecision, link_base: &str) -> (r: String)
    ensures
        r@ == bullet_spec(*decision, link_base@),
{
    let scopes = join_strings(&quote_all(&decision.matching_entries, decision.matching_entries.len()), ", ");
    assert(decision.matching_entries@.take(decision.matching_entries@.len() as int) =~= decision.matching_entries@);
    let n = decision.changed_paths.len();
    let shown = if n < 3 { n } else { 3 };
    let mut changed = join_strings(&quote_all(&decision.changed_paths, shown), ", ");
    if n > 3 {
        push_str(&mut changed, " +");
        push_str(&mut changed, usize_to_string(n - 3).as_str());
        push_str(&mut changed, " more");
    }
    let link = if chars_of(link_base).len() == 0 {
        decision.path.clone()
    } else {
        let mut l = trim_end_matches_char(link_base, '/');
        push_str(&mut l, "/");
        push_str(&mut l, decision.path.as_str());
        l
    };
    let inherited = match &decision.origin {
        Some(o) => o.layer == Layer::Inherited,
        None => false,
    };
    let mut label = String::new();
    if inherited {
        push_str(&mut label, "**");
        push_str(&mut label, decision.id.as_str());
        push_str(&mut label, " — ");
        push_str(&mut label, decision.title.as_str());
        push_str(&mut label, "**");
    } else {
        push_str(&mut label, "**[");
        push_str(&mut label, decision.id.as_str());
        push_str(&mut label, " — ");
        push_str(&mut label, decision.title.as_str());
        push_str(&mut label, "](");
        push_str(&mut label, link.as_str());
        push_str(&mut label, ")**");
    }
    let mut out = owned("- ");
    push_str(&mut out, label.as_str());
    push_str(&mut out, " (");
    push_str(&mut out, decision.status.as_str());
    push_str(&mut out, ") — applies to ");
    push_str(&mut out, scopes.as_str());
    push_str(&mut out, " — changed: ");
    push_str(&mut out, changed.as_str());
    out
}

pub open spec fn plural(n: nat) -> Seq<char> {
    if n == 1 { Seq::empty() } else { "s"@ }
}

pub open spec fn bullets_spec(ds: Seq<HeraldDecision>, link_base: Seq<char>) -> Seq<Seq<char>> {
    Seq::new(ds.len(), |i: int| bullet_spec(ds[i], link_base))
}

/// How many decisions are shown inline.
pub open spec fn inline_count(count: nat, max_inline: i64) -> nat {
    if max_inline > 0 { if (max_inline as nat) < count { max_inline as nat } else { count } } else { count }
}

/// The lines of a non-empty comment.
pub open spec fn render_lines(report: HeraldReport, link_base: Seq<char>, max_inline: i64) -> Seq<Seq<char>> {
    let ds = report.decisions@;
    let count = ds.len();
    let k = inline_count(count, max_inline);
    let head = seq![MARKER@, "### Decisions governing this change"@, Seq::empty(),
        "This pull request touches paths governed by "@ + decimal(count) + " recorded decision"@ + plural(count) + " — review recommended."@,
        Seq::empty()];
    let rest = ds.skip(k as int);
    let inline = bullets_spec(ds.take(k as int), link_base);
    let tail = if rest.len() > 0 {
        seq![Seq::empty(), "<details><summary>"@ + decimal(rest.len()) + " more governing decision"@ + plural(rest.len()) + "</summary>"@, Seq::empty()]
            + bullets_spec(rest, link_base) + seq![Seq::empty(), "</details>"@]
    } else {
        Seq::empty()
    };
    head + inline + tail + seq![Seq::<char>::empty()]
}

/// The complete comment body.
pub open spec fn render_spec(report: HeraldReport, link_base: Seq<char>, max_inline: i64) -> Seq<char> {
    if report.decisions@.len() == 0 {
        MARKER@ + "\n### Decisions governing this change\n\nNo recorded decisions govern the paths changed by this pull request.\n"@
    } else {
        join(render_lines(report, link_base, max_inline), "\n"@)
    }
}

fn push_line(lines: &mut Vec<String>, s: String)
    ensures
        views(final(lines)@) == views(old(lines)@).push(s@),
{
    lines.push(s);
    assert(views(lines@) =~= views(old(lines)@).push(s@));
}

fn push_bullets(lines: &mut Vec<String>, ds: &Vec<HeraldDecision>, from: usize, to: usize, link_base: &str)
    requires
        from <= to <= ds@.len(),
    ensures
        views(final(lines)@) == views(old(lines)@) + bullets_spec(ds@.subrange(from as int, to as int), link_base@),
{
    let ghost start = views(lines@);
    let mut i = from;
    while i < to
        invariant
            from <= i <= to <= ds@.len(),
            views(lines@) == start + bullets_spec(ds@.subrange(from as int, i as int), link_base@),
        decreases to - i,
    {
        push_line(lines, bullet(&ds[i], link_base));
        i += 1;
        assert(views(lines@) =~= start + bullets_spec(ds@.subrange(from as int, i as int), link_base@));
    }
}

/// Render the comment: a stable marker, a headline, up to `max_inline`
/// bullets inline (all of them when `max_inline` is not positive) and the
/// rest inside a collapsed block.
pub fn render(report: &HeraldReport, link_base: &str, max_inline: i64) -> (r: String)
    ensures
        r@ == render_spec(*report, link_base@, max_inline),
{
    let ds = &report.decisions;
    if ds.len() == 0 {
        let mut out = owned(MARKER);
        push_str(&mut out, "\n### Decisions governing this change\n\nNo recorded decisions govern the paths changed by this pull request.\n");
        return out;
    }
    let count = ds.len();
    let mut lines: Vec<String> = Vec::new();
    push_line(&mut lines, owned(MARKER));
    push_line(&mut lines, owned("### Decisions governing this change"));
    push_line(&mut lines, String::new());
    let mut headline = owned("This pull request touches paths governed by ");
    push_str(&mut headline, usize_to_string(count).as_str());
    push_str(&mut headline, " recorded decision");
    if count != 1 {
        push_str(&mut headline, "s");
    }
    push_str(&mut headline, " — review recommended.");
    push_line(&mut lines, headline);
    push_line(&mut lines, String::new());
    let k: usize = if max_inline > 0 {
        if (max_inline as u64) < (count as u64) { max_inline as usize } else { count }
    } else {
        count
    };
    push_bullets(&mut lines, ds, 0, k, link_base);
    if k < count {
        let rest = count - k;
        push_line(&mut lines, String::new());
        let mut summary = owned("<details><summary>");
        push_str(&mut summary, usize_to_string(rest).as_str());
        push_str(&mut summary, " more governing decision");
        if rest != 1 {
            push_str(&mut summary, "s");
        }
        push_str(&mut summary, "</summary>");
        push_line(&mut lines, summary);
        push_line(&mut lines, String::new());
        push_bullets(&mut lines, ds, k, count, link_base);
        push_line(&mut lines, String::new());
        push_line(&mut lines, owned("</details>"));
    }
    push_line(&mut lines, String::new());
    proof {
        assert(ds@.subrange(0, k as int) =~= ds@.take(k as int));
        assert(ds@.subrange(k as int, count as int) =~= ds@.skip(k as int));
        assert(views(lines@) =~= render_lines(*report, link_base@, max_inline));
    }
    join_strings(&lines, "\n")
}


/// One decision that governs one changed path, as the scope lookup reports
/// it.
#[derive(Debug)]
pub struct GoverningMatch {
    pub key: Option<ArtifactKey>,
    pub origin: Option<ArtifactOrigin>,
    pub id: String,
    pub title: String,
    pub status: String,
    pub path: String,
    /// The scope entry that matched the changed path.
    pub matching_entry: String,
}

/// Text with nothing but whitespace.
pub open spec fn blank(s: Seq<char>) -> bool {
    forall|i: int| 0 <= i < s.len() ==> is_white(#[trigger] s[i])
}

fn is_blank(s: &str) -> (r: bool)
    ensures
        r == blank(s@),
{
    let cs = chars_of(s);
    let mut i: usize = 0;
    while i < cs.len()
        invariant
            cs@ == s@,
            i <= cs@.len(),
            forall|k: int| 0 <= k < i ==> is_white(#[trigger] cs@[k]),
        decreases cs@.len() - i,
    {
        if !char_is_white(cs[i]) {
            return false;
        }
        i += 1;
    }
    true
}

/// The changed paths a comment looks up: each distinct non-blank path
/// once, in ascending order.
pub fn changed_paths(paths: &Vec<String>) -> (r: Vec<String>)
    ensures
        strictly_ascending(views(r@)),
        forall|x: Seq<char>| #![trigger views(r@).contains(x)] #![trigger views(paths@).contains(x)]
            views(r@).contains(x) <==> (views(paths@).contains(x) && !blank(x)),
{
    let mut kept: Vec<String> = Vec::new();
    let mut i: usize = 0;
    while i < paths.len()
        invariant
            i <= paths@.len(),
            forall|x: Seq<char>| #![trigger views(kept@).contains(x)] #![trigger views(paths@.take(i as int)).contains(x)]
                views(kept@).contains(x) <==> (views(paths@.take(i as int)).contains(x) && !blank(x)),
        decreases paths@.len() - i,
    {
        let ghost before = views(kept@);
        let keep = !is_blank(paths[i].as_str());
        if keep {
            kept.push(paths[i].clone());
        }
        proof {
            broadcast use vstd::seq_lib::group_seq_properties;
            let old_t = views(paths@.take(i as int));
            let p = paths@[i as int]@;
            let t = views(paths@.take(i as int + 1));
            assert(t =~= old_t.push(p));
            if keep {
                assert(views(kept@) =~= before.push(p));
            } else {
                assert(views(kept@) =~= before);
            }
            assert forall|x: Seq<char>| #![trigger views(kept@).contains(x)] #![trigger t.contains(x)] views(kept@).contains(x) <==> (t.contains(x) && !blank(x)) by {
                assert(t.contains(x) <==> (old_t.contains(x) || x == p));
                assert(views(kept@).contains(x) <==> (before.contains(x) || (keep && x == p)));
                assert(before.contains(x) <==> (old_t.contains(x) && !blank(x)));
            }
        }
        i += 1;
    }
    assert(paths@.take(paths@.len() as int) =~= paths@);
    assert(views(paths@.take(paths@.len() as int)) == views(paths@));
    let r = sorted_unique(&kept);
    assert forall|x: Seq<char>| #![trigger views(r@).contains(x)] #![trigger views(paths@).contains(x)]
        views(r@).contains(x) <==> (views(paths@).contains(x) && !blank(x)) by {
        assert(views(r@).contains(x) <==> views(kept@).contains(x));
        assert(views(kept@).contains(x) <==> (views(paths@.take(paths@.len() as int)).contains(x) && !blank(x)));
    }
    r
}

/// The key a match is merged under: its canonical id, or in a composed view
/// its artifact key.
pub open spec fn group_key(m: GoverningMatch, composed: bool) -> Seq<Seq<char>> {
    if composed {
        match m.key {
            Some(k) => pair_key(k@),
            None => Seq::empty(),
        }
    } else {
        seq![m.id@]
    }
}

/// The key a merged decision carries.
pub open spec fn decision_key(d: HeraldDecision, composed: bool) -> Seq<Seq<char>> {
    if composed {
        match d.key {
            Some(k) => pair_key(k@),
            None => Seq::empty(),
        }
    } else {
        seq![d.id@]
    }
}

/// The matches of one path, in order; a composed view drops keyless ones.
pub open spec fn row_matches(path: Seq<char>, ms: Seq<GoverningMatch>, upto: int, composed: bool) -> Seq<(Seq<char>, GoverningMatch)>
    decreases upto,
{
    if upto <= 0 {
        Seq::empty()
    } else {
        let prev = row_matches(path, ms, upto - 1, composed);
        if !composed || ms[upto - 1].key is Some { prev.push((path, ms[upto - 1])) } else { prev }
    }
}

/// Every match of the looked-up paths, path by path.
pub open spec fn all_matches(lookups: Seq<(String, Vec<GoverningMatch>)>, upto: int, composed: bool) -> Seq<(Seq<char>, GoverningMatch)>
    decreases upto,
{
    if upto <= 0 {
        Seq::empty()
    } else {
        all_matches(lookups, upto - 1, composed)
            + row_matches(lookups[upto - 1].0@, lookups[upto - 1].1@, lookups[upto - 1].1@.len() as int, composed)
    }
}

/// The first of the first `upto` matches merged under `k`.
pub open spec fn first_match(occ: Seq<(Seq<char>, GoverningMatch)>, k: Seq<Seq<char>>, composed: bool, upto: int) -> Option<int>
    decreases upto,
{
    if upto <= 0 {
        None
    } else {
        match first_match(occ, k, composed, upto - 1) {
            Some(i) => Some(i),
            None => if group_key(occ[upto - 1].1, composed) == k { Some(upto - 1) } else { None },
        }
    }
}

/// `d` merges the matches under its key: the first one gives its identity,
/// and its scope entries and changed paths are those of all of them,
/// distinct and ascending.
pub open spec fn merges(d: HeraldDecision, occ: Seq<(Seq<char>, GoverningMatch)>, composed: bool) -> bool {
    let k = decision_key(d, composed);
    &&& first_match(occ, k, composed, occ.len() as int) matches Some(f) && {
        let m = occ[f].1;
        &&& d.key == m.key
        &&& d.origin == (if composed { m.origin } else { None })
        &&& d.id@ == m.id@
        &&& d.title@ == m.title@
        &&& d.status@ == m.status@
        &&& d.path@ == m.path@
    }
    &&& strictly_ascending(views(d.matching_entries@))
    &&& forall|x: Seq<char>| views(d.matching_entries@).contains(x) <==>
        exists|q: int| 0 <= q < occ.len() && #[trigger] group_key(occ[q].1, composed) == k && occ[q].1.matching_entry@ == x
    &&& strictly_ascending(views(d.changed_paths@))
    &&& forall|x: Seq<char>| views(d.changed_paths@).contains(x) <==>
        exists|q: int| 0 <= q < occ.len() && #[trigger] group_key(occ[q].1, composed) == k && occ[q].0 == x
}

/// Some decision carries key `k`.
pub open spec fn has_decision_key(ds: Seq<HeraldDecision>, k: Seq<Seq<char>>, composed: bool) -> bool {
    exists|j: int| 0 <= j < ds.len() && #[trigger] decision_key(ds[j], composed) == k
}

/// Some match is merged under key `k`.
pub open spec fn has_group_key(occ: Seq<(Seq<char>, GoverningMatch)>, k: Seq<Seq<char>>, composed: bool) -> bool {
    exists|q: int| 0 <= q < occ.len() && #[trigger] group_key(occ[q].1, composed) == k
}

/// What a collection reports for the lookups of its changed paths: one
/// decision per distinct key, ascending by key.
pub open spec fn collected(r: HeraldReport, lookups: Seq<(String, Vec<GoverningMatch>)>, composed: bool) -> bool {
    let occ = all_matches(lookups, lookups.len() as int, composed);
    &&& forall|a: int, b: int| 0 <= a < b < r.decisions@.len() ==>
        keys_lt(decision_key(#[trigger] r.decisions@[a], composed), decision_key(#[trigger] r.decisions@[b], composed))
    &&& forall|k: Seq<Seq<char>>| #![trigger has_decision_key(r.decisions@, k, composed)] #![trigger has_group_key(occ, k, composed)]
        has_decision_key(r.decisions@, k, composed) <==> has_group_key(occ, k, composed)
    &&& forall|j: int| 0 <= j < r.decisions@.len() ==> merges(#[trigger] r.decisions@[j], occ, composed)
}

fn copy_key(k: &Option<ArtifactKey>) -> (r: Option<ArtifactKey>)
    ensures
        r == *k,
{
    match k {
        Some(x) => Some(x.dup()),
        None => None,
    }
}

fn copy_origin(o: &Option<ArtifactOrigin>) -> (r: Option<ArtifactOrigin>)
    ensures
        r == *o,
{
    match o {
        Some(x) => Some(x.dup()),
        None => None,
    }
}

fn dup_match(m: &GoverningMatch) -> (r: GoverningMatch)
    ensures
        r.key == m.key,
        r.origin == m.origin,
        r.id@ == m.id@,
        r.title@ == m.title@,
        r.status@ == m.status@,
        r.path@ == m.path@,
        r.matching_entry@ == m.matching_entry@,
{
    GoverningMatch {
        key: copy_key(&m.key),
        origin: copy_origin(&m.origin),
        id: m.id.clone(),
        title: m.title.clone(),
        status: m.status.clone(),
        path: m.path.clone(),
        matching_entry: m.matching_entry.clone(),
    }
}

/// The same match, field by field.
pub open spec fn same_match(a: GoverningMatch, b: GoverningMatch) -> bool {
    a.key == b.key && a.origin == b.origin && a.id@ == b.id@ && a.title@ == b.title@ && a.status@ == b.status@
        && a.path@ == b.path@ && a.matching_entry@ == b.matching_entry@
}

/// The flattened matches, each paired with its path.
pub open spec fn flat_is(v: Seq<(String, GoverningMatch)>, occ: Seq<(Seq<char>, GoverningMatch)>) -> bool {
    v.len() == occ.len() && forall|i: int| 0 <= i < v.len() ==> #[trigger] v[i].0@ == occ[i].0 && same_match(v[i].1, occ[i].1)
}

fn flatten(lookups: &Vec<(String, Vec<GoverningMatch>)>, composed: bool) -> (r: Vec<(String, GoverningMatch)>)
    ensures
        flat_is(r@, all_matches(lookups@, lookups@.len() as int, composed)),
{
    let mut out: Vec<(String, GoverningMatch)> = Vec::new();
    let mut i: usize = 0;
    while i < lookups.len()
        invariant
            i <= lookups@.len(),
            flat_is(out@, all_matches(lookups@, i as int, composed)),
        decreases lookups@.len() - i,
    {
        let path = &lookups[i].0;
        let ms = &lookups[i].1;
        let ghost base = all_matches(lookups@, i as int, composed);
        let mut j: usize = 0;
        while j < ms.len()
            invariant
                i < lookups@.len(),
                *path == lookups@[i as int].0,
                *ms == lookups@[i as int].1,
                j <= ms@.len(),
                base == all_matches(lookups@, i as int, composed),
                flat_is(out@, base + row_matches(path@, ms@, j as int, composed)),
            decreases ms@.len() - j,
        {
            let ghost prev = out@;
            if !composed || ms[j].key.is_some() {
                out.push((path.clone(), dup_match(&ms[j])));
                proof {
                    let t = base + row_matches(path@, ms@, j as int + 1, composed);
                    assert(t =~= (base + row_matches(path@, ms@, j as int, composed)).push((path@, ms@[j as int])));
                    assert(out@.len() == t.len());
                    assert forall|q: int| 0 <= q < out@.len() implies #[trigger] out@[q].0@ == t[q].0 && same_match(out@[q].1, t[q].1) by {
                        if q < prev.len() {
                            assert(out@[q] == prev[q]);
                            assert(t[q] == (base + row_matches(path@, ms@, j as int, composed))[q]);
                        } else {
                            assert(t[q] == (path@, ms@[j as int]));
                        }
                    }
                    assert(flat_is(out@, t));
                }
            } else {
                assert(base + row_matches(path@, ms@, j as int + 1, composed) =~= base + row_matches(path@, ms@, j as int, composed));
            }
            j += 1;
        }
        i += 1;
    }
    out
}


/// The key a group is built for: a canonical id, or in a composed view an
/// artifact key.
pub open spec fn target_key(composed: bool, id: Seq<char>, key: Option<ArtifactKey>) -> Seq<Seq<char>> {
    if composed {
        match key {
            Some(k) => pair_key(k@),
            None => Seq::empty(),
        }
    } else {
        seq![id]
    }
}

fn in_group(m: &GoverningMatch, composed: bool, id: &str, key: &Option<ArtifactKey>) -> (r: bool)
    requires
        composed ==> key is Some,
    ensures
        r == (group_key(*m, composed) == target_key(composed, id@, *key)),
{
    if composed {
        match (&m.key, key) {
            (Some(a), Some(b)) => {
                let same = a.same(b);
                proof {
                    if pair_key(a@) == pair_key(b@) {
                        assert(pair_key(a@)[0] == a@.0 && pair_key(a@)[1] == a@.1);
                        assert(pair_key(b@)[0] == b@.0 && pair_key(b@)[1] == b@.1);
                    }
                }
                same
            },
            (None, Some(b)) => {
                assert(pair_key(b@).len() == 2);
                false
            },
            _ => false,
        }
    } else {
        let same = str_eq(m.id.as_str(), id);
        proof {
            if seq![m.id@] == seq![id@] {
                assert(seq![m.id@][0] == seq![id@][0]);
            }
        }
        same
    }
}

fn build_decision(occ: &Vec<(String, GoverningMatch)>, Ghost(ov): Ghost<Seq<(Seq<char>, GoverningMatch)>>, composed: bool, id: &str, key: &Option<ArtifactKey>) -> (r: HeraldDecision)
    requires
        flat_is(occ@, ov),
        composed ==> key is Some,
        has_group_key(ov, target_key(composed, id@, *key), composed),
    ensures
        merges(r, ov, composed),
        decision_key(r, composed) == target_key(composed, id@, *key),
{
    let ghost kt = target_key(composed, id@, *key);
    let mut first: Option<usize> = None;
    let mut entries: Vec<String> = Vec::new();
    let mut paths: Vec<String> = Vec::new();
    let mut q: usize = 0;
    while q < occ.len()
        invariant
            flat_is(occ@, ov),
            composed ==> key is Some,
            kt == target_key(composed, id@, *key),
            q <= occ@.len(),
            match first {
                Some(f) => first_match(ov, kt, composed, q as int) == Some(f as int) && f < q,
                None => first_match(ov, kt, composed, q as int) is None,
            },
            forall|x: Seq<char>| #![trigger views(entries@).contains(x)]
                views(entries@).contains(x) <==> exists|t: int| 0 <= t < q && #[trigger] group_key(ov[t].1, composed) == kt && ov[t].1.matching_entry@ == x,
            forall|x: Seq<char>| #![trigger views(paths@).contains(x)]
                views(paths@).contains(x) <==> exists|t: int| 0 <= t < q && #[trigger] group_key(ov[t].1, composed) == kt && ov[t].0 == x,
        decreases occ@.len() - q,
    {
        let m = &occ[q].1;
        assert(occ@[q as int].0@ == ov[q as int].0);
        assert(same_match(occ@[q as int].1, ov[q as int].1));
        assert(group_key(*m, composed) == group_key(ov[q as int].1, composed));
        let hit = in_group(m, composed, id, key);
        let ghost be = views(entries@);
        let ghost bp = views(paths@);
        if hit {
            if first.is_none() {
                first = Some(q);
            }
            entries.push(m.matching_entry.clone());
            paths.push(occ[q].0.clone());
            proof {
                broadcast use vstd::seq_lib::group_seq_properties;
                assert(views(entries@) =~= be.push(ov[q as int].1.matching_entry@));
                assert(views(paths@) =~= bp.push(ov[q as int].0));
            }
        }
        proof {
            broadcast use vstd::seq_lib::group_seq_properties;
            assert forall|x: Seq<char>| #![trigger views(entries@).contains(x)]
                views(entries@).contains(x) <==> exists|t: int| 0 <= t < q + 1 && #[trigger] group_key(ov[t].1, composed) == kt && ov[t].1.matching_entry@ == x by {
                if exists|t: int| 0 <= t < q + 1 && #[trigger] group_key(ov[t].1, composed) == kt && ov[t].1.matching_entry@ == x {
                    let t = choose|t: int| 0 <= t < q + 1 && #[trigger] group_key(ov[t].1, composed) == kt && ov[t].1.matching_entry@ == x;
                    if t < q {
                        assert(be.contains(x));
                    }
                }
                assert(be.contains(x) ==> views(entries@).contains(x));
            }
            assert forall|x: Seq<char>| #![trigger views(paths@).contains(x)]
                views(paths@).contains(x) <==> exists|t: int| 0 <= t < q + 1 && #[trigger] group_key(ov[t].1, composed) == kt && ov[t].0 == x by {
                if exists|t: int| 0 <= t < q + 1 && #[trigger] group_key(ov[t].1, composed) == kt && ov[t].0 == x {
                    let t = choose|t: int| 0 <= t < q + 1 && #[trigger] group_key(ov[t].1, composed) == kt && ov[t].0 == x;
                    if t < q {
                        assert(bp.contains(x));
                    }
                }
                assert(bp.contains(x) ==> views(paths@).contains(x));
            }
        }
        q += 1;
    }
    proof {
        let w = choose|t: int| 0 <= t < ov.len() && #[trigger] group_key(ov[t].1, composed) == kt;
        if first.is_none() {
            lemma_first_match_found(ov, kt, composed, w, ov.len() as int);
        }
    }
    let f = match first {
        Some(f) => f,
        None => 0,
    };
    let m = &occ[f].1;
    assert(occ@[f as int].0@ == ov[f as int].0);
    assert(same_match(occ@[f as int].1, ov[f as int].1));
    let matching_entries = sorted_unique(&entries);
    let changed_paths = sorted_unique(&paths);
    let d = HeraldDecision {
        key: copy_key(&m.key),
        origin: if composed { copy_origin(&m.origin) } else { None },
        id: m.id.clone(),
        title: m.title.clone(),
        status: m.status.clone(),
        path: m.path.clone(),
        matching_entries,
        changed_paths,
    };
    proof {
        assert(first_match(ov, kt, composed, ov.len() as int) == Some(f as int));
        lemma_first_match_is(ov, kt, composed, ov.len() as int);
        if composed {
            assert(decision_key(d, composed) == group_key(ov[f as int].1, composed));
        } else {
            assert(decision_key(d, composed) =~= group_key(ov[f as int].1, composed));
        }
    }
    d
}

proof fn lemma_first_match_found(occ: Seq<(Seq<char>, GoverningMatch)>, k: Seq<Seq<char>>, composed: bool, w: int, upto: int)
    requires
        0 <= w < upto <= occ.len(),
        group_key(occ[w].1, composed) == k,
    ensures
        first_match(occ, k, composed, upto) is Some,
    decreases upto,
{
    if upto - 1 > w {
        lemma_first_match_found(occ, k, composed, w, upto - 1);
    }
}

proof fn lemma_first_match_is(occ: Seq<(Seq<char>, GoverningMatch)>, k: Seq<Seq<char>>, composed: bool, upto: int)
    requires
        0 <= upto <= occ.len(),
    ensures
        first_match(occ, k, composed, upto) matches Some(f) ==> 0 <= f < upto && group_key(occ[f].1, composed) == k,
    decreases upto,
{
    if upto > 0 {
        lemma_first_match_is(occ, k, composed, upto - 1);
    }
}


proof fn lemma_row_keyed(path: Seq<char>, ms: Seq<GoverningMatch>, upto: int)
    requires
        0 <= upto <= ms.len(),
    ensures
        forall|q: int| 0 <= q < row_matches(path, ms, upto, true).len() ==> (#[trigger] row_matches(path, ms, upto, true)[q]).1.key is Some,
    decreases upto,
{
    if upto > 0 {
        lemma_row_keyed(path, ms, upto - 1);
    }
}

proof fn lemma_all_keyed(lookups: Seq<(String, Vec<GoverningMatch>)>, upto: int)
    requires
        0 <= upto <= lookups.len(),
    ensures
        forall|q: int| 0 <= q < all_matches(lookups, upto, true).len() ==> (#[trigger] all_matches(lookups, upto, true)[q]).1.key is Some,
    decreases upto,
{
    if upto > 0 {
        lemma_all_keyed(lookups, upto - 1);
        let a = all_matches(lookups, upto - 1, true);
        let b = row_matches(lookups[upto - 1].0@, lookups[upto - 1].1@, lookups[upto - 1].1@.len() as int, true);
        lemma_row_keyed(lookups[upto - 1].0@, lookups[upto - 1].1@, lookups[upto - 1].1@.len() as int);
        assert forall|q: int| 0 <= q < (a + b).len() implies (#[trigger] (a + b)[q]).1.key is Some by {
            if q < a.len() {
                assert((a + b)[q] == a[q]);
            } else {
                assert((a + b)[q] == b[q - a.len()]);
            }
        }
    }
}

/// Merges the decisions found for each changed path by canonical id: one
/// decision per id, ascending, with every scope entry and changed path it
/// was found for. `lookups` pairs each changed path with what the scope
/// lookup found for it.
pub fn collect(lookups: &Vec<(String, Vec<GoverningMatch>)>) -> (r: HeraldReport)
    ensures
        collected(r, lookups@, false),
{
    let occ = flatten(lookups, false);
    let ghost ov = all_matches(lookups@, lookups@.len() as int, false);
    let mut ids: Vec<String> = Vec::new();
    let mut q: usize = 0;
    while q < occ.len()
        invariant
            flat_is(occ@, ov),
            q <= occ@.len(),
            views(ids@) == Seq::new(q as nat, |t: int| ov[t].1.id@),
        decreases occ@.len() - q,
    {
        assert(occ@[q as int].0@ == ov[q as int].0);
        assert(same_match(occ@[q as int].1, ov[q as int].1));
        let id = occ[q].1.id.clone();
        let ghost before = ids@;
        ids.push(id);
        assert(views(ids@) =~= views(before).push(ov[q as int].1.id@));
        assert(views(ids@) =~= Seq::new(q as nat + 1, |t: int| ov[t].1.id@));
        q += 1;
    }
    let distinct = sorted_unique(&ids);
    let mut decisions: Vec<HeraldDecision> = Vec::new();
    let mut j: usize = 0;
    while j < distinct.len()
        invariant
            flat_is(occ@, ov),
            views(ids@) == Seq::new(ov.len(), |t: int| ov[t].1.id@),
            forall|x: Seq<char>| views(distinct@).contains(x) <==> views(ids@).contains(x),
            j <= distinct@.len(),
            decisions@.len() == j,
            forall|t: int| 0 <= t < j ==> merges(#[trigger] decisions@[t], ov, false)
                && decision_key(decisions@[t], false) == seq![distinct@[t]@],
        decreases distinct@.len() - j,
    {
        proof {
            assert(views(distinct@)[j as int] == distinct@[j as int]@);
            assert(views(ids@).contains(distinct@[j as int]@));
            let t = choose|t: int| 0 <= t < views(ids@).len() && views(ids@)[t] == distinct@[j as int]@;
            assert(group_key(ov[t].1, false) == target_key(false, distinct@[j as int]@, None));
        }
        let d = build_decision(&occ, Ghost(ov), false, distinct[j].as_str(), &None);
        decisions.push(d);
        j += 1;
    }
    let r = HeraldReport { decisions };
    proof {
        let ds = r.decisions@;
        assert forall|a: int, b: int| 0 <= a < b < ds.len() implies
            keys_lt(decision_key(#[trigger] ds[a], false), decision_key(#[trigger] ds[b], false)) by {
            assert(views(distinct@)[a] == distinct@[a]@ && views(distinct@)[b] == distinct@[b]@);
            crate::text::lemma_seq_lt_irreflexive(distinct@[a]@);
            lemma_keys_lt_one(distinct@[a]@, distinct@[b]@);
        }
        assert forall|k: Seq<Seq<char>>| #![trigger has_decision_key(ds, k, false)] #![trigger has_group_key(ov, k, false)]
            has_decision_key(ds, k, false) <==> has_group_key(ov, k, false) by {
            if has_decision_key(ds, k, false) {
                let j = choose|j: int| 0 <= j < ds.len() && #[trigger] decision_key(ds[j], false) == k;
                assert(views(distinct@)[j] == distinct@[j]@);
                assert(views(ids@).contains(distinct@[j]@));
                let t = choose|t: int| 0 <= t < views(ids@).len() && views(ids@)[t] == distinct@[j]@;
                assert(group_key(ov[t].1, false) == k);
            }
            if has_group_key(ov, k, false) {
                let t = choose|t: int| 0 <= t < ov.len() && #[trigger] group_key(ov[t].1, false) == k;
                assert(views(ids@)[t] == ov[t].1.id@);
                assert(views(distinct@).contains(ov[t].1.id@));
                let j = choose|j: int| 0 <= j < views(distinct@).len() && views(distinct@)[j] == ov[t].1.id@;
                assert(decision_key(ds[j], false) == k);
            }
        }
    }
    r
}

/// Merges the decisions of a composed view by artifact key, so equal
/// canonical ids or paths in different sources stay apart; decisions the
/// lookup reports without a key are left out.
pub fn collect_from_composed(lookups: &Vec<(String, Vec<GoverningMatch>)>) -> (r: HeraldReport)
    ensures
        collected(r, lookups@, true),
{
    let occ = flatten(lookups, true);
    let ghost ov = all_matches(lookups@, lookups@.len() as int, true);
    proof {
        lemma_all_keyed(lookups@, lookups@.len() as int);
    }
    let mut keys: Vec<ArtifactKey> = Vec::new();
    let mut q: usize = 0;
    while q < occ.len()
        invariant
            flat_is(occ@, ov),
            forall|t: int| 0 <= t < ov.len() ==> (#[trigger] ov[t]).1.key is Some,
            q <= occ@.len(),
            keys_view(keys@) == Seq::new(q as nat, |t: int| ov[t].1.key.unwrap()@),
        decreases occ@.len() - q,
    {
        assert(occ@[q as int].0@ == ov[q as int].0);
        assert(same_match(occ@[q as int].1, ov[q as int].1));
        assert(ov[q as int].1.key is Some);
        let k = match &occ[q].1.key {
            Some(k) => k.dup(),
            None => ArtifactKey::new("", ""),
        };
        let ghost before = keys@;
        keys.push(k);
        assert(keys_view(keys@) =~= keys_view(before).push(ov[q as int].1.key.unwrap()@));
        assert(keys_view(keys@) =~= Seq::new(q as nat + 1, |t: int| ov[t].1.key.unwrap()@));
        q += 1;
    }
    let distinct = sort_unique_keys(keys);
    let mut decisions: Vec<HeraldDecision> = Vec::new();
    let mut j: usize = 0;
    while j < distinct.len()
        invariant
            flat_is(occ@, ov),
            forall|t: int| 0 <= t < ov.len() ==> (#[trigger] ov[t]).1.key is Some,
            keys_view(keys@) == Seq::new(ov.len(), |t: int| ov[t].1.key.unwrap()@),
            forall|x| #[trigger] keys_view(distinct@).contains(x) <==> keys_view(keys@).contains(x),
            keys_ascending(keys_view(distinct@)),
            j <= distinct@.len(),
            decisions@.len() == j,
            forall|t: int| 0 <= t < j ==> merges(#[trigger] decisions@[t], ov, true)
                && decision_key(decisions@[t], true) == pair_key(distinct@[t]@),
        decreases distinct@.len() - j,
    {
        let key = Some(distinct[j].dup());
        proof {
            assert(keys_view(distinct@)[j as int] == distinct@[j as int]@);
            assert(keys_view(distinct@).contains(distinct@[j as int]@));
            assert(keys_view(keys@).contains(distinct@[j as int]@));
            let t = choose|t: int| 0 <= t < keys_view(keys@).len() && keys_view(keys@)[t] == distinct@[j as int]@;
            assert(ov[t].1.key is Some);
            assert(group_key(ov[t].1, true) == target_key(true, ""@, key));
        }
        let d = build_decision(&occ, Ghost(ov), true, "", &key);
        decisions.push(d);
        j += 1;
    }
    let r = HeraldReport { decisions };
    proof {
        let ds = r.decisions@;
        assert forall|a: int, b: int| 0 <= a < b < ds.len() implies
            keys_lt(decision_key(#[trigger] ds[a], true), decision_key(#[trigger] ds[b], true)) by {
            assert(keys_view(distinct@)[a] == distinct@[a]@ && keys_view(distinct@)[b] == distinct@[b]@);
        }
        assert forall|k: Seq<Seq<char>>| #![trigger has_decision_key(ds, k, true)] #![trigger has_group_key(ov, k, true)]
            has_decision_key(ds, k, true) <==> has_group_key(ov, k, true) by {
            if has_decision_key(ds, k, true) {
                let j = choose|j: int| 0 <= j < ds.len() && #[trigger] decision_key(ds[j], true) == k;
                assert(keys_view(distinct@)[j] == distinct@[j]@);
                assert(keys_view(distinct@).contains(distinct@[j]@));
                assert(keys_view(keys@).contains(distinct@[j]@));
                let t = choose|t: int| 0 <= t < keys_view(keys@).len() && keys_view(keys@)[t] == distinct@[j]@;
                assert(ov[t].1.key is Some);
                assert(group_key(ov[t].1, true) == k);
            }
            if has_group_key(ov, k, true) {
                let t = choose|t: int| 0 <= t < ov.len() && #[trigger] group_key(ov[t].1, true) == k;
                assert(ov[t].1.key is Some);
                assert(keys_view(keys@)[t] == ov[t].1.key.unwrap()@);
                assert(keys_view(distinct@).contains(ov[t].1.key.unwrap()@));
                let j = choose|j: int| 0 <= j < keys_view(distinct@).len() && keys_view(distinct@)[j] == ov[t].1.key.unwrap()@;
                assert(decision_key(ds[j], true) == k);
            }
        }
    }
    r
}

/// Every decision of a report has its bullet on a line of its own in the
/// rendered comment, whether inline or in the collapsed block: the comment
/// is its lines joined, and each decision's bullet is one of them.
pub proof fn law_every_decision_is_rendered(report: HeraldReport, link_base: Seq<char>, max_inline: i64)
    requires
        report.decisions@.len() > 0,
    ensures
        exists|lines: Seq<Seq<char>>| render_spec(report, link_base, max_inline) == join(lines, "\n"@)
            && (forall|i: int| 0 <= i < report.decisions@.len() ==> #[trigger] lines.contains(bullet_spec(report.decisions@[i], link_base))),
{
    let ds = report.decisions@;
    let lines = render_lines(report, link_base, max_inline);
    let k = inline_count(ds.len(), max_inline) as int;
    assert(0 <= k <= ds.len());
    let rest = ds.skip(k);
    assert forall|i: int| 0 <= i < ds.len() implies #[trigger] lines.contains(bullet_spec(ds[i], link_base)) by {
        if i < k {
            assert(lines[5 + i] == bullet_spec(ds[i], link_base));
        } else {
            assert(rest.len() > 0);
            assert(rest[i - k] == ds[i]);
            assert(lines[5 + k + 3 + (i - k)] == bullet_spec(ds[i], link_base));
        }
    }
    assert(render_spec(report, link_base, max_inline) == join(lines, "\n"@));
}

} // verus!
