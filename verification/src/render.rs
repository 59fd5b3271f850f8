//! Grouping and rendering: tagged summaries are grouped by tag in a fixed
//! canonical order — feature, bugfix, documentation, test, misc, then any
//! other tags alphabetically — and rendered as markdown, with standalone
//! commits in a trailing "Other" section and an optional release header.

use vstd::prelude::*;
use vstd::string::StringExecFns;
use crate::datefmt::{date_line_of, format_date_line, timestamp_in_range};
use crate::records::{CommitModel, CommitRecord, TaggedSummary, TaggedSummaryModel};
use crate::text::{chars_of, dec_str, prefix_chars, prefix_seq, str_eq, string_from_chars,
    u64_to_dec};

verus! {

/// One rendered group: a tag and the summaries that carry it.
pub struct TagGroup {
    pub tag: String,
    pub entries: Vec<TaggedSummary>,
}

pub ghost struct GroupModel {
    pub tag: Seq<char>,
    pub entries: Seq<TaggedSummaryModel>,
}

impl View for TagGroup {
    type V = GroupModel;

    open spec fn view(&self) -> GroupModel {
        GroupModel {
            tag: self.tag@,
            entries: Seq::new(self.entries@.len(), |i: int| self.entries@[i]@),
        }
    }
}

pub open spec fn summary_models(s: Seq<TaggedSummary>) -> Seq<TaggedSummaryModel> {
    Seq::new(s.len(), |i: int| s[i]@)
}

pub open spec fn group_models(s: Seq<TagGroup>) -> Seq<GroupModel> {
    Seq::new(s.len(), |i: int| s[i]@)
}

pub open spec fn commit_models(s: Seq<CommitRecord>) -> Seq<CommitModel> {
    Seq::new(s.len(), |i: int| s[i]@)
}

/// The summaries carrying `tag`, in input order.
pub open spec fn with_tag(ss: Seq<TaggedSummaryModel>, tag: Seq<char>) -> Seq<TaggedSummaryModel>
    decreases ss.len(),
{
    if ss.len() == 0 {
        Seq::empty()
    } else if ss.last().tag == tag {
        with_tag(ss.drop_last(), tag) + seq![ss.last()]
    } else {
        with_tag(ss.drop_last(), tag)
    }
}

/// Lexicographic order on tag text, by character code.
pub open spec fn lex_le(a: Seq<char>, b: Seq<char>) -> bool
    decreases a.len(),
{
    if a.len() == 0 {
        true
    } else if b.len() == 0 {
        false
    } else if a[0] == b[0] {
        lex_le(a.subrange(1, a.len() as int), b.subrange(1, b.len() as int))
    } else {
        (a[0] as u32) < (b[0] as u32)
    }
}

fn lex_le_from(a: &Vec<char>, b: &Vec<char>, i: usize) -> (r: bool)
    requires
        i <= a@.len(),
        i <= b@.len(),
    ensures
        r == lex_le(
            a@.subrange(i as int, a@.len() as int),
            b@.subrange(i as int, b@.len() as int),
        ),
    decreases a@.len() - i,
{
    let ghost sa = a@.subrange(i as int, a@.len() as int);
    let ghost sb = b@.subrange(i as int, b@.len() as int);
    if i == a.len() {
        proof {
            assert(sa.len() == 0);
        }
        true
    } else if i == b.len() {
        proof {
            assert(sa.len() > 0 && sb.len() == 0);
        }
        false
    } else if a[i] == b[i] {
        let r = lex_le_from(a, b, i + 1);
        proof {
            assert(sa[0] == a@[i as int] && sb[0] == b@[i as int]);
            assert(sa.subrange(1, sa.len() as int) =~= a@.subrange(
                i as int + 1,
                a@.len() as int,
            ));
            assert(sb.subrange(1, sb.len() as int) =~= b@.subrange(
                i as int + 1,
                b@.len() as int,
            ));
        }
        r
    } else {
        let r = (a[i] as u32) < (b[i] as u32);
        proof {
            assert(sa[0] == a@[i as int] && sb[0] == b@[i as int]);
        }
        r
    }
}

/// Lexicographic order on tag strings.
pub fn lex_le_str(a: &String, b: &String) -> (r: bool)
    ensures
        r == lex_le(a@, b@),
{
    let va = chars_of(a.as_str());
    let vb = chars_of(b.as_str());
    let r = lex_le_from(&va, &vb, 0);
    proof {
        assert(va@.subrange(0, va@.len() as int) =~= a@);
        assert(vb@.subrange(0, vb@.len() as int) =~= b@);
    }
    r
}

/// The five canonical tags, in their fixed rendering order.
pub open spec fn known_tags() -> Seq<Seq<char>> {
    seq!["feature"@, "bugfix"@, "documentation"@, "test"@, "misc"@]
}

pub open spec fn tag_known(t: Seq<char>) -> bool {
    t == "feature"@ || t == "bugfix"@ || t == "documentation"@ || t == "test"@ || t == "misc"@
}

pub open spec fn tag_in(ts: Seq<Seq<char>>, t: Seq<char>) -> bool {
    exists|i: int| 0 <= i < ts.len() && ts[i] == t
}

/// `t` inserted into the sorted tag list `ts`, keeping the order.
pub open spec fn insert_tag(ts: Seq<Seq<char>>, t: Seq<char>) -> Seq<Seq<char>>
    decreases ts.len(),
{
    if ts.len() == 0 {
        seq![t]
    } else if lex_le(t, ts[0]) {
        seq![t] + ts
    } else {
        seq![ts[0]] + insert_tag(ts.subrange(1, ts.len() as int), t)
    }
}

/// The distinct tags outside the canonical five, alphabetically.
pub open spec fn other_tags(ss: Seq<TaggedSummaryModel>) -> Seq<Seq<char>>
    decreases ss.len(),
{
    if ss.len() == 0 {
        Seq::empty()
    } else {
        let prev = other_tags(ss.drop_last());
        let t = ss.last().tag;
        if tag_known(t) || tag_in(prev, t) {
            prev
        } else {
            insert_tag(prev, t)
        }
    }
}

proof fn lemma_insert_tag_at(ts: Seq<Seq<char>>, t: Seq<char>, j: int)
    requires
        0 <= j <= ts.len(),
        forall|k: int| 0 <= k < j ==> !lex_le(t, #[trigger] ts[k]),
        j < ts.len() ==> lex_le(t, ts[j]),
    ensures
        insert_tag(ts, t) == ts.insert(j, t),
    decreases ts.len(),
{
    if ts.len() == 0 {
        assert(seq![t] =~= ts.insert(0, t));
    } else if j == 0 {
        assert(lex_le(t, ts[0]));
        assert(seq![t] + ts =~= ts.insert(0, t));
    } else {
        assert(!lex_le(t, ts[0]));
        let ts1 = ts.subrange(1, ts.len() as int);
        assert forall|k: int| 0 <= k < j - 1 implies !lex_le(t, #[trigger] ts1[k]) by {
            assert(ts1[k] == ts[k + 1]);
        }
        assert(j - 1 < ts1.len() ==> lex_le(t, ts1[j - 1]));
        lemma_insert_tag_at(ts1, t, j - 1);
        assert(seq![ts[0]] + ts1.insert(j - 1, t) =~= ts.insert(j, t));
    }
}

/// The groups for `ss` under the tag order `tags`, empty groups left out.
pub open spec fn groups_for(ss: Seq<TaggedSummaryModel>, tags: Seq<Seq<char>>) -> Seq<GroupModel>
    decreases tags.len(),
{
    if tags.len() == 0 {
        Seq::empty()
    } else {
        let rest = groups_for(ss, tags.subrange(1, tags.len() as int));
        if with_tag(ss, tags[0]).len() > 0 {
            seq![GroupModel { tag: tags[0], entries: with_tag(ss, tags[0]) }] + rest
        } else {
            rest
        }
    }
}

/// The canonical grouping of `ss`: the five known tags in their fixed
/// order, then the remaining tags alphabetically, empty groups left out.
pub open spec fn groups_spec(ss: Seq<TaggedSummaryModel>) -> Seq<GroupModel> {
    groups_for(ss, known_tags() + other_tags(ss))
}

/// The summaries of `ss` carrying `tag`, in input order.
fn filter_tag(ss: &Vec<TaggedSummary>, tag: &String) -> (r: Vec<TaggedSummary>)
    ensures
        summary_models(r@) == with_tag(summary_models(ss@), tag@),
{
    let mut r: Vec<TaggedSummary> = Vec::new();
    let mut i: usize = 0;
    proof {
        assert(summary_models(ss@).subrange(0, 0) =~= Seq::<TaggedSummaryModel>::empty());
        assert(summary_models(r@) =~= with_tag(summary_models(ss@).subrange(0, 0), tag@));
    }
    while i < ss.len()
        invariant
            i <= ss@.len(),
            summary_models(r@) == with_tag(summary_models(ss@).subrange(0, i as int), tag@),
        decreases ss@.len() - i,
    {
        let ghost old_r = r@;
        let ghost pre = summary_models(ss@).subrange(0, i as int);
        let ghost pre1 = summary_models(ss@).subrange(0, i as int + 1);
        if str_eq(ss[i].tag.as_str(), tag.as_str()) {
            r.push(ss[i].clone());
        }
        i = i + 1;
        proof {
            assert(pre1.drop_last() =~= pre);
            assert(pre1.last() == summary_models(ss@)[i as int - 1]);
            assert(summary_models(ss@)[i as int - 1] == ss@[i as int - 1]@);
            if ss@[i as int - 1]@.tag == tag@ {
                assert(summary_models(r@) =~= summary_models(old_r).push(ss@[i as int - 1]@));
                assert(with_tag(pre1, tag@) == with_tag(pre, tag@) + seq![pre1.last()]);
                assert(summary_models(r@) =~= with_tag(pre1, tag@));
            } else {
                assert(summary_models(r@) =~= summary_models(old_r));
            }
        }
    }
    proof {
        assert(summary_models(ss@).subrange(0, ss@.len() as int) =~= summary_models(ss@));
    }
    r
}

fn is_known_tag(t: &String) -> (r: bool)
    ensures
        r == tag_known(t@),
{
    str_eq(t.as_str(), "feature") || str_eq(t.as_str(), "bugfix") || str_eq(
        t.as_str(),
        "documentation",
    ) || str_eq(t.as_str(), "test") || str_eq(t.as_str(), "misc")
}

fn tags_contain(ts: &Vec<String>, t: &String) -> (r: bool)
    ensures
        r == tag_in(crate::graph::ids_of(ts@), t@),
{
    let mut i: usize = 0;
    while i < ts.len()
        invariant
            i <= ts@.len(),
            forall|j: int| 0 <= j < i as int ==> crate::graph::ids_of(ts@)[j] != t@,
        decreases ts@.len() - i,
    {
        if str_eq(ts[i].as_str(), t.as_str()) {
            proof {
                assert(crate::graph::ids_of(ts@)[i as int] == t@);
            }
            return true;
        }
        i = i + 1;
    }
    false
}

/// The distinct tags of `ss` outside the canonical five, alphabetically.
fn collect_other_tags(ss: &Vec<TaggedSummary>) -> (r: Vec<String>)
    ensures
        crate::graph::ids_of(r@) == other_tags(summary_models(ss@)),
{
    let mut r: Vec<String> = Vec::new();
    let mut i: usize = 0;
    proof {
        assert(summary_models(ss@).subrange(0, 0) =~= Seq::<TaggedSummaryModel>::empty());
        assert(crate::graph::ids_of(r@) =~= other_tags(
            summary_models(ss@).subrange(0, 0),
        ));
    }
    while i < ss.len()
        invariant
            i <= ss@.len(),
            crate::graph::ids_of(r@) == other_tags(summary_models(ss@).subrange(0, i as int)),
        decreases ss@.len() - i,
    {
        let ghost pre = summary_models(ss@).subrange(0, i as int);
        let ghost pre1 = summary_models(ss@).subrange(0, i as int + 1);
        let t = &ss[i].tag;
        if !is_known_tag(t) && !tags_contain(&r, t) {
            let ghost old_r = r@;
            // find the sorted position
            let mut j: usize = 0;
            while j < r.len() && !lex_le_str(t, &r[j])
                invariant
                    j <= r@.len(),
                    r@ == old_r,
                    forall|k: int|
                        0 <= k < j as int ==> !lex_le(t@, #[trigger] crate::graph::ids_of(
                            r@,
                        )[k]),
                decreases r@.len() - j,
            {
                j = j + 1;
            }
            r.insert(j, t.clone());
            proof {
                assert(crate::graph::ids_of(r@) =~= crate::graph::ids_of(old_r).insert(
                    j as int,
                    t@,
                ));
                lemma_insert_tag_at(crate::graph::ids_of(old_r), t@, j as int);
            }
        }
        i = i + 1;
        proof {
            assert(pre1.drop_last() =~= pre);
            assert(pre1.last() == ss@[i as int - 1]@);
        }
    }
    proof {
        assert(summary_models(ss@).subrange(0, ss@.len() as int) =~= summary_models(ss@));
    }
    r
}

/// Group the summaries: the five canonical tags in their fixed order, then
/// any other tags alphabetically; a tag with no summaries has no group.
pub fn group_summaries(ss: &Vec<TaggedSummary>) -> (r: Vec<TagGroup>)
    ensures
        group_models(r@) == groups_spec(summary_models(ss@)),
{
    let others = collect_other_tags(ss);
    let mut tags: Vec<String> = Vec::new();
    tags.push("feature".to_owned());
    tags.push("bugfix".to_owned());
    tags.push("documentation".to_owned());
    tags.push("test".to_owned());
    tags.push("misc".to_owned());
    let ghost base = tags@;
    proof {
        assert(crate::graph::ids_of(base) =~= known_tags());
    }
    let mut oi: usize = 0;
    while oi < others.len()
        invariant
            oi <= others@.len(),
            base.len() == 5,
            crate::graph::ids_of(base) == known_tags(),
            tags@ == base + others@.subrange(0, oi as int),
        decreases others@.len() - oi,
    {
        tags.push(others[oi].clone());
        oi = oi + 1;
        proof {
            assert(tags@ =~= base + others@.subrange(0, oi as int));
        }
    }
    proof {
        assert(others@.subrange(0, others@.len() as int) =~= others@);
        assert(tags@ =~= base + others@);
        assert forall|j: int|
            0 <= j < crate::graph::ids_of(tags@).len() implies crate::graph::ids_of(tags@)[j]
            == (known_tags() + other_tags(summary_models(ss@)))[j] by {
            if j < 5 {
                assert(tags@[j] == base[j]);
                assert(crate::graph::ids_of(base)[j] == known_tags()[j]);
            } else {
                assert(tags@[j] == others@[j - 5]);
                assert(crate::graph::ids_of(others@)[j - 5] == others@[j - 5]@);
            }
        }
        assert(crate::graph::ids_of(tags@) =~= known_tags() + other_tags(summary_models(ss@)));
    }
    let ghost all_tags = crate::graph::ids_of(tags@);
    let ghost ssm = summary_models(ss@);
    let mut out: Vec<TagGroup> = Vec::new();
    let mut i: usize = 0;
    proof {
        assert(all_tags.subrange(0, all_tags.len() as int) =~= all_tags);
        assert(group_models(out@) + groups_for(ssm, all_tags) =~= groups_for(ssm, all_tags));
    }
    while i < tags.len()
        invariant
            i <= tags@.len(),
            all_tags == crate::graph::ids_of(tags@),
            ssm == summary_models(ss@),
            groups_for(ssm, all_tags) == group_models(out@) + groups_for(
                ssm,
                all_tags.subrange(i as int, all_tags.len() as int),
            ),
        decreases tags@.len() - i,
    {
        let ghost suf = all_tags.subrange(i as int, all_tags.len() as int);
        let entries = filter_tag(ss, &tags[i]);
        proof {
            assert(suf[0] == all_tags[i as int]);
            assert(suf.subrange(1, suf.len() as int) =~= all_tags.subrange(
                i as int + 1,
                all_tags.len() as int,
            ));
        }
        if entries.len() > 0 {
            let ghost old_out = out@;
            out.push(TagGroup { tag: tags[i].clone(), entries });
            proof {
                assert(group_models(out@) =~= group_models(old_out).push(
                    GroupModel { tag: all_tags[i as int], entries: with_tag(ssm, all_tags[i as int]) },
                ));
                assert(group_models(out@) + groups_for(
                    ssm,
                    all_tags.subrange(i as int + 1, all_tags.len() as int),
                ) =~= group_models(old_out) + groups_for(ssm, suf));
            }
        } else {
            proof {
                assert(with_tag(ssm, all_tags[i as int]).len() == 0);
            }
        }
        i = i + 1;
    }
    proof {
        assert(all_tags.subrange(all_tags.len() as int, all_tags.len() as int) =~= Seq::<
            Seq<char>,
        >::empty());
        assert(group_models(out@) + Seq::<GroupModel>::empty() =~= group_models(out@));
    }
    out
}

/// The first character upper-cased, for ascii letters.
pub open spec fn ascii_upper(c: char) -> char {
    if 97 <= c as u32 && c as u32 <= 122 {
        ((c as u32) - 32) as char
    } else {
        c
    }
}

pub open spec fn cap_first(s: Seq<char>) -> Seq<char> {
    if s.len() == 0 {
        s
    } else {
        seq![ascii_upper(s[0])] + s.subrange(1, s.len() as int)
    }
}

/// The tag's heading form: first character upper-cased.
pub fn capitalize(tag: &String) -> (r: String)
    ensures
        r@ == cap_first(tag@),
{
    let cs = chars_of(tag.as_str());
    if cs.len() == 0 {
        proof {
            assert(tag@.len() == 0);
        }
        return tag.clone();
    }
    let c = cs[0];
    let n = c as u32;
    let up: char = if 97 <= n && n <= 122 {
        ((n - 32) as u8) as char
    } else {
        c
    };
    let mut out: Vec<char> = Vec::new();
    out.push(up);
    let mut i: usize = 1;
    while i < cs.len()
        invariant
            1 <= i <= cs@.len(),
            cs@ == tag@,
            cs@.len() > 0,
            out@ == seq![ascii_upper(tag@[0])] + tag@.subrange(1, i as int),
        decreases cs@.len() - i,
    {
        out.push(cs[i]);
        i = i + 1;
        proof {
            assert(out@ =~= seq![ascii_upper(tag@[0])] + tag@.subrange(1, i as int));
        }
    }
    proof {
        assert(out@ =~= cap_first(tag@));
    }
    string_from_chars(&out)
}

/// One summary bullet: `* <summary> [#<number>](<url>)`.
pub open spec fn entry_line(e: TaggedSummaryModel) -> Seq<char> {
    "* "@ + e.summary + " [#"@ + dec_str(e.number as nat) + "]("@ + e.url + ")\n"@
}

pub open spec fn entry_lines(es: Seq<TaggedSummaryModel>) -> Seq<char>
    decreases es.len(),
{
    if es.len() == 0 {
        Seq::empty()
    } else {
        entry_lines(es.drop_last()) + entry_line(es.last())
    }
}

/// One group: its heading, then its bullets.
pub open spec fn group_text(g: GroupModel) -> Seq<char> {
    "\n** "@ + cap_first(g.tag) + " **\n"@ + entry_lines(g.entries)
}

pub open spec fn groups_text(gs: Seq<GroupModel>) -> Seq<char>
    decreases gs.len(),
{
    if gs.len() == 0 {
        Seq::empty()
    } else {
        groups_text(gs.drop_last()) + group_text(gs.last())
    }
}

/// One standalone commit line: `* <headline> (<short id>)`.
pub open spec fn other_line(c: CommitModel) -> Seq<char> {
    "* "@ + c.headline + " ("@ + prefix_seq(c.oid, 6) + ")\n"@
}

pub open spec fn other_lines(cs: Seq<CommitModel>) -> Seq<char>
    decreases cs.len(),
{
    if cs.len() == 0 {
        Seq::empty()
    } else {
        other_lines(cs.drop_last()) + other_line(cs.last())
    }
}

/// The trailing section for standalone commits, absent when there are none.
pub open spec fn other_text(cs: Seq<CommitModel>) -> Seq<char> {
    if cs.len() == 0 {
        Seq::empty()
    } else {
        "## Other\n"@ + other_lines(cs)
    }
}

/// The header line: the release name, with its tag date when known.
pub open spec fn header_text(release: Option<Seq<char>>, date: Option<Seq<char>>) -> Seq<char> {
    match release {
        None => Seq::empty(),
        Some(r) => "**"@ + r + "**"@ + (match date {
            Some(d) => " ("@ + d + ")"@,
            None => Seq::empty(),
        }) + "\n"@,
    }
}

/// The whole rendered notes text.
pub open spec fn notes_text(
    release: Option<Seq<char>>,
    date: Option<Seq<char>>,
    gs: Seq<GroupModel>,
    sa: Seq<CommitModel>,
) -> Seq<char> {
    header_text(release, date) + groups_text(gs) + other_text(sa)
}

pub open spec fn opt_text(o: Option<&String>) -> Option<Seq<char>> {
    match o {
        Some(s) => Some(s@),
        None => None,
    }
}

/// The header's date: the tag commit's authorship time, where chrono can
/// format it.
pub open spec fn header_date(tag_time: Option<i64>) -> Option<Seq<char>> {
    match tag_time {
        Some(s) => if timestamp_in_range(s as int) {
            Some(date_line_of(s as int))
        } else {
            None
        },
        None => None,
    }
}

/// Render the release notes: header, canonical groups, trailing "Other"
/// section. Byte-identical output for equal inputs.
pub fn render_notes(
    release: Option<&String>,
    tag_time: Option<i64>,
    groups: &Vec<TagGroup>,
    standalone: &Vec<CommitRecord>,
) -> (r: String)
    ensures
        r@ == notes_text(
            opt_text(release),
            header_date(tag_time),
            group_models(groups@),
            commit_models(standalone@),
        ),
{
    let mut out = String::new();
    match release {
        Some(name) => {
            out.append("**");
            out.append(name.as_str());
            out.append("**");
            match tag_time {
                Some(secs) => {
                    match format_date_line(secs) {
                        Some(d) => {
                            out.append(" (");
                            out.append(d.as_str());
                            out.append(")");
                        },
                        None => {},
                    }
                },
                None => {},
            }
            out.append("\n");
        },
        None => {},
    }
    proof {
        assert(out@ =~= header_text(opt_text(release), header_date(tag_time)));
    }
    let ghost head = out@;
    let mut gi: usize = 0;
    proof {
        assert(group_models(groups@).subrange(0, 0) =~= Seq::<GroupModel>::empty());
        assert(out@ =~= head + groups_text(group_models(groups@).subrange(0, 0)));
    }
    while gi < groups.len()
        invariant
            gi <= groups@.len(),
            head == header_text(opt_text(release), header_date(tag_time)),
            out@ == head + groups_text(group_models(groups@).subrange(0, gi as int)),
        decreases groups@.len() - gi,
    {
        let g = &groups[gi];
        out.append("\n** ");
        let cap = capitalize(&g.tag);
        out.append(cap.as_str());
        out.append(" **\n");
        let ghost entry_start = out@;
        let mut ei: usize = 0;
        proof {
            assert(g@.entries.subrange(0, 0) =~= Seq::<TaggedSummaryModel>::empty());
            assert(out@ =~= entry_start + entry_lines(g@.entries.subrange(0, 0)));
        }
        while ei < g.entries.len()
            invariant
                ei <= g.entries@.len(),
                out@ == entry_start + entry_lines(g@.entries.subrange(0, ei as int)),
            decreases g.entries@.len() - ei,
        {
            let e = &g.entries[ei];
            out.append("* ");
            out.append(e.summary.as_str());
            out.append(" [#");
            let num = u64_to_dec(e.number);
            out.append(num.as_str());
            out.append("](");
            out.append(e.url.as_str());
            out.append(")\n");
            ei = ei + 1;
            proof {
                let sub = g@.entries.subrange(0, ei as int);
                assert(sub.drop_last() =~= g@.entries.subrange(0, ei as int - 1));
                assert(sub.last() == g@.entries[ei as int - 1]);
                assert(g@.entries[ei as int - 1] == g.entries@[ei as int - 1]@);
                assert(out@ =~= entry_start + entry_lines(sub));
            }
        }
        gi = gi + 1;
        proof {
            assert(g@.entries.subrange(0, g.entries@.len() as int) =~= g@.entries);
            let gsub = group_models(groups@).subrange(0, gi as int);
            assert(gsub.drop_last() =~= group_models(groups@).subrange(0, gi as int - 1));
            assert(gsub.last() == groups@[gi as int - 1]@);
            assert(out@ =~= head + groups_text(gsub));
        }
    }
    proof {
        assert(group_models(groups@).subrange(0, groups@.len() as int) =~= group_models(
            groups@,
        ));
    }
    let ghost mid = out@;
    if standalone.len() > 0 {
        out.append("## Other\n");
        let ghost other_start = out@;
        let mut ci: usize = 0;
        proof {
            assert(commit_models(standalone@).subrange(0, 0) =~= Seq::<CommitModel>::empty());
            assert(out@ =~= other_start + other_lines(commit_models(standalone@).subrange(0, 0)));
        }
        while ci < standalone.len()
            invariant
                ci <= standalone@.len(),
                out@ == other_start + other_lines(
                    commit_models(standalone@).subrange(0, ci as int),
                ),
            decreases standalone@.len() - ci,
        {
            let c = &standalone[ci];
            out.append("* ");
            out.append(c.headline.as_str());
            out.append(" (");
            let short = prefix_chars(c.oid.as_str(), 6);
            out.append(short.as_str());
            out.append(")\n");
            ci = ci + 1;
            proof {
                let sub = commit_models(standalone@).subrange(0, ci as int);
                assert(sub.drop_last() =~= commit_models(standalone@).subrange(
                    0,
                    ci as int - 1,
                ));
                assert(sub.last() == standalone@[ci as int - 1]@);
                assert(out@ =~= other_start + other_lines(sub));
            }
        }
        proof {
            assert(commit_models(standalone@).subrange(0, standalone@.len() as int)
                =~= commit_models(standalone@));
            assert(out@ =~= mid + other_text(commit_models(standalone@)));
        }
    } else {
        proof {
            assert(commit_models(standalone@).len() == 0);
            assert(out@ =~= mid + other_text(commit_models(standalone@)));
        }
    }
    proof {
        assert(out@ =~= notes_text(
            opt_text(release),
            header_date(tag_time),
            group_models(groups@),
            commit_models(standalone@),
        ));
    }
    out
}


pub proof fn lemma_lex_le_refl(a: Seq<char>)
    ensures
        lex_le(a, a),
    decreases a.len(),
{
    if a.len() > 0 {
        lemma_lex_le_refl(a.subrange(1, a.len() as int));
    }
}

proof fn lemma_char_code_neq(c1: char, c2: char)
    requires
        c1 != c2,
    ensures
        c1 as u32 != c2 as u32,
{
}

pub proof fn lemma_lex_le_total(a: Seq<char>, b: Seq<char>)
    ensures
        lex_le(a, b) || lex_le(b, a),
    decreases a.len(),
{
    if a.len() == 0 || b.len() == 0 {
    } else if a[0] == b[0] {
        lemma_lex_le_total(a.subrange(1, a.len() as int), b.subrange(1, b.len() as int));
    } else {
        lemma_char_code_neq(a[0], b[0]);
    }
}

pub proof fn lemma_lex_le_trans(a: Seq<char>, b: Seq<char>, c: Seq<char>)
    requires
        lex_le(a, b),
        lex_le(b, c),
    ensures
        lex_le(a, c),
    decreases a.len(),
{
    if a.len() > 0 {
        if b.len() > 0 && c.len() > 0 && a[0] == b[0] && b[0] == c[0] {
            lemma_lex_le_trans(
                a.subrange(1, a.len() as int),
                b.subrange(1, b.len() as int),
                c.subrange(1, c.len() as int),
            );
        }
    }
}

/// Alphabetical order of a tag list.
pub open spec fn tags_sorted(ts: Seq<Seq<char>>) -> bool {
    forall|i: int, j: int| 0 <= i < j < ts.len() ==> lex_le(#[trigger] ts[i], #[trigger] ts[j])
}

pub open spec fn tags_distinct(ts: Seq<Seq<char>>) -> bool {
    forall|i: int, j: int| 0 <= i < j < ts.len() ==> ts[i] != ts[j]
}

proof fn lemma_insert_tag_props(ts: Seq<Seq<char>>, t: Seq<char>)
    requires
        tags_sorted(ts),
        tags_distinct(ts),
        !tag_in(ts, t),
    ensures
        tags_sorted(insert_tag(ts, t)),
        tags_distinct(insert_tag(ts, t)),
        forall|x: Seq<char>| tag_in(insert_tag(ts, t), x) <==> (tag_in(ts, x) || x == t),
        insert_tag(ts, t).len() == ts.len() + 1,
    decreases ts.len(),
{
    let r = insert_tag(ts, t);
    if ts.len() == 0 {
        assert forall|x: Seq<char>| tag_in(r, x) implies (tag_in(ts, x) || x == t) by {
            let i = choose|i: int| 0 <= i < r.len() && r[i] == x;
        }
        assert(r[0] == t);
        assert(tag_in(r, t));
    } else if lex_le(t, ts[0]) {
        assert(r == seq![t] + ts);
        assert forall|i: int, j: int| 0 <= i < j < r.len() implies lex_le(
            #[trigger] r[i],
            #[trigger] r[j],
        ) by {
            if i == 0 {
                assert(r[j] == ts[j - 1]);
                if j > 1 {
                    assert(lex_le(ts[0], ts[j - 1]));
                } else {
                    lemma_lex_le_refl(ts[0]);
                }
                lemma_lex_le_trans(t, ts[0], ts[j - 1]);
            } else {
                assert(r[i] == ts[i - 1] && r[j] == ts[j - 1]);
            }
        }
        assert forall|i: int, j: int| 0 <= i < j < r.len() implies r[i] != r[j] by {
            if i == 0 {
                assert(r[j] == ts[j - 1]);
                assert(tag_in(ts, ts[j - 1]));
            } else {
                assert(r[i] == ts[i - 1] && r[j] == ts[j - 1]);
            }
        }
        assert forall|x: Seq<char>| tag_in(r, x) implies (tag_in(ts, x) || x == t) by {
            let i = choose|i: int| 0 <= i < r.len() && r[i] == x;
            if i > 0 {
                assert(ts[i - 1] == x);
            }
        }
        assert forall|x: Seq<char>| tag_in(ts, x) || x == t implies tag_in(r, x) by {
            if x == t {
                assert(r[0] == x);
            } else {
                let i = choose|i: int| 0 <= i < ts.len() && ts[i] == x;
                assert(r[i + 1] == x);
            }
        }
    } else {
        let tail = ts.subrange(1, ts.len() as int);
        assert forall|i: int, j: int| 0 <= i < j < tail.len() implies lex_le(
            #[trigger] tail[i],
            #[trigger] tail[j],
        ) by {
            assert(tail[i] == ts[i + 1] && tail[j] == ts[j + 1]);
        }
        assert forall|i: int, j: int| 0 <= i < j < tail.len() implies tail[i] != tail[j] by {
            assert(tail[i] == ts[i + 1] && tail[j] == ts[j + 1]);
        }
        assert(!tag_in(tail, t)) by {
            if tag_in(tail, t) {
                let i = choose|i: int| 0 <= i < tail.len() && tail[i] == t;
                assert(ts[i + 1] == t);
            }
        }
        lemma_insert_tag_props(tail, t);
        let rin = insert_tag(tail, t);
        assert(r == seq![ts[0]] + rin);
        lemma_lex_le_total(t, ts[0]);
        assert(lex_le(ts[0], t));
        assert forall|i: int, j: int| 0 <= i < j < r.len() implies lex_le(
            #[trigger] r[i],
            #[trigger] r[j],
        ) by {
            if i == 0 {
                assert(r[j] == rin[j - 1]);
                assert(tag_in(rin, rin[j - 1]));
                if rin[j - 1] == t {
                } else {
                    assert(tag_in(tail, rin[j - 1]));
                    let k = choose|k: int| 0 <= k < tail.len() && tail[k] == rin[j - 1];
                    assert(tail[k] == ts[k + 1]);
                    assert(lex_le(ts[0], ts[k + 1]));
                }
            } else {
                assert(r[i] == rin[i - 1] && r[j] == rin[j - 1]);
            }
        }
        assert forall|i: int, j: int| 0 <= i < j < r.len() implies r[i] != r[j] by {
            if i == 0 {
                assert(r[j] == rin[j - 1]);
                assert(tag_in(rin, rin[j - 1]));
                if rin[j - 1] == ts[0] {
                    if tag_in(tail, ts[0]) {
                        let k = choose|k: int| 0 <= k < tail.len() && tail[k] == ts[0];
                        assert(ts[k + 1] == ts[0]);
                    }
                    assert(ts[0] == t);
                    assert(tag_in(ts, t) == false);
                    assert(ts[0int] == t);
                }
            } else {
                assert(r[i] == rin[i - 1] && r[j] == rin[j - 1]);
            }
        }
        assert forall|x: Seq<char>| tag_in(r, x) implies (tag_in(ts, x) || x == t) by {
            let i = choose|i: int| 0 <= i < r.len() && r[i] == x;
            if i == 0 {
                assert(ts[0int] == x);
            } else {
                assert(rin[i - 1] == x);
                assert(tag_in(rin, x));
                if tag_in(tail, x) {
                    let k = choose|k: int| 0 <= k < tail.len() && tail[k] == x;
                    assert(ts[k + 1] == x);
                }
            }
        }
        assert forall|x: Seq<char>| tag_in(ts, x) || x == t implies tag_in(r, x) by {
            if x == ts[0] {
                assert(r[0int] == x);
            } else if x == t {
                assert(tag_in(rin, x));
                let k = choose|k: int| 0 <= k < rin.len() && rin[k] == x;
                assert(r[k + 1] == x);
            } else {
                let i = choose|i: int| 0 <= i < ts.len() && ts[i] == x;
                assert(tail[i - 1] == x);
                assert(tag_in(tail, x));
                assert(tag_in(rin, x));
                let k = choose|k: int| 0 <= k < rin.len() && rin[k] == x;
                assert(r[k + 1] == x);
            }
        }
    }
}

/// The extra tags group alphabetically: the list is sorted, free of
/// duplicates, and holds exactly the tags of `ss` outside the canonical
/// five.
pub proof fn lemma_other_tags_alphabetical(ss: Seq<TaggedSummaryModel>)
    ensures
        tags_sorted(other_tags(ss)),
        tags_distinct(other_tags(ss)),
        forall|x: Seq<char>|
            #[trigger] tag_in(other_tags(ss), x) <==> (!tag_known(x) && exists|i: int|
                0 <= i < ss.len() && ss[i].tag == x),
    decreases ss.len(),
{
    if ss.len() > 0 {
        lemma_other_tags_alphabetical(ss.drop_last());
        let prev = other_tags(ss.drop_last());
        let t = ss.last().tag;
        if tag_known(t) || tag_in(prev, t) {
            assert forall|x: Seq<char>|
                tag_in(other_tags(ss), x) implies (!tag_known(x) && exists|i: int|
                0 <= i < ss.len() && ss[i].tag == x) by {
                assert(other_tags(ss) == prev);
                assert(tag_in(other_tags(ss.drop_last()), x));
                assert(!tag_known(x) && exists|i: int|
                    0 <= i < ss.drop_last().len() && ss.drop_last()[i].tag == x);
                let i = choose|i: int| 0 <= i < ss.drop_last().len() && ss.drop_last()[i].tag == x;
                assert(ss.drop_last()[i] == ss[i]);
                assert(ss[i].tag == x);
            }
            assert forall|x: Seq<char>|
                !tag_known(x) && (exists|i: int| 0 <= i < ss.len() && ss[i].tag == x)
                implies tag_in(other_tags(ss), x) by {
                let i = choose|i: int| 0 <= i < ss.len() && ss[i].tag == x;
                if i < ss.len() - 1 {
                    assert(ss.drop_last()[i].tag == x);
                } else {
                    assert(x == t);
                }
            }
        } else {
            lemma_insert_tag_props(prev, t);
            assert forall|x: Seq<char>|
                tag_in(other_tags(ss), x) implies (!tag_known(x) && exists|i: int|
                0 <= i < ss.len() && ss[i].tag == x) by {
                if x == t {
                    assert(ss[ss.len() - 1].tag == x);
                } else {
                    assert(tag_in(other_tags(ss.drop_last()), x));
                    assert(!tag_known(x) && exists|i: int|
                        0 <= i < ss.drop_last().len() && ss.drop_last()[i].tag == x);
                    let i = choose|i: int|
                        0 <= i < ss.drop_last().len() && ss.drop_last()[i].tag == x;
                    assert(ss.drop_last()[i] == ss[i]);
                    assert(ss[i].tag == x);
                }
            }
            assert forall|x: Seq<char>|
                !tag_known(x) && (exists|i: int| 0 <= i < ss.len() && ss[i].tag == x)
                implies tag_in(other_tags(ss), x) by {
                let i = choose|i: int| 0 <= i < ss.len() && ss[i].tag == x;
                if i < ss.len() - 1 {
                    assert(ss.drop_last()[i].tag == x);
                    assert(tag_in(other_tags(ss.drop_last()), x));
                    assert(tag_in(insert_tag(prev, t), x));
                } else {
                    assert(x == t);
                    assert(tag_in(insert_tag(prev, t), x));
                }
            }
        }
    }
}

/// Rendering is deterministic: two renderings of one and the same grouped
/// input — each meeting `render_notes`' contract — are byte-identical.
pub proof fn lemma_render_deterministic(
    r1: Seq<char>,
    r2: Seq<char>,
    release: Option<Seq<char>>,
    date: Option<Seq<char>>,
    ss: Seq<TaggedSummaryModel>,
    sa: Seq<CommitModel>,
)
    requires
        r1 == notes_text(release, date, groups_spec(ss), sa),
        r2 == notes_text(release, date, groups_spec(ss), sa),
    ensures
        r1 == r2,
{
}

/// An empty run renders as the header alone: no groups, no "Other" section.
pub proof fn lemma_empty_render(release: Option<Seq<char>>, date: Option<Seq<char>>)
    ensures
        notes_text(release, date, Seq::empty(), Seq::empty()) == header_text(release, date),
{
    assert(groups_text(Seq::empty()) == Seq::<char>::empty());
    assert(other_text(Seq::empty()) == Seq::<char>::empty());
    assert(header_text(release, date) + Seq::<char>::empty() + Seq::<char>::empty()
        =~= header_text(release, date));
}

} // verus!
