//! Merging the files that provide each selected template into one block,
//! and assembling the blocks into the ignore file.

use vstd::prelude::*;
use crate::errors;
use crate::text::{
    chars_of, contains_chars, contains_text, lines, lines_of, string_of, trim, trim_chars,
};

verus! {

/// Opens and closes the content of each template block.
pub const FILE_CONTENT_DELIMITER: &'static str = "# ----";

/// Opens and closes the supplementary content of a template block.
pub const TEMPLATE_SUPPLEMENT_DELIMITER: &'static str = "# ****";

/// A line is a meaningful ignore rule when this pattern matches it: it holds
/// a `*`, a `/` or a `!`.
pub const ENTRY_PATTERN: &'static str = "[\\*/!]";

#[verifier::external_type_specification]
#[verifier::external_body]
pub struct ExRegex(regex::Regex);

/// Whether the regular expression `pattern` matches somewhere in `haystack`,
/// as the regex crate decides.
pub uninterp spec fn regex_finds(pattern: Seq<char>, haystack: Seq<char>) -> bool;

/// Whether the regex crate accepts `pattern` as a regular expression.
pub uninterp spec fn regex_compiles(pattern: Seq<char>) -> bool;

/// Whether `line` holds one of the glyphs `*`, `/`, `!` that mark a
/// meaningful ignore rule.
pub open spec fn has_entry_glyph(line: Seq<char>) -> bool {
    exists|i: int| 0 <= i < line.len() && (line[i] == '*' || line[i] == '/' || line[i] == '!')
}

/// A compiled regular expression with the pattern it was compiled from.
pub struct CompiledPattern {
    regex: regex::Regex,
    source: String,
}

impl CompiledPattern {
    /// The pattern this was compiled from.
    pub closed spec fn pattern(&self) -> Seq<char> {
        self.source@
    }
}

/// Relies on regex::Regex::new: compiles `pattern`; `None` where the crate
/// refuses it, which depends on the pattern alone.
#[verifier::external_body]
fn compile_pattern(pattern: &str) -> (r: Option<CompiledPattern>)
    ensures
        r is Some <==> regex_compiles(pattern@),
        r is Some ==> r->0.pattern() == pattern@,
{
    match regex::Regex::new(pattern) {
        Ok(regex) => Some(CompiledPattern { regex, source: pattern.to_string() }),
        Err(_) => None,
    }
}

/// Relies on regex::Regex::is_match: whether the compiled pattern matches
/// anywhere in `haystack`; the answer depends on the pattern and the haystack
/// alone. The rule pattern is the character class of `*`, `/` and `!`, which
/// matches where one of those characters occurs.
#[verifier::external_body]
fn pattern_is_match(p: &CompiledPattern, haystack: &str) -> (r: bool)
    ensures
        r == regex_finds(p.pattern(), haystack@),
        p.pattern() == ENTRY_PATTERN@ ==> (r <==> has_entry_glyph(haystack@)),
{
    p.regex.is_match(haystack)
}

/// `bodies` without repeats, each kept where it first occurs.
pub open spec fn distinct_bodies(bodies: Seq<Seq<char>>) -> Seq<Seq<char>>
    decreases bodies.len(),
{
    if bodies.len() == 0 {
        seq![]
    } else {
        let pre = distinct_bodies(bodies.drop_last());
        if pre.contains(bodies.last()) {
            pre
        } else {
            pre.push(bodies.last())
        }
    }
}

/// The trimmed lines of `bodies`, body after body.
pub open spec fn candidates(bodies: Seq<Seq<char>>) -> Seq<Seq<char>>
    decreases bodies.len(),
{
    if bodies.len() == 0 {
        seq![]
    } else {
        candidates(bodies.drop_last()) + lines(bodies.last()).map_values(|l: Seq<char>| trim(l))
    }
}

/// The lines `ls`, each ended by a line feed.
pub open spec fn join_lines(ls: Seq<Seq<char>>) -> Seq<char>
    decreases ls.len(),
{
    if ls.len() == 0 {
        seq![]
    } else {
        join_lines(ls.drop_last()) + ls.last() + seq!['\n']
    }
}

/// The supplementary lines drawn from `cands`: in order, each candidate
/// whose flag in `keep` is set and which occurs neither in `primary` nor in
/// the lines already drawn.
pub open spec fn merged(primary: Seq<char>, cands: Seq<Seq<char>>, keep: Seq<bool>) -> Seq<Seq<char>>
    decreases cands.len(),
{
    if cands.len() == 0 || keep.len() != cands.len() {
        seq![]
    } else {
        let acc = merged(primary, cands.drop_last(), keep.drop_last());
        let line = cands.last();
        if keep.last() && !contains_text(primary, line) && !contains_text(join_lines(acc), line) {
            acc.push(line)
        } else {
            acc
        }
    }
}

/// Whether each candidate is a meaningful ignore rule.
pub open spec fn entry_flags(cands: Seq<Seq<char>>) -> Seq<bool> {
    cands.map_values(|l: Seq<char>| has_entry_glyph(l))
}

/// The text of a template whose distinct bodies are `bodies`: the first body
/// verbatim, followed, when other bodies add meaningful rules, by a labelled
/// supplementary section holding them.
pub open spec fn dedup_text(template: Seq<char>, bodies: Seq<Seq<char>>) -> Seq<char> {
    let primary = bodies[0];
    let cands = candidates(bodies.drop_first());
    let extra = merged(primary, cands, entry_flags(cands));
    if extra.len() == 0 {
        primary
    } else {
        primary + seq!['\n'] + "# "@ + template + " supplementary content\n"@
            + TEMPLATE_SUPPLEMENT_DELIMITER@ + seq!['\n'] + join_lines(extra)
            + TEMPLATE_SUPPLEMENT_DELIMITER@ + seq!['\n']
    }
}

/// Every line drawn by the merge is a flagged candidate that occurs nowhere
/// in the primary body.
pub proof fn lemma_merged_lines(primary: Seq<char>, cands: Seq<Seq<char>>, keep: Seq<bool>)
    requires
        cands.len() == keep.len(),
    ensures
        forall|k: int|
            0 <= k < merged(primary, cands, keep).len() ==> {
                &&& !contains_text(primary, #[trigger] merged(primary, cands, keep)[k])
                &&& exists|j: int|
                    0 <= j < cands.len() && keep[j] && cands[j] == merged(primary, cands, keep)[k]
            },
    decreases cands.len(),
{
    if cands.len() > 0 {
        let pre_c = cands.drop_last();
        let pre_k = keep.drop_last();
        lemma_merged_lines(primary, pre_c, pre_k);
        let acc = merged(primary, pre_c, pre_k);
        let m = merged(primary, cands, keep);
        assert forall|k: int| 0 <= k < m.len() implies {
            &&& !contains_text(primary, #[trigger] m[k])
            &&& exists|j: int| 0 <= j < cands.len() && keep[j] && cands[j] == m[k]
        } by {
            if k < acc.len() {
                assert(m[k] == acc[k]);
                let j = choose|j: int| 0 <= j < pre_c.len() && pre_k[j] && pre_c[j] == acc[k];
                assert(cands[j] == pre_c[j] && keep[j] == pre_k[j]);
            } else {
                assert(cands[cands.len() - 1] == m[k]);
            }
        }
    }
}

/// The supplementary section of a merged template lists only lines that
/// hold `*`, `/` or `!` and that occur nowhere in the primary body.
pub proof fn lemma_supplement_lines(bodies: Seq<Seq<char>>)
    requires
        bodies.len() >= 1,
    ensures
        ({
            let cands = candidates(bodies.drop_first());
            let extra = merged(bodies[0], cands, entry_flags(cands));
            forall|k: int|
                0 <= k < extra.len() ==> has_entry_glyph(#[trigger] extra[k]) && !contains_text(
                    bodies[0],
                    extra[k],
                )
        }),
{
    let cands = candidates(bodies.drop_first());
    let flags = entry_flags(cands);
    lemma_merged_lines(bodies[0], cands, flags);
    let extra = merged(bodies[0], cands, flags);
    assert forall|k: int| 0 <= k < extra.len() implies has_entry_glyph(#[trigger] extra[k]) by {
        let j = choose|j: int| 0 <= j < cands.len() && flags[j] && cands[j] == extra[k];
    }
}

/// The bodies without repeats, each kept where it first occurs.
pub fn dedup_bodies(bodies: &Vec<String>) -> (r: Vec<String>)
    ensures
        r@.map_values(|s: String| s@) == distinct_bodies(bodies@.map_values(|s: String| s@)),
{
    let ghost all = bodies@.map_values(|s: String| s@);
    let mut out: Vec<String> = Vec::new();
    let mut i: usize = 0;
    while i < bodies.len()
        invariant
            i <= bodies@.len(),
            all == bodies@.map_values(|s: String| s@),
            out@.map_values(|s: String| s@) == distinct_bodies(all.take(i as int)),
        decreases bodies@.len() - i,
    {
        let ghost seen = out@.map_values(|s: String| s@);
        proof {
            assert(all.take(i + 1).drop_last() =~= all.take(i as int));
            assert(all.take(i + 1).last() == bodies@[i as int]@);
        }
        let mut found = false;
        let mut j: usize = 0;
        while j < out.len()
            invariant
                j <= out@.len(),
                seen == out@.map_values(|s: String| s@),
                found <==> exists|k: int| 0 <= k < j && seen[k] == bodies@[i as int]@,
                i < bodies@.len(),
            decreases out@.len() - j,
        {
            proof {
                assert(seen[j as int] == out@[j as int]@);
            }
            if out[j] == bodies[i] {
                found = true;
            }
            j += 1;
        }
        proof {
            if seen.contains(bodies@[i as int]@) {
                let k = choose|k: int| 0 <= k < seen.len() && seen[k] == bodies@[i as int]@;
                assert(found);
            }
        }
        if !found {
            out.push(bodies[i].clone());
            proof {
                assert(out@.map_values(|s: String| s@) =~= seen.push(bodies@[i as int]@));
            }
        }
        i += 1;
    }
    proof {
        assert(all.take(bodies@.len() as int) =~= all);
    }
    out
}

/// The trimmed lines of `bodies`, body after body.
pub fn candidate_lines(bodies: &[String]) -> (r: Vec<String>)
    ensures
        r@.map_values(|s: String| s@) == candidates(bodies@.map_values(|s: String| s@)),
{
    let ghost all = bodies@.map_values(|s: String| s@);
    let mut out: Vec<String> = Vec::new();
    let mut i: usize = 0;
    while i < bodies.len()
        invariant
            i <= bodies@.len(),
            all == bodies@.map_values(|s: String| s@),
            out@.map_values(|s: String| s@) == candidates(all.take(i as int)),
        decreases bodies@.len() - i,
    {
        proof {
            assert(all.take(i + 1).drop_last() =~= all.take(i as int));
            assert(all.take(i + 1).last() == bodies@[i as int]@);
        }
        let body = chars_of(bodies[i].as_str());
        let body_lines = lines_of(&body);
        let ghost start = out@.map_values(|s: String| s@);
        let ghost ls = lines(body@);
        let mut j: usize = 0;
        while j < body_lines.len()
            invariant
                j <= body_lines@.len(),
                body_lines@.len() == ls.len(),
                forall|k: int| 0 <= k < body_lines@.len() ==> #[trigger] body_lines@[k]@ == ls[k],
                out@.map_values(|s: String| s@) == start + ls.take(j as int).map_values(
                    |l: Seq<char>| trim(l),
                ),
            decreases body_lines@.len() - j,
        {
            let t = trim_chars(&body_lines[j]);
            let ghost before = out@.map_values(|s: String| s@);
            out.push(string_of(&t));
            proof {
                assert(out@.map_values(|s: String| s@) =~= before.push(trim(ls[j as int])));
                assert(ls.take(j + 1).map_values(|l: Seq<char>| trim(l)) =~= ls.take(
                    j as int,
                ).map_values(|l: Seq<char>| trim(l)).push(trim(ls[j as int])));
            }
            j += 1;
        }
        proof {
            assert(ls.take(ls.len() as int) =~= ls);
        }
        i += 1;
    }
    proof {
        assert(all.take(bodies@.len() as int) =~= all);
    }
    out
}

/// The supplementary lines drawn from `cands`: in order, each candidate
/// flagged in `keep` that occurs neither in `primary` nor in the lines
/// already drawn.
pub fn merge_lines(primary: &str, cands: &Vec<String>, keep: &Vec<bool>) -> (r: Vec<String>)
    requires
        cands@.len() == keep@.len(),
    ensures
        r@.map_values(|s: String| s@) == merged(primary@, cands@.map_values(|s: String| s@), keep@),
{
    let ghost all = cands@.map_values(|s: String| s@);
    let prim = chars_of(primary);
    let mut out: Vec<String> = Vec::new();
    let mut drawn: Vec<char> = Vec::new();
    let mut i: usize = 0;
    while i < cands.len()
        invariant
            i <= cands@.len() == keep@.len(),
            all == cands@.map_values(|s: String| s@),
            prim@ == primary@,
            out@.map_values(|s: String| s@) == merged(primary@, all.take(i as int), keep@.take(i as int)),
            drawn@ == join_lines(out@.map_values(|s: String| s@)),
        decreases cands@.len() - i,
    {
        proof {
            assert(all.take(i + 1).drop_last() =~= all.take(i as int));
            assert(keep@.take(i + 1).drop_last() =~= keep@.take(i as int));
            assert(all.take(i + 1).last() == cands@[i as int]@);
        }
        let line = chars_of(cands[i].as_str());
        if keep[i] && !contains_chars(&prim, &line) && !contains_chars(&drawn, &line) {
            let ghost before = out@.map_values(|s: String| s@);
            out.push(cands[i].clone());
            let mut k: usize = 0;
            let ghost d0 = drawn@;
            while k < line.len()
                invariant
                    k <= line@.len(),
                    drawn@ == d0 + line@.take(k as int),
                decreases line@.len() - k,
            {
                drawn.push(line[k]);
                proof {
                    assert(line@.take(k + 1) =~= line@.take(k as int).push(line@[k as int]));
                }
                k += 1;
            }
            drawn.push('\n');
            proof {
                assert(line@.take(line@.len() as int) =~= line@);
                assert(out@.map_values(|s: String| s@) =~= before.push(line@));
                assert(before.push(line@).drop_last() =~= before);
                assert(drawn@ =~= join_lines(before) + line@ + seq!['\n']);
            }
        }
        i += 1;
    }
    proof {
        assert(all.take(cands@.len() as int) =~= all);
        assert(keep@.take(keep@.len() as int) =~= keep@);
    }
    out
}

/// The content that follows a block's opening delimiter for a template with
/// these bodies: the single distinct body verbatim, or the merge of the
/// distinct bodies.
pub open spec fn template_content(name: Seq<char>, bodies: Seq<Seq<char>>) -> Seq<char> {
    let d = distinct_bodies(bodies);
    if d.len() == 1 {
        d[0]
    } else {
        dedup_text(name, d)
    }
}

/// The block of the ignore file for a template with these bodies.
pub open spec fn template_block(name: Seq<char>, bodies: Seq<Seq<char>>) -> Seq<char> {
    "\n# "@ + name + seq!['\n'] + FILE_CONTENT_DELIMITER@ + seq!['\n'] + template_content(name, bodies)
        + FILE_CONTENT_DELIMITER@ + seq!['\n']
}

/// The names, each after a space, of the templates that have a body.
pub open spec fn templates_used(ts: Seq<(Seq<char>, Seq<Seq<char>>)>) -> Seq<char>
    decreases ts.len(),
{
    if ts.len() == 0 {
        seq![]
    } else if ts.last().1.len() > 0 {
        templates_used(ts.drop_last()) + seq![' '] + ts.last().0
    } else {
        templates_used(ts.drop_last())
    }
}

/// The blocks of the templates that have a body, in order.
pub open spec fn blocks(ts: Seq<(Seq<char>, Seq<Seq<char>>)>) -> Seq<char>
    decreases ts.len(),
{
    if ts.len() == 0 {
        seq![]
    } else if ts.last().1.len() > 0 {
        blocks(ts.drop_last()) + template_block(ts.last().0, ts.last().1)
    } else {
        blocks(ts.drop_last())
    }
}

/// The ignore file: a fixed header, the line naming the templates used, then
/// their blocks.
pub open spec fn document(ts: Seq<(Seq<char>, Seq<Seq<char>>)>) -> Seq<char> {
    "#\n# .gitignore\n#\n\n"@ + "# Templates used:"@ + templates_used(ts) + seq!['\n'] + blocks(ts)
}

/// Whether some template has a body to contribute.
pub open spec fn usable(ts: Seq<(Seq<char>, Seq<Seq<char>>)>) -> bool {
    exists|i: int| 0 <= i < ts.len() && (#[trigger] ts[i]).1.len() > 0
}

/// Whether some template has two distinct bodies to merge.
pub open spec fn needs_merge(ts: Seq<(Seq<char>, Seq<Seq<char>>)>) -> bool {
    exists|i: int| 0 <= i < ts.len() && distinct_bodies((#[trigger] ts[i]).1).len() > 1
}

/// A selected template and the bodies of its files that could be read, in
/// path order.
#[derive(Debug, Clone)]
pub struct LoadedTemplate {
    pub name: String,
    pub bodies: Vec<String>,
}

impl LoadedTemplate {
    pub open spec fn view(&self) -> (Seq<char>, Seq<Seq<char>>) {
        (self.name@, self.bodies@.map_values(|b: String| b@))
    }
}

proof fn lemma_distinct_bodies(bodies: Seq<Seq<char>>)
    ensures
        bodies.len() > 0 ==> distinct_bodies(bodies).len() > 0,
        distinct_bodies(bodies).len() > 0 ==> bodies.len() > 0 && distinct_bodies(bodies)[0]
            == bodies[0],
    decreases bodies.len(),
{
    if bodies.len() > 0 {
        lemma_distinct_bodies(bodies.drop_last());
        if bodies.len() == 1 {
            assert(bodies.drop_last().len() == 0);
        } else {
            assert(bodies.drop_last()[0] == bodies[0]);
        }
    }
}

/// Merges the distinct bodies of one template: the first verbatim; then,
/// when the trimmed lines of the others add rules that hold `*`, `/` or `!`
/// and occur neither in the first body nor among the lines already added, a
/// section labelled with the template's name that lists them, one per line.
/// Fails exactly where the regex crate refuses the rule pattern.
pub fn dedup_templates(template: &str, bodies: &Vec<String>) -> (r: Result<String, errors::Error>)
    requires
        bodies@.len() >= 1,
    ensures
        r is Ok <==> regex_compiles(ENTRY_PATTERN@),
        match r {
            Ok(text) => text@ == dedup_text(template@, bodies@.map_values(|b: String| b@)),
            Err(e) => e.kind_of() == errors::ErrorKind::Other,
        },
{
    let ghost all = bodies@.map_values(|b: String| b@);
    let pattern = match compile_pattern(ENTRY_PATTERN) {
        Some(p) => p,
        None => {
            return Err(errors::Error::other(String::from_str("the ignore rule pattern could not be compiled")));
        },
    };
    let mut rest: Vec<String> = Vec::new();
    let mut i: usize = 1;
    while i < bodies.len()
        invariant
            1 <= i <= bodies@.len(),
            all == bodies@.map_values(|b: String| b@),
            rest@.map_values(|b: String| b@) == all.subrange(1, i as int),
        decreases bodies@.len() - i,
    {
        let ghost before = rest@.map_values(|b: String| b@);
        rest.push(bodies[i].clone());
        proof {
            assert(rest@.map_values(|b: String| b@) =~= before.push(all[i as int]));
            assert(all.subrange(1, i + 1) =~= all.subrange(1, i as int).push(all[i as int]));
        }
        i += 1;
    }
    proof {
        assert(all.subrange(1, all.len() as int) =~= all.drop_first());
    }
    let cands = candidate_lines(&rest);
    let ghost cv = cands@.map_values(|c: String| c@);
    let mut keep: Vec<bool> = Vec::new();
    let mut j: usize = 0;
    while j < cands.len()
        invariant
            j <= cands@.len(),
            cv == cands@.map_values(|c: String| c@),
            pattern.pattern() == ENTRY_PATTERN@,
            keep@ == entry_flags(cv).take(j as int),
        decreases cands@.len() - j,
    {
        let m = pattern_is_match(&pattern, cands[j].as_str());
        proof {
            assert(entry_flags(cv).take(j + 1) =~= entry_flags(cv).take(j as int).push(m));
        }
        keep.push(m);
        j += 1;
    }
    proof {
        assert(entry_flags(cv).take(cv.len() as int) =~= entry_flags(cv));
    }
    let extra = merge_lines(bodies[0].as_str(), &cands, &keep);
    let ghost ev = extra@.map_values(|l: String| l@);
    if extra.len() == 0 {
        return Ok(bodies[0].clone());
    }
    let mut text = bodies[0].clone();
    text.append("\n");
    text.append("# ");
    text.append(template);
    text.append(" supplementary content\n");
    text.append(TEMPLATE_SUPPLEMENT_DELIMITER);
    text.append("\n");
    let ghost head = text@;
    let mut k: usize = 0;
    while k < extra.len()
        invariant
            k <= extra@.len(),
            ev == extra@.map_values(|l: String| l@),
            text@ == head + join_lines(ev.take(k as int)),
        decreases extra@.len() - k,
    {
        text.append(extra[k].as_str());
        text.append("\n");
        proof {
            reveal_strlit("\n");
            assert(ev.take(k + 1).drop_last() =~= ev.take(k as int));
        }
        k += 1;
    }
    text.append(TEMPLATE_SUPPLEMENT_DELIMITER);
    text.append("\n");
    proof {
        reveal_strlit("\n");
        assert(ev.take(ev.len() as int) =~= ev);
        assert(text@ =~= dedup_text(template@, all));
    }
    Ok(text)
}

/// Assembles the ignore file from the selected templates and the bodies of
/// their files. A template none of whose files could be read is left out.
/// When no template has a body, the error names the templates as requested.
pub fn concatenate_templates(requested: &Vec<String>, templates: &Vec<LoadedTemplate>) -> (r: Result<
    String,
    errors::Error,
>)
    ensures
        match r {
            Ok(doc) => usable(templates@.map_values(|t: LoadedTemplate| t.view())) && doc@ == document(
                templates@.map_values(|t: LoadedTemplate| t.view()),
            ),
            Err(e) => if usable(templates@.map_values(|t: LoadedTemplate| t.view())) {
                &&& e.kind_of() == errors::ErrorKind::Other
                &&& !regex_compiles(ENTRY_PATTERN@)
                &&& needs_merge(templates@.map_values(|t: LoadedTemplate| t.view()))
            } else {
                &&& e.kind_of() == errors::ErrorKind::MissingTemplates
                &&& e.template_names() == requested@.map_values(|t: String| t@)
            },
        },
{
    let ghost ts = templates@.map_values(|t: LoadedTemplate| t.view());
    let mut used = String::new();
    let mut body = String::new();
    let mut any = false;
    let mut i: usize = 0;
    while i < templates.len()
        invariant
            i <= templates@.len(),
            ts == templates@.map_values(|t: LoadedTemplate| t.view()),
            used@ == templates_used(ts.take(i as int)),
            body@ == blocks(ts.take(i as int)),
            any == usable(ts.take(i as int)),
        decreases templates@.len() - i,
    {
        let t = &templates[i];
        let ghost tv = ts[i as int];
        proof {
            assert(ts.take(i + 1).drop_last() =~= ts.take(i as int));
            assert(ts.take(i + 1).last() == tv);
            assert(tv == t.view());
            if usable(ts.take(i as int)) {
                let w = choose|w: int| 0 <= w < i && (#[trigger] ts.take(i as int)[w]).1.len() > 0;
                assert(ts.take(i + 1)[w] == ts.take(i as int)[w]);
            }
        }
        if t.bodies.len() > 0 {
            let distinct = dedup_bodies(&t.bodies);
            proof {
                lemma_distinct_bodies(tv.1);
            }
            let content = if distinct.len() > 1 {
                match dedup_templates(t.name.as_str(), &distinct) {
                    Ok(c) => c,
                    Err(e) => {
                        proof {
                            assert(ts[i as int].1.len() > 0);
                            assert(distinct_bodies(ts[i as int].1).len() > 1);
                        }
                        return Err(e);
                    },
                }
            } else {
                distinct[0].clone()
            };
            used.append(" ");
            used.append(t.name.as_str());
            body.append("\n# ");
            body.append(t.name.as_str());
            body.append("\n");
            body.append(FILE_CONTENT_DELIMITER);
            body.append("\n");
            body.append(content.as_str());
            body.append(FILE_CONTENT_DELIMITER);
            body.append("\n");
            any = true;
            proof {
                reveal_strlit("\n");
                reveal_strlit(" ");
                assert(content@ == template_content(tv.0, tv.1));
                assert(used@ =~= templates_used(ts.take(i + 1)));
                assert(body@ =~= blocks(ts.take(i + 1)));
                assert(ts.take(i + 1)[i as int].1.len() > 0);
            }
        } else {
            proof {
                if usable(ts.take(i + 1)) {
                    let w = choose|w: int| 0 <= w < i + 1 && (#[trigger] ts.take(i + 1)[w]).1.len() > 0;
                    assert(ts.take(i as int)[w] == ts.take(i + 1)[w]);
                }
            }
        }
        i += 1;
    }
    proof {
        assert(ts.take(templates@.len() as int) =~= ts);
    }
    if !any {
        return Err(errors::Error::missing_templates(requested));
    }
    let mut doc = String::from_str("#\n# .gitignore\n#\n\n");
    doc.append("# Templates used:");
    doc.append(used.as_str());
    doc.append("\n");
    doc.append(body.as_str());
    proof {
        reveal_strlit("\n");
        assert(doc@ =~= document(ts));
    }
    Ok(doc)
}

/// When every file of a template has the same body, its block holds that
/// body once, verbatim, with no supplementary section.
pub proof fn lemma_identical_bodies(name: Seq<char>, bodies: Seq<Seq<char>>, body: Seq<char>)
    requires
        bodies.len() >= 1,
        forall|i: int| 0 <= i < bodies.len() ==> bodies[i] == body,
    ensures
        distinct_bodies(bodies) == seq![body],
        template_content(name, bodies) == body,
        template_block(name, bodies) == "\n# "@ + name + seq!['\n'] + FILE_CONTENT_DELIMITER@ + seq![
            '\n',
        ] + body + FILE_CONTENT_DELIMITER@ + seq!['\n'],
    decreases bodies.len(),
{
    assert(bodies.last() == body);
    if bodies.len() == 1 {
        assert(distinct_bodies(bodies.drop_last()) =~= Seq::<Seq<char>>::empty());
        assert(Seq::<Seq<char>>::empty().push(body) =~= seq![body]);
    } else {
        assert forall|i: int| 0 <= i < bodies.drop_last().len() implies bodies.drop_last()[i] == body by {
            assert(bodies.drop_last()[i] == bodies[i]);
        }
        lemma_identical_bodies(name, bodies.drop_last(), body);
        assert(seq![body][0] == body);
    }
}

} // verus!
