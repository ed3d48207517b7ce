//! The template index: which files of the cached repositories provide each
//! template, and the walk over the repository trees that builds it.

use vstd::prelude::*;
use crate::text::{
    chars_of, lemma_text_leq_antisymmetric, lemma_text_leq_total, lemma_text_leq_transitive, text_leq,
    text_leq_exec,
};
use vstd::relations::{sorted_by, total_ordering};
use std::collections::VecDeque;

verus! {

/// Whether a directory entry name is hidden: it starts with a dot.
pub open spec fn hidden(name: Seq<char>) -> bool {
    name.len() > 0 && name[0] == '.'
}

/// Whether a directory entry is left out of the index: hidden, a Markdown
/// file (`*.md`), or a licence (`LICENSE*`).
pub open spec fn excluded(name: Seq<char>) -> bool {
    ||| hidden(name)
    ||| (name.len() >= 3 && name.skip(name.len() - 3) == seq!['.', 'm', 'd'])
    ||| (name.len() >= 7 && name.take(7) == seq!['L', 'I', 'C', 'E', 'N', 'S', 'E'])
}

/// The position of the last dot in `s`, or -1 when it has none.
pub open spec fn last_dot(s: Seq<char>) -> int
    decreases s.len(),
{
    if s.len() == 0 {
        -1
    } else if s.last() == '.' {
        s.len() - 1
    } else {
        last_dot(s.drop_last())
    }
}

/// The template a file provides: its name without the final `.extension`.
/// A name without a dot past its first character is kept whole.
pub open spec fn template_name(name: Seq<char>) -> Seq<char> {
    if last_dot(name) > 0 {
        name.take(last_dot(name))
    } else {
        name
    }
}

proof fn lemma_last_dot(s: Seq<char>)
    ensures
        -1 <= last_dot(s) < s.len(),
        last_dot(s) >= 0 ==> s[last_dot(s)] == '.',
        forall|k: int| last_dot(s) < k < s.len() ==> s[k] != '.',
    decreases s.len(),
{
    if s.len() > 0 && s.last() != '.' {
        lemma_last_dot(s.drop_last());
        assert forall|k: int| last_dot(s) < k < s.len() implies s[k] != '.' by {
            if k < s.len() - 1 {
                assert(s.drop_last()[k] == s[k]);
            }
        }
    }
}

/// Whether a directory entry is hidden (its name starts with a dot).
pub fn is_hidden(name: &str) -> (r: bool)
    ensures
        r == hidden(name@),
{
    let cs = chars_of(name);
    cs.len() > 0 && cs[0] == '.'
}

/// Whether a directory entry is left out of the index.
pub fn ignore_file(name: &str) -> (r: bool)
    ensures
        r == excluded(name@),
{
    let cs = chars_of(name);
    let n = cs.len();
    let md = n >= 3 && cs[n - 3] == '.' && cs[n - 2] == 'm' && cs[n - 1] == 'd';
    let licence = n >= 7 && cs[0] == 'L' && cs[1] == 'I' && cs[2] == 'C' && cs[3] == 'E' && cs[4]
        == 'N' && cs[5] == 'S' && cs[6] == 'E';
    proof {
        if n >= 3 {
            let tail = cs@.skip(n - 3);
            if md {
                assert(tail =~= seq!['.', 'm', 'd']);
            } else {
                assert(tail[0] == cs@[n - 3] && tail[1] == cs@[n - 2] && tail[2] == cs@[n - 1]);
            }
        }
        if n >= 7 {
            let head = cs@.take(7);
            if licence {
                assert(head =~= seq!['L', 'I', 'C', 'E', 'N', 'S', 'E']);
            } else {
                assert(head[0] == cs@[0] && head[1] == cs@[1] && head[2] == cs@[2] && head[3]
                    == cs@[3] && head[4] == cs@[4] && head[5] == cs@[5] && head[6] == cs@[6]);
            }
        }
    }
    md || licence || is_hidden(name)
}

/// The template that a file named `name` provides: the name without its
/// final extension.
pub fn remove_filetype(name: &str) -> (r: String)
    ensures
        r@ == template_name(name@),
{
    let cs = chars_of(name);
    let mut i: usize = cs.len();
    while i > 0 && cs[i - 1] != '.'
        invariant
            i <= cs.len(),
            forall|k: int| i <= k < cs.len() ==> cs@[k] != '.',
        decreases i,
    {
        i -= 1;
    }
    proof {
        lemma_last_dot(cs@);
        assert(last_dot(cs@) == i - 1) by {
            if last_dot(cs@) > i - 1 {
                assert(cs@[last_dot(cs@)] == '.');
            }
            if i > 0 && last_dot(cs@) < i - 1 {
                assert(cs@[i - 1] == '.');
            }
        }
    }
    if i > 1 {
        let mut stem: Vec<char> = Vec::new();
        let mut k: usize = 0;
        while k < i - 1
            invariant
                1 < i <= cs.len(),
                k <= i - 1,
                stem@ == cs@.take(k as int),
            decreases i - 1 - k,
        {
            stem.push(cs[k]);
            proof {
                assert(cs@.take(k + 1) =~= cs@.take(k as int).push(cs@[k as int]));
            }
            k += 1;
        }
        crate::text::string_of(&stem)
    } else {
        crate::text::string_of(&cs)
    }
}

/// One template of the index: its name and the paths of the files that
/// provide it, in the order they were found.
#[derive(Debug, Clone)]
pub struct TemplateEntry {
    pub name: String,
    pub paths: Vec<String>,
}

impl TemplateEntry {
    pub open spec fn view(&self) -> (Seq<char>, Seq<Seq<char>>) {
        (self.name@, self.paths@.map_values(|p: String| p@))
    }
}

/// The template index: template names in the order they were first seen,
/// each with the paths of the files that provide it.
#[derive(Debug, Clone)]
pub struct TemplatePaths {
    entries: Vec<TemplateEntry>,
}

impl View for TemplatePaths {
    type V = Seq<(Seq<char>, Seq<Seq<char>>)>;

    closed spec fn view(&self) -> Seq<(Seq<char>, Seq<Seq<char>>)> {
        self.entries@.map_values(|e: TemplateEntry| e.view())
    }
}

/// Whether position `i` holds the first entry of `v` named `name`.
pub open spec fn is_first(v: Seq<(Seq<char>, Seq<Seq<char>>)>, name: Seq<char>, i: int) -> bool {
    &&& 0 <= i < v.len()
    &&& v[i].0 == name
    &&& forall|k: int| 0 <= k < i ==> v[k].0 != name
}

/// The position of the entry named `name` in `v`, or -1 when there is none.
pub open spec fn position(v: Seq<(Seq<char>, Seq<Seq<char>>)>, name: Seq<char>) -> int {
    if exists|i: int| is_first(v, name, i) {
        choose|i: int| is_first(v, name, i)
    } else {
        -1
    }
}

/// The paths listed in `v` under `name`; empty when `name` is absent.
pub open spec fn paths_in(v: Seq<(Seq<char>, Seq<Seq<char>>)>, name: Seq<char>) -> Seq<Seq<char>> {
    if position(v, name) >= 0 {
        v[position(v, name)].1
    } else {
        seq![]
    }
}

/// `v` with `path` appended under `name`, the entry being created at the end
/// when `name` is new.
pub open spec fn record(v: Seq<(Seq<char>, Seq<Seq<char>>)>, name: Seq<char>, path: Seq<char>) -> Seq<
    (Seq<char>, Seq<Seq<char>>),
> {
    let p = position(v, name);
    if p >= 0 {
        v.update(p, (name, v[p].1.push(path)))
    } else {
        v.push((name, seq![path]))
    }
}

/// No two entries of `v` share a name.
pub open spec fn distinct_names(v: Seq<(Seq<char>, Seq<Seq<char>>)>) -> bool {
    forall|i: int, j: int| 0 <= i < v.len() && 0 <= j < v.len() && i != j ==> v[i].0 != v[j].0
}

/// The entry named `name` is the first one: the position is found exactly
/// when some entry carries that name.
pub proof fn lemma_position(v: Seq<(Seq<char>, Seq<Seq<char>>)>, name: Seq<char>)
    ensures
        position(v, name) >= 0 <==> exists|j: int| 0 <= j < v.len() && v[j].0 == name,
        position(v, name) >= 0 ==> is_first(v, name, position(v, name)),
        position(v, name) < v.len(),
{
    if exists|j: int| 0 <= j < v.len() && v[j].0 == name {
        let j = choose|j: int| 0 <= j < v.len() && v[j].0 == name;
        lemma_first_below(v, name, j);
    }
}

proof fn lemma_first_below(v: Seq<(Seq<char>, Seq<Seq<char>>)>, name: Seq<char>, j: int)
    requires
        0 <= j < v.len(),
        v[j].0 == name,
    ensures
        exists|i: int| is_first(v, name, i),
    decreases j,
{
    if exists|k: int| 0 <= k < j && v[k].0 == name {
        let k = choose|k: int| 0 <= k < j && v[k].0 == name;
        lemma_first_below(v, name, k);
    } else {
        assert(is_first(v, name, j));
    }
}

/// Recording keeps names distinct.
proof fn lemma_record_distinct(v: Seq<(Seq<char>, Seq<Seq<char>>)>, name: Seq<char>, path: Seq<char>)
    requires
        distinct_names(v),
    ensures
        distinct_names(record(v, name, path)),
{
    lemma_position(v, name);
}

impl TemplatePaths {
    /// An empty index.
    pub fn new() -> (r: TemplatePaths)
        ensures
            r@ == Seq::<(Seq<char>, Seq<Seq<char>>)>::empty(),
    {
        let r = TemplatePaths { entries: Vec::new() };
        proof {
            assert(r@ =~= Seq::<(Seq<char>, Seq<Seq<char>>)>::empty());
        }
        r
    }

    /// The number of templates in the index.
    pub fn len(&self) -> (r: usize)
        ensures
            r == self@.len(),
    {
        self.entries.len()
    }

    /// Whether the index holds no template.
    pub fn is_empty(&self) -> (r: bool)
        ensures
            r == (self@.len() == 0),
    {
        self.entries.len() == 0
    }

    /// The templates of the index, in order.
    pub fn entries(&self) -> (r: &Vec<TemplateEntry>)
        ensures
            r@.map_values(|e: TemplateEntry| e.view()) == self@,
    {
        &self.entries
    }

    /// The position of the template named `name`, if the index has it.
    pub fn find(&self, name: &String) -> (r: Option<usize>)
        ensures
            match r {
                Some(i) => i as int == position(self@, name@),
                None => position(self@, name@) == -1,
            },
    {
        proof {
            lemma_position(self@, name@);
        }
        let mut i: usize = 0;
        while i < self.entries.len()
            invariant
                i <= self@.len(),
                self@.len() == self.entries@.len(),
                forall|k: int| 0 <= k < i ==> self@[k].0 != name@,
            decreases self@.len() - i,
        {
            if self.entries[i].name == *name {
                proof {
                    assert(is_first(self@, name@, i as int));
                }
                return Some(i);
            }
            i += 1;
        }
        None
    }

    /// The paths of the files providing the template `name`, if the index
    /// has it.
    pub fn get(&self, name: &String) -> (r: Option<&Vec<String>>)
        ensures
            match r {
                Some(ps) => position(self@, name@) >= 0 && ps@.map_values(|p: String| p@)
                    == paths_in(self@, name@),
                None => position(self@, name@) == -1,
            },
    {
        match self.find(name) {
            Some(i) => Some(&self.entries[i].paths),
            None => None,
        }
    }

    /// Appends `path` to the paths of the template `name`, adding the
    /// template at the end when it is new.
    pub fn push_path(&mut self, name: String, path: String)
        ensures
            final(self)@ == record(old(self)@, name@, path@),
    {
        proof {
            lemma_position(self@, name@);
        }
        match self.find(&name) {
            Some(i) => {
                let ghost before = self.entries@;
                let mut entry = self.entries.remove(i);
                let ghost old_paths = entry.paths@;
                let ghost path_view = path@;
                entry.paths.push(path);
                proof {
                    assert(entry.paths@.map_values(|p: String| p@) =~= old_paths.map_values(
                        |p: String| p@,
                    ).push(path_view));
                }
                self.entries.insert(i, entry);
                proof {
                    assert(self.entries@ =~= before.update(i as int, entry));
                    assert(self@ =~= record(old(self)@, name@, path_view));
                }
            },
            None => {
                let ghost path_view = path@;
                let mut paths: Vec<String> = Vec::new();
                paths.push(path);
                proof {
                    assert(paths@.map_values(|p: String| p@) =~= seq![path_view]);
                }
                self.entries.push(TemplateEntry { name, paths });
                proof {
                    assert(self@ =~= record(old(self)@, name@, path_view));
                }
            },
        }
    }
}

/// One entry of a directory listing: its file name, its full path, and
/// whether it is a directory.
#[derive(Debug, Clone)]
pub struct ScanEntry {
    pub name: String,
    pub path: String,
    pub is_dir: bool,
}

impl ScanEntry {
    pub open spec fn view(&self) -> (Seq<char>, Seq<char>, bool) {
        (self.name@, self.path@, self.is_dir)
    }
}

/// The order in which the entries of one directory are walked: by name,
/// in code-point order; entries of one name, which a directory never holds
/// twice, by path and then files first.
pub open spec fn entry_leq(x: (Seq<char>, Seq<char>, bool), y: (Seq<char>, Seq<char>, bool)) -> bool {
    if x.0 != y.0 {
        text_leq(x.0, y.0)
    } else if x.1 != y.1 {
        text_leq(x.1, y.1)
    } else {
        !x.2 || y.2
    }
}

/// A listing in walk order.
pub open spec fn walk_order(listing: Seq<(Seq<char>, Seq<char>, bool)>) -> Seq<(Seq<char>, Seq<char>, bool)> {
    listing.sort_by(|x: (Seq<char>, Seq<char>, bool), y: (Seq<char>, Seq<char>, bool)| entry_leq(x, y))
}

/// The walk order is a total order.
pub proof fn lemma_entry_leq_total_ordering()
    ensures
        total_ordering(
            |x: (Seq<char>, Seq<char>, bool), y: (Seq<char>, Seq<char>, bool)| entry_leq(x, y),
        ),
{
    let leq = |x: (Seq<char>, Seq<char>, bool), y: (Seq<char>, Seq<char>, bool)| entry_leq(x, y);
    assert forall|x: (Seq<char>, Seq<char>, bool)| #[trigger] leq(x, x) by {
    }
    assert forall|x: (Seq<char>, Seq<char>, bool), y: (Seq<char>, Seq<char>, bool)|
        #[trigger] leq(x, y) && #[trigger] leq(y, x) implies x == y by {
        if x.0 != y.0 {
            lemma_text_leq_antisymmetric(x.0, y.0);
        } else if x.1 != y.1 {
            lemma_text_leq_antisymmetric(x.1, y.1);
        }
    }
    assert forall|
        x: (Seq<char>, Seq<char>, bool),
        y: (Seq<char>, Seq<char>, bool),
        z: (Seq<char>, Seq<char>, bool),
    | #[trigger] leq(x, y) && #[trigger] leq(y, z) implies leq(x, z) by {
        if x.0 != y.0 && y.0 != z.0 {
            lemma_text_leq_transitive(x.0, y.0, z.0);
            if x.0 == z.0 {
                lemma_text_leq_antisymmetric(x.0, y.0);
            }
        } else if x.0 == y.0 && y.0 == z.0 && x.1 != y.1 && y.1 != z.1 {
            lemma_text_leq_transitive(x.1, y.1, z.1);
            if x.1 == z.1 {
                lemma_text_leq_antisymmetric(x.1, y.1);
            }
        }
    }
    assert forall|x: (Seq<char>, Seq<char>, bool), y: (Seq<char>, Seq<char>, bool)|
        #[trigger] leq(x, y) || #[trigger] leq(y, x) by {
        lemma_text_leq_total(x.0, y.0);
        lemma_text_leq_total(x.1, y.1);
    }
}

fn entry_leq_exec(x: &ScanEntry, y: &ScanEntry) -> (r: bool)
    ensures
        r == entry_leq(x.view(), y.view()),
{
    if x.name != y.name {
        text_leq_exec(&chars_of(x.name.as_str()), &chars_of(y.name.as_str()))
    } else if x.path != y.path {
        text_leq_exec(&chars_of(x.path.as_str()), &chars_of(y.path.as_str()))
    } else {
        !x.is_dir || y.is_dir
    }
}

/// The entries of `listing` in walk order.
pub fn sort_listing(listing: Vec<ScanEntry>) -> (r: Vec<ScanEntry>)
    ensures
        r@.map_values(|e: ScanEntry| e.view()) == walk_order(listing@.map_values(|e: ScanEntry| e.view())),
{
    let ghost leq = |x: (Seq<char>, Seq<char>, bool), y: (Seq<char>, Seq<char>, bool)| entry_leq(x, y);
    let ghost input = listing@.map_values(|e: ScanEntry| e.view());
    proof {
        lemma_entry_leq_total_ordering();
        broadcast use vstd::seq_lib::group_to_multiset_ensures;
    }
    let mut sorted: Vec<ScanEntry> = Vec::new();
    let mut rest = listing;
    let ghost n = input.len();
    while rest.len() > 0
        invariant
            rest@.len() <= n == input.len(),
            total_ordering(leq),
            leq == (|x: (Seq<char>, Seq<char>, bool), y: (Seq<char>, Seq<char>, bool)| entry_leq(x, y)),
            rest@.map_values(|e: ScanEntry| e.view()) == input.take(rest@.len() as int),
            sorted_by(sorted@.map_values(|e: ScanEntry| e.view()), leq),
            sorted@.map_values(|e: ScanEntry| e.view()).to_multiset() == input.skip(
                rest@.len() as int,
            ).to_multiset(),
        decreases rest@.len(),
    {
        let ghost before_rest = rest@;
        let item = match rest.pop() {
            Some(e) => e,
            None => {
                return sorted;
            },
        };
        let ghost iv = item.view();
        let ghost k: int = rest@.len() as int;
        proof {
            assert(input.take(k + 1)[k as int] == before_rest[k as int].view());
            assert(iv == input[k as int]);
            assert(rest@.map_values(|e: ScanEntry| e.view()) =~= input.take(k as int));
        }
        let ghost sv = sorted@.map_values(|e: ScanEntry| e.view());
        let mut j: usize = 0;
        while j < sorted.len() && entry_leq_exec(&sorted[j], &item)
            invariant
                j <= sorted@.len(),
                sv == sorted@.map_values(|e: ScanEntry| e.view()),
                iv == item.view(),
                forall|m: int| 0 <= m < j ==> leq(#[trigger] sv[m], iv),
                leq == (|x: (Seq<char>, Seq<char>, bool), y: (Seq<char>, Seq<char>, bool)| entry_leq(
                    x,
                    y,
                )),
            decreases sorted@.len() - j,
        {
            j += 1;
        }
        sorted.insert(j, item);
        proof {
            let nv = sorted@.map_values(|e: ScanEntry| e.view());
            assert(nv =~= sv.insert(j as int, iv));
            assert forall|a: int, b: int| 0 <= a < b < nv.len() implies #[trigger] leq(nv[a], nv[b]) by {
                if j < sv.len() {
                    assert(!leq(sv[j as int], iv));
                    assert(leq(iv, sv[j as int]));
                }
                if a < j && b == j {
                } else if a == j && b > j {
                    if b - 1 > j {
                        assert(leq(sv[j as int], sv[b - 1]));
                    }
                } else if a < j && b > j {
                    assert(leq(sv[a], sv[b - 1]));
                } else if a > j {
                    assert(leq(sv[a - 1], sv[b - 1]));
                } else {
                    assert(leq(sv[a], sv[b]));
                }
            }
            vstd::seq_lib::to_multiset_insert(sv, j as int, iv);
            assert(input.skip(k as int) =~= input.skip(k + 1).insert(0, input[k as int]));
            vstd::seq_lib::to_multiset_insert(input.skip(k + 1), 0, input[k as int]);
        }
    }
    let ghost sv = sorted@.map_values(|e: ScanEntry| e.view());
    proof {
        assert(input.skip(0) =~= input);
        input.lemma_sort_by_ensures(leq);
        vstd::seq_lib::lemma_sorted_unique(sv, input.sort_by(leq), leq);
    }
    sorted
}

/// The walk does not depend on the order in which the file system lists a
/// directory: listings that hold the same entries are walked in the same
/// order.
pub proof fn lemma_listing_order_irrelevant(
    a: Seq<(Seq<char>, Seq<char>, bool)>,
    b: Seq<(Seq<char>, Seq<char>, bool)>,
)
    requires
        a.to_multiset() == b.to_multiset(),
    ensures
        walk_order(a) == walk_order(b),
{
    let leq = |x: (Seq<char>, Seq<char>, bool), y: (Seq<char>, Seq<char>, bool)| entry_leq(x, y);
    lemma_entry_leq_total_ordering();
    a.lemma_sort_by_ensures(leq);
    b.lemma_sort_by_ensures(leq);
    vstd::seq_lib::lemma_sorted_unique(a.sort_by(leq), b.sort_by(leq), leq);
}

/// Whether a walked entry is a file that the index lists.
pub open spec fn indexed(e: (Seq<char>, Seq<char>, bool)) -> bool {
    !e.2 && !excluded(e.0)
}

/// Whether the walk descends into a walked entry.
pub open spec fn descended(e: (Seq<char>, Seq<char>, bool)) -> bool {
    e.2 && !excluded(e.0)
}

/// `v` after the walk passes entry `e`.
pub open spec fn record_entry(
    v: Seq<(Seq<char>, Seq<Seq<char>>)>,
    e: (Seq<char>, Seq<char>, bool),
) -> Seq<(Seq<char>, Seq<Seq<char>>)> {
    if indexed(e) {
        record(v, template_name(e.0), e.1)
    } else {
        v
    }
}

/// `v` after the walk passes the entries `es`, in order.
pub open spec fn record_all(
    v: Seq<(Seq<char>, Seq<Seq<char>>)>,
    es: Seq<(Seq<char>, Seq<char>, bool)>,
) -> Seq<(Seq<char>, Seq<Seq<char>>)>
    decreases es.len(),
{
    if es.len() == 0 {
        v
    } else {
        record_entry(record_all(v, es.drop_last()), es.last())
    }
}

/// The paths of the indexed files among `es` that provide template `name`,
/// in walk order.
pub open spec fn paths_named(es: Seq<(Seq<char>, Seq<char>, bool)>, name: Seq<char>) -> Seq<
    Seq<char>,
>
    decreases es.len(),
{
    if es.len() == 0 {
        seq![]
    } else if indexed(es.last()) && template_name(es.last().0) == name {
        paths_named(es.drop_last(), name).push(es.last().1)
    } else {
        paths_named(es.drop_last(), name)
    }
}

/// Passing `a` then `b` is passing `a + b`.
pub proof fn lemma_record_all_append(
    v: Seq<(Seq<char>, Seq<Seq<char>>)>,
    a: Seq<(Seq<char>, Seq<char>, bool)>,
    b: Seq<(Seq<char>, Seq<char>, bool)>,
)
    ensures
        record_all(record_all(v, a), b) == record_all(v, a + b),
    decreases b.len(),
{
    if b.len() == 0 {
        assert(a + b =~= a);
    } else {
        lemma_record_all_append(v, a, b.drop_last());
        assert((a + b).drop_last() =~= a + b.drop_last());
        assert((a + b).last() == b.last());
    }
}

/// What the index holds after a walk: each template name that some indexed
/// file provides, once, with the paths of exactly those files, in walk
/// order; and no other name.
pub proof fn lemma_index_contents(es: Seq<(Seq<char>, Seq<char>, bool)>)
    ensures
        distinct_names(record_all(seq![], es)),
        forall|name: Seq<char>|
            paths_in(record_all(seq![], es), name) == #[trigger] paths_named(es, name),
        forall|name: Seq<char>|
            position(record_all(seq![], es), name) >= 0 <==> #[trigger] paths_named(es, name).len()
                > 0,
        forall|i: int|
            0 <= i < record_all(seq![], es).len() ==> #[trigger] record_all(seq![], es)[i].1
                == paths_named(es, record_all(seq![], es)[i].0),
    decreases es.len(),
{
    let v = record_all(seq![], es);
    if es.len() > 0 {
        let pre = es.drop_last();
        let e = es.last();
        let u = record_all(seq![], pre);
        lemma_index_contents(pre);
        if indexed(e) {
            let n = template_name(e.0);
            lemma_position(u, n);
            lemma_record_distinct(u, n, e.1);
            assert forall|name: Seq<char>| paths_in(v, name) == #[trigger] paths_named(es, name) by {
                lemma_position(v, name);
                lemma_position(u, name);
                assert(paths_named(es, name) == if name == n {
                    paths_named(pre, name).push(e.1)
                } else {
                    paths_named(pre, name)
                });
                if name != n {
                    if position(u, name) >= 0 {
                        let pu = position(u, name);
                        assert(is_first(v, name, pu));
                    }
                    if position(v, name) >= 0 {
                        let pv = position(v, name);
                        if pv < u.len() {
                            assert(is_first(u, name, pv));
                        }
                    }
                } else {
                    if position(u, n) >= 0 {
                        assert(is_first(v, n, position(u, n)));
                    } else {
                        assert(is_first(v, n, u.len() as int));
                    }
                }
            }
            assert forall|name: Seq<char>|
                position(v, name) >= 0 <==> #[trigger] paths_named(es, name).len() > 0 by {
                lemma_position(v, name);
                lemma_position(u, name);
                assert(paths_in(v, name) == paths_named(es, name));
                assert(paths_in(u, name) == paths_named(pre, name));
                if name != n && position(v, name) >= 0 {
                    let j = position(v, name);
                    if j < u.len() {
                        assert(u[j].0 == name);
                    }
                }
                if name != n && position(u, name) >= 0 {
                    assert(v[position(u, name)].0 == name);
                }
            }
            assert forall|i: int| 0 <= i < v.len() implies #[trigger] v[i].1 == paths_named(
                es,
                v[i].0,
            ) by {
                lemma_position(v, v[i].0);
                assert(is_first(v, v[i].0, i));
                assert(paths_in(v, v[i].0) == paths_named(es, v[i].0));
            }
        } else {
            assert forall|name: Seq<char>| paths_in(v, name) == #[trigger] paths_named(es, name) by {
                assert(paths_in(u, name) == paths_named(pre, name));
            }
            assert forall|name: Seq<char>|
                position(v, name) >= 0 <==> #[trigger] paths_named(es, name).len() > 0 by {
                assert(paths_named(pre, name).len() > 0 <==> position(u, name) >= 0);
            }
        }
    } else {
        assert forall|name: Seq<char>|
            position(v, name) >= 0 <==> #[trigger] paths_named(es, name).len() > 0 by {
            lemma_position(v, name);
        }
    }
}

/// The entries that `before` lost from its front to become `after`.
pub open spec fn consumed(
    before: Seq<(Seq<char>, Seq<char>, bool)>,
    after: Seq<(Seq<char>, Seq<char>, bool)>,
) -> Seq<(Seq<char>, Seq<char>, bool)> {
    before.take(before.len() - after.len())
}

/// What the walk asks for next.
#[derive(Debug, Clone, PartialEq, Eq)]
pub enum ScanStep {
    /// List the directory at this path and hand its entries back.
    ReadDir(String),
    /// Every entry handed over has been passed.
    Finished,
}

/// A depth-first walk over template repositories that builds the template
/// index. The walk decides; its caller lists directories. The entries of a
/// directory are passed in walk order, whatever order they were listed in,
/// and a directory is entered where it stands among its siblings.
pub struct TemplateScan {
    index: TemplatePaths,
    queue: VecDeque<ScanEntry>,
    passed: Ghost<Seq<(Seq<char>, Seq<char>, bool)>>,
}

impl TemplateScan {
    /// The index built so far.
    pub closed spec fn index_view(&self) -> Seq<(Seq<char>, Seq<Seq<char>>)> {
        self.index@
    }

    /// The entries handed over and not yet passed, the next one first.
    pub closed spec fn pending(&self) -> Seq<(Seq<char>, Seq<char>, bool)> {
        self.queue@.map_values(|e: ScanEntry| e.view())
    }

    /// Every entry passed so far, in order.
    pub closed spec fn passed(&self) -> Seq<(Seq<char>, Seq<char>, bool)> {
        self.passed@
    }

    /// The index is exactly the record of the entries passed.
    pub open spec fn consistent(&self) -> bool {
        self.index_view() == record_all(seq![], self.passed())
    }

    /// A walk that has seen nothing yet.
    pub fn new() -> (r: TemplateScan)
        ensures
            r.index_view() == Seq::<(Seq<char>, Seq<Seq<char>>)>::empty(),
            r.pending() == Seq::<(Seq<char>, Seq<char>, bool)>::empty(),
            r.passed() == Seq::<(Seq<char>, Seq<char>, bool)>::empty(),
            r.consistent(),
    {
        let r = TemplateScan { index: TemplatePaths::new(), queue: VecDeque::new(), passed: Ghost(Seq::empty()) };
        proof {
            assert(r.pending() =~= Seq::<(Seq<char>, Seq<char>, bool)>::empty());
        }
        r
    }

    /// Hands over the listing of a repository root, or of the directory that
    /// the last step asked for: its entries are passed next, in walk order.
    pub fn add_listing(&mut self, listing: Vec<ScanEntry>)
        ensures
            final(self).pending() == walk_order(listing@.map_values(|e: ScanEntry| e.view())) + old(
                self,
            ).pending(),
            final(self).index_view() == old(self).index_view(),
            final(self).passed() == old(self).passed(),
    {
        let mut listing = sort_listing(listing);
        let ghost all = listing@;
        let ghost rest = self.queue@;
        while listing.len() > 0
            invariant
                listing@ == all.take(listing@.len() as int),
                listing@.len() <= all.len(),
                self.queue@ == all.skip(listing@.len() as int) + rest,
                self.index@ == old(self).index@,
                self.passed@ == old(self).passed@,
            decreases listing@.len(),
        {
            let ghost n = listing@.len();
            match listing.pop() {
                Some(e) => {
                    self.queue.push_front(e);
                    proof {
                        assert(listing@ =~= all.take(n - 1));
                        assert(seq![e] + (all.skip(n as int) + rest) =~= all.skip(n - 1) + rest);
                    }
                },
                None => {},
            }
        }
        proof {
            assert(all.skip(0) =~= all);
            assert(self.queue@.map_values(|e: ScanEntry| e.view()) =~= all.map_values(
                |e: ScanEntry| e.view(),
            ) + rest.map_values(|e: ScanEntry| e.view()));
        }
    }

    /// Passes entries until the walk must enter a directory, which it asks
    /// for, or until none is left. Each passed file that is not excluded is
    /// recorded under its template name; excluded entries are passed over,
    /// and excluded directories are never entered.
    pub fn next_step(&mut self) -> (r: ScanStep)
        ensures
            final(self).pending() == old(self).pending().skip(
                consumed(old(self).pending(), final(self).pending()).len() as int,
            ),
            final(self).pending().len() <= old(self).pending().len(),
            final(self).index_view() == record_all(
                old(self).index_view(),
                consumed(old(self).pending(), final(self).pending()),
            ),
            final(self).passed() == old(self).passed() + consumed(
                old(self).pending(),
                final(self).pending(),
            ),
            old(self).consistent() ==> final(self).consistent(),
            match r {
                ScanStep::ReadDir(dir) => {
                    let c = consumed(old(self).pending(), final(self).pending());
                    &&& c.len() > 0
                    &&& descended(c.last())
                    &&& dir@ == c.last().1
                    &&& forall|j: int| 0 <= j < c.len() - 1 ==> !descended(#[trigger] c[j])
                },
                ScanStep::Finished => {
                    &&& final(self).pending().len() == 0
                    &&& forall|j: int|
                        0 <= j < old(self).pending().len() ==> !descended(
                            #[trigger] old(self).pending()[j],
                        )
                },
            },
    {
        let ghost q0 = self.pending();
        let ghost i0 = self.index@;
        let ghost p0 = self.passed@;
        loop
            invariant
                q0 == old(self).pending(),
                i0 == old(self).index_view(),
                p0 == old(self).passed(),
                self.pending().len() <= q0.len(),
                self.pending() == q0.skip(q0.len() - self.pending().len()),
                self.index@ == record_all(i0, consumed(q0, self.pending())),
                self.passed@ == p0 + consumed(q0, self.pending()),
                forall|j: int|
                    0 <= j < q0.len() - self.pending().len() ==> !descended(#[trigger] q0[j]),
            decreases self.queue@.len(),
        {
            let ghost before = self.pending();
            let ghost k = q0.len() - before.len();
            match self.queue.pop_front() {
                None => {
                    proof {
                        assert(consumed(q0, self.pending()) =~= q0);
                        lemma_record_all_append(seq![], p0, q0);
                    }
                    return ScanStep::Finished;
                },
                Some(e) => {
                    let ghost ev = e.view();
                    proof {
                        assert(before[0] == ev);
                        assert(q0[k] == ev);
                        assert(self.pending() =~= before.skip(1));
                        assert(self.pending() =~= q0.skip(k + 1));
                        assert(consumed(q0, self.pending()) =~= consumed(q0, before).push(ev));
                        assert(consumed(q0, self.pending()).drop_last() =~= consumed(q0, before));
                        self.passed = Ghost(self.passed@.push(ev));
                    }
                    if ignore_file(&e.name) {
                    } else if e.is_dir {
                        proof {
                            lemma_record_all_append(seq![], p0, consumed(q0, self.pending()));
                        }
                        return ScanStep::ReadDir(e.path);
                    } else {
                        let template = remove_filetype(&e.name);
                        self.index.push_path(template, e.path);
                    }
                },
            }
        }
    }

    /// The index built so far.
    pub fn index(&self) -> (r: &TemplatePaths)
        ensures
            r@ == self.index_view(),
    {
        &self.index
    }

    /// The index built, the walk ending.
    pub fn into_index(self) -> (r: TemplatePaths)
        ensures
            r@ == self.index_view(),
    {
        self.index
    }
}

/// No two walked entries share a path, as in any directory tree.
pub open spec fn unique_paths(es: Seq<(Seq<char>, Seq<char>, bool)>) -> bool {
    forall|a: int, b: int| 0 <= a < es.len() && 0 <= b < es.len() && a != b ==> es[a].1 != es[b].1
}

proof fn lemma_paths_named_members(es: Seq<(Seq<char>, Seq<char>, bool)>, name: Seq<char>, p: Seq<char>)
    ensures
        paths_named(es, name).contains(p) <==> exists|k: int|
            0 <= k < es.len() && indexed(es[k]) && template_name(es[k].0) == name && es[k].1 == p,
    decreases es.len(),
{
    if es.len() > 0 {
        let pre = es.drop_last();
        lemma_paths_named_members(pre, name, p);
        if paths_named(es, name).contains(p) {
            if paths_named(pre, name).contains(p) {
                let k = choose|k: int|
                    0 <= k < pre.len() && indexed(pre[k]) && template_name(pre[k].0) == name
                        && pre[k].1 == p;
                assert(es[k] == pre[k]);
            } else {
                let last = es.len() - 1;
                assert(paths_named(es, name) == paths_named(pre, name).push(es.last().1));
                let j = choose|j: int| 0 <= j < paths_named(es, name).len() && paths_named(es, name)[j] == p;
                assert(j == paths_named(pre, name).len());
                assert(indexed(es[last]) && template_name(es[last].0) == name && es[last].1 == p);
            }
        }
        if exists|k: int|
            0 <= k < es.len() && indexed(es[k]) && template_name(es[k].0) == name && es[k].1 == p {
            let k = choose|k: int|
                0 <= k < es.len() && indexed(es[k]) && template_name(es[k].0) == name && es[k].1 == p;
            if k < es.len() - 1 {
                assert(pre[k] == es[k]);
                let j = choose|j: int| 0 <= j < paths_named(pre, name).len() && paths_named(pre, name)[j] == p;
                if indexed(es.last()) && template_name(es.last().0) == name {
                    assert(paths_named(es, name)[j] == p);
                }
            } else {
                assert(paths_named(es, name).last() == p);
            }
        }
    }
}

/// Every file that the walk indexes is listed under exactly one template:
/// its own name without the last extension.
pub proof fn lemma_file_listed_once(es: Seq<(Seq<char>, Seq<char>, bool)>, i: int)
    requires
        0 <= i < es.len(),
        indexed(es[i]),
        unique_paths(es),
    ensures
        ({
            let v = record_all(seq![], es);
            let name = template_name(es[i].0);
            &&& distinct_names(v)
            &&& position(v, name) >= 0
            &&& v[position(v, name)].1.contains(es[i].1)
            &&& forall|j: int| 0 <= j < v.len() && #[trigger] v[j].1.contains(es[i].1) ==> v[j].0 == name
        }),
{
    let v = record_all(seq![], es);
    let name = template_name(es[i].0);
    lemma_index_contents(es);
    lemma_paths_named_members(es, name, es[i].1);
    assert(paths_named(es, name).len() > 0);
    lemma_position(v, name);
    assert(paths_in(v, name) == paths_named(es, name));
    assert forall|j: int| 0 <= j < v.len() && #[trigger] v[j].1.contains(es[i].1) implies v[j].0 == name by {
        assert(v[j].1 == paths_named(es, v[j].0));
        lemma_paths_named_members(es, v[j].0, es[i].1);
        let k = choose|k: int|
            0 <= k < es.len() && indexed(es[k]) && template_name(es[k].0) == v[j].0 && es[k].1 == es[i].1;
        assert(k == i);
    }
}

/// A hidden entry, a Markdown file or a licence is never listed in the
/// index, under any template.
pub proof fn lemma_excluded_never_listed(es: Seq<(Seq<char>, Seq<char>, bool)>, i: int)
    requires
        0 <= i < es.len(),
        excluded(es[i].0),
        unique_paths(es),
    ensures
        forall|j: int|
            0 <= j < record_all(seq![], es).len() ==> !(#[trigger] record_all(seq![], es)[j]).1.contains(
                es[i].1,
            ),
{
    let v = record_all(seq![], es);
    lemma_index_contents(es);
    assert forall|j: int| 0 <= j < v.len() implies !(#[trigger] v[j]).1.contains(es[i].1) by {
        assert(v[j].1 == paths_named(es, v[j].0));
        lemma_paths_named_members(es, v[j].0, es[i].1);
        if v[j].1.contains(es[i].1) {
            let k = choose|k: int|
                0 <= k < es.len() && indexed(es[k]) && template_name(es[k].0) == v[j].0 && es[k].1 == es[i].1;
            assert(k != i);
        }
    }
}

/// The entries a walk passes, starting from `queue`, when each directory it
/// enters lists as `listing_of` gives: the entries of a directory, in walk
/// order, are passed right after the directory itself. At most `depth`
/// directories are entered. This is the walk that `TemplateScan` performs
/// when its caller hands it `listing_of(dir)` for each `ReadDir(dir)`.
pub open spec fn walk_entries(
    listing_of: spec_fn(Seq<char>) -> Seq<(Seq<char>, Seq<char>, bool)>,
    queue: Seq<(Seq<char>, Seq<char>, bool)>,
    depth: nat,
) -> Seq<(Seq<char>, Seq<char>, bool)>
    decreases depth, queue.len(),
{
    if queue.len() == 0 {
        seq![]
    } else if descended(queue[0]) {
        if depth == 0 {
            seq![queue[0]]
        } else {
            seq![queue[0]] + walk_entries(
                listing_of,
                walk_order(listing_of(queue[0].1)) + queue.drop_first(),
                (depth - 1) as nat,
            )
        }
    } else {
        seq![queue[0]] + walk_entries(listing_of, queue.drop_first(), depth)
    }
}

/// Entries that the walk does not enter are passed as they stand: the walk
/// from `queue` begins with its first `k` entries when none of them is a
/// directory to enter.
pub proof fn lemma_walk_prefix(
    listing_of: spec_fn(Seq<char>) -> Seq<(Seq<char>, Seq<char>, bool)>,
    queue: Seq<(Seq<char>, Seq<char>, bool)>,
    depth: nat,
    k: int,
)
    requires
        0 <= k <= queue.len(),
        forall|j: int| 0 <= j < k ==> !descended(#[trigger] queue[j]),
    ensures
        walk_entries(listing_of, queue, depth) == queue.take(k) + walk_entries(
            listing_of,
            queue.skip(k),
            depth,
        ),
    decreases k,
{
    if k == 0 {
        assert(queue.skip(0) =~= queue);
        assert(queue.take(0) + walk_entries(listing_of, queue, depth) =~= walk_entries(listing_of, queue, depth));
    } else {
        let rest = queue.drop_first();
        assert forall|j: int| 0 <= j < k - 1 implies !descended(#[trigger] rest[j]) by {
            assert(rest[j] == queue[j + 1]);
        }
        lemma_walk_prefix(listing_of, rest, depth, k - 1);
        assert(rest.skip(k - 1) =~= queue.skip(k));
        assert(seq![queue[0]] + rest.take(k - 1) =~= queue.take(k));
        assert(queue.take(k) + walk_entries(listing_of, queue.skip(k), depth) =~= seq![queue[0]] + (
        rest.take(k - 1) + walk_entries(listing_of, rest.skip(k - 1), depth)));
    }
}

/// `TemplateScan` performs the walk: when `next_step` passes `consumed`
/// from `pending` and asks for the directory it ended on, the walk from
/// `pending` is `consumed` followed by the walk from what `add_listing` then
/// leaves pending; when it finishes, the walk from `pending` is `pending`.
pub proof fn lemma_step_follows_walk(
    listing_of: spec_fn(Seq<char>) -> Seq<(Seq<char>, Seq<char>, bool)>,
    pending: Seq<(Seq<char>, Seq<char>, bool)>,
    consumed: Seq<(Seq<char>, Seq<char>, bool)>,
    depth: nat,
)
    requires
        consumed.len() <= pending.len(),
        consumed == pending.take(consumed.len() as int),
        forall|j: int| 0 <= j < consumed.len() - 1 ==> !descended(#[trigger] consumed[j]),
    ensures
        consumed.len() > 0 && descended(consumed.last()) && depth > 0 ==> walk_entries(
            listing_of,
            pending,
            depth,
        ) == consumed + walk_entries(
            listing_of,
            walk_order(listing_of(consumed.last().1)) + pending.skip(consumed.len() as int),
            (depth - 1) as nat,
        ),
        consumed.len() == pending.len() && (consumed.len() == 0 || !descended(consumed.last()))
            ==> walk_entries(listing_of, pending, depth) == pending,
{
    let n = consumed.len() as int;
    if n > 0 {
        assert forall|j: int| 0 <= j < n - 1 implies !descended(#[trigger] pending[j]) by {
            assert(pending[j] == consumed[j]);
        }
        lemma_walk_prefix(listing_of, pending, depth, n - 1);
        let rest = pending.skip(n - 1);
        assert(rest[0] == consumed.last());
        assert(rest.drop_first() =~= pending.skip(n));
        if descended(consumed.last()) && depth > 0 {
            assert(pending.take(n - 1) + seq![rest[0]] =~= consumed);
            assert(walk_entries(listing_of, pending, depth) =~= consumed + walk_entries(
                listing_of,
                walk_order(listing_of(consumed.last().1)) + pending.skip(n),
                (depth - 1) as nat,
            ));
        }
        if n == pending.len() && !descended(consumed.last()) {
            assert(pending.skip(n).len() == 0);
            assert(walk_entries(listing_of, pending.skip(n), depth) =~= Seq::<
                (Seq<char>, Seq<char>, bool),
            >::empty());
            assert(pending.take(n - 1) + seq![rest[0]] =~= pending);
            assert(walk_entries(listing_of, pending, depth) =~= pending);
        }
    } else if pending.len() == 0 {
        assert(walk_entries(listing_of, pending, depth) =~= pending);
    }
}

proof fn lemma_walk_same(
    l1: spec_fn(Seq<char>) -> Seq<(Seq<char>, Seq<char>, bool)>,
    l2: spec_fn(Seq<char>) -> Seq<(Seq<char>, Seq<char>, bool)>,
    queue: Seq<(Seq<char>, Seq<char>, bool)>,
    depth: nat,
)
    requires
        forall|d: Seq<char>| (#[trigger] l1(d)).to_multiset() == l2(d).to_multiset(),
    ensures
        walk_entries(l1, queue, depth) == walk_entries(l2, queue, depth),
    decreases depth, queue.len(),
{
    if queue.len() > 0 {
        if descended(queue[0]) {
            if depth > 0 {
                lemma_listing_order_irrelevant(l1(queue[0].1), l2(queue[0].1));
                lemma_walk_same(
                    l1,
                    l2,
                    walk_order(l1(queue[0].1)) + queue.drop_first(),
                    (depth - 1) as nat,
                );
            }
        } else {
            lemma_walk_same(l1, l2, queue.drop_first(), depth);
        }
    }
}

/// Building the index twice over an unchanged tree gives the same index:
/// two walks whose listings hold the same entries, whatever order the file
/// system lists them in, pass the same entries in the same order and so
/// build the same index, each template's paths in the same order.
pub proof fn lemma_rebuild_same(
    l1: spec_fn(Seq<char>) -> Seq<(Seq<char>, Seq<char>, bool)>,
    l2: spec_fn(Seq<char>) -> Seq<(Seq<char>, Seq<char>, bool)>,
    root1: Seq<(Seq<char>, Seq<char>, bool)>,
    root2: Seq<(Seq<char>, Seq<char>, bool)>,
    depth: nat,
)
    requires
        forall|d: Seq<char>| (#[trigger] l1(d)).to_multiset() == l2(d).to_multiset(),
        root1.to_multiset() == root2.to_multiset(),
    ensures
        walk_entries(l1, walk_order(root1), depth) == walk_entries(l2, walk_order(root2), depth),
        record_all(seq![], walk_entries(l1, walk_order(root1), depth)) == record_all(
            seq![],
            walk_entries(l2, walk_order(root2), depth),
        ),
{
    lemma_listing_order_irrelevant(root1, root2);
    lemma_walk_same(l1, l2, walk_order(root1), depth);
}

/// The selection of `requested` from `v`: each requested name that `v` has,
/// once, in the order first requested, with its paths.
pub open spec fn selection(
    v: Seq<(Seq<char>, Seq<Seq<char>>)>,
    requested: Seq<Seq<char>>,
) -> Seq<(Seq<char>, Seq<Seq<char>>)>
    decreases requested.len(),
{
    if requested.len() == 0 {
        seq![]
    } else {
        let pre = selection(v, requested.drop_last());
        let name = requested.last();
        if position(v, name) >= 0 && position(pre, name) < 0 {
            pre.push((name, v[position(v, name)].1))
        } else {
            pre
        }
    }
}

/// Whether some requested name is in `v`.
pub open spec fn any_found(v: Seq<(Seq<char>, Seq<Seq<char>>)>, requested: Seq<Seq<char>>) -> bool {
    exists|i: int| 0 <= i < requested.len() && position(v, #[trigger] requested[i]) >= 0
}

proof fn lemma_selection_empty(v: Seq<(Seq<char>, Seq<Seq<char>>)>, requested: Seq<Seq<char>>)
    ensures
        selection(v, requested).len() == 0 <==> !any_found(v, requested),
    decreases requested.len(),
{
    if requested.len() > 0 {
        let pre = requested.drop_last();
        lemma_selection_empty(v, pre);
        lemma_position(selection(v, pre), requested.last());
        if any_found(v, pre) {
            let i = choose|i: int| 0 <= i < pre.len() && position(v, #[trigger] pre[i]) >= 0;
            assert(requested[i] == pre[i]);
        }
        if any_found(v, requested) && !any_found(v, pre) {
            let i = choose|i: int| 0 <= i < requested.len() && position(v, #[trigger] requested[i]) >= 0;
            if i < pre.len() {
                assert(pre[i] == requested[i]);
            }
        }
    }
}

/// Keeps, of the index, the templates that were requested, in the order
/// first requested. Names are matched exactly, case included; names that
/// match nothing are dropped. When none matches, the error names the
/// request as it was made.
pub fn parse_templates(index: &TemplatePaths, requested: &Vec<String>) -> (r: Result<
    TemplatePaths,
    crate::errors::Error,
>)
    ensures
        match r {
            Ok(sel) => any_found(index@, requested@.map_values(|t: String| t@)) && sel@ == selection(
                index@,
                requested@.map_values(|t: String| t@),
            ),
            Err(e) => !any_found(index@, requested@.map_values(|t: String| t@)) && e.kind_of()
                == crate::errors::ErrorKind::MissingTemplates && e.template_names()
                == requested@.map_values(|t: String| t@),
        },
{
    let ghost req = requested@.map_values(|t: String| t@);
    let mut sel = TemplatePaths::new();
    let mut i: usize = 0;
    while i < requested.len()
        invariant
            i <= requested@.len(),
            req == requested@.map_values(|t: String| t@),
            sel@ == selection(index@, req.take(i as int)),
        decreases requested@.len() - i,
    {
        let name = &requested[i];
        proof {
            assert(req.take(i + 1).drop_last() =~= req.take(i as int));
            assert(req.take(i + 1).last() == name@);
        }
        match index.find(name) {
            Some(k) => {
                if sel.find(name).is_none() {
                    proof {
                        lemma_position(index@, name@);
                    }
                    let paths = index.entries[k].paths.clone();
                    let ghost sel_before = sel@;
                    sel.entries.push(TemplateEntry { name: name.clone(), paths });
                    proof {
                        assert(sel@ =~= sel_before.push((name@, index@[k as int].1)));
                    }
                }
            },
            None => {},
        }
        i += 1;
    }
    proof {
        assert(req.take(requested@.len() as int) =~= req);
        lemma_selection_empty(index@, req);
    }
    if sel.is_empty() {
        Err(crate::errors::Error::missing_templates(requested))
    } else {
        Ok(sel)
    }
}

/// The requested names that the index does not have, in request order.
pub fn unmatched_templates(index: &TemplatePaths, requested: &Vec<String>) -> (r: Vec<String>)
    ensures
        r@.map_values(|t: String| t@) == requested@.map_values(|t: String| t@).filter(
            |t: Seq<char>| position(index@, t) < 0,
        ),
{
    let ghost req = requested@.map_values(|t: String| t@);
    let mut out: Vec<String> = Vec::new();
    let mut i: usize = 0;
    while i < requested.len()
        invariant
            i <= requested@.len(),
            req == requested@.map_values(|t: String| t@),
            out@.map_values(|t: String| t@) == req.take(i as int).filter(
                |t: Seq<char>| position(index@, t) < 0,
            ),
        decreases requested@.len() - i,
    {
        proof {
            assert(req.take(i + 1).drop_last() =~= req.take(i as int));
            reveal(Seq::filter);
        }
        let ghost before = out@;
        if index.find(&requested[i]).is_none() {
            out.push(requested[i].clone());
            proof {
                assert(out@.map_values(|t: String| t@) =~= before.map_values(|t: String| t@).push(
                    requested@[i as int]@,
                ));
            }
        }
        i += 1;
    }
    proof {
        assert(req.take(requested@.len() as int) =~= req);
    }
    out
}

} // verus!
