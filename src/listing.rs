//! The listing of available templates: sorted without regard to case and
//! laid out in padded columns.

use vstd::prelude::*;
use vstd::relations::{sorted_by, total_ordering};
use crate::index::TemplatePaths;
use crate::text::{
    chars_of, lemma_text_leq_antisymmetric, lemma_text_leq_total, lemma_text_leq_transitive, string_of,
    text_leq, text_leq_exec,
};

verus! {

/// The width, in characters, past which a listing line wraps.
pub const TEMPLATE_LIST_OUTPUT_LIMIT: usize = 100;

/// The lower-case form of `s`, as `str::to_lowercase` gives it.
pub uninterp spec fn lower_of(s: Seq<char>) -> Seq<char>;

/// Relies on str::to_lowercase: the lower-case form of `s`, which depends on
/// its characters alone.
#[verifier::external_body]
fn lowercase(s: &str) -> (r: String)
    ensures
        r@ == lower_of(s@),
{
    s.to_lowercase()
}

/// The listing order on (lower-case name, name) pairs: by the lower-case
/// name, then by the name itself.
pub open spec fn key_leq(x: (Seq<char>, Seq<char>), y: (Seq<char>, Seq<char>)) -> bool {
    if x.0 == y.0 {
        text_leq(x.1, y.1)
    } else {
        text_leq(x.0, y.0)
    }
}

/// The listing order is a total order.
pub proof fn lemma_key_leq_total_ordering()
    ensures
        total_ordering(|x: (Seq<char>, Seq<char>), y: (Seq<char>, Seq<char>)| key_leq(x, y)),
{
    let leq = |x: (Seq<char>, Seq<char>), y: (Seq<char>, Seq<char>)| key_leq(x, y);
    assert forall|x: (Seq<char>, Seq<char>)| #[trigger] leq(x, x) by {
        lemma_text_leq_total(x.1, x.1);
    }
    assert forall|x: (Seq<char>, Seq<char>), y: (Seq<char>, Seq<char>)|
        #[trigger] leq(x, y) && #[trigger] leq(y, x) implies x == y by {
        if x.0 == y.0 {
            lemma_text_leq_antisymmetric(x.1, y.1);
        } else {
            lemma_text_leq_antisymmetric(x.0, y.0);
        }
    }
    assert forall|x: (Seq<char>, Seq<char>), y: (Seq<char>, Seq<char>), z: (Seq<char>, Seq<char>)|
        #[trigger] leq(x, y) && #[trigger] leq(y, z) implies leq(x, z) by {
        if x.0 == y.0 && y.0 == z.0 {
            lemma_text_leq_transitive(x.1, y.1, z.1);
        } else if x.0 == y.0 {
        } else if y.0 == z.0 {
        } else {
            lemma_text_leq_transitive(x.0, y.0, z.0);
            if x.0 == z.0 {
                lemma_text_leq_antisymmetric(x.0, y.0);
            }
        }
    }
    assert forall|x: (Seq<char>, Seq<char>), y: (Seq<char>, Seq<char>)|
        #[trigger] leq(x, y) || #[trigger] leq(y, x) by {
        lemma_text_leq_total(x.0, y.0);
        lemma_text_leq_total(x.1, y.1);
    }
}

/// A name with its lower-case form.
struct Keyed {
    key: Vec<char>,
    name: Vec<char>,
}

impl Keyed {
    spec fn view(&self) -> (Seq<char>, Seq<char>) {
        (self.key@, self.name@)
    }
}

fn keyed_leq(x: &Keyed, y: &Keyed) -> (r: bool)
    ensures
        r == key_leq(x.view(), y.view()),
{
    let mut same = x.key.len() == y.key.len();
    let mut i: usize = 0;
    while same && i < x.key.len()
        invariant
            i <= x.key@.len(),
            same ==> x.key@.len() == y.key@.len(),
            same ==> x.key@.take(i as int) == y.key@.take(i as int),
            !same ==> x.key@ != y.key@,
        decreases x.key@.len() - i,
    {
        if x.key[i] != y.key[i] {
            same = false;
        } else {
            proof {
                assert(x.key@.take(i + 1) =~= x.key@.take(i as int).push(x.key@[i as int]));
                assert(y.key@.take(i + 1) =~= y.key@.take(i as int).push(y.key@[i as int]));
            }
        }
        i += 1;
    }
    proof {
        if same {
            assert(x.key@ =~= x.key@.take(i as int));
            assert(y.key@ =~= y.key@.take(i as int));
        }
    }
    if same {
        text_leq_exec(&x.name, &y.name)
    } else {
        text_leq_exec(&x.key, &y.key)
    }
}

/// `names` in listing order: sorted by lower-case form, then by name.
pub open spec fn listing_order(names: Seq<Seq<char>>) -> Seq<Seq<char>> {
    names.map_values(|n: Seq<char>| (lower_of(n), n)).sort_by(
        |x: (Seq<char>, Seq<char>), y: (Seq<char>, Seq<char>)| key_leq(x, y),
    ).map_values(|p: (Seq<char>, Seq<char>)| p.1)
}

/// `names` sorted by lower-case form, then by name.
pub fn sort_template_names(names: &Vec<String>) -> (r: Vec<String>)
    ensures
        r@.map_values(|s: String| s@) == listing_order(names@.map_values(|s: String| s@)),
{
    let ghost leq = |x: (Seq<char>, Seq<char>), y: (Seq<char>, Seq<char>)| key_leq(x, y);
    let ghost input = names@.map_values(|s: String| s@).map_values(|n: Seq<char>| (lower_of(n), n));
    proof {
        lemma_key_leq_total_ordering();
        broadcast use vstd::seq_lib::group_to_multiset_ensures;
    }
    let mut sorted: Vec<Keyed> = Vec::new();
    let mut i: usize = 0;
    while i < names.len()
        invariant
            i <= names@.len(),
            total_ordering(leq),
            leq == (|x: (Seq<char>, Seq<char>), y: (Seq<char>, Seq<char>)| key_leq(x, y)),
            input == names@.map_values(|s: String| s@).map_values(|n: Seq<char>| (lower_of(n), n)),
            sorted_by(sorted@.map_values(|k: Keyed| k.view()), leq),
            sorted@.map_values(|k: Keyed| k.view()).to_multiset() == input.take(i as int).to_multiset(),
        decreases names@.len() - i,
    {
        let low = lowercase(names[i].as_str());
        let item = Keyed { key: chars_of(low.as_str()), name: chars_of(names[i].as_str()) };
        let ghost sv = sorted@.map_values(|k: Keyed| k.view());
        proof {
            assert(item.view() == input[i as int]);
        }
        let mut j: usize = 0;
        while j < sorted.len() && keyed_leq(&sorted[j], &item)
            invariant
                j <= sorted@.len(),
                sv == sorted@.map_values(|k: Keyed| k.view()),
                forall|k: int| 0 <= k < j ==> leq(#[trigger] sv[k], item.view()),
                leq == (|x: (Seq<char>, Seq<char>), y: (Seq<char>, Seq<char>)| key_leq(x, y)),
            decreases sorted@.len() - j,
        {
            j += 1;
        }
        sorted.insert(j, item);
        proof {
            let nv = sorted@.map_values(|k: Keyed| k.view());
            assert(nv =~= sv.insert(j as int, item.view()));
            assert forall|a: int, b: int| 0 <= a < b < nv.len() implies #[trigger] leq(nv[a], nv[b]) by {
                if j < sv.len() {
                    assert(!leq(sv[j as int], item.view()));
                    assert(leq(item.view(), sv[j as int]));
                }
                if a < j && b == j {
                } else if a == j && b > j {
                    if b - 1 > j {
                        assert(leq(sv[j as int], sv[b - 1]));
                    }
                } else if a < j && b > j {
                    assert(leq(sv[a], sv[b - 1]));
                } else if a > j {
                    assert(leq(sv[a - 1], sv[b - 1]));
                } else {
                    assert(leq(sv[a], sv[b]));
                }
            }
            vstd::seq_lib::to_multiset_insert(sv, j as int, item.view());
            assert(input.take(i + 1) =~= input.take(i as int).push(input[i as int]));
            vstd::seq_lib::to_multiset_build(input.take(i as int), input[i as int]);
        }
        i += 1;
    }
    let ghost sv = sorted@.map_values(|k: Keyed| k.view());
    proof {
        assert(input.take(names@.len() as int) =~= input);
        input.lemma_sort_by_ensures(leq);
        vstd::seq_lib::lemma_sorted_unique(sv, input.sort_by(leq), leq);
    }
    let mut out: Vec<String> = Vec::new();
    let mut k: usize = 0;
    while k < sorted.len()
        invariant
            k <= sorted@.len(),
            sv == sorted@.map_values(|x: Keyed| x.view()),
            out@.map_values(|s: String| s@) == sv.take(k as int).map_values(
                |p: (Seq<char>, Seq<char>)| p.1,
            ),
        decreases sorted@.len() - k,
    {
        let ghost before = out@.map_values(|s: String| s@);
        out.push(string_of(&sorted[k].name));
        proof {
            assert(out@.map_values(|s: String| s@) =~= before.push(sv[k as int].1));
            assert(sv.take(k + 1).map_values(|p: (Seq<char>, Seq<char>)| p.1) =~= sv.take(
                k as int,
            ).map_values(|p: (Seq<char>, Seq<char>)| p.1).push(sv[k as int].1));
        }
        k += 1;
    }
    proof {
        assert(sv.take(sv.len() as int) =~= sv);
    }
    out
}

/// `name` followed by spaces up to `width` characters.
pub open spec fn padded(name: Seq<char>, width: int) -> Seq<char> {
    if name.len() >= width {
        name
    } else {
        name + Seq::new((width - name.len()) as nat, |i: int| ' ')
    }
}

/// The length of the longest of `names`; 0 when there is none.
pub open spec fn longest(names: Seq<Seq<char>>) -> int
    decreases names.len(),
{
    if names.len() == 0 {
        0
    } else if longest(names.drop_last()) >= names.last().len() {
        longest(names.drop_last())
    } else {
        names.last().len() as int
    }
}

/// The text laid out so far and the length of its last line, after laying
/// out `items` in columns `width` wide.
pub open spec fn layout_state(items: Seq<Seq<char>>, width: int) -> (Seq<char>, int)
    decreases items.len(),
{
    if items.len() == 0 {
        (seq![], 0)
    } else {
        let (text, line) = layout_state(items.drop_last(), width);
        let item = padded(items.last(), width);
        if line + width <= TEMPLATE_LIST_OUTPUT_LIMIT {
            (text + item, line + width)
        } else {
            (text + seq!['\n'] + item, width)
        }
    }
}

/// `items` laid out in columns one wider than the longest item, a line
/// wrapping before it would pass the listing width.
pub open spec fn layout(items: Seq<Seq<char>>) -> Seq<char> {
    layout_state(items, longest(items) + 1).0
}

proof fn lemma_layout_line(items: Seq<Seq<char>>, width: int)
    requires
        width >= 0,
    ensures
        0 <= layout_state(items, width).1 <= if width > TEMPLATE_LIST_OUTPUT_LIMIT {
            width
        } else {
            TEMPLATE_LIST_OUTPUT_LIMIT as int
        },
    decreases items.len(),
{
    if items.len() > 0 {
        lemma_layout_line(items.drop_last(), width);
    }
}

/// `names` laid out in columns: each padded with spaces to one more than the
/// longest name, as many to a line as fit in the listing width.
pub fn format_template_list(names: &Vec<String>) -> (r: String)
    ensures
        r@ == layout(names@.map_values(|s: String| s@)),
{
    let ghost items = names@.map_values(|s: String| s@);
    let mut chars: Vec<Vec<char>> = Vec::new();
    let mut widest: usize = 0;
    let mut i: usize = 0;
    while i < names.len()
        invariant
            i <= names@.len(),
            items == names@.map_values(|s: String| s@),
            chars@.len() == i,
            forall|k: int| 0 <= k < i ==> #[trigger] chars@[k]@ == items[k],
            widest as int == longest(items.take(i as int)),
        decreases names@.len() - i,
    {
        let cs = chars_of(names[i].as_str());
        proof {
            assert(items.take(i + 1).drop_last() =~= items.take(i as int));
            assert(items.take(i + 1).last() == items[i as int]);
        }
        if cs.len() > widest {
            widest = cs.len();
        }
        chars.push(cs);
        i += 1;
    }
    proof {
        assert(items.take(items.len() as int) =~= items);
    }
    let width: u128 = widest as u128 + 1;
    let ghost w = longest(items) + 1;
    let mut text: Vec<char> = Vec::new();
    let mut line: u128 = 0;
    let mut k: usize = 0;
    while k < chars.len()
        invariant
            k <= chars@.len() == items.len(),
            forall|m: int| 0 <= m < chars@.len() ==> #[trigger] chars@[m]@ == items[m],
            width as int == w,
            w == longest(items) + 1,
            1 <= w <= usize::MAX + 1,
            text@ == layout_state(items.take(k as int), w).0,
            line as int == layout_state(items.take(k as int), w).1,
        decreases chars@.len() - k,
    {
        proof {
            lemma_layout_line(items.take(k as int), w);
            assert(items.take(k + 1).drop_last() =~= items.take(k as int));
            assert(items.take(k + 1).last() == items[k as int]);
        }
        let ghost before = text@;
        if line + width > TEMPLATE_LIST_OUTPUT_LIMIT as u128 {
            text.push('\n');
            line = width;
        } else {
            line = line + width;
        }
        let ghost mid = text@;
        let item = &chars[k];
        let mut m: usize = 0;
        while m < item.len()
            invariant
                m <= item@.len(),
                text@ == mid + item@.take(m as int),
            decreases item@.len() - m,
        {
            text.push(item[m]);
            proof {
                assert(item@.take(m + 1) =~= item@.take(m as int).push(item@[m as int]));
            }
            m += 1;
        }
        proof {
            assert(item@.take(item@.len() as int) =~= item@);
        }
        let mut pad: u128 = item.len() as u128;
        let ghost base = text@;
        while pad < width
            invariant
                item@.len() <= pad <= width || pad == item@.len(),
                text@ == base + Seq::new((pad - item@.len()) as nat, |j: int| ' '),
            decreases width - pad,
        {
            text.push(' ');
            proof {
                assert(Seq::new((pad + 1 - item@.len()) as nat, |j: int| ' ') =~= Seq::new(
                    (pad - item@.len()) as nat,
                    |j: int| ' ',
                ).push(' '));
            }
            pad = pad + 1;
        }
        proof {
            assert(item@ == items[k as int]);
            if item@.len() >= w {
                assert(text@ =~= mid + items[k as int]);
            } else {
                assert(text@ =~= mid + padded(items[k as int], w));
            }
            assert(text@ =~= layout_state(items.take(k + 1), w).0);
        }
        k += 1;
    }
    proof {
        assert(items.take(items.len() as int) =~= items);
    }
    string_of(&text)
}

/// The listing of the templates of `index`: their names sorted without
/// regard to case, then by name, laid out in columns.
pub fn list_templates(index: &TemplatePaths) -> (r: String)
    ensures
        r@ == layout(listing_order(index@.map_values(|e: (Seq<char>, Seq<Seq<char>>)| e.0))),
{
    let entries = index.entries();
    let mut names: Vec<String> = Vec::new();
    let mut i: usize = 0;
    while i < entries.len()
        invariant
            i <= entries@.len(),
            entries@.map_values(|e: crate::index::TemplateEntry| e.view()) == index@,
            names@.map_values(|s: String| s@) == index@.take(i as int).map_values(
                |e: (Seq<char>, Seq<Seq<char>>)| e.0,
            ),
        decreases entries@.len() - i,
    {
        let ghost before = names@.map_values(|s: String| s@);
        let name = entries[i].name.clone();
        names.push(name);
        proof {
            assert(index@[i as int] == entries@[i as int].view());
            assert(names@.map_values(|s: String| s@) =~= before.push(name@));
            assert(index@.take(i + 1) =~= index@.take(i as int).push(index@[i as int]));
            assert(names@.map_values(|s: String| s@) =~= index@.take(i + 1).map_values(
                |e: (Seq<char>, Seq<Seq<char>>)| e.0,
            ));
        }
        i += 1;
    }
    proof {
        assert(index@.take(index@.len() as int) =~= index@);
    }
    let sorted = sort_template_names(&names);
    format_template_list(&sorted)
}

} // verus!
