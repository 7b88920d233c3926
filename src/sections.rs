//! Grouping the packaged defaults into display sections. A key's section is
//! what precedes its first `.`; a key without `.` is unscoped. Each group
//! lists its properties by name; the unscoped group, titled with the empty
//! text, comes first, and the named groups follow by rendered title, by
//! name where two titles are equal. The rendered title is for display only:
//! lookups and edits go by the key.

use crate::catalog::{entries_describe, pairs_model, pairs_to_map, Catalog};
use crate::config::default_views;
use crate::field::{DefaultEntry, DefaultModel, FieldValue};
use crate::dialect::copy_strings;
use crate::text::{
    after, before, chars_of, find, lemma_find, lemma_lex_asymmetric, lemma_lex_irreflexive,
    lemma_lex_total, lemma_lex_transitive, lex_less, lex_lt, split_once, string_of,
};
use crate::literal::same_chars;
use convert_case::{Case, Casing};
use vstd::prelude::*;

verus! {

/// The section of a key: what precedes its first `.`; none without a `.`.
pub open spec fn section_of(k: Seq<char>) -> Option<Seq<char>> {
    if find(k, '.') >= 0 {
        Some(before(k, '.'))
    } else {
        None
    }
}

/// The property name of a key within its section.
pub open spec fn property_of(k: Seq<char>) -> Seq<char> {
    if find(k, '.') >= 0 {
        after(k, '.')
    } else {
        k
    }
}

/// The key of a property of a section.
pub open spec fn key_of(section: Option<Seq<char>>, p: Seq<char>) -> Seq<char> {
    match section {
        Some(s) => s + seq!['.'] + p,
        None => p,
    }
}

/// What convert_case renders as the title of a section name.
pub uninterp spec fn title_of(s: Seq<char>) -> Seq<char>;

/// The title of a section under the given titles of names: the empty text
/// for the unscoped group, the name itself where no title is given.
pub open spec fn title_in(tm: Map<Seq<char>, Seq<char>>, section: Option<Seq<char>>) -> Seq<char> {
    match section {
        Some(s) => if tm.contains_key(s) {
            tm[s]
        } else {
            s
        },
        None => Seq::empty(),
    }
}

/// Group `a` is shown before group `b`.
pub open spec fn group_before(
    tm: Map<Seq<char>, Seq<char>>,
    a: Option<Seq<char>>,
    b: Option<Seq<char>>,
) -> bool {
    match (a, b) {
        (None, Some(_)) => true,
        (Some(x), Some(y)) => lex_lt(title_in(tm, a), title_in(tm, b)) || (title_in(tm, a)
            == title_in(tm, b) && lex_lt(x, y)),
        _ => false,
    }
}

/// One display group as a model.
pub struct GroupModel {
    pub section: Option<Seq<char>>,
    pub title: Seq<char>,
    pub entries: Seq<(Seq<char>, DefaultModel)>,
}

/// `gs` shows the defaults `c` grouped by section: groups in display order,
/// each titled, none empty, its properties in code-point order, each
/// property being the default of the key it stands for, and every key shown.
pub open spec fn is_grouping(
    gs: Seq<GroupModel>,
    c: Map<Seq<char>, DefaultModel>,
    tm: Map<Seq<char>, Seq<char>>,
) -> bool {
    &&& forall|i: int, j: int|
        0 <= i < j < gs.len() ==> group_before(tm, #[trigger] gs[i].section, #[trigger] gs[j].section)
    &&& forall|i: int| 0 <= i < gs.len() ==> #[trigger] gs[i].title == title_in(tm, gs[i].section)
    &&& forall|i: int| 0 <= i < gs.len() ==> #[trigger] gs[i].entries.len() > 0
    &&& forall|i: int, j: int, l: int|
        0 <= i < gs.len() && 0 <= j < l < gs[i].entries.len() ==> lex_lt(
            #[trigger] gs[i].entries[j].0,
            #[trigger] gs[i].entries[l].0,
        )
    &&& forall|i: int, j: int|
        0 <= i < gs.len() && 0 <= j < gs[i].entries.len() ==> {
            let k = key_of(gs[i].section, #[trigger] gs[i].entries[j].0);
            &&& c.contains_key(k)
            &&& c[k] == gs[i].entries[j].1
            &&& section_of(k) == gs[i].section
        }
    &&& forall|k: Seq<char>| #[trigger]
        c.contains_key(k) ==> exists|i: int, j: int|
            0 <= i < gs.len() && 0 <= j < gs[i].entries.len() && gs[i].section == section_of(k)
                && #[trigger] gs[i].entries[j].0 == property_of(k)
}

pub proof fn lemma_key_parts(k: Seq<char>)
    ensures
        key_of(section_of(k), property_of(k)) == k,
        section_of(k) matches Some(s) ==> find(s, '.') < 0,
{
    lemma_find(k, '.');
    if find(k, '.') >= 0 {
        let d = find(k, '.');
        assert(k.take(d) + seq!['.'] + k.skip(d + 1) =~= k);
        lemma_find(k.take(d), '.');
    }
}

pub proof fn lemma_section_of_key(s: Option<Seq<char>>, p: Seq<char>)
    requires
        s matches Some(x) ==> find(x, '.') < 0,
        s is None ==> find(p, '.') < 0,
    ensures
        section_of(key_of(s, p)) == s,
        property_of(key_of(s, p)) == p,
{
    match s {
        Some(x) => {
            let k = x + seq!['.'] + p;
            lemma_find(x, '.');
            lemma_find(k, '.');
            assert(k[x.len() as int] == '.');
            if find(k, '.') < x.len() {
                assert(k[find(k, '.')] == x[find(k, '.')]);
            }
            assert(find(k, '.') == x.len());
            assert(k.take(x.len() as int) =~= x);
            assert(k.skip(x.len() as int + 1) =~= p);
        },
        None => {},
    }
}

pub proof fn lemma_group_order(
    tm: Map<Seq<char>, Seq<char>>,
    a: Option<Seq<char>>,
    b: Option<Seq<char>>,
    c: Option<Seq<char>>,
)
    ensures
        !group_before(tm, a, a),
        !(group_before(tm, a, b) && group_before(tm, b, a)),
        a == b || group_before(tm, a, b) || group_before(tm, b, a),
        group_before(tm, a, b) && group_before(tm, b, c) ==> group_before(tm, a, c),
{
    let (ta, tb, tc) = (title_in(tm, a), title_in(tm, b), title_in(tm, c));
    lemma_lex_irreflexive(ta);
    lemma_lex_asymmetric(ta, tb);
    lemma_lex_total(ta, tb);
    if let Some(x) = a {
        lemma_lex_irreflexive(x);
    }
    if let (Some(x), Some(y)) = (a, b) {
        lemma_lex_irreflexive(x);
        lemma_lex_asymmetric(x, y);
        lemma_lex_total(x, y);
    }
    if group_before(tm, a, b) && group_before(tm, b, c) {
        if let (Some(x), Some(y), Some(z)) = (a, b, c) {
            if lex_lt(ta, tb) && lex_lt(tb, tc) {
                lemma_lex_transitive(ta, tb, tc);
            }
            if ta == tb && tb == tc {
                lemma_lex_transitive(x, y, z);
            }
        }
    }
}

/// Relies on convert_case's `Casing::to_case` with `Case::Title`: the title
/// depends on the text alone.
#[verifier::external_body]
fn title_case(s: &str) -> (r: String)
    ensures
        r@ == title_of(s@),
{
    s.to_case(Case::Title)
}

pub open spec fn opt_chars(o: Option<Vec<char>>) -> Option<Seq<char>> {
    match o {
        Some(v) => Some(v@),
        None => None,
    }
}

/// The section and property name of a key.
fn split_key(key: &str) -> (r: (Option<Vec<char>>, Vec<char>))
    ensures
        opt_chars(r.0) == section_of(key@),
        r.1@ == property_of(key@),
{
    let k = chars_of(key);
    let (head, tail, found) = split_once(&k, '.');
    if found {
        (Some(head), tail)
    } else {
        (None, k)
    }
}

fn copy_value(v: &FieldValue) -> (r: FieldValue)
    ensures
        r@ == v@,
{
    match v {
        FieldValue::Boolean(b) => FieldValue::Boolean(*b),
        FieldValue::Number(n) => FieldValue::Number(n.clone()),
        FieldValue::Text(t) => FieldValue::Text(t.clone()),
    }
}

fn copy_entry(e: &DefaultEntry) -> (r: DefaultEntry)
    ensures
        r@ == e@,
{
    let options = match &e.options {
        Some(o) => Some(copy_strings(o)),
        None => None,
    };
    DefaultEntry { value: copy_value(&e.value), options }
}

fn same_section(a: &Option<Vec<char>>, b: &Option<Vec<char>>) -> (r: bool)
    ensures
        r == (opt_chars(*a) == opt_chars(*b)),
{
    match (a, b) {
        (Some(x), Some(y)) => same_chars(x, y),
        (None, None) => true,
        _ => false,
    }
}

/// Whether the first of two titled sections is shown first.
fn shown_before(a: &(Option<Vec<char>>, Vec<char>), b: &(Option<Vec<char>>, Vec<char>), Ghost(
    tm,
): Ghost<Map<Seq<char>, Seq<char>>>) -> (r: bool)
    requires
        a.1@ == title_in(tm, opt_chars(a.0)),
        b.1@ == title_in(tm, opt_chars(b.0)),
    ensures
        r == group_before(tm, opt_chars(a.0), opt_chars(b.0)),
{
    match (&a.0, &b.0) {
        (None, Some(_)) => true,
        (Some(x), Some(y)) => lex_less(&a.1, &b.1) || (same_chars(&a.1, &b.1) && lex_less(x, y)),
        _ => false,
    }
}

/// The titles of a catalog of titles.
pub open spec fn title_map(t: Map<Seq<char>, String>) -> Map<Seq<char>, Seq<char>> {
    t.map_values(|s: String| s@)
}

fn title_for(section: &Option<Vec<char>>, titles: &Catalog<String>) -> (r: Vec<char>)
    ensures
        r@ == title_in(title_map(titles@), opt_chars(*section)),
{
    match section {
        None => Vec::new(),
        Some(x) => {
            let name = string_of(x);
            match titles.get(name.as_str()) {
                Some(t) => chars_of(t.as_str()),
                None => crate::text::subrange(x, 0, x.len()),
            }
        },
    }
}

pub open spec fn sorted_sections(tm: Map<Seq<char>, Seq<char>>, r: Seq<(Option<Vec<char>>, Vec<char>)>) -> bool {
    &&& forall|i: int, j: int|
        0 <= i < j < r.len() ==> group_before(tm, opt_chars(#[trigger] r[i].0), opt_chars(#[trigger] r[j].0))
    &&& forall|i: int| 0 <= i < r.len() ==> (#[trigger] r[i]).1@ == title_in(tm, opt_chars(r[i].0))
}

/// Adds a titled section to a list in display order, unless it is there already.
fn add_section(
    r: &mut Vec<(Option<Vec<char>>, Vec<char>)>,
    item: (Option<Vec<char>>, Vec<char>),
    Ghost(tm): Ghost<Map<Seq<char>, Seq<char>>>,
)
    requires
        sorted_sections(tm, old(r)@),
        item.1@ == title_in(tm, opt_chars(item.0)),
    ensures
        sorted_sections(tm, final(r)@),
        exists|j: int| 0 <= j < final(r).len() && opt_chars((#[trigger] final(r)[j]).0) == opt_chars(item.0),
        forall|i: int|
            0 <= i < old(r).len() ==> exists|j: int|
                0 <= j < final(r).len() && opt_chars((#[trigger] final(r)[j]).0) == opt_chars(
                    (#[trigger] old(r)[i]).0,
                ),
        forall|j: int|
            0 <= j < final(r).len() ==> opt_chars((#[trigger] final(r)[j]).0) == opt_chars(item.0)
                || exists|i: int| 0 <= i < old(r).len() && opt_chars(old(r)[i].0) == opt_chars(final(r)[j].0),
{
    let mut pos: usize = 0;
    while pos < r.len() && shown_before(&r[pos], &item, Ghost(tm))
        invariant
            pos <= r.len(),
            item.1@ == title_in(tm, opt_chars(item.0)),
            sorted_sections(tm, r@),
            forall|i: int| 0 <= i < pos ==> group_before(tm, opt_chars(#[trigger] r[i].0), opt_chars(item.0)),
        decreases r.len() - pos,
    {
        pos = pos + 1;
    }
    let ghost s = opt_chars(item.0);
    let ghost r0 = r@;
    if pos < r.len() && same_section(&r[pos].0, &item.0) {
        assert(opt_chars(r[pos as int].0) == s);
        return;
    }
    proof {
        if pos < r.len() {
            lemma_group_order(tm, s, opt_chars(r[pos as int].0), s);
        }
    }
    r.insert(pos, item);
    proof {
        lemma_insert_section(tm, r0, pos as int, item, r@);
    }
}

#[verifier::rlimit(50)]
proof fn lemma_insert_section(
    tm: Map<Seq<char>, Seq<char>>,
    r0: Seq<(Option<Vec<char>>, Vec<char>)>,
    pos: int,
    item: (Option<Vec<char>>, Vec<char>),
    r: Seq<(Option<Vec<char>>, Vec<char>)>,
)
    requires
        0 <= pos <= r0.len(),
        r == r0.insert(pos, item),
        sorted_sections(tm, r0),
        item.1@ == title_in(tm, opt_chars(item.0)),
        forall|i: int| 0 <= i < pos ==> group_before(tm, opt_chars(#[trigger] r0[i].0), opt_chars(item.0)),
        pos < r0.len() ==> group_before(tm, opt_chars(item.0), opt_chars(r0[pos].0)),
    ensures
        sorted_sections(tm, r),
        r[pos] == item,
        forall|i: int|
            0 <= i < r0.len() ==> exists|j: int|
                0 <= j < r.len() && opt_chars((#[trigger] r[j]).0) == opt_chars((#[trigger] r0[i]).0),
        forall|j: int|
            0 <= j < r.len() ==> opt_chars((#[trigger] r[j]).0) == opt_chars(item.0)
                || exists|i: int| 0 <= i < r0.len() && opt_chars(r0[i].0) == opt_chars(r[j].0),
{
    let s = opt_chars(item.0);
    assert forall|j: int| pos <= j < r0.len() implies group_before(tm, s, opt_chars(#[trigger] r0[j].0)) by {
        if j > pos {
            lemma_group_order(tm, s, opt_chars(r0[pos].0), opt_chars(r0[j].0));
        }
    }
    assert forall|i: int, j: int|
        0 <= i < j < r.len() implies group_before(
            tm,
            opt_chars(#[trigger] r[i].0),
            opt_chars(#[trigger] r[j].0),
        ) by {
        if i < pos && j > pos {
            assert(r[i] == r0[i]);
            assert(r[j] == r0[j - 1]);
            lemma_group_order(tm, opt_chars(r[i].0), s, opt_chars(r[j].0));
        } else if i < pos && j == pos {
            assert(r[i] == r0[i]);
        } else if i < pos {
            assert(r[i] == r0[i]);
            assert(r[j] == r0[j]);
        } else if i == pos {
            assert(r[j] == r0[j - 1]);
        } else {
            assert(r[i] == r0[i - 1]);
            assert(r[j] == r0[j - 1]);
        }
    }
    assert forall|i: int| 0 <= i < r.len() implies (#[trigger] r[i]).1@ == title_in(tm, opt_chars(r[i].0)) by {
        if i < pos {
            assert(r[i] == r0[i]);
        } else if i > pos {
            assert(r[i] == r0[i - 1]);
        }
    }
    assert forall|i: int| 0 <= i < r0.len() implies exists|j: int|
        0 <= j < r.len() && opt_chars((#[trigger] r[j]).0) == opt_chars((#[trigger] r0[i]).0) by {
        if i < pos {
            assert(r[i] == r0[i]);
        } else {
            assert(r[i + 1] == r0[i]);
        }
    }
    assert forall|j: int| 0 <= j < r.len() implies opt_chars((#[trigger] r[j]).0) == s
        || exists|i: int| 0 <= i < r0.len() && opt_chars(r0[i].0) == opt_chars(r[j].0) by {
        if j < pos {
            assert(r[j] == r0[j]);
        } else if j > pos {
            assert(r[j] == r0[j - 1]);
        }
    }
}

/// The distinct sections of the keys, titled, in display order.
fn ordered_sections(e: &Vec<(String, DefaultEntry)>, titles: &Catalog<String>) -> (r: Vec<
    (Option<Vec<char>>, Vec<char>),
>)
    ensures
        forall|i: int, j: int|
            0 <= i < j < r.len() ==> group_before(
                title_map(titles@),
                opt_chars(#[trigger] r[i].0),
                opt_chars(#[trigger] r[j].0),
            ),
        forall|i: int|
            0 <= i < r.len() ==> (#[trigger] r[i]).1@ == title_in(title_map(titles@), opt_chars(r[i].0)),
        forall|i: int|
            0 <= i < r.len() ==> exists|m: int|
                0 <= m < e.len() && section_of(e[m].0@) == opt_chars((#[trigger] r[i]).0),
        forall|m: int|
            #![trigger e[m]]
            0 <= m < e.len() ==> exists|i: int|
                0 <= i < r.len() && opt_chars((#[trigger] r[i]).0) == section_of(e[m].0@),
{
    let ghost tm = title_map(titles@);
    let mut r: Vec<(Option<Vec<char>>, Vec<char>)> = Vec::new();
    let mut m: usize = 0;
    while m < e.len()
        invariant
            m <= e.len(),
            tm == title_map(titles@),
            sorted_sections(tm, r@),
            forall|i: int|
                0 <= i < r.len() ==> exists|x: int|
                    0 <= x < m && section_of(e[x].0@) == opt_chars((#[trigger] r[i]).0),
            forall|x: int|
                #![trigger e[x]]
                0 <= x < m ==> exists|i: int|
                    0 <= i < r.len() && opt_chars((#[trigger] r[i]).0) == section_of(e[x].0@),
        decreases e.len() - m,
    {
        let (sec, _) = split_key(e[m].0.as_str());
        let title = title_for(&sec, titles);
        let ghost r0 = r@;
        add_section(&mut r, (sec, title), Ghost(tm));
        m = m + 1;
        proof {
            assert forall|x: int|
                #![trigger e[x]]
                0 <= x < m implies exists|i: int|
                    0 <= i < r.len() && opt_chars((#[trigger] r[i]).0) == section_of(e[x].0@) by {
                if x < m - 1 {
                    let i0 = choose|i: int| 0 <= i < r0.len() && opt_chars((#[trigger] r0[i]).0) == section_of(e[x].0@);
                    assert(opt_chars(r0[i0].0) == section_of(e[x].0@));
                }
            }
            assert forall|i: int|
                0 <= i < r.len() implies exists|x: int|
                    0 <= x < m && section_of(e[x].0@) == opt_chars((#[trigger] r[i]).0) by {
                if opt_chars(r[i].0) != section_of(e[m - 1].0@) {
                    let i0 = choose|i0: int| 0 <= i0 < r0.len() && opt_chars(r0[i0].0) == opt_chars(r[i].0);
                    assert(opt_chars(r0[i0].0) == opt_chars(r0[i0].0));
                }
            }
        }
    }
    r
}

pub open spec fn sorted_props(r: Seq<(Vec<char>, DefaultEntry)>) -> bool {
    forall|j: int, l: int| 0 <= j < l < r.len() ==> lex_lt((#[trigger] r[j]).0@, (#[trigger] r[l]).0@)
}

proof fn lemma_insert_prop(
    r0: Seq<(Vec<char>, DefaultEntry)>,
    pos: int,
    item: (Vec<char>, DefaultEntry),
    r: Seq<(Vec<char>, DefaultEntry)>,
)
    requires
        0 <= pos <= r0.len(),
        r == r0.insert(pos, item),
        sorted_props(r0),
        forall|i: int| 0 <= i < pos ==> lex_lt((#[trigger] r0[i]).0@, item.0@),
        pos < r0.len() ==> lex_lt(item.0@, r0[pos].0@),
    ensures
        sorted_props(r),
        forall|j: int| 0 <= j < r.len() ==> #[trigger] r[j] == (if j < pos {
            r0[j]
        } else if j == pos {
            item
        } else {
            r0[j - 1]
        }),
{
    assert forall|j: int| pos <= j < r0.len() implies lex_lt(item.0@, (#[trigger] r0[j]).0@) by {
        if j > pos {
            lemma_lex_transitive(item.0@, r0[pos].0@, r0[j].0@);
        }
    }
    assert forall|j: int| 0 <= j < r.len() implies #[trigger] r[j] == (if j < pos {
        r0[j]
    } else if j == pos {
        item
    } else {
        r0[j - 1]
    }) by {}
    assert forall|j: int, l: int| 0 <= j < l < r.len() implies lex_lt((#[trigger] r[j]).0@, (#[trigger] r[l]).0@) by {
        if j < pos && l > pos {
            lemma_lex_transitive(r[j].0@, item.0@, r[l].0@);
        }
    }
}

/// Adds a property that is not there yet to a list in name order; returns
/// where it went.
fn add_prop(r: &mut Vec<(Vec<char>, DefaultEntry)>, item: (Vec<char>, DefaultEntry)) -> (pos: usize)
    requires
        sorted_props(old(r)@),
        forall|j: int| 0 <= j < old(r).len() ==> (#[trigger] old(r)[j]).0@ != item.0@,
    ensures
        sorted_props(final(r)@),
        pos <= old(r).len(),
        final(r)@ == old(r)@.insert(pos as int, item),
{
    let mut pos: usize = 0;
    while pos < r.len() && lex_less(&r[pos].0, &item.0)
        invariant
            pos <= r.len(),
            forall|i: int| 0 <= i < pos ==> lex_lt((#[trigger] r[i]).0@, item.0@),
        decreases r.len() - pos,
    {
        pos = pos + 1;
    }
    proof {
        if pos < r.len() {
            lemma_lex_total(r[pos as int].0@, item.0@);
        }
    }
    let ghost r0 = r@;
    r.insert(pos, item);
    proof {
        lemma_insert_prop(r0, pos as int, item, r@);
    }
    pos
}

/// The properties of one section with their defaults, by property name.
fn section_entries(
    e: &Vec<(String, DefaultEntry)>,
    Ghost(c): Ghost<Map<Seq<char>, DefaultEntry>>,
    sec: &Option<Vec<char>>,
) -> (r: Vec<(Vec<char>, DefaultEntry)>)
    requires
        entries_describe(e@, c),
    ensures
        sorted_props(r@),
        forall|j: int|
            0 <= j < r.len() ==> {
                let k = key_of(opt_chars(*sec), (#[trigger] r[j]).0@);
                &&& c.contains_key(k)
                &&& c[k]@ == r[j].1@
                &&& section_of(k) == opt_chars(*sec)
            },
        forall|m: int|
            #![trigger e[m]]
            0 <= m < e.len() && section_of(e[m].0@) == opt_chars(*sec) ==> exists|j: int|
                0 <= j < r.len() && (#[trigger] r[j]).0@ == property_of(e[m].0@),
{
    let ghost s = opt_chars(*sec);
    let mut r: Vec<(Vec<char>, DefaultEntry)> = Vec::new();
    let ghost mut src: Seq<int> = Seq::empty();
    let ghost mut dst: Seq<int> = Seq::empty();
    let mut m: usize = 0;
    while m < e.len()
        invariant
            m <= e.len(),
            s == opt_chars(*sec),
            entries_describe(e@, c),
            sorted_props(r@),
            src.len() == r.len(),
            dst.len() == m,
            forall|j: int|
                0 <= j < r.len() ==> {
                    let k = key_of(s, (#[trigger] r[j]).0@);
                    &&& c.contains_key(k)
                    &&& c[k]@ == r[j].1@
                    &&& section_of(k) == s
                    &&& 0 <= src[j] < m
                    &&& e@[src[j]].0@ == k
                },
            forall|x: int|
                0 <= x < m && section_of(e@[x].0@) == s ==> 0 <= #[trigger] dst[x] < r.len()
                    && r[dst[x]].0@ == property_of(e@[x].0@),
        decreases e.len() - m,
    {
        let (ksec, prop) = split_key(e[m].0.as_str());
        let ghost k = e@[m as int].0@;
        if same_section(&ksec, sec) {
            proof {
                lemma_key_parts(k);
                assert(c.contains_key(e@[m as int].0@));
                assert forall|j: int| 0 <= j < r.len() implies (#[trigger] r[j]).0@ != prop@ by {
                    if r[j].0@ == prop@ {
                        assert(e@[src[j]].0@ == k);
                    }
                }
            }
            let item = (prop, copy_entry(&e[m].1));
            let ghost r0 = r@;
            let pos = add_prop(&mut r, item);
            proof {
                let p = pos as int;
                assert forall|j: int| 0 <= j < r.len() implies #[trigger] r[j] == (if j < p {
                    r0[j]
                } else if j == p {
                    item
                } else {
                    r0[j - 1]
                }) by {}
                src = src.insert(p, m as int);
                dst = Seq::new(m as nat, |x: int| if dst[x] >= p { dst[x] + 1 } else { dst[x] }).push(p);
            }
        } else {
            proof {
                dst = dst.push(0);
            }
        }
        m = m + 1;
    }
    assert forall|x: int|
        #![trigger e[x]]
        0 <= x < e.len() && section_of(e[x].0@) == s implies exists|j: int|
            0 <= j < r.len() && (#[trigger] r[j]).0@ == property_of(e[x].0@) by {
        assert(r[dst[x]].0@ == property_of(e@[x].0@));
    }
    r
}

/// A display group: its section (none for the unscoped one), its title, and
/// its properties with their defaults, by property name.
pub struct SectionGroup {
    pub section: Option<String>,
    pub title: String,
    pub entries: Vec<(String, DefaultEntry)>,
}

impl View for SectionGroup {
    type V = GroupModel;

    open spec fn view(&self) -> GroupModel {
        GroupModel {
            section: match self.section {
                Some(s) => Some(s@),
                None => None,
            },
            title: self.title@,
            entries: self.entries@.map_values(|p: (String, DefaultEntry)| (p.0@, p.1@)),
        }
    }
}

/// What each group of a list is.
pub open spec fn group_views(gs: Seq<SectionGroup>) -> Seq<GroupModel> {
    gs.map_values(|g: SectionGroup| g@)
}

/// The titles given as name/title pairs; a later pair overrides an earlier one.
pub open spec fn titles_given(t: Seq<(String, String)>) -> Map<Seq<char>, Seq<char>> {
    title_map(pairs_to_map(pairs_model(t)))
}

/// One built group is right about the defaults listed in `e`.
spec fn group_ok(
    g: GroupModel,
    c: Map<Seq<char>, DefaultModel>,
    tm: Map<Seq<char>, Seq<char>>,
    e: Seq<(String, DefaultEntry)>,
) -> bool {
    &&& g.title == title_in(tm, g.section)
    &&& forall|j: int, l: int| 0 <= j < l < g.entries.len() ==> lex_lt(#[trigger] g.entries[j].0, #[trigger] g.entries[l].0)
    &&& forall|j: int|
        0 <= j < g.entries.len() ==> {
            let k = key_of(g.section, #[trigger] g.entries[j].0);
            &&& c.contains_key(k)
            &&& c[k] == g.entries[j].1
            &&& section_of(k) == g.section
        }
    &&& forall|m: int|
        #![trigger e[m]]
        0 <= m < e.len() && section_of(e[m].0@) == g.section ==> exists|j: int|
            0 <= j < g.entries.len() && #[trigger] g.entries[j].0 == property_of(e[m].0@)
}

fn named(v: Vec<(Vec<char>, DefaultEntry)>) -> (r: Vec<(String, DefaultEntry)>)
    ensures
        r.len() == v.len(),
        forall|j: int| 0 <= j < r.len() ==> (#[trigger] r[j]).0@ == v[j].0@ && r[j].1 == v[j].1,
{
    let n = v.len();
    let mut rest = v;
    let mut r: Vec<(String, DefaultEntry)> = Vec::new();
    while rest.len() > 0
        invariant
            r.len() + rest.len() == n,
            n == v.len(),
            rest@ == v@.skip(r.len() as int),
            forall|j: int| 0 <= j < r.len() ==> (#[trigger] r[j]).0@ == v[j].0@ && r[j].1 == v[j].1,
        decreases rest.len(),
    {
        let (p, d) = rest.remove(0);
        assert(v[r.len() as int] == (p, d));
        r.push((string_of(&p), d));
    }
    r
}

fn build_group(
    e: &Vec<(String, DefaultEntry)>,
    Ghost(d): Ghost<Map<Seq<char>, DefaultEntry>>,
    Ghost(tm): Ghost<Map<Seq<char>, Seq<char>>>,
    sec: &Option<Vec<char>>,
    title: &Vec<char>,
) -> (g: SectionGroup)
    requires
        entries_describe(e@, d),
        title@ == title_in(tm, opt_chars(*sec)),
    ensures
        g@.section == opt_chars(*sec),
        group_ok(g@, default_views(d), tm, e@),
{
    let ghost c = default_views(d);
    let ents = section_entries(e, Ghost(d), sec);
    let section = match sec {
        Some(x) => Some(string_of(x)),
        None => None,
    };
    let g = SectionGroup { section, title: string_of(title), entries: named(ents) };
    proof {
        let gm = g@;
        assert(gm.section == opt_chars(*sec));
        assert forall|j: int| 0 <= j < gm.entries.len() implies #[trigger] gm.entries[j] == (
        ents[j].0@, ents[j].1@) by {}
        assert forall|j: int, l: int| 0 <= j < l < gm.entries.len() implies lex_lt(
            #[trigger] gm.entries[j].0,
            #[trigger] gm.entries[l].0,
        ) by {
            assert(lex_lt(ents[j].0@, ents[l].0@));
        }
        assert forall|j: int|
            0 <= j < gm.entries.len() implies {
                let k = key_of(gm.section, #[trigger] gm.entries[j].0);
                &&& c.contains_key(k)
                &&& c[k] == gm.entries[j].1
                &&& section_of(k) == gm.section
            } by {
            let k = key_of(gm.section, gm.entries[j].0);
            assert(d.contains_key(k) && d[k]@ == ents[j].1@);
        }
        assert forall|m: int|
            #![trigger e@[m]]
            0 <= m < e@.len() && section_of(e@[m].0@) == gm.section implies exists|j: int|
                0 <= j < gm.entries.len() && #[trigger] gm.entries[j].0 == property_of(e@[m].0@) by {
            assert(e@[m] == e[m]);
            let j = choose|j: int| 0 <= j < ents.len() && (#[trigger] ents[j]).0@ == property_of(e[m].0@);
            assert(gm.entries[j].0 == property_of(e@[m].0@));
        }
    }
    g
}

proof fn lemma_grouping(
    r: Seq<SectionGroup>,
    secs: Seq<(Option<Vec<char>>, Vec<char>)>,
    c: Map<Seq<char>, DefaultModel>,
    tm: Map<Seq<char>, Seq<char>>,
    e: Seq<(String, DefaultEntry)>,
    d: Map<Seq<char>, DefaultEntry>,
)
    requires
        r.len() == secs.len(),
        entries_describe(e, d),
        c == default_views(d),
        forall|x: int| 0 <= x < r.len() ==> #[trigger] r[x]@.section == opt_chars(secs[x].0),
        forall|x: int| 0 <= x < r.len() ==> group_ok(#[trigger] r[x]@, c, tm, e),
        sorted_sections(tm, secs),
        forall|x: int|
            0 <= x < secs.len() ==> exists|m: int|
                0 <= m < e.len() && section_of(e[m].0@) == opt_chars((#[trigger] secs[x]).0),
        forall|m: int|
            #![trigger e[m]]
            0 <= m < e.len() ==> exists|x: int|
                0 <= x < secs.len() && opt_chars((#[trigger] secs[x]).0) == section_of(e[m].0@),
    ensures
        is_grouping(group_views(r), c, tm),
{
    let gs = group_views(r);
    assert forall|x: int| 0 <= x < gs.len() implies #[trigger] gs[x] == r[x]@ by {}
    assert forall|x: int| 0 <= x < gs.len() implies #[trigger] gs[x].entries.len() > 0 by {
        assert(gs[x] == r[x]@);
        let m = choose|m: int| 0 <= m < e.len() && section_of(e[m].0@) == opt_chars((#[trigger] secs[x]).0);
        assert(group_ok(r[x]@, c, tm, e));
        assert(e[m] == e[m]);
    }
    assert forall|k: Seq<char>| #[trigger] c.contains_key(k) implies exists|x: int, j: int|
        0 <= x < gs.len() && 0 <= j < gs[x].entries.len() && gs[x].section == section_of(k)
            && #[trigger] gs[x].entries[j].0 == property_of(k) by {
        assert(d.contains_key(k));
        let m = choose|m: int| 0 <= m < e.len() && e[m].0@ == k;
        assert(e[m] == e[m]);
        let x = choose|x: int| 0 <= x < secs.len() && opt_chars((#[trigger] secs[x]).0) == section_of(e[m].0@);
        assert(gs[x] == r[x]@);
        assert(group_ok(r[x]@, c, tm, e));
        let j = choose|j: int| 0 <= j < gs[x].entries.len() && #[trigger] gs[x].entries[j].0 == property_of(e[m].0@);
        assert(gs[x].entries[j].0 == property_of(k));
    }
    assert forall|x: int, y: int| 0 <= x < y < gs.len() implies group_before(tm, #[trigger] gs[x].section, #[trigger] gs[y].section) by {
        assert(gs[x] == r[x]@ && gs[y] == r[y]@);
        assert(group_before(tm, opt_chars(secs[x].0), opt_chars(secs[y].0)));
    }
    assert forall|x: int| 0 <= x < gs.len() implies #[trigger] gs[x].title == title_in(tm, gs[x].section) by {
        assert(gs[x] == r[x]@);
        assert(group_ok(r[x]@, c, tm, e));
    }
    assert forall|x: int, j: int, l: int|
        0 <= x < gs.len() && 0 <= j < l < gs[x].entries.len() implies lex_lt(
            #[trigger] gs[x].entries[j].0,
            #[trigger] gs[x].entries[l].0,
        ) by {
        assert(gs[x] == r[x]@);
        assert(group_ok(r[x]@, c, tm, e));
    }
    assert forall|x: int, j: int|
        0 <= x < gs.len() && 0 <= j < gs[x].entries.len() implies {
            let k = key_of(gs[x].section, #[trigger] gs[x].entries[j].0);
            &&& c.contains_key(k)
            &&& c[k] == gs[x].entries[j].1
            &&& section_of(k) == gs[x].section
        } by {
        assert(gs[x] == r[x]@);
        assert(group_ok(r[x]@, c, tm, e));
    }
}

/// Groups the defaults by section, with the given titles of section names:
/// a name without a title is shown as it is.
pub fn arrange_sections(defaults: &Catalog<DefaultEntry>, titles: Vec<(String, String)>) -> (r: Vec<
    SectionGroup,
>)
    ensures
        is_grouping(group_views(r@), default_views(defaults@), titles_given(titles@)),
{
    let ghost tm = titles_given(titles@);
    let ghost c = default_views(defaults@);
    let tcat = Catalog::from_pairs(titles);
    let e = defaults.entries();
    let secs = ordered_sections(e, &tcat);
    let mut r: Vec<SectionGroup> = Vec::new();
    let mut i: usize = 0;
    while i < secs.len()
        invariant
            i <= secs.len(),
            r.len() == i,
            tm == title_map(tcat@),
            c == default_views(defaults@),
            entries_describe(e@, defaults@),
            forall|x: int| 0 <= x < i ==> #[trigger] r[x]@.section == opt_chars(secs[x].0),
            forall|x: int| 0 <= x < i ==> group_ok(#[trigger] r[x]@, c, tm, e@),
            sorted_sections(tm, secs@),
            forall|x: int|
                0 <= x < secs.len() ==> exists|m: int|
                    0 <= m < e.len() && section_of(e[m].0@) == opt_chars((#[trigger] secs[x]).0),
            forall|m: int|
                #![trigger e[m]]
                0 <= m < e.len() ==> exists|x: int|
                    0 <= x < secs.len() && opt_chars((#[trigger] secs[x]).0) == section_of(e[m].0@),
        decreases secs.len() - i,
    {
        let g = build_group(e, Ghost(defaults@), Ghost(tm), &secs[i].0, &secs[i].1);
        r.push(g);
        i = i + 1;
    }
    proof {
        lemma_grouping(r@, secs@, c, tm, e@, defaults@);
    }
    r
}

/// Every section name titled as convert_case renders it.
pub open spec fn rendered_titles() -> Map<Seq<char>, Seq<char>> {
    Map::new(|s: Seq<char>| true, |s: Seq<char>| title_of(s))
}

proof fn lemma_title_pairs(ps: Seq<(Seq<char>, String)>)
    requires
        forall|j: int| 0 <= j < ps.len() ==> (#[trigger] ps[j]).1@ == title_of(ps[j].0),
    ensures
        forall|j: int| 0 <= j < ps.len() ==> pairs_to_map(ps).contains_key((#[trigger] ps[j]).0),
        forall|k: Seq<char>| #[trigger] pairs_to_map(ps).contains_key(k) ==> pairs_to_map(ps)[k]@ == title_of(k),
    decreases ps.len(),
{
    if ps.len() > 0 {
        let q = ps.drop_last();
        assert forall|j: int| 0 <= j < q.len() implies (#[trigger] q[j]).1@ == title_of(q[j].0) by {
            assert(q[j] == ps[j]);
        }
        lemma_title_pairs(q);
        assert forall|j: int| 0 <= j < ps.len() implies pairs_to_map(ps).contains_key((#[trigger] ps[j]).0) by {
            if j < q.len() {
                assert(q[j] == ps[j]);
            }
        }
        assert(ps[ps.len() - 1].1@ == title_of(ps[ps.len() - 1].0));
        assert forall|k: Seq<char>| #[trigger] pairs_to_map(ps).contains_key(k) implies pairs_to_map(ps)[k]@ == title_of(k) by {
            if k != ps.last().0 {
                assert(pairs_to_map(q).contains_key(k));
            }
        }
    }
}

proof fn lemma_titles_agree(
    gs: Seq<GroupModel>,
    c: Map<Seq<char>, DefaultModel>,
    tm: Map<Seq<char>, Seq<char>>,
)
    requires
        is_grouping(gs, c, tm),
        forall|k: Seq<char>|
            #[trigger] c.contains_key(k) && section_of(k) is Some ==> title_in(tm, section_of(k))
                == title_of(section_of(k)->Some_0),
    ensures
        is_grouping(gs, c, rendered_titles()),
{
    let rt = rendered_titles();
    assert forall|i: int| 0 <= i < gs.len() implies title_in(tm, #[trigger] gs[i].section) == title_in(rt, gs[i].section) by {
        assert(gs[i].entries.len() > 0);
        let k = key_of(gs[i].section, gs[i].entries[0].0);
        assert(c.contains_key(k));
    }
    assert forall|i: int, j: int| 0 <= i < j < gs.len() implies group_before(rt, #[trigger] gs[i].section, #[trigger] gs[j].section) by {
        assert(group_before(tm, gs[i].section, gs[j].section));
    }
}

/// Groups the packaged defaults by section for display, each named section
/// titled as convert_case's title case renders its name.
pub fn group_sections(defaults: &Catalog<DefaultEntry>) -> (r: Vec<SectionGroup>)
    ensures
        is_grouping(group_views(r@), default_views(defaults@), rendered_titles()),
{
    let e = defaults.entries();
    let mut titles: Vec<(String, String)> = Vec::new();
    let mut m: usize = 0;
    while m < e.len()
        invariant
            m <= e.len(),
            forall|j: int| 0 <= j < titles.len() ==> (#[trigger] titles[j]).1@ == title_of(titles[j].0@),
            forall|x: int|
                #![trigger e[x]]
                0 <= x < m && section_of(e[x].0@) is Some ==> exists|j: int|
                    0 <= j < titles.len() && (#[trigger] titles[j]).0@ == section_of(e[x].0@)->Some_0,
        decreases e.len() - m,
    {
        let (sec, _) = split_key(e[m].0.as_str());
        let ghost t0 = titles@;
        match sec {
            Some(x) => {
                let name = string_of(&x);
                let title = title_case(name.as_str());
                titles.push((name, title));
                assert(titles[titles.len() - 1].0@ == section_of(e[m as int].0@)->Some_0);
            },
            None => {},
        }
        m = m + 1;
        proof {
            assert forall|x: int|
                #![trigger e[x]]
                0 <= x < m && section_of(e[x].0@) is Some implies exists|j: int|
                    0 <= j < titles.len() && (#[trigger] titles[j]).0@ == section_of(e[x].0@)->Some_0 by {
                if x < m - 1 {
                    let j = choose|j: int| 0 <= j < t0.len() && (#[trigger] t0[j]).0@ == section_of(e[x].0@)->Some_0;
                    assert(titles[j] == t0[j]);
                } else {
                    assert(titles[titles.len() - 1].0@ == section_of(e[x].0@)->Some_0);
                }
            }
        }
    }
    let ghost ps = pairs_model(titles@);
    proof {
        assert forall|j: int| 0 <= j < ps.len() implies (#[trigger] ps[j]).1@ == title_of(ps[j].0) by {
            assert(ps[j] == (titles[j].0@, titles[j].1));
        }
        lemma_title_pairs(ps);
    }
    let ghost tm = titles_given(titles@);
    let r = arrange_sections(defaults, titles);
    proof {
        let c = default_views(defaults@);
        assert forall|k: Seq<char>|
            #[trigger] c.contains_key(k) && section_of(k) is Some implies title_in(tm, section_of(k))
                == title_of(section_of(k)->Some_0) by {
            let x = choose|x: int| 0 <= x < e@.len() && e@[x].0@ == k;
            assert(e[x] == e@[x]);
            let j = choose|j: int| 0 <= j < titles.len() && (#[trigger] titles[j]).0@ == section_of(e[x].0@)->Some_0;
            assert(ps[j] == (titles[j].0@, titles[j].1));
        }
        lemma_titles_agree(group_views(r@), c, tm);
    }
    r
}

/// A key without `.` belongs to no section; in any grouping of defaults
/// that hold it, it is shown, under its own name, in the unscoped group.
pub proof fn law_undotted_key_unscoped(
    gs: Seq<GroupModel>,
    c: Map<Seq<char>, DefaultModel>,
    tm: Map<Seq<char>, Seq<char>>,
    k: Seq<char>,
)
    requires
        !k.contains('.'),
        c.contains_key(k),
        is_grouping(gs, c, tm),
    ensures
        section_of(k) is None,
        property_of(k) == k,
        exists|i: int, j: int|
            0 <= i < gs.len() && 0 <= j < gs[i].entries.len() && gs[i].section is None
                && #[trigger] gs[i].entries[j].0 == k,
{
    lemma_find(k, '.');
    if find(k, '.') >= 0 {
        assert(k[find(k, '.')] == '.');
    }
    assert(c.contains_key(k));
}

} // verus!
