//! The packaged-default dialect: lines `key = value`, possibly commented out
//! with one leading `#`, possibly followed by `# choice, choice` listing the
//! legal alternatives. Parsing it yields one flat JSON object text and the
//! option lists recovered from the trailing comments.

use crate::catalog::Catalog;
use crate::field::{opt_texts, texts, FieldModel, FieldValue};
use crate::literal::{bool_literal, float_literal, is_bool_literal, is_float_literal, same_chars};
use crate::text::{
    after, before, chars_of, find, is_whitespace, is_ws, split_chars, split_on,
    push_char, split_once, string_of, strip_ws, strip_ws_chars, trim, trim_chars, trim_end,
    trim_start,
};
use vstd::prelude::*;

verus! {

/// The type a value text is given: a number where `f64` parses it, else a
/// boolean where `bool` parses it, else a string.
pub open spec fn infer(v: Seq<char>) -> FieldModel {
    if float_literal(v) {
        FieldModel::Number(v)
    } else if bool_literal(v) {
        FieldModel::Boolean(v == seq!['t', 'r', 'u', 'e'])
    } else {
        FieldModel::Text(v)
    }
}

/// A trimmed line takes part when it holds an `=` with white space on both sides.
pub open spec fn is_assignment(t: Seq<char>) -> bool {
    exists|i: int| 1 <= i && i + 1 < t.len() && #[trigger] t[i] == '=' && is_ws(t[i - 1]) && is_ws(t[i + 1])
}

/// A trailing comment lists choices when it has a comma with text on both sides.
pub open spec fn is_choice_list(n: Seq<char>) -> bool {
    exists|i: int| 1 <= i && i + 2 <= n.len() && n[i] == ','
}

/// `t` without one leading comment marker.
pub open spec fn uncomment(t: Seq<char>) -> Seq<char> {
    if t.len() > 0 && t[0] == '#' {
        t.drop_first()
    } else {
        t
    }
}

/// What one line of the dialect states.
pub struct LineModel {
    pub key: Seq<char>,
    pub value: FieldModel,
    pub options: Option<Seq<Seq<char>>>,
}

/// The line's text with its comment marker and all white space removed.
pub open spec fn compact(line: Seq<char>) -> Seq<char> {
    strip_ws(uncomment(trim(line)))
}

/// What a taking-part line states: the key before the first `=`; the value
/// after it, up to a `#`; and, where the comment after that `#` lists
/// choices, the value followed by those choices.
pub open spec fn line_model(line: Seq<char>) -> LineModel {
    let c = compact(line);
    let rest = after(c, '=');
    let val = before(rest, '#');
    let note = after(rest, '#');
    LineModel {
        key: before(c, '='),
        value: infer(val),
        options: if find(rest, '#') >= 0 && is_choice_list(note) {
            Some(seq![val] + split_on(note, ','))
        } else {
            None
        },
    }
}

/// The statements of the lines that take part, in order.
pub open spec fn line_models(lines: Seq<Seq<char>>) -> Seq<LineModel>
    decreases lines.len(),
{
    if lines.len() == 0 {
        Seq::empty()
    } else if is_assignment(trim(lines.last())) {
        line_models(lines.drop_last()).push(line_model(lines.last()))
    } else {
        line_models(lines.drop_last())
    }
}

/// The statements of a dialect text.
pub open spec fn dialect_lines(text: Seq<char>) -> Seq<LineModel> {
    line_models(split_on(text, '\n'))
}

/// A value as JSON writes it: numbers and booleans bare, strings quoted.
pub open spec fn render(v: FieldModel) -> Seq<char> {
    match v {
        FieldModel::Number(n) => n,
        FieldModel::Boolean(b) => if b {
            seq!['t', 'r', 'u', 'e']
        } else {
            seq!['f', 'a', 'l', 's', 'e']
        },
        FieldModel::Text(t) => seq!['"'] + t + seq!['"'],
    }
}

/// `"key":value` for one statement.
pub open spec fn fragment(m: LineModel) -> Seq<char> {
    seq!['"'] + m.key + seq!['"', ':'] + render(m.value)
}

/// The fragments of the statements, separated by commas.
pub open spec fn join_fragments(ms: Seq<LineModel>) -> Seq<char>
    decreases ms.len(),
{
    if ms.len() == 0 {
        Seq::empty()
    } else if ms.len() == 1 {
        fragment(ms[0])
    } else {
        join_fragments(ms.drop_last()) + seq![','] + fragment(ms.last())
    }
}

/// The JSON object text of a dialect text.
pub open spec fn dialect_json(text: Seq<char>) -> Seq<char> {
    seq!['{'] + join_fragments(dialect_lines(text)) + seq!['}']
}

/// The option lists of the statements. The last statement of a key decides:
/// its list where it gives one, and no list where it gives none.
pub open spec fn option_lists(ms: Seq<LineModel>) -> Map<Seq<char>, Seq<Seq<char>>>
    decreases ms.len(),
{
    if ms.len() == 0 {
        Map::empty()
    } else {
        match ms.last().options {
            Some(o) => option_lists(ms.drop_last()).insert(ms.last().key, o),
            None => option_lists(ms.drop_last()).remove(ms.last().key),
        }
    }
}

/// One statement of the dialect.
pub struct DialectLine {
    pub key: String,
    pub value: FieldValue,
    pub options: Option<Vec<String>>,
}

impl View for DialectLine {
    type V = LineModel;

    open spec fn view(&self) -> LineModel {
        LineModel { key: self.key@, value: self.value@, options: opt_texts(self.options) }
    }
}

fn infer_value(v: &Vec<char>) -> (r: FieldValue)
    ensures
        r@ == infer(v@),
{
    if is_float_literal(v) {
        FieldValue::Number(string_of(v))
    } else if is_bool_literal(v) {
        let t = vec!['t', 'r', 'u', 'e'];
        assert(t@ == seq!['t', 'r', 'u', 'e']);
        FieldValue::Boolean(same_chars(v, &t))
    } else {
        FieldValue::Text(string_of(v))
    }
}

fn assignment(t: &Vec<char>) -> (r: bool)
    ensures
        r == is_assignment(t@),
{
    let mut i: usize = 1;
    while i < t.len() && i + 1 < t.len()
        invariant
            1 <= i,
            forall|j: int|
                1 <= j < i && j + 1 < t.len() ==> !(#[trigger] t@[j] == '=' && is_ws(t@[j - 1]) && is_ws(
                    t@[j + 1],
                )),
        decreases t.len() - i,
    {
        if t[i] == '=' && is_whitespace(t[i - 1]) && is_whitespace(t[i + 1]) {
            return true;
        }
        i = i + 1;
    }
    false
}

fn choice_list(n: &Vec<char>) -> (r: bool)
    ensures
        r == is_choice_list(n@),
{
    let mut i: usize = 1;
    while i < n.len() && i + 1 < n.len()
        invariant
            1 <= i,
            forall|j: int| 1 <= j < i && j + 2 <= n.len() ==> n@[j] != ',',
        decreases n.len() - i,
    {
        if n[i] == ',' {
            return true;
        }
        i = i + 1;
    }
    false
}

fn strings_of(pieces: &Vec<Vec<char>>) -> (r: Vec<String>)
    ensures
        r.len() == pieces.len(),
        forall|j: int| 0 <= j < r.len() ==> #[trigger] r[j]@ == pieces[j]@,
{
    let mut r: Vec<String> = Vec::new();
    let mut i: usize = 0;
    while i < pieces.len()
        invariant
            i <= pieces.len(),
            r.len() == i,
            forall|j: int| 0 <= j < i ==> #[trigger] r[j]@ == pieces[j]@,
        decreases pieces.len() - i,
    {
        r.push(string_of(&pieces[i]));
        i = i + 1;
    }
    r
}

/// The statement of one line, if the line takes part.
pub fn parse_line(line: &Vec<char>) -> (r: Option<DialectLine>)
    ensures
        r is Some == is_assignment(trim(line@)),
        r matches Some(d) ==> d@ == line_model(line@),
{
    let t = trim_chars(line);
    if !assignment(&t) {
        return None;
    }
    let u = if t.len() > 0 && t[0] == '#' {
        crate::text::subrange(&t, 1, t.len())
    } else {
        crate::text::subrange(&t, 0, t.len())
    };
    assert(u@ == crate::dialect::uncomment(t@));
    let c = strip_ws_chars(&u);
    let (key, rest, _) = split_once(&c, '=');
    let (val, note, has_note) = split_once(&rest, '#');
    let value = infer_value(&val);
    let options = if has_note && choice_list(&note) {
        let pieces = split_chars(&note, ',');
        let tail = strings_of(&pieces);
        let mut all: Vec<String> = Vec::new();
        all.push(string_of(&val));
        let mut i: usize = 0;
        while i < tail.len()
            invariant
                i <= tail.len(),
                all.len() == i + 1,
                all[0]@ == val@,
                forall|j: int| 0 <= j < i ==> #[trigger] all[j + 1]@ == tail[j]@,
            decreases tail.len() - i,
        {
            all.push(tail[i].clone());
            i = i + 1;
        }
        let ghost want = seq![val@] + split_on(note@, ',');
        assert(texts(all@).len() == want.len());
        assert forall|j: int| 0 <= j < want.len() implies texts(all@)[j] == want[j] by {
            if j > 0 {
                assert(all[(j - 1) + 1]@ == tail[j - 1]@);
            }
        }
        assert(texts(all@) =~= want);
        Some(all)
    } else {
        None
    };
    let d = DialectLine { key: string_of(&key), value, options };
    assert(d@.options == line_model(line@).options);
    Some(d)
}

/// The statements of a dialect text, in the order of its lines.
pub fn parse_dialect(text: &str) -> (r: Vec<DialectLine>)
    ensures
        r.len() == dialect_lines(text@).len(),
        forall|j: int| 0 <= j < r.len() ==> #[trigger] r[j]@ == dialect_lines(text@)[j],
{
    let chars = chars_of(text);
    let lines = split_chars(&chars, '\n');
    let ghost all = split_on(text@, '\n');
    let mut r: Vec<DialectLine> = Vec::new();
    let mut i: usize = 0;
    assert(all.take(0) =~= Seq::<Seq<char>>::empty());
    while i < lines.len()
        invariant
            i <= lines.len() == all.len(),
            forall|j: int| 0 <= j < lines.len() ==> #[trigger] lines[j]@ == all[j],
            r.len() == line_models(all.take(i as int)).len(),
            forall|j: int| 0 <= j < r.len() ==> #[trigger] r[j]@ == line_models(all.take(i as int))[j],
        decreases lines.len() - i,
    {
        assert(all.take(i + 1).drop_last() == all.take(i as int));
        assert(all.take(i + 1).last() == lines[i as int]@);
        match parse_line(&lines[i]) {
            Some(d) => {
                r.push(d);
            },
            None => {},
        }
        i = i + 1;
    }
    assert(all.take(lines.len() as int) == all);
    r
}

/// What a list of statements states.
pub open spec fn line_views(v: Seq<DialectLine>) -> Seq<LineModel> {
    v.map_values(|d: DialectLine| d@)
}

/// The texts of each list in a map of string lists.
pub open spec fn texts_map(m: Map<Seq<char>, Vec<String>>) -> Map<Seq<char>, Seq<Seq<char>>> {
    m.map_values(|v: Vec<String>| texts(v@))
}

fn push_render(out: &mut String, v: &FieldValue)
    ensures
        final(out)@ == old(out)@ + render(v@),
{
    match v {
        FieldValue::Number(n) => {
            out.append(n.as_str());
        },
        FieldValue::Boolean(b) => {
            if *b {
                push_char(out, 't');
                push_char(out, 'r');
                push_char(out, 'u');
                push_char(out, 'e');
            } else {
                push_char(out, 'f');
                push_char(out, 'a');
                push_char(out, 'l');
                push_char(out, 's');
                push_char(out, 'e');
            }
        },
        FieldValue::Text(t) => {
            push_char(out, '"');
            out.append(t.as_str());
            push_char(out, '"');
        },
    }
    assert(final(out)@ =~= old(out)@ + render(v@));
}

/// The JSON object text of the statements: `{"key":value,...}`.
pub fn json_of_lines(lines: &Vec<DialectLine>) -> (r: String)
    ensures
        r@ == seq!['{'] + join_fragments(line_views(lines@)) + seq!['}'],
{
    let ghost views = line_views(lines@);
    let mut out = String::new();
    push_char(&mut out, '{');
    let mut i: usize = 0;
    assert(views.take(0) =~= Seq::<LineModel>::empty());
    assert(out@ =~= seq!['{'] + join_fragments(views.take(0)));
    while i < lines.len()
        invariant
            i <= lines.len(),
            views == line_views(lines@),
            out@ == seq!['{'] + join_fragments(views.take(i as int)),
        decreases lines.len() - i,
    {
        let ghost before_out = out@;
        let d = &lines[i];
        if i > 0 {
            push_char(&mut out, ',');
        }
        push_char(&mut out, '"');
        out.append(d.key.as_str());
        push_char(&mut out, '"');
        push_char(&mut out, ':');
        push_render(&mut out, &d.value);
        proof {
            let t = views.take(i + 1);
            assert(t.drop_last() =~= views.take(i as int));
            assert(t.last() == d@);
            if i == 0 {
                assert(t.len() == 1);
                assert(out@ =~= seq!['{'] + fragment(t[0]));
            } else {
                assert(out@ =~= before_out + seq![','] + fragment(t.last()));
            }
            assert(out@ =~= seq!['{'] + join_fragments(t));
        }
        i = i + 1;
    }
    assert(views.take(lines.len() as int) =~= views);
    push_char(&mut out, '}');
    out
}

/// A copy of a list of strings.
pub fn copy_strings(v: &Vec<String>) -> (r: Vec<String>)
    ensures
        r@ == v@,
{
    let mut r: Vec<String> = Vec::new();
    let mut i: usize = 0;
    while i < v.len()
        invariant
            i <= v.len(),
            r@ == v@.take(i as int),
        decreases v.len() - i,
    {
        r.push(v[i].clone());
        i = i + 1;
        assert(r@ =~= v@.take(i as int));
    }
    assert(v@.take(v.len() as int) =~= v@);
    r
}

/// The option lists of the statements, keyed by property.
pub fn collect_options(lines: &Vec<DialectLine>) -> (r: Catalog<Vec<String>>)
    ensures
        texts_map(r@) == option_lists(line_views(lines@)),
{
    let ghost views = line_views(lines@);
    let mut r: Catalog<Vec<String>> = Catalog::new();
    let mut i: usize = 0;
    assert(views.take(0) =~= Seq::<LineModel>::empty());
    assert(texts_map(r@) =~= Map::empty());
    while i < lines.len()
        invariant
            i <= lines.len(),
            views == line_views(lines@),
            texts_map(r@) == option_lists(views.take(i as int)),
        decreases lines.len() - i,
    {
        let d = &lines[i];
        let ghost t = views.take(i + 1);
        assert(t.drop_last() =~= views.take(i as int));
        assert(t.last() == d@);
        match &d.options {
            Some(o) => {
                let ghost before_r = r@;
                r.insert(d.key.clone(), copy_strings(o));
                assert(texts_map(r@) =~= texts_map(before_r).insert(d.key@, texts(o@)));
            },
            None => {
                let ghost before_r = r@;
                r.remove(d.key.as_str());
                assert(texts_map(r@) =~= texts_map(before_r).remove(d.key@));
            },
        }
        i = i + 1;
    }
    assert(views.take(lines.len() as int) =~= views);
    r
}

/// Parses a dialect text into its JSON object text and the option lists of
/// its trailing comments, `None` where no line lists any.
pub fn parse_spa_json(spa_json: String) -> (r: (String, Option<Catalog<Vec<String>>>))
    ensures
        r.0@ == dialect_json(spa_json@),
        r.1 is None == (option_lists(dialect_lines(spa_json@)) == Map::<
            Seq<char>,
            Seq<Seq<char>>,
        >::empty()),
        r.1 matches Some(c) ==> texts_map(c@) == option_lists(dialect_lines(spa_json@)),
{
    let lines = parse_dialect(spa_json.as_str());
    assert(line_views(lines@) =~= dialect_lines(spa_json@));
    let json = json_of_lines(&lines);
    let options = collect_options(&lines);
    if options.is_empty() {
        assert(texts_map(options@) =~= Map::empty());
        (json, None)
    } else {
        assert(texts_map(options@) != Map::<Seq<char>, Seq<Seq<char>>>::empty()) by {
            if texts_map(options@) == Map::<Seq<char>, Seq<Seq<char>>>::empty() {
                assert forall|k: Seq<char>| !options@.contains_key(k) by {
                    if options@.contains_key(k) {
                        assert(texts_map(options@).contains_key(k));
                    }
                }
                assert(options@ =~= Map::empty());
            }
        }
        (json, Some(options))
    }
}

/// `s` holds no white space.
pub open spec fn no_ws(s: Seq<char>) -> bool {
    forall|i: int| 0 <= i < s.len() ==> !is_ws(#[trigger] s[i])
}

proof fn lemma_split_without_sep(s: Seq<char>, sep: char)
    requires
        !s.contains(sep),
    ensures
        split_on(s, sep) == seq![s],
    decreases s.len(),
{
    if s.len() > 0 {
        let p = s.drop_last();
        assert(!p.contains(sep)) by {
            if p.contains(sep) {
                let i = choose|i: int| 0 <= i < p.len() && p[i] == sep;
                assert(s[i] == sep);
            }
        }
        lemma_split_without_sep(p, sep);
        assert(s.last() != sep) by {
            assert(s[s.len() - 1] == s.last());
        }
        assert(p.push(s.last()) =~= s);
        let q = split_on(p, sep);
        assert(q.last() == p);
        assert(seq![p].update(0, p.push(s.last())) =~= seq![s]);
        assert(split_on(s, sep) == q.update(q.len() - 1, q.last().push(s.last())));
    } else {
        assert(s =~= Seq::<char>::empty());
    }
}

proof fn lemma_strip_ws_no_ws(s: Seq<char>)
    ensures
        no_ws(strip_ws(s)),
    decreases s.len(),
{
    if s.len() > 0 {
        lemma_strip_ws_no_ws(s.drop_last());
    }
}

proof fn lemma_parts_no_ws(s: Seq<char>, c: char)
    requires
        no_ws(s),
    ensures
        no_ws(before(s, c)),
        no_ws(after(s, c)),
{
    crate::text::lemma_find(s, c);
    if find(s, c) >= 0 {
        assert forall|i: int| 0 <= i < before(s, c).len() implies !is_ws(#[trigger] before(s, c)[i]) by {
            assert(before(s, c)[i] == s[i]);
        }
        assert forall|i: int| 0 <= i < after(s, c).len() implies !is_ws(#[trigger] after(s, c)[i]) by {
            assert(after(s, c)[i] == s[i + find(s, c) + 1]);
        }
    }
}

proof fn lemma_concat_no_ws(a: Seq<char>, b: Seq<char>)
    requires
        no_ws(a),
        no_ws(b),
    ensures
        no_ws(a + b),
{
    assert forall|i: int| 0 <= i < (a + b).len() implies !is_ws(#[trigger] (a + b)[i]) by {
        if i >= a.len() {
            assert((a + b)[i] == b[i - a.len()]);
        }
    }
}

proof fn lemma_fragment_no_ws(line: Seq<char>)
    ensures
        no_ws(fragment(line_model(line))),
{
    let c = compact(line);
    lemma_strip_ws_no_ws(uncomment(trim(line)));
    lemma_parts_no_ws(c, '=');
    let rest = after(c, '=');
    lemma_parts_no_ws(rest, '#');
    let v = before(rest, '#');
    let m = line_model(line);
    assert(no_ws(render(m.value))) by {
        if !float_literal(v) && !bool_literal(v) {
            lemma_concat_no_ws(seq!['"'], v);
            lemma_concat_no_ws(seq!['"'] + v, seq!['"']);
        }
    }
    lemma_concat_no_ws(seq!['"'], m.key);
    lemma_concat_no_ws(seq!['"'] + m.key, seq!['"', ':']);
    lemma_concat_no_ws(seq!['"'] + m.key + seq!['"', ':'], render(m.value));
}

proof fn lemma_models_no_ws(lines: Seq<Seq<char>>)
    ensures
        no_ws(join_fragments(line_models(lines))),
    decreases lines.len(),
{
    if lines.len() > 0 {
        lemma_models_no_ws(lines.drop_last());
        let ms = line_models(lines);
        if is_assignment(trim(lines.last())) {
            let p = line_models(lines.drop_last());
            lemma_fragment_no_ws(lines.last());
            assert(ms.drop_last() =~= p);
            if ms.len() > 1 {
                lemma_concat_no_ws(join_fragments(p), seq![',']);
                lemma_concat_no_ws(join_fragments(p) + seq![','], fragment(ms.last()));
            }
        }
    }
}

/// A line `key = value`, with or without a trailing `# comment`, gives
/// exactly one field: its key, with the value bare where it reads as a
/// number or a boolean and quoted otherwise.
pub proof fn law_line_gives_one_field(line: Seq<char>)
    requires
        !line.contains('\n'),
        is_assignment(trim(line)),
    ensures
        dialect_lines(line).len() == 1,
        ({
            let c = compact(line);
            let v = before(after(c, '='), '#');
            dialect_json(line) == seq!['{', '"'] + before(c, '=') + seq!['"', ':'] + (if float_literal(v)
                || bool_literal(v) {
                v
            } else {
                seq!['"'] + v + seq!['"']
            }) + seq!['}']
        }),
{
    lemma_split_without_sep(line, '\n');
    let lines = seq![line];
    assert(lines.drop_last() =~= Seq::<Seq<char>>::empty());
    assert(lines.last() == line);
    assert(line_models(lines.drop_last()) == Seq::<LineModel>::empty());
    assert(split_on(line, '\n') == lines);
    let ms = dialect_lines(line);
    assert(ms =~= seq![line_model(line)]);
    let c = compact(line);
    let v = before(after(c, '='), '#');
    if !float_literal(v) && bool_literal(v) {
        assert(render(infer(v)) == v);
    }
    assert(dialect_json(line) =~= seq!['{', '"'] + before(c, '=') + seq!['"', ':'] + render(infer(v)) + seq!['}']);
}

/// The JSON text the parser writes holds no white space, so reading it
/// again as dialect finds no statement: the result is the empty object.
pub proof fn law_output_reparses_empty(text: Seq<char>)
    ensures
        dialect_json(dialect_json(text)) == seq!['{', '}'],
{
    let j = dialect_json(text);
    let inner = join_fragments(dialect_lines(text));
    lemma_models_no_ws(split_on(text, '\n'));
    lemma_concat_no_ws(seq!['{'], inner);
    lemma_concat_no_ws(seq!['{'] + inner, seq!['}']);
    assert(no_ws(j));
    assert(!j.contains('\n')) by {
        if j.contains('\n') {
            let i = choose|i: int| 0 <= i < j.len() && j[i] == '\n';
            assert(is_ws(j[i]));
        }
    }
    lemma_split_without_sep(j, '\n');
    assert(trim_start(j) == j) by {
        assert(!is_ws(j[0]));
    }
    assert(trim_end(j) == j) by {
        assert(!is_ws(j.last())) by {
            assert(j.last() == j[j.len() - 1]);
        }
    }
    assert(!is_assignment(trim(j))) by {
        if is_assignment(j) {
            let i = choose|i: int| 1 <= i && i + 1 < j.len() && #[trigger] j[i] == '=' && is_ws(j[i - 1]) && is_ws(j[i + 1]);
            assert(!is_ws(j[i - 1]));
        }
    }
    let lines = seq![j];
    assert(lines.drop_last() =~= Seq::<Seq<char>>::empty());
    assert(lines.last() == j);
    assert(line_models(lines.drop_last()) == Seq::<LineModel>::empty());
    assert(split_on(j, '\n') == lines);
    assert(dialect_lines(j) =~= Seq::<LineModel>::empty());
    assert(dialect_json(j) =~= seq!['{', '}']);
}

proof fn lemma_strip_ws_concat(a: Seq<char>, b: Seq<char>)
    ensures
        strip_ws(a + b) == strip_ws(a) + strip_ws(b),
    decreases b.len(),
{
    if b.len() == 0 {
        assert(a + b =~= a);
        assert(strip_ws(a) + strip_ws(b) =~= strip_ws(a));
    } else {
        lemma_strip_ws_concat(a, b.drop_last());
        assert((a + b).drop_last() =~= a + b.drop_last());
        assert((a + b).last() == b.last());
        if !is_ws(b.last()) {
            assert(strip_ws(a) + strip_ws(b.drop_last()).push(b.last()) =~= (strip_ws(a) + strip_ws(
                b.drop_last(),
            )).push(b.last()));
        }
    }
}

proof fn lemma_strip_ws_keeps(s: Seq<char>)
    requires
        no_ws(s),
    ensures
        strip_ws(s) == s,
    decreases s.len(),
{
    if s.len() > 0 {
        lemma_strip_ws_keeps(s.drop_last());
        assert(!is_ws(s[s.len() - 1]));
        assert(s.drop_last().push(s.last()) =~= s);
    }
}

proof fn lemma_find_first(a: Seq<char>, c: char, b: Seq<char>)
    requires
        !a.contains(c),
    ensures
        find(a + seq![c] + b, c) == a.len(),
{
    let s = a + seq![c] + b;
    crate::text::lemma_find(s, c);
    assert(s[a.len() as int] == c);
    if find(s, c) < a.len() {
        assert(a[find(s, c)] == s[find(s, c)]);
    }
}

proof fn lemma_trim_end_prefix(s: Seq<char>, m: int)
    requires
        0 < m <= s.len(),
        !is_ws(s[m - 1]),
    ensures
        exists|j: int| m <= j <= s.len() && trim_end(s) == s.take(j),
    decreases s.len(),
{
    if s.len() > m && is_ws(s.last()) {
        lemma_trim_end_prefix(s.drop_last(), m);
        let j = choose|j: int| m <= j <= s.len() - 1 && trim_end(s.drop_last()) == s.drop_last().take(j);
        assert(s.drop_last().take(j) =~= s.take(j));
    } else {
        if s.len() > m {
            assert(trim_end(s) == s);
        } else {
            assert(s.last() == s[m - 1]);
        }
        assert(s.take(s.len() as int) =~= s);
    }
}

proof fn lemma_strip_separators()
    ensures
        strip_ws(seq![' ', '=', ' ']) == seq!['='],
        strip_ws(seq![' ', '#']) == seq!['#'],
{
    let sp = seq![' '];
    assert(sp.drop_last() =~= Seq::<char>::empty());
    assert(strip_ws(Seq::<char>::empty()) == Seq::<char>::empty());
    assert(sp.last() == ' ');
    assert(strip_ws(sp) == Seq::<char>::empty());
    let se = seq![' ', '='];
    assert(se.drop_last() =~= sp);
    assert(se.last() == '=');
    assert(strip_ws(se) == Seq::<char>::empty().push('='));
    let ses = seq![' ', '=', ' '];
    assert(ses.drop_last() =~= se);
    assert(ses.last() == ' ');
    assert(strip_ws(ses) =~= seq!['=']);
    let sh = seq![' ', '#'];
    assert(sh.drop_last() =~= sp);
    assert(sh.last() == '#');
    assert(strip_ws(sh) =~= seq!['#']);
}

proof fn lemma_line_no_newline(k: Seq<char>, v: Seq<char>, c: Seq<char>, line: Seq<char>)
    requires
        no_ws(k),
        no_ws(v),
        !c.contains('\n'),
        line == seq!['#'] + k + seq![' ', '=', ' '] + v + seq![' ', '#'] + (seq![' '] + c),
    ensures
        !line.contains('\n'),
{
    let m = 6 + k.len() + v.len();
    if line.contains('\n') {
        let i = choose|i: int| 0 <= i < line.len() && line[i] == '\n';
        if i < 1 + k.len() {
            assert(k[i - 1] == line[i]);
            assert(is_ws(k[i - 1]));
        } else if i < 4 + k.len() {
        } else if i < 4 + k.len() + v.len() {
            assert(v[i - 4 - k.len()] == line[i]);
            assert(is_ws(v[i - 4 - k.len()]));
        } else if i < m + 1 {
        } else {
            assert(c[i - m - 1] == line[i]);
        }
    }
}

proof fn lemma_trimmed(k: Seq<char>, v: Seq<char>, c: Seq<char>)
    requires
        k.len() > 0,
        v.len() > 0,
    ensures
        ({
            let head = seq!['#'] + k + seq![' ', '=', ' '] + v + seq![' ', '#'];
            let line = head + (seq![' '] + c);
            &&& exists|w: Seq<char>| trim(line) == head + w
            &&& is_assignment(trim(line))
        }),
{
    let head = seq!['#'] + k + seq![' ', '=', ' '] + v + seq![' ', '#'];
    let line = head + (seq![' '] + c);
    let m = head.len() as int;
    assert(line[m - 1] == '#');
    assert(trim_start(line) == line);
    lemma_trim_end_prefix(line, m);
    let j = choose|j: int| m <= j <= line.len() && trim_end(line) == line.take(j);
    let t = line.take(j);
    assert(trim(line) == t);
    let e = 1 + k.len() as int + 1;
    assert(t[e] == '=' && t[e - 1] == ' ' && t[e + 1] == ' ');
    assert(is_assignment(t));
    assert(t =~= head + t.skip(m));
}

proof fn lemma_stripped(k: Seq<char>, v: Seq<char>, w: Seq<char>)
    requires
        no_ws(k),
        no_ws(v),
        !k.contains('='),
        !v.contains('#'),
    ensures
        ({
            let t = seq!['#'] + k + seq![' ', '=', ' '] + v + seq![' ', '#'] + w;
            let cp = strip_ws(uncomment(t));
            &&& before(cp, '=') == k
            &&& before(after(cp, '='), '#') == v
        }),
{
    let t = seq!['#'] + k + seq![' ', '=', ' '] + v + seq![' ', '#'] + w;
    assert(uncomment(t) =~= k + seq![' ', '=', ' '] + v + seq![' ', '#'] + w);
    lemma_strip_ws_concat(k + seq![' ', '=', ' '] + v + seq![' ', '#'], w);
    lemma_strip_ws_concat(k + seq![' ', '=', ' '] + v, seq![' ', '#']);
    lemma_strip_ws_concat(k + seq![' ', '=', ' '], v);
    lemma_strip_ws_concat(k, seq![' ', '=', ' ']);
    lemma_strip_ws_keeps(k);
    lemma_strip_ws_keeps(v);
    lemma_strip_separators();
    let sw = strip_ws(w);
    let cp = strip_ws(uncomment(t));
    assert(cp =~= k + seq!['='] + (v + seq!['#'] + sw));
    lemma_find_first(k, '=', v + seq!['#'] + sw);
    assert(before(cp, '=') =~= k);
    assert(after(cp, '=') =~= v + seq!['#'] + sw);
    lemma_find_first(v, '#', sw);
    assert(before(after(cp, '='), '#') =~= v);
}

/// A commented-out line `#k = v # c` gives exactly the one field `k`, with
/// `v` bare where it reads as a number or a boolean and quoted otherwise;
/// here `k` and `v` are non-empty words without white space, `=` or `#`,
/// and `c` is any comment on the same line.
pub proof fn law_commented_line_one_field(k: Seq<char>, v: Seq<char>, c: Seq<char>)
    requires
        k.len() > 0,
        v.len() > 0,
        no_ws(k),
        no_ws(v),
        !k.contains('='),
        !k.contains('#'),
        !v.contains('='),
        !v.contains('#'),
        !c.contains('\n'),
    ensures
        dialect_json(seq!['#'] + k + seq![' ', '=', ' '] + v + seq![' ', '#', ' '] + c) == seq![
            '{',
            '"',
        ] + k + seq!['"', ':'] + (if float_literal(v) || bool_literal(v) {
            v
        } else {
            seq!['"'] + v + seq!['"']
        }) + seq!['}'],
{
    let head = seq!['#'] + k + seq![' ', '=', ' '] + v + seq![' ', '#'];
    let line = head + (seq![' '] + c);
    assert(line =~= seq!['#'] + k + seq![' ', '=', ' '] + v + seq![' ', '#', ' '] + c);
    lemma_line_no_newline(k, v, c, line);
    lemma_trimmed(k, v, c);
    let w = choose|w: Seq<char>| trim(line) == head + w;
    lemma_stripped(k, v, w);
    law_line_gives_one_field(line);
}

} // verus!
