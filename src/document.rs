use vstd::prelude::*;

use crate::diagnostic::{Diagnostic, Level, Slice};
use crate::preamble::{spec_split, split_preamble, SplitError};
use crate::tree::{arena_wf, body_tree, lines_match, markdown_nodes, node_views, BodyNode};
use crate::text::{lemma_pieces_utf8, lemma_utf8_at_least_len, lemma_utf8_subrange, utf8_len};
use crate::text::{find_char, index_from, lines_of, split_on, trim, trim_str};

verus! {

/// One `name: value` line of a preamble.
#[derive(Debug, Clone)]
pub struct Field {
    pub name: String,
    /// The value without surrounding blanks.
    pub value: String,
    /// The value as written after the colon.
    pub raw_value: String,
    /// 1-based line of the field in the whole document.
    pub line: usize,
    /// The whole line as written.
    pub source: String,
}

/// A parsed document: its preamble fields and its texts.
#[derive(Debug, Clone)]
pub struct Document {
    pub origin: Option<String>,
    pub fields: Vec<Field>,
    pub preamble: String,
    pub body: String,
    /// The whole text of the document.
    pub text: String,
    /// The body's Markdown tree.
    pub nodes: Vec<BodyNode>,
    /// Line of each body node in the whole document.
    pub lines: Vec<usize>,
}

/// A field's parts agree with its line: the name, a colon, the raw value;
/// the value is the raw value trimmed.
pub open spec fn field_wf(f: Field) -> bool {
    &&& utf8_len(f.source@) <= usize::MAX
    &&& f.source@ == f.name@ + seq![':'] + f.raw_value@
    &&& f.value@ == trim(f.raw_value@)
}

/// Every field of the document agrees with its line.
pub open spec fn doc_wf(d: Document) -> bool {
    forall|k: int| 0 <= k < d.fields@.len() ==> field_wf(#[trigger] d.fields@[k])
}

/// Position of the colon that ends a field's name, if the line has one.
pub open spec fn colon_of(line: Seq<char>) -> Option<int> {
    index_from(line, ':', 0)
}

/// `f` is what the line `line`, standing at document line `number`, holds.
pub open spec fn field_of(f: Field, line: Seq<char>, number: int) -> bool {
    &&& colon_of(line) matches Some(c)
    &&& f.name@ == line.subrange(0, c)
    &&& f.raw_value@ == line.subrange(c + 1, line.len() as int)
    &&& f.value@ == trim(line.subrange(c + 1, line.len() as int))
    &&& f.line == number
    &&& f.source@ == line
}

/// Indices of the lines that hold a field.
pub open spec fn field_lines(lines: Seq<Seq<char>>) -> Seq<int>
    decreases lines.len(),
{
    if lines.len() == 0 {
        seq![]
    } else {
        let pre = field_lines(lines.drop_last());
        if colon_of(lines.last()) is Some {
            pre.push(lines.len() - 1)
        } else {
            pre
        }
    }
}

/// Indices of the lines that hold no field.
pub open spec fn malformed_lines(lines: Seq<Seq<char>>) -> Seq<int>
    decreases lines.len(),
{
    if lines.len() == 0 {
        seq![]
    } else {
        let pre = malformed_lines(lines.drop_last());
        if colon_of(lines.last()) is Some {
            pre
        } else {
            pre.push(lines.len() - 1)
        }
    }
}

/// Document line of the preamble's line `k` (the opening fence is line 1).
pub open spec fn preamble_line_number(k: int) -> int {
    k + 2
}

/// Fields of preamble text, in the order written.
pub open spec fn fields_match(fields: Seq<Field>, preamble: Seq<char>) -> bool {
    let lines = lines_of(preamble);
    let idx = field_lines(lines);
    &&& fields.len() == idx.len()
    &&& forall|k: int|
        0 <= k < fields.len() ==> field_of(#[trigger] fields[k], lines[idx[k]], preamble_line_number(idx[k]))
}

proof fn lemma_field_lines_bounded(lines: Seq<Seq<char>>)
    ensures
        forall|k: int| 0 <= k < field_lines(lines).len() ==> 0 <= #[trigger] field_lines(lines)[k] < lines.len(),
        forall|k: int| 0 <= k < malformed_lines(lines).len() ==> 0 <= #[trigger] malformed_lines(lines)[k] < lines.len(),
        field_lines(lines).len() + malformed_lines(lines).len() == lines.len(),
    decreases lines.len(),
{
    if lines.len() > 0 {
        lemma_field_lines_bounded(lines.drop_last());
    }
}

fn parse_field(line: &String, number: usize) -> (r: Option<Field>)
    requires
        utf8_len(line@) <= usize::MAX,
    ensures
        r matches Some(f) ==> field_of(f, line@, number as int) && field_wf(f),
        r is None <==> colon_of(line@) is None,
{
    let s = line.as_str();
    match find_char(s, ':') {
        None => None,
        Some(c) => {
            let len = s.unicode_len();
            let raw = s.substring_char(c + 1, len);
            proof {
                crate::text::lemma_index_from_bounds(s@, ':', 0);
                assert(s@ =~= s@.subrange(0, c as int) + seq![':'] + raw@);
            }
            Some(
                Field {
                    name: String::from_str(s.substring_char(0, c)),
                    value: trim_str(raw),
                    raw_value: String::from_str(raw),
                    line: number,
                    source: line.clone(),
                },
            )
        },
    }
}

/// Parses the fields of preamble text; also returns the document line and
/// the text of each line that holds no field.
pub fn parse_fields(preamble: &str) -> (r: (Vec<Field>, Vec<(usize, String)>))
    requires
        preamble@.len() + 2 <= usize::MAX,
        utf8_len(preamble@) <= usize::MAX,
    ensures
        fields_match(r.0@, preamble@),
        forall|k: int| 0 <= k < r.0@.len() ==> field_wf(#[trigger] r.0@[k]),
        r.1@.len() == malformed_lines(lines_of(preamble@)).len(),
        forall|k: int|
            0 <= k < r.1@.len() ==> (#[trigger] r.1@[k]).0 == preamble_line_number(
                malformed_lines(lines_of(preamble@))[k],
            ) && r.1@[k].1@ == lines_of(preamble@)[malformed_lines(lines_of(preamble@))[k]],
{
    let lines: Vec<String> = if preamble.unicode_len() == 0 {
        Vec::new()
    } else {
        split_on(preamble, '\n')
    };
    let ghost lv = lines_of(preamble@);
    assert(lines@.map_values(|x: String| x@) =~= lv);
    proof {
        crate::text::lemma_pieces_count(preamble@, '\n', 0, 0);
        lemma_pieces_utf8(preamble@, '\n', 0, 0);
    }
    let mut fields: Vec<Field> = Vec::new();
    let mut bad: Vec<(usize, String)> = Vec::new();
    let mut k: usize = 0;
    while k < lines.len()
        invariant
            lines@.map_values(|x: String| x@) == lv,
            lv.len() <= preamble@.len() + 1,
            preamble@.len() + 2 <= usize::MAX,
            forall|j: int| 0 <= j < lv.len() ==> utf8_len(#[trigger] lv[j]) <= usize::MAX,
            k <= lines@.len(),
            fields@.len() == field_lines(lv.take(k as int)).len(),
            forall|j: int| 0 <= j < fields@.len() ==> field_wf(#[trigger] fields@[j]),
            forall|j: int|
                0 <= j < fields@.len() ==> field_of(
                    #[trigger] fields@[j],
                    lv[field_lines(lv.take(k as int))[j]],
                    preamble_line_number(field_lines(lv.take(k as int))[j]),
                ),
            bad@.len() == malformed_lines(lv.take(k as int)).len(),
            forall|j: int|
                0 <= j < bad@.len() ==> (#[trigger] bad@[j]).0 == preamble_line_number(
                    malformed_lines(lv.take(k as int))[j],
                ) && bad@[j].1@ == lv[malformed_lines(lv.take(k as int))[j]],
        decreases lines.len() - k,
    {
        assert(lv.take(k + 1).drop_last() =~= lv.take(k as int));
        assert(lv.take(k + 1).last() == lv[k as int]);
        assert(lines@[k as int]@ == lv[k as int]);
        proof {
            lemma_field_lines_bounded(lv.take(k as int));
        }
        match parse_field(&lines[k], k + 2) {
            Some(f) => {
                fields.push(f);
            },
            None => {
                bad.push((k + 2, lines[k].clone()));
            },
        }
        k = k + 1;
    }
    assert(lv.take(k as int) =~= lv);
    (fields, bad)
}

/// Index of the first field named `name`.
pub fn field_index(fields: &Vec<Field>, name: &str) -> (r: Option<usize>)
    ensures
        r matches Some(i) ==> i < fields@.len() && fields@[i as int].name@ == name@ && forall|j: int|
            0 <= j < i ==> (#[trigger] fields@[j]).name@ != name@,
        r is None ==> forall|j: int| 0 <= j < fields@.len() ==> (#[trigger] fields@[j]).name@ != name@,
{
    let mut i: usize = 0;
    while i < fields.len()
        invariant
            i <= fields@.len(),
            forall|j: int| 0 <= j < i ==> (#[trigger] fields@[j]).name@ != name@,
        decreases fields.len() - i,
    {
        if crate::text::str_eq(fields[i].name.as_str(), name) {
            return Some(i);
        }
        i = i + 1;
    }
    None
}

/// The character at `k` starts at byte 3 and is a carriage return.
pub open spec fn cr_at_byte_three(text: Seq<char>, k: int) -> bool {
    0 <= k < text.len() && utf8_len(text.take(k)) == 3 && text[k] == '\r'
}

/// The diagnostic for a document whose first line is wrong carries a hint on
/// line endings exactly when the text's fourth byte is a carriage return.
pub open spec fn wants_cr_hint(text: Seq<char>) -> bool {
    exists|k: int| #[trigger] cr_at_byte_three(text, k)
}

/// The first line of a text, without its line ending.
pub open spec fn first_line(text: Seq<char>) -> Seq<char> {
    match index_from(text, '\n', 0) {
        Some(k) => if k > 0 && text[k - 1] == '\r' {
            text.take(k - 1)
        } else {
            text.take(k)
        },
        None => text,
    }
}

/// What reading `text` from `origin` reports: for wrong fences, one error
/// whose message says which fence, with the first line and the line-ending
/// hint where a wrong first line is concerned; otherwise one error per line
/// of the preamble that holds no field, at that line.
pub open spec fn process_reports(origin: Option<String>, text: Seq<char>, r: Seq<Diagnostic>) -> bool {
    match spec_split(text) {
        Err(SplitError::MissingEnd) => {
            &&& r.len() == 1
            &&& r[0].level == Level::Error
            &&& r[0].rule is None
            &&& r[0].message@ == "preamble must be followed by a line containing `---` exactly"@
            &&& r[0].slices@.len() == 0
            &&& r[0].footer@.len() == 0
        },
        Err(_) => {
            &&& r.len() == 1
            &&& r[0].level == Level::Error
            &&& r[0].rule is None
            &&& r[0].message@ == "first line must be `---` exactly"@
            &&& r[0].slices@.len() == 1
            &&& r[0].slices@[0].line_start == 1
            &&& r[0].slices@[0].origin == origin
            &&& r[0].slices@[0].source@ == first_line(text)
            &&& r[0].slices@[0].annotations@.len() == 0
            &&& (r[0].footer@.len() == 1 <==> wants_cr_hint(text))
            &&& r[0].footer@.len() <= 1
            &&& r[0].footer@.len() == 1 ==> r[0].footer@[0]@
                == "found a carriage return (CR), use Unix-style line endings (LF) instead"@
        },
        Ok((p, _)) => {
            let mal = malformed_lines(lines_of(p));
            &&& r.len() == mal.len()
            &&& forall|k: int|
                0 <= k < r.len() ==> {
                    &&& (#[trigger] r[k]).level == Level::Error
                    &&& r[k].rule is None
                    &&& r[k].message@ == "preamble line must be of the form `name: value`"@
                    &&& r[k].slices@.len() == 1
                    &&& r[k].slices@[0].line_start == preamble_line_number(mal[k])
                    &&& r[k].slices@[0].source@ == lines_of(p)[mal[k]]
                    &&& r[k].slices@[0].origin == origin
                }
        },
    }
}

proof fn lemma_utf8_len_grows(s: Seq<char>, j: int, k: int)
    requires
        0 <= j < k <= s.len(),
    ensures
        utf8_len(s.take(j)) < utf8_len(s.take(k)),
    decreases k,
{
    assert(s.take(k).drop_last() =~= s.take(k - 1));
    if j < k - 1 {
        lemma_utf8_len_grows(s, j, k - 1);
    }
}

/// Whether the fourth byte of the text is a carriage return.
fn fourth_byte_is_cr(text: &str) -> (r: bool)
    ensures
        r == wants_cr_hint(text@),
{
    let len = text.unicode_len();
    let mut k: usize = 0;
    let mut b: usize = 0;
    assert(text@.take(0) =~= Seq::<char>::empty());
    while k < len && b < 3
        invariant
            len == text@.len(),
            k <= len,
            k <= b,
            b == utf8_len(text@.take(k as int)),
            forall|j: int| 0 <= j < k ==> utf8_len(text@.take(j)) < 3,
        decreases len - k,
    {
        let c = text.get_char(k);
        let w: usize = if (c as u32) < 0x80 {
            1
        } else if (c as u32) < 0x800 {
            2
        } else if (c as u32) < 0x10000 {
            3
        } else {
            4
        };
        assert(text@.take(k + 1).drop_last() =~= text@.take(k as int));
        b = b + w;
        k = k + 1;
    }
    let r = k < len && b == 3 && text.get_char(k) == '\r';
    proof {
        if r {
            assert(cr_at_byte_three(text@, k as int));
        } else {
            assert forall|j: int| !cr_at_byte_three(text@, j) by {
                if 0 <= j < text@.len() && j > k {
                    lemma_utf8_len_grows(text@, k as int, j);
                }
            }
        }
    }
    r
}

/// The first line of a text.
fn first_line_of(text: &str) -> (r: String)
    ensures
        r@ == first_line(text@),
{
    match find_char(text, '\n') {
        Some(k) => {
            if k > 0 && text.get_char(k - 1) == '\r' {
                String::from_str(text.substring_char(0, k - 1))
            } else {
                String::from_str(text.substring_char(0, k))
            }
        },
        None => String::from_str(text),
    }
}

/// The preamble text of a document that splits.
pub open spec fn spec_split_preamble(text: Seq<char>) -> Seq<char> {
    match spec_split(text) {
        Ok((p, _)) => p,
        Err(_) => seq![],
    }
}

/// `d` is what `text`, read from `origin`, parses to.
pub open spec fn parsed_as(d: Document, origin: Option<String>, text: Seq<char>) -> bool {
    &&& spec_split(text) matches Ok((p, b))
    &&& d.preamble@ == p
    &&& d.body@ == b
    &&& d.text@ == text
    &&& d.origin == origin
    &&& doc_wf(d)
    &&& arena_wf(d.nodes@)
    &&& node_views(d.nodes@) == markdown_nodes(b)
    &&& lines_match(d.nodes@, d.lines@, p)
    &&& fields_match(d.fields@, p)
}

pub open spec fn is_split_failure(text: Seq<char>) -> bool {
    spec_split(text) is Err
}

pub(crate) fn copy_origin(origin: &Option<String>) -> (r: Option<String>)
    ensures
        r == *origin,
{
    match origin {
        Some(s) => Some(s.clone()),
        None => None,
    }
}

fn single_slice(origin: &Option<String>, line_start: usize, source: String) -> (r: Vec<Slice>)
    ensures
        r@.len() == 1,
        r@[0].line_start == line_start,
        r@[0].source == source,
        r@[0].origin == *origin,
        r@[0].annotations@.len() == 0,
{
    let mut v: Vec<Slice> = Vec::new();
    v.push(Slice { origin: copy_origin(origin), line_start, source, annotations: Vec::new() });
    v
}

fn plain_error(message: &str, slices: Vec<Slice>, footer: Vec<String>) -> (r: Diagnostic)
    ensures
        r.level == Level::Error,
        r.rule is None,
        r.message@ == message@,
        r.slices == slices,
        r.footer == footer,
{
    Diagnostic { level: Level::Error, rule: None, message: String::from_str(message), slices, footer }
}

/// Reads one document: splits off its preamble, parses the fields, and
/// reports what is malformed.
///
/// A document whose fences are wrong gives no document and exactly one
/// diagnostic. Otherwise each line of the preamble that holds no field gives
/// one diagnostic, anchored at that line, and the other fields are kept.
pub fn process(origin: &Option<String>, text: &str) -> (r: (Option<Document>, Vec<Diagnostic>))
    requires
        utf8_len(text@) + 3 <= usize::MAX,
    ensures
        is_split_failure(text@) <==> r.0 is None,
        process_reports(*origin, text@, r.1@),
        r.0 matches Some(d) ==> parsed_as(d, *origin, text@),
{
    proof {
        lemma_utf8_at_least_len(text@);
    }
    let mut diags: Vec<Diagnostic> = Vec::new();
    match split_preamble(text) {
        Err(SplitError::MissingEnd) => {
            diags.push(
                plain_error(
                    "preamble must be followed by a line containing `---` exactly",
                    Vec::new(),
                    Vec::new(),
                ),
            );
            (None, diags)
        },
        Err(_) => {
            let first = first_line_of(text);
            let mut footer: Vec<String> = Vec::new();
            if fourth_byte_is_cr(text) {
                footer.push(
                    String::from_str(
                        "found a carriage return (CR), use Unix-style line endings (LF) instead",
                    ),
                );
            }
            diags.push(plain_error("first line must be `---` exactly", single_slice(origin, 1, first), footer));
            (None, diags)
        },
        Ok((p, b)) => {
            proof {
                crate::preamble::lemma_first_fence_is_fence(text@, 4);
                let j = crate::preamble::first_fence(text@, 4)->Some_0;
                lemma_utf8_subrange(text@, 4, crate::preamble::preamble_end(j));
            }
            let (fields, bad) = parse_fields(p.as_str());
            let ghost mal = malformed_lines(lines_of(p@));
            let mut k: usize = 0;
            while k < bad.len()
                invariant
                    k <= bad@.len(),
                    bad@.len() == mal.len(),
                    forall|j: int|
                        0 <= j < bad@.len() ==> (#[trigger] bad@[j]).0 == preamble_line_number(mal[j]) && bad@[j].1@
                            == lines_of(p@)[mal[j]],
                    diags@.len() == k,
                    forall|j: int|
                        0 <= j < k ==> {
                            &&& (#[trigger] diags@[j]).level == Level::Error
                            &&& diags@[j].rule is None
                            &&& diags@[j].message@ == "preamble line must be of the form `name: value`"@
                            &&& diags@[j].slices@.len() == 1
                            &&& diags@[j].slices@[0].line_start == bad@[j].0
                            &&& diags@[j].slices@[0].source@ == bad@[j].1@
                            &&& diags@[j].slices@[0].origin == *origin
                        },
                decreases bad.len() - k,
            {
                let slices = single_slice(origin, bad[k].0, bad[k].1.clone());
                diags.push(plain_error("preamble line must be of the form `name: value`", slices, Vec::new()));
                k = k + 1;
            }
            let (nodes, lines) = body_tree(b.as_str(), p.as_str());
            let doc = Document {
                origin: copy_origin(origin),
                fields,
                preamble: p,
                body: b,
                text: String::from_str(text),
                nodes,
                lines,
            };
            (Some(doc), diags)
        },
    }
}

} // verus!
