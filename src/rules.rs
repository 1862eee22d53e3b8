use vstd::prelude::*;

use crate::diagnostic::{Annotation, Diagnostic, Level, Slice};
use crate::document::{copy_origin, doc_wf, field_index, field_wf, Document, Field};
use crate::text::{lemma_utf8_concat, lemma_utf8_subrange, utf8_len, utf8_len_of, utf8_width};
use crate::text::{
    comma_pieces, parse_u64, parse_u64_spec, pieces_from, sorted_insert, split_on, str_eq, strictly_sorted, trim,
    trim_str, views,
};

verus! {

pub open spec fn digit_seq(d: nat) -> Seq<char> {
    if d == 0 {
        "0"@
    } else if d == 1 {
        "1"@
    } else if d == 2 {
        "2"@
    } else if d == 3 {
        "3"@
    } else if d == 4 {
        "4"@
    } else if d == 5 {
        "5"@
    } else if d == 6 {
        "6"@
    } else if d == 7 {
        "7"@
    } else if d == 8 {
        "8"@
    } else {
        "9"@
    }
}

/// Decimal digits of `n`, most significant first.
pub open spec fn decimal(n: nat) -> Seq<char>
    decreases n,
{
    if n < 10 {
        digit_seq(n)
    } else {
        decimal(n / 10) + digit_seq(n % 10)
    }
}

/// Zeros that pad a number to four digits.
pub open spec fn padding(n: nat) -> Seq<char> {
    if n < 10 {
        "000"@
    } else if n < 100 {
        "00"@
    } else if n < 1000 {
        "0"@
    } else {
        ""@
    }
}

/// File name of the document with number `n`: `xgov-` and the number,
/// zero-padded to four digits, then `.md`.
pub open spec fn file_name(n: nat) -> Seq<char> {
    "xgov-"@ + padding(n) + decimal(n) + ".md"@
}

fn digit_str(d: u64) -> (r: &'static str)
    requires
        d < 10,
    ensures
        r@ == digit_seq(d as nat),
{
    if d == 0 {
        "0"
    } else if d == 1 {
        "1"
    } else if d == 2 {
        "2"
    } else if d == 3 {
        "3"
    } else if d == 4 {
        "4"
    } else if d == 5 {
        "5"
    } else if d == 6 {
        "6"
    } else if d == 7 {
        "7"
    } else if d == 8 {
        "8"
    } else {
        "9"
    }
}

fn write_decimal(n: u64, out: &mut String)
    ensures
        final(out)@ == old(out)@ + decimal(n as nat),
    decreases n,
{
    if n >= 10 {
        write_decimal(n / 10, out);
    }
    out.append(digit_str(n % 10));
    assert(final(out)@ =~= old(out)@ + decimal(n as nat));
}

/// The file name of the document with number `n`.
pub fn document_file_name(n: u64) -> (r: String)
    ensures
        r@ == file_name(n as nat),
{
    let mut r = String::from_str("xgov-");
    if n < 10 {
        r.append("000");
    } else if n < 100 {
        r.append("00");
    } else if n < 1000 {
        r.append("0");
    } else {
        r.append("");
    }
    write_decimal(n, &mut r);
    r.append(".md");
    assert(r@ =~= file_name(n as nat));
    r
}

/// Index of the first field named `name`.
pub open spec fn first_named(fields: Seq<Field>, name: Seq<char>) -> Option<int>
    decreases fields.len(),
{
    if fields.len() == 0 {
        None
    } else {
        match first_named(fields.drop_last(), name) {
            Some(i) => Some(i),
            None => if fields.last().name@ == name {
                Some(fields.len() - 1)
            } else {
                None
            },
        }
    }
}

proof fn lemma_first_named(fields: Seq<Field>, name: Seq<char>, r: Option<int>)
    requires
        r matches Some(i) ==> 0 <= i < fields.len() && fields[i].name@ == name && forall|j: int|
            0 <= j < i ==> (#[trigger] fields[j]).name@ != name,
        r is None ==> forall|j: int| 0 <= j < fields.len() ==> (#[trigger] fields[j]).name@ != name,
    ensures
        first_named(fields, name) == r,
    decreases fields.len(),
{
    if fields.len() > 0 {
        let pre = fields.drop_last();
        match r {
            Some(i) => {
                if i < fields.len() - 1 {
                    lemma_first_named(pre, name, Some(i));
                } else {
                    lemma_first_named(pre, name, None);
                }
            },
            None => {
                lemma_first_named(pre, name, None);
            },
        }
    }
}

/// Index of the first field named `name`, as `first_named` gives it.
pub fn find_field(fields: &Vec<Field>, name: &str) -> (r: Option<usize>)
    ensures
        r matches Some(i) ==> first_named(fields@, name@) == Some(i as int) && i < fields@.len(),
        r is None ==> first_named(fields@, name@) is None,
{
    let r = field_index(fields, name);
    proof {
        match r {
            Some(i) => lemma_first_named(fields@, name@, Some(i as int)),
            None => lemma_first_named(fields@, name@, None),
        }
    }
    r
}

/// The group holds the label.
pub open spec fn group_has(g: Vec<String>, label: Seq<char>) -> bool {
    exists|k: int| 0 <= k < g@.len() && (#[trigger] g@[k])@ == label
}

/// Tier of a status label: the 1-based position of the last group that
/// holds it, 0 where none does.
pub open spec fn tier_of(flow: Seq<Vec<String>>, label: Seq<char>) -> nat
    decreases flow.len(),
{
    if flow.len() == 0 {
        0
    } else if group_has(flow.last(), label) {
        flow.len()
    } else {
        tier_of(flow.drop_last(), label)
    }
}

/// Tier of a document: that of its status field, 0 if it has none.
pub open spec fn doc_tier(flow: Seq<Vec<String>>, status: Seq<char>, doc: Document) -> nat {
    match first_named(doc.fields@, status) {
        Some(i) => tier_of(flow, doc.fields@[i].value@),
        None => 0,
    }
}

/// Numbers of the documents that a list of references names, in order;
/// pieces that are not numbers are left out.
pub open spec fn referenced(pieces: Seq<Seq<char>>) -> Seq<u64>
    decreases pieces.len(),
{
    if pieces.len() == 0 {
        seq![]
    } else {
        let pre = referenced(pieces.drop_last());
        match parse_u64_spec(trim(pieces.last())) {
            Some(n) => pre.push(n),
            None => pre,
        }
    }
}

/// The file names that a document's reference field asks for.
pub open spec fn requested_names(references: Seq<char>, doc: Document) -> Seq<Seq<char>> {
    match first_named(doc.fields@, references) {
        None => seq![],
        Some(i) => referenced(comma_pieces(doc.fields@[i].raw_value@)).map_values(|n: u64| file_name(n as nat)),
    }
}

/// A document resolved by path: its parsed form, or why it could not be had.
#[derive(Debug)]
pub struct Resolved {
    pub path: String,
    pub outcome: Result<Document, String>,
}

/// Index of the first entry for `path`.
pub open spec fn lookup(ext: Seq<Resolved>, path: Seq<char>) -> Option<int>
    decreases ext.len(),
{
    if ext.len() == 0 {
        None
    } else {
        match lookup(ext.drop_last(), path) {
            Some(i) => Some(i),
            None => if ext.last().path@ == path {
                Some(ext.len() - 1)
            } else {
                None
            },
        }
    }
}

/// The document found at `path`, if it was fetched and parsed.
pub open spec fn found(ext: Seq<Resolved>, path: Seq<char>) -> Option<Document> {
    match lookup(ext, path) {
        Some(i) => match ext[i].outcome {
            Ok(d) => Some(d),
            Err(_) => None,
        },
        None => None,
    }
}

/// Byte offset of piece `k` within the text that `pieces` were split from
/// at one-byte separators.
pub open spec fn piece_start(pieces: Seq<Seq<char>>, k: int) -> int
    decreases k,
{
    if k <= 0 {
        0
    } else {
        piece_start(pieces, k - 1) + utf8_len(pieces[k - 1]) + 1
    }
}

/// Byte range, within the field's line, of piece `k`; `name_len` is the
/// byte length of the field's name.
pub open spec fn piece_range(pieces: Seq<Seq<char>>, name_len: int, k: int) -> (int, int) {
    let st = name_len + 1 + piece_start(pieces, k);
    (st, st + utf8_len(pieces[k]))
}

/// Byte ranges of the first `k` references whose documents could not be had.
pub open spec fn unreadable_ranges(
    ext: Seq<Resolved>,
    base: Seq<char>,
    pieces: Seq<Seq<char>>,
    name_len: int,
    k: int,
) -> Seq<(int, int)>
    decreases k,
{
    if k <= 0 {
        seq![]
    } else {
        let pre = unreadable_ranges(ext, base, pieces, name_len, k - 1);
        if is_unreadable(ext, base, pieces[k - 1]) {
            pre.push(piece_range(pieces, name_len, k - 1))
        } else {
            pre
        }
    }
}

/// A reference that resolved to a document of a lower tier than `mine`.
pub open spec fn is_unstable(
    flow: Seq<Vec<String>>,
    status: Seq<char>,
    mine: nat,
    ext: Seq<Resolved>,
    base: Seq<char>,
    piece: Seq<char>,
) -> bool {
    &&& parse_u64_spec(trim(piece)) matches Some(n)
    &&& found(ext, base + file_name(n as nat)) matches Some(d)
    &&& doc_tier(flow, status, d) < mine
}

/// A reference whose document could not be had.
pub open spec fn is_unreadable(ext: Seq<Resolved>, base: Seq<char>, piece: Seq<char>) -> bool {
    &&& parse_u64_spec(trim(piece)) matches Some(n)
    &&& found(ext, base + file_name(n as nat)) is None
}

/// Byte ranges, within the field's line, of the first `k` references that
/// are flagged as less advanced; `name_len` is the byte length of the
/// field's name.
pub open spec fn unstable_ranges(
    flow: Seq<Vec<String>>,
    status: Seq<char>,
    mine: nat,
    ext: Seq<Resolved>,
    base: Seq<char>,
    pieces: Seq<Seq<char>>,
    name_len: int,
    k: int,
) -> Seq<(int, int)>
    decreases k,
{
    if k <= 0 {
        seq![]
    } else {
        let pre = unstable_ranges(flow, status, mine, ext, base, pieces, name_len, k - 1);
        if is_unstable(flow, status, mine, ext, base, pieces[k - 1]) {
            pre.push(piece_range(pieces, name_len, k - 1))
        } else {
            pre
        }
    }
}

/// How many of the first `k` references could not be had.
pub open spec fn unreadable_count(ext: Seq<Resolved>, base: Seq<char>, pieces: Seq<Seq<char>>, k: int) -> nat
    decreases k,
{
    if k <= 0 {
        0
    } else {
        unreadable_count(ext, base, pieces, k - 1) + if is_unreadable(ext, base, pieces[k - 1]) {
            1nat
        } else {
            0nat
        }
    }
}

/// Requires that each referenced document be at least as advanced as the
/// referring one.
///
/// `references` names the field that lists referenced document numbers,
/// `status` the field that holds a document's status, and `flow` the tiers,
/// each a group of equivalent status labels, least advanced first.
#[derive(Debug, Clone)]
pub struct RequiresStatus {
    pub references: String,
    pub status: String,
    pub flow: Vec<Vec<String>>,
}

/// Requires that a field hold an email address.
#[derive(Debug, Clone)]
pub struct Email(pub String);

fn group_contains(g: &Vec<String>, label: &str) -> (r: bool)
    ensures
        r == group_has(*g, label@),
{
    let mut k: usize = 0;
    while k < g.len()
        invariant
            k <= g@.len(),
            forall|j: int| 0 <= j < k ==> (#[trigger] g@[j])@ != label@,
        decreases g.len() - k,
    {
        if str_eq(g[k].as_str(), label) {
            return true;
        }
        k = k + 1;
    }
    false
}

/// Tier of a status label under `flow`.
pub fn label_tier(flow: &Vec<Vec<String>>, label: &str) -> (r: usize)
    ensures
        r == tier_of(flow@, label@),
{
    let mut i: usize = flow.len();
    assert(flow@.take(i as int) =~= flow@);
    while i > 0
        invariant
            i <= flow@.len(),
            tier_of(flow@, label@) == tier_of(flow@.take(i as int), label@),
        decreases i,
    {
        assert(flow@.take(i as int).drop_last() =~= flow@.take(i - 1));
        if group_contains(&flow[i - 1], label) {
            return i;
        }
        i = i - 1;
    }
    0
}

/// Finds the entry for `path`.
pub fn find_resolved(ext: &Vec<Resolved>, path: &str) -> (r: Option<usize>)
    ensures
        r matches Some(i) ==> lookup(ext@, path@) == Some(i as int) && i < ext@.len(),
        r is None ==> lookup(ext@, path@) is None,
{
    let mut i: usize = 0;
    while i < ext.len()
        invariant
            i <= ext@.len(),
            lookup(ext@.take(i as int), path@) is None,
        decreases ext.len() - i,
    {
        assert(ext@.take(i + 1).drop_last() =~= ext@.take(i as int));
        if str_eq(ext[i].path.as_str(), path) {
            proof {
                lemma_lookup_prefix(ext@, path@, i + 1);
            }
            return Some(i);
        }
        i = i + 1;
    }
    assert(ext@.take(i as int) =~= ext@);
    None
}

proof fn lemma_lookup_prefix(ext: Seq<Resolved>, path: Seq<char>, k: int)
    requires
        0 < k <= ext.len(),
        lookup(ext.take(k), path) is Some,
    ensures
        lookup(ext, path) == lookup(ext.take(k), path),
    decreases ext.len() - k,
{
    if k < ext.len() {
        assert(ext.take(k + 1).drop_last() =~= ext.take(k));
        lemma_lookup_prefix(ext, path, k + 1);
    } else {
        assert(ext.take(k) =~= ext);
    }
}

/// The ranges that annotations cover.
pub open spec fn ranges_of(a: Seq<Annotation>) -> Seq<(int, int)> {
    a.map_values(|x: Annotation| (x.start as int, x.end as int))
}

/// `d` is an error of rule `slug` with one slice, at document line `line`.
pub open spec fn reports(d: Diagnostic, slug: Seq<char>, f: Field, origin: Option<String>) -> bool {
    &&& d.level == Level::Error
    &&& d.rule matches Some(s) && s@ == slug
    &&& d.slices@.len() == 1
    &&& d.slices@[0].line_start == f.line
    &&& d.slices@[0].origin == origin
    &&& d.slices@[0].source == f.source
}

/// Every annotation carries `label`.
pub open spec fn labelled(a: Seq<Annotation>, label: Seq<char>) -> bool {
    forall|i: int| 0 <= i < a.len() ==> (#[trigger] a[i]).label@ == label
}

/// Why a reference's document could not be had.
pub open spec fn unreadable_cause(ext: Seq<Resolved>, path: Seq<char>) -> Seq<char> {
    match lookup(ext, path) {
        Some(i) => match ext[i].outcome {
            Err(e) => e@,
            Ok(_) => ""@,
        },
        None => "it was not fetched"@,
    }
}

/// Message for a reference whose document could not be had.
pub open spec fn unreadable_message(ext: Seq<Resolved>, base: Seq<char>, piece: Seq<char>) -> Seq<char> {
    let name = file_name(parse_u64_spec(trim(piece))->Some_0 as nat);
    "unable to read file `"@ + name + "`: "@ + unreadable_cause(ext, base + name)
}

/// Messages for the first `k` references whose documents could not be had.
pub open spec fn unreadable_messages(ext: Seq<Resolved>, base: Seq<char>, pieces: Seq<Seq<char>>, k: int) -> Seq<
    Seq<char>,
>
    decreases k,
{
    if k <= 0 {
        seq![]
    } else {
        let pre = unreadable_messages(ext, base, pieces, k - 1);
        if is_unreadable(ext, base, pieces[k - 1]) {
            pre.push(unreadable_message(ext, base, pieces[k - 1]))
        } else {
            pre
        }
    }
}

/// Tier of the document a reference resolves to, if it does.
pub open spec fn resolved_tier(
    flow: Seq<Vec<String>>,
    status: Seq<char>,
    ext: Seq<Resolved>,
    base: Seq<char>,
    piece: Seq<char>,
) -> Option<nat> {
    match parse_u64_spec(trim(piece)) {
        Some(n) => match found(ext, base + file_name(n as nat)) {
            Some(d) => Some(doc_tier(flow, status, d)),
            None => None,
        },
        None => None,
    }
}

pub open spec fn lower(m: nat, t: Option<nat>) -> nat {
    match t {
        Some(t) => if t < m {
            t
        } else {
            m
        },
        None => m,
    }
}

/// Least tier among the documents that the first `k` references resolve
/// to; `usize::MAX` if none resolves.
pub open spec fn min_tier(
    flow: Seq<Vec<String>>,
    status: Seq<char>,
    ext: Seq<Resolved>,
    base: Seq<char>,
    pieces: Seq<Seq<char>>,
    k: int,
) -> nat
    decreases k,
{
    if k <= 0 {
        usize::MAX as nat
    } else {
        lower(min_tier(flow, status, ext, base, pieces, k - 1), resolved_tier(flow, status, ext, base, pieces[k - 1]))
    }
}

/// Labels joined as "a`, `b`, `c".
pub open spec fn join_labels(c: Seq<Seq<char>>) -> Seq<char>
    decreases c.len(),
{
    if c.len() == 0 {
        seq![]
    } else if c.len() == 1 {
        c[0]
    } else {
        join_labels(c.drop_last()) + "`, `"@ + c.last()
    }
}

/// The hint listing the status labels that a document may have.
pub open spec fn hint_text(status: Seq<char>, c: Seq<Seq<char>>) -> Seq<char> {
    "valid `"@ + status + "` values for this proposal are: `"@ + join_labels(c) + "`"@
}

/// The footer lists, sorted and each once, the labels of tier at most `m`,
/// and is empty when there are none.
pub open spec fn footer_holds(flow: Seq<Vec<String>>, status: Seq<char>, m: nat, footer: Seq<String>) -> bool {
    &&& footer.len() <= 1
    &&& (footer.len() == 1 <==> exists|x: Seq<char>| #[trigger] in_flow(flow, x) && tier_of(flow, x) <= m)
    &&& footer.len() == 1 ==> exists|c: Seq<Seq<char>>|
        #[trigger] hint_text(status, c) == footer[0]@ && strictly_sorted(c) && forall|x: Seq<char>|
            c.contains(x) <==> (in_flow(flow, x) && tier_of(flow, x) <= m)
}

/// A diagnostic about an unreadable reference: one annotation, labelled
/// "required from here".
pub open spec fn unreadable_shape(d: Diagnostic) -> bool {
    &&& d.slices@.len() == 1
    &&& d.slices@[0].annotations@.len() == 1
    &&& d.slices@[0].annotations@[0].label@ == "required from here"@
}

fn one_slice(origin: &Option<String>, field: &Field, annotations: Vec<Annotation>) -> (r: Vec<Slice>)
    ensures
        r@.len() == 1,
        r@[0].line_start == field.line,
        r@[0].annotations == annotations,
        r@[0].origin == *origin,
        r@[0].source == field.source,
{
    let mut v: Vec<Slice> = Vec::new();
    v.push(Slice { origin: copy_origin(origin), line_start: field.line, source: field.source.clone(), annotations });
    v
}

fn rule_error(slug: &str, message: String, slices: Vec<Slice>, footer: Vec<String>) -> (r: Diagnostic)
    ensures
        r.level == Level::Error,
        r.rule matches Some(s) && s@ == slug@,
        r.message == message,
        r.slices == slices,
        r.footer == footer,
{
    Diagnostic { level: Level::Error, rule: Some(String::from_str(slug)), message, slices, footer }
}

impl RequiresStatus {
    /// Tier of a document under this rule's flow.
    pub fn tier(&self, doc: &Document) -> (r: usize)
        ensures
            r == doc_tier(self.flow@, self.status@, *doc),
    {
        match find_field(&doc.fields, self.status.as_str()) {
            Some(i) => label_tier(&self.flow, doc.fields[i].value.as_str()),
            None => 0,
        }
    }

    /// File names of the documents that `doc` refers to, in order.
    pub fn find_resources(&self, doc: &Document) -> (r: Vec<String>)
        ensures
            r@.map_values(|x: String| x@) == requested_names(self.references@, *doc),
    {
        let mut out: Vec<String> = Vec::new();
        let i = match find_field(&doc.fields, self.references.as_str()) {
            Some(i) => i,
            None => {
                assert(out@.map_values(|x: String| x@) =~= seq![]);
                return out;
            },
        };
        let pieces = split_on(doc.fields[i].raw_value.as_str(), ',');
        let ghost pv = pieces@.map_values(|x: String| x@);
        let mut k: usize = 0;
        while k < pieces.len()
            invariant
                pv == pieces@.map_values(|x: String| x@),
                k <= pieces@.len(),
                out@.map_values(|x: String| x@) == referenced(pv.take(k as int)).map_values(|n: u64| file_name(n as nat)),
            decreases pieces.len() - k,
        {
            assert(pv.take(k + 1).drop_last() =~= pv.take(k as int));
            assert(pieces@[k as int]@ == pv[k as int]);
            let item = trim_str(pieces[k].as_str());
            match parse_u64(item.as_str()) {
                Some(n) => {
                    let ghost before = out@.map_values(|x: String| x@);
                    out.push(document_file_name(n));
                    assert(out@.map_values(|x: String| x@) =~= before.push(file_name(n as nat)));
                    assert(referenced(pv.take(k + 1)).map_values(|n: u64| file_name(n as nat)) =~= referenced(pv.take(k as int)).map_values(|n: u64| file_name(n as nat)).push(file_name(n as nat)));
                },
                None => {},
            }
            k = k + 1;
        }
        assert(pv.take(k as int) =~= pv);
        out
    }
}

/// The label stands in one of the flow's groups.
pub open spec fn in_flow(flow: Seq<Vec<String>>, label: Seq<char>) -> bool {
    exists|g: int| 0 <= g < flow.len() && group_has(#[trigger] flow[g], label)
}

/// The labels of `flow` whose tier is at most `max`, sorted, each once.
pub fn labels_up_to(flow: &Vec<Vec<String>>, max: usize) -> (r: Vec<String>)
    ensures
        strictly_sorted(views(r@)),
        forall|x: Seq<char>| views(r@).contains(x) <==> (in_flow(flow@, x) && tier_of(flow@, x) <= max),
{
    let mut r: Vec<String> = Vec::new();
    let mut g: usize = 0;
    while g < flow.len()
        invariant
            g <= flow@.len(),
            strictly_sorted(views(r@)),
            forall|x: Seq<char>|
                views(r@).contains(x) <==> ((exists|h: int| 0 <= h < g && group_has(#[trigger] flow@[h], x))
                    && tier_of(flow@, x) <= max),
        decreases flow.len() - g,
    {
        let group = &flow[g];
        let mut k: usize = 0;
        while k < group.len()
            invariant
                g < flow@.len(),
                *group == flow@[g as int],
                k <= group@.len(),
                strictly_sorted(views(r@)),
                forall|x: Seq<char>|
                    views(r@).contains(x) <==> (((exists|h: int| 0 <= h < g && group_has(#[trigger] flow@[h], x))
                        || (exists|j: int| 0 <= j < k && (#[trigger] group@[j])@ == x)) && tier_of(flow@, x) <= max),
            decreases group.len() - k,
        {
            let t = label_tier(flow, group[k].as_str());
            let ghost before = views(r@);
            let ghost lab = group@[k as int]@;
            if t <= max {
                sorted_insert(&mut r, group[k].clone());
            }
            assert forall|x: Seq<char>|
                views(r@).contains(x) <==> (((exists|h: int| 0 <= h < g && group_has(#[trigger] flow@[h], x))
                    || (exists|j: int| 0 <= j < k + 1 && (#[trigger] group@[j])@ == x)) && tier_of(flow@, x) <= max) by {
                if exists|j: int| 0 <= j < k + 1 && (#[trigger] group@[j])@ == x {
                    if !(exists|j: int| 0 <= j < k && (#[trigger] group@[j])@ == x) {
                        let j = choose|j: int| 0 <= j < k + 1 && (#[trigger] group@[j])@ == x;
                        assert(j == k);
                    }
                }
                if x == lab {
                    assert(group@[k as int]@ == x);
                }
            }
            k = k + 1;
        }
        assert forall|x: Seq<char>|
            views(r@).contains(x) <==> ((exists|h: int| 0 <= h < g + 1 && group_has(#[trigger] flow@[h], x))
                && tier_of(flow@, x) <= max) by {
            if exists|h: int| 0 <= h < g + 1 && group_has(#[trigger] flow@[h], x) {
                if !(exists|h: int| 0 <= h < g && group_has(#[trigger] flow@[h], x)) {
                    let h = choose|h: int| 0 <= h < g + 1 && group_has(#[trigger] flow@[h], x);
                    assert(h == g);
                    let j = choose|j: int| 0 <= j < group@.len() && (#[trigger] group@[j])@ == x;
                    assert(group@[j]@ == x);
                }
            }
            if exists|j: int| 0 <= j < group@.len() && (#[trigger] group@[j])@ == x {
                assert(group_has(flow@[g as int], x));
            }
        }
        g = g + 1;
    }
    r
}

/// The status that `doc` declares, as the message quotes it.
pub open spec fn status_shown(rule: RequiresStatus, doc: Document) -> Seq<char> {
    match first_named(doc.fields@, rule.status@) {
        Some(i) => doc.fields@[i].value@,
        None => "<missing>"@,
    }
}

/// Message of the diagnostic that flags less advanced references.
pub open spec fn unstable_message(rule: RequiresStatus, doc: Document) -> Seq<char> {
    "preamble header `"@ + rule.references@ + "` contains items not stable enough for a `"@ + rule.status@
        + "` of `"@ + status_shown(rule, doc) + "`"@
}

/// What the rule reports on `doc`: one diagnostic for each reference whose
/// document could not be had, then, if any referenced document is less
/// advanced than `doc`, one more that flags exactly those references.
pub open spec fn lint_holds(
    rule: RequiresStatus,
    slug: Seq<char>,
    doc: Document,
    base: Seq<char>,
    ext: Seq<Resolved>,
    r: Seq<Diagnostic>,
) -> bool {
    match first_named(doc.fields@, rule.references@) {
        None => r.len() == 0,
        Some(fi) => {
            let f = doc.fields@[fi];
            let pieces = comma_pieces(f.raw_value@);
            let mine = doc_tier(rule.flow@, rule.status@, doc);
            let ranges = unstable_ranges(
                rule.flow@,
                rule.status@,
                mine,
                ext,
                base,
                pieces,
                utf8_len(f.name@) as int,
                pieces.len() as int,
            );
            let bad = unreadable_count(ext, base, pieces, pieces.len() as int);
            let unread = unreadable_ranges(ext, base, pieces, utf8_len(f.name@) as int, pieces.len() as int);
            let msgs = unreadable_messages(ext, base, pieces, pieces.len() as int);
            &&& r.len() == bad + if ranges.len() > 0 {
                1nat
            } else {
                0nat
            }
            &&& forall|k: int| 0 <= k < r.len() ==> reports(#[trigger] r[k], slug, f, doc.origin)
            &&& msgs.len() == bad
            &&& forall|k: int| 0 <= k < bad ==> (#[trigger] r[k]).message@ == msgs[k] && unreadable_shape(r[k])
            &&& unread.len() == bad
            &&& forall|k: int| 0 <= k < bad ==> ranges_of((#[trigger] r[k]).slices@[0].annotations@) == seq![unread[k]]
            &&& ranges.len() > 0 ==> ranges_of(r.last().slices@[0].annotations@) == ranges
            &&& ranges.len() > 0 ==> labelled(r.last().slices@[0].annotations@, "has a less advanced status"@)
            &&& ranges.len() > 0 ==> r.last().message@ == unstable_message(rule, doc)
            &&& ranges.len() > 0 ==> footer_holds(
                rule.flow@,
                rule.status@,
                min_tier(rule.flow@, rule.status@, ext, base, pieces, pieces.len() as int),
                r.last().footer@,
            )
        },
    }
}

impl RequiresStatus {
    /// Checks one reference of the field: reports it if its document could
    /// not be had, and records its range if that document is less advanced.
    fn check_reference(
        &self,
        slug: &str,
        doc: &Document,
        field: &Field,
        base: &str,
        ext: &Vec<Resolved>,
        mine: usize,
        start: usize,
        piece: &str,
        diags: &mut Vec<Diagnostic>,
        anns: &mut Vec<Annotation>,
        min: &mut usize,
    )
        requires
            utf8_len(field.name@) + 1 + start + utf8_len(piece@) <= usize::MAX,
            mine == doc_tier(self.flow@, self.status@, *doc),
        ensures
            is_unreadable(ext@, base@, piece@) ==> final(diags)@.len() == old(diags)@.len() + 1 && reports(
                final(diags)@.last(),
                slug@,
                *field,
                doc.origin,
            ) && final(diags)@.last().message@ == unreadable_message(ext@, base@, piece@) && unreadable_shape(
                final(diags)@.last(),
            ) && ranges_of(final(diags)@.last().slices@[0].annotations@) == seq![
                (utf8_len(field.name@) + 1 + start, utf8_len(field.name@) + 1 + start + utf8_len(piece@)),
            ],
            labelled(old(anns)@, "has a less advanced status"@) ==> labelled(final(anns)@, "has a less advanced status"@),
            *final(min) as nat == lower(*old(min) as nat, resolved_tier(self.flow@, self.status@, ext@, base@, piece@)),
            !is_unreadable(ext@, base@, piece@) ==> final(diags)@.len() == old(diags)@.len(),
            final(diags)@.take(old(diags)@.len() as int) == old(diags)@,
            is_unstable(self.flow@, self.status@, mine as nat, ext@, base@, piece@) ==> ranges_of(final(anns)@)
                == ranges_of(old(anns)@).push(
                (utf8_len(field.name@) + 1 + start, utf8_len(field.name@) + 1 + start + utf8_len(piece@)),
            ),
            !is_unstable(self.flow@, self.status@, mine as nat, ext@, base@, piece@) ==> final(anns)@ == old(anns)@,
    {
        let ghost old_diags = diags@;
        let item = trim_str(piece);
        let n = match parse_u64(item.as_str()) {
            Some(n) => n,
            None => {
                assert(diags@.take(old_diags.len() as int) =~= old_diags);
                return;
            },
        };
        let name = document_file_name(n);
        let mut path = String::from_str(base);
        path.append(name.as_str());
        let name_len = utf8_len_of(field.name.as_str());
        let lo = name_len + 1 + start;
        let hi = lo + utf8_len_of(piece);
        let cause: String = match find_resolved(ext, path.as_str()) {
            Some(i) => match &ext[i].outcome {
                Ok(d) => {
                    let t = self.tier(d);
                    if t < *min {
                        *min = t;
                    }
                    if t < mine {
                        let ghost before = anns@;
                        anns.push(Annotation { start: lo, end: hi, label: String::from_str("has a less advanced status") });
                        assert(ranges_of(anns@) =~= ranges_of(before).push((lo as int, hi as int)));
                    }
                    assert(diags@.take(old_diags.len() as int) =~= old_diags);
                    return;
                },
                Err(e) => e.clone(),
            },
            None => String::from_str("it was not fetched"),
        };
        let mut message = String::from_str("unable to read file `");
        message.append(name.as_str());
        message.append("`: ");
        message.append(cause.as_str());
        let mut anns1: Vec<Annotation> = Vec::new();
        anns1.push(Annotation { start: lo, end: hi, label: String::from_str("required from here") });
        assert(ranges_of(anns1@) =~= seq![(lo as int, hi as int)]);
        diags.push(rule_error(slug, message, one_slice(&doc.origin, field, anns1), Vec::new()));
        assert(diags@.take(old_diags.len() as int) =~= old_diags);
    }
}

impl RequiresStatus {
    /// Checks `doc`'s references against the documents in `ext`; a reference
    /// names the file `base` followed by its document's file name.
    pub fn lint(&self, slug: &str, doc: &Document, base: &str, ext: &Vec<Resolved>) -> (r: Vec<Diagnostic>)
        requires
            doc_wf(*doc),
        ensures
            lint_holds(*self, slug@, *doc, base@, ext@, r@),
    {
        let mut diags: Vec<Diagnostic> = Vec::new();
        let fi = match find_field(&doc.fields, self.references.as_str()) {
            Some(i) => i,
            None => return diags,
        };
        let field = &doc.fields[fi];
        assert(field_wf(*field));
        let mine = self.tier(doc);
        let raw = field.raw_value.as_str();
        let len = raw.unicode_len();
        proof {
            lemma_utf8_concat(field.name@, seq![':']);
            lemma_utf8_concat(field.name@ + seq![':'], raw@);
            assert(utf8_len(seq![':']) == 1) by {
                assert(seq![':'].drop_last() =~= Seq::<char>::empty());
                assert(seq![':'].last() == ':');
                assert((':' as u32) == 58);
                assert(utf8_width(':') == 1);
                assert(utf8_len(Seq::<char>::empty()) == 0);
                assert(utf8_len(seq![':']) == utf8_len(seq![':'].drop_last()) + utf8_width(seq![':'].last()));
            }
        }
        let name_len = utf8_len_of(field.name.as_str());
        let ghost pv = comma_pieces(raw@);
        let ghost nl = utf8_len(field.name@) as int;
        let mut bst: usize = 0;
        assert(raw@.take(0) =~= Seq::<char>::empty());
        assert(raw@.subrange(0, 0) =~= Seq::<char>::empty());
        let mut anns: Vec<Annotation> = Vec::new();
        let mut min: usize = usize::MAX;
        let mut st: usize = 0;
        let mut i: usize = 0;
        let mut k: usize = 0;
        assert(pv.skip(0) =~= pv);
        while i < len
            invariant
                len == raw@.len(),
                raw@ == field.raw_value@,
                name_len == nl,
                nl == utf8_len(field.name@),
                pv == comma_pieces(raw@),
                k <= i,
                nl + 1 + utf8_len(raw@) <= usize::MAX,
                bst + utf8_len(raw@.subrange(st as int, i as int)) == utf8_len(raw@.take(i as int)),
                bst == piece_start(pv, k as int),
                st <= i <= len,
                k <= pv.len(),
                pieces_from(raw@, ',', st as int, i as int) == pv.skip(k as int),
                mine == doc_tier(self.flow@, self.status@, *doc),
                diags@.len() == unreadable_count(ext@, base@, pv, k as int),
                forall|j: int| 0 <= j < diags@.len() ==> reports(#[trigger] diags@[j], slug@, *field, doc.origin),
                unreadable_messages(ext@, base@, pv, k as int).len() == diags@.len(),
                forall|j: int|
                    0 <= j < diags@.len() ==> (#[trigger] diags@[j]).message@ == unreadable_messages(ext@, base@, pv, k as int)[j]
                        && unreadable_shape(diags@[j]),
                unreadable_ranges(ext@, base@, pv, nl, k as int).len() == diags@.len(),
                forall|j: int|
                    0 <= j < diags@.len() ==> ranges_of((#[trigger] diags@[j]).slices@[0].annotations@) == seq![
                        unreadable_ranges(ext@, base@, pv, nl, k as int)[j],
                    ],
                ranges_of(anns@) == unstable_ranges(self.flow@, self.status@, mine as nat, ext@, base@, pv, nl, k as int),
                labelled(anns@, "has a less advanced status"@),
                min as nat == min_tier(self.flow@, self.status@, ext@, base@, pv, k as int),
            decreases len - i,
        {
            proof {
                lemma_utf8_subrange(raw@, i as int, i as int);
            }
            assert(raw@.take(i + 1).drop_last() =~= raw@.take(i as int));
            if raw.get_char(i) == ',' {
                assert((',' as u32) == 44);
                let piece = raw.substring_char(st, i);
                assert(pv.skip(k as int).len() >= 1);
                assert(k < pv.len());
                assert(pv.skip(k as int)[0] == piece@);
                assert(pv[k as int] == piece@);
                assert(pv.skip(k + 1) =~= pv.skip(k as int).drop_first());
                let ghost d0 = diags@;
                self.check_reference(slug, doc, field, base, ext, mine, bst, piece, &mut diags, &mut anns, &mut min);
                assert forall|j: int| 0 <= j < diags@.len() implies reports(#[trigger] diags@[j], slug@, *field, doc.origin)
                    && diags@[j].message@ == unreadable_messages(ext@, base@, pv, k + 1)[j] && unreadable_shape(diags@[j])
                    && ranges_of(diags@[j].slices@[0].annotations@) == seq![unreadable_ranges(ext@, base@, pv, nl, k + 1)[j]] by {
                    if j < d0.len() {
                        assert(diags@.take(d0.len() as int)[j] == d0[j]);
                    }
                }
                let pb = utf8_len_of(piece);
                bst = bst + pb + 1;
                st = i + 1;
                k = k + 1;
                assert(raw@.subrange(st as int, i + 1) =~= Seq::<char>::empty());
            } else {
                assert(raw@.subrange(st as int, i + 1).drop_last() =~= raw@.subrange(st as int, i as int));
            }
            i = i + 1;
        }
        let piece = raw.substring_char(st, len);
        assert(pv.skip(k as int) =~= seq![piece@]);
        assert(pv.skip(k as int).len() >= 1);
        assert(k < pv.len());
        assert(pv.skip(k as int)[0] == piece@);
        assert(pv[k as int] == piece@);
        assert(pv.len() == k + 1) by {
            assert(pv.skip(k as int).len() == 1);
        }
        let ghost d0 = diags@;
        assert(raw@.take(len as int) =~= raw@);
        self.check_reference(slug, doc, field, base, ext, mine, bst, piece, &mut diags, &mut anns, &mut min);
        assert forall|j: int| 0 <= j < diags@.len() implies reports(#[trigger] diags@[j], slug@, *field, doc.origin)
            && diags@[j].message@ == unreadable_messages(ext@, base@, pv, k + 1)[j] && unreadable_shape(diags@[j])
            && ranges_of(diags@[j].slices@[0].annotations@) == seq![unreadable_ranges(ext@, base@, pv, nl, k + 1)[j]] by {
            if j < d0.len() {
                assert(diags@.take(d0.len() as int)[j] == d0[j]);
            }
        }
        let ghost m = min_tier(self.flow@, self.status@, ext@, base@, pv, pv.len() as int);
        assert(min as nat == m);
        if anns.len() > 0 {
            let mut message = String::from_str("preamble header `");
            message.append(self.references.as_str());
            message.append("` contains items not stable enough for a `");
            message.append(self.status.as_str());
            message.append("` of `");
            match find_field(&doc.fields, self.status.as_str()) {
                Some(si) => message.append(doc.fields[si].value.as_str()),
                None => message.append("<missing>"),
            }
            message.append("`");
            assert(message@ =~= unstable_message(*self, *doc));
            let choices = labels_up_to(&self.flow, min);
            let mut footer: Vec<String> = Vec::new();
            if choices.len() > 0 {
                let mut hint = String::from_str("valid `");
                hint.append(self.status.as_str());
                hint.append("` values for this proposal are: `");
                let ghost cv = views(choices@);
                let ghost head = "valid `"@ + self.status@ + "` values for this proposal are: `"@;
                let mut c: usize = 0;
                assert(cv.take(0) =~= Seq::<Seq<char>>::empty());
                while c < choices.len()
                    invariant
                        cv == views(choices@),
                        c <= choices@.len(),
                        hint@ == head + join_labels(cv.take(c as int)),
                    decreases choices.len() - c,
                {
                    assert(cv.take(c + 1).drop_last() =~= cv.take(c as int));
                    assert(cv.take(c + 1).last() == choices@[c as int]@);
                    if c > 0 {
                        hint.append("`, `");
                    }
                    hint.append(choices[c].as_str());
                    c = c + 1;
                    assert(hint@ =~= head + join_labels(cv.take(c as int)));
                }
                hint.append("`");
                assert(cv.take(c as int) =~= cv);
                assert(hint@ =~= hint_text(self.status@, cv));
                footer.push(hint);
                assert(views(choices@).contains(cv[0]));
                assert(in_flow(self.flow@, cv[0]) && tier_of(self.flow@, cv[0]) <= m);
            } else {
                assert forall|x: Seq<char>| !(#[trigger] in_flow(self.flow@, x) && tier_of(self.flow@, x) <= m) by {
                    if in_flow(self.flow@, x) && tier_of(self.flow@, x) <= m {
                        assert(views(choices@).contains(x));
                    }
                }
            }
            assert(footer_holds(self.flow@, self.status@, m, footer@));
            let ghost d1 = diags@;
            diags.push(rule_error(slug, message, one_slice(&doc.origin, field, anns), footer));
            assert forall|j: int| 0 <= j < diags@.len() implies reports(#[trigger] diags@[j], slug@, *field, doc.origin) by {
                if j < d1.len() {
                    assert(diags@[j] == d1[j]);
                }
            }
            assert forall|j: int| 0 <= j < d1.len() implies (#[trigger] diags@[j]).message@ == unreadable_messages(ext@, base@, pv, pv.len() as int)[j]
                && unreadable_shape(diags@[j]) && ranges_of(diags@[j].slices@[0].annotations@) == seq![
                unreadable_ranges(ext@, base@, pv, nl, pv.len() as int)[j],
            ] by {
                assert(diags@[j] == d1[j]);
            }
        }
        diags
    }
}

/// Has the shape of an email address: a first character other than `@`,
/// no `>` after it, and an `@` followed, a character or more later, by a
/// `.` that is not the last character.
pub open spec fn email_shape(s: Seq<char>) -> bool {
    &&& s.len() >= 1
    &&& s[0] != '@'
    &&& forall|k: int| 1 <= k < s.len() ==> #[trigger] s[k] != '>'
    &&& exists|a: int, d: int| 1 <= a && a + 2 <= d && d + 2 <= s.len() && #[trigger] s[a] == '@' && #[trigger] s[d] == '.'
}

/// Relies on `regex::Regex::is_match` with the fixed pattern
/// `^[^@][^>]*@[^>]+\.[^>]+$`, which holds exactly of the texts that
/// `email_shape` describes.
#[verifier::external_body]
fn matches_email_pattern(s: &str) -> (r: bool)
    ensures
        r == email_shape(s@),
{
    regex::Regex::new(r"^[^@][^>]*@[^>]+\.[^>]+$").unwrap().is_match(s)
}

/// What the email rule reports on `doc`: nothing if the field is absent or
/// holds an address, else one diagnostic over the field's value.
pub open spec fn email_holds(rule: Email, slug: Seq<char>, doc: Document, r: Seq<Diagnostic>) -> bool {
    match first_named(doc.fields@, rule.0@) {
        None => r.len() == 0,
        Some(fi) => {
            let f = doc.fields@[fi];
            &&& r.len() == if email_shape(f.value@) {
                0nat
            } else {
                1nat
            }
            &&& r.len() == 1 ==> r[0].message@ == "email must match the expected format"@
            &&& r.len() == 1 ==> labelled(r[0].slices@[0].annotations@, "unrecognized email"@)
            &&& r.len() == 1 ==> r[0].footer@.len() == 1 && r[0].footer@[0]@ == "test@example.com"@
            &&& r.len() == 1 ==> reports(r[0], slug, f, doc.origin) && ranges_of(r[0].slices@[0].annotations@) == seq![
                (utf8_len(f.name@) + 1 as int, utf8_len(f.name@) + 1 + utf8_len(f.raw_value@) as int),
            ]
        },
    }
}

impl Email {
    /// Checks that the field holds an email address.
    pub fn lint(&self, slug: &str, doc: &Document) -> (r: Vec<Diagnostic>)
        requires
            doc_wf(*doc),
        ensures
            email_holds(*self, slug@, *doc, r@),
    {
        let mut diags: Vec<Diagnostic> = Vec::new();
        let fi = match find_field(&doc.fields, self.0.as_str()) {
            Some(i) => i,
            None => return diags,
        };
        let field = &doc.fields[fi];
        assert(field_wf(*field));
        if matches_email_pattern(field.value.as_str()) {
            return diags;
        }
        proof {
            lemma_utf8_concat(field.name@, seq![':']);
            lemma_utf8_concat(field.name@ + seq![':'], field.raw_value@);
            assert(utf8_len(seq![':']) >= 1) by {
                assert(utf8_len(Seq::<char>::empty()) == 0);
                assert(utf8_len(seq![':']) == utf8_len(seq![':'].drop_last()) + utf8_width(seq![':'].last()));
                assert(seq![':'].drop_last() =~= Seq::<char>::empty());
            }
        }
        let name_len = utf8_len_of(field.name.as_str());
        let lo = name_len + 1;
        let hi = lo + utf8_len_of(field.raw_value.as_str());
        let mut anns: Vec<Annotation> = Vec::new();
        anns.push(Annotation { start: lo, end: hi, label: String::from_str("unrecognized email") });
        assert(ranges_of(anns@) =~= seq![(lo as int, hi as int)]);
        let mut footer: Vec<String> = Vec::new();
        footer.push(String::from_str("test@example.com"));
        diags.push(
            rule_error(
                slug,
                String::from_str("email must match the expected format"),
                one_slice(&doc.origin, field, anns),
                footer,
            ),
        );
        diags
    }
}

/// A document whose reference field names exactly one document, found in
/// `ext`, gets from the rule exactly one diagnostic flagging that reference
/// when the referenced document's tier is below its own, and none otherwise.
pub proof fn law_single_reference_tier(
    rule: RequiresStatus,
    slug: Seq<char>,
    doc: Document,
    base: Seq<char>,
    ext: Seq<Resolved>,
    r: Seq<Diagnostic>,
    n: u64,
    other: Document,
)
    requires
        lint_holds(rule, slug, doc, base, ext, r),
        first_named(doc.fields@, rule.references@) matches Some(fi) && comma_pieces(doc.fields@[fi].raw_value@)
            == seq![doc.fields@[fi].raw_value@],
        first_named(doc.fields@, rule.references@) matches Some(fi) && parse_u64_spec(trim(doc.fields@[fi].raw_value@))
            == Some(n),
        found(ext, base + file_name(n as nat)) == Some(other),
    ensures
        doc_tier(rule.flow@, rule.status@, other) < doc_tier(rule.flow@, rule.status@, doc) ==> {
            let f = doc.fields@[first_named(doc.fields@, rule.references@)->Some_0];
            &&& r.len() == 1
            &&& reports(r[0], slug, f, doc.origin)
            &&& r[0].message@ == unstable_message(rule, doc)
            &&& labelled(r[0].slices@[0].annotations@, "has a less advanced status"@)
            &&& ranges_of(r[0].slices@[0].annotations@) == seq![
                (utf8_len(f.name@) + 1 as int, utf8_len(f.name@) + 1 + utf8_len(f.raw_value@) as int),
            ]
        },
        doc_tier(rule.flow@, rule.status@, other) >= doc_tier(rule.flow@, rule.status@, doc) ==> r.len() == 0,
{
    let fi = first_named(doc.fields@, rule.references@)->Some_0;
    let f = doc.fields@[fi];
    let pieces = comma_pieces(f.raw_value@);
    let mine = doc_tier(rule.flow@, rule.status@, doc);
    let nl = utf8_len(f.name@) as int;
    assert(pieces[0] == f.raw_value@);
    assert(piece_start(pieces, 0) == 0);
    assert(unstable_ranges(rule.flow@, rule.status@, mine, ext, base, pieces, nl, 0) == Seq::<(int, int)>::empty());
    assert(unreadable_count(ext, base, pieces, 0) == 0);
    assert(!is_unreadable(ext, base, pieces[0]));
}

/// A rule of the registry.
#[derive(Debug, Clone)]
pub enum Lint {
    RequiresStatus(RequiresStatus),
    Email(Email),
}

/// The file names that a rule asks for while looking at `doc`.
pub open spec fn lint_requests(l: Lint, doc: Document) -> Seq<Seq<char>> {
    match l {
        Lint::RequiresStatus(r) => requested_names(r.references@, doc),
        Lint::Email(_) => seq![],
    }
}

/// What a rule reports on `doc`.
pub open spec fn lint_reports(
    l: Lint,
    slug: Seq<char>,
    doc: Document,
    base: Seq<char>,
    ext: Seq<Resolved>,
    r: Seq<Diagnostic>,
) -> bool {
    match l {
        Lint::RequiresStatus(rule) => lint_holds(rule, slug, doc, base, ext, r),
        Lint::Email(rule) => email_holds(rule, slug, doc, r),
    }
}

impl Lint {
    /// The file names of the documents this rule needs to check `doc`.
    pub fn find_resources(&self, doc: &Document) -> (r: Vec<String>)
        ensures
            views(r@) == lint_requests(*self, *doc),
    {
        match self {
            Lint::RequiresStatus(rule) => rule.find_resources(doc),
            Lint::Email(_) => {
                let r: Vec<String> = Vec::new();
                assert(views(r@) =~= seq![]);
                r
            },
        }
    }

    /// Checks `doc`, with the documents it refers to in `ext`.
    pub fn lint(&self, slug: &str, doc: &Document, base: &str, ext: &Vec<Resolved>) -> (r: Vec<Diagnostic>)
        requires
            doc_wf(*doc),
        ensures
            lint_reports(*self, slug@, *doc, base@, ext@, r@),
    {
        match self {
            Lint::RequiresStatus(rule) => rule.lint(slug, doc, base, ext),
            Lint::Email(rule) => rule.lint(slug, doc),
        }
    }
}

} // verus!
