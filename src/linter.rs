use vstd::prelude::*;

use crate::diagnostic::Diagnostic;
use crate::document::{field_lines, is_split_failure, parsed_as, preamble_line_number, process, process_reports, Document};
use crate::text::{lines_of, utf8_len};
use crate::rules::{lint_reports, lint_requests, Email, Lint, Resolved};
use crate::text::{sorted_slot, str_eq, strictly_sorted, views};

verus! {

/// A document to check: text given inline, with an optional label, or a
/// file whose text is fetched.
#[derive(Debug, Clone)]
pub enum Source {
    Inline { origin: Option<String>, text: String },
    File(String),
}

/// Why the registry refused a change.
#[derive(Debug, Clone, PartialEq, Eq)]
pub enum RegistryError {
    DuplicateSlug(String),
    UnknownSlug(String),
}

/// Why a run stopped.
#[derive(Debug, Clone, PartialEq, Eq)]
pub enum RunError {
    /// No rule is registered.
    NoLints,
    /// No source was given.
    NoSources,
    /// An inline source asked for another document: it has no directory to
    /// look in.
    SliceFetched { lint: String, origin: Option<String> },
}

/// Rules, each under a unique slug, kept in slug order, and the sources to
/// check.
#[derive(Debug)]
pub struct Linter {
    pub slugs: Vec<String>,
    pub lints: Vec<Lint>,
    pub sources: Vec<Source>,
}

/// Position just past the last `/` of `s`, 0 if it has none.
pub open spec fn dir_end(s: Seq<char>) -> int
    decreases s.len(),
{
    if s.len() == 0 {
        0
    } else if s.last() == '/' {
        s.len() as int
    } else {
        dir_end(s.drop_last())
    }
}

/// The directory part of a path, with its trailing `/`; empty if the path
/// has none.
pub open spec fn dir_prefix(s: Seq<char>) -> Seq<char> {
    s.subrange(0, dir_end(s))
}

/// The directory part of a path.
pub fn directory_of(path: &str) -> (r: String)
    ensures
        r@ == dir_prefix(path@),
{
    let len = path.unicode_len();
    let mut e: usize = len;
    assert(path@.subrange(0, len as int) =~= path@);
    while e > 0 && path.get_char(e - 1) != '/'
        invariant
            e <= len,
            len == path@.len(),
            dir_end(path@) == dir_end(path@.subrange(0, e as int)),
        decreases e,
    {
        assert(path@.subrange(0, e as int).drop_last() =~= path@.subrange(0, e - 1));
        e = e - 1;
    }
    String::from_str(path.substring_char(0, e))
}

/// Label of a source in diagnostics.
pub open spec fn origin_of(s: Source) -> Option<String> {
    match s {
        Source::Inline { origin, .. } => origin,
        Source::File(p) => Some(p),
    }
}

/// Text of a source: its own for an inline one, the fetched text for a file.
pub open spec fn text_of(s: Source, fetched: String) -> Seq<char> {
    match s {
        Source::Inline { text, .. } => text@,
        Source::File(_) => fetched@,
    }
}

/// Directory against which a source's references are resolved.
pub open spec fn base_of(s: Source) -> Seq<char> {
    match s {
        Source::Inline { .. } => seq![],
        Source::File(p) => dir_prefix(p@),
    }
}

/// All file names that the rules ask for while looking at `doc`, rule by rule.
pub open spec fn all_requests(lints: Seq<Lint>, doc: Document) -> Seq<Seq<char>>
    decreases lints.len(),
{
    if lints.len() == 0 {
        seq![]
    } else {
        all_requests(lints.drop_last(), doc) + lint_requests(lints.last(), doc)
    }
}

/// What a run found before fetching: each source's document, if it could
/// be split, and the paths of the documents to fetch, each once.
#[derive(Debug)]
pub struct Discovery {
    pub documents: Vec<Option<Document>>,
    pub paths: Vec<String>,
}

/// What a run reports on one source: the diagnostics of reading it and, if
/// it could be read, those of each rule in slug order.
#[derive(Debug)]
pub struct Report {
    pub document: Option<Document>,
    pub parse: Vec<Diagnostic>,
    pub rules: Vec<Vec<Diagnostic>>,
}

pub open spec fn registered(l: Linter, slug: Seq<char>) -> bool {
    views(l.slugs@).contains(slug)
}

/// What `add_lint` returns for `old`, `slug` and `lint`.
pub open spec fn add_lint_result(old: Linter, slug: Seq<char>, lint: Lint, r: Result<Linter, RegistryError>) -> bool {
    &&& registered(old, slug) <==> r is Err
    &&& r matches Err(e) ==> e matches RegistryError::DuplicateSlug(s) && s@ == slug
    &&& r matches Ok(l) ==> {
        &&& l.wf()
        &&& l.sources == old.sources
        &&& exists|k: int|
            0 <= k <= old.slugs@.len() && views(l.slugs@) == #[trigger] views(old.slugs@).insert(k, slug)
                && l.lints@ == old.lints@.insert(k, lint)
    }
}

fn default_email_lint() -> (r: Lint)
    ensures
        r matches Lint::Email(e) && e.0@ == "email"@,
{
    Lint::Email(Email(String::from_str("email")))
}

/// The rules a new linter starts with, as slug and rule.
pub fn default_lints() -> (r: Vec<(String, Lint)>)
    ensures
        r@.len() == 1,
        r@[0].0@ == "preamble-email"@,
        r@[0].1 matches Lint::Email(e) && e.0@ == "email"@,
{
    let mut v: Vec<(String, Lint)> = Vec::new();
    v.push((String::from_str("preamble-email"), default_email_lint()));
    v
}

impl Linter {
    /// Slugs and rules pair up, and the slugs are sorted without repeats.
    pub open spec fn wf(&self) -> bool {
        &&& self.slugs@.len() == self.lints@.len()
        &&& strictly_sorted(views(self.slugs@))
    }

    /// A linter with the default rules and no sources.
    pub fn new() -> (r: Linter)
        ensures
            r.wf(),
            r.sources@.len() == 0,
            views(r.slugs@) == seq!["preamble-email"@],
    {
        let mut defaults = default_lints();
        let mut l = Linter { slugs: Vec::new(), lints: Vec::new(), sources: Vec::new() };
        let (slug, lint) = defaults.remove(0);
        l.slugs.push(slug);
        l.lints.push(lint);
        assert(views(l.slugs@) =~= seq!["preamble-email"@]);
        l
    }

    /// Registers `lint` under `slug`; fails if the slug is taken.
    pub fn add_lint(self, slug: &str, lint: Lint) -> (r: Result<Linter, RegistryError>)
        requires
            self.wf(),
        ensures
            add_lint_result(self, slug@, lint, r),
    {
        let (k, found) = sorted_slot(&self.slugs, slug);
        if found {
            return Err(RegistryError::DuplicateSlug(String::from_str(slug)));
        }
        let Linter { mut slugs, mut lints, sources } = self;
        let ghost old_views = views(slugs@);
        let ghost old_lints = lints@;
        slugs.insert(k, String::from_str(slug));
        lints.insert(k, lint);
        let l = Linter { slugs, lints, sources };
        assert(views(l.slugs@) =~= old_views.insert(k as int, slug@));
        assert forall|i: int, j: int| 0 <= i < j < views(l.slugs@).len() implies seq_lt_at(views(l.slugs@), i, j) by {
            let nv = views(l.slugs@);
            if i < k && j > k {
                crate::text::lemma_seq_lt_transitive(nv[i], slug@, nv[j]);
            }
        }
        Ok(l)
    }

    /// Removes the rule under `slug`; fails if there is none.
    pub fn remove_lint(self, slug: &str) -> (r: Result<Linter, RegistryError>)
        requires
            self.wf(),
        ensures
            registered(self, slug@) <==> r is Ok,
            r matches Err(e) ==> e matches RegistryError::UnknownSlug(s) && s@ == slug@,
            r matches Ok(l) ==> l.wf() && !registered(l, slug@) && l.sources == self.sources && exists|k: int|
                0 <= k < self.slugs@.len() && views(self.slugs@)[k] == slug@ && views(l.slugs@) == #[trigger] views(
                    self.slugs@,
                ).remove(k) && l.lints@ == self.lints@.remove(k),
    {
        let (k, found) = sorted_slot(&self.slugs, slug);
        if !found {
            return Err(RegistryError::UnknownSlug(String::from_str(slug)));
        }
        let Linter { mut slugs, mut lints, sources } = self;
        let ghost ov = views(slugs@);
        slugs.remove(k);
        lints.remove(k);
        let l = Linter { slugs, lints, sources };
        let ghost nv = views(l.slugs@);
        assert(nv =~= ov.remove(k as int));
        assert forall|i: int, j: int| 0 <= i < j < nv.len() implies seq_lt_at(nv, i, j) by {
            if i >= k {
                assert(seq_lt_at(ov, i + 1, j + 1));
            } else if j >= k {
                assert(seq_lt_at(ov, i, j + 1));
            } else {
                assert(seq_lt_at(ov, i, j));
            }
        }
        assert(!nv.contains(slug@)) by {
            if nv.contains(slug@) {
                let i = choose|i: int| 0 <= i < nv.len() && nv[i] == slug@;
                if i < k {
                    assert(seq_lt_at(ov, i, k as int));
                    crate::text::lemma_seq_lt_irreflexive(slug@);
                } else {
                    assert(seq_lt_at(ov, k as int, i + 1));
                    crate::text::lemma_seq_lt_irreflexive(slug@);
                }
            }
        }
        Ok(l)
    }

    /// Removes every rule.
    pub fn clear_lints(self) -> (r: Linter)
        ensures
            r.wf(),
            r.slugs@.len() == 0,
            r.sources == self.sources,
    {
        let Linter { slugs: _, lints: _, sources } = self;
        let r = Linter { slugs: Vec::new(), lints: Vec::new(), sources };
        assert(views(r.slugs@) =~= seq![]);
        r
    }

    /// Adds a source given inline.
    pub fn check_slice(self, origin: Option<String>, src: String) -> (r: Linter)
        ensures
            r.slugs == self.slugs,
            r.lints == self.lints,
            r.sources@ == self.sources@.push(Source::Inline { origin, text: src }),
    {
        let Linter { slugs, lints, mut sources } = self;
        sources.push(Source::Inline { origin, text: src });
        Linter { slugs, lints, sources }
    }

    /// Adds a source read from the file at `path`.
    pub fn check_file(self, path: String) -> (r: Linter)
        ensures
            r.slugs == self.slugs,
            r.lints == self.lints,
            r.sources@ == self.sources@.push(Source::File(path)),
    {
        let Linter { slugs, lints, mut sources } = self;
        sources.push(Source::File(path));
        Linter { slugs, lints, sources }
    }
}

/// The paths are each a request of some source's document, relative to
/// that source's directory.
pub open spec fn requested_somewhere(l: Linter, docs: Seq<Option<Document>>, p: Seq<char>) -> bool {
    exists|i: int|
        0 <= i < docs.len() && (#[trigger] docs[i] matches Some(d) && requests_path(l, i, d, p))
}

/// One of the rules asks, while looking at `d`, source `i`'s document, for
/// the file at `p`.
pub open spec fn requests_path(l: Linter, i: int, d: Document, p: Seq<char>) -> bool {
    exists|x: Seq<char>| #[trigger] all_requests(l.lints@, d).contains(x) && p == base_of(l.sources@[i]) + x
}

/// Every file that a rule asks for while looking at `doc`, source `i`'s
/// document, is among `paths`; and source `i` is a file.
pub open spec fn covered(l: Linter, i: int, doc: Document, paths: Seq<Seq<char>>) -> bool {
    forall|x: Seq<char>|
        #[trigger] all_requests(l.lints@, doc).contains(x) ==> l.sources@[i] is File && paths.contains(
            base_of(l.sources@[i]) + x,
        )
}

/// Source `i` is inline, reads as `d`, and rule `j` asks for some other
/// document while looking at it.
pub open spec fn inline_request(l: Linter, fetched: Seq<String>, i: int, j: int, d: Document) -> bool {
    &&& 0 <= i < l.sources@.len()
    &&& 0 <= j < l.lints@.len()
    &&& l.sources@[i] is Inline
    &&& parsed_as(d, origin_of(l.sources@[i]), text_of(l.sources@[i], fetched[i]))
    &&& lint_requests(l.lints@[j], d).len() > 0
}

/// What `discover` returns on success.
pub open spec fn discovery_holds(l: Linter, fetched: Seq<String>, d: Discovery) -> bool {
    &&& d.documents@.len() == l.sources@.len()
    &&& forall|i: int|
        0 <= i < l.sources@.len() ==> (#[trigger] d.documents@[i] is None <==> is_split_failure(
            text_of(l.sources@[i], fetched[i]),
        ))
    &&& forall|i: int|
        0 <= i < l.sources@.len() ==> (#[trigger] d.documents@[i] matches Some(doc) ==> parsed_as(
            doc,
            origin_of(l.sources@[i]),
            text_of(l.sources@[i], fetched[i]),
        ))
    &&& views(d.paths@).no_duplicates()
    &&& forall|i: int|
        0 <= i < l.sources@.len() ==> (#[trigger] d.documents@[i] matches Some(doc) ==> covered(l, i, doc, views(d.paths@)))
    &&& forall|p: Seq<char>| #[trigger] views(d.paths@).contains(p) ==> requested_somewhere(l, d.documents@, p)
}

/// The text of source `i`.
fn source_text<'a>(src: &'a Source, fetched: &'a String) -> (r: &'a str)
    ensures
        r@ == text_of(*src, *fetched),
{
    match src {
        Source::Inline { text, .. } => text.as_str(),
        Source::File(_) => fetched.as_str(),
    }
}

impl Source {
    /// The label of this source in diagnostics: the path of a file, the
    /// optional label of inline text.
    pub fn origin(&self) -> (r: Option<String>)
        ensures
            r == origin_of(*self),
    {
        match self {
            Source::Inline { origin, .. } => crate::document::copy_origin(origin),
            Source::File(p) => Some(p.clone()),
        }
    }

    /// The source is text given inline.
    pub fn is_string(&self) -> (r: bool)
        ensures
            r == (*self is Inline),
    {
        match self {
            Source::Inline { .. } => true,
            Source::File(_) => false,
        }
    }
}

fn source_base(src: &Source) -> (r: String)
    ensures
        r@ == base_of(*src),
{
    match src {
        Source::Inline { .. } => String::new(),
        Source::File(p) => directory_of(p.as_str()),
    }
}

/// Whether some element of `v` holds the characters of `s`.
fn contains_str(v: &Vec<String>, s: &str) -> (r: bool)
    ensures
        r == views(v@).contains(s@),
{
    let mut i: usize = 0;
    while i < v.len()
        invariant
            i <= v@.len(),
            forall|j: int| 0 <= j < i ==> views(v@)[j] != s@,
        decreases v.len() - i,
    {
        if str_eq(v[i].as_str(), s) {
            assert(views(v@)[i as int] == s@);
            return true;
        }
        i = i + 1;
    }
    false
}

impl Linter {
    /// First pass of a run: reads every source silently and collects the
    /// documents that the rules ask for, each path once. `fetched[i]` is the
    /// text of source `i` where it is a file.
    pub fn discover(&self, fetched: &Vec<String>) -> (r: Result<Discovery, RunError>)
        requires
            self.wf(),
            fetched@.len() == self.sources@.len(),
            forall|i: int|
                0 <= i < self.sources@.len() ==> utf8_len(text_of(self.sources@[i], #[trigger] fetched@[i])) + 3
                    <= usize::MAX,
        ensures
            r matches Err(RunError::NoLints) <==> self.lints@.len() == 0,
            r matches Err(RunError::NoSources) <==> self.lints@.len() > 0 && self.sources@.len() == 0,
            r matches Err(RunError::SliceFetched { lint, origin }) ==> exists|i: int, j: int, d: Document|
                #[trigger] inline_request(*self, fetched@, i, j, d) && lint@ == self.slugs@[j]@ && origin == origin_of(
                    self.sources@[i],
                ),
            (exists|i: int, j: int, d: Document| #[trigger] inline_request(*self, fetched@, i, j, d)) ==> r matches Err(
                RunError::SliceFetched { .. },
            ),
            r matches Ok(d) ==> discovery_holds(*self, fetched@, d),
    {
        if self.lints.len() == 0 {
            return Err(RunError::NoLints);
        }
        if self.sources.len() == 0 {
            return Err(RunError::NoSources);
        }
        let mut documents: Vec<Option<Document>> = Vec::new();
        let mut paths: Vec<String> = Vec::new();
        let mut i: usize = 0;
        while i < self.sources.len()
            invariant
                self.wf(),
                self.lints@.len() > 0,
                fetched@.len() == self.sources@.len(),
                forall|i: int|
                    0 <= i < self.sources@.len() ==> utf8_len(text_of(self.sources@[i], #[trigger] fetched@[i])) + 3
                        <= usize::MAX,
                i <= self.sources@.len(),
                documents@.len() == i,
                forall|k: int|
                    0 <= k < i ==> (#[trigger] documents@[k] is None <==> is_split_failure(
                        text_of(self.sources@[k], fetched@[k]),
                    )),
                forall|k: int|
                    0 <= k < i ==> (#[trigger] documents@[k] matches Some(doc) ==> parsed_as(
                        doc,
                        origin_of(self.sources@[k]),
                        text_of(self.sources@[k], fetched@[k]),
                    )),
                views(paths@).no_duplicates(),
                forall|k: int| 0 <= k < i ==> (#[trigger] documents@[k] matches Some(doc) ==> covered(*self, k, doc, views(paths@))),
                forall|p: Seq<char>| #[trigger] views(paths@).contains(p) ==> requested_somewhere(*self, documents@, p),
            decreases self.sources.len() - i,
        {
            let src = &self.sources[i];
            let origin = src.origin();
            let text = source_text(src, &fetched[i]);
            let (doc, _silent) = process(&origin, text);
            match doc {
                None => {
                    let ghost before = documents@;
                    documents.push(None);
                    assert forall|p: Seq<char>| #[trigger] views(paths@).contains(p) implies requested_somewhere(*self, documents@, p) by {
                        assert(requested_somewhere(*self, before, p));
                        let k = choose|k: int|
                            0 <= k < before.len() && (#[trigger] before[k] matches Some(d) && requests_path(*self, k, d, p));
                        assert(documents@[k] == before[k]);
                    }
                },
                Some(d) => {
                    let base = source_base(src);
                    let is_inline = src.is_string();
                    let mut j: usize = 0;
                    let ghost start_paths = views(paths@);
                    while j < self.lints.len()
                        invariant
                            self.wf(),
                            i < self.sources@.len(),
                            *src == self.sources@[i as int],
                            base@ == base_of(*src),
                            is_inline == (*src is Inline),
                            fetched@.len() == self.sources@.len(),
                            !is_split_failure(text_of(self.sources@[i as int], fetched@[i as int])),
                            parsed_as(d, origin_of(self.sources@[i as int]), text_of(self.sources@[i as int], fetched@[i as int])),
                            j <= self.lints@.len(),
                            documents@.len() == i,
                            views(paths@).no_duplicates(),
                            forall|p: Seq<char>| start_paths.contains(p) ==> views(paths@).contains(p),
                            forall|x: Seq<char>|
                                all_requests(self.lints@.take(j as int), d).contains(x) ==> !is_inline && views(
                                    paths@,
                                ).contains(base@ + x),
                            forall|p: Seq<char>|
                                #[trigger] views(paths@).contains(p) ==> start_paths.contains(p) || exists|x: Seq<char>|
                                    all_requests(self.lints@, d).contains(x) && p == base@ + x,
                        decreases self.lints.len() - j,
                    {
                        assert(self.lints@.take(j + 1).drop_last() =~= self.lints@.take(j as int));
                        let names = self.lints[j].find_resources(&d);
                        if names.len() > 0 && is_inline {
                            assert(inline_request(*self, fetched@, i as int, j as int, d));
                            return Err(
                                RunError::SliceFetched { lint: self.slugs[j].clone(), origin: src.origin() },
                            );
                        }
                        let mut q: usize = 0;
                        while q < names.len()
                            invariant
                                j < self.lints@.len(),
                                views(names@) == lint_requests(self.lints@[j as int], d),
                                q <= names@.len(),
                                names@.len() > 0 ==> !is_inline,
                                views(paths@).no_duplicates(),
                                forall|p: Seq<char>| start_paths.contains(p) ==> views(paths@).contains(p),
                                forall|x: Seq<char>|
                                    all_requests(self.lints@.take(j as int), d).contains(x) ==> !is_inline && views(paths@).contains(
                                        base@ + x,
                                    ),
                                forall|t: int| 0 <= t < q ==> views(paths@).contains(base@ + #[trigger] views(names@)[t]),
                                forall|p: Seq<char>|
                                    #[trigger] views(paths@).contains(p) ==> start_paths.contains(p) || exists|x: Seq<char>|
                                        all_requests(self.lints@, d).contains(x) && p == base@ + x,
                            decreases names.len() - q,
                        {
                            let mut path = base.clone();
                            path.append(names[q].as_str());
                            proof {
                                crate::linter::lemma_requests_contain(self.lints@, d, j as int, views(names@)[q as int]);
                            }
                            let ghost before = views(paths@);
                            let ghost x = views(names@)[q as int];
                            assert(all_requests(self.lints@, d).contains(x) && path@ == base@ + x);
                            if !contains_str(&paths, path.as_str()) {
                                paths.push(path);
                                assert(views(paths@) =~= before.push(base@ + x));
                                proof {
                                    lemma_push_contains(before, base@ + x);
                                }
                            }
                            assert forall|p: Seq<char>| #[trigger] views(paths@).contains(p) implies start_paths.contains(p) || exists|x: Seq<char>|
                                all_requests(self.lints@, d).contains(x) && p == base@ + x by {
                                if !before.contains(p) {
                                    assert(p == base@ + x);
                                }
                            }
                            q = q + 1;
                        }
                        assert forall|x: Seq<char>|
                            all_requests(self.lints@.take(j + 1), d).contains(x) implies !is_inline && views(
                                paths@,
                            ).contains(base@ + x) by {
                            let pre = all_requests(self.lints@.take(j as int), d);
                            let here = lint_requests(self.lints@[j as int], d);
                            assert(self.lints@.take(j + 1).last() == self.lints@[j as int]);
                            assert(self.lints@.take(j + 1).drop_last() == self.lints@.take(j as int));
                            assert(all_requests(self.lints@.take(j + 1), d) == pre + here);
                            let t = choose|t: int| 0 <= t < (pre + here).len() && (pre + here)[t] == x;
                            if t < pre.len() {
                                assert(pre[t] == x);
                                assert(pre.contains(x));
                            } else {
                                assert(here[t - pre.len()] == x);
                                assert(views(names@)[t - pre.len()] == x);
                                assert(names@.len() > 0);
                                assert(views(paths@).contains(base@ + views(names@)[t - pre.len()]));
                            }
                        }
                        j = j + 1;
                    }
                    assert(self.lints@.take(j as int) =~= self.lints@);
                    let ghost before = documents@;
                    documents.push(Some(d));
                    assert forall|p: Seq<char>| #[trigger] views(paths@).contains(p) implies requested_somewhere(*self, documents@, p) by {
                        if start_paths.contains(p) {
                            assert(requested_somewhere(*self, before, p));
                            let k = choose|k: int|
                                0 <= k < before.len() && (#[trigger] before[k] matches Some(dd) && requests_path(*self, k, dd, p));
                            assert(documents@[k] == before[k]);
                        } else {
                            let x = choose|x: Seq<char>| all_requests(self.lints@, d).contains(x) && p == base@ + x;
                            assert(requests_path(*self, i as int, d, p));
                            assert(documents@[i as int] == Some(d));
                        }
                    }
                },
            }
            i = i + 1;
        }
        let r = Discovery { documents, paths };
        proof {
            assert forall|i: int, j: int, d: Document| !#[trigger] inline_request(*self, fetched@, i, j, d) by {
                if inline_request(*self, fetched@, i, j, d) {
                    let doc = r.documents@[i]->Some_0;
                    assert(r.documents@[i] matches Some(_));
                    lemma_requests_same(self.lints@[j], d, doc, origin_of(self.sources@[i]), text_of(self.sources@[i], fetched@[i]));
                    let x = lint_requests(self.lints@[j], d)[0];
                    assert(lint_requests(self.lints@[j], doc).contains(x));
                    lemma_requests_contain(self.lints@, doc, j, x);
                    assert(covered(*self, i, doc, views(r.paths@)));
                }
            }
        }
        Ok(r)
    }
}

/// Second pass of a run, for one path: parses what was fetched from it,
/// silently. A fetch that failed, or a text whose fences are wrong, is kept
/// as the reason the document could not be had.
pub fn resolve_external(path: String, fetched: Result<String, String>) -> (r: Resolved)
    requires
        fetched matches Ok(t) ==> utf8_len(t@) + 3 <= usize::MAX,
    ensures
        r.path == path,
        fetched matches Err(e) ==> r.outcome == Err::<Document, String>(e),
        fetched matches Ok(t) ==> (r.outcome is Ok <==> !is_split_failure(t@)),
        fetched matches Ok(t) ==> (r.outcome matches Ok(d) ==> parsed_as(d, None, t@)),
{
    let outcome = match fetched {
        Err(e) => Err(e),
        Ok(t) => match process(&None, t.as_str()).0 {
            Some(d) => Ok(d),
            None => Err(String::from_str("the document could not be split into preamble and body")),
        },
    };
    Resolved { path, outcome }
}

/// What the run reports on source `i`: if it cannot be split, one
/// diagnostic and no rule is run; otherwise its document and, for each rule
/// in slug order, what that rule reports on it.
pub open spec fn report_holds(l: Linter, text: Seq<char>, ext: Seq<Resolved>, i: int, rep: Report) -> bool {
    &&& rep.document is None <==> is_split_failure(text)
    &&& process_reports(origin_of(l.sources@[i]), text, rep.parse@)
    &&& rep.document is None ==> rep.parse@.len() == 1 && rep.rules@.len() == 0
    &&& rep.document matches Some(doc) ==> {
        &&& parsed_as(doc, origin_of(l.sources@[i]), text)
        &&& rep.rules@.len() == l.lints@.len()
        &&& forall|j: int|
            0 <= j < l.lints@.len() ==> lint_reports(
                l.lints@[j],
                l.slugs@[j]@,
                doc,
                base_of(l.sources@[i]),
                ext,
                #[trigger] rep.rules@[j]@,
            )
    }
}

impl Linter {
    /// Checks one source with every rule, in slug order.
    pub fn validate_source(&self, i: usize, fetched: &String, ext: &Vec<Resolved>) -> (r: Report)
        requires
            self.wf(),
            i < self.sources@.len(),
            utf8_len(text_of(self.sources@[i as int], *fetched)) + 3 <= usize::MAX,
        ensures
            report_holds(*self, text_of(self.sources@[i as int], *fetched), ext@, i as int, r),
    {
        let src = &self.sources[i];
        let origin = src.origin();
        let text = source_text(src, fetched);
        let (doc, parse) = process(&origin, text);
        let mut rules: Vec<Vec<Diagnostic>> = Vec::new();
        match doc {
            None => Report { document: None, parse, rules },
            Some(d) => {
                let base = source_base(src);
                let mut j: usize = 0;
                while j < self.lints.len()
                    invariant
                        self.wf(),
                        crate::document::doc_wf(d),
                        base@ == base_of(self.sources@[i as int]),
                        j <= self.lints@.len(),
                        rules@.len() == j,
                        forall|k: int|
                            0 <= k < j ==> lint_reports(
                                self.lints@[k],
                                self.slugs@[k]@,
                                d,
                                base_of(self.sources@[i as int]),
                                ext@,
                                #[trigger] rules@[k]@,
                            ),
                    decreases self.lints.len() - j,
                {
                    let out = self.lints[j].lint(self.slugs[j].as_str(), &d, base.as_str(), ext);
                    rules.push(out);
                    j = j + 1;
                }
                Report { document: Some(d), parse, rules }
            },
        }
    }

    /// Last pass of a run: checks every source with every rule, with the
    /// fetched documents in `ext`. `fetched[i]` is the text of source `i`
    /// where it is a file.
    pub fn validate(&self, fetched: &Vec<String>, ext: &Vec<Resolved>) -> (r: Result<Vec<Report>, RunError>)
        requires
            self.wf(),
            fetched@.len() == self.sources@.len(),
            forall|i: int|
                0 <= i < self.sources@.len() ==> utf8_len(text_of(self.sources@[i], #[trigger] fetched@[i])) + 3
                    <= usize::MAX,
        ensures
            r matches Err(RunError::NoLints) <==> self.lints@.len() == 0,
            r matches Err(RunError::NoSources) <==> self.lints@.len() > 0 && self.sources@.len() == 0,
            r is Err ==> r matches Err(RunError::NoLints) || r matches Err(RunError::NoSources),
            r matches Ok(reps) ==> reps@.len() == self.sources@.len() && forall|i: int|
                0 <= i < reps@.len() ==> report_holds(
                    *self,
                    text_of(self.sources@[i], fetched@[i]),
                    ext@,
                    i,
                    #[trigger] reps@[i],
                ),
    {
        if self.lints.len() == 0 {
            return Err(RunError::NoLints);
        }
        if self.sources.len() == 0 {
            return Err(RunError::NoSources);
        }
        let mut reps: Vec<Report> = Vec::new();
        let mut i: usize = 0;
        while i < self.sources.len()
            invariant
                self.wf(),
                fetched@.len() == self.sources@.len(),
                forall|i: int|
                    0 <= i < self.sources@.len() ==> utf8_len(text_of(self.sources@[i], #[trigger] fetched@[i])) + 3
                        <= usize::MAX,
                i <= self.sources@.len(),
                reps@.len() == i,
                forall|k: int|
                    0 <= k < i ==> report_holds(*self, text_of(self.sources@[k], fetched@[k]), ext@, k, #[trigger] reps@[k]),
            decreases self.sources.len() - i,
        {
            let rep = self.validate_source(i, &fetched[i], ext);
            reps.push(rep);
            i = i + 1;
        }
        Ok(reps)
    }
}

/// Once a slug is registered, registering it again fails.
pub proof fn law_duplicate_slug(
    l0: Linter,
    l1: Linter,
    slug: Seq<char>,
    first: Lint,
    second: Lint,
    r: Result<Linter, RegistryError>,
)
    requires
        add_lint_result(l0, slug, first, Ok(l1)),
        add_lint_result(l1, slug, second, r),
    ensures
        r matches Err(RegistryError::DuplicateSlug(s)) && s@ == slug,
{
    let k = choose|k: int|
        0 <= k <= l0.slugs@.len() && views(l1.slugs@) == #[trigger] views(l0.slugs@).insert(k, slug)
            && l1.lints@ == l0.lints@.insert(k, first);
    assert(views(l1.slugs@)[k] == slug);
}

/// After a successful discovery, no inline source's document asks for any
/// other document: an inline source that does makes the run stop instead.
pub proof fn law_inline_sources_fetch_nothing(l: Linter, fetched: Seq<String>, d: Discovery, i: int)
    requires
        discovery_holds(l, fetched, d),
        0 <= i < l.sources@.len(),
        l.sources@[i] is Inline,
    ensures
        d.documents@[i] matches Some(doc) ==> all_requests(l.lints@, doc).len() == 0,
{
    match d.documents@[i] {
        Some(dd) => {
            assert(covered(l, i, dd, views(d.paths@)));
            if all_requests(l.lints@, dd).len() > 0 {
                assert(all_requests(l.lints@, dd).contains(all_requests(l.lints@, dd)[0]));
            }
        },
        None => {},
    }
}

/// A path that two documents ask for, or one, is among the paths to fetch
/// exactly once.
pub proof fn law_each_path_fetched_once(
    l: Linter,
    fetched: Seq<String>,
    d: Discovery,
    i1: int,
    x1: Seq<char>,
    i2: int,
    x2: Seq<char>,
)
    requires
        discovery_holds(l, fetched, d),
        0 <= i1 < l.sources@.len(),
        0 <= i2 < l.sources@.len(),
        d.documents@[i1] matches Some(doc) && all_requests(l.lints@, doc).contains(x1),
        d.documents@[i2] matches Some(doc) && all_requests(l.lints@, doc).contains(x2),
        base_of(l.sources@[i1]) + x1 == base_of(l.sources@[i2]) + x2,
    ensures
        exists|k: int|
            0 <= k < d.paths@.len() && #[trigger] views(d.paths@)[k] == base_of(l.sources@[i1]) + x1 && forall|m: int|
                0 <= m < d.paths@.len() && #[trigger] views(d.paths@)[m] == base_of(l.sources@[i1]) + x1 ==> m == k,
{
    let p = base_of(l.sources@[i1]) + x1;
    let doc = d.documents@[i1]->Some_0;
    assert(covered(l, i1, doc, views(d.paths@)));
    assert(views(d.paths@).contains(p));
    let k = choose|k: int| 0 <= k < views(d.paths@).len() && views(d.paths@)[k] == p;
    assert forall|m: int| 0 <= m < d.paths@.len() && #[trigger] views(d.paths@)[m] == p implies m == k by {
        if m != k {
            assert(views(d.paths@).no_duplicates());
        }
    }
}

/// A document whose first line does not start with `---` gets exactly one
/// diagnostic and no rule is run on it.
pub proof fn law_missing_opening_fence(l: Linter, text: Seq<char>, ext: Seq<Resolved>, i: int, rep: Report)
    requires
        report_holds(l, text, ext, i, rep),
        !crate::preamble::starts_with_hyphens(text),
    ensures
        rep.document is None,
        rep.parse@.len() == 1,
        rep.rules@.len() == 0,
{
}

proof fn lemma_first_named_same(f1: Seq<crate::document::Field>, f2: Seq<crate::document::Field>, name: Seq<char>)
    requires
        f1.len() == f2.len(),
        forall|k: int| 0 <= k < f1.len() ==> (#[trigger] f1[k]).name@ == f2[k].name@,
    ensures
        crate::rules::first_named(f1, name) == crate::rules::first_named(f2, name),
    decreases f1.len(),
{
    if f1.len() > 0 {
        lemma_first_named_same(f1.drop_last(), f2.drop_last(), name);
        assert(f1.last().name@ == f2.last().name@);
    }
}

proof fn lemma_first_named_bounds(f: Seq<crate::document::Field>, name: Seq<char>)
    ensures
        crate::rules::first_named(f, name) matches Some(i) ==> 0 <= i < f.len(),
    decreases f.len(),
{
    if f.len() > 0 {
        lemma_first_named_bounds(f.drop_last(), name);
    }
}

/// Two parses of one text ask for the same files.
proof fn lemma_requests_same(l: Lint, d1: Document, d2: Document, origin: Option<String>, text: Seq<char>)
    requires
        parsed_as(d1, origin, text),
        parsed_as(d2, origin, text),
    ensures
        lint_requests(l, d1) == lint_requests(l, d2),
{
    let p = crate::document::spec_split_preamble(text);
    assert forall|k: int| 0 <= k < d1.fields@.len() implies (#[trigger] d1.fields@[k]).name@ == d2.fields@[k].name@
        && d1.fields@[k].raw_value@ == d2.fields@[k].raw_value@ by {
        assert(crate::document::field_of(d1.fields@[k], lines_of(p)[field_lines(lines_of(p))[k]], preamble_line_number(field_lines(lines_of(p))[k])));
        assert(crate::document::field_of(d2.fields@[k], lines_of(p)[field_lines(lines_of(p))[k]], preamble_line_number(field_lines(lines_of(p))[k])));
    }
    match l {
        Lint::RequiresStatus(r) => {
            lemma_first_named_same(d1.fields@, d2.fields@, r.references@);
            lemma_first_named_bounds(d1.fields@, r.references@);
            match crate::rules::first_named(d1.fields@, r.references@) {
                Some(i) => {
                    assert(d1.fields@[i].raw_value@ == d2.fields@[i].raw_value@);
                },
                None => {},
            }
        },
        Lint::Email(_) => {},
    }
}

proof fn lemma_push_contains(s: Seq<Seq<char>>, x: Seq<char>)
    requires
        s.no_duplicates(),
        !s.contains(x),
    ensures
        s.push(x).no_duplicates(),
        forall|p: Seq<char>| #[trigger] s.push(x).contains(p) <==> (s.contains(p) || p == x),
{
    let t = s.push(x);
    assert forall|p: Seq<char>| #[trigger] t.contains(p) <==> (s.contains(p) || p == x) by {
        if s.contains(p) {
            let i = choose|i: int| 0 <= i < s.len() && s[i] == p;
            assert(t[i] == p);
        }
        if p == x {
            assert(t[s.len() as int] == p);
        }
        if t.contains(p) {
            let i = choose|i: int| 0 <= i < t.len() && t[i] == p;
            if i < s.len() {
                assert(s[i] == p);
            }
        }
    }
    assert forall|i: int, j: int| 0 <= i < t.len() && 0 <= j < t.len() && i != j implies t[i] != t[j] by {
        if i < s.len() && j < s.len() {
        } else if i < s.len() {
            assert(s[i] == t[i]);
        } else if j < s.len() {
            assert(s[j] == t[j]);
        }
    }
}

proof fn lemma_requests_contain(lints: Seq<Lint>, d: Document, j: int, x: Seq<char>)
    requires
        0 <= j < lints.len(),
        lint_requests(lints[j], d).contains(x),
    ensures
        all_requests(lints, d).contains(x),
    decreases lints.len(),
{
    let pre = all_requests(lints.drop_last(), d);
    let here = lint_requests(lints.last(), d);
    if j == lints.len() - 1 {
        let t = choose|t: int| 0 <= t < here.len() && here[t] == x;
        assert((pre + here)[pre.len() + t] == x);
    } else {
        lemma_requests_contain(lints.drop_last(), d, j, x);
        let t = choose|t: int| 0 <= t < pre.len() && pre[t] == x;
        assert((pre + here)[t] == x);
    }
}

impl Linter {
    /// Checks the configuration before anything is read: there must be a
    /// rule and a source.
    pub fn check_config(&self) -> (r: Result<(), RunError>)
        ensures
            r matches Err(RunError::NoLints) <==> self.lints@.len() == 0,
            r matches Err(RunError::NoSources) <==> self.lints@.len() > 0 && self.sources@.len() == 0,
            r is Ok <==> self.lints@.len() > 0 && self.sources@.len() > 0,
    {
        if self.lints.len() == 0 {
            Err(RunError::NoLints)
        } else if self.sources.len() == 0 {
            Err(RunError::NoSources)
        } else {
            Ok(())
        }
    }
}

impl Default for Linter {
    /// Same as `Linter::new`.
    fn default() -> (r: Linter)
        ensures
            r.wf(),
            r.sources@.len() == 0,
            views(r.slugs@) == seq!["preamble-email"@],
    {
        Linter::new()
    }
}

pub open spec fn seq_lt_at(v: Seq<Seq<char>>, i: int, j: int) -> bool {
    crate::text::seq_lt(v[i], v[j])
}

} // verus!
