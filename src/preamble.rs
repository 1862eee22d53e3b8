use vstd::prelude::*;

verus! {

/// Why a document could not be split into its preamble and its body.
#[derive(Debug, Clone, Copy, PartialEq, Eq, Structural)]
pub enum SplitError {
    /// The first line does not start with three hyphens.
    MissingStart,
    /// The first line starts with three hyphens but holds more.
    LeadingGarbage,
    /// No line of exactly three hyphens closes the preamble.
    MissingEnd,
}

/// A line of exactly three hyphens starts at `j`, after the opening line.
pub open spec fn fence_at(s: Seq<char>, j: int) -> bool {
    &&& 4 <= j
    &&& j + 3 <= s.len()
    &&& s[j - 1] == '\n'
    &&& s[j] == '-'
    &&& s[j + 1] == '-'
    &&& s[j + 2] == '-'
    &&& (j + 3 == s.len() || s[j + 3] == '\n')
}

/// The first closing fence at or after `from`.
pub open spec fn first_fence(s: Seq<char>, from: int) -> Option<int>
    decreases s.len() - from,
{
    if from + 3 > s.len() {
        None
    } else if fence_at(s, from) {
        Some(from)
    } else {
        first_fence(s, from + 1)
    }
}

pub open spec fn starts_with_hyphens(s: Seq<char>) -> bool {
    s.len() >= 3 && s[0] == '-' && s[1] == '-' && s[2] == '-'
}

/// End of the preamble text for a closing fence at `j`: the newline before
/// the fence belongs to neither part.
pub open spec fn preamble_end(j: int) -> int {
    if j == 4 {
        4
    } else {
        j - 1
    }
}

/// Start of the body for a closing fence at `j`.
pub open spec fn body_start(s: Seq<char>, j: int) -> int {
    if j + 4 <= s.len() {
        j + 4
    } else {
        s.len() as int
    }
}

/// A document split into preamble text and body text.
pub open spec fn spec_split(s: Seq<char>) -> Result<(Seq<char>, Seq<char>), SplitError> {
    if !starts_with_hyphens(s) {
        Err(SplitError::MissingStart)
    } else if s.len() > 3 && s[3] != '\n' {
        Err(SplitError::LeadingGarbage)
    } else {
        match first_fence(s, 4) {
            None => Err(SplitError::MissingEnd),
            Some(j) => Ok(
                (s.subrange(4, preamble_end(j)), s.subrange(body_start(s, j), s.len() as int)),
            ),
        }
    }
}

proof fn lemma_first_fence_found(s: Seq<char>, from: int, j: int)
    requires
        from <= j,
        fence_at(s, j),
        forall|k: int| from <= k < j ==> !fence_at(s, k),
    ensures
        first_fence(s, from) == Some(j),
    decreases j - from,
{
    if from < j {
        lemma_first_fence_found(s, from + 1, j);
    }
}

proof fn lemma_first_fence_none(s: Seq<char>, from: int)
    requires
        forall|k: int| from <= k && k + 3 <= s.len() ==> !fence_at(s, k),
    ensures
        first_fence(s, from) == None::<int>,
    decreases s.len() - from,
{
    if from + 3 <= s.len() {
        lemma_first_fence_none(s, from + 1);
    }
}

pub proof fn lemma_first_fence_is_fence(s: Seq<char>, from: int)
    ensures
        first_fence(s, from) matches Some(j) ==> fence_at(s, j) && from <= j,
    decreases s.len() - from,
{
    if from + 3 <= s.len() && !fence_at(s, from) {
        lemma_first_fence_is_fence(s, from + 1);
    }
}

fn is_fence_at(s: &str, len: usize, j: usize) -> (r: bool)
    requires
        len == s@.len(),
        4 <= j,
    ensures
        r == fence_at(s@, j as int),
{
    if j > len || len - j < 3 {
        return false;
    }
    s.get_char(j - 1) == '\n' && s.get_char(j) == '-' && s.get_char(j + 1) == '-'
        && s.get_char(j + 2) == '-' && (j + 3 == len || s.get_char(j + 3) == '\n')
}

/// Splits a document into its preamble text and its body text.
///
/// The first line must be exactly `---`; the next line that is exactly `---`
/// closes the preamble.
pub fn split_preamble(text: &str) -> (r: Result<(String, String), SplitError>)
    ensures
        match r {
            Ok((p, b)) => spec_split(text@) == Ok::<(Seq<char>, Seq<char>), SplitError>((p@, b@)),
            Err(e) => spec_split(text@) == Err::<(Seq<char>, Seq<char>), SplitError>(e),
        },
{
    let len = text.unicode_len();
    if len < 3 || text.get_char(0) != '-' || text.get_char(1) != '-' || text.get_char(2) != '-' {
        return Err(SplitError::MissingStart);
    }
    if len > 3 && text.get_char(3) != '\n' {
        return Err(SplitError::LeadingGarbage);
    }
    let mut j: usize = 4;
    while j <= len - 3
        invariant
            len == text@.len(),
            len >= 3,
            starts_with_hyphens(text@),
            len == 3 || text@[3] == '\n',
            4 <= j,
            forall|k: int| 4 <= k < j ==> !fence_at(text@, k),
        decreases len - j,
    {
        if is_fence_at(text, len, j) {
            proof {
                lemma_first_fence_found(text@, 4, j as int);
            }
            let pe: usize = if j == 4 {
                4
            } else {
                j - 1
            };
            let bs: usize = if len - j >= 4 {
                j + 4
            } else {
                len
            };
            let p = String::from_str(text.substring_char(4, pe));
            let b = String::from_str(text.substring_char(bs, len));
            return Ok((p, b));
        }
        j = j + 1;
    }
    proof {
        lemma_first_fence_none(text@, 4);
    }
    Err(SplitError::MissingEnd)
}

} // verus!
