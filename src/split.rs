use vstd::prelude::*;

use crate::normalize::{cleanup_chapter, regex_accepts, regex_erased, tidy, FOOTER_PATTERN};
use crate::text::{chars_of, string_of};

verus! {

/// A chapter boundary: a newline, the word `CHAPTER`, then a word token.
pub const CHAPTER_PATTERN: &'static str = r"(?m)\nCHAPTER *\w+";

/// Where the successive non-overlapping matches of `pattern` in `text` start, counted in
/// characters, as `regex::Regex::find_iter` yields them.
pub uninterp spec fn regex_match_starts(pattern: Seq<char>, text: Seq<char>) -> Seq<int>;

/// Positions that rise strictly and stay within a text of `len` characters.
pub open spec fn valid_starts(starts: Seq<int>, len: int) -> bool {
    &&& forall|i: int| 0 <= i < starts.len() ==> 0 <= #[trigger] starts[i] <= len
    &&& forall|i: int, j: int| 0 <= i < j < starts.len() ==> starts[i] < starts[j]
}

/// Relies on `regex::Regex::new` (whether the pattern compiles) and
/// `regex::Regex::find_iter`: the start of each match, in order, as a character index.
#[verifier::external_body]
fn match_starts(pattern: &str, text: &str) -> (r: Option<Vec<usize>>)
    ensures
        r is Some <==> regex_accepts(pattern@),
        r matches Some(v) ==> v@.map_values(|p: usize| p as int) == regex_match_starts(
            pattern@,
            text@,
        ),
        r matches Some(v) ==> valid_starts(v@.map_values(|p: usize| p as int), text@.len() as int),
{
    match regex::Regex::new(pattern) {
        Ok(re) => Some(re.find_iter(text).map(|m| text[..m.start()].chars().count()).collect()),
        Err(_) => None,
    }
}

/// Where chapter `i` ends: at the next boundary, or at the end of the text.
pub open spec fn chapter_end(starts: Seq<int>, len: int, i: int) -> int {
    if i + 1 < starts.len() {
        starts[i + 1]
    } else {
        len
    }
}

/// The chapters of `t` cut at `starts`: each from its boundary to the next, the last to
/// the end; what precedes the first boundary is dropped. With no boundary, `t` whole.
pub open spec fn chapters(t: Seq<char>, starts: Seq<int>) -> Seq<Seq<char>> {
    if starts.len() == 0 {
        seq![t]
    } else {
        Seq::new(
            starts.len(),
            |i: int| t.subrange(starts[i], chapter_end(starts, t.len() as int, i)),
        )
    }
}

proof fn lemma_flatten_from(t: Seq<char>, starts: Seq<int>, k: int)
    requires
        valid_starts(starts, t.len() as int),
        0 <= k < starts.len(),
    ensures
        chapters(t, starts).subrange(k, starts.len() as int).flatten() == t.subrange(
            starts[k],
            t.len() as int,
        ),
    decreases starts.len() - k,
{
    let cs = chapters(t, starts).subrange(k, starts.len() as int);
    let e = chapter_end(starts, t.len() as int, k);
    assert(starts[k] <= e <= t.len());
    assert(cs[0] == t.subrange(starts[k], e));
    assert(cs.first() == t.subrange(starts[k], e));
    assert(cs.len() > 0);
    assert(cs.flatten() == cs.first() + cs.drop_first().flatten());
    if k + 1 < starts.len() {
        lemma_flatten_from(t, starts, k + 1);
        assert(cs.drop_first() =~= chapters(t, starts).subrange(k + 1, starts.len() as int));
    } else {
        assert(cs.drop_first() =~= Seq::<Seq<char>>::empty());
        assert(cs.drop_first().flatten() == Seq::<char>::empty());
        assert(t.subrange(e, t.len() as int) =~= Seq::<char>::empty());
    }
    assert(t.subrange(starts[k], e) + t.subrange(e, t.len() as int) =~= t.subrange(
        starts[k],
        t.len() as int,
    ));
}

/// Splitting keeps one chapter per boundary, or the whole text where there is none; with
/// boundaries, the chapters laid end to end give back the text from the first boundary on.
pub proof fn lemma_chapters_partition(t: Seq<char>, starts: Seq<int>)
    requires
        valid_starts(starts, t.len() as int),
    ensures
        starts.len() == 0 ==> chapters(t, starts) == seq![t],
        starts.len() > 0 ==> chapters(t, starts).len() == starts.len(),
        starts.len() > 0 ==> chapters(t, starts).flatten() == t.subrange(starts[0], t.len() as int),
{
    if starts.len() > 0 {
        lemma_flatten_from(t, starts, 0);
        assert(chapters(t, starts).subrange(0, starts.len() as int) =~= chapters(t, starts));
    }
}

/// Cuts `text` at the boundary positions `starts`.
pub fn split_at_starts(text: &str, starts: &Vec<usize>) -> (r: Vec<String>)
    requires
        valid_starts(starts@.map_values(|p: usize| p as int), text@.len() as int),
    ensures
        r.deep_view() == chapters(text@, starts@.map_values(|p: usize| p as int)),
{
    let ghost ss = starts@.map_values(|p: usize| p as int);
    let v = chars_of(text);
    let mut out: Vec<String> = Vec::new();
    if starts.len() == 0 {
        out.push(string_of(&v, 0, v.len()));
        assert(v@.subrange(0, v@.len() as int) =~= v@);
        assert(out.deep_view() =~= chapters(text@, ss));
        return out;
    }
    let mut i: usize = 0;
    while i < starts.len()
        invariant
            ss == starts@.map_values(|p: usize| p as int),
            valid_starts(ss, text@.len() as int),
            v@ == text@,
            starts@.len() > 0,
            i <= starts@.len(),
            out.deep_view() =~= chapters(text@, ss).subrange(0, i as int),
        decreases starts@.len() - i,
    {
        let from = starts[i];
        let to = if i + 1 < starts.len() {
            starts[i + 1]
        } else {
            v.len()
        };
        assert(ss[i as int] == from);
        assert(i + 1 < starts@.len() ==> ss[i + 1] == to);
        let piece = string_of(&v, from, to);
        let ghost before = out.deep_view();
        out.push(piece);
        assert(out.deep_view() =~= before.push(text@.subrange(from as int, to as int)));
        assert(chapters(text@, ss)[i as int] == text@.subrange(from as int, to as int));
        assert(chapters(text@, ss).subrange(0, i + 1) =~= chapters(text@, ss).subrange(
            0,
            i as int,
        ).push(text@.subrange(from as int, to as int)));
        i = i + 1;
    }
    out
}

/// Splits raw statute text into chapters at its chapter boundaries. `None` only where the
/// boundary pattern does not compile.
pub fn split_into_chapters(text: &str) -> (r: Option<Vec<String>>)
    ensures
        r is Some <==> regex_accepts(CHAPTER_PATTERN@),
        r matches Some(v) ==> v.deep_view() == chapters(
            text@,
            regex_match_starts(CHAPTER_PATTERN@, text@),
        ),
{
    match match_starts(CHAPTER_PATTERN, text) {
        Some(starts) => Some(split_at_starts(text, &starts)),
        None => None,
    }
}

/// The chapter units of a statute: the whole text cleaned of footer noise and normalised,
/// then cut at its chapter boundaries. `None` only where one of the two patterns does
/// not compile.
pub fn prepare_chapters(text: &str) -> (r: Option<Vec<String>>)
    ensures
        r is Some <==> (regex_accepts(CHAPTER_PATTERN@) && regex_accepts(FOOTER_PATTERN@)),
        r matches Some(v) ==> v.deep_view() == chapters(
            tidy(regex_erased(FOOTER_PATTERN@, text@)),
            regex_match_starts(CHAPTER_PATTERN@, tidy(regex_erased(FOOTER_PATTERN@, text@))),
        ),
{
    match cleanup_chapter(text) {
        Some(clean) => split_into_chapters(clean.as_str()),
        None => None,
    }
}

} // verus!
