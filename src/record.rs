use vstd::prelude::*;

use crate::text::{chars_of, join_newline, joined, string_of};

verus! {

/// Which field of the record under construction free-text appends target.
#[derive(Debug, PartialEq, Eq, Structural, Clone, Copy)]
pub enum ParsingState {
    Chapter,
    Summary,
    Illustrations,
    Sidenotes,
}

/// One legal-code record as the operator builds it.
#[derive(Debug)]
pub struct Buffer {
    pub chapter: String,
    pub penal_code: String,
    pub summary: Option<String>,
    pub illustrations: Option<Vec<String>>,
    pub sidenotes: Option<Vec<String>>,
}

/// What a `Buffer` holds, as plain sequences of characters.
pub struct BufferView {
    pub chapter: Seq<char>,
    pub penal_code: Seq<char>,
    pub summary: Option<Seq<char>>,
    pub illustrations: Option<Seq<Seq<char>>>,
    pub sidenotes: Option<Seq<Seq<char>>>,
}

pub open spec fn opt_text(o: Option<String>) -> Option<Seq<char>> {
    match o {
        Some(s) => Some(s@),
        None => None,
    }
}

pub open spec fn opt_list(o: Option<Vec<String>>) -> Option<Seq<Seq<char>>> {
    match o {
        Some(v) => Some(v.deep_view()),
        None => None,
    }
}

impl View for Buffer {
    type V = BufferView;

    open spec fn view(&self) -> BufferView {
        BufferView {
            chapter: self.chapter@,
            penal_code: self.penal_code@,
            summary: opt_text(self.summary),
            illustrations: opt_list(self.illustrations),
            sidenotes: opt_list(self.sidenotes),
        }
    }
}

/// The record that a session starts from: the given chapter, nothing else.
pub open spec fn fresh(chapter: Seq<char>) -> BufferView {
    BufferView {
        chapter,
        penal_code: Seq::empty(),
        summary: None,
        illustrations: None,
        sidenotes: None,
    }
}

/// An empty record for `chapter`.
pub fn from_chapter(chapter: String) -> (r: Buffer)
    ensures
        r@ == fresh(chapter@),
{
    Buffer { chapter, penal_code: String::new(), summary: None, illustrations: None, sidenotes: None }
}

fn copy_text(o: &Option<String>) -> (r: Option<String>)
    ensures
        opt_text(r) == opt_text(*o),
{
    match o {
        Some(s) => Some(s.clone()),
        None => None,
    }
}

fn copy_list(o: &Option<Vec<String>>) -> (r: Option<Vec<String>>)
    ensures
        opt_list(r) == opt_list(*o),
{
    match o {
        Some(v) => Some(v.clone()),
        None => None,
    }
}

impl Buffer {
    /// A copy of this record.
    pub fn snapshot(&self) -> (r: Buffer)
        ensures
            r@ == self@,
    {
        Buffer {
            chapter: self.chapter.clone(),
            penal_code: self.penal_code.clone(),
            summary: copy_text(&self.summary),
            illustrations: copy_list(&self.illustrations),
            sidenotes: copy_list(&self.sidenotes),
        }
    }

    /// The row this record becomes in the law store.
    pub fn to_query(&self) -> (r: LawRow)
        ensures
            r@ == row_of(self@),
    {
        let summary = match &self.summary {
            Some(s) => s.clone(),
            None => String::new(),
        };
        LawRow {
            penal_code: self.penal_code.clone(),
            chapter: self.chapter.clone(),
            summary,
            illustrations: arry_contructor(&self.illustrations),
            sidenotes: arry_contructor(&self.sidenotes),
        }
    }

    /// The record as the operator sees it: see `rendered`.
    pub fn render(&self) -> (r: String)
        ensures
            r@ == rendered(self@),
    {
        let summary = match &self.summary {
            Some(s) => s.clone(),
            None => String::new(),
        };
        let illustrations = match &self.illustrations {
            Some(v) => join_newline(v),
            None => String::new(),
        };
        let sidenotes = match &self.sidenotes {
            Some(v) => join_newline(v),
            None => String::new(),
        };
        let mut out = String::from_str("Chapter: ");
        out.append(ellipsis(self.chapter.as_str()).as_str());
        out.append("\nPenal Code: ");
        out.append(ellipsis(self.penal_code.as_str()).as_str());
        out.append("\nSummary: ");
        out.append(ellipsis(summary.as_str()).as_str());
        out.append("\nIllustrations: ");
        out.append(debug_form(ellipsis(illustrations.as_str()).as_str()).as_str());
        out.append("\nSidenotes: ");
        out.append(debug_form(ellipsis(sidenotes.as_str()).as_str()).as_str());
        out
    }
}

/// A row of the law store, keyed by its penal code.
#[derive(Debug)]
pub struct LawRow {
    pub penal_code: String,
    pub chapter: String,
    pub summary: String,
    pub illustrations: Vec<String>,
    pub sidenotes: Vec<String>,
}

pub struct LawRowView {
    pub penal_code: Seq<char>,
    pub chapter: Seq<char>,
    pub summary: Seq<char>,
    pub illustrations: Seq<Seq<char>>,
    pub sidenotes: Seq<Seq<char>>,
}

impl View for LawRow {
    type V = LawRowView;

    open spec fn view(&self) -> LawRowView {
        LawRowView {
            penal_code: self.penal_code@,
            chapter: self.chapter@,
            summary: self.summary@,
            illustrations: self.illustrations.deep_view(),
            sidenotes: self.sidenotes.deep_view(),
        }
    }
}

impl LawRow {
    /// A copy of this row.
    pub fn duplicate(&self) -> (r: LawRow)
        ensures
            r@ == self@,
    {
        LawRow {
            penal_code: self.penal_code.clone(),
            chapter: self.chapter.clone(),
            summary: self.summary.clone(),
            illustrations: self.illustrations.clone(),
            sidenotes: self.sidenotes.clone(),
        }
    }
}

/// The array column stored for an optional list: the list, or one empty string where
/// the list is absent or empty.
pub open spec fn array_values(o: Option<Seq<Seq<char>>>) -> Seq<Seq<char>> {
    match o {
        Some(v) => if v.len() > 0 {
            v
        } else {
            seq![Seq::<char>::empty()]
        },
        None => seq![Seq::<char>::empty()],
    }
}

/// The row stored for a record: absent text becomes empty, absent or empty lists one
/// empty item.
pub open spec fn row_of(b: BufferView) -> LawRowView {
    LawRowView {
        penal_code: b.penal_code,
        chapter: b.chapter,
        summary: match b.summary {
            Some(s) => s,
            None => Seq::empty(),
        },
        illustrations: array_values(b.illustrations),
        sidenotes: array_values(b.sidenotes),
    }
}

/// The values of an array column for an optional list.
pub fn arry_contructor(arr: &Option<Vec<String>>) -> (r: Vec<String>)
    ensures
        r.deep_view() == array_values(opt_list(*arr)),
{
    match arr {
        Some(a) if a.len() > 0 => a.clone(),
        _ => {
            let v = vec![String::new()];
            assert(v.deep_view() =~= seq![Seq::<char>::empty()]);
            v
        },
    }
}

/// How many bytes of a field the operator is shown.
pub const DISPLAY_WIDTH: usize = 67;

/// How many bytes UTF-8 takes for `c`.
pub open spec fn utf8_width(c: char) -> int {
    if (c as u32) < 0x80 {
        1
    } else if (c as u32) < 0x800 {
        2
    } else if (c as u32) < 0x10000 {
        3
    } else {
        4
    }
}

/// How many bytes UTF-8 takes for `s`.
pub open spec fn byte_len(s: Seq<char>) -> int
    decreases s.len(),
{
    if s.len() == 0 {
        0
    } else {
        utf8_width(s[0]) + byte_len(s.drop_first())
    }
}

/// How many leading characters of `s` fit in `limit` bytes: the cut stays on a character
/// boundary, the largest at or below `limit`.
pub open spec fn fit(s: Seq<char>, limit: int) -> int
    decreases s.len(),
{
    if s.len() == 0 || utf8_width(s[0]) > limit {
        0
    } else {
        1 + fit(s.drop_first(), limit - utf8_width(s[0]))
    }
}

/// `s` cut to the display width in bytes, at the last character boundary that fits, with
/// an ellipsis where something was cut.
pub open spec fn ellipsized(s: Seq<char>) -> Seq<char> {
    if byte_len(s) <= DISPLAY_WIDTH {
        s
    } else {
        s.subrange(0, fit(s, DISPLAY_WIDTH as int)) + "..."@
    }
}

/// How many bytes UTF-8 takes for `c`.
fn char_width(c: char) -> (r: usize)
    ensures
        r == utf8_width(c),
{
    let u = c as u32;
    if u < 0x80 {
        1
    } else if u < 0x800 {
        2
    } else if u < 0x10000 {
        3
    } else {
        4
    }
}

/// `text` cut to the display width in bytes, with an ellipsis where something was cut.
pub fn ellipsis(text: &str) -> (r: String)
    ensures
        r@ == ellipsized(text@),
{
    let v = chars_of(text);
    let n = v.len();
    let ghost s = v@;
    let mut i: usize = 0;
    let mut used: usize = 0;
    assert(s.subrange(0, n as int) =~= s);
    while i < n && used + char_width(v[i]) <= DISPLAY_WIDTH
        invariant
            n == s.len(),
            s == v@,
            i <= n,
            used <= DISPLAY_WIDTH,
            byte_len(s) == used + byte_len(s.subrange(i as int, n as int)),
            fit(s, DISPLAY_WIDTH as int) == i + fit(
                s.subrange(i as int, n as int),
                DISPLAY_WIDTH - used,
            ),
        decreases n - i,
    {
        let ghost rest = s.subrange(i as int, n as int);
        assert(rest.drop_first() =~= s.subrange(i + 1, n as int));
        assert(rest[0] == v@[i as int]);
        used = used + char_width(v[i]);
        i = i + 1;
    }
    let ghost rest = s.subrange(i as int, n as int);
    if i == n {
        assert(rest.len() == 0);
        String::from_str(text)
    } else {
        assert(rest.drop_first() =~= s.subrange(i + 1, n as int));
        assert(rest[0] == v@[i as int]);
        assert(byte_len(rest.drop_first()) >= 0) by {
            lemma_byte_len_nonneg(rest.drop_first());
        }
        let mut out = string_of(&v, 0, i);
        out.append("...");
        out
    }
}

proof fn lemma_byte_len_nonneg(s: Seq<char>)
    ensures
        byte_len(s) >= 0,
    decreases s.len(),
{
    if s.len() > 0 {
        lemma_byte_len_nonneg(s.drop_first());
    }
}

/// What `format!("{:?}", s)` gives for a string: `s` quoted, with escapes.
pub uninterp spec fn debug_quoted(s: Seq<char>) -> Seq<char>;

/// Relies on `<str as Debug>::fmt`: the quoted, escaped form of `s`.
#[verifier::external_body]
fn debug_form(s: &str) -> (r: String)
    ensures
        r@ == debug_quoted(s@),
{
    format!("{:?}", s)
}

pub open spec fn text_or_empty(o: Option<Seq<char>>) -> Seq<char> {
    match o {
        Some(s) => s,
        None => Seq::empty(),
    }
}

pub open spec fn list_or_empty(o: Option<Seq<Seq<char>>>) -> Seq<char> {
    match o {
        Some(v) => joined(v),
        None => Seq::empty(),
    }
}

/// A record as shown to the operator: each field cut to the display width, the two lists
/// in their quoted debug form.
pub open spec fn rendered(b: BufferView) -> Seq<char> {
    "Chapter: "@ + ellipsized(b.chapter) + "\nPenal Code: "@ + ellipsized(b.penal_code)
        + "\nSummary: "@ + ellipsized(text_or_empty(b.summary)) + "\nIllustrations: "@
        + debug_quoted(ellipsized(list_or_empty(b.illustrations))) + "\nSidenotes: "@
        + debug_quoted(ellipsized(list_or_empty(b.sidenotes)))
}

/// The name of the field that a state targets.
pub open spec fn state_name(s: ParsingState) -> Seq<char> {
    match s {
        ParsingState::Summary => "Summary"@,
        ParsingState::Illustrations => "Illustrations"@,
        ParsingState::Sidenotes => "Sidenotes"@,
        ParsingState::Chapter => "Chapter"@,
    }
}

pub const MENU_HEAD: &'static str = "\n    Press: i: ignore, s.<section_id>: start new section, c.<chapter_id>: sets chapter\n    u: summary, l:illustrations, d: side_bar, a: add to current (";

pub const MENU_TAIL: &'static str = ") q: quit\n    ";

/// The command menu, naming the field that `a` appends to.
pub open spec fn menu(s: ParsingState) -> Seq<char> {
    MENU_HEAD@ + state_name(s) + MENU_TAIL@
}

/// The command menu for the given state.
pub fn show_prompt(parsing_state: ParsingState) -> (r: String)
    ensures
        r@ == menu(parsing_state),
{
    let suffix = match parsing_state {
        ParsingState::Summary => "Summary",
        ParsingState::Illustrations => "Illustrations",
        ParsingState::Sidenotes => "Sidenotes",
        ParsingState::Chapter => "Chapter",
    };
    let mut out = String::from_str(MENU_HEAD);
    out.append(suffix);
    out.append(MENU_TAIL);
    out
}

pub const WINDOW_RULE: &'static str = "\n\n\n---------------------------------------";

pub const WINDOW_MARK: &'static str = ">>>> \t";

/// How many lines after the current one the window shows.
pub const WINDOW_AFTER: usize = 9;

/// Line `k` of `ls`, or nothing past the end.
pub open spec fn line_at(ls: Seq<Seq<char>>, k: int) -> Seq<char> {
    if 0 <= k < ls.len() {
        ls[k]
    } else {
        Seq::empty()
    }
}

/// The `n` lines after line `i`, each after a newline.
pub open spec fn window_rows(ls: Seq<Seq<char>>, i: int, n: nat) -> Seq<char>
    decreases n,
{
    if n == 0 {
        Seq::empty()
    } else {
        window_rows(ls, i, (n - 1) as nat) + "\n"@ + line_at(ls, i + n)
    }
}

/// The context shown for line `i`: a rule, the marked line, then the nine lines after it.
pub open spec fn window(i: int, ls: Seq<Seq<char>>) -> Seq<char> {
    WINDOW_RULE@ + "\n"@ + WINDOW_MARK@ + line_at(ls, i) + window_rows(ls, i, WINDOW_AFTER as nat)
}

/// The context shown for line `i` of `lines`.
pub fn make_window(i: usize, lines: Vec<String>) -> (r: String)
    ensures
        r@ == window(i as int, lines.deep_view()),
{
    let ghost ls = lines.deep_view();
    let mut out = String::from_str(WINDOW_RULE);
    out.append("\n");
    out.append(WINDOW_MARK);
    if i < lines.len() {
        out.append(lines[i].as_str());
    }
    let mut n: usize = 1;
    while n <= WINDOW_AFTER
        invariant
            1 <= n <= WINDOW_AFTER + 1,
            ls == lines.deep_view(),
            out@ == WINDOW_RULE@ + "\n"@ + WINDOW_MARK@ + line_at(ls, i as int) + window_rows(
                ls,
                i as int,
                (n - 1) as nat,
            ),
        decreases WINDOW_AFTER + 1 - n,
    {
        out.append("\n");
        if i < lines.len() && n < lines.len() - i {
            out.append(lines[i + n].as_str());
        }
        assert(out@ =~= WINDOW_RULE@ + "\n"@ + WINDOW_MARK@ + line_at(ls, i as int) + window_rows(
            ls,
            i as int,
            n as nat,
        ));
        n = n + 1;
    }
    out
}

} // verus!
