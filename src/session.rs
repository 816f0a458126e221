use vstd::prelude::*;

use crate::record::{
    from_chapter, fresh, make_window, menu, rendered, show_prompt, text_or_empty, window, Buffer,
    BufferView, ParsingState,
};
use crate::text::{chars_of, string_of, trim, trim_bounds};

verus! {

/// One operator answer, read after trimming.
#[derive(Debug)]
pub enum Command {
    /// Nothing was typed: the line is passed over.
    Blank,
    /// `q`: end the session.
    Quit,
    /// `i`: ignore the line.
    Ignore,
    /// Anything starting with `a`: add the line to the current field.
    Append,
    /// `s.<code>`: start the section `<code>` with the line as its summary.
    Section(String),
    /// `c.<code>`: start chapter `<code>`.
    SetChapter(String),
    /// `u`: add the line to the summary.
    Summary,
    /// `l`: add the line as an illustration.
    Illustration,
    /// `d`: add the line as a sidenote.
    Sidenote,
    /// Anything else.
    Unrecognized,
}

pub enum CommandView {
    Blank,
    Quit,
    Ignore,
    Append,
    Section(Seq<char>),
    SetChapter(Seq<char>),
    Summary,
    Illustration,
    Sidenote,
    Unrecognized,
}

impl View for Command {
    type V = CommandView;

    open spec fn view(&self) -> CommandView {
        match self {
            Command::Blank => CommandView::Blank,
            Command::Quit => CommandView::Quit,
            Command::Ignore => CommandView::Ignore,
            Command::Append => CommandView::Append,
            Command::Section(c) => CommandView::Section(c@),
            Command::SetChapter(c) => CommandView::SetChapter(c@),
            Command::Summary => CommandView::Summary,
            Command::Illustration => CommandView::Illustration,
            Command::Sidenote => CommandView::Sidenote,
            Command::Unrecognized => CommandView::Unrecognized,
        }
    }
}

/// Whether `t` is `x` followed by a dot.
pub open spec fn has_prefix(t: Seq<char>, x: char) -> bool {
    t.len() >= 2 && t[0] == x && t[1] == '.'
}

/// The command that a trimmed answer `t` stands for.
pub open spec fn command_of(t: Seq<char>) -> CommandView {
    if t.len() == 0 {
        CommandView::Blank
    } else if t == seq!['q'] {
        CommandView::Quit
    } else if t == seq!['i'] {
        CommandView::Ignore
    } else if t[0] == 'a' {
        CommandView::Append
    } else if has_prefix(t, 's') {
        CommandView::Section(t.subrange(2, t.len() as int))
    } else if has_prefix(t, 'c') {
        CommandView::SetChapter(t.subrange(2, t.len() as int))
    } else if t == seq!['u'] {
        CommandView::Summary
    } else if t == seq!['l'] {
        CommandView::Illustration
    } else if t == seq!['d'] {
        CommandView::Sidenote
    } else {
        CommandView::Unrecognized
    }
}

/// Reads an operator answer.
pub fn parse_command(input: &str) -> (r: Command)
    ensures
        r@ == command_of(trim(input@)),
{
    let raw = chars_of(input);
    let (a, b) = trim_bounds(&raw, 0, raw.len());
    assert(raw@.subrange(0, raw@.len() as int) =~= raw@);
    let ghost t = raw@.subrange(a as int, b as int);
    let n = b - a;
    if n == 0 {
        return Command::Blank;
    }
    let first = raw[a];
    assert(t[0] == first);
    if n == 1 {
        assert(t =~= seq![first]);
        if first == 'q' {
            return Command::Quit;
        } else if first == 'i' {
            return Command::Ignore;
        } else if first == 'a' {
            return Command::Append;
        } else if first == 'u' {
            return Command::Summary;
        } else if first == 'l' {
            return Command::Illustration;
        } else if first == 'd' {
            return Command::Sidenote;
        } else {
            return Command::Unrecognized;
        }
    }
    assert(t.len() >= 2);
    assert(t != seq!['q'] && t != seq!['i'] && t != seq!['u'] && t != seq!['l'] && t != seq!['d']) by {
        assert(seq!['q'].len() == 1);
    }
    let second = raw[a + 1];
    assert(t[1] == second);
    if first == 'a' {
        Command::Append
    } else if first == 's' && second == '.' {
        let code = string_of(&raw, a + 2, b);
        assert(code@ =~= t.subrange(2, t.len() as int));
        Command::Section(code)
    } else if first == 'c' && second == '.' {
        let code = string_of(&raw, a + 2, b);
        assert(code@ =~= t.subrange(2, t.len() as int));
        Command::SetChapter(code)
    } else {
        Command::Unrecognized
    }
}

/// `o`, or nothing, followed by a newline and `line`.
pub open spec fn append_text(o: Option<Seq<char>>, line: Seq<char>) -> Seq<char> {
    text_or_empty(o) + seq!['\n'] + line
}

/// The list `o`, or an empty one, with `line` added at the end.
pub open spec fn add_item(o: Option<Seq<Seq<char>>>, line: Seq<char>) -> Seq<Seq<char>> {
    let items = match o {
        Some(v) => v,
        None => Seq::empty(),
    };
    items.push(line)
}

/// The chapter label that `c.<code>` sets.
pub open spec fn chapter_label(code: Seq<char>) -> Seq<char> {
    "Chapter"@ + code + "\n"@
}

pub open spec fn with_chapter(b: BufferView, chapter: Seq<char>) -> BufferView {
    BufferView { chapter, ..b }
}

pub open spec fn with_summary(b: BufferView, summary: Seq<char>) -> BufferView {
    BufferView { summary: Some(summary), ..b }
}

pub open spec fn with_illustration(b: BufferView, line: Seq<char>) -> BufferView {
    BufferView { illustrations: Some(add_item(b.illustrations, line)), ..b }
}

pub open spec fn with_sidenote(b: BufferView, line: Seq<char>) -> BufferView {
    BufferView { sidenotes: Some(add_item(b.sidenotes, line)), ..b }
}

/// The record after `line` is added to the field that `state` targets.
pub open spec fn appended(b: BufferView, state: ParsingState, line: Seq<char>) -> BufferView {
    match state {
        ParsingState::Chapter => with_chapter(b, append_text(Some(b.chapter), line)),
        ParsingState::Summary => with_summary(b, append_text(b.summary, line)),
        ParsingState::Illustrations => with_illustration(b, line),
        ParsingState::Sidenotes => with_sidenote(b, line),
    }
}

/// What a session holds: the record under construction, the field appends target, the
/// snapshots emitted so far, and whether the operator has quit.
pub struct SessionView {
    pub record: BufferView,
    pub state: ParsingState,
    pub emitted: Seq<BufferView>,
    pub finished: bool,
}

/// The session after `record` and `state` take over and `record` is emitted.
pub open spec fn emit(s: SessionView, record: BufferView, state: ParsingState) -> SessionView {
    SessionView { record, state, emitted: s.emitted.push(record), finished: s.finished }
}

/// The session after the operator answers `cmd` for the text line `line`. A finished
/// session, or an empty line, changes nothing. Every step but a blank answer, `i`, `q`
/// and an append to the chapter emits a snapshot of the record.
pub open spec fn step(s: SessionView, line: Seq<char>, cmd: CommandView) -> SessionView {
    if s.finished || line.len() == 0 {
        s
    } else {
        match cmd {
            CommandView::Blank => s,
            CommandView::Ignore => s,
            CommandView::Quit => SessionView { finished: true, ..s },
            CommandView::Append => {
                let r = appended(s.record, s.state, line);
                if s.state == ParsingState::Chapter {
                    SessionView { record: r, ..s }
                } else {
                    emit(s, r, s.state)
                }
            },
            CommandView::Section(code) => emit(
                s,
                BufferView { penal_code: code, summary: Some(line), ..s.record },
                ParsingState::Summary,
            ),
            CommandView::SetChapter(code) => emit(
                s,
                with_chapter(s.record, chapter_label(code)),
                ParsingState::Chapter,
            ),
            CommandView::Summary => emit(
                s,
                appended(s.record, ParsingState::Summary, line),
                ParsingState::Summary,
            ),
            CommandView::Illustration => emit(
                s,
                appended(s.record, ParsingState::Illustrations, line),
                ParsingState::Illustrations,
            ),
            CommandView::Sidenote => emit(
                s,
                appended(s.record, ParsingState::Sidenotes, line),
                ParsingState::Sidenotes,
            ),
            CommandView::Unrecognized => emit(s, s.record, s.state),
        }
    }
}

/// The session in which the operator annotates one chapter.
pub struct Session {
    record: Buffer,
    state: ParsingState,
    emitted: Vec<Buffer>,
    finished: bool,
}

impl View for Session {
    type V = SessionView;

    closed spec fn view(&self) -> SessionView {
        SessionView {
            record: self.record@,
            state: self.state,
            emitted: self.emitted@.map_values(|b: Buffer| b@),
            finished: self.finished,
        }
    }
}

/// The session that annotation starts from.
pub open spec fn initial() -> SessionView {
    SessionView {
        record: fresh(Seq::empty()),
        state: ParsingState::Chapter,
        emitted: Seq::empty(),
        finished: false,
    }
}

fn append_line(text: &mut String, line: &str)
    ensures
        final(text)@ == old(text)@ + seq!['\n'] + line@,
{
    text.append("\n");
    proof {
        reveal_strlit("\n");
    }
    text.append(line);
}

fn appended_text(o: Option<String>, line: &str) -> (r: String)
    ensures
        r@ == append_text(crate::record::opt_text(o), line@),
{
    let mut s = match o {
        Some(s) => s,
        None => String::new(),
    };
    append_line(&mut s, line);
    s
}

fn added_item(o: Option<Vec<String>>, line: &str) -> (r: Vec<String>)
    ensures
        r.deep_view() == add_item(crate::record::opt_list(o), line@),
{
    let mut v = match o {
        Some(v) => v,
        None => Vec::new(),
    };
    let ghost before = v.deep_view();
    v.push(String::from_str(line));
    assert(v.deep_view() =~= before.push(line@));
    v
}

impl Session {
    /// A session at its start: an empty record, appends going to the chapter.
    pub fn new() -> (r: Session)
        ensures
            r@ == initial(),
    {
        let r = Session {
            record: from_chapter(String::new()),
            state: ParsingState::Chapter,
            emitted: Vec::new(),
            finished: false,
        };
        assert(r@.emitted =~= Seq::<BufferView>::empty());
        r
    }

    /// The record under construction.
    pub fn record(&self) -> (r: &Buffer)
        ensures
            r@ == self@.record,
    {
        &self.record
    }

    /// The field that appends target.
    pub fn state(&self) -> (r: ParsingState)
        ensures
            r == self@.state,
    {
        self.state
    }

    /// Whether the operator has quit.
    pub fn is_finished(&self) -> (r: bool)
        ensures
            r == self@.finished,
    {
        self.finished
    }

    /// The snapshots emitted so far.
    pub fn records(&self) -> (r: &Vec<Buffer>)
        ensures
            r@.map_values(|b: Buffer| b@) == self@.emitted,
    {
        &self.emitted
    }

    /// The snapshots emitted, ending the session.
    pub fn into_records(self) -> (r: Vec<Buffer>)
        ensures
            r@.map_values(|b: Buffer| b@) == self@.emitted,
    {
        self.emitted
    }

    /// What the operator is shown before answering for line `i` of `lines`: the record,
    /// the context window and the command menu.
    pub fn prompt(&self, i: usize, lines: Vec<String>) -> (r: String)
        ensures
            r@ == rendered(self@.record) + "\n\n"@ + window(i as int, lines.deep_view()) + "\n\n\n"@
                + menu(self@.state),
    {
        let mut out = self.record.render();
        out.append("\n\n");
        out.append(make_window(i, lines).as_str());
        out.append("\n\n\n");
        out.append(show_prompt(self.state).as_str());
        out
    }

    /// Whether the operator is to be asked about `line`.
    pub fn needs_prompt(&self, line: &str) -> (r: bool)
        ensures
            r == (!self@.finished && line@.len() > 0),
    {
        !self.finished && line.unicode_len() > 0
    }

    fn emit_record(&mut self)
        ensures
            final(self)@ == emit(old(self)@, old(self)@.record, old(self)@.state),
    {
        let ghost before = self@.emitted;
        let copy = self.record.snapshot();
        self.emitted.push(copy);
        assert(self@.emitted =~= before.push(self@.record));
    }

    /// Applies the answer `cmd` given for the text line `line`.
    pub fn apply(&mut self, line: &str, cmd: Command)
        ensures
            final(self)@ == step(old(self)@, line@, cmd@),
    {
        if self.finished || line.unicode_len() == 0 {
            return;
        }
        match cmd {
            Command::Blank => {},
            Command::Ignore => {},
            Command::Quit => {
                self.finished = true;
            },
            Command::Append => {
                match self.state {
                    ParsingState::Chapter => {
                        append_line(&mut self.record.chapter, line);
                    },
                    ParsingState::Summary => {
                        let old_summary = self.record.summary.take();
                        self.record.summary = Some(appended_text(old_summary, line));
                        self.emit_record();
                    },
                    ParsingState::Illustrations => {
                        let old_items = self.record.illustrations.take();
                        self.record.illustrations = Some(added_item(old_items, line));
                        self.emit_record();
                    },
                    ParsingState::Sidenotes => {
                        let old_items = self.record.sidenotes.take();
                        self.record.sidenotes = Some(added_item(old_items, line));
                        self.emit_record();
                    },
                }
            },
            Command::Section(code) => {
                self.record.penal_code = code;
                self.record.summary = Some(String::from_str(line));
                self.state = ParsingState::Summary;
                self.emit_record();
            },
            Command::SetChapter(code) => {
                let mut label = String::from_str("Chapter");
                label.append(code.as_str());
                label.append("\n");
                self.record.chapter = label;
                self.state = ParsingState::Chapter;
                self.emit_record();
            },
            Command::Summary => {
                let old_summary = self.record.summary.take();
                self.record.summary = Some(appended_text(old_summary, line));
                self.state = ParsingState::Summary;
                self.emit_record();
            },
            Command::Illustration => {
                let old_items = self.record.illustrations.take();
                self.record.illustrations = Some(added_item(old_items, line));
                self.state = ParsingState::Illustrations;
                self.emit_record();
            },
            Command::Sidenote => {
                let old_items = self.record.sidenotes.take();
                self.record.sidenotes = Some(added_item(old_items, line));
                self.state = ParsingState::Sidenotes;
                self.emit_record();
            },
            Command::Unrecognized => {
                self.emit_record();
            },
        }
    }

    /// Reads the operator's answer `input` for the text line `line` and applies it.
    pub fn feed(&mut self, line: &str, input: &str)
        ensures
            final(self)@ == step(old(self)@, line@, command_of(trim(input@))),
    {
        let cmd = parse_command(input);
        self.apply(line, cmd);
    }
}

/// The session after replaying `answers` over `lines`: each non-empty line takes the
/// next answer; the replay stops when the operator quits or the answers run out.
pub open spec fn replay(s: SessionView, lines: Seq<Seq<char>>, answers: Seq<Seq<char>>) -> SessionView
    decreases lines.len(),
{
    if lines.len() == 0 || s.finished {
        s
    } else if lines[0].len() == 0 {
        replay(s, lines.drop_first(), answers)
    } else if answers.len() == 0 {
        s
    } else {
        replay(
            step(s, lines[0], command_of(trim(answers[0]))),
            lines.drop_first(),
            answers.drop_first(),
        )
    }
}

/// Annotates the lines of one chapter with a recorded sequence of operator answers, one
/// per non-empty line, and returns the snapshots emitted.
pub fn parse_input(lines: Vec<String>, answers: Vec<String>) -> (r: Vec<Buffer>)
    ensures
        r@.map_values(|b: Buffer| b@) == replay(initial(), lines.deep_view(), answers.deep_view()).emitted,
{
    let ghost ls = lines.deep_view();
    let ghost ans = answers.deep_view();
    let mut session = Session::new();
    let mut i: usize = 0;
    let mut j: usize = 0;
    assert(ls.subrange(0, ls.len() as int) =~= ls);
    assert(ans.subrange(0, ans.len() as int) =~= ans);
    while i < lines.len() && !session.is_finished() && (lines[i].unicode_len() == 0 || j
        < answers.len())
        invariant
            i <= lines@.len(),
            j <= answers@.len(),
            ls == lines.deep_view(),
            ans == answers.deep_view(),
            replay(initial(), ls, ans) == replay(
                session@,
                ls.subrange(i as int, ls.len() as int),
                ans.subrange(j as int, ans.len() as int),
            ),
        decreases lines@.len() - i,
    {
        let ghost rest = ls.subrange(i as int, ls.len() as int);
        let ghost rest_ans = ans.subrange(j as int, ans.len() as int);
        assert(rest.drop_first() =~= ls.subrange(i + 1, ls.len() as int));
        assert(rest[0] == lines[i as int]@);
        if lines[i].unicode_len() > 0 {
            assert(rest_ans.drop_first() =~= ans.subrange(j + 1, ans.len() as int));
            assert(rest_ans[0] == answers[j as int]@);
            session.feed(lines[i].as_str(), answers[j].as_str());
            j = j + 1;
        }
        i = i + 1;
    }
    proof {
        let rest = ls.subrange(i as int, ls.len() as int);
        let rest_ans = ans.subrange(j as int, ans.len() as int);
        if i < lines@.len() && !session@.finished {
            assert(rest[0] == lines[i as int]@);
            assert(rest_ans.len() == 0);
        }
    }
    session.into_records()
}

} // verus!
