use vstd::prelude::*;
use crate::agent::AgentEvent;
use crate::text::{join, trim, trimmed};

verus! {

/// A colour of the full-screen view.
#[derive(Debug, Clone, Copy, PartialEq, Eq)]
pub enum Color {
    Red,
    Green,
    Blue,
    Cyan,
    Magenta,
    Yellow,
    White,
    LightYellow,
    DarkGray,
}

/// How a piece of text is drawn.
#[derive(Debug, Clone, Copy, PartialEq, Eq)]
pub struct TextStyle {
    pub fg: Option<Color>,
    pub bg: Option<Color>,
    pub bold: bool,
    pub italic: bool,
    pub underlined: bool,
    pub dim: bool,
}

/// A style with no colour and no modifier.
pub open spec fn plain() -> TextStyle {
    TextStyle { fg: None, bg: None, bold: false, italic: false, underlined: false, dim: false }
}

/// The styles the assistant's markdown answers are drawn with.
#[derive(Debug, Clone, Copy)]
pub struct ZetaStyleSheet;

/// The colour of a heading of the given level: red, green, blue, cyan,
/// magenta and yellow for levels 1 to 6, white for any other.
pub open spec fn heading_color(level: u8) -> Color {
    if level == 1 {
        Color::Red
    } else if level == 2 {
        Color::Green
    } else if level == 3 {
        Color::Blue
    } else if level == 4 {
        Color::Cyan
    } else if level == 5 {
        Color::Magenta
    } else if level == 6 {
        Color::Yellow
    } else {
        Color::White
    }
}

fn style(fg: Option<Color>) -> (s: TextStyle)
    ensures
        s == (TextStyle { fg: fg, ..plain() }),
{
    TextStyle { fg, bg: None, bold: false, italic: false, underlined: false, dim: false }
}

impl ZetaStyleSheet {
    /// Headings are bold, coloured by level.
    pub fn heading(&self, level: u8) -> (s: TextStyle)
        ensures
            s == (TextStyle { fg: Some(heading_color(level)), bold: true, ..plain() }),
    {
        let fg = match level {
            1 => Color::Red,
            2 => Color::Green,
            3 => Color::Blue,
            4 => Color::Cyan,
            5 => Color::Magenta,
            6 => Color::Yellow,
            _ => Color::White,
        };
        TextStyle { fg: Some(fg), bg: None, bold: true, italic: false, underlined: false, dim: false }
    }

    /// Code is white on dark grey.
    pub fn code(&self) -> (s: TextStyle)
        ensures
            s == (TextStyle { fg: Some(Color::White), bg: Some(Color::DarkGray), ..plain() }),
    {
        TextStyle {
            fg: Some(Color::White),
            bg: Some(Color::DarkGray),
            bold: false,
            italic: false,
            underlined: false,
            dim: false,
        }
    }

    /// Links are blue and underlined.
    pub fn link(&self) -> (s: TextStyle)
        ensures
            s == (TextStyle { fg: Some(Color::Blue), underlined: true, ..plain() }),
    {
        TextStyle {
            fg: Some(Color::Blue),
            bg: None,
            bold: false,
            italic: false,
            underlined: true,
            dim: false,
        }
    }

    /// Block quotes are yellow.
    pub fn blockquote(&self) -> (s: TextStyle)
        ensures
            s == (TextStyle { fg: Some(Color::Yellow), ..plain() }),
    {
        style(Some(Color::Yellow))
    }

    /// Heading markers are dim.
    pub fn heading_meta(&self) -> (s: TextStyle)
        ensures
            s == (TextStyle { dim: true, ..plain() }),
    {
        TextStyle { fg: None, bg: None, bold: false, italic: false, underlined: false, dim: true }
    }

    /// Metadata blocks are light yellow.
    pub fn metadata_block(&self) -> (s: TextStyle)
        ensures
            s == (TextStyle { fg: Some(Color::LightYellow), ..plain() }),
    {
        style(Some(Color::LightYellow))
    }
}


/// One entry of the conversation shown in the full-screen view.
#[derive(Debug, Clone, PartialEq, Eq)]
pub enum MessageLine {
    User(String),
    Assistant(String),
    ToolCall(String, String),
    Error(String),
}

/// A conversation entry as text.
pub enum MessageView {
    User(Seq<char>),
    Assistant(Seq<char>),
    ToolCall(Seq<char>, Seq<char>),
    Error(Seq<char>),
}

impl View for MessageLine {
    type V = MessageView;

    open spec fn view(&self) -> MessageView {
        match self {
            MessageLine::User(t) => MessageView::User(t@),
            MessageLine::Assistant(t) => MessageView::Assistant(t@),
            MessageLine::ToolCall(n, a) => MessageView::ToolCall(n@, a@),
            MessageLine::Error(e) => MessageView::Error(e@),
        }
    }
}

/// A key press as the view reads it.
#[derive(Debug, Clone, Copy, PartialEq, Eq)]
pub enum KeyKind {
    Esc,
    Enter,
    Other,
}

/// A key event: which key, whether shift was held, whether it is the
/// key's release.
#[derive(Debug, Clone, Copy, PartialEq, Eq)]
pub struct KeyPress {
    pub kind: KeyKind,
    pub shift: bool,
    pub released: bool,
}

/// What the view asks of its caller after a key event.
#[derive(Debug, Clone, PartialEq, Eq)]
pub enum KeyAction {
    /// Nothing.
    Ignore,
    /// Give the key to the input area.
    ToTextarea,
    /// Clear the input area and send this message to the agent.
    Submit(String),
}

/// The conversation after streamed text `t` arrives: it extends the last
/// entry when that is the assistant's, and opens an assistant entry
/// otherwise.
pub open spec fn after_token(msgs: Seq<MessageView>, t: Seq<char>) -> Seq<MessageView> {
    if msgs.len() > 0 && msgs.last() is Assistant {
        msgs.update(msgs.len() - 1, MessageView::Assistant(msgs.last()->Assistant_0 + t))
    } else {
        msgs.push(MessageView::Assistant(t))
    }
}

/// The conversation after an agent event.
pub open spec fn after_event(msgs: Seq<MessageView>, event: AgentEvent) -> Seq<MessageView> {
    match event {
        AgentEvent::Token(t) => after_token(msgs, t@),
        AgentEvent::ToolCall(c) => msgs.push(MessageView::ToolCall(c.name@, c.arguments@)),
        AgentEvent::Error(e) => msgs.push(MessageView::Error(e@)),
        _ => msgs,
    }
}

/// The spinner frame for a frame count.
pub open spec fn spinner(frame_count: usize) -> Seq<char> {
    let k = frame_count % 4;
    if k == 0 {
        "/"@
    } else if k == 1 {
        "-"@
    } else if k == 2 {
        "\\"@
    } else {
        "|"@
    }
}

/// The input lines joined with newlines, without surrounding whitespace.
pub open spec fn typed_message(lines: Seq<String>) -> Seq<char> {
    trimmed(join(lines.map_values(|l: String| l@), "\n"@))
}

/// The state of the full-screen view that does not belong to the terminal
/// widgets: the conversation, scrolling, and whether an answer is awaited.
#[derive(Debug, Clone, PartialEq, Eq)]
pub struct AppState {
    pub messages: Vec<MessageLine>,
    pub scroll_offset: u16,
    pub max_scroll_offset: u16,
    pub auto_scroll: bool,
    pub waiting: bool,
    pub exit: bool,
    pub frame_count: usize,
}

/// Joins the lines with newlines.
fn join_lines(lines: &Vec<String>) -> (out: String)
    ensures
        out@ == join(lines@.map_values(|l: String| l@), "\n"@),
{
    let ghost v = |l: String| l@;
    let mut out = String::new();
    let mut i: usize = 0;
    while i < lines.len()
        invariant
            i <= lines.len(),
            v == (|l: String| l@),
            out@ == join(lines@.map_values(v).take(i as int), "\n"@),
        decreases lines.len() - i,
    {
        if i > 0 {
            out.append("\n");
        }
        out.append(lines[i].as_str());
        proof {
            let m = lines@.map_values(v);
            assert(m.take(i + 1).drop_last() == m.take(i as int));
            assert(m.take(i + 1).last() == lines@[i as int]@);
        }
        i = i + 1;
    }
    assert(lines@.map_values(v).take(i as int) == lines@.map_values(v));
    out
}

impl AppState {
    /// The conversation as text.
    pub open spec fn conversation(&self) -> Seq<MessageView> {
        self.messages@.map_values(|m: MessageLine| m@)
    }

    /// An empty conversation, scrolled to the top, awaiting nothing.
    pub fn new() -> (s: Self)
        ensures
            s.conversation() == Seq::<MessageView>::empty(),
            s.scroll_offset == 0,
            s.max_scroll_offset == 0,
            !s.auto_scroll,
            !s.waiting,
            !s.exit,
            s.frame_count == 0,
    {
        let s = AppState {
            messages: Vec::new(),
            scroll_offset: 0,
            max_scroll_offset: 0,
            auto_scroll: false,
            waiting: false,
            exit: false,
            frame_count: 0,
        };
        assert(s.conversation() =~= Seq::<MessageView>::empty());
        s
    }

    /// Takes in an agent event: streamed text grows the assistant's entry,
    /// a tool call or an error adds an entry, and the end of an answer or
    /// an error stops the waiting.
    pub fn apply_agent_event(&mut self, event: AgentEvent)
        ensures
            final(self).conversation() == after_event(old(self).conversation(), event),
            final(self).waiting == (old(self).waiting && !(event is Done) && !(event is Error)),
            final(self).scroll_offset == old(self).scroll_offset,
            final(self).max_scroll_offset == old(self).max_scroll_offset,
            final(self).auto_scroll == old(self).auto_scroll,
            final(self).exit == old(self).exit,
            final(self).frame_count == old(self).frame_count,
    {
        let ghost before = self.conversation();
        let ghost f = |m: MessageLine| m@;
        match event {
            AgentEvent::Token(t) => {
                let n = self.messages.len();
                let extend = n > 0 && match &self.messages[n - 1] {
                    MessageLine::Assistant(_) => true,
                    _ => false,
                };
                if extend {
                    let last = self.messages.pop();
                    match last {
                        Some(MessageLine::Assistant(mut text)) => {
                            text.append(t.as_str());
                            self.messages.push(MessageLine::Assistant(text));
                        },
                        _ => {},
                    }
                    assert(self.conversation() =~= after_token(before, t@));
                } else {
                    self.messages.push(MessageLine::Assistant(t));
                    assert(self.conversation() =~= after_token(before, t@));
                }
            },
            AgentEvent::ToolCall(c) => {
                self.messages.push(MessageLine::ToolCall(c.name, c.arguments));
                assert(self.conversation() =~= before.push(MessageView::ToolCall(c.name@, c.arguments@)));
            },
            AgentEvent::ToolCallDone => {},
            AgentEvent::Done => {
                self.waiting = false;
            },
            AgentEvent::Error(e) => {
                self.messages.push(MessageLine::Error(e));
                assert(self.conversation() =~= before.push(MessageView::Error(e@)));
                self.waiting = false;
            },
        }
    }

    /// Counts one more drawn frame, wrapping around at the largest count.
    pub fn next_frame(&mut self)
        ensures
            final(self).frame_count == (if old(self).frame_count == usize::MAX {
                0
            } else {
                old(self).frame_count + 1
            }),
            final(self).conversation() == old(self).conversation(),
            final(self).scroll_offset == old(self).scroll_offset,
            final(self).max_scroll_offset == old(self).max_scroll_offset,
            final(self).auto_scroll == old(self).auto_scroll,
            final(self).waiting == old(self).waiting,
            final(self).exit == old(self).exit,
    {
        if self.frame_count == usize::MAX {
            self.frame_count = 0;
        } else {
            self.frame_count = self.frame_count + 1;
        }
    }

    /// Scrolls one line down, no further than the last line; the view stops
    /// following new output.
    pub fn scroll_down(&mut self)
        requires
            old(self).scroll_offset < u16::MAX,
        ensures
            final(self).scroll_offset == (if old(self).scroll_offset + 1 > old(self).max_scroll_offset {
                old(self).max_scroll_offset as int
            } else {
                old(self).scroll_offset + 1
            }),
            final(self).scroll_offset <= final(self).max_scroll_offset,
            !final(self).auto_scroll,
            final(self).conversation() == old(self).conversation(),
            final(self).max_scroll_offset == old(self).max_scroll_offset,
            final(self).waiting == old(self).waiting,
            final(self).exit == old(self).exit,
            final(self).frame_count == old(self).frame_count,
    {
        self.auto_scroll = false;
        let next = self.scroll_offset + 1;
        self.scroll_offset = if next > self.max_scroll_offset {
            self.max_scroll_offset
        } else {
            next
        };
    }

    /// Scrolls one line up, no further than the first line; the view stops
    /// following new output.
    pub fn scroll_up(&mut self)
        ensures
            final(self).scroll_offset == (if old(self).scroll_offset == 0 {
                0
            } else {
                old(self).scroll_offset - 1
            }),
            !final(self).auto_scroll,
            final(self).conversation() == old(self).conversation(),
            final(self).max_scroll_offset == old(self).max_scroll_offset,
            final(self).waiting == old(self).waiting,
            final(self).exit == old(self).exit,
            final(self).frame_count == old(self).frame_count,
    {
        self.auto_scroll = false;
        if self.scroll_offset > 0 {
            self.scroll_offset = self.scroll_offset - 1;
        }
    }

    /// Takes in a key event with the input area's current lines. Releases
    /// are ignored; Esc asks to exit; shift-Enter and, while no answer is
    /// awaited, other keys go to the input area; Enter sends the typed
    /// message, if any is left after trimming, and waits for the answer.
    pub fn handle_key(&mut self, key: KeyPress, input_lines: &Vec<String>) -> (action: KeyAction)
        ensures
            key.released ==> action is Ignore && *final(self) == *old(self),
            !key.released && key.kind is Esc ==> action is Ignore && final(self).exit
                && final(self).conversation() == old(self).conversation()
                && final(self).waiting == old(self).waiting
                && final(self).auto_scroll == old(self).auto_scroll,
            !key.released && key.kind is Enter && key.shift ==> action is ToTextarea
                && *final(self) == *old(self),
            !key.released && key.kind is Other ==> *final(self) == *old(self) && (if old(
                self,
            ).waiting {
                action is Ignore
            } else {
                action is ToTextarea
            }),
            !key.released && key.kind is Enter && !key.shift ==> {
                let m = typed_message(input_lines@);
                &&& final(self).auto_scroll
                &&& final(self).exit == old(self).exit
                &&& if m.len() == 0 {
                    &&& action is Ignore
                    &&& !final(self).waiting
                    &&& final(self).conversation() == old(self).conversation()
                } else {
                    &&& action matches KeyAction::Submit(text) && text@ == m
                    &&& final(self).waiting
                    &&& final(self).conversation() == old(self).conversation().push(
                        MessageView::User(m),
                    )
                }
            },
            final(self).scroll_offset == old(self).scroll_offset,
            final(self).max_scroll_offset == old(self).max_scroll_offset,
            final(self).frame_count == old(self).frame_count,
    {
        if key.released {
            return KeyAction::Ignore;
        }
        match key.kind {
            KeyKind::Esc => {
                self.exit = true;
                KeyAction::Ignore
            },
            KeyKind::Enter => {
                if key.shift {
                    KeyAction::ToTextarea
                } else {
                    self.waiting = true;
                    self.auto_scroll = true;
                    let joined = join_lines(input_lines);
                    let input = trim(joined.as_str());
                    if input.as_str().is_empty() {
                        self.waiting = false;
                        return KeyAction::Ignore;
                    }
                    let ghost before = self.conversation();
                    let sent = input.clone();
                    self.messages.push(MessageLine::User(input));
                    assert(self.conversation() =~= before.push(MessageView::User(sent@)));
                    KeyAction::Submit(sent)
                }
            },
            KeyKind::Other => {
                if self.waiting {
                    KeyAction::Ignore
                } else {
                    KeyAction::ToTextarea
                }
            },
        }
    }

    /// The mark left of the input area: a spinner frame while an answer is
    /// awaited, `>` otherwise.
    pub fn indicator(&self) -> (s: &'static str)
        ensures
            s@ == (if self.waiting {
                spinner(self.frame_count)
            } else {
                ">"@
            }),
    {
        if self.waiting {
            let k = self.frame_count % 4;
            if k == 0 {
                "/"
            } else if k == 1 {
                "-"
            } else if k == 2 {
                "\\"
            } else {
                "|"
            }
        } else {
            ">"
        }
    }

    /// Recomputes how far the conversation can scroll, given how many rows
    /// its lines take and the height of its area; while following new
    /// output, scrolls to the end.
    pub fn update_scroll(&mut self, rows: usize, area_height: u16)
        requires
            (rows as u16) < 65534,
        ensures
            final(self).max_scroll_offset == max_scroll_for(rows, area_height),
            final(self).scroll_offset == (if old(self).auto_scroll {
                final(self).max_scroll_offset
            } else {
                old(self).scroll_offset
            }),
            final(self).conversation() == old(self).conversation(),
            final(self).auto_scroll == old(self).auto_scroll,
            final(self).waiting == old(self).waiting,
            final(self).exit == old(self).exit,
            final(self).frame_count == old(self).frame_count,
    {
        let total = (rows as u16) + 2;
        self.max_scroll_offset = if total > area_height {
            total - area_height
        } else {
            0
        };
        if self.auto_scroll {
            self.scroll_offset = self.max_scroll_offset;
        }
    }
}

/// How far a conversation taking `rows` rows scrolls in an area
/// `area_height` high, with one row of padding above and below.
pub open spec fn max_scroll_for(rows: usize, area_height: u16) -> u16 {
    let total = (rows as u16) + 2;
    if total > area_height {
        (total - area_height) as u16
    } else {
        0
    }
}

/// The height of the input area: two border rows more than its lines, at
/// least 3 and at most 20.
pub fn input_height(line_count: usize) -> (h: u16)
    requires
        (line_count as u16) < 65534,
    ensures
        h == (if (line_count as u16) + 2 < 3 {
            3
        } else if (line_count as u16) + 2 > 20 {
            20
        } else {
            (line_count as u16) + 2
        }),
{
    let total = (line_count as u16) + 2;
    if total < 3 {
        3
    } else if total > 20 {
        20
    } else {
        total
    }
}

/// Rows a line of the given display width takes in an area `area_width`
/// wide: one for an empty line, otherwise the width divided by the area's
/// width, rounded up.
pub open spec fn rows_of(width: usize, area_width: u16) -> int {
    if width == 0 {
        1
    } else {
        (width / (area_width as usize)) + (if width % (area_width as usize) == 0 {
            0int
        } else {
            1int
        })
    }
}

/// Rows that lines of the given widths take together.
pub open spec fn total_rows(widths: Seq<usize>, area_width: u16) -> int
    decreases widths.len(),
{
    if widths.len() == 0 {
        0
    } else {
        total_rows(widths.drop_last(), area_width) + rows_of(widths.last(), area_width)
    }
}

proof fn lemma_total_rows_take(widths: Seq<usize>, area_width: u16, i: int)
    requires
        0 <= i < widths.len(),
    ensures
        total_rows(widths.take(i + 1), area_width) == total_rows(widths.take(i), area_width)
            + rows_of(widths[i], area_width),
{
    assert(widths.take(i + 1).drop_last() == widths.take(i));
}

/// The rows the conversation's lines take, wrapped to the area's width.
pub fn logical_line_count(widths: &Vec<usize>, area_width: u16) -> (rows: usize)
    requires
        area_width > 0 || forall|i: int| 0 <= i < widths@.len() ==> widths@[i] == 0,
        total_rows(widths@, area_width) <= usize::MAX,
    ensures
        rows == total_rows(widths@, area_width),
{
    let mut rows: usize = 0;
    let mut i: usize = 0;
    while i < widths.len()
        invariant
            i <= widths.len(),
            area_width > 0 || forall|k: int| 0 <= k < widths@.len() ==> widths@[k] == 0,
            total_rows(widths@, area_width) <= usize::MAX,
            rows == total_rows(widths@.take(i as int), area_width),
        decreases widths.len() - i,
    {
        proof {
            lemma_total_rows_take(widths@, area_width, i as int);
            lemma_total_rows_prefix(widths@, area_width, i + 1);
        }
        let w = widths[i];
        let r: usize = if w == 0 {
            1
        } else {
            let a = area_width as usize;
            if w % a == 0 {
                w / a
            } else {
                w / a + 1
            }
        };
        rows = rows + r;
        i = i + 1;
    }
    assert(widths@.take(i as int) == widths@);
    rows
}

proof fn lemma_total_rows_prefix(widths: Seq<usize>, area_width: u16, i: int)
    requires
        0 <= i <= widths.len(),
        area_width > 0 || forall|k: int| 0 <= k < widths.len() ==> widths[k] == 0,
    ensures
        total_rows(widths.take(i), area_width) <= total_rows(widths, area_width),
    decreases widths.len() - i,
{
    if i < widths.len() {
        lemma_total_rows_prefix(widths, area_width, i + 1);
        lemma_total_rows_take(widths, area_width, i);
        if widths[i] != 0 {
            assert(area_width > 0);
            assert((widths[i] / (area_width as usize)) >= 0);
        }
    } else {
        assert(widths.take(i) == widths);
    }
}


/// The line drawn for a conversation entry other than the assistant's, whose
/// markdown is laid out separately: the user's text, `-> name(arguments)`
/// for a tool call, and an error's text.
pub open spec fn entry_line(m: MessageView) -> Option<Seq<char>> {
    match m {
        MessageView::User(t) => Some(t),
        MessageView::Assistant(_) => None,
        MessageView::ToolCall(n, a) => Some("-> "@ + n + "("@ + a + ")"@),
        MessageView::Error(e) => Some(e),
    }
}

/// The line drawn for a conversation entry; `None` for the assistant's.
pub fn message_line(msg: &MessageLine) -> (r: Option<String>)
    ensures
        match r {
            Some(s) => entry_line(msg@) == Some(s@),
            None => entry_line(msg@) is None,
        },
{
    match msg {
        MessageLine::User(t) => Some(t.clone()),
        MessageLine::Assistant(_) => None,
        MessageLine::ToolCall(n, a) => {
            let mut s = String::new();
            s.append("-> ");
            s.append(n.as_str());
            s.append("(");
            s.append(a.as_str());
            s.append(")");
            Some(s)
        },
        MessageLine::Error(e) => Some(e.clone()),
    }
}

/// The style of a conversation entry's line: the user's in italic cyan, a
/// tool call in green, an error in red.
pub fn message_style(msg: &MessageLine) -> (s: TextStyle)
    ensures
        s == (match msg@ {
            MessageView::User(_) => TextStyle { fg: Some(Color::Cyan), italic: true, ..plain() },
            MessageView::ToolCall(_, _) => TextStyle { fg: Some(Color::Green), ..plain() },
            MessageView::Error(_) => TextStyle { fg: Some(Color::Red), ..plain() },
            MessageView::Assistant(_) => plain(),
        }),
{
    match msg {
        MessageLine::User(_) => TextStyle {
            fg: Some(Color::Cyan),
            bg: None,
            bold: false,
            italic: true,
            underlined: false,
            dim: false,
        },
        MessageLine::ToolCall(_, _) => style(Some(Color::Green)),
        MessageLine::Error(_) => style(Some(Color::Red)),
        MessageLine::Assistant(_) => style(None),
    }
}


/// Streamed text accumulates: two pieces arriving one after the other leave
/// the conversation as the two pieces arriving at once would.
pub proof fn streamed_text_accumulates(msgs: Seq<MessageView>, a: Seq<char>, b: Seq<char>)
    ensures
        after_token(after_token(msgs, a), b) == after_token(msgs, a + b),
{
    let once = after_token(msgs, a);
    assert(once.len() > 0 && once.last() is Assistant);
    if msgs.len() > 0 && msgs.last() is Assistant {
        assert(msgs.last()->Assistant_0 + a + b == msgs.last()->Assistant_0 + (a + b));
        assert(after_token(once, b) =~= after_token(msgs, a + b));
    } else {
        assert(after_token(once, b) =~= after_token(msgs, a + b));
    }
}


/// A streamed piece of text changes no entry but the last: it is appended to
/// the last entry when that is the assistant's answer, and otherwise opens a
/// new assistant entry after all the others.
pub proof fn token_touches_only_the_end(msgs: Seq<MessageView>, event: AgentEvent)
    requires
        event is Token,
    ensures
        ({
            let t = event->Token_0@;
            let r = after_event(msgs, event);
            &&& forall|i: int| 0 <= i < msgs.len() - 1 ==> r[i] == msgs[i]
            &&& if msgs.len() > 0 && msgs[msgs.len() - 1] is Assistant {
                &&& r.len() == msgs.len()
                &&& r[msgs.len() - 1] == MessageView::Assistant(
                    msgs[msgs.len() - 1]->Assistant_0 + t,
                )
            } else {
                &&& r.len() == msgs.len() + 1
                &&& r[msgs.len() as int] == MessageView::Assistant(t)
                &&& r.take(msgs.len() as int) == msgs
            }
        }),
{
    let r = after_event(msgs, event);
    if !(msgs.len() > 0 && msgs[msgs.len() - 1] is Assistant) {
        assert(r.take(msgs.len() as int) =~= msgs);
    }
}

/// The scroll range counts every row of the conversation (taken, as the
/// row count is stored, modulo 2^16): it is the rows plus the two rows of
/// padding, less the area's height, and never below zero.
pub proof fn scroll_range_counts_every_row(rows: usize, area_height: u16)
    requires
        (rows as u16) < 65534,
    ensures
        max_scroll_for(rows, area_height) as int == (if (rows as int) % 65536 + 2 > area_height {
            (rows as int) % 65536 + 2 - area_height
        } else {
            0
        }),
        rows < 65534 ==> max_scroll_for(rows, area_height) as int == (if rows + 2 > area_height {
            rows + 2 - area_height
        } else {
            0
        }),
{
    assert((rows as u16) as int == (rows as int) % 65536) by (bit_vector);
}


/// A line takes the fewest rows that hold its width: one row when it is
/// empty, otherwise `r` rows with `(r - 1) * area_width < width <=
/// r * area_width`.
pub proof fn rows_hold_the_line(width: usize, area_width: u16)
    requires
        area_width > 0,
    ensures
        width == 0 ==> rows_of(width, area_width) == 1,
        width > 0 ==> (rows_of(width, area_width) - 1) * area_width < width <= rows_of(
            width,
            area_width,
        ) * area_width,
{
    let a = area_width as int;
    let w = width as int;
    if width > 0 {
        let q = w / a;
        let r = w % a;
        assert(w == q * a + r && 0 <= r < a) by (nonlinear_arith)
            requires
                a > 0,
                q == w / a,
                r == w % a,
        ;
        if r == 0 {
            assert(rows_of(width, area_width) == q);
            assert((q - 1) * a < w <= q * a) by (nonlinear_arith)
                requires
                    w == q * a,
                    w > 0,
                    a > 0,
            ;
        } else {
            assert(rows_of(width, area_width) == q + 1);
            assert(q * a < w <= (q + 1) * a) by (nonlinear_arith)
                requires
                    w == q * a + r,
                    0 < r < a,
            ;
        }
    }
}

} // verus!
