//! The wire protocol of the automation pipe: one JSON message per line.
//!
//! A line holds one request or one response and ends in a line feed; it is at most [`MAX_LINE`]
//! bytes long. This module has the messages, and the framing of lines; the JSON text itself is
//! written and read at the edge.
use vstd::prelude::*;
use vstd::slice::*;
use vstd::string::*;

use crate::text::{chars_of, lossy, push_char, string_of, trim};
#[allow(unused_imports)]
use crate::text::{opt_text, texts_view, trimmed, utf8_lossy};

verus! {

/// Protocol version, raised on breaking changes.
pub const PROTOCOL_VERSION: u32 = 1;

/// Longest accepted line, in bytes: bounds what a hostile or broken client can make the server
/// hold.
pub const MAX_LINE: usize = 1048576;

/// Version that the server tells in its greeting.
pub const SERVER_VERSION: &'static str = "0.1.0";

// ---------------------------------------------------------------------------
// Requests.
// ---------------------------------------------------------------------------

/// A request.
#[derive(Debug, PartialEq, Eq)]
pub struct Request {
    pub id: u64,
    pub call: Call,
}

/// The method of a request, with its parameters.
#[allow(inconsistent_fields)]
#[derive(Debug, PartialEq, Eq)]
pub enum Call {
    /// Version handshake.
    Hello { client_version: String },
    /// Lists all panes.
    ListPanes,
    /// Writes text to a pane, and a carriage return after it if asked for.
    SendKeys { pane: u64, text: String, enter: bool },
    /// Reads a pane's text: the screen, or with `scrollback` that many of the most recent lines (0:
    /// all).
    CapturePane { pane: u64, scrollback: Option<usize> },
    /// Finds the lines of a pane that hold `query`, whatever the case. The answer lists scroll
    /// offsets, nearest to the bottom first.
    SearchPane { pane: u64, query: String },
    /// Scroll offsets of a pane's prompts, nearest to the bottom first.
    PromptOffsets { pane: u64 },
    /// Whether a pane's program has running children.
    PaneBusy { pane: u64 },
    /// Whether any pane of a window is busy; a window that is gone is not.
    WindowBusy { id: u64 },
    /// Splits the active pane; `dir` is "h" (side by side) or "v" (stacked).
    SplitPane { dir: String, command: Option<String> },
    /// Opens a window; `cwd` anchors it to a directory.
    NewWindow { command: Option<String>, cwd: Option<String> },
    /// Anchors a window to a directory; an empty one clears it.
    SetWorkspaceDir { id: u64, dir: String },
    /// Opens one window per project folder in `dir`: those with a `.git`, or all.
    ImportWorkspaces { dir: String, all: bool },
    /// Raises a notification for a pane, or for the active one, as if that pane had emitted it.
    Notify { pane: Option<u64>, title: String, body: String },
    /// The active window's rectangles and the tab list, for an area in pixels.
    GetLayout { w: u32, h: u32 },
    /// A pane's grid, scrolled `offset` lines up.
    GetGrid { pane: u64, offset: usize },
    /// Reports the client's geometry. `pane_chrome` and `pane_chrome_y` are the pixels around each
    /// pane's cells, both sides summed; a vertical chrome of zero stands for the horizontal one.
    ResizeView { w: u32, h: u32, cell_w: u32, cell_h: u32, pane_chrome: u32, pane_chrome_y: u32 },
    /// Moves focus: "left", "right", "up" or "down".
    FocusPane { dir: String },
    /// Closes the active pane.
    ClosePane,
    /// Exchanges the places of two panes of the active window. Nothing happens where one is not
    /// there.
    SwapPanes { a: u64, b: u64 },
    /// Closes a pane by id. Nothing happens where it is not there.
    ClosePaneId { pane: u64 },
    /// Zooms the active pane, or ends the zoom.
    ToggleZoom,
    /// Drags a divider: grows `pane` by `dx` (of its width) or `dy` (of its height), the bits of
    /// single-precision fractions.
    ResizeSplit { pane: u64, dx: u32, dy: u32 },
    /// Switches to the next or the previous window.
    SwitchWindow { next: bool },
    /// Closes a window by id. Nothing happens where it is gone.
    CloseWindow { id: u64 },
    /// Activates the window at an index. Nothing happens out of range.
    SelectWindow { index: usize },
    /// Names a window; an empty name clears it.
    RenameWindow { id: u64, name: String },
    /// Puts a window into a sidebar group; an empty one takes it out.
    GroupWindow { id: u64, group: String },
    /// Tags a window with a color; an empty one clears it.
    ColorWindow { id: u64, color: String },
    /// Sets a window's pull request badge; a status that is not known clears it.
    SetPr { id: u64, number: u32, status: String, url: Option<String> },
    /// Focuses a pane by id, and its window. Nothing happens where it is not there.
    FocusPaneId { pane: u64 },
    /// Moves a window, both indices clamped.
    MoveWindow { from: usize, to: usize },
    /// Takes the notifications raised since the last poll.
    PollNotifications,
    /// Makes this connection a stream of event batches; with `output` also of pane damage.
    Subscribe { output: bool },
    /// Sets the palette of all panes; missing system colors keep their defaults.
    SetPalette { fg: [u8; 3], bg: [u8; 3], ansi: Vec<[u8; 3]> },
    /// Queues a page for the browser pane.
    Browse { url: String },
    /// Takes the pages queued since the last poll.
    PollBrowse,
    /// Mirrors the tmux session of an ssh destination; `command` replaces the whole command line.
    SshTmux { target: String, command: Option<String> },
}

/// The mathematical value of a [`Call`].
#[allow(inconsistent_fields)]
pub enum CallView {
    Hello { client_version: Seq<char> },
    ListPanes,
    SendKeys { pane: u64, text: Seq<char>, enter: bool },
    CapturePane { pane: u64, scrollback: Option<usize> },
    SearchPane { pane: u64, query: Seq<char> },
    PromptOffsets { pane: u64 },
    PaneBusy { pane: u64 },
    WindowBusy { id: u64 },
    SplitPane { dir: Seq<char>, command: Option<Seq<char>> },
    NewWindow { command: Option<Seq<char>>, cwd: Option<Seq<char>> },
    SetWorkspaceDir { id: u64, dir: Seq<char> },
    ImportWorkspaces { dir: Seq<char>, all: bool },
    Notify { pane: Option<u64>, title: Seq<char>, body: Seq<char> },
    GetLayout { w: u32, h: u32 },
    GetGrid { pane: u64, offset: usize },
    ResizeView { w: u32, h: u32, cell_w: u32, cell_h: u32, pane_chrome: u32, pane_chrome_y: u32 },
    FocusPane { dir: Seq<char> },
    ClosePane,
    SwapPanes { a: u64, b: u64 },
    ClosePaneId { pane: u64 },
    ToggleZoom,
    ResizeSplit { pane: u64, dx: u32, dy: u32 },
    SwitchWindow { next: bool },
    CloseWindow { id: u64 },
    SelectWindow { index: usize },
    RenameWindow { id: u64, name: Seq<char> },
    GroupWindow { id: u64, group: Seq<char> },
    ColorWindow { id: u64, color: Seq<char> },
    SetPr { id: u64, number: u32, status: Seq<char>, url: Option<Seq<char>> },
    FocusPaneId { pane: u64 },
    MoveWindow { from: usize, to: usize },
    PollNotifications,
    Subscribe { output: bool },
    SetPalette { fg: Seq<u8>, bg: Seq<u8>, ansi: Seq<Seq<u8>> },
    Browse { url: Seq<char> },
    PollBrowse,
    SshTmux { target: Seq<char>, command: Option<Seq<char>> },
}

/// The contents of a list of color triples.
pub open spec fn triples_view(colors: Seq<[u8; 3]>) -> Seq<Seq<u8>> {
    Seq::new(colors.len(), |i: int| colors[i]@)
}

impl Call {
    pub open spec fn view(&self) -> CallView {
        match *self {
            Call::Hello { client_version } => CallView::Hello { client_version: client_version@ },
            Call::ListPanes => CallView::ListPanes,
            Call::SendKeys { pane, text, enter } => CallView::SendKeys { pane, text: text@, enter },
            Call::CapturePane { pane, scrollback } => CallView::CapturePane { pane, scrollback },
            Call::SearchPane { pane, query } => CallView::SearchPane { pane, query: query@ },
            Call::PromptOffsets { pane } => CallView::PromptOffsets { pane },
            Call::PaneBusy { pane } => CallView::PaneBusy { pane },
            Call::WindowBusy { id } => CallView::WindowBusy { id },
            Call::SplitPane { dir, command } => CallView::SplitPane {
                dir: dir@,
                command: opt_text(command),
            },
            Call::NewWindow { command, cwd } => CallView::NewWindow {
                command: opt_text(command),
                cwd: opt_text(cwd),
            },
            Call::SetWorkspaceDir { id, dir } => CallView::SetWorkspaceDir { id, dir: dir@ },
            Call::ImportWorkspaces { dir, all } => CallView::ImportWorkspaces { dir: dir@, all },
            Call::Notify { pane, title, body } => CallView::Notify {
                pane,
                title: title@,
                body: body@,
            },
            Call::GetLayout { w, h } => CallView::GetLayout { w, h },
            Call::GetGrid { pane, offset } => CallView::GetGrid { pane, offset },
            Call::ResizeView { w, h, cell_w, cell_h, pane_chrome, pane_chrome_y } =>
                CallView::ResizeView { w, h, cell_w, cell_h, pane_chrome, pane_chrome_y },
            Call::FocusPane { dir } => CallView::FocusPane { dir: dir@ },
            Call::ClosePane => CallView::ClosePane,
            Call::SwapPanes { a, b } => CallView::SwapPanes { a, b },
            Call::ClosePaneId { pane } => CallView::ClosePaneId { pane },
            Call::ToggleZoom => CallView::ToggleZoom,
            Call::ResizeSplit { pane, dx, dy } => CallView::ResizeSplit { pane, dx, dy },
            Call::SwitchWindow { next } => CallView::SwitchWindow { next },
            Call::CloseWindow { id } => CallView::CloseWindow { id },
            Call::SelectWindow { index } => CallView::SelectWindow { index },
            Call::RenameWindow { id, name } => CallView::RenameWindow { id, name: name@ },
            Call::GroupWindow { id, group } => CallView::GroupWindow { id, group: group@ },
            Call::ColorWindow { id, color } => CallView::ColorWindow { id, color: color@ },
            Call::SetPr { id, number, status, url } => CallView::SetPr {
                id,
                number,
                status: status@,
                url: opt_text(url),
            },
            Call::FocusPaneId { pane } => CallView::FocusPaneId { pane },
            Call::MoveWindow { from, to } => CallView::MoveWindow { from, to },
            Call::PollNotifications => CallView::PollNotifications,
            Call::Subscribe { output } => CallView::Subscribe { output },
            Call::SetPalette { fg, bg, ansi } => CallView::SetPalette {
                fg: fg@,
                bg: bg@,
                ansi: triples_view(ansi@),
            },
            Call::Browse { url } => CallView::Browse { url: url@ },
            Call::PollBrowse => CallView::PollBrowse,
            Call::SshTmux { target, command } => CallView::SshTmux {
                target: target@,
                command: opt_text(command),
            },
        }
    }
}

// ---------------------------------------------------------------------------
// Responses.
// ---------------------------------------------------------------------------

/// A response: exactly one of `result` and `error` is there.
#[derive(Debug, PartialEq, Eq)]
pub struct Response {
    pub id: u64,
    pub result: Option<ResultBody>,
    pub error: Option<String>,
}

/// What a request gives.
#[derive(Debug, PartialEq, Eq)]
pub enum ResultBody {
    Hello { server_version: String, protocol: u32 },
    Panes(Vec<PaneInfo>),
    Text(String),
    /// Scroll offsets.
    Matches(Vec<u32>),
    PaneId(u64),
    Layout(LayoutWire),
    Grid(GridWire),
    Notifications(Vec<NotifyWire>),
    /// Pages to open.
    Browses(Vec<String>),
    Busy(bool),
    /// How many workspaces an import opened, how many were open already, and how many the cap left
    /// out.
    Imported { created: usize, already_open: usize, capped: usize },
    Done,
}

/// A notification. `urgency`: 0 low, 1 normal, 2 critical.
#[derive(Debug, PartialEq, Eq)]
pub struct NotifyWire {
    pub pane: u64,
    pub title: String,
    pub body: String,
    pub urgency: u8,
}

/// A cell. `flags` is made of the `CELL_` bits. A part that equals its default is left out of the
/// JSON and comes back as the default.
#[derive(Debug, Clone, Copy, PartialEq, Eq)]
pub struct CellWire {
    pub ch: char,
    pub fg: [u8; 3],
    pub bg: [u8; 3],
    pub flags: u8,
}

pub const CELL_BOLD: u8 = 1;
pub const CELL_ITALIC: u8 = 2;
pub const CELL_UNDERLINE: u8 = 4;
pub const CELL_INVERSE: u8 = 8;
/// A double-width character: the next cell is a blank spacer.
pub const CELL_WIDE: u8 = 16;

/// Report button clicks.
pub const MOUSE_CLICKS: u8 = 1;
/// Report motion while a button is held.
pub const MOUSE_DRAG: u8 = 2;
/// Report any motion.
pub const MOUSE_MOTION: u8 = 4;
/// Reports use the SGR encoding.
pub const MOUSE_SGR: u8 = 8;

/// A pane's grid, row by row.
#[derive(Debug, PartialEq, Eq)]
pub struct GridWire {
    pub cols: u16,
    pub rows: u16,
    pub cursor_col: u16,
    pub cursor_row: u16,
    pub cells: Vec<CellWire>,
    /// Scrollback lines above the screen.
    pub history: u32,
    /// The scroll offset that is shown.
    pub offset: u32,
    /// Whether pasted text is to be bracketed.
    pub bracketed_paste: bool,
    /// The `MOUSE_` bits; 0 where the program wants no mouse.
    pub mouse_mode: u8,
    /// Cursor shape: 0 to 2 block, 3 and 4 underline, 5 and 6 bar.
    pub cursor_style: u8,
    /// Hyperlinks in view, at most 256.
    pub links: Vec<LinkWire>,
}

/// One hyperlink: `row`, and the columns from `start` to `end` inclusive.
#[derive(Debug, PartialEq, Eq)]
pub struct LinkWire {
    pub row: u16,
    pub start: u16,
    pub end: u16,
    pub uri: String,
}

/// One pane's rectangle.
#[derive(Debug, PartialEq, Eq)]
pub struct PaneRectWire {
    pub id: u64,
    pub x: u32,
    pub y: u32,
    pub w: u32,
    pub h: u32,
    pub active: bool,
    pub attention: bool,
    pub title: String,
}

/// One sidebar tab.
#[derive(Debug, PartialEq, Eq)]
pub struct TabWire {
    pub index: usize,
    /// Window id; it survives moves and removals that shift `index`.
    pub id: u64,
    pub name: String,
    pub branch: Option<String>,
    pub attention: bool,
    pub unread: u32,
    pub group: Option<String>,
    pub color: Option<String>,
    pub busy: bool,
    pub pr: Option<PrWire>,
    pub active: bool,
    /// The percentage of the agent that is least done.
    pub progress: Option<u8>,
    /// Whether an agent reported an error.
    pub progress_error: bool,
}

/// A pull request badge.
#[derive(Debug, PartialEq, Eq)]
pub struct PrWire {
    pub number: u32,
    /// `open`, `draft`, `merged` or `closed`.
    pub status: String,
    pub url: Option<String>,
}

/// The active window's layout, and the tabs.
#[derive(Debug, PartialEq, Eq)]
pub struct LayoutWire {
    pub active_pane: u64,
    pub tabs: Vec<TabWire>,
    pub panes: Vec<PaneRectWire>,
    pub zoomed: bool,
}

/// What is listed of a pane.
#[derive(Debug, PartialEq, Eq)]
pub struct PaneInfo {
    pub id: u64,
    /// The id of the window that holds the pane.
    pub window: u64,
    pub active: bool,
    pub title: String,
    pub cwd: Option<String>,
    pub cols: u16,
    pub rows: u16,
    pub attention: bool,
}

/// The mathematical value of a [`NotifyWire`].
pub struct NotifyWireView {
    pub pane: u64,
    pub title: Seq<char>,
    pub body: Seq<char>,
    pub urgency: u8,
}

impl NotifyWire {
    pub open spec fn view(&self) -> NotifyWireView {
        NotifyWireView {
            pane: self.pane,
            title: self.title@,
            body: self.body@,
            urgency: self.urgency,
        }
    }

    /// A copy.
    pub fn copy(&self) -> (n: NotifyWire)
        ensures
            n@ == self@,
    {
        NotifyWire {
            pane: self.pane,
            title: self.title.clone(),
            body: self.body.clone(),
            urgency: self.urgency,
        }
    }
}

/// The mathematical values of a list of notifications.
pub open spec fn wires_view(wires: Seq<NotifyWire>) -> Seq<NotifyWireView> {
    Seq::new(wires.len(), |i: int| wires[i]@)
}

/// The mathematical value of a [`CellWire`].
pub struct CellWireView {
    pub ch: char,
    pub fg: Seq<u8>,
    pub bg: Seq<u8>,
    pub flags: u8,
}

impl CellWire {
    pub open spec fn view(&self) -> CellWireView {
        CellWireView { ch: self.ch, fg: self.fg@, bg: self.bg@, flags: self.flags }
    }
}

/// The mathematical values of a list of cells.
pub open spec fn cell_wires_view(cells: Seq<CellWire>) -> Seq<CellWireView> {
    Seq::new(cells.len(), |i: int| cells[i]@)
}

/// The mathematical value of a [`LinkWire`].
pub struct LinkWireView {
    pub row: u16,
    pub start: u16,
    pub end: u16,
    pub uri: Seq<char>,
}

impl LinkWire {
    pub open spec fn view(&self) -> LinkWireView {
        LinkWireView { row: self.row, start: self.start, end: self.end, uri: self.uri@ }
    }
}

/// The mathematical values of a list of links.
pub open spec fn link_wires_view(links: Seq<LinkWire>) -> Seq<LinkWireView> {
    Seq::new(links.len(), |i: int| links[i]@)
}

/// The mathematical value of a [`GridWire`].
pub struct GridWireView {
    pub cols: u16,
    pub rows: u16,
    pub cursor_col: u16,
    pub cursor_row: u16,
    pub cells: Seq<CellWireView>,
    pub history: u32,
    pub offset: u32,
    pub bracketed_paste: bool,
    pub mouse_mode: u8,
    pub cursor_style: u8,
    pub links: Seq<LinkWireView>,
}

impl GridWire {
    pub open spec fn view(&self) -> GridWireView {
        GridWireView {
            cols: self.cols,
            rows: self.rows,
            cursor_col: self.cursor_col,
            cursor_row: self.cursor_row,
            cells: cell_wires_view(self.cells@),
            history: self.history,
            offset: self.offset,
            bracketed_paste: self.bracketed_paste,
            mouse_mode: self.mouse_mode,
            cursor_style: self.cursor_style,
            links: link_wires_view(self.links@),
        }
    }
}

/// The mathematical value of a [`PaneRectWire`].
pub struct PaneRectWireView {
    pub id: u64,
    pub x: u32,
    pub y: u32,
    pub w: u32,
    pub h: u32,
    pub active: bool,
    pub attention: bool,
    pub title: Seq<char>,
}

impl PaneRectWire {
    pub open spec fn view(&self) -> PaneRectWireView {
        PaneRectWireView {
            id: self.id,
            x: self.x,
            y: self.y,
            w: self.w,
            h: self.h,
            active: self.active,
            attention: self.attention,
            title: self.title@,
        }
    }
}

/// The mathematical values of a list of rectangles.
pub open spec fn rect_wires_view(rects: Seq<PaneRectWire>) -> Seq<PaneRectWireView> {
    Seq::new(rects.len(), |i: int| rects[i]@)
}

/// The mathematical value of a [`PrWire`].
pub struct PrWireView {
    pub number: u32,
    pub status: Seq<char>,
    pub url: Option<Seq<char>>,
}

impl PrWire {
    pub open spec fn view(&self) -> PrWireView {
        PrWireView { number: self.number, status: self.status@, url: opt_text(self.url) }
    }
}

/// The mathematical value of a [`TabWire`].
pub struct TabWireView {
    pub index: nat,
    pub id: u64,
    pub name: Seq<char>,
    pub branch: Option<Seq<char>>,
    pub attention: bool,
    pub unread: u32,
    pub group: Option<Seq<char>>,
    pub color: Option<Seq<char>>,
    pub busy: bool,
    pub pr: Option<PrWireView>,
    pub active: bool,
    pub progress: Option<u8>,
    pub progress_error: bool,
}

impl TabWire {
    pub open spec fn view(&self) -> TabWireView {
        TabWireView {
            index: self.index as nat,
            id: self.id,
            name: self.name@,
            branch: opt_text(self.branch),
            attention: self.attention,
            unread: self.unread,
            group: opt_text(self.group),
            color: opt_text(self.color),
            busy: self.busy,
            pr: match self.pr {
                Some(p) => Some(p@),
                None => None,
            },
            active: self.active,
            progress: self.progress,
            progress_error: self.progress_error,
        }
    }
}

/// The mathematical values of a list of tabs.
pub open spec fn tab_wires_view(tabs: Seq<TabWire>) -> Seq<TabWireView> {
    Seq::new(tabs.len(), |i: int| tabs[i]@)
}

/// The mathematical value of a [`LayoutWire`].
pub struct LayoutWireView {
    pub active_pane: u64,
    pub tabs: Seq<TabWireView>,
    pub panes: Seq<PaneRectWireView>,
    pub zoomed: bool,
}

impl LayoutWire {
    pub open spec fn view(&self) -> LayoutWireView {
        LayoutWireView {
            active_pane: self.active_pane,
            tabs: tab_wires_view(self.tabs@),
            panes: rect_wires_view(self.panes@),
            zoomed: self.zoomed,
        }
    }
}

/// The mathematical value of a [`PaneInfo`].
pub struct PaneInfoView {
    pub id: u64,
    pub window: u64,
    pub active: bool,
    pub title: Seq<char>,
    pub cwd: Option<Seq<char>>,
    pub cols: u16,
    pub rows: u16,
    pub attention: bool,
}

impl PaneInfo {
    pub open spec fn view(&self) -> PaneInfoView {
        PaneInfoView {
            id: self.id,
            window: self.window,
            active: self.active,
            title: self.title@,
            cwd: opt_text(self.cwd),
            cols: self.cols,
            rows: self.rows,
            attention: self.attention,
        }
    }
}

/// The mathematical values of a list of panes.
pub open spec fn infos_view(infos: Seq<PaneInfo>) -> Seq<PaneInfoView> {
    Seq::new(infos.len(), |i: int| infos[i]@)
}

/// The mathematical value of a [`ResultBody`].
pub enum ResultView {
    Hello { server_version: Seq<char>, protocol: u32 },
    Panes(Seq<PaneInfoView>),
    Text(Seq<char>),
    Matches(Seq<u32>),
    PaneId(u64),
    Layout(LayoutWireView),
    Grid(GridWireView),
    Notifications(Seq<NotifyWireView>),
    Browses(Seq<Seq<char>>),
    Busy(bool),
    Imported { created: nat, already_open: nat, capped: nat },
    Done,
}

impl ResultBody {
    pub open spec fn view(&self) -> ResultView {
        match *self {
            ResultBody::Hello { server_version, protocol } => ResultView::Hello {
                server_version: server_version@,
                protocol,
            },
            ResultBody::Panes(p) => ResultView::Panes(infos_view(p@)),
            ResultBody::Text(s) => ResultView::Text(s@),
            ResultBody::Matches(m) => ResultView::Matches(m@),
            ResultBody::PaneId(id) => ResultView::PaneId(id),
            ResultBody::Layout(l) => ResultView::Layout(l@),
            ResultBody::Grid(g) => ResultView::Grid(g@),
            ResultBody::Notifications(n) => ResultView::Notifications(wires_view(n@)),
            ResultBody::Browses(b) => ResultView::Browses(texts_view(b@)),
            ResultBody::Busy(b) => ResultView::Busy(b),
            ResultBody::Imported { created, already_open, capped } => ResultView::Imported {
                created: created as nat,
                already_open: already_open as nat,
                capped: capped as nat,
            },
            ResultBody::Done => ResultView::Done,
        }
    }
}

/// The mathematical value of a [`Response`].
pub struct ResponseView {
    pub id: u64,
    pub result: Option<ResultView>,
    pub error: Option<Seq<char>>,
}

/// A response that carries a result.
pub open spec fn ok_view(id: u64, result: ResultView) -> ResponseView {
    ResponseView { id, result: Some(result), error: None }
}

/// A response that carries an error.
pub open spec fn err_view(id: u64, msg: Seq<char>) -> ResponseView {
    ResponseView { id, result: None, error: Some(msg) }
}

impl Response {
    pub open spec fn view(&self) -> ResponseView {
        ResponseView {
            id: self.id,
            result: match self.result {
                Some(r) => Some(r@),
                None => None,
            },
            error: opt_text(self.error),
        }
    }

    /// A response that carries a result.
    pub fn ok(id: u64, result: ResultBody) -> (r: Self)
        ensures
            r@ == ok_view(id, result@),
    {
        Response { id, result: Some(result), error: None }
    }

    /// A response that carries an error.
    pub fn err(id: u64, msg: String) -> (r: Self)
        ensures
            r@ == err_view(id, msg@),
    {
        Response { id, result: None, error: Some(msg) }
    }
}

// ---------------------------------------------------------------------------
// Defaults of cells.
// ---------------------------------------------------------------------------

/// The foreground that a cell without one has.
pub open spec fn default_fg() -> Seq<u8> {
    seq![0xccu8, 0xccu8, 0xccu8]
}

/// The background that a cell without one has.
pub open spec fn default_bg() -> Seq<u8> {
    seq![0x11u8, 0x11u8, 0x11u8]
}

/// The foreground that a cell without one has.
pub fn wire_default_fg() -> (c: [u8; 3])
    ensures
        c@ == default_fg(),
{
    let c: [u8; 3] = [0xcc, 0xcc, 0xcc];
    assert(c@ =~= default_fg());
    c
}

/// The background that a cell without one has.
pub fn wire_default_bg() -> (c: [u8; 3])
    ensures
        c@ == default_bg(),
{
    let c: [u8; 3] = [0x11, 0x11, 0x11];
    assert(c@ =~= default_bg());
    c
}

/// Whether a foreground can be left out.
pub fn is_wire_default_fg(v: &[u8; 3]) -> (r: bool)
    ensures
        r == (v@ == default_fg()),
{
    let r = v[0] == 0xcc && v[1] == 0xcc && v[2] == 0xcc;
    proof {
        if r {
            assert(v@ =~= default_fg());
        } else if v@ == default_fg() {
            assert(v@[0] == 0xcc && v@[1] == 0xcc && v@[2] == 0xcc);
        }
    }
    r
}

/// Whether a background can be left out.
pub fn is_wire_default_bg(v: &[u8; 3]) -> (r: bool)
    ensures
        r == (v@ == default_bg()),
{
    let r = v[0] == 0x11 && v[1] == 0x11 && v[2] == 0x11;
    proof {
        if r {
            assert(v@ =~= default_bg());
        } else if v@ == default_bg() {
            assert(v@[0] == 0x11 && v@[1] == 0x11 && v@[2] == 0x11);
        }
    }
    r
}

/// Whether flags can be left out.
pub fn is_zero_u8(v: &u8) -> (r: bool)
    ensures
        r == (*v == 0),
{
    *v == 0
}

// ---------------------------------------------------------------------------
// Lines.
// ---------------------------------------------------------------------------

/// Why a line is refused.
#[derive(Debug, Clone, Copy, PartialEq, Eq, Structural)]
pub enum LineError {
    /// It is longer than [`MAX_LINE`].
    TooLong,
}

impl LineError {
    /// The error in words.
    pub fn message(&self) -> (s: String)
        ensures
            s@ == "line exceeds MAX_LINE"@,
    {
        String::from_str("line exceeds MAX_LINE")
    }
}

/// The start of buffered input that is read as one line: through the first line feed, and no more
/// than one byte over the cap.
pub open spec fn line_length(input: Seq<u8>, from: nat) -> nat
    decreases input.len() - from,
{
    if from >= input.len() || from > MAX_LINE {
        from
    } else if input[from as int] == 10 {
        from + 1
    } else {
        line_length(input, from + 1)
    }
}

/// What a line holds: nothing at the end of input or on a blank line, else its trimmed text.
pub open spec fn line_text(line: Seq<u8>) -> Result<Option<Seq<char>>, LineError> {
    if line.len() == 0 {
        Ok(None)
    } else if line.len() > MAX_LINE {
        Err(LineError::TooLong)
    } else {
        let t = trimmed(utf8_lossy(line));
        if t.len() == 0 {
            Ok(None)
        } else {
            Ok(Some(t))
        }
    }
}

/// How many bytes of buffered input make up the next line.
pub fn next_line(input: &[u8]) -> (n: usize)
    ensures
        n == line_length(input@, 0),
        n <= input@.len(),
{
    let mut i: usize = 0;
    while i < input.len() && i <= MAX_LINE
        invariant
            i <= input@.len(),
            line_length(input@, 0) == line_length(input@, i as nat),
        decreases input@.len() - i,
    {
        if input[i] == 10 {
            return i + 1;
        }
        i = i + 1;
    }
    i
}

/// Reads one line: the text of a message, nothing at the end of input, or an error.
pub fn read_line(line: &[u8]) -> (r: Result<Option<String>, LineError>)
    ensures
        match r {
            Ok(Some(s)) => line_text(line@) == Ok::<Option<Seq<char>>, LineError>(Some(s@)),
            Ok(None) => line_text(line@) == Ok::<Option<Seq<char>>, LineError>(None),
            Err(e) => line_text(line@) == Err::<Option<Seq<char>>, LineError>(e),
        },
{
    if line.len() == 0 {
        return Ok(None);
    }
    if line.len() > MAX_LINE {
        return Err(LineError::TooLong);
    }
    let text = lossy(line);
    let all = chars_of(text.as_str());
    let t = trim(all.as_slice());
    if t.len() == 0 {
        Ok(None)
    } else {
        Ok(Some(string_of(t)))
    }
}

/// The line that carries a message.
pub fn frame(message: String) -> (line: String)
    ensures
        line@ == message@.push('\n'),
{
    let mut line = message;
    push_char(&mut line, '\n');
    line
}

/// The next line of a buffer never takes in a byte behind a line feed, and takes no more than the
/// cap and one byte.
pub proof fn lines_are_bounded(input: Seq<u8>, i: int)
    ensures
        line_length(input, 0) <= MAX_LINE + 1,
        0 <= i < line_length(input, 0) - 1 ==> input[i] != 10,
{
    lemma_line(input, 0, i);
}

proof fn lemma_line(input: Seq<u8>, from: nat, i: int)
    requires
        from <= MAX_LINE + 1,
    ensures
        from <= line_length(input, from) <= MAX_LINE + 1,
        from <= i < line_length(input, from) - 1 ==> input[i] != 10,
    decreases input.len() - from,
{
    if !(from >= input.len() || from > MAX_LINE) && input[from as int] != 10 {
        lemma_line(input, from + 1, i);
    }
}

/// A line runs through its line feed; input without one is taken whole, up to the cap and one byte.
pub proof fn lines_run_through_their_line_feed(input: Seq<u8>, k: int)
    requires
        0 <= k <= input.len(),
        forall|i: int| 0 <= i < k ==> input[i] != 10,
    ensures
        k < input.len() && k <= MAX_LINE && input[k] == 10 ==> line_length(input, 0) == k + 1,
        k == input.len() && k <= MAX_LINE ==> line_length(input, 0) == k,
        k == MAX_LINE + 1 ==> line_length(input, 0) == k,
{
    lemma_line_to(input, 0, k);
}

proof fn lemma_line_to(input: Seq<u8>, from: nat, k: int)
    requires
        from <= k <= input.len(),
        forall|i: int| 0 <= i < k ==> input[i] != 10,
    ensures
        k < input.len() && k <= MAX_LINE && input[k] == 10 ==> line_length(input, from) == k + 1,
        k == input.len() && k <= MAX_LINE ==> line_length(input, from) == k,
        k == MAX_LINE + 1 ==> line_length(input, from) == k,
    decreases k - from,
{
    if from < k {
        lemma_line_to(input, from + 1, k);
    }
}

} // verus!
