//! The interactive view's state and decisions: which nodes the list shows,
//! which one is selected, what each key does, and the texts of the panels.
//! Drawing and terminal events are done by the program around the library.
use vstd::prelude::*;
use crate::data_manager::{Edge, EdgeView, Graph, GraphView, Node, NodeView, node_views, edge_views};
use crate::layout::{byte_prefix, get_byte_prefix, join, pad_right, push_joined, push_padded};
use crate::text::{
    chars_of, contains_seq, dec, push_dec, push_str, spec_to_lowercase, str_contains, str_eq,
    string_of, string_views, to_lowercase,
};

verus! {

// ───────────────────────────── state ───────────────────────────────────────

/// The panel that has the focus.
#[derive(PartialEq, Eq, Structural, Clone, Copy, Debug)]
pub enum FocusedPanel {
    NodeList,
    TopoGraph,
}

/// A key press, as far as the view tells keys apart.
#[derive(PartialEq, Eq, Structural, Clone, Copy, Debug)]
pub enum Key {
    Char(char),
    Enter,
    Esc,
    Backspace,
    Up,
    Down,
    Tab,
    Other,
}

/// What the program around the view has to do after a key.
#[derive(Debug)]
pub enum Action {
    /// Redraw and wait for the next key.
    Continue,
    /// Leave the view.
    Quit,
    /// Take a new connection snapshot, then call `finish_rescan`.
    Rescan,
    /// Write the graph as JSON to this file, then call `finish_export`.
    Export(String),
}

/// The state of the interactive view.
pub struct AppState {
    pub graph: Graph,
    /// Index of the selected node in the filtered list.
    pub selected: usize,
    /// The filter keyword (empty: no filter).
    pub filter: String,
    pub filter_mode: bool,
    pub export_mode: bool,
    /// The file name being typed for the export.
    pub export_buf: String,
    pub show_help: bool,
    pub focused_panel: FocusedPanel,
    pub status_msg: String,
    /// The local address, for marking the local node after a rescan.
    pub local_ip: String,
}

pub struct AppView {
    pub graph: GraphView,
    pub selected: usize,
    pub filter: Seq<char>,
    pub filter_mode: bool,
    pub export_mode: bool,
    pub export_buf: Seq<char>,
    pub show_help: bool,
    pub focused_panel: FocusedPanel,
    pub status_msg: Seq<char>,
    pub local_ip: Seq<char>,
}

impl View for AppState {
    type V = AppView;

    open spec fn view(&self) -> AppView {
        AppView {
            graph: self.graph@,
            selected: self.selected,
            filter: self.filter@,
            filter_mode: self.filter_mode,
            export_mode: self.export_mode,
            export_buf: self.export_buf@,
            show_help: self.show_help,
            focused_panel: self.focused_panel,
            status_msg: self.status_msg@,
            local_ip: self.local_ip@,
        }
    }
}

pub enum ActionView {
    Continue,
    Quit,
    Rescan,
    Export(Seq<char>),
}

impl View for Action {
    type V = ActionView;

    open spec fn view(&self) -> ActionView {
        match self {
            Action::Continue => ActionView::Continue,
            Action::Quit => ActionView::Quit,
            Action::Rescan => ActionView::Rescan,
            Action::Export(f) => ActionView::Export(f@),
        }
    }
}

// ───────────────────────────── the node list ───────────────────────────────

/// A node matches a (lower-case) keyword when its lower-cased address or
/// host name contains it.
pub open spec fn node_matches(n: NodeView, kw: Seq<char>) -> bool {
    contains_seq(spec_to_lowercase(n.ip), kw) || match n.hostname {
        Some(h) => contains_seq(spec_to_lowercase(h), kw),
        None => false,
    }
}

pub open spec fn matching_nodes(ns: Seq<NodeView>, kw: Seq<char>) -> Seq<NodeView>
    decreases ns.len(),
{
    if ns.len() == 0 {
        Seq::empty()
    } else {
        let p = matching_nodes(ns.drop_last(), kw);
        if node_matches(ns.last(), kw) {
            p.push(ns.last())
        } else {
            p
        }
    }
}

/// The nodes the list shows: all without a filter, else those matching the
/// lower-cased filter, in graph order.
pub open spec fn shown_nodes(ns: Seq<NodeView>, filter: Seq<char>) -> Seq<NodeView> {
    if filter.len() == 0 {
        ns
    } else {
        matching_nodes(ns, spec_to_lowercase(filter))
    }
}

pub open spec fn ref_views(v: Seq<&Node>) -> Seq<NodeView> {
    Seq::new(v.len(), |i: int| v[i]@)
}

/// The largest index the selection can move to.
pub open spec fn max_index(n: nat) -> nat {
    if n == 0 {
        0
    } else {
        (n - 1) as nat
    }
}

// ───────────────────────────── keys ────────────────────────────────────────

pub open spec fn export_default() -> Seq<char> {
    "netopo_export.json"@
}

pub open spec fn refreshing() -> Seq<char> {
    "正在刷新..."@
}

/// The state after a key and the action it asks for: Ctrl+C quits; in filter
/// mode keys edit the filter (Enter/Esc leave it, selecting the first node);
/// in export mode keys edit the file name (Enter exports it, Esc drops it);
/// an open help closes on any key; else q quits, r rescans, arrows move the
/// selection within the list, f opens the filter, e the export, Tab switches
/// the panel and ? opens the help.
pub open spec fn step(s: AppView, key: Key, ctrl: bool) -> (AppView, ActionView) {
    if ctrl && key == Key::Char('c') {
        (s, ActionView::Quit)
    } else if s.filter_mode {
        match key {
            Key::Enter | Key::Esc => (AppView { filter_mode: false, selected: 0, ..s }, ActionView::Continue),
            Key::Char(c) => (AppView { filter: s.filter.push(c), ..s }, ActionView::Continue),
            Key::Backspace => (
                AppView {
                    filter: if s.filter.len() > 0 {
                        s.filter.drop_last()
                    } else {
                        s.filter
                    },
                    ..s
                },
                ActionView::Continue,
            ),
            _ => (s, ActionView::Continue),
        }
    } else if s.export_mode {
        match key {
            Key::Enter => (
                AppView { export_mode: false, export_buf: Seq::empty(), ..s },
                ActionView::Export(s.export_buf),
            ),
            Key::Esc => (AppView { export_mode: false, export_buf: Seq::empty(), ..s }, ActionView::Continue),
            Key::Char(c) => (AppView { export_buf: s.export_buf.push(c), ..s }, ActionView::Continue),
            Key::Backspace => (
                AppView {
                    export_buf: if s.export_buf.len() > 0 {
                        s.export_buf.drop_last()
                    } else {
                        s.export_buf
                    },
                    ..s
                },
                ActionView::Continue,
            ),
            _ => (s, ActionView::Continue),
        }
    } else if s.show_help {
        (AppView { show_help: false, ..s }, ActionView::Continue)
    } else {
        match key {
            Key::Char('q') => (s, ActionView::Quit),
            Key::Char('r') => (AppView { status_msg: refreshing(), ..s }, ActionView::Rescan),
            Key::Up => (
                AppView {
                    selected: if s.selected > 0 {
                        (s.selected - 1) as usize
                    } else {
                        s.selected
                    },
                    ..s
                },
                ActionView::Continue,
            ),
            Key::Down => (
                AppView {
                    selected: if s.selected < max_index(shown_nodes(s.graph.nodes, s.filter).len()) {
                        (s.selected + 1) as usize
                    } else {
                        s.selected
                    },
                    ..s
                },
                ActionView::Continue,
            ),
            Key::Char('f') => (AppView { filter_mode: true, filter: Seq::empty(), ..s }, ActionView::Continue),
            Key::Char('e') => (
                AppView { export_mode: true, export_buf: export_default(), ..s },
                ActionView::Continue,
            ),
            Key::Tab => (
                AppView {
                    focused_panel: match s.focused_panel {
                        FocusedPanel::NodeList => FocusedPanel::TopoGraph,
                        FocusedPanel::TopoGraph => FocusedPanel::NodeList,
                    },
                    ..s
                },
                ActionView::Continue,
            ),
            Key::Char('?') => (AppView { show_help: true, ..s }, ActionView::Continue),
            _ => (s, ActionView::Continue),
        }
    }
}

/// The text without its last character (unchanged when empty).
fn pop_string(s: &String) -> (r: String)
    ensures
        r@ == (if s@.len() > 0 {
            s@.drop_last()
        } else {
            s@
        }),
{
    let v = chars_of(s.as_str());
    if v.len() == 0 {
        return s.clone();
    }
    let mut w = v;
    let _ = w.pop();
    string_of(w.as_slice())
}

impl AppState {
    /// The initial state: first node selected, no filter, no modes, the node
    /// list focused, no message.
    pub fn new(graph: Graph, local_ip: String) -> (r: AppState)
        ensures
            r@ == (AppView {
                graph: graph@,
                selected: 0,
                filter: Seq::empty(),
                filter_mode: false,
                export_mode: false,
                export_buf: Seq::empty(),
                show_help: false,
                focused_panel: FocusedPanel::NodeList,
                status_msg: Seq::empty(),
                local_ip: local_ip@,
            }),
    {
        AppState {
            graph,
            selected: 0,
            filter: String::new(),
            filter_mode: false,
            export_mode: false,
            export_buf: String::new(),
            show_help: false,
            focused_panel: FocusedPanel::NodeList,
            status_msg: String::new(),
            local_ip,
        }
    }

    /// The nodes the list shows (see `shown_nodes`).
    pub fn filtered_nodes(&self) -> (r: Vec<&Node>)
        ensures
            ref_views(r@) == shown_nodes(self.graph@.nodes, self.filter@),
    {
        let ghost nv = self.graph@.nodes;
        let mut r: Vec<&Node> = Vec::new();
        if self.filter.as_str().is_empty() {
            let mut i: usize = 0;
            assert(ref_views(r@) =~= nv.take(0));
            while i < self.graph.nodes.len()
                invariant
                    i <= nv.len(),
                    nv == self.graph@.nodes,
                    ref_views(r@) == nv.take(i as int),
                decreases nv.len() - i,
            {
                assert(nv[i as int] == self.graph.nodes@[i as int]@);
                let ghost before = ref_views(r@);
                r.push(&self.graph.nodes[i]);
                assert(ref_views(r@) =~= before.push(nv[i as int]));
                assert(nv.take(i + 1) =~= nv.take(i as int).push(nv[i as int]));
                i += 1;
            }
            assert(nv.take(nv.len() as int) =~= nv);
            return r;
        }
        let kw = to_lowercase(self.filter.as_str());
        let ghost k = kw@;
        let mut i: usize = 0;
        assert(nv.take(0) =~= Seq::<NodeView>::empty());
        assert(ref_views(r@) =~= Seq::<NodeView>::empty());
        while i < self.graph.nodes.len()
            invariant
                i <= nv.len(),
                nv == self.graph@.nodes,
                k == kw@,
                ref_views(r@) == matching_nodes(nv.take(i as int), k),
            decreases nv.len() - i,
        {
            assert(nv.take(i + 1).drop_last() =~= nv.take(i as int));
            let n = &self.graph.nodes[i];
            assert(nv.take(i + 1).last() == n@);
            let lip = to_lowercase(n.ip.as_str());
            let host_match = match &n.hostname {
                Some(h) => {
                    let lh = to_lowercase(h.as_str());
                    str_contains(lh.as_str(), kw.as_str())
                },
                None => false,
            };
            if str_contains(lip.as_str(), kw.as_str()) || host_match {
                let ghost before = ref_views(r@);
                r.push(n);
                assert(ref_views(r@) =~= before.push(n@));
            }
            i += 1;
        }
        assert(nv.take(nv.len() as int) =~= nv);
        r
    }

    /// The selected node of the list, if the selection is within it.
    pub fn selected_node(&self) -> (r: Option<&Node>)
        ensures
            match r {
                Some(n) => self.selected < shown_nodes(self.graph@.nodes, self.filter@).len()
                    && n@ == shown_nodes(self.graph@.nodes, self.filter@)[self.selected as int],
                None => self.selected >= shown_nodes(self.graph@.nodes, self.filter@).len(),
            },
    {
        let nodes = self.filtered_nodes();
        if self.selected < nodes.len() {
            assert(ref_views(nodes@)[self.selected as int] == nodes@[self.selected as int]@);
            Some(nodes[self.selected])
        } else {
            None
        }
    }

    /// Applies a key (see `step`) and returns what the program has to do.
    pub fn handle_key(&mut self, key: Key, ctrl: bool) -> (a: Action)
        ensures
            (final(self)@, a@) == step(old(self)@, key, ctrl),
    {
        if ctrl && key == Key::Char('c') {
            return Action::Quit;
        }
        if self.filter_mode {
            match key {
                Key::Enter | Key::Esc => {
                    self.filter_mode = false;
                    self.selected = 0;
                },
                Key::Char(c) => self.filter.push(c),
                Key::Backspace => {
                    self.filter = pop_string(&self.filter);
                },
                _ => {},
            }
            return Action::Continue;
        }
        if self.export_mode {
            match key {
                Key::Enter => {
                    let fname = self.export_buf.clone();
                    self.export_mode = false;
                    self.export_buf = String::new();
                    return Action::Export(fname);
                },
                Key::Esc => {
                    self.export_mode = false;
                    self.export_buf = String::new();
                },
                Key::Char(c) => self.export_buf.push(c),
                Key::Backspace => {
                    self.export_buf = pop_string(&self.export_buf);
                },
                _ => {},
            }
            return Action::Continue;
        }
        if self.show_help {
            self.show_help = false;
            return Action::Continue;
        }
        match key {
            Key::Char('q') => {
                return Action::Quit;
            },
            Key::Char('r') => {
                self.status_msg = "正在刷新...".to_owned();
                return Action::Rescan;
            },
            Key::Up => {
                if self.selected > 0 {
                    self.selected = self.selected - 1;
                }
            },
            Key::Down => {
                let n = self.filtered_nodes().len();
                let max: usize = if n > 0 {
                    n - 1
                } else {
                    0
                };
                if self.selected < max {
                    self.selected = self.selected + 1;
                }
            },
            Key::Char('f') => {
                self.filter_mode = true;
                self.filter = String::new();
            },
            Key::Char('e') => {
                self.export_mode = true;
                self.export_buf = "netopo_export.json".to_owned();
            },
            Key::Tab => {
                self.focused_panel = match self.focused_panel {
                    FocusedPanel::NodeList => FocusedPanel::TopoGraph,
                    FocusedPanel::TopoGraph => FocusedPanel::NodeList,
                };
            },
            Key::Char('?') => {
                self.show_help = true;
            },
            _ => {},
        }
        Action::Continue
    }
}

// ───────────────────────────── results of the program's work ───────────────

impl AppState {
    /// Records the outcome of an export to `fname`: written, or the error.
    pub fn finish_export(&mut self, fname: &str, result: Result<(), String>)
        ensures
            final(self)@ == (AppView {
                status_msg: match result {
                    Ok(_) => "JSON 已写入: "@ + fname@,
                    Err(e) => "导出失败: "@ + e@,
                },
                ..old(self)@
            }),
    {
        let mut msg = String::new();
        match result {
            Ok(_) => {
                push_str(&mut msg, "JSON 已写入: ");
                push_str(&mut msg, fname);
            },
            Err(e) => {
                push_str(&mut msg, "导出失败: ");
                push_str(&mut msg, e.as_str());
            },
        }
        self.status_msg = msg;
    }

    /// Records the outcome of a rescan: the new graph with the time of day
    /// it was taken, or the error.
    pub fn finish_rescan(&mut self, result: Result<(Graph, String), String>)
        ensures
            final(self)@ == (match result {
                Ok((g, now)) => AppView { graph: g@, status_msg: "刷新完成 "@ + now@, ..old(self)@ },
                Err(e) => AppView { status_msg: "刷新失败: "@ + e@, ..old(self)@ },
            }),
    {
        match result {
            Ok((g, now)) => {
                self.graph = g;
                let mut msg = String::new();
                push_str(&mut msg, "刷新完成 ");
                push_str(&mut msg, now.as_str());
                self.status_msg = msg;
            },
            Err(e) => {
                let mut msg = String::new();
                push_str(&mut msg, "刷新失败: ");
                push_str(&mut msg, e.as_str());
                self.status_msg = msg;
            },
        }
    }
}

// ───────────────────────────── panel texts ─────────────────────────────────

/// The tag of a node in the list by its role or open ports.
pub open spec fn node_tag(n: NodeView) -> Seq<char> {
    if n.is_local {
        "[本机]"@
    } else if n.ports.contains(80) || n.ports.contains(443) {
        "[Web] "@
    } else if n.ports.contains(53) {
        "[DNS] "@
    } else if n.ports.contains(3306) || n.ports.contains(5432) || n.ports.contains(27017) {
        "[数据]"@
    } else if n.ports.contains(22) {
        "[SSH] "@
    } else {
        "      "@
    }
}

fn has_port(ports: &Vec<u16>, p: u16) -> (r: bool)
    ensures
        r == ports@.contains(p),
{
    let mut i: usize = 0;
    while i < ports.len()
        invariant
            i <= ports@.len(),
            forall|m: int| 0 <= m < i ==> ports@[m] != p,
        decreases ports@.len() - i,
    {
        if ports[i] == p {
            assert(ports@[i as int] == p);
            return true;
        }
        i += 1;
    }
    false
}

/// The tag of a node (see `node_tag`).
pub fn classify_node(node: &Node) -> (r: &'static str)
    ensures
        r@ == node_tag(node@),
{
    if node.is_local {
        "[本机]"
    } else if has_port(&node.ports, 80) || has_port(&node.ports, 443) {
        "[Web] "
    } else if has_port(&node.ports, 53) {
        "[DNS] "
    } else if has_port(&node.ports, 3306) || has_port(&node.ports, 5432) || has_port(&node.ports, 27017) {
        "[数据]"
    } else if has_port(&node.ports, 22) {
        "[SSH] "
    } else {
        "      "
    }
}

/// How a line of the node list is drawn.
#[derive(PartialEq, Eq, Structural, Clone, Copy, Debug)]
pub enum ItemStyle {
    /// The local node: highlighted.
    Local,
    /// A node without open ports: dimmed.
    Dim,
    /// Any other node.
    Plain,
}

/// The local node is highlighted, a node without open ports dimmed.
pub open spec fn item_style(n: NodeView) -> ItemStyle {
    if n.is_local {
        ItemStyle::Local
    } else if n.ports.len() == 0 {
        ItemStyle::Dim
    } else {
        ItemStyle::Plain
    }
}

/// How a node's line in the list is drawn (see `item_style`).
pub fn node_item_style(node: &Node) -> (r: ItemStyle)
    ensures
        r == item_style(node@),
{
    if node.is_local {
        ItemStyle::Local
    } else if node.ports.len() == 0 {
        ItemStyle::Dim
    } else {
        ItemStyle::Plain
    }
}

/// A line of the node list: a star for the local node, the address padded
/// to 20 characters, and the tag.
pub open spec fn node_item(n: NodeView) -> Seq<char> {
    (if n.is_local {
        "★ "@
    } else {
        "  "@
    }) + pad_right(n.ip, 20) + " "@ + node_tag(n)
}

/// A line of the node list (see `node_item`).
pub fn node_item_text(node: &Node) -> (r: String)
    ensures
        r@ == node_item(node@),
{
    let mut s = String::new();
    if node.is_local {
        push_str(&mut s, "★ ");
    } else {
        push_str(&mut s, "  ");
    }
    push_padded(&mut s, node.ip.as_str(), 20);
    push_str(&mut s, " ");
    push_str(&mut s, classify_node(node));
    s
}

/// The title of the node list, with the number of nodes shown.
pub fn node_list_title(count: usize) -> (r: String)
    ensures
        r@ == "节点列表 ("@ + dec(count as nat) + ")"@,
{
    let mut s = String::new();
    push_str(&mut s, "节点列表 (");
    push_dec(&mut s, count as u64);
    push_str(&mut s, ")");
    s
}

/// The title bar: program name and version, and the capture time cut to
/// its first 19 bytes when that is a character boundary.
pub open spec fn title_bar(version: Seq<char>, captured_at: Seq<char>) -> Seq<char> {
    " netopo  v"@ + version + "          [最后更新: "@ + match byte_prefix(captured_at, 19) {
        Some(p) => p,
        None => captured_at,
    } + "]"@
}

/// The title bar (see `title_bar`).
pub fn title_bar_text(version: &str, captured_at: &str) -> (r: String)
    ensures
        r@ == title_bar(version@, captured_at@),
{
    let mut s = String::new();
    push_str(&mut s, " netopo  v");
    push_str(&mut s, version);
    push_str(&mut s, "          [最后更新: ");
    match get_byte_prefix(captured_at, 19) {
        Some(p) => push_str(&mut s, p.as_str()),
        None => push_str(&mut s, captured_at),
    }
    push_str(&mut s, "]");
    s
}

/// The status bar: the filter or export prompt when typing, else the last
/// message, else the key help.
pub open spec fn status_line(s: AppView) -> Seq<char> {
    if s.filter_mode {
        "[过滤] 输入关键词: "@ + s.filter + "▌"@
    } else if s.export_mode {
        "[导出] 文件名: "@ + s.export_buf + "▌  (Enter 确认, Esc 取消)"@
    } else if s.status_msg.len() > 0 {
        s.status_msg
    } else {
        " [q]退出  [r]刷新  [↑↓]选择  [f]过滤  [e]导出JSON  [Tab]切换  [?]帮助"@
    }
}

/// The number of connections whose endpoint on one side is `ip` (the
/// destination when `inbound`, else the source) with protocol `p`.
pub open spec fn count_dir(es: Seq<EdgeView>, ip: Seq<char>, p: Seq<char>, inbound: bool) -> nat
    decreases es.len(),
{
    if es.len() == 0 {
        0
    } else {
        count_dir(es.drop_last(), ip, p, inbound) + if (if inbound {
            es.last().dst
        } else {
            es.last().src
        }) == ip && es.last().protocol == p {
            1nat
        } else {
            0
        }
    }
}

/// What the detail panel shows of the selected node.
pub struct NodeDetail {
    pub ip: String,
    pub inbound_tcp: usize,
    pub inbound_udp: usize,
    pub outbound_tcp: usize,
    pub outbound_udp: usize,
    /// The open ports, separated by ", ".
    pub ports: String,
    /// The host name, or "—".
    pub hostname: String,
}

fn count_dir_exec(edges: &Vec<Edge>, ip: &str, p: &str, inbound: bool) -> (r: usize)
    ensures
        r == count_dir(edge_views(edges@), ip@, p@, inbound),
{
    let ghost ev = edge_views(edges@);
    let mut n: usize = 0;
    let mut i: usize = 0;
    assert(ev.take(0) =~= Seq::<EdgeView>::empty());
    while i < edges.len()
        invariant
            i <= ev.len(),
            ev == edge_views(edges@),
            n == count_dir(ev.take(i as int), ip@, p@, inbound),
            n <= i,
        decreases ev.len() - i,
    {
        assert(ev.take(i + 1).drop_last() =~= ev.take(i as int));
        assert(ev.take(i + 1).last() == edges@[i as int]@);
        let end = if inbound {
            edges[i].dst.as_str()
        } else {
            edges[i].src.as_str()
        };
        if str_eq(end, ip) && str_eq(edges[i].protocol.as_str(), p) {
            n += 1;
        }
        i += 1;
    }
    assert(ev.take(ev.len() as int) =~= ev);
    n
}

/// The open ports as decimal numbers.
pub open spec fn port_texts(ports: Seq<u16>) -> Seq<Seq<char>> {
    ports.map_values(|p: u16| dec(p as nat))
}

impl AppState {
    /// The status bar (see `status_line`).
    pub fn status_text(&self) -> (r: String)
        ensures
            r@ == status_line(self@),
    {
        let mut s = String::new();
        if self.filter_mode {
            push_str(&mut s, "[过滤] 输入关键词: ");
            push_str(&mut s, self.filter.as_str());
            push_str(&mut s, "▌");
        } else if self.export_mode {
            push_str(&mut s, "[导出] 文件名: ");
            push_str(&mut s, self.export_buf.as_str());
            push_str(&mut s, "▌  (Enter 确认, Esc 取消)");
        } else if !self.status_msg.as_str().is_empty() {
            push_str(&mut s, self.status_msg.as_str());
        } else {
            push_str(&mut s, " [q]退出  [r]刷新  [↑↓]选择  [f]过滤  [e]导出JSON  [Tab]切换  [?]帮助");
        }
        s
    }

    /// The row the list highlights: the selection, at most the last row.
    pub fn list_selection(&self) -> (r: usize)
        ensures
            r == (if self.selected < max_index(shown_nodes(self.graph@.nodes, self.filter@).len()) {
                self.selected as nat
            } else {
                max_index(shown_nodes(self.graph@.nodes, self.filter@).len())
            }),
    {
        let n = self.filtered_nodes().len();
        let max: usize = if n > 0 {
            n - 1
        } else {
            0
        };
        if self.selected < max {
            self.selected
        } else {
            max
        }
    }

    /// The detail panel of the selected node: its connections in and out by
    /// protocol, its open ports and its host name.
    pub fn node_detail(&self) -> (r: Option<NodeDetail>)
        ensures
            match r {
                Some(d) => self.selected < shown_nodes(self.graph@.nodes, self.filter@).len() && {
                    let n = shown_nodes(self.graph@.nodes, self.filter@)[self.selected as int];
                    let es = self.graph@.edges;
                    &&& d.ip@ == n.ip
                    &&& d.inbound_tcp == count_dir(es, n.ip, "TCP"@, true)
                    &&& d.inbound_udp == count_dir(es, n.ip, "UDP"@, true)
                    &&& d.outbound_tcp == count_dir(es, n.ip, "TCP"@, false)
                    &&& d.outbound_udp == count_dir(es, n.ip, "UDP"@, false)
                    &&& d.ports@ == join(port_texts(n.ports), ", "@)
                    &&& d.hostname@ == match n.hostname {
                        Some(h) => h,
                        None => "—"@,
                    }
                },
                None => self.selected >= shown_nodes(self.graph@.nodes, self.filter@).len(),
            },
    {
        match self.selected_node() {
            None => None,
            Some(node) => {
                let ip = node.ip.as_str();
                let inbound_tcp = count_dir_exec(&self.graph.edges, ip, "TCP", true);
                let inbound_udp = count_dir_exec(&self.graph.edges, ip, "UDP", true);
                let outbound_tcp = count_dir_exec(&self.graph.edges, ip, "TCP", false);
                let outbound_udp = count_dir_exec(&self.graph.edges, ip, "UDP", false);
                let mut texts: Vec<String> = Vec::new();
                let ghost pv = port_texts(node.ports@);
                let mut i: usize = 0;
                assert(string_views(texts@) =~= pv.take(0));
                while i < node.ports.len()
                    invariant
                        i <= node.ports@.len(),
                        pv == port_texts(node.ports@),
                        string_views(texts@) == pv.take(i as int),
                    decreases node.ports@.len() - i,
                {
                    let mut t = String::new();
                    push_dec(&mut t, node.ports[i] as u64);
                    let ghost before = string_views(texts@);
                    texts.push(t);
                    assert(string_views(texts@) =~= before.push(pv[i as int]));
                    assert(pv.take(i + 1) =~= pv.take(i as int).push(pv[i as int]));
                    i += 1;
                }
                assert(pv.take(node.ports@.len() as int) =~= pv);
                let mut ports = String::new();
                push_joined(&mut ports, &texts, ", ");
                let hostname = match &node.hostname {
                    Some(h) => h.clone(),
                    None => "—".to_owned(),
                };
                Some(NodeDetail {
                    ip: node.ip.clone(),
                    inbound_tcp,
                    inbound_udp,
                    outbound_tcp,
                    outbound_udp,
                    ports,
                    hostname,
                })
            },
        }
    }
}

// ───────────────────────────── the small topology line ─────────────────────

/// The connections leaving the local address, in order.
pub open spec fn outgoing(es: Seq<EdgeView>, local: Seq<char>) -> Seq<EdgeView>
    decreases es.len(),
{
    if es.len() == 0 {
        Seq::empty()
    } else {
        let p = outgoing(es.drop_last(), local);
        if es.last().src == local {
            p.push(es.last())
        } else {
            p
        }
    }
}

pub open spec fn arrow(e: EdgeView) -> Seq<char> {
    if e.protocol == "TCP"@ {
        "──TCP──►["@ + e.dst + "]"@
    } else {
        "╌╌UDP──►["@ + e.dst + "]"@
    }
}

/// The topology line: the local address starred, then an arrow to each of
/// the first four destinations it connects to, separated by spaces.
pub open spec fn mini_topology(g: GraphView) -> Seq<char> {
    let out = outgoing(g.edges, g.local_ip);
    let shown = if out.len() > 4 {
        out.take(4)
    } else {
        out
    };
    join(seq!["[★"@ + g.local_ip + "]"@] + shown.map_values(|e: EdgeView| arrow(e)), " "@)
}

/// The topology line (see `mini_topology`).
pub fn build_mini_ascii(graph: &Graph) -> (r: String)
    ensures
        r@ == mini_topology(graph@),
{
    let ghost g = graph@;
    let ghost ev = g.edges;
    let ghost out = outgoing(ev, g.local_ip);
    let mut parts: Vec<String> = Vec::new();
    let mut star = String::new();
    push_str(&mut star, "[★");
    push_str(&mut star, graph.local_ip.as_str());
    push_str(&mut star, "]");
    parts.push(star);
    let mut shown: usize = 0;
    let mut i: usize = 0;
    assert(ev.take(0) =~= Seq::<EdgeView>::empty());
    assert(string_views(parts@) =~= seq!["[★"@ + g.local_ip + "]"@] + outgoing(ev.take(0), g.local_ip).map_values(|e: EdgeView| arrow(e)));
    while i < graph.edges.len() && shown < 4
        invariant
            i <= ev.len(),
            g == graph@,
            ev == g.edges,
            shown <= 4,
            shown == outgoing(ev.take(i as int), g.local_ip).len(),
            string_views(parts@) == seq!["[★"@ + g.local_ip + "]"@] + outgoing(ev.take(i as int), g.local_ip).map_values(|e: EdgeView| arrow(e)),
        decreases ev.len() - i,
    {
        assert(ev.take(i + 1).drop_last() =~= ev.take(i as int));
        let e = &graph.edges[i];
        assert(ev.take(i + 1).last() == e@);
        if str_eq(e.src.as_str(), graph.local_ip.as_str()) {
            let mut a = String::new();
            if str_eq(e.protocol.as_str(), "TCP") {
                push_str(&mut a, "──TCP──►[");
            } else {
                push_str(&mut a, "╌╌UDP──►[");
            }
            push_str(&mut a, e.dst.as_str());
            push_str(&mut a, "]");
            let ghost before = string_views(parts@);
            parts.push(a);
            assert(string_views(parts@) =~= before.push(arrow(e@)));
            shown += 1;
        }
        i += 1;
        assert(string_views(parts@) =~= seq!["[★"@ + g.local_ip + "]"@] + outgoing(ev.take(i as int), g.local_ip).map_values(|e: EdgeView| arrow(e)));
    }
    proof {
        lemma_outgoing_prefix(ev, i as int, g.local_ip);
    }
    let mut r = String::new();
    push_joined(&mut r, &parts, " ");
    r
}

proof fn lemma_outgoing_take(es: Seq<EdgeView>, j: int, local: Seq<char>)
    requires
        0 <= j <= es.len(),
    ensures
        outgoing(es.take(j), local).len() <= outgoing(es, local).len(),
        outgoing(es.take(j), local) == outgoing(es, local).take(outgoing(es.take(j), local).len() as int),
    decreases es.len() - j,
{
    if j == es.len() {
        assert(es.take(j) =~= es);
        assert(outgoing(es, local).take(outgoing(es, local).len() as int) =~= outgoing(es, local));
    } else {
        let d = es.drop_last();
        assert(d.take(j) =~= es.take(j));
        lemma_outgoing_take(d, j, local);
        let m = outgoing(es.take(j), local).len() as int;
        assert(outgoing(d, local).take(m) =~= outgoing(es, local).take(m));
    }
}

proof fn lemma_outgoing_prefix(es: Seq<EdgeView>, i: int, local: Seq<char>)
    requires
        0 <= i <= es.len(),
        outgoing(es.take(i), local).len() <= 4,
        outgoing(es.take(i), local).len() == 4 || i == es.len(),
    ensures
        outgoing(es.take(i), local) == (if outgoing(es, local).len() > 4 {
            outgoing(es, local).take(4)
        } else {
            outgoing(es, local)
        }),
{
    lemma_outgoing_take(es, i, local);
    if i == es.len() {
        assert(es.take(i) =~= es);
    } else if outgoing(es, local).len() == 4 {
        assert(outgoing(es, local).take(4) =~= outgoing(es, local));
    }
}

// ───────────────────────────── laws of the key handling ────────────────────

/// Not typing a filter or a file name, and no help shown.
pub open spec fn browsing(s: AppView) -> bool {
    !s.filter_mode && !s.export_mode && !s.show_help
}

/// Tab twice gives the focus back: the state is as before.
pub proof fn law_tab_twice(s: AppView)
    requires
        browsing(s),
    ensures
        step(step(s, Key::Tab, false).0, Key::Tab, false).0 == s,
{
}

/// The arrow keys keep a selection that is within the list within it.
pub proof fn law_arrows_stay_in_list(s: AppView, key: Key)
    requires
        browsing(s),
        key == Key::Up || key == Key::Down,
        s.selected <= max_index(shown_nodes(s.graph.nodes, s.filter).len()),
    ensures
        step(s, key, false).0.selected <= max_index(shown_nodes(s.graph.nodes, s.filter).len()),
        step(s, key, false).0.filter == s.filter,
        step(s, key, false).0.graph == s.graph,
{
}

/// Ctrl+C quits from any state and changes nothing.
pub proof fn law_ctrl_c_quits(s: AppView)
    ensures
        step(s, Key::Char('c'), true) == (s, ActionView::Quit),
{
}

/// With the help shown, any key but Ctrl+C only closes the help.
pub proof fn law_help_closes(s: AppView, key: Key, ctrl: bool)
    requires
        !s.filter_mode,
        !s.export_mode,
        s.show_help,
        !(ctrl && key == Key::Char('c')),
    ensures
        step(s, key, ctrl) == (AppView { show_help: false, ..s }, ActionView::Continue),
{
}

/// Esc while typing a file name drops it and exports nothing.
pub proof fn law_export_escape(s: AppView)
    requires
        !s.filter_mode,
        s.export_mode,
    ensures
        step(s, Key::Esc, false) == (
            AppView { export_mode: false, export_buf: Seq::empty(), ..s },
            ActionView::Continue,
        ),
{
}

/// Enter while typing a file name exports exactly that name and clears it.
pub proof fn law_export_enter(s: AppView)
    requires
        !s.filter_mode,
        s.export_mode,
    ensures
        step(s, Key::Enter, false).1 == ActionView::Export(s.export_buf),
        step(s, Key::Enter, false).0.export_buf == Seq::<char>::empty(),
        !step(s, Key::Enter, false).0.export_mode,
{
}

/// Typing a character and then Backspace in the filter gives the filter
/// back.
pub proof fn law_filter_type_and_erase(s: AppView, c: char)
    requires
        s.filter_mode,
    ensures
        step(step(s, Key::Char(c), false).0, Key::Backspace, false).0 == s,
{
    assert(s.filter.push(c).drop_last() =~= s.filter);
}

/// Without a filter the list shows every node; with one, only nodes of the
/// graph, in graph order.
pub proof fn law_filter_shows_subset(ns: Seq<NodeView>, filter: Seq<char>)
    ensures
        filter.len() == 0 ==> shown_nodes(ns, filter) == ns,
        shown_nodes(ns, filter).len() <= ns.len(),
        forall|i: int| 0 <= i < shown_nodes(ns, filter).len() ==> ns.contains(#[trigger] shown_nodes(ns, filter)[i]),
{
    if filter.len() > 0 {
        lemma_matching_subset(ns, spec_to_lowercase(filter));
    }
}

proof fn lemma_matching_subset(ns: Seq<NodeView>, kw: Seq<char>)
    ensures
        matching_nodes(ns, kw).len() <= ns.len(),
        forall|i: int| 0 <= i < matching_nodes(ns, kw).len() ==> ns.contains(#[trigger] matching_nodes(ns, kw)[i]),
    decreases ns.len(),
{
    if ns.len() > 0 {
        let d = ns.drop_last();
        lemma_matching_subset(d, kw);
        let m = matching_nodes(ns, kw);
        let p = matching_nodes(d, kw);
        assert forall|i: int| 0 <= i < m.len() implies ns.contains(#[trigger] m[i]) by {
            if i < p.len() {
                assert(m[i] == p[i]);
                assert(d.contains(p[i]));
                let q = choose|q: int| 0 <= q < d.len() && d[q] == p[i];
                assert(ns[q] == p[i]);
            } else {
                assert(ns[ns.len() - 1] == m[i]);
            }
        }
    }
}

} // verus!
