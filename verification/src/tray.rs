//! The tray: its menu, its icon, and what it answers on the bus.
use crate::config;
use crate::config::{preset_label, Config, ALPHA_STEPS, PALETTES};
use crate::strings;
use crate::strings::{chars_of, same, trim};
use crate::timer::Mode;
use vstd::prelude::*;

verus! {

/// What the tray icon shows.
#[derive(Clone, Copy, Debug, PartialEq, Eq, Structural)]
pub enum IconMode {
    /// The time, as a dial.
    Clock,
    /// How busy the processor is.
    Cpu,
    /// How full the memory is.
    Memory,
    /// How full the battery is.
    Battery,
    /// An animation of one's own.
    Gif,
}

/// What is asked of the window: by the tray, or by another run of the program.
#[derive(Debug, PartialEq, Eq)]
pub enum Command {
    Start,
    Pause,
    /// Pauses where the timer runs, and starts it where it does not.
    Toggle,
    Reset,
    /// Counts down that many seconds, from now.
    Preset(u32),
    SetMode(Mode),
    /// Zooms by that many steps.
    ZoomBy(i32),
    /// How opaque the background is.
    SetAlpha(u8),
    /// The colors of a palette.
    SetPalette(usize),
    SetIcon(IconMode),
    /// Hides the window, or shows it.
    SetHidden(bool),
    /// Whether the window is being arranged.
    SetEdit(bool),
    /// Opens the line in which a duration is typed.
    InputTime,
    /// Whether hundredths of a second show.
    SetCentiseconds(bool),
    /// A command to run once, when the timer ends.
    ArmFinish(String),
    Quit,
}

impl Clone for Command {
    fn clone(&self) -> (r: Self)
        ensures
            r == *self,
    {
        match self {
            Command::Start => Command::Start,
            Command::Pause => Command::Pause,
            Command::Toggle => Command::Toggle,
            Command::Reset => Command::Reset,
            Command::Preset(n) => Command::Preset(*n),
            Command::SetMode(m) => Command::SetMode(*m),
            Command::ZoomBy(n) => Command::ZoomBy(*n),
            Command::SetAlpha(a) => Command::SetAlpha(*a),
            Command::SetPalette(i) => Command::SetPalette(*i),
            Command::SetIcon(m) => Command::SetIcon(*m),
            Command::SetHidden(b) => Command::SetHidden(*b),
            Command::SetEdit(b) => Command::SetEdit(*b),
            Command::InputTime => Command::InputTime,
            Command::SetCentiseconds(b) => Command::SetCentiseconds(*b),
            Command::ArmFinish(s) => Command::ArmFinish(s.clone()),
            Command::Quit => Command::Quit,
        }
    }
}

/// What shows with this name in the configuration.
pub open spec fn icon_named(s: Seq<char>) -> Option<IconMode> {
    if s == "clock"@ {
        Some(IconMode::Clock)
    } else if s == "cpu"@ {
        Some(IconMode::Cpu)
    } else if s == "memory"@ {
        Some(IconMode::Memory)
    } else if s == "battery"@ {
        Some(IconMode::Battery)
    } else if s == "gif"@ {
        Some(IconMode::Gif)
    } else {
        None
    }
}

impl IconMode {
    /// The name in the configuration.
    pub open spec fn text(self) -> Seq<char> {
        match self {
            IconMode::Clock => "clock"@,
            IconMode::Cpu => "cpu"@,
            IconMode::Memory => "memory"@,
            IconMode::Battery => "battery"@,
            IconMode::Gif => "gif"@,
        }
    }

    /// What shows with this name in the configuration.
    pub fn from_name(name: &str) -> (r: Option<IconMode>)
        ensures
            r == icon_named(name@),
    {
        if same(name, "clock") {
            Some(IconMode::Clock)
        } else if same(name, "cpu") {
            Some(IconMode::Cpu)
        } else if same(name, "memory") {
            Some(IconMode::Memory)
        } else if same(name, "battery") {
            Some(IconMode::Battery)
        } else if same(name, "gif") {
            Some(IconMode::Gif)
        } else {
            None
        }
    }

    /// The name in the configuration.
    pub fn name(self) -> (r: &'static str)
        ensures
            r@ == self.text(),
    {
        match self {
            IconMode::Clock => "clock",
            IconMode::Cpu => "cpu",
            IconMode::Memory => "memory",
            IconMode::Battery => "battery",
            IconMode::Gif => "gif",
        }
    }
}

/// What the icon shows is read back from its name.
pub proof fn law_icon_names_roundtrip(m: IconMode)
    ensures
        icon_named(m.text()) == Some(m),
{
    reveal_strlit("clock");
    reveal_strlit("cpu");
    reveal_strlit("memory");
    reveal_strlit("battery");
    reveal_strlit("gif");
    assert("clock"@.len() == 5 && "cpu"@.len() == 3);
    assert("clock"@[0] == 'c' && "memory"@[0] == 'm' && "battery"@[0] == 'b' && "gif"@[0] == 'g');
}

// ---- the menu ----

/// What a node of the menu is.
#[derive(Clone, Copy, Debug, PartialEq, Eq, Structural)]
pub enum Kind {
    Root,
    Button,
    Separator,
    Submenu,
}

/// A node of the menu; its children are the numbers of other nodes.
pub struct Node {
    pub kind: Kind,
    pub label: String,
    pub command: Option<Command>,
    pub children: Vec<i32>,
}

/// A node of the menu.
pub ghost struct Entry {
    pub kind: Kind,
    pub label: Seq<char>,
    pub command: Option<Command>,
    pub children: Seq<i32>,
}

impl View for Node {
    type V = Entry;

    open spec fn view(&self) -> Entry {
        Entry {
            kind: self.kind,
            label: self.label@,
            command: self.command,
            children: self.children@,
        }
    }
}

/// The nodes of a menu.
pub open spec fn entries(nodes: Seq<Node>) -> Seq<Entry> {
    Seq::new(nodes.len(), |i: int| nodes[i]@)
}

/// The numbers from `lo` on, `n` of them.
pub open spec fn numbers(lo: int, n: int) -> Seq<i32> {
    Seq::new(n as nat, |i: int| (lo + i) as i32)
}

pub open spec fn button(label: Seq<char>, command: Command) -> Entry {
    Entry { kind: Kind::Button, label, command: Some(command), children: Seq::empty() }
}

pub open spec fn separator() -> Entry {
    Entry { kind: Kind::Separator, label: ""@, command: None, children: Seq::empty() }
}

pub open spec fn submenu(label: Seq<char>, children: Seq<i32>) -> Entry {
    Entry { kind: Kind::Submenu, label, command: None, children }
}

/// The top of a menu with `p` presets.
pub open spec fn top_entries(p: int) -> Seq<Entry> {
    seq![
        Entry { kind: Kind::Root, label: ""@, command: None, children: numbers(1, 9) },
        button("▶ 开始"@, Command::Start),
        button("⏸ 暂停"@, Command::Pause),
        button("⟳ 重置"@, Command::Reset),
        separator(),
        submenu("时长预设"@, numbers(10, p)),
        submenu("模式"@, numbers(10 + p, 4)),
        submenu("外观"@, numbers(14 + p, 3)),
        separator(),
        button("✕ 退出"@, Command::Quit),
    ]
}

/// The presets, each with its label.
pub open spec fn preset_entries(presets: Seq<u32>) -> Seq<Entry> {
    Seq::new(
        presets.len(),
        |i: int| button("⏱ "@ + config::label_text(presets[i]), Command::Preset(presets[i])),
    )
}

pub open spec fn mode_entries() -> Seq<Entry> {
    seq![
        button("倒计时"@, Command::SetMode(Mode::Countdown)),
        button("秒表"@, Command::SetMode(Mode::Stopwatch)),
        button("🍅 番茄钟"@, Command::SetMode(Mode::Pomodoro)),
        button("🕐 时钟"@, Command::SetMode(Mode::Clock)),
    ]
}

pub open spec fn look_entries(p: int) -> Seq<Entry> {
    seq![
        submenu("背景透明度"@, numbers(17 + p, 5)),
        submenu("配色预设"@, numbers(22 + p, 6)),
        submenu("图标内容"@, numbers(28 + p, 5)),
    ]
}

pub open spec fn alpha_entries() -> Seq<Entry> {
    Seq::new(5, |i: int| button(ALPHA_STEPS@[i].0@, Command::SetAlpha(ALPHA_STEPS@[i].1)))
}

pub open spec fn palette_entries() -> Seq<Entry> {
    Seq::new(6, |i: int| button(PALETTES@[i].0@, Command::SetPalette(i as usize)))
}

/// What the icon may show; an animation only where there is one.
pub open spec fn icon_entries(animated: bool) -> Seq<Entry> {
    seq![
        button("🕐 时钟表盘"@, Command::SetIcon(IconMode::Clock)),
        button("CPU 占用"@, Command::SetIcon(IconMode::Cpu)),
        button("内存占用"@, Command::SetIcon(IconMode::Memory)),
        button("电池电量"@, Command::SetIcon(IconMode::Battery)),
        button(
            if animated {
                "GIF 动图"@
            } else {
                "GIF 动图（未配置 tray_gif）"@
            },
            Command::SetIcon(IconMode::Gif),
        ),
    ]
}

/// The nodes of the menu, in the order of their numbers.
pub open spec fn menu(presets: Seq<u32>, animated: bool) -> Seq<Entry> {
    let p = presets.len() as int;
    top_entries(p) + preset_entries(presets) + mode_entries() + look_entries(p) + alpha_entries()
        + palette_entries() + icon_entries(animated)
}

/// The numbers from `lo` on, `n` of them.
fn ids(lo: usize, n: usize) -> (r: Vec<i32>)
    requires
        lo + n <= i32::MAX,
    ensures
        r@ == numbers(lo as int, n as int),
{
    let mut out: Vec<i32> = Vec::new();
    let mut i: usize = 0;
    while i < n
        invariant
            i <= n,
            lo + n <= i32::MAX,
            out@ == numbers(lo as int, i as int),
        decreases n - i,
    {
        out.push((lo + i) as i32);
        i = i + 1;
        assert(out@ =~= numbers(lo as int, i as int));
    }
    out
}

fn button_node(label: &str, command: Command) -> (r: Node)
    ensures
        r@ == button(label@, command),
{
    let r = Node {
        kind: Kind::Button,
        label: String::from_str(label),
        command: Some(command),
        children: Vec::new(),
    };
    assert(r.children@ =~= Seq::<i32>::empty());
    r
}

fn separator_node() -> (r: Node)
    ensures
        r@ == separator(),
{
    let r = Node {
        kind: Kind::Separator,
        label: String::from_str(""),
        command: None,
        children: Vec::new(),
    };
    assert(r.children@ =~= Seq::<i32>::empty());
    r
}

fn submenu_node(label: &str, children: Vec<i32>) -> (r: Node)
    ensures
        r@ == submenu(label@, children@),
{
    Node { kind: Kind::Submenu, label: String::from_str(label), command: None, children }
}

/// Appends a node.
fn add_node(nodes: &mut Vec<Node>, node: Node)
    ensures
        entries(final(nodes)@) == entries(old(nodes)@).push(node@),
{
    nodes.push(node);
    assert(entries(nodes@) =~= entries(old(nodes)@).push(node@));
}

/// The top of a menu with `p` presets.
fn top_nodes(p: usize) -> (r: Vec<Node>)
    requires
        p + 33 <= i32::MAX,
    ensures
        entries(r@) == top_entries(p as int),
{
    let mut n: Vec<Node> = Vec::new();
    add_node(
        &mut n,
        Node { kind: Kind::Root, label: String::from_str(""), command: None, children: ids(1, 9) },
    );
    add_node(&mut n, button_node("▶ 开始", Command::Start));
    add_node(&mut n, button_node("⏸ 暂停", Command::Pause));
    add_node(&mut n, button_node("⟳ 重置", Command::Reset));
    add_node(&mut n, separator_node());
    add_node(&mut n, submenu_node("时长预设", ids(10, p)));
    add_node(&mut n, submenu_node("模式", ids(10 + p, 4)));
    add_node(&mut n, submenu_node("外观", ids(14 + p, 3)));
    add_node(&mut n, separator_node());
    add_node(&mut n, button_node("✕ 退出", Command::Quit));
    assert(entries(n@) =~= top_entries(p as int));
    n
}

/// The nodes of the menu, in the order of their numbers. Where there is no animation, its label
/// says so.
pub fn build_nodes(presets: &[u32], gif_configured: bool) -> (r: Vec<Node>)
    requires
        presets@.len() + 33 <= i32::MAX,
    ensures
        entries(r@) == menu(presets@, gif_configured),
{
    let p: usize = presets.len();
    let ghost top = top_entries(p as int);
    let mut n = top_nodes(p);
    let mut i: usize = 0;
    assert(entries(n@) =~= top + preset_entries(presets@).take(0));
    while i < p
        invariant
            i <= p,
            p == presets@.len(),
            entries(n@) == top + preset_entries(presets@).take(i as int),
        decreases p - i,
    {
        let mut label = String::from_str("⏱ ");
        label.append(preset_label(presets[i]).as_str());
        let node = button_node(label.as_str(), Command::Preset(presets[i]));
        let ghost before = entries(n@);
        let ghost one = node@;
        add_node(&mut n, node);
        assert(before.push(one) =~= top + preset_entries(presets@).take(i + 1));
        i = i + 1;
    }
    assert(preset_entries(presets@).take(p as int) =~= preset_entries(presets@));
    let ghost before = entries(n@);
    add_node(&mut n, button_node("倒计时", Command::SetMode(Mode::Countdown)));
    add_node(&mut n, button_node("秒表", Command::SetMode(Mode::Stopwatch)));
    add_node(&mut n, button_node("🍅 番茄钟", Command::SetMode(Mode::Pomodoro)));
    add_node(&mut n, button_node("🕐 时钟", Command::SetMode(Mode::Clock)));
    assert(entries(n@) =~= before + mode_entries());
    let ghost before = entries(n@);
    add_node(&mut n, submenu_node("背景透明度", ids(17 + p, 5)));
    add_node(&mut n, submenu_node("配色预设", ids(22 + p, 6)));
    add_node(&mut n, submenu_node("图标内容", ids(28 + p, 5)));
    assert(entries(n@) =~= before + look_entries(p as int));
    add_choices(&mut n);
    add_icons(&mut n, gif_configured);
    n
}

/// Appends how opaque the background may be, and the palettes.
fn add_choices(n: &mut Vec<Node>)
    ensures
        entries(final(n)@) == entries(old(n)@) + alpha_entries() + palette_entries(),
{
    let ghost before = entries(n@);
    let mut i: usize = 0;
    assert(entries(n@) =~= before + alpha_entries().take(0));
    while i < 5
        invariant
            i <= 5,
            entries(n@) == before + alpha_entries().take(i as int),
        decreases 5 - i,
    {
        let ghost had = entries(n@);
        let node = button_node(ALPHA_STEPS[i].0, Command::SetAlpha(ALPHA_STEPS[i].1));
        let ghost one = node@;
        add_node(n, node);
        assert(had.push(one) =~= before + alpha_entries().take(i + 1));
        i = i + 1;
    }
    assert(alpha_entries().take(5) =~= alpha_entries());
    let ghost middle = entries(n@);
    let mut k: usize = 0;
    assert(entries(n@) =~= middle + palette_entries().take(0));
    while k < 6
        invariant
            k <= 6,
            entries(n@) == middle + palette_entries().take(k as int),
        decreases 6 - k,
    {
        let ghost had = entries(n@);
        let node = button_node(PALETTES[k].0, Command::SetPalette(k));
        let ghost one = node@;
        add_node(n, node);
        assert(had.push(one) =~= middle + palette_entries().take(k + 1));
        k = k + 1;
    }
    assert(palette_entries().take(6) =~= palette_entries());
}

/// Appends what the icon may show.
fn add_icons(n: &mut Vec<Node>, animated: bool)
    ensures
        entries(final(n)@) == entries(old(n)@) + icon_entries(animated),
{
    let ghost before = entries(n@);
    add_node(n, button_node("🕐 时钟表盘", Command::SetIcon(IconMode::Clock)));
    add_node(n, button_node("CPU 占用", Command::SetIcon(IconMode::Cpu)));
    add_node(n, button_node("内存占用", Command::SetIcon(IconMode::Memory)));
    add_node(n, button_node("电池电量", Command::SetIcon(IconMode::Battery)));
    let label = if animated {
        "GIF 动图"
    } else {
        "GIF 动图（未配置 tray_gif）"
    };
    add_node(n, button_node(label, Command::SetIcon(IconMode::Gif)));
    assert(entries(n@) =~= before + icon_entries(animated));
}

/// The node that the node `i` of a menu with `p` presets hangs on.
pub open spec fn parent(p: int, i: int) -> int {
    if i < 10 {
        0
    } else if i < 10 + p {
        5
    } else if i < 14 + p {
        6
    } else if i < 17 + p {
        7
    } else if i < 22 + p {
        14 + p
    } else if i < 28 + p {
        15 + p
    } else {
        16 + p
    }
}

/// The menu is a tree: each node but the first hangs on one other, and only once. A button has a
/// command and no children, a submenu children and no command, and a line between them neither.
pub proof fn law_menu_is_a_tree(presets: Seq<u32>, animated: bool)
    requires
        presets.len() + 33 <= i32::MAX,
    ensures
        ({
            let m = menu(presets, animated);
            let p = presets.len() as int;
            &&& m.len() == p + 33
            &&& m[0].kind == Kind::Root && m[0].command is None
            &&& forall|i: int|
                1 <= i < m.len() ==> match (#[trigger] m[i]).kind {
                    Kind::Root => false,
                    Kind::Button => m[i].command is Some && m[i].children.len() == 0,
                    Kind::Separator => m[i].command is None && m[i].children.len() == 0,
                    Kind::Submenu => m[i].command is None && (m[i].children.len() > 0 || p == 0),
                }
            &&& forall|i: int, k: int|
                0 <= i < m.len() && 0 <= k < m[i].children.len() ==> {
                    let c = #[trigger] m[i].children[k];
                    i < c < m.len() && parent(p, c as int) == i && c == m[i].children[0] + k
                }
            &&& forall|c: int|
                1 <= c < m.len() ==> 0 <= #[trigger] parent(p, c) < c && m[parent(p, c)].children.contains(
                    c as i32,
                )
        }),
{
    let m = menu(presets, animated);
    let p = presets.len() as int;
    lemma_menu_parts(presets, animated);
    assert forall|c: int| 1 <= c < m.len() implies 0 <= #[trigger] parent(p, c) < c && m[parent(
        p,
        c,
    )].children.contains(c as i32) by {
        let up = parent(p, c);
        let first = m[up].children[0] as int;
        assert(m[up].children[c - first] == c);
    }
}

/// Where the parts of the menu stand.
proof fn lemma_menu_parts(presets: Seq<u32>, animated: bool)
    requires
        presets.len() + 33 <= i32::MAX,
    ensures
        ({
            let m = menu(presets, animated);
            let p = presets.len() as int;
            &&& m.len() == p + 33
            &&& m[0] == top_entries(p)[0]
            &&& m[5] == top_entries(p)[5]
            &&& m[6] == top_entries(p)[6]
            &&& m[7] == top_entries(p)[7]
            &&& m[14 + p] == look_entries(p)[0]
            &&& m[15 + p] == look_entries(p)[1]
            &&& m[16 + p] == look_entries(p)[2]
            &&& forall|i: int|
                1 <= i < m.len() && i != 5 && i != 6 && i != 7 && i != 14 + p && i != 15 + p && i != 16 + p
                    ==> (#[trigger] m[i]).children.len() == 0 && (m[i].kind == Kind::Button
                    && m[i].command is Some || m[i].kind == Kind::Separator && m[i].command is None)
        }),
{
    let m = menu(presets, animated);
    let p = presets.len() as int;
    let top = top_entries(p);
    let looks = look_entries(p);
    assert(m.len() == p + 33);
    assert forall|i: int|
        1 <= i < m.len() && i != 5 && i != 6 && i != 7 && i != 14 + p && i != 15 + p && i != 16 + p implies (
    #[trigger] m[i]).children.len() == 0 && (m[i].kind == Kind::Button && m[i].command is Some
        || m[i].kind == Kind::Separator && m[i].command is None) by {
        if i < 10 {
            assert(m[i] == top[i]);
        } else if i < 10 + p {
            assert(m[i] == preset_entries(presets)[i - 10]);
        } else if i < 14 + p {
            assert(m[i] == mode_entries()[i - 10 - p]);
        } else if i < 22 + p {
            assert(m[i] == alpha_entries()[i - 17 - p]);
        } else if i < 28 + p {
            assert(m[i] == palette_entries()[i - 22 - p]);
        } else {
            assert(m[i] == icon_entries(animated)[i - 28 - p]);
        }
    }
}

// ---- what is chosen ----

/// What the mark of a choice depends on.
#[derive(Clone, Copy, Debug, PartialEq, Eq, Structural)]
pub enum Check {
    Mode(Mode),
    Alpha(u8),
    Palette(usize),
    Icon(IconMode),
}

impl Command {
    /// What the mark of this choice depends on; only one of several choices has a mark.
    pub open spec fn choice(self) -> Option<Check> {
        match self {
            Command::SetMode(m) => Some(Check::Mode(m)),
            Command::SetAlpha(a) => Some(Check::Alpha(a)),
            Command::SetPalette(i) => Some(Check::Palette(i)),
            Command::SetIcon(m) => Some(Check::Icon(m)),
            _ => None,
        }
    }

    /// What the mark of this choice depends on.
    pub fn check(&self) -> (r: Option<Check>)
        ensures
            r == self.choice(),
    {
        match self {
            Command::SetMode(m) => Some(Check::Mode(*m)),
            Command::SetAlpha(a) => Some(Check::Alpha(*a)),
            Command::SetPalette(i) => Some(Check::Palette(*i)),
            Command::SetIcon(m) => Some(Check::Icon(*m)),
            _ => None,
        }
    }
}

/// What is chosen in the menu.
#[derive(Clone, Copy, Debug, PartialEq, Eq)]
pub struct State {
    pub mode: Mode,
    pub alpha: u8,
    /// The palette whose four colors are in use, if there is one.
    pub palette: Option<usize>,
    pub icon: IconMode,
    /// Whether there is an animation to show.
    pub gif: bool,
}

/// Whether the four colors are those of the palette `i`.
pub open spec fn has_palette(s: config::Settings, i: int) -> bool {
    let p = PALETTES@[i];
    s.color_bg == p.1 && s.running == seq![p.2] && s.paused == seq![p.3] && s.done == seq![p.4]
}

/// The first palette from `i` on whose colors are in use.
pub open spec fn palette_from(s: config::Settings, i: int) -> Option<usize>
    decreases 6 - i,
{
    if i < 0 || i >= 6 {
        None
    } else if has_palette(s, i) {
        Some(i as usize)
    } else {
        palette_from(s, i + 1)
    }
}

/// Whether the colors are this one alone.
fn only(g: &Vec<u32>, c: u32) -> (r: bool)
    ensures
        r == (g@ == seq![c]),
{
    let r = g.len() == 1 && g[0] == c;
    assert(r ==> g@ =~= seq![c]);
    assert(g@ == seq![c] ==> g@.len() == 1 && g@[0] == c);
    r
}

impl State {
    /// What a configuration chooses.
    pub open spec fn of(s: config::Settings) -> State {
        State {
            mode: s.mode,
            alpha: s.bg_alpha,
            palette: palette_from(s, 0),
            icon: s.tray_icon,
            gif: match s.tray_gif {
                Some(p) => strings::trimmed(p).len() > 0,
                None => false,
            },
        }
    }

    /// What a configuration chooses.
    pub fn from_config(cfg: &Config) -> (r: Self)
        ensures
            r == State::of(cfg@),
    {
        let mut palette: Option<usize> = None;
        let mut i: usize = 0;
        while i < 6
            invariant_except_break
                palette is None,
            invariant
                i <= 6,
                palette_from(cfg@, 0) == palette_from(cfg@, i as int),
            ensures
                palette == palette_from(cfg@, 0),
            decreases 6 - i,
        {
            let p = PALETTES[i];
            if cfg.color_bg == p.1 && only(&cfg.color_running.stops, p.2) && only(
                &cfg.color_paused.stops,
                p.3,
            ) && only(&cfg.color_done.stops, p.4) {
                palette = Some(i);
                break;
            }
            i = i + 1;
        }
        let gif = match &cfg.tray_gif {
            Some(p) => trim(&chars_of(p.as_str())).len() > 0,
            None => false,
        };
        State { mode: cfg.mode, alpha: cfg.bg_alpha, palette, icon: cfg.tray_icon, gif }
    }

    /// Whether a command can be chosen: an animation only where there is one.
    pub open spec fn can(self, cmd: Command) -> bool {
        cmd == Command::SetIcon(IconMode::Gif) ==> self.gif
    }

    /// Whether a command can be chosen.
    pub fn enabled(&self, cmd: &Command) -> (r: bool)
        ensures
            r == self.can(*cmd),
    {
        match cmd {
            Command::SetIcon(IconMode::Gif) => self.gif,
            _ => true,
        }
    }

    /// Whether this is what is chosen.
    pub open spec fn has(self, c: Check) -> bool {
        match c {
            Check::Mode(m) => self.mode == m,
            Check::Alpha(a) => self.alpha == a,
            Check::Palette(i) => self.palette == Some(i),
            Check::Icon(m) => self.icon == m,
        }
    }

    /// Whether this is what is chosen.
    pub fn checked(&self, c: Check) -> (r: bool)
        ensures
            r == self.has(c),
    {
        match c {
            Check::Mode(m) => self.mode == m,
            Check::Alpha(a) => self.alpha == a,
            Check::Palette(i) => match self.palette {
                Some(k) => k == i,
                None => false,
            },
            Check::Icon(m) => self.icon == m,
        }
    }

    /// What is chosen after a command.
    pub open spec fn after(self, cmd: Command) -> State {
        match cmd {
            Command::SetMode(m) => State { mode: m, ..self },
            Command::SetAlpha(a) => State { alpha: a, ..self },
            Command::SetPalette(i) => State { palette: Some(i), ..self },
            Command::SetIcon(m) => State { icon: m, ..self },
            _ => self,
        }
    }

    /// Takes note of a command that was sent.
    pub fn note(&mut self, cmd: &Command)
        ensures
            *final(self) == old(self).after(*cmd),
    {
        match cmd {
            Command::SetMode(m) => {
                self.mode = *m;
            },
            Command::SetAlpha(a) => {
                self.alpha = *a;
            },
            Command::SetPalette(i) => {
                self.palette = Some(*i);
            },
            Command::SetIcon(m) => {
                self.icon = *m;
            },
            _ => {},
        }
    }
}

/// What was chosen is marked, and of the choices of its kind nothing else; all other marks stay.
pub proof fn law_choice_is_marked(s: State, cmd: Command, other: Check)
    ensures
        match cmd.choice() {
            Some(c) => {
                &&& s.after(cmd).has(c)
                &&& match (c, other) {
                    (Check::Mode(a), Check::Mode(b)) => s.after(cmd).has(other) == (a == b),
                    (Check::Alpha(a), Check::Alpha(b)) => s.after(cmd).has(other) == (a == b),
                    (Check::Palette(a), Check::Palette(b)) => s.after(cmd).has(other) == (a == b),
                    (Check::Icon(a), Check::Icon(b)) => s.after(cmd).has(other) == (a == b),
                    _ => s.after(cmd).has(other) == s.has(other),
                }
            },
            None => s.after(cmd) == s,
        },
{
}

/// The menu offers each preset, in their order and with its length, each mode, and each thing that the
/// icon may show.
pub proof fn law_menu_offers_everything(presets: Seq<u32>, animated: bool, i: int)
    requires
        0 <= i < presets.len(),
    ensures
        ({
            let m = menu(presets, animated);
            let p = presets.len() as int;
            &&& m.len() == 33 + p
            &&& m[10 + i].command == Some(Command::Preset(presets[i]))
            &&& m[10 + i].label == "⏱ "@ + config::label_text(presets[i])
            &&& m[10 + p].command == Some(Command::SetMode(Mode::Countdown))
            &&& m[11 + p].command == Some(Command::SetMode(Mode::Stopwatch))
            &&& m[12 + p].command == Some(Command::SetMode(Mode::Pomodoro))
            &&& m[13 + p].command == Some(Command::SetMode(Mode::Clock))
            &&& m[28 + p].command == Some(Command::SetIcon(IconMode::Clock))
            &&& m[29 + p].command == Some(Command::SetIcon(IconMode::Cpu))
            &&& m[30 + p].command == Some(Command::SetIcon(IconMode::Memory))
            &&& m[31 + p].command == Some(Command::SetIcon(IconMode::Battery))
            &&& m[32 + p].command == Some(Command::SetIcon(IconMode::Gif))
        }),
{
}

/// Each palette of the menu sets itself, in their order, and each step of opacity its own.
pub proof fn law_menu_offers_looks(presets: Seq<u32>, animated: bool, i: int)
    requires
        0 <= i < 6,
    ensures
        ({
            let m = menu(presets, animated);
            let p = presets.len() as int;
            &&& m[22 + p + i].command == Some(Command::SetPalette(i as usize))
            &&& i < 5 ==> m[17 + p + i].command == Some(Command::SetAlpha(ALPHA_STEPS@[i].1))
        }),
{
}

} // verus!
