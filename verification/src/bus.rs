//! What the tray answers on the message bus: which calls it takes, what each of them sets off, and
//! what the answers hold.
use crate::strings::same;
use crate::tray;
use crate::tray::{Command, Kind, Node, State};
use vstd::prelude::*;

verus! {

/// The object of the icon, and its interface.
pub const ITEM_PATH: &'static str = "/StatusNotifierItem";

pub const ITEM_IFACE: &'static str = "org.kde.StatusNotifierItem";

/// The object of the menu, and its interface.
pub const MENU_PATH: &'static str = "/MenuBar";

pub const MENU_IFACE: &'static str = "com.canonical.dbusmenu";

/// The interface for properties.
pub const PROPS_IFACE: &'static str = "org.freedesktop.DBus.Properties";

/// The interface that describes the others.
pub const INTROSPECT_IFACE: &'static str = "org.freedesktop.DBus.Introspectable";

/// What the button of a notification is called.
pub const ACTION_RESTART: &'static str = "restart";

/// A call: its member, interface and object, and its arguments. An argument that is not there, or is
/// of another type, is 0 or empty.
pub struct Call {
    pub member: String,
    pub iface: String,
    pub path: String,
    /// The first argument as a number.
    pub first: i32,
    /// The second argument as a number.
    pub second: i32,
    /// The second argument as a text.
    pub text: String,
}

/// What a call is answered.
pub enum Answer {
    /// Nothing: it is for someone else.
    Unhandled,
    /// That it was done.
    Done,
    /// The description of the icon.
    ItemXml,
    /// The description of the menu.
    MenuXml,
    /// A property of the icon.
    Property(String),
    /// That there is no such property.
    UnknownProperty(String),
    /// All properties of the icon.
    AllProperties,
    /// The menu from a node down, so many levels deep.
    Layout(i32, i32),
    /// The properties of nodes.
    Group,
    /// A property of a node.
    NodeProperty(i32, String),
    /// No.
    No,
}

/// What a call is answered.
pub ghost enum Reply {
    Unhandled,
    Done,
    ItemXml,
    MenuXml,
    Property(Seq<char>),
    UnknownProperty(Seq<char>),
    AllProperties,
    Layout(i32, i32),
    Group,
    NodeProperty(i32, Seq<char>),
    No,
}

impl View for Answer {
    type V = Reply;

    open spec fn view(&self) -> Reply {
        match self {
            Answer::Unhandled => Reply::Unhandled,
            Answer::Done => Reply::Done,
            Answer::ItemXml => Reply::ItemXml,
            Answer::MenuXml => Reply::MenuXml,
            Answer::Property(n) => Reply::Property(n@),
            Answer::UnknownProperty(n) => Reply::UnknownProperty(n@),
            Answer::AllProperties => Reply::AllProperties,
            Answer::Layout(a, b) => Reply::Layout(*a, *b),
            Answer::Group => Reply::Group,
            Answer::NodeProperty(id, n) => Reply::NodeProperty(*id, n@),
            Answer::No => Reply::No,
        }
    }
}

/// The properties of the icon.
pub const SNI_PROPERTIES: [&'static str; 9] = [
    "Category",
    "Id",
    "Title",
    "Status",
    "IconName",
    "IconPixmap",
    "ToolTip",
    "ItemIsMenu",
    "Menu",
];

/// Whether the icon has a property.
pub open spec fn has_property(name: Seq<char>) -> bool {
    exists|i: int| 0 <= i < 9 && (#[trigger] SNI_PROPERTIES@[i])@ == name
}

/// Whether the icon has a property.
pub fn known_property(name: &str) -> (r: bool)
    ensures
        r == has_property(name@),
{
    let mut i: usize = 0;
    while i < 9
        invariant
            i <= 9,
            forall|j: int| 0 <= j < i ==> (#[trigger] SNI_PROPERTIES@[j])@ != name@,
        decreases 9 - i,
    {
        if same(SNI_PROPERTIES[i], name) {
            return true;
        }
        i = i + 1;
    }
    false
}

/// The command of the node `id`, where there is one that can be chosen.
pub open spec fn command_of(nodes: Seq<tray::Entry>, state: State, id: int) -> Option<Command> {
    if 0 <= id < nodes.len() {
        match nodes[id].command {
            Some(cmd) => if state.can(cmd) {
                Some(cmd)
            } else {
                None
            },
            None => None,
        }
    } else {
        None
    }
}

/// What a call on the icon sets off.
pub open spec fn item_call(member: Seq<char>, first: i32, text: Seq<char>) -> (Reply, Option<Command>) {
    if member == "Activate"@ {
        (Reply::Done, Some(Command::Toggle))
    } else if member == "SecondaryActivate"@ {
        (Reply::Done, Some(Command::Reset))
    } else if member == "ContextMenu"@ {
        (Reply::Done, None)
    } else if member == "Scroll"@ {
        (
            Reply::Done,
            if text == "vertical"@ {
                Some(Command::ZoomBy(first))
            } else {
                None
            },
        )
    } else {
        (Reply::Unhandled, None)
    }
}

/// What a call on the menu sets off.
pub open spec fn menu_call(
    member: Seq<char>,
    first: i32,
    second: i32,
    text: Seq<char>,
    nodes: Seq<tray::Entry>,
    state: State,
) -> (Reply, Option<Command>) {
    if member == "GetLayout"@ {
        (Reply::Layout(first, second), None)
    } else if member == "GetGroupProperties"@ {
        (Reply::Group, None)
    } else if member == "GetProperty"@ {
        (Reply::NodeProperty(first, text), None)
    } else if member == "AboutToShow"@ || member == "EventGroup"@ {
        (Reply::No, None)
    } else if member == "Event"@ {
        (
            Reply::Done,
            if text == "clicked"@ {
                command_of(nodes, state, first as int)
            } else {
                None
            },
        )
    } else {
        (Reply::Unhandled, None)
    }
}

/// What a call is answered, and the command that it sets off.
pub open spec fn handled(call: Call, nodes: Seq<tray::Entry>, state: State) -> (Reply, Option<Command>) {
    let member = call.member@;
    let iface = call.iface@;
    let path = call.path@;
    if member == "Ping"@ {
        (Reply::Done, None)
    } else if member == "Introspect"@ && iface == INTROSPECT_IFACE@ {
        (
            if path == MENU_PATH@ {
                Reply::MenuXml
            } else {
                Reply::ItemXml
            },
            None,
        )
    } else if member == "Get"@ && iface == PROPS_IFACE@ {
        (
            if has_property(call.text@) {
                Reply::Property(call.text@)
            } else {
                Reply::UnknownProperty(call.text@)
            },
            None,
        )
    } else if member == "GetAll"@ && iface == PROPS_IFACE@ {
        (Reply::AllProperties, None)
    } else if path == ITEM_PATH@ && iface == ITEM_IFACE@ {
        item_call(member, call.first, call.text@)
    } else if path == MENU_PATH@ && iface == MENU_IFACE@ {
        menu_call(member, call.first, call.second, call.text@, nodes, state)
    } else {
        (Reply::Unhandled, None)
    }
}

fn copied(s: &String) -> (r: String)
    ensures
        r@ == s@,
{
    crate::config::copy_of(s)
}

/// The command of the node `id`, where there is one that can be chosen.
fn find_command(nodes: &Vec<Node>, state: &State, id: i32) -> (r: Option<Command>)
    ensures
        r == command_of(tray::entries(nodes@), *state, id as int),
{
    if id < 0 || id as usize >= nodes.len() {
        return None;
    }
    assert(tray::entries(nodes@)[id as int] == nodes@[id as int]@);
    match &nodes[id as usize].command {
        Some(cmd) => if state.enabled(cmd) {
            Some(cmd.clone())
        } else {
            None
        },
        None => None,
    }
}

fn answer_item(call: &Call) -> (r: (Answer, Option<Command>))
    ensures
        (r.0@, r.1) == item_call(call.member@, call.first, call.text@),
{
    let member = call.member.as_str();
    if same(member, "Activate") {
        (Answer::Done, Some(Command::Toggle))
    } else if same(member, "SecondaryActivate") {
        (Answer::Done, Some(Command::Reset))
    } else if same(member, "ContextMenu") {
        (Answer::Done, None)
    } else if same(member, "Scroll") {
        if same(call.text.as_str(), "vertical") {
            (Answer::Done, Some(Command::ZoomBy(call.first)))
        } else {
            (Answer::Done, None)
        }
    } else {
        (Answer::Unhandled, None)
    }
}

fn answer_menu(call: &Call, nodes: &Vec<Node>, state: &State) -> (r: (Answer, Option<Command>))
    ensures
        (r.0@, r.1) == menu_call(
            call.member@,
            call.first,
            call.second,
            call.text@,
            tray::entries(nodes@),
            *state,
        ),
{
    let member = call.member.as_str();
    if same(member, "GetLayout") {
        (Answer::Layout(call.first, call.second), None)
    } else if same(member, "GetGroupProperties") {
        (Answer::Group, None)
    } else if same(member, "GetProperty") {
        (Answer::NodeProperty(call.first, copied(&call.text)), None)
    } else if same(member, "AboutToShow") || same(member, "EventGroup") {
        (Answer::No, None)
    } else if same(member, "Event") {
        if same(call.text.as_str(), "clicked") {
            (Answer::Done, find_command(nodes, state, call.first))
        } else {
            (Answer::Done, None)
        }
    } else {
        (Answer::Unhandled, None)
    }
}

/// Answers a call. The command that it sets off is for the window, and the menu marks at once what
/// it chooses.
pub fn on_message(call: &Call, nodes: &Vec<Node>, state: &mut State) -> (r: (Answer, Option<Command>))
    ensures
        (r.0@, r.1) == handled(*call, tray::entries(nodes@), *old(state)),
        *final(state) == (match r.1 {
            Some(cmd) => old(state).after(cmd),
            None => *old(state),
        }),
{
    let member = call.member.as_str();
    let iface = call.iface.as_str();
    let path = call.path.as_str();
    let r = if same(member, "Ping") {
        (Answer::Done, None)
    } else if same(member, "Introspect") && same(iface, INTROSPECT_IFACE) {
        if same(path, MENU_PATH) {
            (Answer::MenuXml, None)
        } else {
            (Answer::ItemXml, None)
        }
    } else if same(member, "Get") && same(iface, PROPS_IFACE) {
        if known_property(call.text.as_str()) {
            (Answer::Property(copied(&call.text)), None)
        } else {
            (Answer::UnknownProperty(copied(&call.text)), None)
        }
    } else if same(member, "GetAll") && same(iface, PROPS_IFACE) {
        (Answer::AllProperties, None)
    } else if same(path, ITEM_PATH) && same(iface, ITEM_IFACE) {
        answer_item(call)
    } else if same(path, MENU_PATH) && same(iface, MENU_IFACE) {
        answer_menu(call, nodes, state)
    } else {
        (Answer::Unhandled, None)
    };
    if let Some(cmd) = &r.1 {
        state.note(cmd);
    }
    r
}

/// A choice that is greyed out sets nothing off, whoever asks for it.
pub proof fn law_disabled_choices_do_nothing(call: Call, nodes: Seq<tray::Entry>, state: State)
    ensures
        handled(call, nodes, state).1 matches Some(cmd) ==> state.can(cmd),
{
}

/// What the button of a notification sets off.
pub fn on_action(key: &str) -> (r: Option<Command>)
    ensures
        r == (if key@ == ACTION_RESTART@ {
            Some(Command::Start)
        } else {
            None
        }),
{
    if same(key, ACTION_RESTART) {
        Some(Command::Start)
    } else {
        None
    }
}

// ---- the icon's properties ----

/// The value of a property of the icon.
#[derive(Clone, Copy, Debug)]
pub enum SniValue {
    Text(&'static str),
    Flag(bool),
    Object(&'static str),
    /// The picture.
    Pixmap,
    /// The picture with a title and a text.
    ToolTip(&'static str, &'static str),
}

/// The value of a property of the icon.
pub open spec fn sni_value(name: Seq<char>, v: SniValue) -> bool {
    if name == "IconPixmap"@ {
        v is Pixmap
    } else if name == "ToolTip"@ {
        v matches SniValue::ToolTip(a, b) && a@ == "TinyTicker"@ && b@ == "极简悬浮计时器"@
    } else if name == "ItemIsMenu"@ {
        v == SniValue::Flag(false)
    } else if name == "Menu"@ {
        v matches SniValue::Object(p) && p@ == MENU_PATH@
    } else {
        v matches SniValue::Text(t) && t@ == (if name == "Category"@ {
            "ApplicationStatus"@
        } else if name == "Id"@ {
            "tinyticker"@
        } else if name == "Title"@ {
            "TinyTicker"@
        } else if name == "Status"@ {
            "Active"@
        } else {
            ""@
        })
    }
}

/// The value of a property of the icon. A click on it does something, so it is no mere menu.
pub fn sni_property(name: &str) -> (r: SniValue)
    ensures
        sni_value(name@, r),
{
    if same(name, "IconPixmap") {
        SniValue::Pixmap
    } else if same(name, "ToolTip") {
        SniValue::ToolTip("TinyTicker", "极简悬浮计时器")
    } else if same(name, "ItemIsMenu") {
        SniValue::Flag(false)
    } else if same(name, "Menu") {
        SniValue::Object(MENU_PATH)
    } else if same(name, "Category") {
        SniValue::Text("ApplicationStatus")
    } else if same(name, "Id") {
        SniValue::Text("tinyticker")
    } else if same(name, "Title") {
        SniValue::Text("TinyTicker")
    } else if same(name, "Status") {
        SniValue::Text("Active")
    } else {
        SniValue::Text("")
    }
}

// ---- the menu's properties ----

/// The value of a property of a node.
pub enum Prop {
    Text(String),
    Flag(bool),
}

/// The value of a property of a node.
pub ghost enum Value {
    Text(Seq<char>),
    Flag(bool),
}

impl View for Prop {
    type V = Value;

    open spec fn view(&self) -> Value {
        match self {
            Prop::Text(t) => Value::Text(t@),
            Prop::Flag(b) => Value::Flag(*b),
        }
    }
}

/// Names and values of properties.
pub open spec fn props(v: Seq<(&'static str, Prop)>) -> Seq<(Seq<char>, Value)> {
    Seq::new(v.len(), |i: int| (v[i].0@, v[i].1@))
}

/// Whether a node can be chosen.
pub open spec fn node_enabled(e: tray::Entry, state: State) -> bool {
    match e.command {
        Some(cmd) => state.can(cmd),
        None => true,
    }
}

/// The properties of a node: only one of several choices says whether it is the one.
pub open spec fn entry_props(e: tray::Entry, state: State) -> Seq<(Seq<char>, Value)> {
    match e.kind {
        Kind::Separator => seq![("type"@, Value::Text("separator"@))],
        Kind::Root => seq![("children-display"@, Value::Text("compound"@))],
        Kind::Submenu => seq![
            ("label"@, Value::Text(e.label)),
            ("children-display"@, Value::Text("submenu"@)),
        ],
        Kind::Button => {
            let always = seq![
                ("label"@, Value::Text(e.label)),
                ("enabled"@, Value::Flag(node_enabled(e, state))),
            ];
            match e.command {
                Some(cmd) => match cmd.choice() {
                    Some(c) => always.push(("checked"@, Value::Flag(state.has(c)))),
                    None => always,
                },
                None => always,
            }
        },
    }
}

/// The properties of the node `id`; one that is not there has none.
pub open spec fn node_props_of(nodes: Seq<tray::Entry>, state: State, id: int) -> Seq<(Seq<char>, Value)> {
    if 0 <= id < nodes.len() {
        entry_props(nodes[id], state)
    } else {
        Seq::empty()
    }
}

fn text_prop(t: &str) -> (r: Prop)
    ensures
        r@ == Value::Text(t@),
{
    Prop::Text(String::from_str(t))
}

/// Whether a node can be chosen.
fn is_enabled(n: &Node, state: &State) -> (r: bool)
    ensures
        r == node_enabled(n@, *state),
{
    match &n.command {
        Some(cmd) => state.enabled(cmd),
        None => true,
    }
}

/// The properties of the node `id`.
pub fn node_props(nodes: &Vec<Node>, state: &State, id: i32) -> (r: Vec<(&'static str, Prop)>)
    ensures
        props(r@) == node_props_of(tray::entries(nodes@), *state, id as int),
{
    let mut out: Vec<(&'static str, Prop)> = Vec::new();
    if id < 0 || id as usize >= nodes.len() {
        assert(props(out@) =~= Seq::<(Seq<char>, Value)>::empty());
        return out;
    }
    let n = &nodes[id as usize];
    assert(tray::entries(nodes@)[id as int] == n@);
    match n.kind {
        Kind::Separator => {
            out.push(("type", text_prop("separator")));
        },
        Kind::Root => {
            out.push(("children-display", text_prop("compound")));
        },
        Kind::Submenu => {
            out.push(("label", text_prop(n.label.as_str())));
            out.push(("children-display", text_prop("submenu")));
        },
        Kind::Button => {
            out.push(("label", text_prop(n.label.as_str())));
            out.push(("enabled", Prop::Flag(is_enabled(n, state))));
            if let Some(cmd) = &n.command {
                if let Some(c) = cmd.check() {
                    out.push(("checked", Prop::Flag(state.checked(c))));
                }
            }
        },
    }
    assert(props(out@) =~= entry_props(n@, *state));
    out
}

/// A single property of a node.
pub open spec fn entry_prop(e: tray::Entry, state: State, name: Seq<char>) -> Value {
    if name == "label"@ {
        Value::Text(e.label)
    } else if name == "enabled"@ {
        Value::Flag(e.kind == Kind::Button && node_enabled(e, state))
    } else if name == "visible"@ {
        Value::Flag(true)
    } else if name == "children-display"@ {
        Value::Text(
            if e.kind == Kind::Submenu {
                "submenu"@
            } else {
                "compound"@
            },
        )
    } else if name == "type"@ {
        Value::Text(
            if e.kind == Kind::Separator {
                "separator"@
            } else {
                "standard"@
            },
        )
    } else {
        Value::Text(""@)
    }
}

/// A single property of the node `id`; one that is not there has an empty text.
pub fn node_property(nodes: &Vec<Node>, state: &State, id: i32, name: &str) -> (r: Prop)
    ensures
        r@ == (if 0 <= id < nodes@.len() {
            entry_prop(nodes@[id as int]@, *state, name@)
        } else {
            Value::Text(""@)
        }),
{
    if id < 0 || id as usize >= nodes.len() {
        return text_prop("");
    }
    let n = &nodes[id as usize];
    if same(name, "label") {
        text_prop(n.label.as_str())
    } else if same(name, "enabled") {
        Prop::Flag(n.kind == Kind::Button && is_enabled(n, state))
    } else if same(name, "visible") {
        Prop::Flag(true)
    } else if same(name, "children-display") {
        if n.kind == Kind::Submenu {
            text_prop("submenu")
        } else {
            text_prop("compound")
        }
    } else if same(name, "type") {
        if n.kind == Kind::Separator {
            text_prop("separator")
        } else {
            text_prop("standard")
        }
    } else {
        text_prop("")
    }
}

/// The nodes whose properties are asked for: all of them where none is named.
pub fn group_ids(nodes: &Vec<Node>, ids: &Vec<i32>) -> (r: Vec<i32>)
    requires
        nodes@.len() <= i32::MAX,
    ensures
        r@ == (if ids@.len() == 0 {
            tray::numbers(0, nodes@.len() as int)
        } else {
            ids@
        }),
{
    let mut out: Vec<i32> = Vec::new();
    let mut i: usize = 0;
    if ids.len() == 0 {
        while i < nodes.len()
            invariant
                i <= nodes@.len(),
                nodes@.len() <= i32::MAX,
                out@ == tray::numbers(0, i as int),
            decreases nodes@.len() - i,
        {
            out.push(i as i32);
            i = i + 1;
            assert(out@ =~= tray::numbers(0, i as int));
        }
        return out;
    }
    while i < ids.len()
        invariant
            i <= ids@.len(),
            out@ == ids@.take(i as int),
        decreases ids@.len() - i,
    {
        out.push(ids[i]);
        i = i + 1;
        assert(out@ =~= ids@.take(i as int));
    }
    assert(out@ =~= ids@);
    out
}

// ---- the layout of the menu ----

/// A node of the menu with those that hang on it.
pub struct Item {
    pub id: i32,
    pub props: Vec<(&'static str, Prop)>,
    pub children: Vec<Item>,
}

/// A node of the menu with those that hang on it.
pub ghost struct Branch {
    pub id: int,
    pub props: Seq<(Seq<char>, Value)>,
    pub children: Seq<Branch>,
}

impl Item {
    /// The node and those that hang on it.
    pub open spec fn branch(self) -> Branch
        decreases self,
    {
        Branch {
            id: self.id as int,
            props: props(self.props@),
            children: Seq::new(
                self.children@.len(),
                |i: int|
                    if 0 <= i < self.children@.len() {
                        self.children@[i].branch()
                    } else {
                        arbitrary()
                    },
            ),
        }
    }
}

/// Whether what hangs on a node comes after it, so that no node hangs below itself.
pub open spec fn grows_down(nodes: Seq<tray::Entry>) -> bool {
    forall|i: int, k: int|
        0 <= i < nodes.len() && 0 <= k < nodes[i].children.len() ==> i < (
        #[trigger] nodes[i].children[k]) < nodes.len()
}

/// The menu can be laid out, whatever lengths are offered in it.
pub proof fn law_menu_can_be_laid_out(presets: Seq<u32>, animated: bool)
    requires
        presets.len() + 33 <= i32::MAX,
    ensures
        grows_down(tray::menu(presets, animated)),
{
    tray::law_menu_is_a_tree(presets, animated);
}

/// How deep the layout goes below a node: 1 is the node alone, and 0 or less all the way down.
pub open spec fn deeper(depth: int) -> int {
    if depth > 0 {
        depth - 1
    } else {
        0
    }
}

/// The menu from a node down.
pub open spec fn layout_of(nodes: Seq<tray::Entry>, state: State, id: int, depth: int) -> Branch
    decreases nodes.len() - id,
{
    Branch {
        id,
        props: node_props_of(nodes, state, id),
        children: if depth == 1 || !(0 <= id < nodes.len()) || !grows_down(nodes) {
            Seq::empty()
        } else {
            Seq::new(
                nodes[id].children.len(),
                |k: int|
                    if 0 <= k < nodes[id].children.len() {
                        layout_of(nodes, state, nodes[id].children[k] as int, deeper(depth))
                    } else {
                        arbitrary()
                    },
            )
        },
    }
}

/// The menu from the node `id` down, `depth` levels deep or, where that is not above 0, all of it.
pub fn layout(nodes: &Vec<Node>, state: &State, id: i32, depth: i32) -> (r: Item)
    requires
        grows_down(tray::entries(nodes@)),
    ensures
        r.branch() == layout_of(tray::entries(nodes@), *state, id as int, depth as int),
    decreases nodes@.len() - id,
{
    let ghost e = tray::entries(nodes@);
    let mut children: Vec<Item> = Vec::new();
    if depth != 1 && id >= 0 && (id as usize) < nodes.len() {
        let below: i32 = if depth > 0 {
            depth - 1
        } else {
            0
        };
        let kids = &nodes[id as usize].children;
        assert(e[id as int].children == kids@);
        let mut k: usize = 0;
        while k < kids.len()
            invariant
                k <= kids@.len(),
                0 <= id < nodes@.len(),
                e == tray::entries(nodes@),
                grows_down(e),
                e[id as int].children == kids@,
                below == deeper(depth as int),
                children@.len() == k,
                forall|j: int|
                    0 <= j < k ==> (#[trigger] children@[j]).branch() == layout_of(
                        e,
                        *state,
                        kids@[j] as int,
                        below as int,
                    ),
            decreases kids@.len() - k,
        {
            assert(id < e[id as int].children[k as int] < e.len());
            let item = layout(nodes, state, kids[k], below);
            children.push(item);
            k = k + 1;
        }
    }
    let r = Item { id, props: node_props(nodes, state, id), children };
    assert(r.branch().children =~= layout_of(e, *state, id as int, depth as int).children);
    r
}

/// The layout of a menu goes down as far as it is asked for: a depth of 1 is the node alone, and each
/// more another row of nodes below it; 0 is all of it.
pub proof fn law_layout_goes_as_deep_as_asked(nodes: Seq<tray::Entry>, state: State, id: int, depth: int, k: int)
    requires
        grows_down(nodes),
        0 <= id < nodes.len(),
    ensures
        layout_of(nodes, state, id, depth).id == id,
        layout_of(nodes, state, id, depth).props == entry_props(nodes[id], state),
        layout_of(nodes, state, id, 1).children.len() == 0,
        depth != 1 ==> layout_of(nodes, state, id, depth).children.len() == nodes[id].children.len(),
        depth > 1 && 0 <= k < nodes[id].children.len() ==> layout_of(nodes, state, id, depth).children[k]
            == layout_of(nodes, state, nodes[id].children[k] as int, depth - 1),
        depth <= 0 && 0 <= k < nodes[id].children.len() ==> layout_of(nodes, state, id, depth).children[k]
            == layout_of(nodes, state, nodes[id].children[k] as int, 0),
{
}

} // verus!
