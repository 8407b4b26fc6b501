use tinyticker::bus::{
    group_ids, known_property, layout, node_property, node_props, on_action, on_message,
    sni_property, Answer, Call, Prop, SniValue, INTROSPECT_IFACE, ITEM_IFACE, ITEM_PATH, MENU_IFACE,
    MENU_PATH, PROPS_IFACE, SNI_PROPERTIES,
};
use tinyticker::config::Config;
use tinyticker::timer::Mode;
use tinyticker::tray::{build_nodes, Command, IconMode, Kind, Node, State};

fn call(path: &str, iface: &str, member: &str, first: i32, second: i32, text: &str) -> Call {
    Call {
        member: member.to_string(),
        iface: iface.to_string(),
        path: path.to_string(),
        first,
        second,
        text: text.to_string(),
    }
}

fn menu() -> Vec<Node> {
    build_nodes(&Config::default().presets, true)
}

fn state() -> State {
    State::from_config(&Config::default())
}

/// The number of the node that sets a command off.
fn number_of(nodes: &[Node], wanted: Command) -> i32 {
    nodes.iter().position(|n| n.command.as_ref() == Some(&wanted)).unwrap() as i32
}

#[test]
fn clicks_on_the_icon_set_commands_off() {
    let nodes = menu();
    let mut s = state();
    let (a, c) = on_message(&call(ITEM_PATH, ITEM_IFACE, "Activate", 3, 4, ""), &nodes, &mut s);
    assert!(matches!(a, Answer::Done) && c == Some(Command::Toggle));
    let (a, c) = on_message(&call(ITEM_PATH, ITEM_IFACE, "SecondaryActivate", 0, 0, ""), &nodes, &mut s);
    assert!(matches!(a, Answer::Done) && c == Some(Command::Reset));
    let (a, c) = on_message(&call(ITEM_PATH, ITEM_IFACE, "ContextMenu", 0, 0, ""), &nodes, &mut s);
    assert!(matches!(a, Answer::Done) && c.is_none());
    let (a, c) = on_message(&call(ITEM_PATH, ITEM_IFACE, "Scroll", -2, 0, "vertical"), &nodes, &mut s);
    assert!(matches!(a, Answer::Done) && c == Some(Command::ZoomBy(-2)));
    let (_, c) = on_message(&call(ITEM_PATH, ITEM_IFACE, "Scroll", 5, 0, "horizontal"), &nodes, &mut s);
    assert!(c.is_none());
}

#[test]
fn calls_for_others_are_left_alone() {
    let nodes = menu();
    let mut s = state();
    for c in [
        call("/Elsewhere", ITEM_IFACE, "Activate", 0, 0, ""),
        call(ITEM_PATH, MENU_IFACE, "Activate", 0, 0, ""),
        call(ITEM_PATH, ITEM_IFACE, "Nonsense", 0, 0, ""),
        call(MENU_PATH, MENU_IFACE, "Nonsense", 0, 0, ""),
        call(MENU_PATH, ITEM_IFACE, "GetLayout", 0, 0, ""),
    ] {
        let (a, cmd) = on_message(&c, &nodes, &mut s);
        assert!(matches!(a, Answer::Unhandled) && cmd.is_none());
    }
}

#[test]
fn descriptions_and_properties_are_told_apart() {
    let nodes = menu();
    let mut s = state();
    let ask = |c: Call, s: &mut State| on_message(&c, &nodes, s).0;
    assert!(matches!(ask(call("/", "x", "Ping", 0, 0, ""), &mut s), Answer::Done));
    assert!(matches!(
        ask(call(MENU_PATH, INTROSPECT_IFACE, "Introspect", 0, 0, ""), &mut s),
        Answer::MenuXml
    ));
    assert!(matches!(
        ask(call(ITEM_PATH, INTROSPECT_IFACE, "Introspect", 0, 0, ""), &mut s),
        Answer::ItemXml
    ));
    assert!(matches!(
        ask(call(ITEM_PATH, PROPS_IFACE, "GetAll", 0, 0, ""), &mut s),
        Answer::AllProperties
    ));
    match ask(call(ITEM_PATH, PROPS_IFACE, "Get", 0, 0, "Title"), &mut s) {
        Answer::Property(n) => assert_eq!(n, "Title"),
        _ => panic!("Title is a property"),
    }
    match ask(call(ITEM_PATH, PROPS_IFACE, "Get", 0, 0, "Colour"), &mut s) {
        Answer::UnknownProperty(n) => assert_eq!(n, "Colour"),
        _ => panic!("Colour is no property"),
    }
    assert!(SNI_PROPERTIES.iter().all(|n| known_property(n)));
    assert!(!known_property(""));
}

#[test]
fn the_menu_is_asked_and_clicked() {
    let nodes = menu();
    let mut s = state();
    match on_message(&call(MENU_PATH, MENU_IFACE, "GetLayout", 0, -1, ""), &nodes, &mut s).0 {
        Answer::Layout(id, depth) => assert_eq!((id, depth), (0, -1)),
        _ => panic!("no layout"),
    }
    assert!(matches!(
        on_message(&call(MENU_PATH, MENU_IFACE, "GetGroupProperties", 0, 0, ""), &nodes, &mut s).0,
        Answer::Group
    ));
    assert!(matches!(
        on_message(&call(MENU_PATH, MENU_IFACE, "AboutToShow", 0, 0, ""), &nodes, &mut s).0,
        Answer::No
    ));
    match on_message(&call(MENU_PATH, MENU_IFACE, "GetProperty", 3, 0, "label"), &nodes, &mut s).0 {
        Answer::NodeProperty(id, n) => assert_eq!((id, n.as_str()), (3, "label")),
        _ => panic!("no property"),
    }

    let id = number_of(&nodes, Command::SetMode(Mode::Clock));
    let (_, c) = on_message(&call(MENU_PATH, MENU_IFACE, "Event", id, 0, "hovered"), &nodes, &mut s);
    assert!(c.is_none() && s.mode != Mode::Clock);
    let (a, c) = on_message(&call(MENU_PATH, MENU_IFACE, "Event", id, 0, "clicked"), &nodes, &mut s);
    assert!(matches!(a, Answer::Done) && c == Some(Command::SetMode(Mode::Clock)));
    // the mark moves at once
    assert_eq!(s.mode, Mode::Clock);
    for id in [-1, nodes.len() as i32, i32::MAX] {
        let (_, c) = on_message(&call(MENU_PATH, MENU_IFACE, "Event", id, 0, "clicked"), &nodes, &mut s);
        assert!(c.is_none());
    }
}

#[test]
fn a_greyed_out_choice_does_nothing() {
    let nodes = menu();
    let mut s = state();
    let id = number_of(&nodes, Command::SetIcon(IconMode::Gif));
    let icon = s.icon;
    let (_, c) = on_message(&call(MENU_PATH, MENU_IFACE, "Event", id, 0, "clicked"), &nodes, &mut s);
    assert!(c.is_none() && s.icon == icon);
    match node_property(&nodes, &s, id, "enabled") {
        Prop::Flag(on) => assert!(!on),
        Prop::Text(_) => panic!("a flag"),
    }
    s.gif = true;
    let (_, c) = on_message(&call(MENU_PATH, MENU_IFACE, "Event", id, 0, "clicked"), &nodes, &mut s);
    assert_eq!(c, Some(Command::SetIcon(IconMode::Gif)));
    assert_eq!(s.icon, IconMode::Gif);
}

#[test]
fn icon_properties_have_their_values() {
    let text = |n: &str| match sni_property(n) {
        SniValue::Text(t) => t,
        _ => panic!("{n} is a text"),
    };
    assert_eq!(text("Category"), "ApplicationStatus");
    assert_eq!(text("Id"), "tinyticker");
    assert_eq!(text("Title"), "TinyTicker");
    assert_eq!(text("Status"), "Active");
    assert_eq!(text("IconName"), "");
    assert!(matches!(sni_property("IconPixmap"), SniValue::Pixmap));
    assert!(matches!(sni_property("ItemIsMenu"), SniValue::Flag(false)));
    match sni_property("Menu") {
        SniValue::Object(p) => assert_eq!(p, "/MenuBar"),
        _ => panic!("an object"),
    }
    match sni_property("ToolTip") {
        SniValue::ToolTip(a, b) => assert_eq!((a, b), ("TinyTicker", "极简悬浮计时器")),
        _ => panic!("a tool tip"),
    }
}

#[test]
fn notification_button_starts_again() {
    assert_eq!(on_action("restart"), Some(Command::Start));
    assert_eq!(on_action("default"), None);
    assert_eq!(on_action(""), None);
}

#[test]
fn node_properties_follow_their_kind() {
    let nodes = menu();
    let s = state();
    let names = |id: i32| node_props(&nodes, &s, id).iter().map(|p| p.0).collect::<Vec<_>>();
    assert_eq!(names(0), ["children-display"]);
    for (i, n) in nodes.iter().enumerate() {
        match n.kind {
            Kind::Root => assert_eq!(i, 0),
            Kind::Separator => assert_eq!(names(i as i32), ["type"]),
            Kind::Submenu => assert_eq!(names(i as i32), ["label", "children-display"]),
            Kind::Button => {
                let choice = n.command.as_ref().is_some_and(|c| c.check().is_some());
                assert_eq!(names(i as i32).len(), if choice { 3 } else { 2 });
            }
        }
    }
    assert!(names(-1).is_empty());
    assert!(names(nodes.len() as i32).is_empty());
    let one = |id: i32, n: &str| match node_property(&nodes, &s, id, n) {
        Prop::Text(t) => t,
        Prop::Flag(b) => format!("{b}"),
    };
    assert_eq!(one(0, "children-display"), "compound");
    assert_eq!(one(0, "visible"), "true");
    assert_eq!(one(0, "enabled"), "false");
    assert_eq!(one(0, "type"), "standard");
    assert_eq!(one(0, "other"), "");
    assert_eq!(one(-5, "visible"), "");
    assert_eq!(group_ids(&nodes, &Vec::new()).len(), nodes.len());
    assert_eq!(group_ids(&nodes, &vec![4, 2]), vec![4, 2]);
}

#[test]
fn layout_goes_as_deep_as_asked() {
    let nodes = menu();
    let s = state();
    fn count(i: &tinyticker::bus::Item) -> usize {
        1 + i.children.iter().map(count).sum::<usize>()
    }
    assert_eq!(count(&layout(&nodes, &s, 0, -1)), nodes.len());
    assert_eq!(count(&layout(&nodes, &s, 0, 1)), 1);
    let two = layout(&nodes, &s, 0, 2);
    assert_eq!(two.children.len(), nodes[0].children.len());
    assert!(two.children.iter().all(|c| c.children.is_empty()));
    let sub = nodes.iter().position(|n| n.kind == Kind::Submenu).unwrap();
    let below = layout(&nodes, &s, sub as i32, 0);
    assert_eq!(below.id, sub as i32);
    assert_eq!(below.children.iter().map(|c| c.id).collect::<Vec<_>>(), nodes[sub].children);
    let gone = layout(&nodes, &s, 10_000, 0);
    assert!(gone.props.is_empty() && gone.children.is_empty());
}
