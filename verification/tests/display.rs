use tinyticker::display::{error_name, events_of, key_char, methods_of, EVENTS, INTERFACES, METHODS};

#[test]
fn requests_stand_in_the_order_of_their_numbers() {
    let names = |i: usize| methods_of(i).iter().map(|m| m.name).collect::<Vec<_>>();
    assert_eq!(INTERFACES[0], ("zwlr_layer_surface_v1", 5));
    assert_eq!(
        names(0),
        [
            "set_size",
            "set_anchor",
            "set_exclusive_zone",
            "set_margin",
            "set_keyboard_interactivity",
            "get_popup",
            "ack_configure",
            "destroy",
            "set_layer",
            "set_exclusive_edge"
        ]
    );
    assert_eq!(names(1), ["get_layer_surface", "destroy"]);
    assert_eq!(names(2), ["destroy", "set_source", "set_destination"]);
    assert_eq!(names(9), ["destroy", "get_pointer", "get_tablet_tool_v2"]);
    assert!(names(10).is_empty());
    let all: usize = (0..10).map(|i| methods_of(i).len()).sum();
    assert_eq!(all, METHODS.len());
}

#[test]
fn events_stand_in_the_order_of_their_numbers() {
    let e = events_of(0);
    assert_eq!((e[0].name, e[0].signature), ("configure", "uuu"));
    assert_eq!((e[1].name, e[1].signature), ("closed", ""));
    assert_eq!(events_of(4)[0].name, "preferred_scale");
    assert_eq!(events_of(6)[0].signature, "uuffff");
    assert!(events_of(2).is_empty());
    assert_eq!((0..10).map(|i| events_of(i).len()).sum::<usize>(), EVENTS.len());
}

#[test]
fn objects_have_their_interfaces() {
    let m = &methods_of(1)[0];
    assert_eq!(m.signature, "no?ous");
    assert_eq!(m.types, ["zwlr_layer_surface_v1", "wl_surface", "wl_output"]);
    for i in 0..10 {
        for m in methods_of(i) {
            let objects = m.signature.chars().filter(|c| *c == 'n' || *c == 'o').count();
            assert_eq!(m.types.len(), objects, "{}", m.name);
        }
    }
}

#[test]
fn x_errors_have_their_names() {
    assert_eq!(error_name(1), "BadRequest");
    assert_eq!(error_name(3), "BadWindow");
    assert_eq!(error_name(8), "BadMatch");
    assert_eq!(error_name(15), "BadImplementation");
    assert_eq!(error_name(0), "未知错误");
    assert_eq!(error_name(16), "未知错误");
    assert_eq!(error_name(255), "未知错误");
}

#[test]
fn a_key_has_its_first_character() {
    assert_eq!(key_char(1, b"a\0\0\0"), Some('a'));
    assert_eq!(key_char(2, b"a\0\0\0"), Some('a'));
    assert_eq!(key_char(3, "é".as_bytes()), None);
    assert_eq!(key_char(2, "é\0".as_bytes()), Some('é'));
    assert_eq!(key_char(1, "é".as_bytes()), None);
    assert_eq!(key_char(0, b"a"), None);
    assert_eq!(key_char(-1, b"a"), None);
    assert_eq!(key_char(1, &[0xff]), None);
}
