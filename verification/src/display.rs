//! What the display servers are told and say: the requests and events of the Wayland extensions that
//! the window uses, the names of X errors, and the character of a key.
use crate::strings::{chars_of, utf8_text};
use vstd::prelude::*;

verus! {

// ---- Wayland ----

/// The interfaces of the extensions, and the version that is spoken of each.
pub const INTERFACES: [(&'static str, i32); 10] = [
    ("zwlr_layer_surface_v1", 5),
    ("zwlr_layer_shell_v1", 5),
    ("wp_viewport", 1),
    ("wp_viewporter", 1),
    ("wp_fractional_scale_v1", 1),
    ("wp_fractional_scale_manager_v1", 1),
    ("zwp_relative_pointer_v1", 1),
    ("zwp_relative_pointer_manager_v1", 1),
    ("wp_cursor_shape_device_v1", 2),
    ("wp_cursor_shape_manager_v1", 2),
];

/// The requests: the interface by its number, the name, the signature, and the interfaces of the
/// objects among the arguments. Within an interface the place of a request is its number.
pub const METHODS: [(usize, &'static str, &'static str, [&'static str; 3]); 28] = [
    (0, "set_size", "uu", ["", "", ""]),
    (0, "set_anchor", "u", ["", "", ""]),
    (0, "set_exclusive_zone", "i", ["", "", ""]),
    (0, "set_margin", "iiii", ["", "", ""]),
    (0, "set_keyboard_interactivity", "u", ["", "", ""]),
    (0, "get_popup", "o", ["xdg_popup", "", ""]),
    (0, "ack_configure", "u", ["", "", ""]),
    (0, "destroy", "", ["", "", ""]),
    (0, "set_layer", "u", ["", "", ""]),
    (0, "set_exclusive_edge", "u", ["", "", ""]),
    (1, "get_layer_surface", "no?ous", ["zwlr_layer_surface_v1", "wl_surface", "wl_output"]),
    (1, "destroy", "", ["", "", ""]),
    (2, "destroy", "", ["", "", ""]),
    (2, "set_source", "ffff", ["", "", ""]),
    (2, "set_destination", "ii", ["", "", ""]),
    (3, "destroy", "", ["", "", ""]),
    (3, "get_viewport", "no", ["wp_viewport", "wl_surface", ""]),
    (4, "destroy", "", ["", "", ""]),
    (5, "destroy", "", ["", "", ""]),
    (5, "get_fractional_scale", "no", ["wp_fractional_scale_v1", "wl_surface", ""]),
    (6, "destroy", "", ["", "", ""]),
    (7, "destroy", "", ["", "", ""]),
    (7, "get_relative_pointer", "no", ["zwp_relative_pointer_v1", "wl_pointer", ""]),
    (8, "destroy", "", ["", "", ""]),
    (8, "set_shape", "uu", ["", "", ""]),
    (9, "destroy", "", ["", "", ""]),
    (9, "get_pointer", "no", ["wp_cursor_shape_device_v1", "wl_pointer", ""]),
    (9, "get_tablet_tool_v2", "no", ["wp_cursor_shape_device_v1", "zwp_tablet_tool_v2", ""]),
];

/// The events, written as the requests are.
pub const EVENTS: [(usize, &'static str, &'static str, [&'static str; 3]); 4] = [
    (0, "configure", "uuu", ["", "", ""]),
    (0, "closed", "", ["", "", ""]),
    (4, "preferred_scale", "u", ["", "", ""]),
    (6, "relative_motion", "uuffff", ["", "", ""]),
];

/// A request or an event.
pub struct Message {
    pub name: &'static str,
    /// A character for each argument: `n` for a new object, `o` for one that is there, `?` before
    /// one that may be missing.
    pub signature: &'static str,
    /// The interfaces of the objects, which come before all other arguments.
    pub types: Vec<&'static str>,
}

/// A request or an event.
pub ghost struct Line {
    pub name: Seq<char>,
    pub signature: Seq<char>,
    pub types: Seq<Seq<char>>,
}

impl View for Message {
    type V = Line;

    open spec fn view(&self) -> Line {
        Line {
            name: self.name@,
            signature: self.signature@,
            types: Seq::new(self.types@.len(), |i: int| self.types@[i]@),
        }
    }
}

/// The interfaces that are named, up to the first that is not.
pub open spec fn named(types: [&'static str; 3]) -> Seq<Seq<char>> {
    if types@[0]@.len() == 0 {
        Seq::empty()
    } else if types@[1]@.len() == 0 {
        seq![types@[0]@]
    } else if types@[2]@.len() == 0 {
        seq![types@[0]@, types@[1]@]
    } else {
        seq![types@[0]@, types@[1]@, types@[2]@]
    }
}

/// A line of a table.
pub open spec fn line(row: (usize, &'static str, &'static str, [&'static str; 3])) -> Line {
    Line { name: row.1@, signature: row.2@, types: named(row.3) }
}

/// The lines of the first `n` rows of a table that belong to the interface `i`, in their order.
pub open spec fn lines_of(
    table: Seq<(usize, &'static str, &'static str, [&'static str; 3])>,
    i: int,
    n: int,
) -> Seq<Line>
    decreases n,
{
    if n <= 0 {
        Seq::empty()
    } else if table[n - 1].0 == i {
        lines_of(table, i, n - 1).push(line(table[n - 1]))
    } else {
        lines_of(table, i, n - 1)
    }
}

/// The messages as lines.
pub open spec fn lines(v: Seq<Message>) -> Seq<Line> {
    Seq::new(v.len(), |i: int| v[i]@)
}

fn message(row: (usize, &'static str, &'static str, [&'static str; 3])) -> (r: Message)
    ensures
        r@ == line(row),
{
    let mut types: Vec<&'static str> = Vec::new();
    let t = row.3;
    if !t[0].is_empty() {
        types.push(t[0]);
        if !t[1].is_empty() {
            types.push(t[1]);
            if !t[2].is_empty() {
                types.push(t[2]);
            }
        }
    }
    let r = Message { name: row.1, signature: row.2, types };
    assert(r@.types =~= named(row.3));
    r
}

fn messages(table: &[(usize, &'static str, &'static str, [&'static str; 3])], i: usize) -> (r: Vec<Message>)
    ensures
        lines(r@) == lines_of(table@, i as int, table@.len() as int),
{
    let mut out: Vec<Message> = Vec::new();
    let mut n: usize = 0;
    assert(lines(out@) =~= Seq::<Line>::empty());
    while n < table.len()
        invariant
            n <= table@.len(),
            lines(out@) == lines_of(table@, i as int, n as int),
        decreases table@.len() - n,
    {
        let ghost before = lines(out@);
        if table[n].0 == i {
            out.push(message(table[n]));
            assert(lines(out@) =~= before.push(line(table@[n as int])));
        }
        n = n + 1;
    }
    out
}

/// The requests of the interface `i`, in the order of their numbers.
pub fn methods_of(i: usize) -> (r: Vec<Message>)
    ensures
        lines(r@) == lines_of(METHODS@, i as int, 28),
{
    messages(&METHODS, i)
}

/// The events of the interface `i`, in the order of their numbers.
pub fn events_of(i: usize) -> (r: Vec<Message>)
    ensures
        lines(r@) == lines_of(EVENTS@, i as int, 4),
{
    messages(&EVENTS, i)
}

/// Whether from the character `i` of a signature on, which is the argument `a`, each object has its
/// interface at its own place.
pub open spec fn covered(signature: Seq<char>, types: Seq<Seq<char>>, i: int, a: int) -> bool
    decreases signature.len() - i,
{
    if i < 0 || i >= signature.len() {
        true
    } else if signature[i] == '?' {
        covered(signature, types, i + 1, a)
    } else {
        &&& (signature[i] == 'n' || signature[i] == 'o') ==> a < types.len()
        &&& covered(signature, types, i + 1, a + 1)
    }
}

/// The interfaces that a row names are as many as the objects that it begins with.
proof fn lemma_covered(l: Line)
    requires
        l.signature == ""@ || l.signature == "u"@ || l.signature == "i"@ || l.signature == "uu"@
            || l.signature == "ii"@ || l.signature == "uuu"@ || l.signature == "iiii"@
            || l.signature == "ffff"@ || l.signature == "uuffff"@ || (l.signature == "o"@
            && l.types.len() >= 1) || (l.signature == "no"@ && l.types.len() >= 2) || (l.signature
            == "no?ous"@ && l.types.len() >= 3),
    ensures
        covered(l.signature, l.types, 0, 0),
{
    reveal_strlit("");
    reveal_strlit("u");
    reveal_strlit("i");
    reveal_strlit("uu");
    reveal_strlit("ii");
    reveal_strlit("uuu");
    reveal_strlit("iiii");
    reveal_strlit("ffff");
    reveal_strlit("uuffff");
    reveal_strlit("o");
    reveal_strlit("no");
    reveal_strlit("no?ous");
    reveal_with_fuel(covered, 8);
}

/// In each request every object has its interface: the library that sends it finds one at the place of
/// the argument.
pub proof fn law_requests_have_their_types(k: int)
    requires
        0 <= k < 28,
    ensures
        covered(line(METHODS@[k]).signature, line(METHODS@[k]).types, 0, 0),
{
    reveal_strlit("wl_output");
    reveal_strlit("wl_pointer");
    reveal_strlit("wl_surface");
    reveal_strlit("wp_cursor_shape_device_v1");
    reveal_strlit("wp_fractional_scale_v1");
    reveal_strlit("wp_viewport");
    reveal_strlit("xdg_popup");
    reveal_strlit("zwlr_layer_surface_v1");
    reveal_strlit("zwp_relative_pointer_v1");
    reveal_strlit("zwp_tablet_tool_v2");
    lemma_covered(line(METHODS@[k]));
}

/// In each event every object has its interface: the library that sends it finds one at the place of
/// the argument.
pub proof fn law_events_have_their_types(k: int)
    requires
        0 <= k < 4,
    ensures
        covered(line(EVENTS@[k]).signature, line(EVENTS@[k]).types, 0, 0),
{
    lemma_covered(line(EVENTS@[k]));
}

// ---- X ----

/// The names of the errors, from 1 on.
pub const X_ERRORS: [&'static str; 15] = [
    "BadRequest",
    "BadValue",
    "BadWindow",
    "BadPixmap",
    "BadAtom",
    "BadCursor",
    "BadFont",
    "BadMatch",
    "BadDrawable",
    "BadAccess",
    "BadAlloc",
    "BadColor",
    "BadGC",
    "BadIDRange",
    "BadImplementation",
];

/// The name of an error.
pub fn error_name(code: u8) -> (r: &'static str)
    ensures
        r@ == (if 1 <= code <= 15 {
            X_ERRORS@[code - 1]@
        } else {
            "未知错误"@
        }),
{
    if code >= 1 && code <= 15 {
        X_ERRORS[code as usize - 1]
    } else {
        "未知错误"
    }
}

// ---- keys ----

/// The character of a key, by the bytes that the library wrote for it and how many it says there
/// are; none, where it says that there are none or where they are no text.
pub fn key_char(n: i32, bytes: &[u8]) -> (r: Option<char>)
    ensures
        r == (if 0 < n <= bytes@.len() && vstd::utf8::valid_utf8(bytes@.take(n as int)) {
            Some(vstd::utf8::decode_utf8(bytes@.take(n as int))[0])
        } else {
            None
        }),
{
    if n <= 0 || n as usize > bytes.len() {
        return None;
    }
    assert(bytes@.subrange(0, n as int) =~= bytes@.take(n as int));
    match utf8_text(&bytes[0..n as usize]) {
        Some(s) => {
            let c = chars_of(s);
            proof {
                vstd::utf8::encode_utf8_decode_utf8(s@);
                assert(s@.len() > 0) by {
                    if s@.len() == 0 {
                        assert(vstd::utf8::encode_utf8(s@).len() == 0);
                    }
                }
            }
            Some(c[0])
        },
        None => None,
    }
}

} // verus!
