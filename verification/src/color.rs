//! Colours: RGB values, hex parsing, a named-colour palette organised by
//! namespace, colouring text with ANSI escapes, stripping those escapes
//! back out, and the visible width of a coloured string.
//!
//! The palette is an explicit value handed to whoever needs it, owned by
//! the caller for its whole lifetime.

use vstd::prelude::*;

use crate::text::{chars_of, push_dec_u32, push_str_chars, str_eq, string_from_chars, dec_nat};

verus! {

/// An RGB colour.
#[derive(Clone, Copy, Debug, PartialEq, Eq, Structural)]
pub struct Color {
    pub r: u8,
    pub g: u8,
    pub b: u8,
}

/// Which way a gradient runs across text.
pub enum GradientDirection {
    Horizontal,
    Vertical,
}

/// A colour given directly or by `namespace`/`name` in a palette.
#[derive(Clone, Debug)]
pub enum ColorRef {
    Direct(Color),
    Named(String, String),
}

/// The numeric value of a hexadecimal digit.
pub open spec fn hex_digit_val(c: char) -> Option<int> {
    if 48 <= c as int <= 57 {
        Some(c as int - 48)
    } else if 97 <= c as int <= 102 {
        Some(c as int - 87)
    } else if 65 <= c as int <= 70 {
        Some(c as int - 55)
    } else {
        None
    }
}

/// The byte that two hex digits denote, or zero when either digit is
/// invalid (an unparsable component falls back to zero).
pub open spec fn hex_byte(hi: char, lo: char) -> u8 {
    match (hex_digit_val(hi), hex_digit_val(lo)) {
        (Some(h), Some(l)) => (h * 16 + l) as u8,
        _ => 0,
    }
}

/// The string with every leading `#` removed.
pub open spec fn strip_hashes(s: Seq<char>) -> Seq<char>
    decreases s.len(),
{
    if s.len() > 0 && s[0] == '#' {
        strip_hashes(s.skip(1))
    } else {
        s
    }
}

/// The colour a hex string denotes: `rgb` shorthand doubles each digit,
/// six digits are read as `rrggbb`, anything else is black.
pub open spec fn from_hex_spec(s: Seq<char>) -> Color {
    let h0 = strip_hashes(s);
    let h = if h0.len() == 3 {
        seq![h0[0], h0[0], h0[1], h0[1], h0[2], h0[2]]
    } else {
        h0
    };
    if h.len() == 6 {
        Color { r: hex_byte(h[0], h[1]), g: hex_byte(h[2], h[3]), b: hex_byte(h[4], h[5]) }
    } else {
        Color { r: 0, g: 0, b: 0 }
    }
}

fn hex_digit_exec(c: char) -> (r: Option<u8>)
    ensures
        match r {
            Some(v) => hex_digit_val(c) == Some(v as int),
            None => hex_digit_val(c) is None,
        },
{
    let x = c as u32;
    if 48 <= x && x <= 57 {
        Some((x - 48) as u8)
    } else if 97 <= x && x <= 102 {
        Some((x - 87) as u8)
    } else if 65 <= x && x <= 70 {
        Some((x - 55) as u8)
    } else {
        None
    }
}

fn hex_byte_exec(hi: char, lo: char) -> (r: u8)
    ensures
        r == hex_byte(hi, lo),
{
    match (hex_digit_exec(hi), hex_digit_exec(lo)) {
        (Some(h), Some(l)) => h * 16 + l,
        _ => 0,
    }
}

impl Color {
    /// Parses a `#rrggbb` or `#rgb` hex string; any other shape, and any
    /// invalid component, falls back to black (or a zero component).
    pub fn from_hex(hex: &str) -> (r: Color)
        ensures
            r == from_hex_spec(hex@),
    {
        let chars = chars_of(hex);
        let n = chars.len();
        let mut a: usize = 0;
        proof {
            assert(chars@.skip(0) =~= chars@);
        }
        while a < n && chars[a] == '#'
            invariant
                n == chars@.len(),
                a <= n,
                strip_hashes(chars@) == strip_hashes(chars@.skip(a as int)),
            decreases n - a,
        {
            proof {
                assert(chars@.skip(a as int).skip(1) =~= chars@.skip(a + 1 as int));
            }
            a = a + 1;
        }
        let ghost h0 = strip_hashes(chars@);
        proof {
            assert(strip_hashes(chars@.skip(a as int)) == chars@.skip(a as int));
            assert(h0.len() == n - a);
            assert forall|j: int| 0 <= j < h0.len() implies h0[j] == chars@[a + j] by {
                assert(h0[j] == chars@.skip(a as int)[j]);
            }
        }
        if n - a == 3 {
            let r = hex_byte_exec(chars[a], chars[a]);
            let g = hex_byte_exec(chars[a + 1], chars[a + 1]);
            let b = hex_byte_exec(chars[a + 2], chars[a + 2]);
            Color { r, g, b }
        } else if n - a == 6 {
            let r = hex_byte_exec(chars[a], chars[a + 1]);
            let g = hex_byte_exec(chars[a + 2], chars[a + 3]);
            let b = hex_byte_exec(chars[a + 4], chars[a + 5]);
            Color { r, g, b }
        } else {
            Color { r: 0, g: 0, b: 0 }
        }
    }
}

/// Whether a namespace or colour name is acceptable: non-empty, lowercase
/// letters and underscores only.
pub open spec fn valid_identifier(s: Seq<char>) -> bool {
    s.len() > 0 && forall|i: int|
        0 <= i < s.len() ==> (('a' <= #[trigger] s[i] && s[i] <= 'z') || s[i] == '_')
}

/// Whether a namespace or colour name is acceptable: non-empty, lowercase
/// letters and underscores only.
pub fn is_valid_identifier(s: &str) -> (r: bool)
    ensures
        r == valid_identifier(s@),
{
    let n = s.unicode_len();
    if n == 0 {
        return false;
    }
    let mut i: usize = 0;
    while i < n
        invariant
            n == s@.len(),
            i <= n,
            forall|j: int| 0 <= j < i ==> (('a' <= #[trigger] s@[j] && s@[j] <= 'z') || s@[j] == '_'),
        decreases n - i,
    {
        let c = s.get_char(i);
        if !(('a' <= c && c <= 'z') || c == '_') {
            return false;
        }
        i = i + 1;
    }
    true
}

/// The colours of one namespace, each name bound at most once.
pub struct ColorSpace {
    pub name: String,
    pub colors: Vec<(String, Color)>,
}

/// A palette of named colours, organised by namespace; each namespace name
/// occurs at most once.
pub struct ColorPalette {
    pub spaces: Vec<ColorSpace>,
}

impl ColorSpace {
    /// The name-to-colour bindings, in insertion order.
    pub open spec fn view(&self) -> Seq<(Seq<char>, Color)> {
        Seq::new(self.colors@.len(), |i: int| (self.colors@[i].0@, self.colors@[i].1))
    }
}

impl ColorPalette {
    /// The namespaces with their bindings, in insertion order.
    pub open spec fn view(&self) -> Seq<(Seq<char>, Seq<(Seq<char>, Color)>)> {
        Seq::new(self.spaces@.len(), |i: int| (self.spaces@[i].name@, self.spaces@[i]@))
    }
}

/// The first binding with the given name, if any.
pub open spec fn colors_lookup(cs: Seq<(Seq<char>, Color)>, name: Seq<char>) -> Option<Color>
    decreases cs.len(),
{
    if cs.len() == 0 {
        None
    } else if cs[0].0 == name {
        Some(cs[0].1)
    } else {
        colors_lookup(cs.drop_first(), name)
    }
}

/// The index of the namespace with the given name, if any.
pub open spec fn space_index(
    nss: Seq<(Seq<char>, Seq<(Seq<char>, Color)>)>,
    ns: Seq<char>,
) -> Option<int>
    decreases nss.len(),
{
    if nss.len() == 0 {
        None
    } else if nss[0].0 == ns {
        Some(0)
    } else {
        match space_index(nss.drop_first(), ns) {
            Some(i) => Some(i + 1),
            None => None,
        }
    }
}

/// The colour bound to `ns`/`name` in the palette, if any.
pub open spec fn palette_lookup(
    nss: Seq<(Seq<char>, Seq<(Seq<char>, Color)>)>,
    ns: Seq<char>,
    name: Seq<char>,
) -> Option<Color> {
    match space_index(nss, ns) {
        Some(i) => colors_lookup(nss[i].1, name),
        None => None,
    }
}

pub proof fn lemma_space_index(nss: Seq<(Seq<char>, Seq<(Seq<char>, Color)>)>, ns: Seq<char>)
    ensures
        match space_index(nss, ns) {
            Some(i) => 0 <= i < nss.len() && nss[i].0 == ns && forall|j: int|
                0 <= j < i ==> nss[j].0 != ns,
            None => forall|j: int| 0 <= j < nss.len() ==> nss[j].0 != ns,
        },
    decreases nss.len(),
{
    if nss.len() > 0 && nss[0].0 != ns {
        lemma_space_index(nss.drop_first(), ns);
        match space_index(nss, ns) {
            Some(i) => {
                assert(nss[i] == nss.drop_first()[i - 1]);
                assert forall|j: int| 0 <= j < i implies nss[j].0 != ns by {
                    if j > 0 {
                        assert(nss[j] == nss.drop_first()[j - 1]);
                    }
                }
            },
            None => {
                assert forall|j: int| 0 <= j < nss.len() implies nss[j].0 != ns by {
                    if j > 0 {
                        assert(nss[j] == nss.drop_first()[j - 1]);
                    }
                }
            },
        }
    }
}

/// The first binding index with the given name, if any.
pub open spec fn color_index(cs: Seq<(Seq<char>, Color)>, name: Seq<char>) -> Option<int>
    decreases cs.len(),
{
    if cs.len() == 0 {
        None
    } else if cs[0].0 == name {
        Some(0)
    } else {
        match color_index(cs.drop_first(), name) {
            Some(i) => Some(i + 1),
            None => None,
        }
    }
}

pub proof fn lemma_color_index(cs: Seq<(Seq<char>, Color)>, name: Seq<char>)
    ensures
        match color_index(cs, name) {
            Some(i) => 0 <= i < cs.len() && cs[i].0 == name && colors_lookup(cs, name) == Some(
                cs[i].1,
            ) && forall|j: int| 0 <= j < i ==> cs[j].0 != name,
            None => (colors_lookup(cs, name) is None && forall|j: int|
                0 <= j < cs.len() ==> cs[j].0 != name),
        },
    decreases cs.len(),
{
    if cs.len() > 0 && cs[0].0 != name {
        lemma_color_index(cs.drop_first(), name);
        match color_index(cs, name) {
            Some(i) => {
                assert(cs[i] == cs.drop_first()[i - 1]);
                assert forall|j: int| 0 <= j < i implies cs[j].0 != name by {
                    if j > 0 {
                        assert(cs[j] == cs.drop_first()[j - 1]);
                    }
                }
            },
            None => {
                assert forall|j: int| 0 <= j < cs.len() implies cs[j].0 != name by {
                    if j > 0 {
                        assert(cs[j] == cs.drop_first()[j - 1]);
                    }
                }
            },
        }
    }
}

/// Index of the namespace with the given name, if any.
fn find_space(spaces: &Vec<ColorSpace>, ns: &str) -> (r: Option<usize>)
    ensures
        ({
            let v = Seq::new(spaces@.len(), |i: int| (spaces@[i].name@, spaces@[i]@));
            match r {
                Some(i) => space_index(v, ns@) == Some(i as int) && i < spaces@.len(),
                None => space_index(v, ns@) is None,
            }
        }),
{
    let ghost v = Seq::new(spaces@.len(), |i: int| (spaces@[i].name@, spaces@[i]@));
    proof {
        lemma_space_index(v, ns@);
    }
    let mut i: usize = 0;
    while i < spaces.len()
        invariant
            i <= spaces@.len(),
            v == Seq::new(spaces@.len(), |t: int| (spaces@[t].name@, spaces@[t]@)),
            forall|j: int| 0 <= j < i ==> (#[trigger] v[j]).0 != ns@,
        decreases spaces@.len() - i,
    {
        if str_eq(spaces[i].name.as_str(), ns) {
            proof {
                lemma_space_index(v, ns@);
                match space_index(v, ns@) {
                    Some(w) => {
                        assert(w >= i) by {
                            if w < i {
                                assert(v[w].0 != ns@);
                            }
                        }
                        assert(w <= i) by {
                            if w > i {
                                assert(v[i as int].0 != ns@);
                            }
                        }
                    },
                    None => {
                        assert(v[i as int].0 != ns@);
                    },
                }
            }
            return Some(i);
        }
        i = i + 1;
    }
    proof {
        lemma_space_index(v, ns@);
        match space_index(v, ns@) {
            Some(w) => {
                assert(v[w].0 != ns@);
            },
            None => {},
        }
    }
    None
}

/// Index of the binding with the given name, if any.
fn find_color(colors: &Vec<(String, Color)>, name: &str) -> (r: Option<usize>)
    ensures
        ({
            let v = Seq::new(colors@.len(), |i: int| (colors@[i].0@, colors@[i].1));
            match r {
                Some(i) => color_index(v, name@) == Some(i as int) && i < colors@.len(),
                None => color_index(v, name@) is None,
            }
        }),
{
    let ghost v = Seq::new(colors@.len(), |i: int| (colors@[i].0@, colors@[i].1));
    let mut i: usize = 0;
    while i < colors.len()
        invariant
            i <= colors@.len(),
            v == Seq::new(colors@.len(), |t: int| (colors@[t].0@, colors@[t].1)),
            forall|j: int| 0 <= j < i ==> (#[trigger] v[j]).0 != name@,
        decreases colors@.len() - i,
    {
        if str_eq(colors[i].0.as_str(), name) {
            proof {
                lemma_color_index(v, name@);
                match color_index(v, name@) {
                    Some(w) => {
                        assert(w >= i) by {
                            if w < i {
                                assert(v[w].0 != name@);
                            }
                        }
                        assert(w <= i) by {
                            if w > i {
                                assert(v[i as int].0 != name@);
                            }
                        }
                    },
                    None => {
                        assert(v[i as int].0 != name@);
                    },
                }
            }
            return Some(i);
        }
        i = i + 1;
    }
    proof {
        lemma_color_index(v, name@);
        match color_index(v, name@) {
            Some(w) => {
                assert(v[w].0 != name@);
            },
            None => {},
        }
    }
    None
}

/// What a colour reference denotes under a palette: a direct colour is
/// itself; a named colour must have valid identifiers and be bound.
pub open spec fn ref_resolved(
    nss: Seq<(Seq<char>, Seq<(Seq<char>, Color)>)>,
    c: ColorRef,
) -> Option<Color> {
    match c {
        ColorRef::Direct(col) => Some(col),
        ColorRef::Named(ns, name) => if valid_identifier(ns@) && valid_identifier(name@) {
            palette_lookup(nss, ns@, name@)
        } else {
            None
        },
    }
}

/// Resolves a colour reference against a palette: a direct colour is
/// itself; a named colour must have valid identifiers and be bound.
pub fn resolve_color_ref(palette: &ColorPalette, c: &ColorRef) -> (r: Option<Color>)
    ensures
        r == ref_resolved(palette@, *c),
{
    match c {
        ColorRef::Direct(col) => Some(*col),
        ColorRef::Named(ns, name) => {
            if !is_valid_identifier(ns.as_str()) || !is_valid_identifier(name.as_str()) {
                return None;
            }
            match find_space(&palette.spaces, ns.as_str()) {
                Some(i) => {
                    proof {
                        assert(palette@[space_index(palette@, ns@)->Some_0].1 == palette.spaces@[
                            i as int
                        ]@);
                    }
                    let idx = find_color(&palette.spaces[i].colors, name.as_str());
                    proof {
                        lemma_color_index(palette.spaces@[i as int]@, name@);
                    }
                    match idx {
                        Some(j) => Some(palette.spaces[i].colors[j].1),
                        None => None,
                    }
                },
                None => None,
            }
        },
    }
}


/// The built-in bindings of the `default` namespace.
pub open spec fn default_colors() -> Seq<(Seq<char>, Color)> {
    seq![
        ("red"@, Color { r: 255, g: 0, b: 0 }),
        ("green"@, Color { r: 0, g: 255, b: 0 }),
        ("blue"@, Color { r: 0, g: 0, b: 255 }),
        ("yellow"@, Color { r: 255, g: 255, b: 0 }),
        ("cyan"@, Color { r: 0, g: 255, b: 255 }),
        ("magenta"@, Color { r: 255, g: 0, b: 255 }),
        ("black"@, Color { r: 0, g: 0, b: 0 }),
        ("white"@, Color { r: 255, g: 255, b: 255 }),
        ("gray"@, Color { r: 128, g: 128, b: 128 }),
        ("light_red"@, Color { r: 255, g: 102, b: 102 }),
        ("light_green"@, Color { r: 102, g: 255, b: 102 }),
        ("light_blue"@, Color { r: 102, g: 102, b: 255 }),
        ("light_yellow"@, Color { r: 255, g: 255, b: 102 }),
        ("light_cyan"@, Color { r: 102, g: 255, b: 255 }),
        ("light_magenta"@, Color { r: 255, g: 102, b: 255 }),
        ("light_gray"@, Color { r: 211, g: 211, b: 211 }),
        ("dark_red"@, Color { r: 139, g: 0, b: 0 }),
        ("dark_green"@, Color { r: 0, g: 100, b: 0 }),
        ("dark_blue"@, Color { r: 0, g: 0, b: 139 }),
        ("dark_yellow"@, Color { r: 139, g: 139, b: 0 }),
        ("dark_cyan"@, Color { r: 0, g: 139, b: 139 }),
        ("dark_magenta"@, Color { r: 139, g: 0, b: 139 }),
        ("dark_gray"@, Color { r: 64, g: 64, b: 64 }),
    ]
}

/// A palette holding exactly the built-in `default` namespace.
pub fn default_palette() -> (r: ColorPalette)
    ensures
        r@.len() == 1,
        r@[0].0 == "default"@,
        r@[0].1 == default_colors(),
{
    let mut colors: Vec<(String, Color)> = Vec::new();
    colors.push(("red".to_owned(), Color { r: 255, g: 0, b: 0 }));
    colors.push(("green".to_owned(), Color { r: 0, g: 255, b: 0 }));
    colors.push(("blue".to_owned(), Color { r: 0, g: 0, b: 255 }));
    colors.push(("yellow".to_owned(), Color { r: 255, g: 255, b: 0 }));
    colors.push(("cyan".to_owned(), Color { r: 0, g: 255, b: 255 }));
    colors.push(("magenta".to_owned(), Color { r: 255, g: 0, b: 255 }));
    colors.push(("black".to_owned(), Color { r: 0, g: 0, b: 0 }));
    colors.push(("white".to_owned(), Color { r: 255, g: 255, b: 255 }));
    colors.push(("gray".to_owned(), Color { r: 128, g: 128, b: 128 }));
    colors.push(("light_red".to_owned(), Color { r: 255, g: 102, b: 102 }));
    colors.push(("light_green".to_owned(), Color { r: 102, g: 255, b: 102 }));
    colors.push(("light_blue".to_owned(), Color { r: 102, g: 102, b: 255 }));
    colors.push(("light_yellow".to_owned(), Color { r: 255, g: 255, b: 102 }));
    colors.push(("light_cyan".to_owned(), Color { r: 102, g: 255, b: 255 }));
    colors.push(("light_magenta".to_owned(), Color { r: 255, g: 102, b: 255 }));
    colors.push(("light_gray".to_owned(), Color { r: 211, g: 211, b: 211 }));
    colors.push(("dark_red".to_owned(), Color { r: 139, g: 0, b: 0 }));
    colors.push(("dark_green".to_owned(), Color { r: 0, g: 100, b: 0 }));
    colors.push(("dark_blue".to_owned(), Color { r: 0, g: 0, b: 139 }));
    colors.push(("dark_yellow".to_owned(), Color { r: 139, g: 139, b: 0 }));
    colors.push(("dark_cyan".to_owned(), Color { r: 0, g: 139, b: 139 }));
    colors.push(("dark_magenta".to_owned(), Color { r: 139, g: 0, b: 139 }));
    colors.push(("dark_gray".to_owned(), Color { r: 64, g: 64, b: 64 }));
    let space = ColorSpace { name: "default".to_owned(), colors };
    let palette = ColorPalette { spaces: vec![space] };
    proof {
        assert(palette@[0].1 =~= default_colors());
    }
    palette
}

// ---------------------------------------------------------------------------
// Palette editing
// ---------------------------------------------------------------------------

/// The palette after binding `ns`/`name` to `c`: appended to the existing
/// namespace, or opening a new namespace at the end.
pub open spec fn palette_add(
    nss: Seq<(Seq<char>, Seq<(Seq<char>, Color)>)>,
    ns: Seq<char>,
    name: Seq<char>,
    c: Color,
) -> Seq<(Seq<char>, Seq<(Seq<char>, Color)>)> {
    match space_index(nss, ns) {
        Some(i) => nss.update(i, (nss[i].0, nss[i].1.push((name, c)))),
        None => nss.push((ns, seq![(name, c)])),
    }
}

/// The palette after removing the binding `ns`/`name`; a namespace left
/// without bindings is removed whole.
pub open spec fn palette_remove(
    nss: Seq<(Seq<char>, Seq<(Seq<char>, Color)>)>,
    ns: Seq<char>,
    name: Seq<char>,
) -> Seq<(Seq<char>, Seq<(Seq<char>, Color)>)>
    recommends
        space_index(nss, ns) is Some,
        color_index(nss[space_index(nss, ns)->Some_0].1, name) is Some,
{
    let i = space_index(nss, ns)->Some_0;
    let j = color_index(nss[i].1, name)->Some_0;
    let cs2 = nss[i].1.remove(j);
    if cs2.len() == 0 {
        nss.remove(i)
    } else {
        nss.update(i, (nss[i].0, cs2))
    }
}

/// The palette after rebinding `ns`/`name` to `c` in place.
pub open spec fn palette_change(
    nss: Seq<(Seq<char>, Seq<(Seq<char>, Color)>)>,
    ns: Seq<char>,
    name: Seq<char>,
    c: Color,
) -> Seq<(Seq<char>, Seq<(Seq<char>, Color)>)>
    recommends
        space_index(nss, ns) is Some,
        color_index(nss[space_index(nss, ns)->Some_0].1, name) is Some,
{
    let i = space_index(nss, ns)->Some_0;
    let j = color_index(nss[i].1, name)->Some_0;
    nss.update(i, (nss[i].0, nss[i].1.update(j, (name, c))))
}

/// Binds a new colour under `namespace`/`name`.  The `default` namespace is
/// read-only and both identifiers must be valid; rebinding an existing name
/// is a programmer error and is excluded, as `change_color` is for that.
pub fn add_color(palette: &mut ColorPalette, namespace: &str, name: &str, c: Color) -> (r: Result<
    (),
    String,
>)
    requires
        palette_lookup(old(palette)@, namespace@, name@) is None || namespace@ == "default"@
            || !valid_identifier(namespace@) || !valid_identifier(name@),
    ensures
        namespace@ == "default"@ ==> (r matches Err(m) && m@
            == "cannot modify default or pastel namespace"@ && final(palette)@ == old(palette)@),
        namespace@ != "default"@ && !valid_identifier(namespace@) ==> (r matches Err(m) && m@
            == "namespace must be lowercase and contain only [a-z_]"@ && final(palette)@ == old(palette)@),
        namespace@ != "default"@ && valid_identifier(namespace@) && !valid_identifier(name@) ==> (
        r matches Err(m) && m@ == "name must be lowercase and contain only [a-z_]"@ && final(palette)@ == old(palette)@),
        namespace@ != "default"@ && valid_identifier(namespace@) && valid_identifier(name@) ==> (
        r is Ok && final(palette)@ == palette_add(old(palette)@, namespace@, name@, c)),
{
    if str_eq(namespace, "default") {
        return Err("cannot modify default or pastel namespace".to_owned());
    }
    if !is_valid_identifier(namespace) {
        return Err("namespace must be lowercase and contain only [a-z_]".to_owned());
    }
    if !is_valid_identifier(name) {
        return Err("name must be lowercase and contain only [a-z_]".to_owned());
    }
    let ghost nss0 = palette@;
    match find_space(&palette.spaces, namespace) {
        Some(i) => {
            let ghost iv = i as int;
            let ghost spaces0 = palette.spaces@;
            let mut space = palette.spaces.remove(i);
            let ghost cs0 = space@;
            space.colors.push((name.to_owned(), c));
            proof {
                assert(space@ =~= cs0.push((name@, c)));
            }
            let ghost spv = space;
            palette.spaces.insert(i, space);
            proof {
                assert(palette.spaces@ =~= spaces0.update(iv, spv));
                let tgt = palette_add(nss0, namespace@, name@, c);
                assert(nss0[iv].1 == cs0);
                assert forall|t: int| 0 <= t < tgt.len() implies palette@[t] == tgt[t] by {
                    if t == iv {
                        assert(palette@[t].1 == spv@);
                        assert(tgt[t].1 =~= cs0.push((name@, c)));
                    }
                }
                assert(palette@ =~= tgt);
            }
            Ok(())
        },
        None => {
            let mut colors: Vec<(String, Color)> = Vec::new();
            colors.push((name.to_owned(), c));
            let space = ColorSpace { name: namespace.to_owned(), colors };
            let ghost spv = space;
            let ghost spaces0 = palette.spaces@;
            palette.spaces.push(space);
            proof {
                let tgt = palette_add(nss0, namespace@, name@, c);
                assert(palette.spaces@ =~= spaces0.push(spv));
                assert forall|t: int| 0 <= t < tgt.len() implies palette@[t] == tgt[t] by {
                    if t == nss0.len() {
                        assert(palette@[t].1 =~= seq![(name@, c)]);
                        assert(palette@[t].0 == namespace@);
                    }
                }
                assert(palette@ =~= tgt);
            }
            Ok(())
        },
    }
}

/// Removes the binding `namespace`/`name`; a namespace left empty is
/// removed whole.  The `default` namespace is read-only.
pub fn remove_color(palette: &mut ColorPalette, namespace: &str, name: &str) -> (r: Result<
    (),
    String,
>)
    ensures
        namespace@ == "default"@ ==> (r matches Err(m) && m@
            == "cannot modify default or pastel namespace"@ && final(palette)@ == old(palette)@),
        namespace@ != "default"@ && !valid_identifier(namespace@) ==> (r matches Err(m) && m@
            == "namespace must be lowercase and contain only [a-z_]"@ && final(palette)@ == old(palette)@),
        namespace@ != "default"@ && valid_identifier(namespace@) && !valid_identifier(name@) ==> (
        r matches Err(m) && m@ == "name must be lowercase and contain only [a-z_]"@ && final(palette)@ == old(palette)@),
        namespace@ != "default"@ && valid_identifier(namespace@) && valid_identifier(name@)
            && space_index(old(palette)@, namespace@) is None ==> (r matches Err(m) && m@
            == "namespace does not exist"@ && final(palette)@ == old(palette)@),
        namespace@ != "default"@ && valid_identifier(namespace@) && valid_identifier(name@) && (
        space_index(old(palette)@, namespace@) matches Some(i) && color_index(
            old(palette)@[i].1,
            name@,
        ) is None) ==> (r matches Err(m) && m@ == "color does not exist in namespace"@ && final(palette)@ == old(palette)@),
        namespace@ != "default"@ && valid_identifier(namespace@) && valid_identifier(name@) && (
        space_index(old(palette)@, namespace@) matches Some(i) && color_index(
            old(palette)@[i].1,
            name@,
        ) is Some) ==> (r is Ok && final(palette)@ == palette_remove(
            old(palette)@,
            namespace@,
            name@,
        )),
{
    if str_eq(namespace, "default") {
        return Err("cannot modify default or pastel namespace".to_owned());
    }
    if !is_valid_identifier(namespace) {
        return Err("namespace must be lowercase and contain only [a-z_]".to_owned());
    }
    if !is_valid_identifier(name) {
        return Err("name must be lowercase and contain only [a-z_]".to_owned());
    }
    let ghost nss0 = palette@;
    match find_space(&palette.spaces, namespace) {
        Some(i) => {
            let ghost iv = i as int;
            let ghost spaces0 = palette.spaces@;
            let mut space = palette.spaces.remove(i);
            let ghost cs0 = space@;
            match find_color(&space.colors, name) {
                Some(j) => {
                    let ghost jv = j as int;
                    let _removed = space.colors.remove(j);
                    proof {
                        assert(space@ =~= cs0.remove(jv));
                        assert(nss0[iv].1 == cs0);
                    }
                    if space.colors.len() == 0 {
                        proof {
                            let tgt = palette_remove(nss0, namespace@, name@);
                            assert(palette.spaces@ =~= spaces0.remove(iv));
                            assert(tgt =~= nss0.remove(iv));
                            assert forall|t: int| 0 <= t < tgt.len() implies palette@[t]
                                == tgt[t] by {
                                if t < iv {
                                    assert(palette.spaces@[t] == spaces0[t]);
                                } else {
                                    assert(palette.spaces@[t] == spaces0[t + 1]);
                                }
                            }
                            assert(palette@ =~= tgt);
                        }
                        Ok(())
                    } else {
                        let ghost spv = space;
                        palette.spaces.insert(i, space);
                        proof {
                            let tgt = palette_remove(nss0, namespace@, name@);
                            assert(palette.spaces@ =~= spaces0.update(iv, spv));
                            assert(tgt =~= nss0.update(iv, (nss0[iv].0, cs0.remove(jv))));
                            assert forall|t: int| 0 <= t < tgt.len() implies palette@[t]
                                == tgt[t] by {
                                if t == iv {
                                    assert(palette@[t].1 == spv@);
                                    assert(spv@ =~= cs0.remove(jv));
                                }
                            }
                            assert(palette@ =~= tgt);
                        }
                        Ok(())
                    }
                },
                None => {
                    let ghost spv = space;
                    palette.spaces.insert(i, space);
                    proof {
                        assert(spv == spaces0[iv]);
                        assert(palette.spaces@ =~= spaces0);
                        assert(palette@ =~= nss0);
                    }
                    Err("color does not exist in namespace".to_owned())
                },
            }
        },
        None => Err("namespace does not exist".to_owned()),
    }
}

/// Rebinds an existing colour `namespace`/`name` to a new value, in place.
/// The `default` namespace is read-only.
pub fn change_color(palette: &mut ColorPalette, namespace: &str, name: &str, c: Color) -> (r:
    Result<(), String>)
    ensures
        namespace@ == "default"@ ==> (r matches Err(m) && m@
            == "cannot modify default or pastel namespace"@ && final(palette)@ == old(palette)@),
        namespace@ != "default"@ && !valid_identifier(namespace@) ==> (r matches Err(m) && m@
            == "namespace must be lowercase and contain only [a-z_]"@ && final(palette)@ == old(palette)@),
        namespace@ != "default"@ && valid_identifier(namespace@) && !valid_identifier(name@) ==> (
        r matches Err(m) && m@ == "name must be lowercase and contain only [a-z_]"@ && final(palette)@ == old(palette)@),
        namespace@ != "default"@ && valid_identifier(namespace@) && valid_identifier(name@)
            && space_index(old(palette)@, namespace@) is None ==> (r matches Err(m) && m@
            == "namespace does not exist"@ && final(palette)@ == old(palette)@),
        namespace@ != "default"@ && valid_identifier(namespace@) && valid_identifier(name@) && (
        space_index(old(palette)@, namespace@) matches Some(i) && color_index(
            old(palette)@[i].1,
            name@,
        ) is None) ==> (r matches Err(m) && m@ == "color does not exist in namespace"@ && final(palette)@ == old(palette)@),
        namespace@ != "default"@ && valid_identifier(namespace@) && valid_identifier(name@) && (
        space_index(old(palette)@, namespace@) matches Some(i) && color_index(
            old(palette)@[i].1,
            name@,
        ) is Some) ==> (r is Ok && final(palette)@ == palette_change(
            old(palette)@,
            namespace@,
            name@,
            c,
        )),
{
    if str_eq(namespace, "default") {
        return Err("cannot modify default or pastel namespace".to_owned());
    }
    if !is_valid_identifier(namespace) {
        return Err("namespace must be lowercase and contain only [a-z_]".to_owned());
    }
    if !is_valid_identifier(name) {
        return Err("name must be lowercase and contain only [a-z_]".to_owned());
    }
    let ghost nss0 = palette@;
    match find_space(&palette.spaces, namespace) {
        Some(i) => {
            let ghost iv = i as int;
            let ghost spaces0 = palette.spaces@;
            let mut space = palette.spaces.remove(i);
            let ghost cs0 = space@;
            match find_color(&space.colors, name) {
                Some(j) => {
                    let ghost jv = j as int;
                    let _removed = space.colors.remove(j);
                    space.colors.insert(j, (name.to_owned(), c));
                    proof {
                        assert(space@ =~= cs0.update(jv, (name@, c)));
                        assert(nss0[iv].1 == cs0);
                    }
                    let ghost spv = space;
                    palette.spaces.insert(i, space);
                    proof {
                        let tgt = palette_change(nss0, namespace@, name@, c);
                        assert(palette.spaces@ =~= spaces0.update(iv, spv));
                        assert forall|t: int| 0 <= t < tgt.len() implies palette@[t] == tgt[t] by {
                            if t == iv {
                                assert(palette@[t].1 == spv@);
                                assert(tgt[t].1 =~= cs0.update(jv, (name@, c)));
                            }
                        }
                        assert(palette@ =~= tgt);
                    }
                    Ok(())
                },
                None => {
                    let ghost spv = space;
                    palette.spaces.insert(i, space);
                    proof {
                        assert(spv == spaces0[iv]);
                        assert(palette.spaces@ =~= spaces0);
                        assert(palette@ =~= nss0);
                    }
                    Err("color does not exist in namespace".to_owned())
                },
            }
        },
        None => Err("namespace does not exist".to_owned()),
    }
}


// ---------------------------------------------------------------------------
// Colouring text, and measuring it again
// ---------------------------------------------------------------------------

/// The ANSI truecolor foreground escape for a colour.
pub open spec fn ansi_fg(c: Color) -> Seq<char> {
    seq!['\u{1b}', '[', '3', '8', ';', '2', ';'] + dec_nat(c.r as nat) + seq![';'] + dec_nat(
        c.g as nat,
    ) + seq![';'] + dec_nat(c.b as nat) + seq!['m']
}

/// The ANSI reset escape.
pub open spec fn ansi_reset() -> Seq<char> {
    seq!['\u{1b}', '[', '0', 'm']
}

/// Text wrapped in a foreground escape and a reset.
pub open spec fn colored_spec(text: Seq<char>, c: Color) -> Seq<char> {
    ansi_fg(c) + text + ansi_reset()
}

/// Wraps text in the escape for the referenced colour; an unresolvable
/// reference is reported, never fatal.
pub fn colored_text(palette: &ColorPalette, text: &str, color_ref: &ColorRef) -> (r: Result<
    String,
    String,
>)
    ensures
        match ref_resolved(palette@, *color_ref) {
            Some(col) => (r matches Ok(t) && t@ == colored_spec(text@, col)),
            None => (r matches Err(m) && m@ == "could not resolve color reference"@),
        },
{
    match resolve_color_ref(palette, color_ref) {
        Some(col) => {
            let mut out: Vec<char> = Vec::new();
            out.push('\u{1b}');
            out.push('[');
            out.push('3');
            out.push('8');
            out.push(';');
            out.push('2');
            out.push(';');
            push_dec_u32(&mut out, col.r as u32);
            out.push(';');
            push_dec_u32(&mut out, col.g as u32);
            out.push(';');
            push_dec_u32(&mut out, col.b as u32);
            out.push('m');
            push_str_chars(&mut out, text);
            out.push('\u{1b}');
            out.push('[');
            out.push('0');
            out.push('m');
            proof {
                assert(out@ =~= colored_spec(text@, col));
            }
            Ok(string_from_chars(&out))
        },
        None => Err("could not resolve color reference".to_owned()),
    }
}

/// A character allowed inside a colour escape: a digit or `;`.
pub open spec fn is_sgr_char(c: char) -> bool {
    (48 <= c as int <= 57) || c == ';'
}

/// Length of the leading run of digits and semicolons.
pub open spec fn sgr_len(s: Seq<char>) -> nat
    decreases s.len(),
{
    if s.len() == 0 || !is_sgr_char(s[0]) {
        0
    } else {
        1 + sgr_len(s.skip(1))
    }
}

pub proof fn lemma_sgr_len(s: Seq<char>)
    ensures
        sgr_len(s) <= s.len(),
        forall|j: int| 0 <= j < sgr_len(s) ==> is_sgr_char(s[j]),
        sgr_len(s) < s.len() ==> !is_sgr_char(s[sgr_len(s) as int]),
    decreases s.len(),
{
    if s.len() > 0 && is_sgr_char(s[0]) {
        lemma_sgr_len(s.skip(1));
        assert forall|j: int| 0 <= j < sgr_len(s) implies is_sgr_char(s[j]) by {
            if j > 0 {
                assert(s[j] == s.skip(1)[j - 1]);
            }
        }
        if sgr_len(s) < s.len() {
            assert(s[sgr_len(s) as int] == s.skip(1)[sgr_len(s.skip(1)) as int]);
        }
    }
}

pub proof fn lemma_sgr_len_exact(s: Seq<char>, k: int)
    requires
        0 <= k <= s.len(),
        forall|j: int| 0 <= j < k ==> is_sgr_char(s[j]),
        k < s.len() ==> !is_sgr_char(s[k]),
    ensures
        sgr_len(s) == k,
    decreases k,
{
    if k > 0 {
        lemma_sgr_len_exact(s.skip(1), k - 1);
    }
}

/// Length of the colour escape at the head of the string, if one starts
/// there: `ESC [`, any run of digits and semicolons, then `m`.
pub open spec fn ansi_match_len(s: Seq<char>) -> Option<int> {
    if s.len() >= 2 && s[0] == '\u{1b}' && s[1] == '[' {
        if 2 + sgr_len(s.skip(2)) < s.len() && s[2 + sgr_len(s.skip(2)) as int] == 'm' {
            Some(2 + sgr_len(s.skip(2)) as int + 1)
        } else {
            None
        }
    } else {
        None
    }
}

/// The string with every colour escape removed, scanning left to right.
pub open spec fn strip_ansi(s: Seq<char>) -> Seq<char>
    decreases s.len(),
    via strip_ansi_dec
{
    if s.len() == 0 {
        Seq::empty()
    } else {
        match ansi_match_len(s) {
            Some(l) => strip_ansi(s.skip(l)),
            None => seq![s[0]] + strip_ansi(s.skip(1)),
        }
    }
}

#[via_fn]
proof fn strip_ansi_dec(s: Seq<char>) {
    if s.len() > 0 {
        lemma_sgr_len(s.skip(2));
    }
}

/// Removes every colour escape from a string.
pub fn strip_ansi_codes(s: &str) -> (r: String)
    ensures
        r@ == strip_ansi(s@),
{
    let chars = chars_of(s);
    let n = chars.len();
    let mut out: Vec<char> = Vec::new();
    let mut i: usize = 0;
    proof {
        assert(chars@.skip(0) =~= chars@);
        assert(out@ + strip_ansi(chars@) =~= strip_ansi(chars@));
    }
    while i < n
        invariant
            n == chars@.len(),
            chars@ == s@,
            i <= n,
            strip_ansi(s@) == out@ + strip_ansi(chars@.skip(i as int)),
        decreases n - i,
    {
        let ghost rem = chars@.skip(i as int);
        let mut matched_end: usize = 0;
        let mut matched: bool = false;
        if chars[i] == '\u{1b}' && i + 1 < n && chars[i + 1] == '[' {
            let mut j: usize = i + 2;
            while j < n && (('0' <= chars[j] && chars[j] <= '9') || chars[j] == ';')
                invariant
                    n == chars@.len(),
                    i + 2 <= j <= n,
                    forall|t: int| i + 2 <= t < j ==> is_sgr_char(chars@[t]),
                decreases n - j,
            {
                j = j + 1;
            }
            proof {
                let body = rem.skip(2);
                assert forall|t: int| 0 <= t < j - i - 2 implies is_sgr_char(body[t]) by {
                    assert(body[t] == chars@[i + 2 + t]);
                }
                if j < n {
                    assert(body[j - i - 2] == chars@[j as int]);
                }
                lemma_sgr_len_exact(body, j - i - 2);
            }
            if j < n && chars[j] == 'm' {
                matched = true;
                matched_end = j + 1;
                proof {
                    assert(rem[0] == chars@[i as int]);
                    assert(rem[1] == chars@[i + 1]);
                    assert(rem[2 + sgr_len(rem.skip(2)) as int] == chars@[j as int]);
                    assert(ansi_match_len(rem) == Some(j + 1 - i));
                }
            } else {
                proof {
                    assert(rem[0] == chars@[i as int]);
                    assert(rem[1] == chars@[i + 1]);
                    if 2 + sgr_len(rem.skip(2)) < rem.len() {
                        assert(rem[2 + sgr_len(rem.skip(2)) as int] == chars@[j as int]);
                    }
                    assert(ansi_match_len(rem) is None);
                }
            }
        } else {
            proof {
                assert(rem[0] == chars@[i as int]);
                if rem.len() >= 2 {
                    assert(rem[1] == chars@[i + 1]);
                }
                assert(ansi_match_len(rem) is None);
            }
        }
        if matched {
            proof {
                assert(rem.skip(matched_end - i) =~= chars@.skip(matched_end as int));
            }
            i = matched_end;
        } else {
            let ghost out0 = out@;
            out.push(chars[i]);
            proof {
                assert(rem.skip(1) =~= chars@.skip(i + 1 as int));
                assert(out@ =~= out0.push(rem[0]));
                assert(out0.push(rem[0]) + strip_ansi(chars@.skip(i + 1 as int)) =~= out0 + (seq![
                    rem[0],
                ] + strip_ansi(chars@.skip(i + 1 as int))));
            }
            i = i + 1;
        }
    }
    proof {
        assert(chars@.skip(n as int) =~= Seq::<char>::empty());
        assert(out@ + strip_ansi(chars@.skip(n as int)) =~= out@);
    }
    string_from_chars(&out)
}

/// The number of extended grapheme clusters in a string.  A function of the
/// characters alone.
pub uninterp spec fn grapheme_count_of(s: Seq<char>) -> nat;

/// Relies on unicode_segmentation::UnicodeSegmentation::graphemes, with
/// extended grapheme clusters, for the cluster count of a string; the
/// count depends on the characters alone.  An empty string has no
/// clusters, and every cluster holds at least one character.
#[verifier::external_body]
fn count_graphemes(s: &str) -> (r: usize)
    ensures
        r == grapheme_count_of(s@),
        s@.len() == 0 ==> r == 0,
        r <= s@.len(),
{
    unicode_segmentation::UnicodeSegmentation::graphemes(s, true).count()
}

/// The visible width of a string: the grapheme clusters left after the
/// colour escapes are stripped.  A string of nothing but escapes, in
/// particular the empty string, has width zero.
pub fn visible_length(s: &str) -> (r: usize)
    ensures
        r == grapheme_count_of(strip_ansi(s@)),
        strip_ansi(s@).len() == 0 ==> r == 0,
        r <= strip_ansi(s@).len(),
{
    let stripped = strip_ansi_codes(s);
    count_graphemes(stripped.as_str())
}

} // verus!


