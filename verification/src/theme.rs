//! Syntax-highlight themes: a palette of named colors and per-class
//! definitions, rendered to a CSS stylesheet. A definition may name a
//! color directly (`#rrggbb`) or refer to a palette entry; a reference
//! that resolves nowhere fails the build.

use vstd::prelude::*;

verus! {

broadcast use vstd::string::is_ascii_spec_bytes;

/// The ASCII bytes of a character sequence.
pub open spec fn ab(s: Seq<char>) -> Seq<u8> {
    Seq::new(s.len(), |i: int| s[i] as u8)
}

/// Copy an ASCII string's bytes.
fn ascii_bytes(s: &str) -> (r: Vec<u8>)
    requires
        vstd::string::is_ascii(s),
    ensures
        r@ == ab(s@),
{
    let r = s.as_bytes_vec();
    proof {
        assert(vstd::string::is_ascii(s));
        assert(r@ =~= ab(s@));
    }
    r
}

/// Extra text styling a theme may ask for.
pub enum Modifiers {
    Underlined,
    Bold,
    Italic,
    CrossedOut,
    Reversed,
    Dim,
}

/// A palette reference with optional foreground, background and
/// modifiers.
pub struct PaletteReferenceWithModifiers {
    pub bg: Option<Vec<u8>>,
    pub fg: Option<Vec<u8>>,
    pub modifiers: Vec<Modifiers>,
}

/// What a highlight class maps to.
pub enum PaletteReference {
    /// A foreground color alone.
    Foreground(Vec<u8>),
    /// Foreground, background and modifiers.
    WithModifiers(PaletteReferenceWithModifiers),
}

/// A theme: its palette and its per-class definitions, in file order.
pub struct Theme {
    pub palette: Vec<(Vec<u8>, Vec<u8>)>,
    pub definitions: Vec<(Vec<u8>, PaletteReference)>,
}

// ---------------------------------------------------------------------------
// Specification.
// ---------------------------------------------------------------------------
/// Resolve a color reference: a literal `#...` stands for itself, a name
/// resolves through the palette, first entry wins.
pub open spec fn spec_get_color(palette: Seq<(Seq<u8>, Seq<u8>)>, refname: Seq<u8>) -> Option<
    Seq<u8>,
>
    decreases palette.len(),
{
    if refname.len() > 0 && refname[0] == 35u8 {
        Some(refname)
    } else if palette.len() == 0 {
        None
    } else if palette[0].0 == refname {
        Some(palette[0].1)
    } else {
        spec_get_color(palette.skip(1), refname)
    }
}

pub open spec fn spec_modifier_css(m: Modifiers) -> Seq<u8> {
    match m {
        Modifiers::Underlined => ab("text-decoration:underline;"@),
        Modifiers::Bold => ab("font-weight:bold;"@),
        Modifiers::Italic => ab("font-style:italic;"@),
        Modifiers::CrossedOut => ab("text-decoration:line-through;"@),
        Modifiers::Reversed => Seq::empty(),
        Modifiers::Dim => Seq::empty(),
    }
}

pub open spec fn spec_mods_css(ms: Seq<Modifiers>) -> Seq<u8>
    decreases ms.len(),
{
    if ms.len() == 0 {
        Seq::empty()
    } else {
        spec_mods_css(ms.drop_last()) + spec_modifier_css(ms.last())
    }
}

/// The declaration body of one definition, or nothing when a reference
/// does not resolve.
pub open spec fn spec_def_body(palette: Seq<(Seq<u8>, Seq<u8>)>, pr: PaletteReference) -> Option<
    Seq<u8>,
> {
    match pr {
        PaletteReference::Foreground(c) => match spec_get_color(palette, c@) {
            Some(col) => Some(ab("color:"@) + col + seq![59u8]),
            None => None,
        },
        PaletteReference::WithModifiers(wm) => {
            let bg_part = match wm.bg {
                Some(c) => match spec_get_color(palette, c@) {
                    Some(col) => Some(ab("background:"@) + col + seq![59u8]),
                    None => None,
                },
                None => Some(Seq::empty()),
            };
            let fg_part = match wm.fg {
                Some(c) => match spec_get_color(palette, c@) {
                    Some(col) => Some(ab("color:"@) + col + seq![59u8]),
                    None => None,
                },
                None => Some(Seq::empty()),
            };
            match (bg_part, fg_part) {
                (Some(b), Some(f)) => Some(b + f + spec_mods_css(wm.modifiers@)),
                _ => None,
            }
        },
    }
}

/// One full rule: `.highlight.<kind> {<body>}`.
pub open spec fn spec_def_css(palette: Seq<(Seq<u8>, Seq<u8>)>, kind: Seq<u8>, pr: PaletteReference) -> Option<
    Seq<u8>,
> {
    match spec_def_body(palette, pr) {
        Some(body) => Some(ab(".highlight."@) + kind + ab(" {"@) + body + seq![125u8]),
        None => None,
    }
}

/// The whole stylesheet, definitions in order; nothing when any
/// reference fails to resolve.
pub open spec fn spec_theme_css(
    palette: Seq<(Seq<u8>, Seq<u8>)>,
    defs: Seq<(Vec<u8>, PaletteReference)>,
) -> Option<Seq<u8>>
    decreases defs.len(),
{
    if defs.len() == 0 {
        Some(Seq::empty())
    } else {
        match spec_theme_css(palette, defs.drop_last()) {
            Some(head) => match spec_def_css(palette, defs.last().0@, defs.last().1) {
                Some(rule) => Some(head + rule),
                None => None,
            },
            None => None,
        }
    }
}

pub open spec fn pal_views(palette: Seq<(Vec<u8>, Vec<u8>)>) -> Seq<(Seq<u8>, Seq<u8>)> {
    Seq::new(palette.len(), |i: int| (palette[i].0@, palette[i].1@))
}

// ---------------------------------------------------------------------------
// Execution.
// ---------------------------------------------------------------------------
impl Theme {
    /// Resolve one color reference against this theme's palette.
    pub fn get_color(&self, reference: &Vec<u8>) -> (r: Option<Vec<u8>>)
        ensures
            match r {
                Some(col) => spec_get_color(pal_views(self.palette@), reference@) == Some(col@),
                None => spec_get_color(pal_views(self.palette@), reference@) is None,
            },
    {
        let ghost pvs = pal_views(self.palette@);
        if reference.len() > 0 {
            if reference[0] == 35u8 {
                return Some(reference.clone());
            }
        }
        let mut i: usize = 0;
        proof {
            assert(pvs.skip(0) =~= pvs);
        }
        while i < self.palette.len()
            invariant
                pvs == pal_views(self.palette@),
                pvs.len() == self.palette@.len(),
                i <= self.palette@.len(),
                !(reference@.len() > 0 && reference@[0] == 35u8),
                spec_get_color(pvs, reference@) == spec_get_color(pvs.skip(i as int), reference@),
            decreases self.palette@.len() - i,
        {
            proof {
                assert(pvs.skip(i as int)[0] == pvs[i as int]);
                assert(pvs.skip(i as int).skip(1) =~= pvs.skip(i + 1));
            }
            if crate::store::bytes_equal(&self.palette[i].0, reference) {
                return Some(self.palette[i].1.clone());
            }
            i = i + 1;
        }
        proof {
            assert(pvs.skip(pvs.len() as int) =~= Seq::<(Seq<u8>, Seq<u8>)>::empty());
        }
        None
    }

    /// Render the stylesheet, or nothing when some reference does not
    /// resolve.
    pub fn build_css(&self) -> (r: Option<Vec<u8>>)
        ensures
            match r {
                Some(css) => spec_theme_css(pal_views(self.palette@), self.definitions@) == Some(
                    css@,
                ),
                None => spec_theme_css(pal_views(self.palette@), self.definitions@) is None,
            },
    {
        let ghost pvs = pal_views(self.palette@);
        let mut out: Vec<u8> = Vec::new();
        let mut i: usize = 0;
        proof {
            assert(self.definitions@.take(0) =~= Seq::<(Vec<u8>, PaletteReference)>::empty());
            assert(out@ =~= Seq::<u8>::empty());
        }
        while i < self.definitions.len()
            invariant
                pvs == pal_views(self.palette@),
                i <= self.definitions@.len(),
                spec_theme_css(pvs, self.definitions@.take(i as int)) == Some(out@),
            decreases self.definitions@.len() - i,
        {
            proof {
                assert(self.definitions@.take(i + 1).drop_last() =~= self.definitions@.take(
                    i as int,
                ));
                assert(self.definitions@.take(i + 1).last() == self.definitions@[i as int]);
            }
            let rule = match self.def_css(i) {
                Some(rl) => rl,
                None => {
                    proof {
                        lemma_theme_css_dead(pvs, self.definitions@, i as int);
                    }
                    return None;
                },
            };
            let ghost out0 = out@;
            let mut rl = rule;
            out.append(&mut rl);
            proof {
                assert(out@ =~= out0 + spec_def_css(
                    pvs,
                    self.definitions@[i as int].0@,
                    self.definitions@[i as int].1,
                )->Some_0);
            }
            i = i + 1;
        }
        proof {
            assert(self.definitions@.take(self.definitions@.len() as int) =~= self.definitions@);
        }
        Some(out)
    }

    /// One definition's rule.
    fn def_css(&self, i: usize) -> (r: Option<Vec<u8>>)
        requires
            i < self.definitions@.len(),
        ensures
            match r {
                Some(rule) => spec_def_css(
                    pal_views(self.palette@),
                    self.definitions@[i as int].0@,
                    self.definitions@[i as int].1,
                ) == Some(rule@),
                None => spec_def_css(
                    pal_views(self.palette@),
                    self.definitions@[i as int].0@,
                    self.definitions@[i as int].1,
                ) is None,
            },
    {
        let body = match self.def_body(i) {
            Some(b) => b,
            None => return None,
        };
        proof {
            reveal_strlit(".highlight.");
            reveal_strlit(" {");
            assert(vstd::string::is_ascii(".highlight."));
            assert(vstd::string::is_ascii(" {"));
        }
        let mut rule = ascii_bytes(".highlight.");
        let mut kind = self.definitions[i].0.clone();
        rule.append(&mut kind);
        let mut open_brace = ascii_bytes(" {");
        rule.append(&mut open_brace);
        let mut b2 = body;
        rule.append(&mut b2);
        rule.push(125u8);
        proof {
            assert(rule@ =~= spec_def_css(
                pal_views(self.palette@),
                self.definitions@[i as int].0@,
                self.definitions@[i as int].1,
            )->Some_0);
        }
        Some(rule)
    }

    /// One definition's declaration body.
    fn def_body(&self, i: usize) -> (r: Option<Vec<u8>>)
        requires
            i < self.definitions@.len(),
        ensures
            match r {
                Some(body) => spec_def_body(pal_views(self.palette@), self.definitions@[i as int].1)
                    == Some(body@),
                None => spec_def_body(pal_views(self.palette@), self.definitions@[i as int].1)
                    is None,
            },
    {
        proof {
            reveal_strlit("color:");
            reveal_strlit("background:");
            assert(vstd::string::is_ascii("color:"));
            assert(vstd::string::is_ascii("background:"));
        }
        match &self.definitions[i].1 {
            PaletteReference::Foreground(c) => {
                let col = match self.get_color(c) {
                    Some(col) => col,
                    None => return None,
                };
                let mut body = ascii_bytes("color:");
                let mut c2 = col;
                body.append(&mut c2);
                body.push(59u8);
                proof {
                    assert(body@ =~= spec_def_body(
                        pal_views(self.palette@),
                        self.definitions@[i as int].1,
                    )->Some_0);
                }
                Some(body)
            },
            PaletteReference::WithModifiers(wm) => {
                let mut body: Vec<u8> = Vec::new();
                match &wm.bg {
                    Some(c) => {
                        let col = match self.get_color(c) {
                            Some(col) => col,
                            None => return None,
                        };
                        let mut part = ascii_bytes("background:");
                        body.append(&mut part);
                        let mut c2 = col;
                        body.append(&mut c2);
                        body.push(59u8);
                    },
                    None => {},
                }
                match &wm.fg {
                    Some(c) => {
                        let col = match self.get_color(c) {
                            Some(col) => col,
                            None => return None,
                        };
                        let mut part = ascii_bytes("color:");
                        body.append(&mut part);
                        let mut c2 = col;
                        body.append(&mut c2);
                        body.push(59u8);
                    },
                    None => {},
                }
                let ghost pre_mods = body@;
                let mut j: usize = 0;
                proof {
                    assert(wm.modifiers@.take(0) =~= Seq::<Modifiers>::empty());
                    assert(body@ =~= pre_mods + spec_mods_css(wm.modifiers@.take(0)));
                }
                while j < wm.modifiers.len()
                    invariant
                        j <= wm.modifiers@.len(),
                        body@ == pre_mods + spec_mods_css(wm.modifiers@.take(j as int)),
                    decreases wm.modifiers@.len() - j,
                {
                    proof {
                        assert(wm.modifiers@.take(j + 1).drop_last() =~= wm.modifiers@.take(
                            j as int,
                        ));
                        assert(wm.modifiers@.take(j + 1).last() == wm.modifiers@[j as int]);
                    }
                    match wm.modifiers[j] {
                        Modifiers::Underlined => {
                            proof {
                                reveal_strlit("text-decoration:underline;");
                                assert(vstd::string::is_ascii("text-decoration:underline;"));
                            }
                            let mut part = ascii_bytes("text-decoration:underline;");
                            body.append(&mut part);
                        },
                        Modifiers::Bold => {
                            proof {
                                reveal_strlit("font-weight:bold;");
                                assert(vstd::string::is_ascii("font-weight:bold;"));
                            }
                            let mut part = ascii_bytes("font-weight:bold;");
                            body.append(&mut part);
                        },
                        Modifiers::Italic => {
                            proof {
                                reveal_strlit("font-style:italic;");
                                assert(vstd::string::is_ascii("font-style:italic;"));
                            }
                            let mut part = ascii_bytes("font-style:italic;");
                            body.append(&mut part);
                        },
                        Modifiers::CrossedOut => {
                            proof {
                                reveal_strlit("text-decoration:line-through;");
                                assert(vstd::string::is_ascii("text-decoration:line-through;"));
                            }
                            let mut part = ascii_bytes("text-decoration:line-through;");
                            body.append(&mut part);
                        },
                        Modifiers::Reversed => {},
                        Modifiers::Dim => {},
                    }
                    proof {
                        assert(body@ =~= pre_mods + spec_mods_css(wm.modifiers@.take(j + 1)));
                    }
                    j = j + 1;
                }
                proof {
                    assert(wm.modifiers@.take(wm.modifiers@.len() as int) =~= wm.modifiers@);
                    assert(body@ =~= spec_def_body(
                        pal_views(self.palette@),
                        self.definitions@[i as int].1,
                    )->Some_0);
                }
                Some(body)
            },
        }
    }
}

/// A definition that fails to render fails the whole sheet.
proof fn lemma_theme_css_dead(
    palette: Seq<(Seq<u8>, Seq<u8>)>,
    defs: Seq<(Vec<u8>, PaletteReference)>,
    i: int,
)
    requires
        0 <= i < defs.len(),
        spec_def_css(palette, defs[i].0@, defs[i].1) is None,
    ensures
        spec_theme_css(palette, defs) is None,
    decreases defs.len() - i,
{
    if i + 1 == defs.len() {
        assert(defs.drop_last() =~= defs.take(defs.len() - 1));
        assert(defs.last() == defs[i]);
    } else {
        lemma_theme_css_dead_prefix(palette, defs, i + 1);
    }
}

proof fn lemma_theme_css_dead_prefix(
    palette: Seq<(Seq<u8>, Seq<u8>)>,
    defs: Seq<(Vec<u8>, PaletteReference)>,
    upto: int,
)
    requires
        0 < upto <= defs.len(),
        spec_theme_css(palette, defs.take(upto)) is None || (exists|i: int|
            0 <= i < upto && spec_def_css(palette, (#[trigger] defs[i]).0@, defs[i].1) is None),
    ensures
        spec_theme_css(palette, defs) is None,
    decreases defs.len() - upto,
{
    assert(spec_theme_css(palette, defs.take(upto)) is None) by {
        if !(spec_theme_css(palette, defs.take(upto)) is None) {
            let i = choose|i: int|
                0 <= i < upto && spec_def_css(palette, (#[trigger] defs[i]).0@, defs[i].1) is None;
            lemma_theme_prefix_some(palette, defs.take(upto), i);
        }
    }
    if upto == defs.len() {
        assert(defs.take(upto) =~= defs);
    } else {
        assert(defs.take(upto + 1).drop_last() =~= defs.take(upto));
        lemma_theme_css_dead_prefix(palette, defs, upto + 1);
    }
}

/// A rendered sheet renders each of its definitions.
proof fn lemma_theme_prefix_some(
    palette: Seq<(Seq<u8>, Seq<u8>)>,
    defs: Seq<(Vec<u8>, PaletteReference)>,
    i: int,
)
    requires
        0 <= i < defs.len(),
        spec_theme_css(palette, defs) is Some,
    ensures
        spec_def_css(palette, defs[i].0@, defs[i].1) is Some,
    decreases defs.len(),
{
    if i + 1 == defs.len() {
        assert(defs.last() == defs[i]);
    } else {
        assert(defs.drop_last()[i] == defs[i]);
        lemma_theme_prefix_some(palette, defs.drop_last(), i);
    }
}

} // verus!
