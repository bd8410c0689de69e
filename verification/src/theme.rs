//! The styles the components share, and the colours a theme names.

use vstd::prelude::*;

use crate::style::{Color, Style};
use crate::text::str_eq;

verus! {

/// A colour with an alpha channel, as theme files write them.
#[derive(Clone, Copy, Debug, PartialEq, Eq, Structural)]
pub struct Rgba {
    pub r: u8,
    pub g: u8,
    pub b: u8,
    pub a: u8,
}

impl Rgba {
    /// The terminal colour; a transparent one is none.
    pub open spec fn opaque(self) -> Option<Color> {
        if self.a == 0 {
            None
        } else {
            Some(Color::Rgb(self.r, self.g, self.b))
        }
    }

    /// The terminal colour; a transparent one is none.
    pub fn color(self) -> (c: Option<Color>)
        ensures
            c == self.opaque(),
    {
        if self.a == 0 {
            None
        } else {
            Some(Color::Rgb(self.r, self.g, self.b))
        }
    }
}

/// One colour under the name a theme gives it.
#[derive(Clone, Debug, PartialEq, Eq)]
pub struct Named {
    pub key: String,
    pub color: Rgba,
}

/// Styles the components share.
#[derive(Clone, Debug)]
pub struct Theme {
    /// Body text.
    pub fg: Style,
    /// Chrome that should recede: headers, hints, separators.
    pub dim: Style,
    /// Whatever the eye should land on first.
    pub accent: Style,
    /// A diff line that added text.
    pub add: Style,
    /// A diff line that removed text.
    pub remove: Style,
    /// A tool call that failed, or was refused.
    pub error: Style,
    /// Something running short.
    pub warning: Style,
    /// Something that is well.
    pub success: Style,
    /// Something worth knowing.
    pub info: Style,
    /// The row a list's cursor is on.
    pub selection: Style,
    /// Every colour the theme names, in no particular order; of two under one
    /// key the first counts.
    pub colors: Vec<Named>,
    /// Changes with every switch of theme, so that what was styled under
    /// another is known to be stale.
    pub revision: u64,
}

/// The colour a list of named colours gives a key.
pub open spec fn named_color(colors: Seq<Named>, key: Seq<char>) -> Option<Rgba>
    decreases colors.len(),
{
    if colors.len() == 0 {
        None
    } else if colors[0].key@ == key {
        Some(colors[0].color)
    } else {
        named_color(colors.skip(1), key)
    }
}

impl Theme {
    /// The palette of a terminal that has loaded no theme.
    pub open spec fn is_default(self) -> bool {
        &&& self.fg == (Style { fg: Some(Color::Reset), ..Style::plain() })
        &&& self.dim == (Style { fg: Some(Color::DarkGray), ..Style::plain() })
        &&& self.accent == (Style { fg: Some(Color::Cyan), bold: true, ..Style::plain() })
        &&& self.add == (Style { fg: Some(Color::Green), ..Style::plain() })
        &&& self.remove == (Style { fg: Some(Color::Red), ..Style::plain() })
        &&& self.error == (Style { fg: Some(Color::Red), ..Style::plain() })
        &&& self.warning == (Style { fg: Some(Color::Yellow), ..Style::plain() })
        &&& self.success == (Style { fg: Some(Color::Green), ..Style::plain() })
        &&& self.info == (Style { fg: Some(Color::Blue), ..Style::plain() })
        &&& self.selection == (Style { reversed: true, ..Style::plain() })
        &&& self.colors@.len() == 0
        &&& self.revision == 0
    }

    /// The colour the theme names by `key`.
    pub fn color(&self, key: &str) -> (c: Option<Rgba>)
        ensures
            c == named_color(self.colors@, key@),
    {
        let mut i: usize = 0;
        assert(self.colors@.skip(0) =~= self.colors@);
        while i < self.colors.len()
            invariant
                i <= self.colors.len(),
                named_color(self.colors@, key@) == named_color(self.colors@.skip(i as int), key@),
            decreases self.colors.len() - i,
        {
            assert(self.colors@.skip(i as int).skip(1) =~= self.colors@.skip(i + 1));
            if str_eq(&self.colors[i].key, key) {
                return Some(self.colors[i].color);
            }
            i += 1;
        }
        None
    }
}

impl Default for Theme {
    fn default() -> (t: Theme)
        ensures
            t.is_default(),
    {
        let mut selection = Style::new();
        selection.reversed = true;
        Theme {
            fg: Style::new().fg(Color::Reset),
            dim: Style::new().fg(Color::DarkGray),
            accent: Style::new().fg(Color::Cyan).bold(),
            add: Style::new().fg(Color::Green),
            remove: Style::new().fg(Color::Red),
            error: Style::new().fg(Color::Red),
            warning: Style::new().fg(Color::Yellow),
            success: Style::new().fg(Color::Green),
            info: Style::new().fg(Color::Blue),
            selection,
            colors: Vec::new(),
            revision: 0,
        }
    }
}

/// Of two colours under one key the first counts, and a key that is not there
/// has none.
pub proof fn law_the_first_color_of_a_key_counts(colors: Seq<Named>, key: Seq<char>, at: int)
    ensures
        0 <= at < colors.len() && colors[at].key@ == key && (forall|i: int|
            0 <= i < at ==> (#[trigger] colors[i]).key@ != key) ==> named_color(colors, key)
            == Some(colors[at].color),
        (forall|i: int| 0 <= i < colors.len() ==> (#[trigger] colors[i]).key@ != key)
            ==> named_color(colors, key) is None,
    decreases colors.len(),
{
    if colors.len() > 0 && colors[0].key@ != key {
        let rest = colors.skip(1);
        law_the_first_color_of_a_key_counts(rest, key, at - 1);
        assert(forall|i: int| 0 <= i < rest.len() ==> #[trigger] rest[i] == colors[i + 1]);
    }
}

} // verus!
