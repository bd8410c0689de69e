//! The styles a theme resolves to for markdown and for highlighted code.

use vstd::prelude::*;

use crate::style::Style;
use crate::theme::{self, Theme};

verus! {

/// Which slot a token's scope resolves to.
#[derive(Clone, Copy, Debug, PartialEq, Eq, Structural)]
pub enum Scoped {
    Comment,
    Keyword,
    /// An import or export keyword, which stays upright where every other
    /// keyword is italic.
    KeywordUpright,
    Function,
    Variable,
    Text,
    Number,
    Type,
    Operator,
    Punctuation,
    Error,
    Warning,
}

/// The styles a theme resolves to for markdown and for highlighted code.
///
/// A key the theme does not name falls back to the body role rather than to an
/// invented colour.
#[derive(Clone, Copy, Debug, PartialEq, Eq, Structural)]
pub struct Styles {
    pub text: Style,
    pub heading: Style,
    pub strong: Style,
    pub emph: Style,
    pub list_item: Style,
    pub block_quote: Style,
    pub code: Style,
    pub link: Style,
    pub link_text: Style,
    /// The quote border, the rule, the table grid.
    pub chrome: Style,
    /// Struck-through text and an unticked box.
    pub muted: Style,
    pub comment: Style,
    pub keyword: Style,
    pub function: Style,
    pub variable: Style,
    pub string: Style,
    pub number: Style,
    pub typed: Style,
    pub operator: Style,
    pub punctuation: Style,
    pub warning: Style,
    pub error: Style,
}

/// The foreground a theme key resolves to, `fallback` where the theme names
/// nothing by it or something transparent.
pub open spec fn foreground(theme: Theme, key: Seq<char>, fallback: Style) -> Style {
    match theme::named_color(theme.colors@, key) {
        Some(rgba) => match rgba.opaque() {
            Some(color) => Style { fg: Some(color), ..Style::plain() },
            None => fallback,
        },
        None => fallback,
    }
}

/// The foreground a theme key resolves to.
fn fg(theme: &Theme, key: &str, fallback: Style) -> (s: Style)
    ensures
        s == foreground(*theme, key@, fallback),
{
    match theme.color(key) {
        Some(rgba) => match rgba.color() {
            Some(color) => Style::new().fg(color),
            None => fallback,
        },
        None => fallback,
    }
}

impl Styles {
    /// The styles of a theme: body text is `markdownText` or the theme's own
    /// body role, every other markdown key falls back to body text, and every
    /// syntax key to code.
    pub open spec fn of(theme: Theme) -> Styles {
        let body = foreground(theme, "markdownText"@, theme.fg);
        let code = foreground(theme, "markdownCode"@, body);
        Styles {
            text: body,
            heading: foreground(theme, "markdownHeading"@, body),
            strong: foreground(theme, "markdownStrong"@, body),
            emph: foreground(theme, "markdownEmph"@, body),
            list_item: foreground(theme, "markdownListItem"@, body),
            block_quote: foreground(theme, "markdownBlockQuote"@, body),
            code,
            link: foreground(theme, "markdownLink"@, body),
            link_text: foreground(theme, "markdownLinkText"@, body),
            chrome: theme.dim,
            muted: theme.dim,
            comment: foreground(theme, "syntaxComment"@, code),
            keyword: foreground(theme, "syntaxKeyword"@, code),
            function: foreground(theme, "syntaxFunction"@, code),
            variable: foreground(theme, "syntaxVariable"@, code),
            string: foreground(theme, "syntaxString"@, code),
            number: foreground(theme, "syntaxNumber"@, code),
            typed: foreground(theme, "syntaxType"@, code),
            operator: foreground(theme, "syntaxOperator"@, code),
            punctuation: foreground(theme, "syntaxPunctuation"@, code),
            warning: theme.warning,
            error: theme.error,
        }
    }

    /// The styles of a theme; see [`Styles::of`].
    pub fn new(theme: &Theme) -> (s: Styles)
        ensures
            s == Styles::of(*theme),
    {
        let body = fg(theme, "markdownText", theme.fg);
        let code = fg(theme, "markdownCode", body);
        Styles {
            text: body,
            heading: fg(theme, "markdownHeading", body),
            strong: fg(theme, "markdownStrong", body),
            emph: fg(theme, "markdownEmph", body),
            list_item: fg(theme, "markdownListItem", body),
            block_quote: fg(theme, "markdownBlockQuote", body),
            code,
            link: fg(theme, "markdownLink", body),
            link_text: fg(theme, "markdownLinkText", body),
            chrome: theme.dim,
            muted: theme.dim,
            comment: fg(theme, "syntaxComment", code),
            keyword: fg(theme, "syntaxKeyword", code),
            function: fg(theme, "syntaxFunction", code),
            variable: fg(theme, "syntaxVariable", code),
            string: fg(theme, "syntaxString", code),
            number: fg(theme, "syntaxNumber", code),
            typed: fg(theme, "syntaxType", code),
            operator: fg(theme, "syntaxOperator", code),
            punctuation: fg(theme, "syntaxPunctuation", code),
            warning: theme.warning,
            error: theme.error,
        }
    }

    /// The style of a slot: comments and keywords in italics, the rest as the
    /// theme has it.
    pub open spec fn slot(self, slot: Scoped) -> Style {
        match slot {
            Scoped::Comment => self.comment.as_italic(),
            Scoped::Keyword => self.keyword.as_italic(),
            Scoped::KeywordUpright => self.keyword,
            Scoped::Function => self.function,
            Scoped::Variable => self.variable,
            Scoped::Text => self.string,
            Scoped::Number => self.number,
            Scoped::Type => self.typed,
            Scoped::Operator => self.operator,
            Scoped::Punctuation => self.punctuation,
            Scoped::Error => self.error,
            Scoped::Warning => self.warning,
        }
    }

    /// The style of a slot; see [`Styles::slot`].
    pub fn scoped(&self, slot: Scoped) -> (s: Style)
        ensures
            s == self.slot(slot),
    {
        match slot {
            Scoped::Comment => self.comment.italic(),
            Scoped::Keyword => self.keyword.italic(),
            Scoped::KeywordUpright => self.keyword,
            Scoped::Function => self.function,
            Scoped::Variable => self.variable,
            Scoped::Text => self.string,
            Scoped::Number => self.number,
            Scoped::Type => self.typed,
            Scoped::Operator => self.operator,
            Scoped::Punctuation => self.punctuation,
            Scoped::Error => self.error,
            Scoped::Warning => self.warning,
        }
    }

    /// A theme that names no colour at all paints everything a markdown key
    /// would paint in the theme's own body role.
    pub proof fn law_unnamed_keys_fall_back(theme: Theme)
        requires
            theme.colors@.len() == 0,
        ensures
            ({
                let styles = Styles::of(theme);
                &&& styles.text == theme.fg
                &&& styles.heading == theme.fg
                &&& styles.strong == theme.fg
                &&& styles.emph == theme.fg
                &&& styles.list_item == theme.fg
                &&& styles.block_quote == theme.fg
                &&& styles.code == theme.fg
                &&& styles.link == theme.fg
                &&& styles.link_text == theme.fg
            }),
    {
    }
}

} // verus!
