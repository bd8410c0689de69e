//! What each element of a source is drawn as: emphasis and links, headings,
//! quotes and lists, code and its tokens, and the colours a theme names for
//! them.

use vstd::prelude::*;

use crate::markdown::code::{
    self, flat_lines, language, scope_prefix, scope_rules, scope_style, slot_from, token_spans,
    RegionView,
};
use crate::markdown::document::{self, segmented};
use crate::markdown::events::{EventView, Mark, Tag};
use crate::markdown::styles::{Scoped, Styles};
use crate::markdown::walk::{self, Context, Inline};
use crate::markdown::wrap::{self, LineKind, LineView};
use crate::style::{self, Color, SpanView, Style};
use crate::text;
use crate::theme::{self, Theme};
use crate::width;

verus! {

/// Whether a style is the colour a theme names, and nothing else.
pub open spec fn colored(style: Style, theme: Theme, key: Seq<char>) -> bool {
    theme::named_color(theme.colors@, key) matches Some(rgba) ==> (rgba.a > 0 ==> style == (Style {
        fg: Some(Color::Rgb(rgba.r, rgba.g, rgba.b)),
        ..Style::plain()
    }))
}

/// Every colour a theme names for markdown and code reaches what it is named
/// for, and what recedes, warns and fails is drawn as it is everywhere.
pub proof fn law_named_colors_reach_their_styles(theme: Theme)
    ensures
        colored(Styles::of(theme).text, theme, "markdownText"@),
        colored(Styles::of(theme).heading, theme, "markdownHeading"@),
        colored(Styles::of(theme).strong, theme, "markdownStrong"@),
        colored(Styles::of(theme).emph, theme, "markdownEmph"@),
        colored(Styles::of(theme).list_item, theme, "markdownListItem"@),
        colored(Styles::of(theme).block_quote, theme, "markdownBlockQuote"@),
        colored(Styles::of(theme).code, theme, "markdownCode"@),
        colored(Styles::of(theme).link, theme, "markdownLink"@),
        colored(Styles::of(theme).link_text, theme, "markdownLinkText"@),
        colored(Styles::of(theme).comment, theme, "syntaxComment"@),
        colored(Styles::of(theme).keyword, theme, "syntaxKeyword"@),
        colored(Styles::of(theme).function, theme, "syntaxFunction"@),
        colored(Styles::of(theme).variable, theme, "syntaxVariable"@),
        colored(Styles::of(theme).string, theme, "syntaxString"@),
        colored(Styles::of(theme).number, theme, "syntaxNumber"@),
        colored(Styles::of(theme).typed, theme, "syntaxType"@),
        colored(Styles::of(theme).operator, theme, "syntaxOperator"@),
        colored(Styles::of(theme).punctuation, theme, "syntaxPunctuation"@),
        Styles::of(theme).chrome == theme.dim,
        Styles::of(theme).muted == theme.dim,
        Styles::of(theme).warning == theme.warning,
        Styles::of(theme).error == theme.error,
{
}

/// What a theme does not name for code falls back to code, code to text, and
/// text to the theme's own.
pub proof fn law_unnamed_code_colors_fall_back(theme: Theme)
    requires
        theme.colors@.len() == 0,
    ensures
        Styles::of(theme).text == theme.fg,
        Styles::of(theme).heading == theme.fg,
        Styles::of(theme).strong == theme.fg,
        Styles::of(theme).emph == theme.fg,
        Styles::of(theme).list_item == theme.fg,
        Styles::of(theme).block_quote == theme.fg,
        Styles::of(theme).code == theme.fg,
        Styles::of(theme).link == theme.fg,
        Styles::of(theme).link_text == theme.fg,
        Styles::of(theme).comment == theme.fg,
        Styles::of(theme).keyword == theme.fg,
        Styles::of(theme).function == theme.fg,
        Styles::of(theme).variable == theme.fg,
        Styles::of(theme).string == theme.fg,
        Styles::of(theme).number == theme.fg,
        Styles::of(theme).typed == theme.fg,
        Styles::of(theme).operator == theme.fg,
        Styles::of(theme).punctuation == theme.fg,
{
}

/// How each kind of token is drawn: comments and keywords italic, import and
/// export keywords upright, and everything else as its colour.
pub proof fn law_tokens_are_drawn_so(styles: Styles)
    ensures
        styles.slot(Scoped::Comment) == (Style { italic: true, ..styles.comment }),
        styles.slot(Scoped::Keyword) == (Style { italic: true, ..styles.keyword }),
        styles.slot(Scoped::KeywordUpright) == styles.keyword,
        styles.slot(Scoped::Function) == styles.function,
        styles.slot(Scoped::Variable) == styles.variable,
        styles.slot(Scoped::Text) == styles.string,
        styles.slot(Scoped::Number) == styles.number,
        styles.slot(Scoped::Type) == styles.typed,
        styles.slot(Scoped::Operator) == styles.operator,
        styles.slot(Scoped::Punctuation) == styles.punctuation,
        styles.slot(Scoped::Error) == styles.error,
        styles.slot(Scoped::Warning) == styles.warning,
{
}

proof fn lemma_not_prefix(rule: Seq<char>, scope: Seq<char>, k: int)
    requires
        0 <= k < rule.len(),
        k < scope.len() ==> rule[k] != scope[k],
    ensures
        !scope_prefix(rule, scope),
{
    if scope_prefix(rule, scope) {
        assert(scope.take(rule.len() as int)[k] == scope[k]);
    }
}

/// A rule that starts with another letter does not apply.
proof fn lemma_other_letters(scope: Seq<char>)
    requires
        scope.len() > 0,
    ensures
        scope_rules().len() == 32,
        scope[0] != 'p' ==> !scope_prefix("punctuation.definition.comment"@, scope),
        scope[0] != 'p' ==> !scope_prefix("punctuation.definition.string"@, scope),
        scope[0] != 'c' ==> !scope_prefix("comment"@, scope),
        scope[0] != 'k' ==> !scope_prefix("keyword.control.import"@, scope),
        scope[0] != 'k' ==> !scope_prefix("keyword.control.export"@, scope),
        scope[0] != 'k' ==> !scope_prefix("keyword.operator"@, scope),
        scope[0] != 'k' ==> !scope_prefix("keyword"@, scope),
        scope[0] != 's' ==> !scope_prefix("storage.modifier"@, scope),
        scope[0] != 's' ==> !scope_prefix("storage.type"@, scope),
        scope[0] != 's' ==> !scope_prefix("storage"@, scope),
        scope[0] != 'c' ==> !scope_prefix("constant.numeric"@, scope),
        scope[0] != 'c' ==> !scope_prefix("constant.language"@, scope),
        scope[0] != 'c' ==> !scope_prefix("constant.character.escape"@, scope),
        scope[0] != 'c' ==> !scope_prefix("constant"@, scope),
        scope[0] != 's' ==> !scope_prefix("string"@, scope),
        scope[0] != 'e' ==> !scope_prefix("entity.name.function"@, scope),
        scope[0] != 'e' ==> !scope_prefix("entity.name.tag"@, scope),
        scope[0] != 'e' ==> !scope_prefix("entity.name.type"@, scope),
        scope[0] != 'e' ==> !scope_prefix("entity.name"@, scope),
        scope[0] != 'e' ==> !scope_prefix("entity.other.attribute-name"@, scope),
        scope[0] != 's' ==> !scope_prefix("support.function.builtin"@, scope),
        scope[0] != 's' ==> !scope_prefix("support.function"@, scope),
        scope[0] != 's' ==> !scope_prefix("support.type"@, scope),
        scope[0] != 's' ==> !scope_prefix("support.class"@, scope),
        scope[0] != 's' ==> !scope_prefix("support.constant"@, scope),
        scope[0] != 'v' ==> !scope_prefix("variable.language"@, scope),
        scope[0] != 'v' ==> !scope_prefix("variable.function"@, scope),
        scope[0] != 'v' ==> !scope_prefix("variable.parameter"@, scope),
        scope[0] != 'v' ==> !scope_prefix("variable"@, scope),
        scope[0] != 'p' ==> !scope_prefix("punctuation"@, scope),
        scope[0] != 'm' ==> !scope_prefix("meta.annotation"@, scope),
        scope[0] != 'i' ==> !scope_prefix("invalid"@, scope),
{
    reveal_strlit("punctuation.definition.comment");
    if scope[0] != 'p' {
        lemma_not_prefix("punctuation.definition.comment"@, scope, 0);
    }
    reveal_strlit("punctuation.definition.string");
    if scope[0] != 'p' {
        lemma_not_prefix("punctuation.definition.string"@, scope, 0);
    }
    reveal_strlit("comment");
    if scope[0] != 'c' {
        lemma_not_prefix("comment"@, scope, 0);
    }
    reveal_strlit("keyword.control.import");
    if scope[0] != 'k' {
        lemma_not_prefix("keyword.control.import"@, scope, 0);
    }
    reveal_strlit("keyword.control.export");
    if scope[0] != 'k' {
        lemma_not_prefix("keyword.control.export"@, scope, 0);
    }
    reveal_strlit("keyword.operator");
    if scope[0] != 'k' {
        lemma_not_prefix("keyword.operator"@, scope, 0);
    }
    reveal_strlit("keyword");
    if scope[0] != 'k' {
        lemma_not_prefix("keyword"@, scope, 0);
    }
    reveal_strlit("storage.modifier");
    if scope[0] != 's' {
        lemma_not_prefix("storage.modifier"@, scope, 0);
    }
    reveal_strlit("storage.type");
    if scope[0] != 's' {
        lemma_not_prefix("storage.type"@, scope, 0);
    }
    reveal_strlit("storage");
    if scope[0] != 's' {
        lemma_not_prefix("storage"@, scope, 0);
    }
    reveal_strlit("constant.numeric");
    if scope[0] != 'c' {
        lemma_not_prefix("constant.numeric"@, scope, 0);
    }
    reveal_strlit("constant.language");
    if scope[0] != 'c' {
        lemma_not_prefix("constant.language"@, scope, 0);
    }
    reveal_strlit("constant.character.escape");
    if scope[0] != 'c' {
        lemma_not_prefix("constant.character.escape"@, scope, 0);
    }
    reveal_strlit("constant");
    if scope[0] != 'c' {
        lemma_not_prefix("constant"@, scope, 0);
    }
    reveal_strlit("string");
    if scope[0] != 's' {
        lemma_not_prefix("string"@, scope, 0);
    }
    reveal_strlit("entity.name.function");
    if scope[0] != 'e' {
        lemma_not_prefix("entity.name.function"@, scope, 0);
    }
    reveal_strlit("entity.name.tag");
    if scope[0] != 'e' {
        lemma_not_prefix("entity.name.tag"@, scope, 0);
    }
    reveal_strlit("entity.name.type");
    if scope[0] != 'e' {
        lemma_not_prefix("entity.name.type"@, scope, 0);
    }
    reveal_strlit("entity.name");
    if scope[0] != 'e' {
        lemma_not_prefix("entity.name"@, scope, 0);
    }
    reveal_strlit("entity.other.attribute-name");
    if scope[0] != 'e' {
        lemma_not_prefix("entity.other.attribute-name"@, scope, 0);
    }
    reveal_strlit("support.function.builtin");
    if scope[0] != 's' {
        lemma_not_prefix("support.function.builtin"@, scope, 0);
    }
    reveal_strlit("support.function");
    if scope[0] != 's' {
        lemma_not_prefix("support.function"@, scope, 0);
    }
    reveal_strlit("support.type");
    if scope[0] != 's' {
        lemma_not_prefix("support.type"@, scope, 0);
    }
    reveal_strlit("support.class");
    if scope[0] != 's' {
        lemma_not_prefix("support.class"@, scope, 0);
    }
    reveal_strlit("support.constant");
    if scope[0] != 's' {
        lemma_not_prefix("support.constant"@, scope, 0);
    }
    reveal_strlit("variable.language");
    if scope[0] != 'v' {
        lemma_not_prefix("variable.language"@, scope, 0);
    }
    reveal_strlit("variable.function");
    if scope[0] != 'v' {
        lemma_not_prefix("variable.function"@, scope, 0);
    }
    reveal_strlit("variable.parameter");
    if scope[0] != 'v' {
        lemma_not_prefix("variable.parameter"@, scope, 0);
    }
    reveal_strlit("variable");
    if scope[0] != 'v' {
        lemma_not_prefix("variable"@, scope, 0);
    }
    reveal_strlit("punctuation");
    if scope[0] != 'p' {
        lemma_not_prefix("punctuation"@, scope, 0);
    }
    reveal_strlit("meta.annotation");
    if scope[0] != 'm' {
        lemma_not_prefix("meta.annotation"@, scope, 0);
    }
    reveal_strlit("invalid");
    if scope[0] != 'i' {
        lemma_not_prefix("invalid"@, scope, 0);
    }
}

/// The first rule that applies decides.
proof fn lemma_rule_applies(scope: Seq<char>, i: int)
    requires
        0 <= i < scope_rules().len(),
        scope == scope_rules()[i].0,
        forall|j: int| 0 <= j < i ==> !scope_prefix((#[trigger] scope_rules()[j]).0, scope),
    ensures
        slot_from(scope, 0) == Some(scope_rules()[i].1),
{
    assert(scope.take(scope.len() as int) =~= scope);
    lemma_rule_from(scope, i, 0);
}

proof fn lemma_rule_from(scope: Seq<char>, i: int, from: int)
    requires
        0 <= from <= i < scope_rules().len(),
        scope_prefix(scope_rules()[i].0, scope),
        forall|j: int| 0 <= j < i ==> !scope_prefix((#[trigger] scope_rules()[j]).0, scope),
    ensures
        slot_from(scope, from) == Some(scope_rules()[i].1),
    decreases i - from,
{
    if from < i {
        assert(!scope_prefix(scope_rules()[from].0, scope));
        lemma_rule_from(scope, i, from + 1);
    }
}

/// What comments, keywords, operators and storage words are coloured as.
pub proof fn law_comments_and_keywords_are_colored_so()
    ensures
        slot_from("punctuation.definition.comment"@, 0) == Some(Scoped::Comment),
        slot_from("comment"@, 0) == Some(Scoped::Comment),
        slot_from("keyword.control.import"@, 0) == Some(Scoped::KeywordUpright),
        slot_from("keyword.control.export"@, 0) == Some(Scoped::KeywordUpright),
        slot_from("keyword.operator"@, 0) == Some(Scoped::Operator),
        slot_from("keyword"@, 0) == Some(Scoped::Keyword),
        slot_from("storage.modifier"@, 0) == Some(Scoped::Keyword),
        slot_from("storage.type"@, 0) == Some(Scoped::Keyword),
        slot_from("storage"@, 0) == Some(Scoped::Keyword),
{
    assert(slot_from("punctuation.definition.comment"@, 0) == Some(Scoped::Comment)) by {
        reveal_strlit("punctuation.definition.comment");
        lemma_other_letters("punctuation.definition.comment"@);
        lemma_rule_applies("punctuation.definition.comment"@, 0);
    }
    assert(slot_from("comment"@, 0) == Some(Scoped::Comment)) by {
        reveal_strlit("comment");
        lemma_other_letters("comment"@);
        lemma_rule_applies("comment"@, 2);
    }
    assert(slot_from("keyword.control.import"@, 0) == Some(Scoped::KeywordUpright)) by {
        reveal_strlit("keyword.control.import");
        lemma_other_letters("keyword.control.import"@);
        lemma_rule_applies("keyword.control.import"@, 3);
    }
    assert(slot_from("keyword.control.export"@, 0) == Some(Scoped::KeywordUpright)) by {
        reveal_strlit("keyword.control.export");
        lemma_other_letters("keyword.control.export"@);
        reveal_strlit("keyword.control.import");
        lemma_not_prefix("keyword.control.import"@, "keyword.control.export"@, 16);
        lemma_rule_applies("keyword.control.export"@, 4);
    }
    assert(slot_from("keyword.operator"@, 0) == Some(Scoped::Operator)) by {
        reveal_strlit("keyword.operator");
        lemma_other_letters("keyword.operator"@);
        reveal_strlit("keyword.control.import");
        lemma_not_prefix("keyword.control.import"@, "keyword.operator"@, 8);
        reveal_strlit("keyword.control.export");
        lemma_not_prefix("keyword.control.export"@, "keyword.operator"@, 8);
        lemma_rule_applies("keyword.operator"@, 5);
    }
    assert(slot_from("keyword"@, 0) == Some(Scoped::Keyword)) by {
        reveal_strlit("keyword");
        lemma_other_letters("keyword"@);
        reveal_strlit("keyword.control.import");
        lemma_not_prefix("keyword.control.import"@, "keyword"@, 7);
        reveal_strlit("keyword.control.export");
        lemma_not_prefix("keyword.control.export"@, "keyword"@, 7);
        reveal_strlit("keyword.operator");
        lemma_not_prefix("keyword.operator"@, "keyword"@, 7);
        lemma_rule_applies("keyword"@, 6);
    }
    assert(slot_from("storage.modifier"@, 0) == Some(Scoped::Keyword)) by {
        reveal_strlit("storage.modifier");
        lemma_other_letters("storage.modifier"@);
        lemma_rule_applies("storage.modifier"@, 7);
    }
    assert(slot_from("storage.type"@, 0) == Some(Scoped::Keyword)) by {
        reveal_strlit("storage.type");
        lemma_other_letters("storage.type"@);
        reveal_strlit("storage.modifier");
        lemma_not_prefix("storage.modifier"@, "storage.type"@, 8);
        lemma_rule_applies("storage.type"@, 8);
    }
    assert(slot_from("storage"@, 0) == Some(Scoped::Keyword)) by {
        reveal_strlit("storage");
        lemma_other_letters("storage"@);
        reveal_strlit("storage.modifier");
        lemma_not_prefix("storage.modifier"@, "storage"@, 7);
        reveal_strlit("storage.type");
        lemma_not_prefix("storage.type"@, "storage"@, 7);
        lemma_rule_applies("storage"@, 9);
    }
}

/// What strings, numbers and other constants are coloured as.
pub proof fn law_values_are_colored_so()
    ensures
        slot_from("punctuation.definition.string"@, 0) == Some(Scoped::Text),
        slot_from("constant.numeric"@, 0) == Some(Scoped::Number),
        slot_from("constant.language"@, 0) == Some(Scoped::Keyword),
        slot_from("constant.character.escape"@, 0) == Some(Scoped::Text),
        slot_from("constant"@, 0) == Some(Scoped::Variable),
        slot_from("string"@, 0) == Some(Scoped::Text),
{
    assert(slot_from("punctuation.definition.string"@, 0) == Some(Scoped::Text)) by {
        reveal_strlit("punctuation.definition.string");
        lemma_other_letters("punctuation.definition.string"@);
        reveal_strlit("punctuation.definition.comment");
        lemma_not_prefix("punctuation.definition.comment"@, "punctuation.definition.string"@, 23);
        lemma_rule_applies("punctuation.definition.string"@, 1);
    }
    assert(slot_from("constant.numeric"@, 0) == Some(Scoped::Number)) by {
        reveal_strlit("constant.numeric");
        lemma_other_letters("constant.numeric"@);
        reveal_strlit("comment");
        lemma_not_prefix("comment"@, "constant.numeric"@, 2);
        lemma_rule_applies("constant.numeric"@, 10);
    }
    assert(slot_from("constant.language"@, 0) == Some(Scoped::Keyword)) by {
        reveal_strlit("constant.language");
        lemma_other_letters("constant.language"@);
        reveal_strlit("comment");
        lemma_not_prefix("comment"@, "constant.language"@, 2);
        reveal_strlit("constant.numeric");
        lemma_not_prefix("constant.numeric"@, "constant.language"@, 9);
        lemma_rule_applies("constant.language"@, 11);
    }
    assert(slot_from("constant.character.escape"@, 0) == Some(Scoped::Text)) by {
        reveal_strlit("constant.character.escape");
        lemma_other_letters("constant.character.escape"@);
        reveal_strlit("comment");
        lemma_not_prefix("comment"@, "constant.character.escape"@, 2);
        reveal_strlit("constant.numeric");
        lemma_not_prefix("constant.numeric"@, "constant.character.escape"@, 9);
        reveal_strlit("constant.language");
        lemma_not_prefix("constant.language"@, "constant.character.escape"@, 9);
        lemma_rule_applies("constant.character.escape"@, 12);
    }
    assert(slot_from("constant"@, 0) == Some(Scoped::Variable)) by {
        reveal_strlit("constant");
        lemma_other_letters("constant"@);
        reveal_strlit("comment");
        lemma_not_prefix("comment"@, "constant"@, 2);
        reveal_strlit("constant.numeric");
        lemma_not_prefix("constant.numeric"@, "constant"@, 8);
        reveal_strlit("constant.language");
        lemma_not_prefix("constant.language"@, "constant"@, 8);
        reveal_strlit("constant.character.escape");
        lemma_not_prefix("constant.character.escape"@, "constant"@, 8);
        lemma_rule_applies("constant"@, 13);
    }
    assert(slot_from("string"@, 0) == Some(Scoped::Text)) by {
        reveal_strlit("string");
        lemma_other_letters("string"@);
        reveal_strlit("storage.modifier");
        lemma_not_prefix("storage.modifier"@, "string"@, 2);
        reveal_strlit("storage.type");
        lemma_not_prefix("storage.type"@, "string"@, 2);
        reveal_strlit("storage");
        lemma_not_prefix("storage"@, "string"@, 2);
        lemma_rule_applies("string"@, 14);
    }
}

/// What names are coloured as.
pub proof fn law_names_are_colored_so()
    ensures
        slot_from("entity.name.function"@, 0) == Some(Scoped::Function),
        slot_from("entity.name.tag"@, 0) == Some(Scoped::Error),
        slot_from("entity.name.type"@, 0) == Some(Scoped::Type),
        slot_from("entity.name"@, 0) == Some(Scoped::Type),
        slot_from("entity.other.attribute-name"@, 0) == Some(Scoped::Warning),
        slot_from("variable.language"@, 0) == Some(Scoped::Error),
        slot_from("variable.function"@, 0) == Some(Scoped::Function),
        slot_from("variable.parameter"@, 0) == Some(Scoped::Variable),
        slot_from("variable"@, 0) == Some(Scoped::Variable),
{
    assert(slot_from("entity.name.function"@, 0) == Some(Scoped::Function)) by {
        reveal_strlit("entity.name.function");
        lemma_other_letters("entity.name.function"@);
        lemma_rule_applies("entity.name.function"@, 15);
    }
    assert(slot_from("entity.name.tag"@, 0) == Some(Scoped::Error)) by {
        reveal_strlit("entity.name.tag");
        lemma_other_letters("entity.name.tag"@);
        reveal_strlit("entity.name.function");
        lemma_not_prefix("entity.name.function"@, "entity.name.tag"@, 12);
        lemma_rule_applies("entity.name.tag"@, 16);
    }
    assert(slot_from("entity.name.type"@, 0) == Some(Scoped::Type)) by {
        reveal_strlit("entity.name.type");
        lemma_other_letters("entity.name.type"@);
        reveal_strlit("entity.name.function");
        lemma_not_prefix("entity.name.function"@, "entity.name.type"@, 12);
        reveal_strlit("entity.name.tag");
        lemma_not_prefix("entity.name.tag"@, "entity.name.type"@, 13);
        lemma_rule_applies("entity.name.type"@, 17);
    }
    assert(slot_from("entity.name"@, 0) == Some(Scoped::Type)) by {
        reveal_strlit("entity.name");
        lemma_other_letters("entity.name"@);
        reveal_strlit("entity.name.function");
        lemma_not_prefix("entity.name.function"@, "entity.name"@, 11);
        reveal_strlit("entity.name.tag");
        lemma_not_prefix("entity.name.tag"@, "entity.name"@, 11);
        reveal_strlit("entity.name.type");
        lemma_not_prefix("entity.name.type"@, "entity.name"@, 11);
        lemma_rule_applies("entity.name"@, 18);
    }
    assert(slot_from("entity.other.attribute-name"@, 0) == Some(Scoped::Warning)) by {
        reveal_strlit("entity.other.attribute-name");
        lemma_other_letters("entity.other.attribute-name"@);
        reveal_strlit("entity.name.function");
        lemma_not_prefix("entity.name.function"@, "entity.other.attribute-name"@, 7);
        reveal_strlit("entity.name.tag");
        lemma_not_prefix("entity.name.tag"@, "entity.other.attribute-name"@, 7);
        reveal_strlit("entity.name.type");
        lemma_not_prefix("entity.name.type"@, "entity.other.attribute-name"@, 7);
        reveal_strlit("entity.name");
        lemma_not_prefix("entity.name"@, "entity.other.attribute-name"@, 7);
        lemma_rule_applies("entity.other.attribute-name"@, 19);
    }
    assert(slot_from("variable.language"@, 0) == Some(Scoped::Error)) by {
        reveal_strlit("variable.language");
        lemma_other_letters("variable.language"@);
        lemma_rule_applies("variable.language"@, 25);
    }
    assert(slot_from("variable.function"@, 0) == Some(Scoped::Function)) by {
        reveal_strlit("variable.function");
        lemma_other_letters("variable.function"@);
        reveal_strlit("variable.language");
        lemma_not_prefix("variable.language"@, "variable.function"@, 9);
        lemma_rule_applies("variable.function"@, 26);
    }
    assert(slot_from("variable.parameter"@, 0) == Some(Scoped::Variable)) by {
        reveal_strlit("variable.parameter");
        lemma_other_letters("variable.parameter"@);
        reveal_strlit("variable.language");
        lemma_not_prefix("variable.language"@, "variable.parameter"@, 9);
        reveal_strlit("variable.function");
        lemma_not_prefix("variable.function"@, "variable.parameter"@, 9);
        lemma_rule_applies("variable.parameter"@, 27);
    }
    assert(slot_from("variable"@, 0) == Some(Scoped::Variable)) by {
        reveal_strlit("variable");
        lemma_other_letters("variable"@);
        reveal_strlit("variable.language");
        lemma_not_prefix("variable.language"@, "variable"@, 8);
        reveal_strlit("variable.function");
        lemma_not_prefix("variable.function"@, "variable"@, 8);
        reveal_strlit("variable.parameter");
        lemma_not_prefix("variable.parameter"@, "variable"@, 8);
        lemma_rule_applies("variable"@, 28);
    }
}

/// What built-in names, punctuation and what does not belong are coloured as.
pub proof fn law_the_rest_is_colored_so()
    ensures
        slot_from("support.function.builtin"@, 0) == Some(Scoped::Error),
        slot_from("support.function"@, 0) == Some(Scoped::Function),
        slot_from("support.type"@, 0) == Some(Scoped::Type),
        slot_from("support.class"@, 0) == Some(Scoped::Type),
        slot_from("support.constant"@, 0) == Some(Scoped::Variable),
        slot_from("punctuation"@, 0) == Some(Scoped::Punctuation),
        slot_from("meta.annotation"@, 0) == Some(Scoped::Warning),
        slot_from("invalid"@, 0) == Some(Scoped::Error),
{
    assert(slot_from("support.function.builtin"@, 0) == Some(Scoped::Error)) by {
        reveal_strlit("support.function.builtin");
        lemma_other_letters("support.function.builtin"@);
        reveal_strlit("storage.modifier");
        lemma_not_prefix("storage.modifier"@, "support.function.builtin"@, 1);
        reveal_strlit("storage.type");
        lemma_not_prefix("storage.type"@, "support.function.builtin"@, 1);
        reveal_strlit("storage");
        lemma_not_prefix("storage"@, "support.function.builtin"@, 1);
        reveal_strlit("string");
        lemma_not_prefix("string"@, "support.function.builtin"@, 1);
        lemma_rule_applies("support.function.builtin"@, 20);
    }
    assert(slot_from("support.function"@, 0) == Some(Scoped::Function)) by {
        reveal_strlit("support.function");
        lemma_other_letters("support.function"@);
        reveal_strlit("storage.modifier");
        lemma_not_prefix("storage.modifier"@, "support.function"@, 1);
        reveal_strlit("storage.type");
        lemma_not_prefix("storage.type"@, "support.function"@, 1);
        reveal_strlit("storage");
        lemma_not_prefix("storage"@, "support.function"@, 1);
        reveal_strlit("string");
        lemma_not_prefix("string"@, "support.function"@, 1);
        reveal_strlit("support.function.builtin");
        lemma_not_prefix("support.function.builtin"@, "support.function"@, 16);
        lemma_rule_applies("support.function"@, 21);
    }
    assert(slot_from("support.type"@, 0) == Some(Scoped::Type)) by {
        reveal_strlit("support.type");
        lemma_other_letters("support.type"@);
        reveal_strlit("storage.modifier");
        lemma_not_prefix("storage.modifier"@, "support.type"@, 1);
        reveal_strlit("storage.type");
        lemma_not_prefix("storage.type"@, "support.type"@, 1);
        reveal_strlit("storage");
        lemma_not_prefix("storage"@, "support.type"@, 1);
        reveal_strlit("string");
        lemma_not_prefix("string"@, "support.type"@, 1);
        reveal_strlit("support.function.builtin");
        lemma_not_prefix("support.function.builtin"@, "support.type"@, 8);
        reveal_strlit("support.function");
        lemma_not_prefix("support.function"@, "support.type"@, 8);
        lemma_rule_applies("support.type"@, 22);
    }
    assert(slot_from("support.class"@, 0) == Some(Scoped::Type)) by {
        reveal_strlit("support.class");
        lemma_other_letters("support.class"@);
        reveal_strlit("storage.modifier");
        lemma_not_prefix("storage.modifier"@, "support.class"@, 1);
        reveal_strlit("storage.type");
        lemma_not_prefix("storage.type"@, "support.class"@, 1);
        reveal_strlit("storage");
        lemma_not_prefix("storage"@, "support.class"@, 1);
        reveal_strlit("string");
        lemma_not_prefix("string"@, "support.class"@, 1);
        reveal_strlit("support.function.builtin");
        lemma_not_prefix("support.function.builtin"@, "support.class"@, 8);
        reveal_strlit("support.function");
        lemma_not_prefix("support.function"@, "support.class"@, 8);
        reveal_strlit("support.type");
        lemma_not_prefix("support.type"@, "support.class"@, 8);
        lemma_rule_applies("support.class"@, 23);
    }
    assert(slot_from("support.constant"@, 0) == Some(Scoped::Variable)) by {
        reveal_strlit("support.constant");
        lemma_other_letters("support.constant"@);
        reveal_strlit("storage.modifier");
        lemma_not_prefix("storage.modifier"@, "support.constant"@, 1);
        reveal_strlit("storage.type");
        lemma_not_prefix("storage.type"@, "support.constant"@, 1);
        reveal_strlit("storage");
        lemma_not_prefix("storage"@, "support.constant"@, 1);
        reveal_strlit("string");
        lemma_not_prefix("string"@, "support.constant"@, 1);
        reveal_strlit("support.function.builtin");
        lemma_not_prefix("support.function.builtin"@, "support.constant"@, 8);
        reveal_strlit("support.function");
        lemma_not_prefix("support.function"@, "support.constant"@, 8);
        reveal_strlit("support.type");
        lemma_not_prefix("support.type"@, "support.constant"@, 8);
        reveal_strlit("support.class");
        lemma_not_prefix("support.class"@, "support.constant"@, 9);
        lemma_rule_applies("support.constant"@, 24);
    }
    assert(slot_from("punctuation"@, 0) == Some(Scoped::Punctuation)) by {
        reveal_strlit("punctuation");
        lemma_other_letters("punctuation"@);
        reveal_strlit("punctuation.definition.comment");
        lemma_not_prefix("punctuation.definition.comment"@, "punctuation"@, 11);
        reveal_strlit("punctuation.definition.string");
        lemma_not_prefix("punctuation.definition.string"@, "punctuation"@, 11);
        lemma_rule_applies("punctuation"@, 29);
    }
    assert(slot_from("meta.annotation"@, 0) == Some(Scoped::Warning)) by {
        reveal_strlit("meta.annotation");
        lemma_other_letters("meta.annotation"@);
        lemma_rule_applies("meta.annotation"@, 30);
    }
    assert(slot_from("invalid"@, 0) == Some(Scoped::Error)) by {
        reveal_strlit("invalid");
        lemma_other_letters("invalid"@);
        lemma_rule_applies("invalid"@, 31);
    }
}

/// The innermost scope that a rule applies to decides how a token is drawn, and
/// where none does it is drawn as code.
pub proof fn law_the_innermost_scope_decides(
    scopes: Seq<Seq<char>>,
    scope: Seq<char>,
    styles: Styles,
)
    ensures
        slot_from(scope, 0) matches Some(slot) ==> scope_style(scopes.push(scope), styles)
            == styles.slot(slot),
        slot_from(scope, 0) is None ==> scope_style(scopes.push(scope), styles) == scope_style(
            scopes,
            styles,
        ),
        scope_style(Seq::empty(), styles) == styles.code,
{
    assert(scopes.push(scope).drop_last() =~= scopes);
}

/// A rule applies to its own scope and to those below it, and to no other that
/// only begins alike.
pub proof fn law_a_rule_reaches_below_its_scope(rule: Seq<char>, rest: Seq<char>, c: char)
    requires
        c != '.',
    ensures
        scope_prefix(rule, rule),
        scope_prefix(rule, rule + seq!['.'] + rest),
        !scope_prefix(rule, rule + seq![c] + rest),
{
    assert(rule.take(rule.len() as int) =~= rule);
    let below = rule + seq!['.'] + rest;
    assert(below.take(rule.len() as int) =~= rule);
    let other = rule + seq![c] + rest;
    assert(other[rule.len() as int] == c);
}

/// What the tokens of a line read as, put together.
pub open spec fn tokens_text(regions: Seq<RegionView>) -> Seq<char>
    decreases regions.len(),
{
    if regions.len() == 0 {
        Seq::empty()
    } else {
        tokens_text(regions.drop_last()) + regions.last().text
    }
}

/// Colouring changes no text: the spans of a line of code read as its tokens
/// do, whatever their scopes.
pub proof fn law_colors_change_no_text(regions: Seq<RegionView>, styles: Styles)
    requires
        forall|i: int|
            0 <= i < regions.len() ==> ((#[trigger] regions[i]).text.len() > 0
                ==> regions[i].text.last() != '\n'),
    ensures
        style::text_of(token_spans(regions, styles)) == tokens_text(regions),
    decreases regions.len(),
{
    if regions.len() > 0 {
        let front = regions.drop_last();
        assert forall|i: int| 0 <= i < front.len() && (#[trigger] front[i]).text.len() > 0 implies
            front[i].text.last() != '\n' by {
            assert(front[i] == regions[i]);
        }
        law_colors_change_no_text(front, styles);
        let last = regions[regions.len() - 1];
        assert(text::trim_end_of(last.text, '\n') == last.text);
        let spans = token_spans(front, styles);
        if last.text.len() == 0 {
            assert(tokens_text(front) + last.text =~= tokens_text(front));
        } else {
            let span = SpanView { text: last.text, style: scope_style(last.scopes, styles) };
            assert(spans.push(span).drop_last() =~= spans);
        }
    } else {
        assert(style::text_of(token_spans(regions, styles)) =~= tokens_text(regions));
    }
}

/// Code that no grammar reads is drawn line by line in one style: the lines,
/// joined again, are the code without the line breaks at its end.
pub proof fn law_plain_code_is_drawn_line_by_line(text: Seq<char>, style: Style, kind: LineKind)
    ensures
        flat_lines(text, style, kind).len() == text::split(
            text::trim_end_of(text, '\n'),
            '\n',
        ).len(),
        text::joined(
            Seq::new(
                flat_lines(text, style, kind).len(),
                |i: int| style::text_of(flat_lines(text, style, kind)[i].spans),
            ),
            seq!['\n'],
        ) == text::trim_end_of(text, '\n'),
        forall|i: int|
            0 <= i < flat_lines(text, style, kind).len() ==> {
                let line = #[trigger] flat_lines(text, style, kind)[i];
                line.kind == kind && line.prefix.len() == 0 && line.hang == 0 && line.spans.len()
                    == 1 && line.spans[0].style == style
            },
{
    let whole = text::trim_end_of(text, '\n');
    let pieces = text::split(whole, '\n');
    let lines = flat_lines(text, style, kind);
    text::law_split_pieces_join_again(whole, '\n');
    assert forall|i: int| 0 <= i < lines.len() implies style::text_of(#[trigger] lines[i].spans)
        == pieces[i] by {
        let span = SpanView { text: pieces[i], style };
        assert(lines[i].spans == seq![span]);
        assert(seq![span].drop_last() =~= Seq::empty());
        assert(style::text_of(Seq::<SpanView>::empty()) =~= Seq::<char>::empty());
        assert(style::text_of(seq![span]) =~= pieces[i]);
    }
    assert(Seq::new(lines.len(), |i: int| style::text_of(lines[i].spans)) =~= pieces);
}

/// Other names for a grammar.
pub proof fn law_languages_have_other_names(info: Seq<char>)
    ensures
        code::lowercase(text::trim(info)) == "udiff"@ ==> language(info) == Some("diff"@),
        code::lowercase(text::trim(info)) == "patch"@ ==> language(info) == Some("diff"@),
        code::lowercase(text::trim(info)) == "makefile"@ ==> language(info) == Some("make"@),
        code::lowercase(text::trim(info)) == "rust"@ ==> language(info) == Some("rust"@),
        code::lowercase(text::trim(info)) == Seq::<char>::empty() ==> language(info) is None,
{
    reveal_strlit("udiff");
    reveal_strlit("patch");
    reveal_strlit("makefile");
    reveal_strlit("rust");
    assert("udiff"@[0] == 'u' && "patch"@[0] == 'p' && "makefile"@[0] == 'm' && "rust"@[0] == 'r');
}

/// The inline state with a text behind what stands on its last line.
pub open spec fn spoken(state: Inline, text: Seq<char>, style: Style) -> Inline {
    Inline {
        lines: state.lines.drop_last().push(
            state.lines.last().push(SpanView { text, style }),
        ),
        ..state
    }
}

/// A text of one line is one span on the last line.
proof fn lemma_one_span(lines: Seq<Seq<SpanView>>, text: Seq<char>, style: Style)
    requires
        text.len() > 0,
        forall|i: int| 0 <= i < text.len() ==> text[i] != '\n',
    ensures
        walk::with_text(lines, text, style) == walk::with_span(lines, SpanView { text, style }),
{
    text::lemma_first_of_unique(text, '\n', text.len() as int);
    let pieces = text::split(text, '\n');
    assert(pieces == seq![text]);
    reveal_with_fuel(walk::with_pieces, 2);
}

/// What is emphasised is italic, what is strong is bold, what is struck is
/// crossed out and what is code is in the style of code; what comes behind is as
/// it was before.
pub proof fn law_emphasis_ends_where_it_ends(
    styles: Styles,
    body: Style,
    state: Inline,
    text: EventView,
    open: EventView,
    close: EventView,
)
    requires
        text.text.len() > 0,
        forall|i: int| 0 <= i < text.text.len() ==> text.text[i] != '\n',
        text.mark == Mark::Text,
    ensures
        ({
            let after = walk::inline_step(
                styles,
                body,
                close,
                walk::inline_step(
                    styles,
                    body,
                    text,
                    walk::inline_step(styles, body, open, state),
                ),
            );
            &&& open.mark == Mark::Open(Tag::Emphasis) && close.mark == Mark::Close(Tag::Emphasis)
                ==> after == spoken(state, text.text, Style { italic: true, ..styles.emph })
            &&& open.mark == Mark::Open(Tag::Strong) && close.mark == Mark::Close(Tag::Strong)
                ==> after == spoken(state, text.text, Style { bold: true, ..styles.strong })
            &&& open.mark == Mark::Open(Tag::Strikethrough) && close.mark == Mark::Close(
                Tag::Strikethrough,
            ) ==> after == spoken(state, text.text, Style { crossed_out: true, ..styles.muted })
        }),
        walk::inline_step(styles, body, text, state) == spoken(state, text.text, state.style),
        walk::inline_step(styles, body, EventView { mark: Mark::Code, ..text }, state) == spoken(
            state,
            text.text,
            styles.code,
        ),
{
    lemma_one_span(state.lines, text.text, state.style);
    lemma_one_span(state.lines, text.text, styles.code);
    lemma_one_span(state.lines, text.text, styles.emph.as_italic());
    lemma_one_span(state.lines, text.text, styles.strong.as_bold());
    lemma_one_span(state.lines, text.text, styles.muted.as_crossed_out());
    let stack = state.stack.push(state.style);
    assert(stack.drop_last() =~= state.stack);
}

/// A link reads its label, underlined, and behind it where it leads, in
/// parentheses; one whose label is where it leads says it once.
pub proof fn law_a_link_says_where_it_leads(
    styles: Styles,
    body: Style,
    state: Inline,
    url: Seq<char>,
    text: EventView,
    open: EventView,
    close: EventView,
)
    requires
        state.lines.len() > 0,
        text.text.len() > 0,
        forall|i: int| 0 <= i < text.text.len() ==> text.text[i] != '\n',
        text.mark == Mark::Text,
        open.mark == Mark::Open(Tag::Link) && close.mark == Mark::Close(Tag::Link) || open.mark
            == Mark::Open(Tag::Image) && close.mark == Mark::Close(Tag::Image),
        open.text == url,
        state.link is None,
    ensures
        ({
            let after = walk::inline_step(
                styles,
                body,
                close,
                walk::inline_step(
                    styles,
                    body,
                    text,
                    walk::inline_step(styles, body, open, state),
                ),
            );
            let labelled = spoken(state, text.text, Style { underlined: true, ..styles.link_text });
            &&& text.text == url ==> after == labelled
            &&& text.text != url ==> after == spoken(
                labelled,
                seq![' ', '('] + url + seq![')'],
                Style { underlined: true, ..styles.link },
            )
        }),
{
    reveal_strlit(" (");
    assert(" ("@ =~= seq![' ', '(']);
    let style = styles.link_text.as_underlined();
    lemma_one_span(state.lines, text.text, style);
    let stack = state.stack.push(state.style);
    assert(stack.drop_last() =~= state.stack);
    let line = state.lines.last();
    let span = SpanView { text: text.text, style };
    let lines = state.lines.drop_last().push(line.push(span));
    assert(lines.last() == line.push(span));
    let rest = line.push(span).skip(line.len() as int);
    assert(rest =~= seq![span]);
    assert(seq![span].drop_last() =~= Seq::empty());
    assert(style::text_of(Seq::<SpanView>::empty()) =~= Seq::<char>::empty());
    assert(style::text_of(seq![span]) =~= text.text);
    assert((" ("@ + url).push(')') =~= seq![' ', '('] + url + seq![')']);
}

/// A heading is bold, and the first level underlined as well.
pub proof fn law_headings_are_bold(styles: Styles, level: Option<u64>)
    ensures
        walk::heading(styles, level).bold,
        level == Some(1u64) ==> walk::heading(styles, level) == (Style {
            bold: true,
            underlined: true,
            ..styles.heading
        }),
        level != Some(1u64) ==> walk::heading(styles, level) == (Style {
            bold: true,
            ..styles.heading
        }),
{
}

/// A quote has its border in front of every line, and nothing else changes.
pub proof fn law_a_quote_has_its_border(lines: Seq<LineView>, styles: Styles, i: int)
    requires
        0 <= i < lines.len(),
    ensures
        walk::quoted(lines, styles).len() == lines.len(),
        walk::quoted(lines, styles)[i].spans == lines[i].spans,
        walk::quoted(lines, styles)[i].hang == lines[i].hang,
        walk::quoted(lines, styles)[i].kind == lines[i].kind,
        walk::quoted(lines, styles)[i].prefix == seq![
            SpanView { text: seq!['\u{258c}'], style: styles.chrome },
            SpanView { text: seq![' '], style: styles.chrome },
        ] + lines[i].prefix,
{
    reveal_strlit("\u{258c}");
    reveal_strlit(" ");
    assert("\u{258c}"@ =~= seq!['\u{258c}']);
    assert(" "@ =~= seq![' ']);
}

/// An item stands behind its marker: its first line begins with it, and every
/// other is indented by as much.
pub proof fn law_an_item_stands_behind_its_marker(
    lines: Seq<LineView>,
    marker: Seq<char>,
    style: Style,
    i: int,
)
    requires
        0 <= i < lines.len(),
        lines[0].hang + width::width_of(marker) <= usize::MAX,
    ensures
        walk::indented(lines, marker, style).len() == lines.len(),
        walk::indented(lines, marker, style)[i].kind == lines[i].kind,
        i == 0 ==> walk::indented(lines, marker, style)[i].spans == seq![
            SpanView { text: marker, style },
        ] + lines[i].spans && walk::indented(lines, marker, style)[i].prefix == lines[i].prefix
            && walk::indented(lines, marker, style)[i].hang == lines[i].hang + width::width_of(
            marker,
        ),
        i > 0 ==> walk::indented(lines, marker, style)[i].spans == lines[i].spans
            && walk::indented(lines, marker, style)[i].hang == lines[i].hang && ({
            let prefix = walk::indented(lines, marker, style)[i].prefix;
            &&& prefix.skip(1) == lines[i].prefix
            &&& prefix[0].text.len() == width::width_of(marker)
            &&& forall|k: int| 0 <= k < prefix[0].text.len() ==> #[trigger] prefix[0].text[k] == ' '
        }),
{
    if i > 0 {
        assert(walk::indented(lines, marker, style)[i].prefix.skip(1) =~= lines[i].prefix);
    }
}

/// A box is ticked where its task is done.
pub proof fn law_a_box_is_ticked_where_done()
    ensures
        walk::checkbox(true) == seq!['[', 'x', ']', ' '],
        walk::checkbox(false) == seq!['[', ' ', ']', ' '],
{
    reveal_strlit("[x] ");
    reveal_strlit("[ ] ");
    assert("[x] "@ =~= seq!['[', 'x', ']', ' ']);
    assert("[ ] "@ =~= seq!['[', ' ', ']', ' ']);
}

/// A numbered item is marked by its number and the delimiter it was written
/// with, the next by the number behind; any other by the bullet it was written
/// with.
pub proof fn law_items_keep_how_they_were_marked(
    c: Context,
    at: int,
    n: u64,
    digits: Seq<char>,
    delimiter: char,
    rest: Seq<char>,
)
    requires
        forall|i: int| 0 <= i < digits.len() ==> text::digit(#[trigger] digits[i]),
        delimiter == '.' || delimiter == ')',
    ensures
        walk::item_text(c, at) == digits + seq![delimiter] + rest ==> walk::item_marker(
            c,
            at,
            Some(n),
        ) == text::decimal(n as nat) + seq![delimiter, ' '],
        walk::item_text(c, at) == seq!['-'] + rest ==> walk::item_marker(c, at, None) == seq![
            '-',
            ' ',
        ],
        walk::item_text(c, at) == seq!['*'] + rest ==> walk::item_marker(c, at, None) == seq![
            '*',
            ' ',
        ],
        walk::item_text(c, at) == seq!['+'] + rest ==> walk::item_marker(c, at, None) == seq![
            '+',
            ' ',
        ],
        n < u64::MAX ==> walk::successor(Some(n)) == Some((n + 1) as u64),
        walk::successor(None) is None,
{
    lemma_delimiter(digits, delimiter, rest);
    assert(text::decimal(n as nat).push(delimiter).push(' ') =~= text::decimal(n as nat) + seq![
        delimiter,
        ' ',
    ]);
}

proof fn lemma_delimiter(digits: Seq<char>, delimiter: char, rest: Seq<char>)
    requires
        forall|i: int| 0 <= i < digits.len() ==> text::digit(#[trigger] digits[i]),
        delimiter == '.' || delimiter == ')',
    ensures
        walk::delimiter(digits + seq![delimiter] + rest) == delimiter,
    decreases digits.len(),
{
    let all = digits + seq![delimiter] + rest;
    if digits.len() > 0 {
        assert(text::digit(digits[0]));
        assert(all[0] == digits[0]);
        let less = digits.skip(1);
        assert forall|i: int| 0 <= i < less.len() implies text::digit(#[trigger] less[i]) by {
            assert(text::digit(digits[i + 1]));
        }
        lemma_delimiter(less, delimiter, rest);
        assert(all.skip(1) =~= less + seq![delimiter] + rest);
    } else {
        assert(all[0] == delimiter);
    }
}

/// A rule fills the width it is drawn at, behind what stands in front of it.
pub proof fn law_a_rule_fills_its_width(line: LineView, width: nat)
    requires
        line.spans.len() > 0,
    ensures
        ({
            let drawn = wrap::rule_line(line, width);
            &&& drawn.drop_last() == line.prefix
            &&& drawn.last().style == line.spans[0].style
            &&& wrap::spans_width(line.prefix) <= width ==> wrap::spans_width(line.prefix)
                + drawn.last().text.len() == width
            &&& wrap::spans_width(line.prefix) > width ==> drawn.last().text.len() == 0
            &&& forall|i: int|
                0 <= i < drawn.last().text.len() ==> #[trigger] drawn.last().text[i] == '\u{2500}'
        }),
{
    assert(wrap::rule_line(line, width).drop_last() =~= line.prefix);
}

/// A line that wraps goes on behind its prefix and as many blanks as it hangs.
pub proof fn law_a_wrapped_line_hangs(line: LineView)
    ensures
        wrap::opening_spans(line, true) == line.prefix,
        line.hang == 0 ==> wrap::opening_spans(line, false) == line.prefix,
        line.hang > 0 ==> wrap::opening_spans(line, false).drop_last() == line.prefix
            && wrap::opening_spans(line, false).last().text.len() == line.hang && (forall|i: int|
            0 <= i < line.hang ==> #[trigger] wrap::opening_spans(line, false).last().text[i]
                == ' '),
{
    if line.hang > 0 {
        assert(wrap::opening_spans(line, false).drop_last() =~= line.prefix);
    }
}

/// Whether no event closes what was never opened, up to the first `n`.
pub open spec fn balanced(events: Seq<EventView>, n: int) -> bool {
    forall|i: int|
        0 <= i < n && (#[trigger] events[i]).mark is Close ==> segmented(events, i).depth > 0
}

/// The blocks of a part stand one behind another from its first event on, none
/// is left out and none belongs to two; while a block is open they reach to
/// where it began.
pub proof fn law_blocks_cover_the_events(events: Seq<EventView>, n: int)
    requires
        0 <= n <= events.len(),
        balanced(events, n),
    ensures
        ({
            let s = segmented(events, n);
            let end = if s.depth == 0 {
                n
            } else {
                s.start
            };
            &&& s.blocks.len() > 0 ==> s.blocks[0].0 == 0 && s.blocks.last().1 == end
            &&& s.blocks.len() == 0 ==> end == 0
            &&& forall|i: int|
                0 < i < s.blocks.len() ==> (#[trigger] s.blocks[i]).0 == s.blocks[i - 1].1
        }),
    decreases n,
{
    if n > 0 {
        assert(balanced(events, n - 1));
        law_blocks_cover_the_events(events, n - 1);
        let before = segmented(events, n - 1);
        if events[n - 1].mark is Close {
            assert(before.depth > 0);
        }
        let after = segmented(events, n);
        assert forall|i: int| 0 < i < after.blocks.len() implies (#[trigger] after.blocks[i]).0
            == after.blocks[i - 1].1 by {
            if i < before.blocks.len() {
                assert(after.blocks[i] == before.blocks[i]);
                assert(after.blocks[i - 1] == before.blocks[i - 1]);
            } else {
                assert(after.blocks[i - 1] == before.blocks.last());
            }
        }
        if before.blocks.len() > 0 {
            assert(after.blocks[0] == before.blocks[0]);
        }
    }
}

/// Whether the event at `at` is a text of one line, alone in what the event
/// behind it closes.
pub open spec fn says(c: Context, at: int, closed: Tag) -> bool {
    &&& 0 <= at
    &&& at + 1 < c.events.len()
    &&& c.events[at].mark == Mark::Text
    &&& c.events[at].text.len() > 0
    &&& forall|i: int| 0 <= i < c.events[at].text.len() ==> c.events[at].text[i] != '\n'
    &&& c.events[at + 1].mark == Mark::Close(closed)
}

/// A line of prose that says one text in one style.
pub open spec fn said(text: Seq<char>, style: Style) -> LineView {
    LineView {
        prefix: Seq::empty(),
        spans: seq![SpanView { text, style }],
        hang: 0,
        kind: LineKind::Flow,
    }
}

/// A text alone is one span on one line.
proof fn lemma_says(c: Context, at: int, closed: Tag, body: Style)
    requires
        says(c, at, closed),
        closed == Tag::Item || closed == Tag::Paragraph || closed == Tag::Heading || closed
            == Tag::TableCell,
    ensures
        walk::inlined(c, body, at, walk::inline_start(body)).1 == at + 1,
        walk::inlined(c, body, at, walk::inline_start(body)).0.lines == seq![
            seq![SpanView { text: c.events[at].text, style: body }],
        ],
        walk::prose(walk::inlined(c, body, at, walk::inline_start(body)).0.lines) == seq![
            said(c.events[at].text, body),
        ],
{
    let start = walk::inline_start(body);
    let text = c.events[at].text;
    lemma_one_span(start.lines, text, body);
    let after = walk::inline_step(c.styles, body, c.events[at], start);
    let span = SpanView { text, style: body };
    assert(start.lines.drop_last() =~= Seq::<Seq<SpanView>>::empty());
    assert(Seq::<SpanView>::empty().push(span) =~= seq![span]);
    assert(after.lines =~= seq![seq![span]]);
    assert(walk::inlined(c, body, at + 1, after) == (after, at + 1));
    assert(walk::inlined(c, body, at, start) == (after, at + 1));
    assert(walk::prose(after.lines) =~= seq![said(text, body)]);
}

/// A heading is one line in the style of headings, and a paragraph one in the
/// style of what stands around it.
pub proof fn law_a_heading_is_drawn_in_its_style(c: Context, body: Style, at: int)
    requires
        0 <= at,
        says(c, at + 1, Tag::Heading) && c.events[at].mark == Mark::Open(Tag::Heading) || says(
            c,
            at + 1,
            Tag::Paragraph,
        ) && c.events[at].mark == Mark::Open(Tag::Paragraph),
    ensures
        walk::block(c, body, at).1 == at + 3,
        c.events[at].mark == Mark::Open(Tag::Heading) ==> walk::block(c, body, at).0 == seq![
            said(c.events[at + 1].text, walk::heading(c.styles, c.events[at].number)),
        ],
        c.events[at].mark == Mark::Open(Tag::Paragraph) ==> walk::block(c, body, at).0 == seq![
            said(c.events[at + 1].text, body),
        ],
{
    if c.events[at].mark == Mark::Open(Tag::Heading) {
        lemma_says(c, at + 1, Tag::Heading, walk::heading(c.styles, c.events[at].number));
    } else {
        lemma_says(c, at + 1, Tag::Paragraph, body);
    }
}

/// A quote is drawn in italics behind its border.
pub proof fn law_a_quote_is_drawn_in_italics(c: Context, body: Style, at: int)
    requires
        0 <= at,
        says(c, at + 2, Tag::Paragraph),
        at + 4 < c.events.len(),
        c.events[at].mark == Mark::Open(Tag::BlockQuote),
        c.events[at + 1].mark == Mark::Open(Tag::Paragraph),
        c.events[at + 4].mark == Mark::Close(Tag::BlockQuote),
    ensures
        walk::block(c, body, at).1 == at + 5,
        walk::block(c, body, at).0.len() == 1,
        walk::block(c, body, at).0[0].spans == seq![
            SpanView {
                text: c.events[at + 2].text,
                style: Style { italic: true, ..c.styles.block_quote },
            },
        ],
        walk::block(c, body, at).0[0].prefix == seq![
            SpanView { text: seq!['\u{258c}'], style: c.styles.chrome },
            SpanView { text: seq![' '], style: c.styles.chrome },
        ],
{
    let style = c.styles.block_quote.as_italic();
    law_a_heading_is_drawn_in_its_style(c, style, at + 1);
    let none = Seq::<LineView>::empty();
    let line = said(c.events[at + 2].text, style);
    let inner = walk::children(c, style, at + 1, true, true, none);
    assert(none + seq![line] =~= seq![line]);
    reveal_with_fuel(walk::children, 2);
    assert(inner == (seq![line], at + 5));
    law_a_quote_has_its_border(seq![line], c.styles, 0);
    let two = seq![
        SpanView { text: seq!['\u{258c}'], style: c.styles.chrome },
        SpanView { text: seq![' '], style: c.styles.chrome },
    ];
    assert(two + line.prefix =~= two);
}

/// Whether the events from `at` on are an item that says one text, without a
/// paragraph around it.
pub open spec fn tight_item(c: Context, at: int) -> bool {
    c.events[at].mark == Mark::Open(Tag::Item) && says(c, at + 1, Tag::Item)
}

/// Whether the events from `at` on are an item that says one text in a
/// paragraph.
pub open spec fn loose_item(c: Context, at: int) -> bool {
    &&& c.events[at].mark == Mark::Open(Tag::Item)
    &&& c.events[at + 1].mark == Mark::Open(Tag::Paragraph)
    &&& says(c, at + 2, Tag::Paragraph)
    &&& at + 4 < c.events.len()
    &&& c.events[at + 4].mark == Mark::Close(Tag::Item)
}

/// The line of an item that says one text: its marker in front of it.
pub open spec fn marked(c: Context, at: int, number: Option<u64>, text: Seq<char>, body: Style) -> LineView {
    let marker = walk::item_marker(c, at, number);
    LineView {
        prefix: Seq::empty(),
        spans: seq![
            SpanView { text: marker, style: c.styles.list_item },
            SpanView { text, style: body },
        ],
        hang: width::columns(0, width::width_of(marker)),
        kind: LineKind::Flow,
    }
}

/// The number of an item this many behind another.
pub open spec fn counted_on(number: Option<u64>, i: nat) -> Option<u64> {
    match number {
        Some(n) => Some((n + i) as u64),
        None => None,
    }
}

proof fn lemma_marked(c: Context, at: int, number: Option<u64>, text: Seq<char>, body: Style)
    ensures
        walk::indented(
            seq![said(text, body)],
            walk::item_marker(c, at, number),
            c.styles.list_item,
        ) == seq![marked(c, at, number, text, body)],
{
    let marker = walk::item_marker(c, at, number);
    let lines = walk::indented(seq![said(text, body)], marker, c.styles.list_item);
    assert(seq![SpanView { text: marker, style: c.styles.list_item }] + said(text, body).spans
        =~= marked(c, at, number, text, body).spans);
    assert(lines =~= seq![marked(c, at, number, text, body)]);
}

proof fn lemma_tight_item(c: Context, body: Style, at: int)
    requires
        0 <= at,
        tight_item(c, at),
    ensures
        walk::item(c, body, at + 1) == (
            seq![said(c.events[at + 1].text, body)],
            false,
            at + 3,
        ),
{
    lemma_says(c, at + 1, Tag::Item, body);
    let none = Seq::<LineView>::empty();
    let line = said(c.events[at + 1].text, body);
    assert(none + seq![line] =~= seq![line]);
    assert(walk::block(c, body, at + 1) == (seq![line], at + 2));
    reveal_with_fuel(walk::children, 2);
    assert(walk::children(c, body, at + 1, false, true, none) == (seq![line], at + 3));
}

proof fn lemma_loose_item(c: Context, body: Style, at: int)
    requires
        0 <= at,
        loose_item(c, at),
    ensures
        walk::item(c, body, at + 1) == (
            seq![said(c.events[at + 2].text, body)],
            true,
            at + 5,
        ),
{
    law_a_heading_is_drawn_in_its_style(c, body, at + 1);
    let none = Seq::<LineView>::empty();
    let line = said(c.events[at + 2].text, body);
    assert(none + seq![line] =~= seq![line]);
    reveal_with_fuel(walk::children, 2);
    assert(walk::children(c, body, at + 1, false, true, none) == (seq![line], at + 5));
}

/// A tight list is drawn item by item, one line each, numbered on from its
/// first number, with nothing between them.
pub proof fn law_a_tight_list_is_drawn_item_by_item(
    c: Context,
    body: Style,
    from: int,
    number: Option<u64>,
    k: nat,
    out: Seq<LineView>,
)
    requires
        0 <= from,
        from + 3 * k < c.events.len(),
        forall|i: int| 0 <= i < k ==> tight_item(c, #[trigger] (from + 3 * i)),
        c.events[from + 3 * k].mark == Mark::Close(Tag::List),
        number matches Some(n) ==> n + k <= u64::MAX,
    ensures
        walk::items(c, body, from, number, false, out).1 == from + 3 * k + 1,
        walk::items(c, body, from, number, false, out).0 == out + Seq::new(
            k,
            |i: int|
                marked(
                    c,
                    from + 3 * i,
                    counted_on(number, i as nat),
                    c.events[from + 3 * i + 1].text,
                    body,
                ),
        ),
    decreases k,
{
    let all = Seq::new(
        k,
        |i: int|
            marked(
                c,
                from + 3 * i,
                counted_on(number, i as nat),
                c.events[from + 3 * i + 1].text,
                body,
            ),
    );
    if k == 0 {
        assert(out + all =~= out);
    } else {
        assert(tight_item(c, from + 3 * 0));
        lemma_tight_item(c, body, from);
        let text = c.events[from + 1].text;
        lemma_marked(c, from, number, text, body);
        let line = marked(c, from, number, text, body);
        let less = (k - 1) as nat;
        let next = walk::successor(number);
        assert forall|i: int| 0 <= i < less implies tight_item(
            c,
            #[trigger] (from + 3 + 3 * i),
        ) by {
            assert(tight_item(c, from + 3 * (i + 1)));
        }
        law_a_tight_list_is_drawn_item_by_item(c, body, from + 3, next, less, out + seq![line]);
        let rest = Seq::new(
            less,
            |i: int|
                marked(
                    c,
                    from + 3 + 3 * i,
                    counted_on(next, i as nat),
                    c.events[from + 3 + 3 * i + 1].text,
                    body,
                ),
        );
        assert forall|i: int| 0 <= i < less implies rest[i] == #[trigger] all[i + 1] by {
            assert(from + 3 + 3 * i == from + 3 * (i + 1));
            assert(counted_on(next, i as nat) == counted_on(number, (i + 1) as nat));
        }
        assert(all[0] == line);
        assert(out + seq![line] + rest =~= out + all);
        assert(walk::items(c, body, from, number, false, out) == walk::items(
            c,
            body,
            from + 3,
            next,
            false,
            out + seq![line],
        ));
    }
}

/// A loose list is drawn item by item too, with a blank line between any two
/// and in front of the first where something stands before it.
pub proof fn law_a_loose_list_has_blank_lines_between(
    c: Context,
    body: Style,
    from: int,
    number: Option<u64>,
    k: nat,
    loose: bool,
    out: Seq<LineView>,
)
    requires
        0 <= from,
        out.len() > 0,
        from + 5 * k < c.events.len(),
        forall|i: int| 0 <= i < k ==> loose_item(c, #[trigger] (from + 5 * i)),
        c.events[from + 5 * k].mark == Mark::Close(Tag::List),
        number matches Some(n) ==> n + k <= u64::MAX,
    ensures
        walk::items(c, body, from, number, loose, out).1 == from + 5 * k + 1,
        walk::items(c, body, from, number, loose, out).0 == out + Seq::new(
            2 * k,
            |i: int|
                if i % 2 == 0 {
                    walk::blank()
                } else {
                    marked(
                        c,
                        from + 5 * (i / 2),
                        counted_on(number, (i / 2) as nat),
                        c.events[from + 5 * (i / 2) + 2].text,
                        body,
                    )
                },
        ),
    decreases k,
{
    let all = Seq::new(
        2 * k,
        |i: int|
            if i % 2 == 0 {
                walk::blank()
            } else {
                marked(
                    c,
                    from + 5 * (i / 2),
                    counted_on(number, (i / 2) as nat),
                    c.events[from + 5 * (i / 2) + 2].text,
                    body,
                )
            },
    );
    if k == 0 {
        assert(out + all =~= out);
    } else {
        assert(loose_item(c, from + 5 * 0));
        lemma_loose_item(c, body, from);
        let text = c.events[from + 2].text;
        lemma_marked(c, from, number, text, body);
        let line = marked(c, from, number, text, body);
        let less = (k - 1) as nat;
        let next = walk::successor(number);
        assert forall|i: int| 0 <= i < less implies loose_item(
            c,
            #[trigger] (from + 5 + 5 * i),
        ) by {
            assert(loose_item(c, from + 5 * (i + 1)));
        }
        let more = out.push(walk::blank()) + seq![line];
        law_a_loose_list_has_blank_lines_between(c, body, from + 5, next, less, true, more);
        let rest = Seq::new(
            2 * less,
            |i: int|
                if i % 2 == 0 {
                    walk::blank()
                } else {
                    marked(
                        c,
                        from + 5 + 5 * (i / 2),
                        counted_on(next, (i / 2) as nat),
                        c.events[from + 5 + 5 * (i / 2) + 2].text,
                        body,
                    )
                },
        );
        assert forall|i: int| 0 <= i < 2 * less implies rest[i] == #[trigger] all[i + 2] by {
            let h = i / 2;
            assert((i + 2) / 2 == h + 1 && (i + 2) % 2 == i % 2);
            assert(from + 5 + 5 * h == from + 5 * (h + 1));
            assert(counted_on(next, h as nat) == counted_on(number, (h + 1) as nat));
        }
        assert(all[0] == walk::blank());
        assert(1int / 2 == 0 && 1int % 2 == 1);
        assert(all[1] == line);
        assert(more + rest =~= out + all);
        assert(walk::items(c, body, from, number, loose, out) == walk::items(
            c,
            body,
            from + 5,
            next,
            true,
            more,
        ));
    }
}

/// The texts of `k` events from `from` on, put together.
pub open spec fn texts_from(c: Context, from: int, k: nat) -> Seq<char>
    decreases k,
{
    if k == 0 {
        Seq::empty()
    } else {
        c.events[from].text + texts_from(c, from + 1, (k - 1) as nat)
    }
}

/// The text of a block of code is that of its events, all of them in order, up
/// to where it closes.
pub proof fn law_code_is_read_whole(
    c: Context,
    from: int,
    k: nat,
    tag: Tag,
    so_far: Seq<char>,
)
    requires
        0 <= from,
        from + k < c.events.len(),
        forall|i: int| from <= i < from + k ==> (#[trigger] c.events[i]).mark == Mark::Text,
        c.events[from + k].mark == Mark::Close(tag),
    ensures
        walk::code_text(c, tag, from, so_far) == (so_far + texts_from(c, from, k), from + k + 1),
    decreases k,
{
    if k == 0 {
        assert(so_far + texts_from(c, from, k) =~= so_far);
    } else {
        assert(c.events[from].mark == Mark::Text);
        law_code_is_read_whole(c, from + 1, (k - 1) as nat, tag, so_far + c.events[from].text);
        assert(so_far + c.events[from].text + texts_from(c, from + 1, (k - 1) as nat) =~= so_far
            + texts_from(c, from, k));
    }
}

/// Whether the events from `at` on are a cell that says one text.
pub open spec fn cell_says(c: Context, at: int) -> bool {
    c.events[at].mark == Mark::Open(Tag::TableCell) && says(c, at + 1, Tag::TableCell)
}

/// A row of a table has its cells in order, those of the head in the style of
/// headings and the others in the style of what stands around.
pub proof fn law_a_row_has_its_cells_in_order(
    c: Context,
    body: Style,
    from: int,
    k: nat,
    state: walk::Rows,
)
    requires
        0 <= from,
        from + 3 * k < c.events.len(),
        forall|i: int| 0 <= i < k ==> cell_says(c, #[trigger] (from + 3 * i)),
        c.events[from + 3 * k].mark == Mark::Close(Tag::TableRow) || c.events[from + 3 * k].mark
            == Mark::Close(Tag::TableHead),
    ensures
        walk::tabled(c, body, from, state) == walk::tabled(
            c,
            body,
            from + 3 * k + 1,
            walk::Rows {
                rows: state.rows.push(
                    state.row + Seq::new(
                        k,
                        |i: int|
                            seq![
                                SpanView {
                                    text: c.events[from + 3 * i + 1].text,
                                    style: if state.head {
                                        Style { bold: true, ..c.styles.heading }
                                    } else {
                                        body
                                    },
                                },
                            ],
                    ),
                ),
                row: Seq::empty(),
                head: false,
            },
        ),
    decreases k,
{
    let style = if state.head {
        c.styles.heading.as_bold()
    } else {
        body
    };
    let all = Seq::new(
        k,
        |i: int| seq![SpanView { text: c.events[from + 3 * i + 1].text, style }],
    );
    if k == 0 {
        assert(state.row + all =~= state.row);
    } else {
        assert(cell_says(c, from + 3 * 0));
        lemma_says(c, from + 1, Tag::TableCell, style);
        let cell = seq![SpanView { text: c.events[from + 1].text, style }];
        let less = (k - 1) as nat;
        assert forall|i: int| 0 <= i < less implies cell_says(c, #[trigger] (from + 3 + 3 * i)) by {
            assert(cell_says(c, from + 3 * (i + 1)));
        }
        let next = walk::Rows { row: state.row.push(cell), ..state };
        assert(walk::tabled(c, body, from, state) == walk::tabled(c, body, from + 3, next));
        law_a_row_has_its_cells_in_order(c, body, from + 3, less, next);
        let rest = Seq::new(
            less,
            |i: int| seq![SpanView { text: c.events[from + 3 + 3 * i + 1].text, style }],
        );
        assert forall|i: int| 0 <= i < less implies rest[i] == #[trigger] all[i + 1] by {
            assert(from + 3 + 3 * i == from + 3 * (i + 1));
        }
        assert(all[0] == cell);
        assert(state.row.push(cell) + rest =~= state.row + all);
        assert(Seq::new(
            less,
            |i: int|
                seq![
                    SpanView {
                        text: c.events[from + 3 + 3 * i + 1].text,
                        style: if next.head {
                            Style { bold: true, ..c.styles.heading }
                        } else {
                            body
                        },
                    },
                ],
        ) =~= rest);
    }
    assert(Seq::new(
        k,
        |i: int|
            seq![
                SpanView {
                    text: c.events[from + 3 * i + 1].text,
                    style: if state.head {
                        Style { bold: true, ..c.styles.heading }
                    } else {
                        body
                    },
                },
            ],
    ) =~= all);
}

/// Whether the events from `at` on are a paragraph that says one text.
pub open spec fn paragraph_says(c: Context, at: int) -> bool {
    c.events[at].mark == Mark::Open(Tag::Paragraph) && says(c, at + 1, Tag::Paragraph)
}

/// Paragraphs that stand together have a blank line between any two, and in
/// front of the first where something stands before it.
pub proof fn law_paragraphs_have_blank_lines_between(
    c: Context,
    body: Style,
    from: int,
    k: nat,
    separate_lists: bool,
    out: Seq<LineView>,
)
    requires
        0 <= from,
        from + 3 * k < c.events.len(),
        forall|i: int| 0 <= i < k ==> paragraph_says(c, #[trigger] (from + 3 * i)),
        c.events[from + 3 * k].mark is Close,
    ensures
        walk::children(c, body, from, separate_lists, false, out) == (
            out + Seq::new(
                2 * k,
                |i: int|
                    if i % 2 == 0 {
                        walk::blank()
                    } else {
                        said(c.events[from + 3 * (i / 2) + 1].text, body)
                    },
            ),
            from + 3 * k + 1,
        ),
    decreases k,
{
    let all = Seq::new(
        2 * k,
        |i: int|
            if i % 2 == 0 {
                walk::blank()
            } else {
                said(c.events[from + 3 * (i / 2) + 1].text, body)
            },
    );
    if k == 0 {
        assert(out + all =~= out);
    } else {
        assert(paragraph_says(c, from + 3 * 0));
        law_a_heading_is_drawn_in_its_style(c, body, from);
        let line = said(c.events[from + 1].text, body);
        let less = (k - 1) as nat;
        assert forall|i: int| 0 <= i < less implies paragraph_says(
            c,
            #[trigger] (from + 3 + 3 * i),
        ) by {
            assert(paragraph_says(c, from + 3 * (i + 1)));
        }
        let more = out.push(walk::blank()) + seq![line];
        assert(walk::children(c, body, from, separate_lists, false, out) == walk::children(
            c,
            body,
            from + 3,
            separate_lists,
            false,
            more,
        ));
        law_paragraphs_have_blank_lines_between(c, body, from + 3, less, separate_lists, more);
        let rest = Seq::new(
            2 * less,
            |i: int|
                if i % 2 == 0 {
                    walk::blank()
                } else {
                    said(c.events[from + 3 + 3 * (i / 2) + 1].text, body)
                },
        );
        assert forall|i: int| 0 <= i < 2 * less implies rest[i] == #[trigger] all[i + 2] by {
            let h = i / 2;
            assert((i + 2) / 2 == h + 1 && (i + 2) % 2 == i % 2);
            assert(from + 3 + 3 * h == from + 3 * (h + 1));
        }
        assert(all[0] == walk::blank());
        assert(1int / 2 == 0 && 1int % 2 == 1);
        assert(all[1] == line);
        assert(more + rest =~= out + all);
    }
}

/// A list inside an item follows the text of the item without a blank line;
/// inside a quote it has one in front of it, as anything else has.
pub proof fn law_a_nested_list_follows_its_text(c: Context, body: Style, at: int, quote: bool)
    requires
        0 <= at,
        at + 1 < c.events.len(),
        c.events[at].mark == Mark::Text,
        c.events[at].text.len() > 0,
        forall|i: int| 0 <= i < c.events[at].text.len() ==> c.events[at].text[i] != '\n',
        c.events[at + 1].mark == Mark::Open(Tag::List),
    ensures
        ({
            let line = said(c.events[at].text, body);
            let list = walk::block(c, body, at + 1);
            walk::children(c, body, at, quote, true, Seq::empty()) == walk::children(
                c,
                body,
                c.onward(at + 1, list.1),
                quote,
                false,
                (if quote {
                    seq![line, walk::blank()]
                } else {
                    seq![line]
                }) + list.0,
            )
        }),
{
    let start = walk::inline_start(body);
    let text = c.events[at].text;
    lemma_one_span(start.lines, text, body);
    let after = walk::inline_step(c.styles, body, c.events[at], start);
    let span = SpanView { text, style: body };
    assert(start.lines.drop_last() =~= Seq::<Seq<SpanView>>::empty());
    assert(Seq::<SpanView>::empty().push(span) =~= seq![span]);
    assert(after.lines =~= seq![seq![span]]);
    assert(walk::inlined(c, body, at + 1, after) == (after, at + 1));
    assert(walk::inlined(c, body, at, start) == (after, at + 1));
    let line = said(text, body);
    assert(walk::prose(after.lines) =~= seq![line]);
    let none = Seq::<LineView>::empty();
    assert(none + seq![line] =~= seq![line]);
    assert(walk::block(c, body, at) == (seq![line], at + 1));
    assert(walk::children(c, body, at, quote, true, none) == walk::children(
        c,
        body,
        at + 1,
        quote,
        false,
        seq![line],
    ));
    assert(seq![line].push(walk::blank()) =~= seq![line, walk::blank()]);
}

/// A task is its box and its text behind, the box in the style of lists where it
/// is ticked and receding where it is not.
pub proof fn law_a_task_stands_behind_its_box(c: Context, body: Style, at: int, checked: bool)
    requires
        0 <= at,
        says(c, at + 1, Tag::Item),
        c.events[at].mark == Mark::Task(checked),
    ensures
        walk::item(c, body, at).1 == false,
        walk::item(c, body, at).2 == at + 3,
        walk::item(c, body, at).0.len() == 1,
        walk::item(c, body, at).0[0].spans == seq![
            SpanView {
                text: if checked {
                    seq!['[', 'x', ']', ' ']
                } else {
                    seq!['[', ' ', ']', ' ']
                },
                style: if checked {
                    c.styles.list_item
                } else {
                    c.styles.muted
                },
            },
            SpanView { text: c.events[at + 1].text, style: body },
        ],
{
    law_a_box_is_ticked_where_done();
    lemma_says(c, at + 1, Tag::Item, body);
    let none = Seq::<LineView>::empty();
    let line = said(c.events[at + 1].text, body);
    assert(none + seq![line] =~= seq![line]);
    assert(walk::block(c, body, at + 1) == (seq![line], at + 2));
    reveal_with_fuel(walk::children, 2);
    assert(walk::children(c, body, at + 1, true, true, none) == (seq![line], at + 3));
    let style = if checked {
        c.styles.list_item
    } else {
        c.styles.muted
    };
    let marker = walk::checkbox(checked);
    assert(seq![SpanView { text: marker, style }] + line.spans =~= seq![
        SpanView { text: marker, style },
        SpanView { text: c.events[at + 1].text, style: body },
    ]);
}

/// A block of code is drawn from all of its text and the first word behind its
/// fence, a block of HTML as the text it is, and a rule as a line of its own.
pub proof fn law_blocks_are_drawn_by_their_kind(c: Context, body: Style, at: int, k: nat)
    requires
        0 <= at,
        at + 1 + k < c.events.len(),
        forall|i: int| at < i <= at + k ==> (#[trigger] c.events[i]).mark == Mark::Text,
    ensures
        c.events[at].mark == Mark::Open(Tag::CodeBlock) && c.events[at + 1 + k].mark == Mark::Close(
            Tag::CodeBlock,
        ) ==> walk::block(c, body, at) == (
            code::code_lines(
                texts_from(c, at + 1, k),
                text::first_word(c.events[at].text),
                c.styles,
                c.table,
            ),
            at + k + 2,
        ),
        c.events[at].mark == Mark::Open(Tag::HtmlBlock) && c.events[at + 1 + k].mark == Mark::Close(
            Tag::HtmlBlock,
        ) ==> walk::block(c, body, at) == (
            flat_lines(texts_from(c, at + 1, k), body, LineKind::Flow),
            at + k + 2,
        ),
        c.events[at].mark == Mark::Html ==> walk::block(c, body, at) == (
            flat_lines(c.events[at].text, body, LineKind::Flow),
            at + 1,
        ),
        c.events[at].mark == Mark::Rule ==> walk::block(c, body, at).1 == at + 1 && walk::block(
            c,
            body,
            at,
        ).0.len() == 1 && walk::block(c, body, at).0[0].kind is Rule && walk::block(
            c,
            body,
            at,
        ).0[0].spans[0].style == c.styles.chrome,
{
    let none = Seq::<char>::empty();
    assert(none + texts_from(c, at + 1, k) =~= texts_from(c, at + 1, k));
    if c.events[at + 1 + k].mark == Mark::Close(Tag::CodeBlock) {
        law_code_is_read_whole(c, at + 1, k, Tag::CodeBlock, none);
    }
    if c.events[at + 1 + k].mark == Mark::Close(Tag::HtmlBlock) {
        law_code_is_read_whole(c, at + 1, k, Tag::HtmlBlock, none);
    }
}

/// Code that a grammar reads is drawn from its tokens, line by line and chopped;
/// any other in the style of code.
pub proof fn law_code_is_drawn_from_its_tokens(
    code: Seq<char>,
    info: Seq<char>,
    styles: Styles,
    table: Map<(Seq<char>, Seq<Seq<char>>), Seq<Seq<RegionView>>>,
    i: int,
)
    ensures
        ({
            let lines = text::whole_lines(text::trim_end_of(code, '\n'));
            let read = language(info) is Some && table.dom().contains((language(info)->0, lines));
            let drawn = code::code_lines(code, Some(info), styles, table);
            &&& !read ==> drawn == flat_lines(code, styles.code, LineKind::Chop)
            &&& read ==> drawn.len() == table[(language(info)->0, lines)].len()
            &&& read && 0 <= i < drawn.len() ==> drawn[i].kind is Chop && drawn[i].prefix.len() == 0
                && drawn[i].spans == token_spans(table[(language(info)->0, lines)][i], styles)
        }),
        code::code_lines(code, None, styles, table) == flat_lines(
            code,
            styles.code,
            LineKind::Chop,
        ),
{
}

/// How many of the first `n` events open something, less those that close it.
pub open spec fn open_after(events: Seq<EventView>, n: int) -> int
    decreases n,
{
    if n <= 0 {
        0
    } else {
        open_after(events, n - 1) + (if events[n - 1].mark is Open {
            1int
        } else if events[n - 1].mark is Close {
            -1
        } else {
            0
        })
    }
}

/// A block is over exactly where everything it opened is closed, and a leaf
/// outside any block is one itself.
pub proof fn law_a_block_ends_where_it_closes(events: Seq<EventView>, n: int)
    requires
        0 <= n < events.len(),
        balanced(events, n + 1),
    ensures
        segmented(events, n).depth == open_after(events, n),
        segmented(events, n + 1).blocks.len() == segmented(events, n).blocks.len() + (if open_after(
            events,
            n + 1,
        ) == 0 {
            1nat
        } else {
            0
        }),
    decreases n,
{
    if n > 0 {
        assert(balanced(events, n));
        law_a_block_ends_where_it_closes(events, n - 1);
        if events[n - 1].mark is Close {
            assert(segmented(events, n - 1).depth > 0);
        }
    }
    if events[n].mark is Close {
        assert(segmented(events, n).depth > 0);
    }
}

/// What a block is told by is its source without the line breaks at its end,
/// and markdown is read with tables, strikethrough and task lists.
pub proof fn law_a_block_is_told_by_its_source(source: Seq<char>, event: EventView, part: Seq<char>)
    requires
        text::byte_slice(source, event.start, event.end) == Some(part),
    ensures
        ({
            let told = document::block_text(source, event);
            &&& told.len() <= part.len()
            &&& told == part.take(told.len() as int)
            &&& told.len() > 0 ==> told.last() != '\n'
            &&& forall|i: int| told.len() <= i < part.len() ==> #[trigger] part[i] == '\n'
        }),
        document::extensions().tables,
        document::extensions().strikethrough,
        document::extensions().tasklists,
{
    lemma_trim_end_of(part, '\n');
}

proof fn lemma_trim_end_of(s: Seq<char>, c: char)
    ensures
        text::trim_end_of(s, c).len() <= s.len(),
        text::trim_end_of(s, c) == s.take(text::trim_end_of(s, c).len() as int),
        text::trim_end_of(s, c).len() > 0 ==> text::trim_end_of(s, c).last() != c,
        forall|i: int| text::trim_end_of(s, c).len() <= i < s.len() ==> #[trigger] s[i] == c,
    decreases s.len(),
{
    if s.len() > 0 && s.last() == c {
        let front = s.drop_last();
        lemma_trim_end_of(front, c);
        let n = text::trim_end_of(s, c).len() as int;
        assert(s.take(n) =~= front.take(n));
        assert forall|i: int| n <= i < s.len() implies #[trigger] s[i] == c by {
            if i < front.len() {
                assert(front[i] == c);
            }
        }
    } else {
        assert(s.take(s.len() as int) =~= s);
    }
}

/// The lines of a task behind its first are indented by as much as its box
/// takes.
pub proof fn law_a_task_is_indented_by_its_box(
    lines: Seq<LineView>,
    marker: Seq<char>,
    style: Style,
    i: int,
)
    requires
        0 < i < lines.len(),
    ensures
        walk::ticked(lines, marker, style).len() == lines.len(),
        walk::ticked(lines, marker, style)[i].spans == lines[i].spans,
        walk::ticked(lines, marker, style)[i].hang == lines[i].hang,
        ({
            let prefix = walk::ticked(lines, marker, style)[i].prefix;
            &&& prefix.drop_last() == lines[i].prefix
            &&& prefix.last().text.len() == width::width_of(marker)
            &&& forall|k: int|
                0 <= k < prefix.last().text.len() ==> #[trigger] prefix.last().text[k] == ' '
        }),
{
    assert(walk::ticked(lines, marker, style)[i].prefix.drop_last() =~= lines[i].prefix);
}

/// Whether a piece of a text is all whitespace or holds none, as its first
/// character says.
pub open spec fn uniform(text: Seq<char>) -> bool {
    &&& text.len() > 0
    &&& forall|i: int|
        0 <= i < text.len() ==> text::white_space(#[trigger] text[i]) == text::white_space(text[0])
}

/// A text is broken into its words and the whitespace between them, each whole:
/// no piece mixes the two, and no two neighbours are alike.
pub proof fn law_words_are_whole(text: Seq<char>, style: Style)
    ensures
        forall|i: int|
            0 <= i < wrap::runs(text, style).len() ==> uniform(
                (#[trigger] wrap::runs(text, style)[i]).text,
            ) && wrap::runs(text, style)[i].style == style,
        forall|i: int|
            0 < i < wrap::runs(text, style).len() ==> text::white_space(
                (#[trigger] wrap::runs(text, style)[i]).text[0],
            ) != text::white_space(wrap::runs(text, style)[i - 1].text[0]),
        text.len() > 0 ==> wrap::runs(text, style).len() > 0 && wrap::runs(text, style)[0].text[0]
            == text[0],
    decreases text.len(),
{
    if text.len() > 0 {
        wrap::lemma_run_len(text);
        lemma_run_is_uniform(text);
        let n = wrap::run_len(text) as int;
        let rest = text.skip(n);
        law_words_are_whole(rest, style);
        let first = SpanView { text: text.take(n), style };
        let later = wrap::runs(rest, style);
        let all = wrap::runs(text, style);
        assert(all == seq![first] + later);
        assert forall|i: int| 0 <= i < all.len() implies uniform((#[trigger] all[i]).text)
            && all[i].style == style by {
            if i > 0 {
                assert(all[i] == later[i - 1]);
            }
        }
        assert forall|i: int| 0 < i < all.len() implies text::white_space(
            (#[trigger] all[i]).text[0],
        ) != text::white_space(all[i - 1].text[0]) by {
            assert(all[i] == later[i - 1]);
            if i == 1 {
                assert(later[0].text[0] == rest[0]);
                assert(rest[0] == text[n]);
            } else {
                assert(all[i - 1] == later[i - 2]);
            }
        }
    }
}

proof fn lemma_run_is_uniform(text: Seq<char>)
    requires
        text.len() > 0,
    ensures
        1 <= wrap::run_len(text) <= text.len(),
        uniform(text.take(wrap::run_len(text) as int)),
        wrap::run_len(text) < text.len() ==> text::white_space(text[wrap::run_len(text) as int])
            != text::white_space(text[0]),
    decreases text.len(),
{
    let n = wrap::run_len(text) as int;
    if text.len() > 1 && text::white_space(text[0]) == text::white_space(text[1]) {
        let rest = text.skip(1);
        lemma_run_is_uniform(rest);
        let front = text.take(n);
        assert forall|i: int| 0 <= i < front.len() implies text::white_space(#[trigger] front[i])
            == text::white_space(front[0]) by {
            if i > 0 {
                assert(rest.take(n - 1)[i - 1] == front[i]);
            }
        }
        if n < text.len() {
            assert(rest[n - 1] == text[n]);
        }
    }
}

} // verus!
