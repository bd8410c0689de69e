//! Fenced code: highlighted where its language is known, flat where it is not.

use syntect::easy::ScopeRegionIterator;
use syntect::parsing::{ParseState, ScopeStack, ScopeStackOp, SyntaxSet};
use vstd::prelude::*;

use crate::markdown::styles::{Scoped, Styles};
use crate::markdown::wrap::{self, LineKind, LineView, MdLine};
use crate::style::{self, Span, SpanView, Style};
use crate::text::{
    self, chars_eq, from_chars, split_chars, to_chars, trim_chars, trim_end_of_chars,
    whole_lines_of,
};

verus! {

/// A set of language grammars, which the library only hands on.
#[verifier::external_type_specification]
#[verifier::external_body]
pub struct ExSyntaxSet(SyntaxSet);

/// How far a parser has come in a text, which the library only hands on.
#[verifier::external_type_specification]
#[verifier::external_body]
pub struct ExParseState(ParseState);

/// The scopes a parser stands in, and those it has set aside.
#[verifier::external_type_specification]
#[verifier::external_body]
pub struct ExScopeStack(ScopeStack);

/// A change to the scopes, which the library only hands on.
#[verifier::external_type_specification]
#[verifier::external_body]
pub struct ExScopeStackOp(ScopeStackOp);

/// A token of a line of code, and the scopes it stands in, outermost first.
#[derive(Debug)]
pub struct Region {
    pub text: String,
    pub scopes: Vec<String>,
}

/// A token as the contracts speak of it.
pub struct RegionView {
    pub text: Seq<char>,
    pub scopes: Seq<Seq<char>>,
}

impl View for Region {
    type V = RegionView;

    open spec fn view(&self) -> RegionView {
        RegionView { text: self.text@, scopes: text::texts(self.scopes@) }
    }
}

/// The views of a line's tokens.
pub open spec fn region_views(regions: Seq<Region>) -> Seq<RegionView> {
    Seq::new(regions.len(), |i: int| regions[i]@)
}

/// The views of the tokens of a run of lines.
pub open spec fn region_lines(lines: Seq<Vec<Region>>) -> Seq<Seq<RegionView>> {
    Seq::new(lines.len(), |i: int| region_views(lines[i]@))
}

/// The parser that a set of grammars begins the code of a language with; none
/// where no grammar answers to the token.
pub uninterp spec fn opened(set: SyntaxSet, token: Seq<char>) -> Option<ParseState>;

/// What a parser makes of its next line: how far it has then come, and the
/// changes to the scopes with the places they take effect at, where it can parse
/// the line.
pub uninterp spec fn parsing(state: ParseState, line: Seq<char>, set: SyntaxSet) -> (
    ParseState,
    Option<Seq<(usize, ScopeStackOp)>>,
);

/// The pieces that changes cut a line into, each with the change that comes
/// before it.
pub uninterp spec fn pieces_of(changes: Seq<(usize, ScopeStackOp)>, line: Seq<char>) -> Seq<
    (Seq<char>, ScopeStackOp),
>;

/// What a stack of scopes holds: those set aside, and those that are open,
/// outermost first.
pub uninterp spec fn held(stack: ScopeStack) -> (Seq<Seq<Seq<char>>>, Seq<Seq<char>>);

/// What a stack that holds these holds after a change; none where the change
/// fails.
pub uninterp spec fn changed(
    scopes: (Seq<Seq<Seq<char>>>, Seq<Seq<char>>),
    change: ScopeStackOp,
) -> Option<(Seq<Seq<Seq<char>>>, Seq<Seq<char>>)>;

/// The parser of a language's code behind these lines.
pub open spec fn state_behind(set: SyntaxSet, token: Seq<char>, lines: Seq<Seq<char>>) -> Option<
    ParseState,
>
    decreases lines.len(),
{
    if lines.len() == 0 {
        opened(set, token)
    } else {
        match state_behind(set, token, lines.drop_last()) {
            Some(state) => Some(parsing(state, lines.last(), set).0),
            None => None,
        }
    }
}

/// Whether a parser was begun with this set of grammars.
pub open spec fn begun_with(state: ParseState, set: SyntaxSet) -> bool {
    exists|token: Seq<char>, lines: Seq<Seq<char>>|
        #[trigger] state_behind(set, token, lines) == Some(state)
}

/// Whether these are the changes that some parser finds in the line.
pub open spec fn changes_in(changes: Seq<(usize, ScopeStackOp)>, line: Seq<char>) -> bool {
    exists|state: ParseState, set: SyntaxSet|
        begun_with(state, set) && (#[trigger] parsing(state, line, set)).1 == Some(changes)
}

/// What a parser makes of the first `n` pieces of a line: the scopes behind
/// them, and a token for each, in the scopes behind its change; none where a
/// change fails.
pub open spec fn tokens_of(
    scopes: (Seq<Seq<Seq<char>>>, Seq<Seq<char>>),
    pieces: Seq<(Seq<char>, ScopeStackOp)>,
    n: nat,
) -> Option<((Seq<Seq<Seq<char>>>, Seq<Seq<char>>), Seq<RegionView>)>
    decreases n,
{
    if n == 0 {
        Some((scopes, Seq::empty()))
    } else {
        match tokens_of(scopes, pieces, (n - 1) as nat) {
            Some((before, tokens)) => match changed(before, pieces[n - 1].1) {
                Some(after) => Some(
                    (after, tokens.push(RegionView { text: pieces[n - 1].0, scopes: after.1 })),
                ),
                None => None,
            },
            None => None,
        }
    }
}

/// What a parser makes of the first `n` lines of code: how far it has then come,
/// the scopes behind them, and the tokens of each; none where a line cannot be
/// parsed or a change fails.
pub open spec fn lines_read(
    set: SyntaxSet,
    state: ParseState,
    lines: Seq<Seq<char>>,
    n: nat,
) -> Option<(ParseState, (Seq<Seq<Seq<char>>>, Seq<Seq<char>>), Seq<Seq<RegionView>>)>
    decreases n,
{
    if n == 0 {
        Some((state, (Seq::empty(), Seq::empty()), Seq::empty()))
    } else {
        match lines_read(set, state, lines, (n - 1) as nat) {
            Some((here, scopes, out)) => match parsing(here, lines[n - 1], set) {
                (next, Some(changes)) => {
                    let pieces = pieces_of(changes, lines[n - 1]);
                    match tokens_of(scopes, pieces, pieces.len()) {
                        Some((after, tokens)) => Some((next, after, out.push(tokens))),
                        None => None,
                    }
                },
                (_, None) => None,
            },
            None => None,
        }
    }
}

/// The tokens of each line of a language's code; none where no grammar answers
/// to the token, a line cannot be parsed or a change to the scopes fails.
pub open spec fn reading(set: SyntaxSet, token: Seq<char>, lines: Seq<Seq<char>>) -> Option<
    Seq<Seq<RegionView>>,
> {
    match opened(set, token) {
        Some(state) => match lines_read(set, state, lines, lines.len()) {
            Some((_, _, out)) => Some(out),
            None => None,
        },
        None => None,
    }
}

/// What a set of grammars makes of code: the tokens of each line of a language
/// token and a run of lines, for those it can read; see [`reading`].
pub open spec fn highlighting(set: SyntaxSet) -> Map<
    (Seq<char>, Seq<Seq<char>>),
    Seq<Seq<RegionView>>,
> {
    Map::new(
        |code: (Seq<char>, Seq<Seq<char>>)| reading(set, code.0, code.1) is Some,
        |code: (Seq<char>, Seq<Seq<char>>)| reading(set, code.0, code.1)->0,
    )
}

/// `SyntaxSet::load_defaults_newlines`: the grammars that `syntect` ships.
/// Nothing is claimed of which they are.
#[verifier::external_body]
fn load_defaults() -> SyntaxSet {
    SyntaxSet::load_defaults_newlines()
}

/// `SyntaxSet::find_syntax_by_token`, then `ParseState::new` on the grammar it
/// finds. The parser is named, not described.
#[verifier::external_body]
fn open(set: &SyntaxSet, token: &str) -> (r: Option<ParseState>)
    ensures
        r == opened(*set, token@),
{
    set.find_syntax_by_token(token).map(ParseState::new)
}

/// `ParseState::parse_line`: the changes to the scopes in the next line, and the
/// parser behind it. Both are named, not described. A parser may panic with
/// another set of grammars than its own, so that is left out.
#[verifier::external_body]
fn parse_line(state: &mut ParseState, line: &str, set: &SyntaxSet) -> (r: Option<
    Vec<(usize, ScopeStackOp)>,
>)
    requires
        begun_with(*old(state), *set),
    ensures
        *final(state) == parsing(*old(state), line@, *set).0,
        r is Some <==> parsing(*old(state), line@, *set).1 is Some,
        r matches Some(changes) ==> parsing(*old(state), line@, *set).1 == Some(changes@),
{
    state.parse_line(line, set).ok()
}

/// The views of a line's pieces.
pub open spec fn piece_views(pieces: Seq<(String, ScopeStackOp)>) -> Seq<
    (Seq<char>, ScopeStackOp),
> {
    Seq::new(pieces.len(), |i: int| (pieces[i].0@, pieces[i].1))
}

/// `ScopeRegionIterator`: the pieces that changes cut a line into. They are
/// named, not described. Changes that do not lie in the line would panic, so
/// they are left out.
#[verifier::external_body]
fn cut_line(changes: &Vec<(usize, ScopeStackOp)>, line: &str) -> (r: Vec<(String, ScopeStackOp)>)
    requires
        changes_in(changes@, line@),
    ensures
        piece_views(r@) == pieces_of(changes@, line@),
{
    ScopeRegionIterator::new(changes, line).map(
        |(text, change)| (text.to_owned(), change.clone()),
    ).collect()
}

/// `ScopeStack::new`: a stack with no scopes open and none set aside.
pub assume_specification[ ScopeStack::new ]() -> (stack: ScopeStack)
    ensures
        held(stack) == (Seq::<Seq<Seq<char>>>::empty(), Seq::<Seq<char>>::empty()),
;

/// `ScopeStack::apply`: carries out a change, or leaves the stack as it is and
/// fails. What the change makes of the scopes is named, not described.
#[verifier::external_body]
fn apply(stack: &mut ScopeStack, change: &ScopeStackOp) -> (done: bool)
    ensures
        done <==> changed(held(*old(stack)), *change) is Some,
        done ==> changed(held(*old(stack)), *change) == Some(held(*final(stack))),
        !done ==> held(*final(stack)) == held(*old(stack)),
{
    stack.apply(change).is_ok()
}

/// `ScopeStack::as_slice`, each scope spelled by `Scope::build_string`: the open
/// scopes, outermost first.
#[verifier::external_body]
fn open_scopes(stack: &ScopeStack) -> (scopes: Vec<String>)
    ensures
        text::texts(scopes@) == held(*stack).1,
{
    stack.as_slice().iter().map(|scope| scope.build_string()).collect()
}

/// The tokens of one line, from its pieces; see [`tokens_of`].
fn tokens_in(pieces: Vec<(String, ScopeStackOp)>, stack: &mut ScopeStack) -> (r: Option<Vec<Region>>)
    ensures
        ({
            let all = piece_views(pieces@);
            &&& r is Some <==> tokens_of(held(*old(stack)), all, all.len()) is Some
            &&& r matches Some(tokens) ==> tokens_of(held(*old(stack)), all, all.len()) == Some(
                (held(*final(stack)), region_views(tokens@)),
            )
        }),
{
    let ghost all = piece_views(pieces@);
    let ghost first = held(*stack);
    let mut tokens: Vec<Region> = Vec::new();
    assert(region_views(tokens@) =~= Seq::empty());
    let mut i: usize = 0;
    while i < pieces.len()
        invariant
            i <= pieces@.len(),
            all == piece_views(pieces@),
            first == held(*old(stack)),
            tokens_of(first, all, i as nat) == Some((held(*stack), region_views(tokens@))),
        decreases pieces.len() - i,
    {
        let ghost was = region_views(tokens@);
        assert(all[i as int] == (pieces@[i as int].0@, pieces@[i as int].1));
        if !apply(stack, &pieces[i].1) {
            proof {
                lemma_tokens_stay_lost(first, all, i as nat + 1, all.len());
            }
            return None;
        }
        let region = Region { text: pieces[i].0.clone(), scopes: open_scopes(stack) };
        let ghost seen = region@;
        tokens.push(region);
        assert(region_views(tokens@) =~= was.push(seen));
        i += 1;
    }
    Some(tokens)
}

/// A change that fails leaves no tokens of the line.
proof fn lemma_tokens_stay_lost(
    scopes: (Seq<Seq<Seq<char>>>, Seq<Seq<char>>),
    pieces: Seq<(Seq<char>, ScopeStackOp)>,
    k: nat,
    n: nat,
)
    requires
        k <= n,
        tokens_of(scopes, pieces, k) is None,
    ensures
        tokens_of(scopes, pieces, n) is None,
    decreases n,
{
    if k < n {
        lemma_tokens_stay_lost(scopes, pieces, k, (n - 1) as nat);
    }
}

/// A line that cannot be read leaves no tokens of the code.
proof fn lemma_lines_stay_lost(
    set: SyntaxSet,
    state: ParseState,
    lines: Seq<Seq<char>>,
    k: nat,
    n: nat,
)
    requires
        k <= n,
        lines_read(set, state, lines, k) is None,
    ensures
        lines_read(set, state, lines, n) is None,
    decreases n,
{
    if k < n {
        lemma_lines_stay_lost(set, state, lines, k, (n - 1) as nat);
    }
}

/// The tokens of each line of a language's code, where the grammars can read it;
/// see [`reading`].
fn highlighted(set: &SyntaxSet, token: &str, lines: &Vec<String>) -> (r: Option<Vec<Vec<Region>>>)
    ensures
        r is Some <==> reading(*set, token@, text::texts(lines@)) is Some,
        r matches Some(regions) ==> reading(*set, token@, text::texts(lines@)) == Some(
            region_lines(regions@),
        ),
{
    let ghost all = text::texts(lines@);
    let mut state = match open(set, token) {
        Some(state) => state,
        None => {
            return None;
        },
    };
    let ghost first = state;
    let mut stack = ScopeStack::new();
    let mut out: Vec<Vec<Region>> = Vec::new();
    assert(region_lines(out@) =~= Seq::empty());
    let mut i: usize = 0;
    assert(all.take(0) =~= Seq::empty());
    assert(state_behind(*set, token@, all.take(0)) == Some(state));
    while i < lines.len()
        invariant
            i <= lines@.len(),
            all == text::texts(lines@),
            opened(*set, token@) == Some(first),
            state_behind(*set, token@, all.take(i as int)) == Some(state),
            lines_read(*set, first, all, i as nat) == Some((state, held(stack), region_lines(out@))),
        decreases lines.len() - i,
    {
        let ghost here = state;
        let ghost was = region_lines(out@);
        assert(begun_with(state, *set));
        assert(all[i as int] == lines@[i as int]@);
        assert(all.take(i + 1).drop_last() =~= all.take(i as int));
        let tokens = match parse_line(&mut state, &lines[i], set) {
            Some(changes) => {
                assert(changes_in(changes@, all[i as int])) by {
                    assert(parsing(here, all[i as int], *set).1 == Some(changes@));
                }
                tokens_in(cut_line(&changes, &lines[i]), &mut stack)
            },
            None => None,
        };
        match tokens {
            Some(tokens) => {
                let ghost seen = region_views(tokens@);
                out.push(tokens);
                assert(region_lines(out@) =~= was.push(seen));
            },
            None => {
                proof {
                    lemma_lines_stay_lost(*set, first, all, i as nat + 1, all.len());
                }
                return None;
            },
        }
        i += 1;
    }
    Some(out)
}

/// The text in lower case, as std maps it.
pub uninterp spec fn lowercase(s: Seq<char>) -> Seq<char>;

/// `str::to_lowercase`. The mapping is named, not described.
#[verifier::external_body]
fn to_lowercase(s: &str) -> (r: String)
    ensures
        r@ == lowercase(s@),
{
    s.to_lowercase()
}

/// The grammars, unpacked on the first fence that names a language.
///
/// Deliberately lazy: unpacking costs tens of milliseconds, and a session that
/// never shows a fence must not pay it.
pub struct Syntaxes {
    set: Option<SyntaxSet>,
}

impl Syntaxes {
    /// What the grammars make of code; nothing before they are unpacked.
    pub closed spec fn table(&self) -> Map<(Seq<char>, Seq<Seq<char>>), Seq<Seq<RegionView>>> {
        match self.set {
            Some(set) => highlighting(set),
            None => Map::empty(),
        }
    }

    /// Whether the grammars are unpacked.
    pub closed spec fn is_loaded(&self) -> bool {
        self.set is Some
    }

    /// Grammars that are not unpacked yet.
    pub fn new() -> (s: Syntaxes)
        ensures
            !s.is_loaded(),
            s.table() == Map::<(Seq<char>, Seq<Seq<char>>), Seq<Seq<RegionView>>>::empty(),
    {
        Syntaxes { set: None }
    }

    /// Unpacks the grammars, unless they are.
    pub fn load(&mut self)
        ensures
            final(self).is_loaded(),
            old(self).is_loaded() ==> final(self).table() == old(self).table(),
    {
        if self.set.is_none() {
            self.set = Some(load_defaults());
        }
    }

    /// The tokens of each line of code in a language, where the grammars can
    /// read it.
    fn tokens(&self, token: &str, lines: &Vec<String>) -> (r: Option<Vec<Vec<Region>>>)
        ensures
            r is Some <==> self.table().dom().contains((token@, text::texts(lines@))),
            r matches Some(regions) ==> region_lines(regions@) == self.table()[(
                token@,
                text::texts(lines@),
            )],
    {
        match &self.set {
            Some(set) => highlighted(set, token, lines),
            None => None,
        }
    }
}

/// The name a grammar is asked for under: an info string in lower case, after
/// the aliases.
pub open spec fn language(info: Seq<char>) -> Option<Seq<char>> {
    let name = lowercase(text::trim(info));
    if name.len() == 0 {
        None
    } else if name == "udiff"@ || name == "patch"@ {
        Some("diff"@)
    } else if name == "makefile"@ {
        Some("make"@)
    } else {
        Some(name)
    }
}

/// The name a grammar is asked for under; see [`language`].
pub fn resolve_language(info: &str) -> (r: Option<String>)
    ensures
        r is Some <==> language(info@) is Some,
        r matches Some(name) ==> language(info@) == Some(name@),
{
    let trimmed = trim_chars(&to_chars(info));
    let name = to_lowercase(&from_chars(&trimmed));
    if name.as_str().is_empty() {
        None
    } else if text::str_eq(&name, "udiff") || text::str_eq(&name, "patch") {
        Some("diff".to_owned())
    } else if text::str_eq(&name, "makefile") {
        Some("make".to_owned())
    } else {
        Some(name)
    }
}

/// Whether the scope `rule` names `scope` or one that holds it: the same
/// dot-separated parts in front.
pub open spec fn scope_prefix(rule: Seq<char>, scope: Seq<char>) -> bool {
    &&& rule.len() <= scope.len()
    &&& scope.take(rule.len() as int) == rule
    &&& rule.len() < scope.len() ==> scope[rule.len() as int] == '.'
}

/// Which slot a scope belongs to: the first rule that holds it decides, the
/// most specific come first.
pub open spec fn scope_rules() -> Seq<(Seq<char>, Scoped)> {
    seq![
        // A delimiter belongs to the thing it delimits.
        ("punctuation.definition.comment"@, Scoped::Comment),
        ("punctuation.definition.string"@, Scoped::Text),
        ("comment"@, Scoped::Comment),
        ("keyword.control.import"@, Scoped::KeywordUpright),
        ("keyword.control.export"@, Scoped::KeywordUpright),
        ("keyword.operator"@, Scoped::Operator),
        ("keyword"@, Scoped::Keyword),
        ("storage.modifier"@, Scoped::Keyword),
        ("storage.type"@, Scoped::Keyword),
        ("storage"@, Scoped::Keyword),
        ("constant.numeric"@, Scoped::Number),
        ("constant.language"@, Scoped::Keyword),
        ("constant.character.escape"@, Scoped::Text),
        ("constant"@, Scoped::Variable),
        ("string"@, Scoped::Text),
        ("entity.name.function"@, Scoped::Function),
        ("entity.name.tag"@, Scoped::Error),
        ("entity.name.type"@, Scoped::Type),
        ("entity.name"@, Scoped::Type),
        ("entity.other.attribute-name"@, Scoped::Warning),
        ("support.function.builtin"@, Scoped::Error),
        ("support.function"@, Scoped::Function),
        ("support.type"@, Scoped::Type),
        ("support.class"@, Scoped::Type),
        ("support.constant"@, Scoped::Variable),
        ("variable.language"@, Scoped::Error),
        ("variable.function"@, Scoped::Function),
        ("variable.parameter"@, Scoped::Variable),
        ("variable"@, Scoped::Variable),
        ("punctuation"@, Scoped::Punctuation),
        ("meta.annotation"@, Scoped::Warning),
        ("invalid"@, Scoped::Error),
    ]
}

/// The rules; see [`scope_rules`].
fn rules() -> (v: Vec<(&'static str, Scoped)>)
    ensures
        v@.len() == scope_rules().len(),
        forall|i: int|
            0 <= i < v@.len() ==> (#[trigger] v@[i]).0@ == scope_rules()[i].0 && v@[i].1
                == scope_rules()[i].1,
{
    vec![
        ("punctuation.definition.comment", Scoped::Comment),
        ("punctuation.definition.string", Scoped::Text),
        ("comment", Scoped::Comment),
        ("keyword.control.import", Scoped::KeywordUpright),
        ("keyword.control.export", Scoped::KeywordUpright),
        ("keyword.operator", Scoped::Operator),
        ("keyword", Scoped::Keyword),
        ("storage.modifier", Scoped::Keyword),
        ("storage.type", Scoped::Keyword),
        ("storage", Scoped::Keyword),
        ("constant.numeric", Scoped::Number),
        ("constant.language", Scoped::Keyword),
        ("constant.character.escape", Scoped::Text),
        ("constant", Scoped::Variable),
        ("string", Scoped::Text),
        ("entity.name.function", Scoped::Function),
        ("entity.name.tag", Scoped::Error),
        ("entity.name.type", Scoped::Type),
        ("entity.name", Scoped::Type),
        ("entity.other.attribute-name", Scoped::Warning),
        ("support.function.builtin", Scoped::Error),
        ("support.function", Scoped::Function),
        ("support.type", Scoped::Type),
        ("support.class", Scoped::Type),
        ("support.constant", Scoped::Variable),
        ("variable.language", Scoped::Error),
        ("variable.function", Scoped::Function),
        ("variable.parameter", Scoped::Variable),
        ("variable", Scoped::Variable),
        ("punctuation", Scoped::Punctuation),
        ("meta.annotation", Scoped::Warning),
        ("invalid", Scoped::Error),
    ]
}

/// The slot the rules from the `i`-th on give a scope.
pub open spec fn slot_from(scope: Seq<char>, i: int) -> Option<Scoped>
    decreases scope_rules().len() - i,
{
    if i < 0 || i >= scope_rules().len() {
        None
    } else if scope_prefix(scope_rules()[i].0, scope) {
        Some(scope_rules()[i].1)
    } else {
        slot_from(scope, i + 1)
    }
}

/// The style of a token: that of the innermost scope any rule knows, code
/// where none does.
pub open spec fn scope_style(scopes: Seq<Seq<char>>, styles: Styles) -> Style
    decreases scopes.len(),
{
    if scopes.len() == 0 {
        styles.code
    } else {
        match slot_from(scopes.last(), 0) {
            Some(slot) => styles.slot(slot),
            None => scope_style(scopes.drop_last(), styles),
        }
    }
}

/// Whether one scope holds another; see [`scope_prefix`].
fn is_scope_prefix(rule: &str, scope: &[char]) -> (r: bool)
    ensures
        r == scope_prefix(rule@, scope@),
{
    let rule = to_chars(rule);
    if rule.len() > scope.len() {
        return false;
    }
    let front = text::slice_chars(scope, 0, rule.len());
    assert(front@ =~= scope@.take(rule@.len() as int));
    chars_eq(&front, &rule) && (rule.len() == scope.len() || scope[rule.len()] == '.')
}

/// The slot the first matching rule gives a scope.
fn slot_of(table: &Vec<(&'static str, Scoped)>, scope: &str) -> (r: Option<Scoped>)
    requires
        table@.len() == scope_rules().len(),
        forall|i: int|
            0 <= i < table@.len() ==> (#[trigger] table@[i]).0@ == scope_rules()[i].0 && table@[i].1
                == scope_rules()[i].1,
    ensures
        r == slot_from(scope@, 0),
{
    let chars = to_chars(scope);
    let mut i: usize = 0;
    while i < table.len()
        invariant
            i <= table@.len(),
            chars@ == scope@,
            table@.len() == scope_rules().len(),
            forall|k: int|
                0 <= k < table@.len() ==> (#[trigger] table@[k]).0@ == scope_rules()[k].0
                    && table@[k].1 == scope_rules()[k].1,
            slot_from(scope@, 0) == slot_from(scope@, i as int),
        decreases table.len() - i,
    {
        let (rule, slot) = table[i];
        assert(table@[i as int].0@ == scope_rules()[i as int].0);
        if is_scope_prefix(rule, &chars) {
            return Some(slot);
        }
        i += 1;
    }
    None
}

/// The style a token carries; see [`scope_style`].
pub fn style_for(scopes: &Vec<String>, styles: &Styles) -> (s: Style)
    ensures
        s == scope_style(text::texts(scopes@), *styles),
{
    let table = rules();
    let ghost all = text::texts(scopes@);
    let mut n: usize = scopes.len();
    assert(all.take(n as int) =~= all);
    while n > 0
        invariant
            n <= scopes.len(),
            all == text::texts(scopes@),
            table@.len() == scope_rules().len(),
            forall|k: int|
                0 <= k < table@.len() ==> (#[trigger] table@[k]).0@ == scope_rules()[k].0
                    && table@[k].1 == scope_rules()[k].1,
            scope_style(all, *styles) == scope_style(all.take(n as int), *styles),
        decreases n,
    {
        assert(all.take(n as int).drop_last() =~= all.take(n - 1));
        match slot_of(&table, &scopes[n - 1]) {
            Some(slot) => {
                return styles.scoped(slot);
            },
            None => {},
        }
        n -= 1;
    }
    styles.code
}

/// The spans of a line's tokens: each without its line break, those left empty
/// not drawn.
pub open spec fn token_spans(regions: Seq<RegionView>, styles: Styles) -> Seq<SpanView>
    decreases regions.len(),
{
    if regions.len() == 0 {
        Seq::empty()
    } else {
        let front = token_spans(regions.drop_last(), styles);
        let shown = text::trim_end_of(regions.last().text, '\n');
        if shown.len() == 0 {
            front
        } else {
            front.push(SpanView { text: shown, style: scope_style(regions.last().scopes, styles) })
        }
    }
}

/// Highlighted lines, from the tokens of each.
pub open spec fn token_lines(lines: Seq<Seq<RegionView>>, styles: Styles) -> Seq<LineView> {
    Seq::new(
        lines.len(),
        |i: int| wrap::bare_line(token_spans(lines[i], styles), LineKind::Chop),
    )
}

/// A line of flat text.
pub open spec fn flat_line(text: Seq<char>, style: Style, kind: LineKind) -> LineView {
    wrap::bare_line(seq![SpanView { text, style }], kind)
}

/// The lines of a text without its trailing line breaks, each in one style.
pub open spec fn flat_lines(text: Seq<char>, style: Style, kind: LineKind) -> Seq<LineView> {
    let lines = text::split(text::trim_end_of(text, '\n'), '\n');
    Seq::new(lines.len(), |i: int| flat_line(lines[i], style, kind))
}

/// A code block: highlighted when the info string names a language the
/// grammars can read, flat when it does not.
pub open spec fn code_lines(
    code: Seq<char>,
    info: Option<Seq<char>>,
    styles: Styles,
    table: Map<(Seq<char>, Seq<Seq<char>>), Seq<Seq<RegionView>>>,
) -> Seq<LineView> {
    let lines = text::whole_lines(text::trim_end_of(code, '\n'));
    match info {
        Some(info) if language(info) is Some && table.dom().contains((language(info)->0, lines)) =>
        token_lines(table[(language(info)->0, lines)], styles),
        _ => flat_lines(code, styles.code, LineKind::Chop),
    }
}

/// The lines of a text, each in one style; see [`flat_lines`].
pub fn plain_lines(text: &str, style: Style, kind: LineKind) -> (out: Vec<MdLine>)
    ensures
        wrap::md_views(out@) == flat_lines(text@, style, kind),
{
    let trimmed = trim_end_of_chars(&to_chars(text), '\n');
    let lines = split_chars(&trimmed, '\n');
    let ghost all = text::split(trimmed@, '\n');
    let mut out: Vec<MdLine> = Vec::new();
    let mut i: usize = 0;
    while i < lines.len()
        invariant
            i <= lines@.len(),
            lines@.len() == all.len(),
            forall|k: int| 0 <= k < lines@.len() ==> (#[trigger] lines@[k])@ == all[k],
            out@.len() == i,
            forall|k: int| 0 <= k < i ==> (#[trigger] out@[k])@ == flat_line(all[k], style, kind),
        decreases lines.len() - i,
    {
        let mut spans: Vec<Span> = Vec::new();
        spans.push(Span::styled(from_chars(&lines[i]), style));
        assert(style::views(spans@) =~= seq![SpanView { text: all[i as int], style }]);
        out.push(MdLine::new(spans, kind));
        i += 1;
    }
    assert(wrap::md_views(out@) =~= flat_lines(text@, style, kind));
    out
}

/// Highlighted lines from the tokens of each; see [`token_lines`].
pub fn styled_tokens(lines: &Vec<Vec<Region>>, styles: &Styles) -> (out: Vec<MdLine>)
    ensures
        wrap::md_views(out@) == token_lines(region_lines(lines@), *styles),
{
    let mut out: Vec<MdLine> = Vec::new();
    let mut i: usize = 0;
    while i < lines.len()
        invariant
            i <= lines@.len(),
            out@.len() == i,
            forall|k: int|
                0 <= k < i ==> (#[trigger] out@[k])@ == wrap::bare_line(
                    token_spans(region_views(lines@[k]@), *styles),
                    LineKind::Chop,
                ),
        decreases lines.len() - i,
    {
        let regions = &lines[i];
        let ghost all = region_views(regions@);
        let mut spans: Vec<Span> = Vec::new();
        let mut k: usize = 0;
        assert(style::views(spans@) =~= Seq::empty());
        while k < regions.len()
            invariant
                k <= regions@.len(),
                all == region_views(regions@),
                style::views(spans@) == token_spans(all.take(k as int), *styles),
            decreases regions.len() - k,
        {
            assert(all.take(k + 1).drop_last() =~= all.take(k as int));
            let region = &regions[k];
            let shown = trim_end_of_chars(&to_chars(&region.text), '\n');
            if shown.len() > 0 {
                let ghost before = style::views(spans@);
                let style = style_for(&region.scopes, styles);
                spans.push(Span::styled(from_chars(&shown), style));
                assert(style::views(spans@) =~= before.push(SpanView { text: shown@, style }));
            }
            k += 1;
        }
        assert(all.take(all.len() as int) =~= all);
        out.push(MdLine::new(spans, LineKind::Chop));
        i += 1;
    }
    assert(wrap::md_views(out@) =~= token_lines(region_lines(lines@), *styles));
    out
}

/// Strings of runs of characters.
fn to_strings(runs: &Vec<Vec<char>>) -> (out: Vec<String>)
    ensures
        out@.len() == runs@.len(),
        forall|i: int| 0 <= i < runs@.len() ==> (#[trigger] out@[i])@ == runs@[i]@,
{
    let mut out: Vec<String> = Vec::new();
    let mut i: usize = 0;
    while i < runs.len()
        invariant
            i <= runs@.len(),
            out@.len() == i,
            forall|k: int| 0 <= k < i ==> (#[trigger] out@[k])@ == runs@[k]@,
        decreases runs.len() - i,
    {
        out.push(from_chars(&runs[i]));
        i += 1;
    }
    out
}

/// Renders a code block's lines; see [`code_lines`].
pub fn highlight(code: &str, info: Option<&str>, styles: &Styles, syntaxes: &Syntaxes) -> (out: Vec<
    MdLine,
>)
    ensures
        wrap::md_views(out@) == code_lines(
            code@,
            match info {
                Some(info) => Some(info@),
                None => None,
            },
            *styles,
            syntaxes.table(),
        ),
{
    let name = match info {
        Some(info) => resolve_language(info),
        None => None,
    };
    if let Some(name) = name {
        let trimmed = trim_end_of_chars(&to_chars(code), '\n');
        let lines = to_strings(&whole_lines_of(&trimmed));
        assert(text::texts(lines@) =~= text::whole_lines(trimmed@));
        if let Some(tokens) = syntaxes.tokens(&name, &lines) {
            return styled_tokens(&tokens, styles);
        }
    }
    plain_lines(code, styles.code, LineKind::Chop)
}

} // verus!
