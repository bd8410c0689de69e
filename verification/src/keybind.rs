//! Which keys reach which actions, and how a configuration rebinds them.
//!
//! The whole table is rebindable, and both ways of getting it wrong name what
//! was wrong: an action there is not, and a key that cannot be read.

use vstd::prelude::*;

use crate::keys::{KeyCode, KeyEvent, KeyModifiers, MediaKeyCode, ModifierKeyCode};
use crate::rank;
use crate::text::{
    self, from_chars, is_earlier, join, parse_unsigned, push_decimal, quote, slice_chars,
    split_chars, str_eq, to_chars, trim_chars,
};

verus! {

/// Everything a key can be bound to.
#[derive(Clone, Copy, Debug, PartialEq, Eq, Structural)]
pub enum Action {
    /// Leave the program.
    AppExit,
    /// Open the command palette.
    PaletteOpen,
    /// Open the stored-session picker.
    SessionsOpen,
    /// Open the theme picker.
    ThemesOpen,
    /// Move to the next agent.
    AgentCycle,
}

impl Action {
    /// The name a configuration spells this action with.
    pub open spec fn name(self) -> Seq<char> {
        match self {
            Action::AppExit => "app_exit"@,
            Action::PaletteOpen => "palette_open"@,
            Action::SessionsOpen => "sessions_open"@,
            Action::ThemesOpen => "themes_open"@,
            Action::AgentCycle => "agent_cycle"@,
        }
    }

    /// The binding an action has where nothing rebinds it.
    pub open spec fn default_binding(self) -> Seq<char> {
        match self {
            Action::AppExit => "ctrl+c,ctrl+q,ctrl+d"@,
            Action::PaletteOpen => "ctrl+p"@,
            Action::SessionsOpen => "ctrl+s"@,
            Action::ThemesOpen => "ctrl+t"@,
            Action::AgentCycle => "tab"@,
        }
    }

    /// The keys of that binding.
    pub open spec fn default_keys(self) -> Seq<KeyEvent> {
        match self {
            Action::AppExit => seq![control('c'), control('q'), control('d')],
            Action::PaletteOpen => seq![control('p')],
            Action::SessionsOpen => seq![control('s')],
            Action::ThemesOpen => seq![control('t')],
            Action::AgentCycle => seq![
                KeyEvent::press(KeyCode::Tab, KeyModifiers::of(false, false, false)),
            ],
        }
    }

    /// Every action, in reference order.
    pub open spec fn in_order() -> Seq<Action> {
        seq![
            Action::AppExit,
            Action::PaletteOpen,
            Action::SessionsOpen,
            Action::ThemesOpen,
            Action::AgentCycle,
        ]
    }

    /// The name a configuration spells this action with.
    pub fn key(self) -> (s: &'static str)
        ensures
            s@ == self.name(),
    {
        match self {
            Action::AppExit => "app_exit",
            Action::PaletteOpen => "palette_open",
            Action::SessionsOpen => "sessions_open",
            Action::ThemesOpen => "themes_open",
            Action::AgentCycle => "agent_cycle",
        }
    }

    /// Every action, in reference order.
    pub fn all() -> (actions: Vec<Action>)
        ensures
            actions@ == Action::in_order(),
    {
        let actions = vec![
            Action::AppExit,
            Action::PaletteOpen,
            Action::SessionsOpen,
            Action::ThemesOpen,
            Action::AgentCycle,
        ];
        assert(actions@ =~= Action::in_order());
        actions
    }

    /// The keys of an action where nothing rebinds it; see
    /// [`Action::default_keys`].
    fn defaults(self) -> (keys: Vec<KeyEvent>)
        ensures
            keys@ == self.default_keys(),
    {
        let held = KeyModifiers::new(false, true, false);
        let keys: Vec<KeyEvent> = match self {
            Action::AppExit => vec![
                KeyEvent::new(KeyCode::Char('c'), held),
                KeyEvent::new(KeyCode::Char('q'), held),
                KeyEvent::new(KeyCode::Char('d'), held),
            ],
            Action::PaletteOpen => vec![KeyEvent::new(KeyCode::Char('p'), held)],
            Action::SessionsOpen => vec![KeyEvent::new(KeyCode::Char('s'), held)],
            Action::ThemesOpen => vec![KeyEvent::new(KeyCode::Char('t'), held)],
            Action::AgentCycle => vec![KeyEvent::new(KeyCode::Tab, KeyModifiers::none())],
        };
        assert(keys@ =~= self.default_keys());
        keys
    }
}

/// A character pressed under control.
pub open spec fn control(c: char) -> KeyEvent {
    KeyEvent::press(KeyCode::Char(c), KeyModifiers::of(false, true, false))
}

/// Both of two sets of modifiers.
pub open spec fn both(a: KeyModifiers, b: KeyModifiers) -> KeyModifiers {
    KeyModifiers {
        shift: a.shift || b.shift,
        control: a.control || b.control,
        alt: a.alt || b.alt,
        super_key: a.super_key || b.super_key,
        hyper: a.hyper || b.hyper,
        meta: a.meta || b.meta,
    }
}

/// No modifier at all.
pub open spec fn unmodified() -> KeyModifiers {
    KeyModifiers::of(false, false, false)
}

/// The modifier a word names.
pub open spec fn modifier_named(name: Seq<char>) -> Option<KeyModifiers> {
    if name == "ctrl"@ || name == "control"@ {
        Some(KeyModifiers { control: true, ..unmodified() })
    } else if name == "alt"@ || name == "option"@ || name == "meta"@ {
        Some(KeyModifiers { alt: true, ..unmodified() })
    } else if name == "shift"@ {
        Some(KeyModifiers { shift: true, ..unmodified() })
    } else if name == "super"@ || name == "cmd"@ || name == "command"@ {
        Some(KeyModifiers { super_key: true, ..unmodified() })
    } else if name == "hyper"@ {
        Some(KeyModifiers { hyper: true, ..unmodified() })
    } else {
        None
    }
}

/// The modifier a word names; see [`modifier_named`].
fn modifier(name: &str) -> (r: Option<KeyModifiers>)
    ensures
        r == modifier_named(name@),
{
    let mut held = KeyModifiers::none();
    if str_eq(name, "ctrl") || str_eq(name, "control") {
        held.control = true;
    } else if str_eq(name, "alt") || str_eq(name, "option") || str_eq(name, "meta") {
        held.alt = true;
    } else if str_eq(name, "shift") {
        held.shift = true;
    } else if str_eq(name, "super") || str_eq(name, "cmd") || str_eq(name, "command") {
        held.super_key = true;
    } else if str_eq(name, "hyper") {
        held.hyper = true;
    } else {
        return None;
    }
    Some(held)
}

/// The number of the function key a name names.
pub open spec fn function_key(name: Seq<char>) -> Option<u8> {
    if name.len() > 0 && name[0] == 'f' {
        match text::parsed(name.skip(1), 255) {
            Some(n) => if 1 <= n <= 24 {
                Some(n as u8)
            } else {
                None
            },
            None => None,
        }
    } else {
        None
    }
}

/// The key a word of its own names.
pub open spec fn word_key(name: Seq<char>) -> Option<KeyCode> {
    if name == "enter"@ || name == "return"@ {
        Some(KeyCode::Enter)
    } else if name == "esc"@ || name == "escape"@ {
        Some(KeyCode::Esc)
    } else if name == "tab"@ {
        Some(KeyCode::Tab)
    } else if name == "backtab"@ {
        Some(KeyCode::BackTab)
    } else if name == "backspace"@ {
        Some(KeyCode::Backspace)
    } else if name == "delete"@ || name == "del"@ {
        Some(KeyCode::Delete)
    } else if name == "insert"@ || name == "ins"@ {
        Some(KeyCode::Insert)
    } else if name == "home"@ {
        Some(KeyCode::Home)
    } else if name == "end"@ {
        Some(KeyCode::End)
    } else if name == "pageup"@ || name == "pgup"@ {
        Some(KeyCode::PageUp)
    } else if name == "pagedown"@ || name == "pgdn"@ || name == "pgdown"@ {
        Some(KeyCode::PageDown)
    } else if name == "up"@ {
        Some(KeyCode::Up)
    } else if name == "down"@ {
        Some(KeyCode::Down)
    } else if name == "left"@ {
        Some(KeyCode::Left)
    } else if name == "right"@ {
        Some(KeyCode::Right)
    } else if name == "space"@ {
        Some(KeyCode::Char(' '))
    } else {
        None
    }
}

/// The key a name names: a function key, a key with a word of its own, or the
/// key of a single character.
pub open spec fn key_named(name: Seq<char>) -> Option<KeyCode> {
    match function_key(name) {
        Some(n) => Some(KeyCode::F(n)),
        None => match word_key(name) {
            Some(code) => Some(code),
            None => if name.len() == 1 {
                Some(KeyCode::Char(name[0]))
            } else {
                None
            },
        },
    }
}

fn word_code(name: &str) -> (r: Option<KeyCode>)
    ensures
        r == word_key(name@),
{
    if str_eq(name, "enter") || str_eq(name, "return") {
        Some(KeyCode::Enter)
    } else if str_eq(name, "esc") || str_eq(name, "escape") {
        Some(KeyCode::Esc)
    } else if str_eq(name, "tab") {
        Some(KeyCode::Tab)
    } else if str_eq(name, "backtab") {
        Some(KeyCode::BackTab)
    } else if str_eq(name, "backspace") {
        Some(KeyCode::Backspace)
    } else if str_eq(name, "delete") || str_eq(name, "del") {
        Some(KeyCode::Delete)
    } else if str_eq(name, "insert") || str_eq(name, "ins") {
        Some(KeyCode::Insert)
    } else if str_eq(name, "home") {
        Some(KeyCode::Home)
    } else if str_eq(name, "end") {
        Some(KeyCode::End)
    } else if str_eq(name, "pageup") || str_eq(name, "pgup") {
        Some(KeyCode::PageUp)
    } else if str_eq(name, "pagedown") || str_eq(name, "pgdn") || str_eq(name, "pgdown") {
        Some(KeyCode::PageDown)
    } else if str_eq(name, "up") {
        Some(KeyCode::Up)
    } else if str_eq(name, "down") {
        Some(KeyCode::Down)
    } else if str_eq(name, "left") {
        Some(KeyCode::Left)
    } else if str_eq(name, "right") {
        Some(KeyCode::Right)
    } else if str_eq(name, "space") {
        Some(KeyCode::Char(' '))
    } else {
        None
    }
}

/// The key a name names; see [`key_named`].
fn code(name: &[char]) -> (r: Option<KeyCode>)
    ensures
        r == key_named(name@),
{
    let n: usize = name.len();
    if n > 0 && name[0] == 'f' {
        let rest = slice_chars(name, 1, n);
        assert(rest@ =~= name@.skip(1));
        match parse_unsigned(&rest, 255) {
            Some(number) => if 1 <= number && number <= 24 {
                return Some(KeyCode::F(number as u8));
            },
            None => {},
        }
    }
    match word_code(&from_chars(name)) {
        Some(code) => Some(code),
        None => if n == 1 {
            Some(KeyCode::Char(name[0]))
        } else {
            None
        },
    }
}

/// A text with its ASCII letters in lower case.
pub open spec fn lowered(s: Seq<char>) -> Seq<char> {
    Seq::new(
        s.len(),
        |i: int|
            if 'A' <= s[i] <= 'Z' {
                (s[i] as nat + 32) as char
            } else {
                s[i]
            },
    )
}

/// Lowers the ASCII letters of a text; see [`lowered`].
fn lower(s: &[char]) -> (v: Vec<char>)
    ensures
        v@ == lowered(s@),
{
    let mut v: Vec<char> = Vec::new();
    let mut i: usize = 0;
    while i < s.len()
        invariant
            i <= s@.len(),
            v@ =~= lowered(s@).take(i as int),
        decreases s.len() - i,
    {
        let c = s[i];
        if 'A' <= c && c <= 'Z' {
            v.push((c as u8 + 32) as char);
        } else {
            v.push(c);
        }
        i += 1;
    }
    assert(v@ =~= lowered(s@));
    v
}

/// The key the parts of a chord name: modifiers, then the key itself.
pub open spec fn chord(parts: Seq<Seq<char>>, held: KeyModifiers) -> Option<KeyEvent>
    decreases parts.len(),
{
    if parts.len() == 0 {
        None
    } else if parts.len() == 1 {
        if parts[0].len() == 0 {
            None
        } else {
            match key_named(parts[0]) {
                Some(code) => Some(KeyEvent::press(code, held)),
                None => None,
            }
        }
    } else {
        match modifier_named(parts[0]) {
            Some(modifier) => chord(parts.skip(1), both(held, modifier)),
            None => None,
        }
    }
}

/// The key a `ctrl+shift+x` style binding names, whatever its case.
pub open spec fn key_of(s: Seq<char>) -> Option<KeyEvent> {
    chord(text::split(lowered(s), '+'), unmodified())
}

/// One binding; see [`key_of`].
pub fn key(text: &str) -> (r: Option<KeyEvent>)
    ensures
        r == key_of(text@),
{
    let parts = split_chars(&lower(&to_chars(text)), '+');
    let ghost all = text::split(lowered(text@), '+');
    let mut held = KeyModifiers::none();
    let mut i: usize = 0;
    assert(all.skip(0) =~= all);
    while i < parts.len() - 1
        invariant
            i < parts@.len(),
            parts@.len() == all.len(),
            forall|k: int| 0 <= k < parts@.len() ==> (#[trigger] parts@[k])@ == all[k],
            key_of(text@) == chord(all.skip(i as int), held),
        decreases parts.len() - i,
    {
        assert(all.skip(i as int)[0] == parts@[i as int]@);
        assert(all.skip(i as int).skip(1) =~= all.skip(i + 1));
        match modifier(&from_chars(&parts[i])) {
            Some(more) => {
                held.shift = held.shift || more.shift;
                held.control = held.control || more.control;
                held.alt = held.alt || more.alt;
                held.super_key = held.super_key || more.super_key;
                held.hyper = held.hyper || more.hyper;
                held.meta = held.meta || more.meta;
            },
            None => {
                return None;
            },
        }
        i += 1;
    }
    assert(all.skip(i as int)[0] == parts@[i as int]@);
    let name = &parts[i];
    if name.len() == 0 {
        return None;
    }
    match code(name) {
        Some(code) => Some(KeyEvent::new(code, held)),
        None => None,
    }
}

/// The keys of the alternatives from `i` on behind those found so far; the
/// first alternative that names no key is what is wrong. Empty alternatives do
/// not count.
pub open spec fn keys_from(pieces: Seq<Seq<char>>, i: nat, found: Seq<KeyEvent>) -> Result<
    Seq<KeyEvent>,
    Seq<char>,
>
    decreases pieces.len() - i,
{
    if i >= pieces.len() {
        Ok(found)
    } else {
        let alternative = text::trim(pieces[i as int]);
        if alternative.len() == 0 {
            keys_from(pieces, i + 1, found)
        } else {
            match key_of(alternative) {
                Some(key) => keys_from(pieces, i + 1, found.push(key)),
                None => Err(alternative),
            }
        }
    }
}

/// The keys of a comma-separated binding.
pub open spec fn keys_of(value: Seq<char>) -> Result<Seq<KeyEvent>, Seq<char>> {
    keys_from(text::split(value, ','), 0, Seq::empty())
}

/// The view of what a binding was read as.
pub open spec fn keys_seen(keys: Result<Vec<KeyEvent>, String>) -> Result<
    Seq<KeyEvent>,
    Seq<char>,
> {
    match keys {
        Ok(keys) => Ok(keys@),
        Err(wrong) => Err(wrong@),
    }
}

/// Every alternative in a comma-separated binding; see [`keys_of`].
pub fn parse(value: &str) -> (r: Result<Vec<KeyEvent>, String>)
    ensures
        keys_seen(r) == keys_of(value@),
{
    let pieces = split_chars(&to_chars(value), ',');
    let ghost all = text::split(value@, ',');
    let mut found: Vec<KeyEvent> = Vec::new();
    let mut i: usize = 0;
    assert(found@ =~= Seq::empty());
    while i < pieces.len()
        invariant
            i <= pieces@.len(),
            pieces@.len() == all.len(),
            forall|k: int| 0 <= k < pieces@.len() ==> (#[trigger] pieces@[k])@ == all[k],
            keys_of(value@) == keys_from(all, i as nat, found@),
        decreases pieces.len() - i,
    {
        let alternative = trim_chars(&pieces[i]);
        if alternative.len() > 0 {
            let alternative = from_chars(&alternative);
            match key(&alternative) {
                Some(key) => found.push(key),
                None => {
                    return Err(alternative);
                },
            }
        }
        i += 1;
    }
    Ok(found)
}

/// A configuration this table cannot use.
#[derive(Clone, Debug, PartialEq, Eq)]
pub enum KeybindError {
    /// A name that is no action.
    UnknownAction { name: String },
    /// A value that names no key.
    UnparseableKey {
        /// The action whose binding it was.
        action: String,
        /// The offending alternative, not the whole value.
        key: String,
    },
}

/// An error as the contracts speak of it.
pub enum KeybindErrorView {
    UnknownAction { name: Seq<char> },
    UnparseableKey { action: Seq<char>, key: Seq<char> },
}

impl View for KeybindError {
    type V = KeybindErrorView;

    open spec fn view(&self) -> KeybindErrorView {
        match self {
            KeybindError::UnknownAction { name } => KeybindErrorView::UnknownAction {
                name: name@,
            },
            KeybindError::UnparseableKey { action, key } => KeybindErrorView::UnparseableKey {
                action: action@,
                key: key@,
            },
        }
    }
}

impl KeybindErrorView {
    /// What is said of an error.
    pub open spec fn message(self) -> Seq<char> {
        match self {
            KeybindErrorView::UnknownAction { name } => "unknown keybind action "@ + text::quoted(name)
                + "; this build binds app_exit, palette_open, sessions_open, themes_open, agent_cycle"@,
            KeybindErrorView::UnparseableKey { action, key } => action
                + ": cannot parse the key "@ + text::quoted(key),
        }
    }
}

impl KeybindError {
    /// What is said of an error; see [`KeybindErrorView::message`].
    pub fn message(&self) -> (s: String)
        ensures
            s@ == self@.message(),
    {
        let mut s = String::new();
        match self {
            KeybindError::UnknownAction { name } => {
                s.push_str("unknown keybind action ");
                s.push_str(&quote(name));
                s.push_str(
                    "; this build binds app_exit, palette_open, sessions_open, themes_open, agent_cycle",
                );
            },
            KeybindError::UnparseableKey { action, key } => {
                s.push_str(action);
                s.push_str(": cannot parse the key ");
                s.push_str(&quote(key));
            },
        }
        assert(s@ =~= self@.message());
        s
    }
}

/// The first character that the upper case of a character is made of, as
/// Unicode maps it.
pub uninterp spec fn first_upper(c: char) -> Option<char>;

/// `char::to_uppercase`: the first character of the upper case of `c`. Unicode
/// maps the ASCII small letters to the ASCII capitals and leaves the rest of
/// ASCII alone; everything else is named, not described.
#[verifier::external_body]
fn upper(c: char) -> (r: Option<char>)
    ensures
        r == first_upper(c),
        'a' <= c <= 'z' ==> r == Some((c as nat - 32) as char),
        c as nat <= 127 && !('a' <= c <= 'z') ==> r == Some(c),
{
    c.to_uppercase().next()
}

/// The capital of a character; of one that has none, itself. In ASCII the small
/// letters have one, and it is the ASCII capital.
pub open spec fn capital(c: char) -> char {
    if 'a' <= c <= 'z' {
        (c as nat - 32) as char
    } else if c as nat <= 127 {
        c
    } else {
        match first_upper(c) {
            Some(upper) => upper,
            None => c,
        }
    }
}

/// The key code shift makes of another: the capital of a character, backtab of
/// tab, and no other.
pub open spec fn shifted(code: KeyCode) -> KeyCode {
    match code {
        KeyCode::Char(c) => KeyCode::Char(capital(c)),
        KeyCode::Tab => KeyCode::BackTab,
        _ => code,
    }
}

/// A key in the single spelling a comparison is made in: shift is folded into
/// the key itself, and every other modifier stays.
pub open spec fn folded(key: KeyEvent) -> (KeyCode, KeyModifiers) {
    (
        if key.modifiers.shift {
            shifted(key.code)
        } else {
            key.code
        },
        KeyModifiers { shift: false, ..key.modifiers },
    )
}

/// A key in the spelling a comparison is made in; see [`folded`].
fn canonical(key: KeyEvent) -> (r: (KeyCode, KeyModifiers))
    ensures
        r == folded(key),
{
    let mut modifiers = key.modifiers;
    modifiers.shift = false;
    let code = if key.modifiers.shift {
        match key.code {
            KeyCode::Char(c) => KeyCode::Char(
                match upper(c) {
                    Some(capital) => capital,
                    None => c,
                },
            ),
            KeyCode::Tab => KeyCode::BackTab,
            other => other,
        }
    } else {
        key.code
    };
    (code, modifiers)
}

/// Whether two key events are the same binding, whatever their kind and state.
fn same(bound: KeyEvent, pressed: KeyEvent) -> (r: bool)
    ensures
        r == (folded(bound) == folded(pressed)),
{
    let (bound_code, bound_held) = canonical(bound);
    let (code, held) = canonical(pressed);
    bound_code == code && bound_held == held
}

/// A small letter with shift is the same binding as its capital, with shift
/// reported beside it or not.
pub proof fn law_shift_makes_a_capital(small: KeyEvent, large: KeyEvent, c: char)
    requires
        'a' <= c <= 'z',
        small.code == KeyCode::Char(c),
        small.modifiers.shift,
        large.code == KeyCode::Char((c as nat - 32) as char),
        large.modifiers == (KeyModifiers { shift: large.modifiers.shift, ..small.modifiers }),
    ensures
        folded(small) == folded(large),
        reached(seq![small], large),
        reached(seq![large], small),
{
    let upper = (c as nat - 32) as char;
    assert('A' <= upper <= 'Z');
    assert(seq![small][0] == small && seq![large][0] == large);
}

/// One binding: the keys that reach an action.
#[derive(Clone, Debug, PartialEq, Eq)]
struct Binding {
    action: Action,
    keys: Vec<KeyEvent>,
}

/// A binding as the contracts speak of it.
pub struct BindingView {
    pub action: Action,
    pub keys: Seq<KeyEvent>,
}

impl View for Binding {
    type V = BindingView;

    closed spec fn view(&self) -> BindingView {
        BindingView { action: self.action, keys: self.keys@ }
    }
}

/// Which keys reach which actions this run.
#[derive(Clone, Debug, PartialEq, Eq)]
pub struct Keybinds {
    bindings: Vec<Binding>,
}

impl View for Keybinds {
    type V = Seq<BindingView>;

    closed spec fn view(&self) -> Seq<BindingView> {
        Seq::new(self.bindings@.len(), |i: int| self.bindings@[i]@)
    }
}

/// The compiled-in bindings.
pub open spec fn default_table() -> Seq<BindingView> {
    Seq::new(
        Action::in_order().len(),
        |i: int|
            BindingView {
                action: Action::in_order()[i],
                keys: Action::in_order()[i].default_keys(),
            },
    )
}

/// The action a name names.
pub open spec fn action_named(name: Seq<char>) -> Option<Action> {
    if name == "app_exit"@ {
        Some(Action::AppExit)
    } else if name == "palette_open"@ {
        Some(Action::PaletteOpen)
    } else if name == "sessions_open"@ {
        Some(Action::SessionsOpen)
    } else if name == "themes_open"@ {
        Some(Action::ThemesOpen)
    } else if name == "agent_cycle"@ {
        Some(Action::AgentCycle)
    } else {
        None
    }
}

fn find_action(name: &str) -> (r: Option<Action>)
    ensures
        r == action_named(name@),
{
    if str_eq(name, "app_exit") {
        Some(Action::AppExit)
    } else if str_eq(name, "palette_open") {
        Some(Action::PaletteOpen)
    } else if str_eq(name, "sessions_open") {
        Some(Action::SessionsOpen)
    } else if str_eq(name, "themes_open") {
        Some(Action::ThemesOpen)
    } else if str_eq(name, "agent_cycle") {
        Some(Action::AgentCycle)
    } else {
        None
    }
}

/// Where the binding of an action stands, from `i` on; past the end where it
/// has none.
pub open spec fn row_of(table: Seq<BindingView>, action: Action, i: nat) -> nat
    decreases table.len() - i,
{
    if i >= table.len() || table[i as int].action == action {
        i
    } else {
        row_of(table, action, i + 1)
    }
}

/// A table with the keys of one action replaced.
pub open spec fn rebound(table: Seq<BindingView>, action: Action, keys: Seq<KeyEvent>) -> Seq<
    BindingView,
> {
    let at = row_of(table, action, 0);
    if at < table.len() {
        table.update(at as int, BindingView { action: table[at as int].action, keys })
    } else {
        table
    }
}

/// A table with the entries of a configuration from `i` on taken into it, or
/// the first thing that is wrong with them.
pub open spec fn configured(
    table: Seq<BindingView>,
    entries: Seq<(Seq<char>, Seq<char>)>,
    i: nat,
) -> Result<Seq<BindingView>, KeybindErrorView>
    decreases entries.len() - i,
{
    if i >= entries.len() {
        Ok(table)
    } else {
        let (name, value) = entries[i as int];
        match action_named(name) {
            None => Err(KeybindErrorView::UnknownAction { name }),
            Some(action) => match keys_of(value) {
                Err(key) => Err(KeybindErrorView::UnparseableKey { action: name, key }),
                Ok(keys) => configured(rebound(table, action, keys), entries, i + 1),
            },
        }
    }
}

/// The entries of a configuration as the contracts speak of them.
pub open spec fn entries_seen(entries: Seq<(String, String)>) -> Seq<(Seq<char>, Seq<char>)> {
    Seq::new(entries.len(), |i: int| (entries[i].0@, entries[i].1@))
}

/// Which of two entries has the earlier name.
pub open spec fn earlier_name(entries: Seq<(Seq<char>, Seq<char>)>) -> spec_fn(int, int) -> bool {
    |i: int, j: int| text::earlier(entries[i].0, entries[j].0)
}

/// The entries of a configuration in the order of their names.
pub open spec fn by_name(entries: Seq<(Seq<char>, Seq<char>)>) -> Seq<(Seq<char>, Seq<char>)> {
    let order = rank::ranking(entries.len(), earlier_name(entries));
    Seq::new(order.len(), |k: int| entries[order[k]])
}

/// The places of the entries in the order of their names; see [`by_name`].
fn name_order(entries: &Vec<(String, String)>) -> (order: Vec<usize>)
    ensures
        rank::positions(order@) == rank::ranking(
            entries@.len(),
            earlier_name(entries_seen(entries@)),
        ),
        forall|k: int| 0 <= k < order@.len() ==> #[trigger] order@[k] < entries@.len(),
        order@.len() == entries@.len(),
{
    let ghost all = entries_seen(entries@);
    let ghost before = earlier_name(all);
    let mut order: Vec<usize> = Vec::new();
    let mut i: usize = 0;
    assert(rank::positions(order@) =~= rank::ranking(0, before));
    while i < entries.len()
        invariant
            i <= entries@.len(),
            all == entries_seen(entries@),
            before == earlier_name(all),
            rank::positions(order@) == rank::ranking(i as nat, before),
            order@.len() == i,
            forall|k: int| 0 <= k < order@.len() ==> #[trigger] order@[k] < i,
        decreases entries.len() - i,
    {
        let ghost was = rank::positions(order@);
        let mut at: usize = 0;
        while at < order.len() && !is_earlier(&entries[i].0, &entries[order[at]].0)
            invariant
                at <= order@.len(),
                i < entries@.len(),
                order@.len() == i,
                all == entries_seen(entries@),
                before == earlier_name(all),
                was == rank::positions(order@),
                forall|k: int| 0 <= k < order@.len() ==> #[trigger] order@[k] < i,
                forall|k: int| 0 <= k < at ==> !before(i as int, #[trigger] was[k]),
            decreases order.len() - at,
        {
            assert(was[at as int] == order@[at as int]);
            assert(all[i as int].0 == entries@[i as int].0@);
            assert(all[was[at as int]].0 == entries@[order@[at as int] as int].0@);
            at += 1;
        }
        proof {
            let place = rank::lemma_placed(was, i as int, before);
            if at < order@.len() {
                assert(was[at as int] == order@[at as int]);
                assert(all[i as int].0 == entries@[i as int].0@);
                assert(all[was[at as int]].0 == entries@[order@[at as int] as int].0@);
                assert(before(i as int, was[at as int]));
            }
            if place < at {
                assert(!before(i as int, was[place]));
            }
            if at < place {
                assert(!before(i as int, was[at as int]));
            }
        }
        order.insert(at, i);
        assert(rank::positions(order@) =~= was.take(at as int) + seq![i as int] + was.skip(
            at as int,
        ));
        i += 1;
    }
    order
}

/// The view of what a configuration came to.
pub open spec fn binds_seen(binds: Result<Keybinds, KeybindError>) -> Result<
    Seq<BindingView>,
    KeybindErrorView,
> {
    match binds {
        Ok(binds) => Ok(binds@),
        Err(error) => Err(error@),
    }
}

/// Whether one of the keys is pressed.
pub open spec fn reached(keys: Seq<KeyEvent>, pressed: KeyEvent) -> bool {
    exists|k: int| 0 <= k < keys.len() && folded(#[trigger] keys[k]) == folded(pressed)
}

/// The action of the first binding from `i` on that a key reaches.
pub open spec fn action_reached(table: Seq<BindingView>, pressed: KeyEvent, i: nat) -> Option<
    Action,
>
    decreases table.len() - i,
{
    if i >= table.len() {
        None
    } else if reached(table[i as int].keys, pressed) {
        Some(table[i as int].action)
    } else {
        action_reached(table, pressed, i + 1)
    }
}

/// Whether one of the keys is pressed; see [`reached`].
fn reaches(keys: &Vec<KeyEvent>, pressed: KeyEvent) -> (r: bool)
    ensures
        r == reached(keys@, pressed),
{
    let mut i: usize = 0;
    while i < keys.len()
        invariant
            i <= keys@.len(),
            forall|k: int| 0 <= k < i ==> folded(#[trigger] keys@[k]) != folded(pressed),
        decreases keys.len() - i,
    {
        if same(keys[i], pressed) {
            return true;
        }
        i += 1;
    }
    false
}

impl Keybinds {
    /// The compiled-in bindings.
    pub fn defaults() -> (binds: Keybinds)
        ensures
            binds@ == default_table(),
    {
        let actions = Action::all();
        let mut bindings: Vec<Binding> = Vec::new();
        let mut i: usize = 0;
        while i < actions.len()
            invariant
                i <= actions@.len(),
                actions@ == Action::in_order(),
                bindings@.len() == i,
                forall|k: int| 0 <= k < i ==> (#[trigger] bindings@[k])@ == default_table()[k],
            decreases actions.len() - i,
        {
            bindings.push(Binding { action: actions[i], keys: actions[i].defaults() });
            i += 1;
        }
        let binds = Keybinds { bindings };
        assert(binds@ =~= default_table());
        binds
    }

    /// The defaults, with whatever a configuration rebinds. An entry that
    /// mentions an action replaces that action's keys outright; in the order of
    /// their names, the first entry that names no action, or a key that cannot be
    /// read, is the error.
    pub fn from_config(entries: &Vec<(String, String)>) -> (r: Result<Keybinds, KeybindError>)
        ensures
            binds_seen(r) == configured(default_table(), by_name(entries_seen(entries@)), 0),
    {
        let ghost all = by_name(entries_seen(entries@));
        let order = name_order(entries);
        let mut binds = Keybinds::defaults();
        let mut i: usize = 0;
        while i < order.len()
            invariant
                i <= order@.len(),
                order@.len() == all.len(),
                all == by_name(entries_seen(entries@)),
                rank::positions(order@) == rank::ranking(
                    entries@.len(),
                    earlier_name(entries_seen(entries@)),
                ),
                forall|k: int| 0 <= k < order@.len() ==> #[trigger] order@[k] < entries@.len(),
                configured(default_table(), all, 0) == configured(binds@, all, i as nat),
            decreases order.len() - i,
        {
            let (name, value) = &entries[order[i]];
            assert(rank::positions(order@)[i as int] == order@[i as int]);
            assert(all[i as int] == (name@, value@));
            let action = match find_action(name) {
                Some(action) => action,
                None => {
                    return Err(KeybindError::UnknownAction { name: name.clone() });
                },
            };
            let keys = match parse(value) {
                Ok(keys) => keys,
                Err(key) => {
                    return Err(KeybindError::UnparseableKey { action: name.clone(), key });
                },
            };
            binds.rebind(action, keys);
            i += 1;
        }
        Ok(binds)
    }

    /// Replaces the keys of an action; see [`rebound`].
    fn rebind(&mut self, action: Action, keys: Vec<KeyEvent>)
        ensures
            final(self)@ == rebound(old(self)@, action, keys@),
    {
        let ghost table = self@;
        let at = self.row(action);
        if at < self.bindings.len() {
            let kept = self.bindings[at].action;
            self.bindings.set(at, Binding { action: kept, keys });
            assert(self@ =~= rebound(table, action, keys@));
        }
    }

    /// Where the binding of an action stands; see [`row_of`].
    fn row(&self, action: Action) -> (at: usize)
        ensures
            at == row_of(self@, action, 0),
            at <= self.bindings@.len(),
    {
        let mut at: usize = 0;
        while at < self.bindings.len() && self.bindings[at].action != action
            invariant
                at <= self.bindings@.len(),
                row_of(self@, action, 0) == row_of(self@, action, at as nat),
            decreases self.bindings.len() - at,
        {
            assert(self@[at as int].action == self.bindings@[at as int].action);
            at += 1;
        }
        if at < self.bindings.len() {
            assert(self@[at as int].action == self.bindings@[at as int].action);
        }
        at
    }

    /// Whether `key` reaches `action`.
    pub fn binds(&self, action: Action, key: KeyEvent) -> (r: bool)
        ensures
            r == ({
                let at = row_of(self@, action, 0);
                at < self@.len() && reached(self@[at as int].keys, key)
            }),
    {
        let at = self.row(action);
        at < self.bindings.len() && reaches(&self.bindings[at].keys, key)
    }

    /// The action `key` reaches: of several the one listed first.
    pub fn action(&self, key: KeyEvent) -> (r: Option<Action>)
        ensures
            r == action_reached(self@, key, 0),
    {
        let mut i: usize = 0;
        while i < self.bindings.len()
            invariant
                i <= self.bindings@.len(),
                action_reached(self@, key, 0) == action_reached(self@, key, i as nat),
            decreases self.bindings.len() - i,
        {
            assert(self@[i as int] == self.bindings@[i as int]@);
            if reaches(&self.bindings[i].keys, key) {
                return Some(self.bindings[i].action);
            }
            i += 1;
        }
        None
    }

    /// How the keys of an action are shown to a person; none when it has none
    /// left.
    pub fn hint(&self, action: Action) -> (r: Option<String>)
        ensures
            match r {
                Some(s) => hint_of(self@, action) == Some(s@),
                None => hint_of(self@, action) is None,
            },
    {
        let at = self.row(action);
        if at >= self.bindings.len() {
            return None;
        }
        let keys = &self.bindings[at].keys;
        assert(self@[at as int].keys == keys@);
        if keys.len() == 0 {
            return None;
        }
        let mut spelled: Vec<String> = Vec::new();
        let mut i: usize = 0;
        while i < keys.len()
            invariant
                i <= keys@.len(),
                text::texts(spelled@) =~= Seq::new(i as nat, |k: int| chord_text(keys@[k])),
            decreases keys.len() - i,
        {
            let ghost before = text::texts(spelled@);
            spelled.push(render(keys[i]));
            assert(text::texts(spelled@) =~= before.push(chord_text(keys@[i as int])));
            i += 1;
        }
        assert(text::texts(spelled@) =~= Seq::new(
            keys@.len(),
            |k: int| chord_text(self@[at as int].keys[k]),
        ));
        Some(join(&spelled, ", "))
    }
}

impl Default for Keybinds {
    fn default() -> (binds: Keybinds)
        ensures
            binds@ == default_table(),
    {
        Keybinds::defaults()
    }
}

/// How the keys of an action are shown.
pub open spec fn hint_of(table: Seq<BindingView>, action: Action) -> Option<Seq<char>> {
    let at = row_of(table, action, 0);
    if at >= table.len() || table[at as int].keys.len() == 0 {
        None
    } else {
        Some(
            text::joined(
                Seq::new(
                    table[at as int].keys.len(),
                    |k: int| chord_text(table[at as int].keys[k]),
                ),
                ", "@,
            ),
        )
    }
}

/// A word and the plus behind it, where it is held.
pub open spec fn held_text(held: bool, name: Seq<char>) -> Seq<char> {
    if held {
        name + "+"@
    } else {
        Seq::empty()
    }
}

/// How a binding is written back out.
pub open spec fn chord_text(key: KeyEvent) -> Seq<char> {
    held_text(key.modifiers.control, "ctrl"@) + held_text(key.modifiers.alt, "alt"@) + held_text(
        key.modifiers.shift,
        "shift"@,
    ) + held_text(key.modifiers.super_key, "super"@) + held_text(key.modifiers.hyper, "hyper"@)
        + code_text(key.code)
}

/// How one key is spelled.
pub open spec fn code_text(code: KeyCode) -> Seq<char> {
    match code {
        KeyCode::Char(c) => if c == ' ' {
            "space"@
        } else {
            seq![c]
        },
        KeyCode::F(n) => seq!['f'] + text::decimal(n as nat),
        KeyCode::Enter => "enter"@,
        KeyCode::Esc => "esc"@,
        KeyCode::Tab => "tab"@,
        KeyCode::BackTab => "backtab"@,
        KeyCode::Backspace => "backspace"@,
        KeyCode::Delete => "delete"@,
        KeyCode::Insert => "insert"@,
        KeyCode::Home => "home"@,
        KeyCode::End => "end"@,
        KeyCode::PageUp => "pageup"@,
        KeyCode::PageDown => "pagedown"@,
        KeyCode::Up => "up"@,
        KeyCode::Down => "down"@,
        KeyCode::Left => "left"@,
        KeyCode::Right => "right"@,
        KeyCode::Null => "null"@,
        KeyCode::CapsLock => "capslock"@,
        KeyCode::ScrollLock => "scrolllock"@,
        KeyCode::NumLock => "numlock"@,
        KeyCode::PrintScreen => "printscreen"@,
        KeyCode::Pause => "pause"@,
        KeyCode::Menu => "menu"@,
        KeyCode::KeypadBegin => "keypadbegin"@,
        KeyCode::Media(media) => "media("@ + media_text(media) + ")"@,
        KeyCode::Modifier(modifier) => "modifier("@ + modifier_text(modifier) + ")"@,
    }
}

/// How a media key is spelled.
pub open spec fn media_text(media: MediaKeyCode) -> Seq<char> {
    match media {
        MediaKeyCode::Play => "play"@,
        MediaKeyCode::Pause => "pause"@,
        MediaKeyCode::PlayPause => "playpause"@,
        MediaKeyCode::Reverse => "reverse"@,
        MediaKeyCode::Stop => "stop"@,
        MediaKeyCode::FastForward => "fastforward"@,
        MediaKeyCode::Rewind => "rewind"@,
        MediaKeyCode::TrackNext => "tracknext"@,
        MediaKeyCode::TrackPrevious => "trackprevious"@,
        MediaKeyCode::Record => "record"@,
        MediaKeyCode::LowerVolume => "lowervolume"@,
        MediaKeyCode::RaiseVolume => "raisevolume"@,
        MediaKeyCode::MuteVolume => "mutevolume"@,
    }
}

/// How a modifier key is spelled.
pub open spec fn modifier_text(modifier: ModifierKeyCode) -> Seq<char> {
    match modifier {
        ModifierKeyCode::LeftShift => "leftshift"@,
        ModifierKeyCode::LeftControl => "leftcontrol"@,
        ModifierKeyCode::LeftAlt => "leftalt"@,
        ModifierKeyCode::LeftSuper => "leftsuper"@,
        ModifierKeyCode::LeftHyper => "lefthyper"@,
        ModifierKeyCode::LeftMeta => "leftmeta"@,
        ModifierKeyCode::RightShift => "rightshift"@,
        ModifierKeyCode::RightControl => "rightcontrol"@,
        ModifierKeyCode::RightAlt => "rightalt"@,
        ModifierKeyCode::RightSuper => "rightsuper"@,
        ModifierKeyCode::RightHyper => "righthyper"@,
        ModifierKeyCode::RightMeta => "rightmeta"@,
        ModifierKeyCode::IsoLevel3Shift => "isolevel3shift"@,
        ModifierKeyCode::IsoLevel5Shift => "isolevel5shift"@,
    }
}

fn media_name(media: MediaKeyCode) -> (s: &'static str)
    ensures
        s@ == media_text(media),
{
    match media {
        MediaKeyCode::Play => "play",
        MediaKeyCode::Pause => "pause",
        MediaKeyCode::PlayPause => "playpause",
        MediaKeyCode::Reverse => "reverse",
        MediaKeyCode::Stop => "stop",
        MediaKeyCode::FastForward => "fastforward",
        MediaKeyCode::Rewind => "rewind",
        MediaKeyCode::TrackNext => "tracknext",
        MediaKeyCode::TrackPrevious => "trackprevious",
        MediaKeyCode::Record => "record",
        MediaKeyCode::LowerVolume => "lowervolume",
        MediaKeyCode::RaiseVolume => "raisevolume",
        MediaKeyCode::MuteVolume => "mutevolume",
    }
}

fn modifier_name(modifier: ModifierKeyCode) -> (s: &'static str)
    ensures
        s@ == modifier_text(modifier),
{
    match modifier {
        ModifierKeyCode::LeftShift => "leftshift",
        ModifierKeyCode::LeftControl => "leftcontrol",
        ModifierKeyCode::LeftAlt => "leftalt",
        ModifierKeyCode::LeftSuper => "leftsuper",
        ModifierKeyCode::LeftHyper => "lefthyper",
        ModifierKeyCode::LeftMeta => "leftmeta",
        ModifierKeyCode::RightShift => "rightshift",
        ModifierKeyCode::RightControl => "rightcontrol",
        ModifierKeyCode::RightAlt => "rightalt",
        ModifierKeyCode::RightSuper => "rightsuper",
        ModifierKeyCode::RightHyper => "righthyper",
        ModifierKeyCode::RightMeta => "rightmeta",
        ModifierKeyCode::IsoLevel3Shift => "isolevel3shift",
        ModifierKeyCode::IsoLevel5Shift => "isolevel5shift",
    }
}

/// How one key is spelled; see [`code_text`].
fn push_name(out: &mut String, code: KeyCode)
    ensures
        final(out)@ == old(out)@ + code_text(code),
{
    match code {
        KeyCode::Char(c) => if c == ' ' {
            out.push_str("space");
        } else {
            out.push(c);
        },
        KeyCode::F(n) => {
            out.push('f');
            push_decimal(out, n as u64);
        },
        KeyCode::Enter => out.push_str("enter"),
        KeyCode::Esc => out.push_str("esc"),
        KeyCode::Tab => out.push_str("tab"),
        KeyCode::BackTab => out.push_str("backtab"),
        KeyCode::Backspace => out.push_str("backspace"),
        KeyCode::Delete => out.push_str("delete"),
        KeyCode::Insert => out.push_str("insert"),
        KeyCode::Home => out.push_str("home"),
        KeyCode::End => out.push_str("end"),
        KeyCode::PageUp => out.push_str("pageup"),
        KeyCode::PageDown => out.push_str("pagedown"),
        KeyCode::Up => out.push_str("up"),
        KeyCode::Down => out.push_str("down"),
        KeyCode::Left => out.push_str("left"),
        KeyCode::Right => out.push_str("right"),
        KeyCode::Null => out.push_str("null"),
        KeyCode::CapsLock => out.push_str("capslock"),
        KeyCode::ScrollLock => out.push_str("scrolllock"),
        KeyCode::NumLock => out.push_str("numlock"),
        KeyCode::PrintScreen => out.push_str("printscreen"),
        KeyCode::Pause => out.push_str("pause"),
        KeyCode::Menu => out.push_str("menu"),
        KeyCode::KeypadBegin => out.push_str("keypadbegin"),
        KeyCode::Media(media) => {
            out.push_str("media(");
            out.push_str(media_name(media));
            out.push_str(")");
        },
        KeyCode::Modifier(modifier) => {
            out.push_str("modifier(");
            out.push_str(modifier_name(modifier));
            out.push_str(")");
        },
    }
    assert(out@ =~= old(out)@ + code_text(code));
}

/// Adds a word and a plus, where it is held; see [`held_text`].
fn push_held(out: &mut String, held: bool, name: &str)
    ensures
        final(out)@ == old(out)@ + held_text(held, name@),
{
    if held {
        out.push_str(name);
        out.push_str("+");
    }
    assert(out@ =~= old(out)@ + held_text(held, name@));
}

/// How a binding is written back out; see [`chord_text`].
pub fn render(key: KeyEvent) -> (s: String)
    ensures
        s@ == chord_text(key),
{
    let mut s = String::new();
    push_held(&mut s, key.modifiers.control, "ctrl");
    assert(s@ =~= held_text(key.modifiers.control, "ctrl"@));
    push_held(&mut s, key.modifiers.alt, "alt");
    push_held(&mut s, key.modifiers.shift, "shift");
    push_held(&mut s, key.modifiers.super_key, "super");
    push_held(&mut s, key.modifiers.hyper, "hyper");
    push_name(&mut s, key.code);
    s
}

/// Whatever a configuration says, every action keeps its place in the table.
pub proof fn law_every_action_keeps_its_place(
    table: Seq<BindingView>,
    entries: Seq<(Seq<char>, Seq<char>)>,
    i: nat,
)
    ensures
        configured(table, entries, i) matches Ok(after) ==> {
            &&& after.len() == table.len()
            &&& forall|k: int|
                0 <= k < table.len() ==> (#[trigger] after[k]).action == table[k].action
        },
    decreases entries.len() - i,
{
    if i < entries.len() {
        let (name, value) = entries[i as int];
        if let Some(action) = action_named(name) {
            if let Ok(keys) = keys_of(value) {
                law_every_action_keeps_its_place(rebound(table, action, keys), entries, i + 1);
            }
        }
    }
}

proof fn lemma_row_of(table: Seq<BindingView>, action: Action, i: nat)
    requires
        i <= table.len(),
    ensures
        i <= row_of(table, action, i) <= table.len(),
        row_of(table, action, i) < table.len() ==> table[row_of(table, action, i) as int].action
            == action,
        forall|k: int|
            i <= k < row_of(table, action, i) ==> (#[trigger] table[k]).action != action,
    decreases table.len() - i,
{
    if i < table.len() && table[i as int].action != action {
        lemma_row_of(table, action, i + 1);
    }
}

/// Whether no two entries have the same name.
pub open spec fn names_differ(entries: Seq<(Seq<char>, Seq<char>)>) -> bool {
    forall|i: int, j: int|
        0 <= i < entries.len() && 0 <= j < entries.len() && i != j ==> (#[trigger] entries[i]).0
            != (#[trigger] entries[j]).0
}

/// Whether an entry names an action and keys that can be read.
pub open spec fn legible(entry: (Seq<char>, Seq<char>)) -> bool {
    action_named(entry.0) is Some && keys_of(entry.1) is Ok
}

/// What the entries from `i` on make of the row of an action.
proof fn lemma_configured_row(
    table: Seq<BindingView>,
    entries: Seq<(Seq<char>, Seq<char>)>,
    i: nat,
    action: Action,
    r: int,
)
    requires
        i <= entries.len(),
        names_differ(entries),
        0 <= r < table.len(),
        table[r].action == action,
        forall|k: int| 0 <= k < r ==> (#[trigger] table[k]).action != action,
    ensures
        match configured(table, entries, i) {
            Ok(after) => {
                &&& r < after.len()
                &&& row_of(after, action, 0) == r
                &&& forall|j: int| i <= j < entries.len() ==> legible(#[trigger] entries[j])
                &&& forall|j: int|
                    i <= j < entries.len() && action_named((#[trigger] entries[j]).0) == Some(
                        action,
                    ) ==> keys_of(entries[j].1) == Ok::<Seq<KeyEvent>, Seq<char>>(after[r].keys)
                &&& (forall|j: int|
                    i <= j < entries.len() ==> action_named((#[trigger] entries[j]).0) != Some(
                        action,
                    )) ==> after[r].keys == table[r].keys
            },
            Err(_) => exists|j: int| i <= j < entries.len() && !legible(#[trigger] entries[j]),
        },
    decreases entries.len() - i,
{
    if i >= entries.len() {
        lemma_row_of(table, action, 0);
    } else {
        let (name, value) = entries[i as int];
        if legible(entries[i as int]) {
            let named = action_named(name)->0;
            let keys = keys_of(value)->Ok_0;
            let next = rebound(table, named, keys);
            lemma_row_of(table, named, 0);
            assert(forall|k: int|
                0 <= k < table.len() ==> (#[trigger] next[k]).action == table[k].action);
            lemma_configured_row(next, entries, i + 1, action, r);
            if named == action {
                assert(row_of(table, named, 0) == r);
                assert forall|j: int| i < j < entries.len() implies action_named(
                    (#[trigger] entries[j]).0,
                ) != Some(action) by {
                    assert(entries[j].0 != entries[i as int].0);
                }
            }
        }
    }
}

/// The entries in the order of their names are the entries.
proof fn lemma_by_name(entries: Seq<(Seq<char>, Seq<char>)>)
    requires
        names_differ(entries),
    ensures
        names_differ(by_name(entries)),
        forall|i: int|
            0 <= i < entries.len() ==> by_name(entries).contains(#[trigger] entries[i]),
        forall|k: int|
            0 <= k < by_name(entries).len() ==> entries.contains(#[trigger] by_name(entries)[k]),
{
    let n = entries.len();
    let before = earlier_name(entries);
    assert(rank::orders(n, before)) by {
        assert forall|i: int, j: int|
            0 <= i < n && 0 <= j < n && #[trigger] before(i, j) implies !before(j, i) by {
            text::lemma_earlier_asymmetric(entries[i].0, entries[j].0);
        }
        assert forall|i: int, j: int, k: int|
            0 <= i < n && 0 <= j < n && 0 <= k < n && !#[trigger] before(i, j)
                && !#[trigger] before(j, k) implies !before(i, k) by {
            text::lemma_earlier_carries(entries[i].0, entries[j].0, entries[k].0);
        }
    }
    rank::law_a_ranking_is_in_order(n, before);
    let order = rank::ranking(n, before);
    let sorted = by_name(entries);
    assert forall|a: int, b: int|
        0 <= a < sorted.len() && 0 <= b < sorted.len() && a != b implies (#[trigger] sorted[a]).0
        != (#[trigger] sorted[b]).0 by {
        let (low, high) = if a < b {
            (a, b)
        } else {
            (b, a)
        };
        assert(!before(order[high], order[low]));
        if order[low] == order[high] {
            assert(before(order[low], order[high]) || order[low] < order[high]);
        }
        assert(entries[order[low]].0 != entries[order[high]].0);
    }
    assert forall|i: int| 0 <= i < n implies sorted.contains(#[trigger] entries[i]) by {
        assert(order.contains(i));
        let k = choose|k: int| 0 <= k < order.len() && order[k] == i;
        assert(sorted[k] == entries[i]);
    }
}

/// An entry replaces the keys of its action outright, and touches no other. With
/// whatever entries, no two of one name, a configuration is taken exactly where
/// all of them are legible; an action that one of them names then answers to
/// exactly its keys, and every other to its defaults.
pub proof fn law_an_entry_replaces_the_keys(
    entries: Seq<(Seq<char>, Seq<char>)>,
    action: Action,
)
    requires
        names_differ(entries),
    ensures
        match configured(default_table(), by_name(entries), 0) {
            Ok(after) => {
                let row = row_of(after, action, 0) as int;
                &&& row < after.len()
                &&& forall|i: int| 0 <= i < entries.len() ==> legible(#[trigger] entries[i])
                &&& forall|i: int|
                    0 <= i < entries.len() && action_named((#[trigger] entries[i]).0) == Some(
                        action,
                    ) ==> keys_of(entries[i].1) == Ok::<Seq<KeyEvent>, Seq<char>>(after[row].keys)
                &&& (forall|i: int|
                    0 <= i < entries.len() ==> action_named((#[trigger] entries[i]).0) != Some(
                        action,
                    )) ==> after[row].keys == action.default_keys()
            },
            Err(_) => exists|i: int| 0 <= i < entries.len() && !legible(#[trigger] entries[i]),
        },
{
    let table = default_table();
    let sorted = by_name(entries);
    lemma_by_name(entries);
    lemma_in_table(action);
    lemma_row_of(table, action, 0);
    let r = row_of(table, action, 0) as int;
    lemma_configured_row(table, sorted, 0, action, r);
    match configured(table, sorted, 0) {
        Ok(after) => {
            assert forall|i: int| 0 <= i < entries.len() implies {
                &&& legible(#[trigger] entries[i])
                &&& action_named(entries[i].0) == Some(action) ==> keys_of(entries[i].1)
                    == Ok::<Seq<KeyEvent>, Seq<char>>(after[r].keys)
            } by {
                assert(sorted.contains(entries[i]));
                let k = choose|k: int| 0 <= k < sorted.len() && sorted[k] == entries[i];
                assert(legible(sorted[k]));
            }
            if forall|i: int|
                0 <= i < entries.len() ==> action_named((#[trigger] entries[i]).0) != Some(action) {
                assert forall|k: int| 0 <= k < sorted.len() implies action_named(
                    (#[trigger] sorted[k]).0,
                ) != Some(action) by {
                    assert(entries.contains(sorted[k]));
                }
            }
        },
        Err(_) => {
            let k = choose|k: int| 0 <= k < sorted.len() && !legible(#[trigger] sorted[k]);
            assert(entries.contains(sorted[k]));
        },
    }
}

proof fn lemma_in_table(action: Action)
    ensures
        exists|k: int|
            0 <= k < default_table().len() && (#[trigger] default_table()[k]).action == action,
        forall|k: int|
            0 <= k < default_table().len() && (#[trigger] default_table()[k]).action == action
                ==> default_table()[k].keys == action.default_keys(),
        forall|j: int, k: int|
            0 <= j < k < default_table().len() ==> (#[trigger] default_table()[j]).action != (
            #[trigger] default_table()[k]).action,
{
    let k: int = match action {
        Action::AppExit => 0,
        Action::PaletteOpen => 1,
        Action::SessionsOpen => 2,
        Action::ThemesOpen => 3,
        Action::AgentCycle => 4,
    };
    assert(default_table()[k].action == action);
}

/// Being the same key is an equivalence: a key is the same as itself, and what
/// is the same as the same is the same.
pub proof fn law_the_same_key_is_the_same(a: KeyEvent, b: KeyEvent, keys: Seq<KeyEvent>)
    ensures
        reached(seq![a], a),
        reached(seq![a], b) == reached(seq![b], a),
        reached(seq![a], b) ==> reached(keys, a) == reached(keys, b),
{
    assert(seq![a][0] == a);
    assert(seq![b][0] == b);
    if reached(seq![a], b) {
        assert(folded(a) == folded(b));
    }
    if reached(keys, a) {
        let k = choose|k: int| 0 <= k < keys.len() && folded(#[trigger] keys[k]) == folded(a);
    }
}

/// A text without the separator is its own only piece.
proof fn lemma_one_piece(s: Seq<char>, sep: char)
    requires
        forall|i: int| 0 <= i < s.len() ==> s[i] != sep,
    ensures
        text::split(s, sep) == seq![s],
{
    text::lemma_first_of_unique(s, sep, s.len() as int);
}

/// A text without the separator, in front of one, is the first piece.
proof fn lemma_first_piece(front: Seq<char>, rest: Seq<char>, sep: char)
    requires
        forall|i: int| 0 <= i < front.len() ==> front[i] != sep,
    ensures
        text::split(front + seq![sep] + rest, sep) == seq![front] + text::split(rest, sep),
{
    let s = front + seq![sep] + rest;
    text::lemma_first_of_unique(s, sep, front.len() as int);
    assert(s.take(front.len() as int) =~= front);
    assert(s.skip(front.len() as int + 1) =~= rest);
}

/// A text that is not blank and has no whitespace at either end is not trimmed.
proof fn lemma_untrimmed(s: Seq<char>)
    requires
        s.len() > 0,
        !text::white_space(s[0]),
        !text::white_space(s.last()),
    ensures
        text::trim(s) == s,
{
}

/// `ctrl+c` and the like name the character under control.
proof fn lemma_control(c: char)
    requires
        'a' <= c <= 'z',
    ensures
        key_of("ctrl+"@ + seq![c]) == Some(control(c)),
        text::trim("ctrl+"@ + seq![c]) == "ctrl+"@ + seq![c],
        forall|i: int| 0 <= i < ("ctrl+"@ + seq![c]).len() ==> ("ctrl+"@ + seq![c])[i] != ',',
{
    reveal_strlit("ctrl+");
    reveal_strlit("ctrl");
    let s = "ctrl+"@ + seq![c];
    assert(lowered(s) =~= s);
    assert(s =~= "ctrl"@ + seq!['+'] + seq![c]);
    lemma_first_piece("ctrl"@, seq![c], '+');
    lemma_one_piece(seq![c], '+');
    let parts = text::split(s, '+');
    assert(parts =~= seq!["ctrl"@, seq![c]]);
    reveal_with_fuel(chord, 2);
    assert(parts.skip(1) =~= seq![seq![c]]);
    lemma_single(c);
    assert(both(unmodified(), KeyModifiers { control: true, ..unmodified() }) == KeyModifiers::of(
        false,
        true,
        false,
    ));
    lemma_untrimmed(s);
}

/// A single character, other than one that belongs to a longer name, names
/// itself.
proof fn lemma_single(c: char)
    ensures
        key_named(seq![c]) == Some(KeyCode::Char(c)),
{
    let s = seq![c];
    lemma_words_are_long();
    if c == 'f' {
        assert(s.skip(1) =~= Seq::<char>::empty());
    }
    assert(function_key(s) is None);
    assert(word_key(s) is None);
}

/// Every word that names a key has two characters or more.
proof fn lemma_words_are_long()
    ensures
        forall|s: Seq<char>| s.len() < 2 ==> (#[trigger] word_key(s)) is None,
{
    reveal_strlit("enter");
    reveal_strlit("return");
    reveal_strlit("esc");
    reveal_strlit("escape");
    reveal_strlit("tab");
    reveal_strlit("backtab");
    reveal_strlit("backspace");
    reveal_strlit("delete");
    reveal_strlit("del");
    reveal_strlit("insert");
    reveal_strlit("ins");
    reveal_strlit("home");
    reveal_strlit("end");
    reveal_strlit("pageup");
    reveal_strlit("pgup");
    reveal_strlit("pagedown");
    reveal_strlit("pgdn");
    reveal_strlit("pgdown");
    reveal_strlit("up");
    reveal_strlit("down");
    reveal_strlit("left");
    reveal_strlit("right");
    reveal_strlit("space");
}

/// Every default binding reads as the keys it is meant to be.
pub proof fn law_every_default_binding_parses(action: Action)
    ensures
        keys_of(action.default_binding()) == Ok::<Seq<KeyEvent>, Seq<char>>(action.default_keys()),
        action.default_keys().len() > 0,
{
    reveal_strlit("ctrl+");
    match action {
        Action::AppExit => {
            reveal_strlit("ctrl+c,ctrl+q,ctrl+d");
            let first = "ctrl+"@ + seq!['c'];
            let second = "ctrl+"@ + seq!['q'];
            let third = "ctrl+"@ + seq!['d'];
            lemma_control('c');
            lemma_control('q');
            lemma_control('d');
            let value = action.default_binding();
            let later = second + seq![','] + third;
            assert(value =~= first + seq![','] + later);
            lemma_first_piece(first, later, ',');
            lemma_first_piece(second, third, ',');
            lemma_one_piece(third, ',');
            let pieces = text::split(value, ',');
            assert(pieces =~= seq![first, second, third]);
            reveal_with_fuel(keys_from, 4);
            assert(Seq::<KeyEvent>::empty().push(control('c')).push(control('q')).push(
                control('d'),
            ) =~= action.default_keys());
        },
        Action::PaletteOpen => {
            reveal_strlit("ctrl+p");
            lemma_control_alone('p', action.default_binding());
            assert(Seq::<KeyEvent>::empty().push(control('p')) =~= action.default_keys());
        },
        Action::SessionsOpen => {
            reveal_strlit("ctrl+s");
            lemma_control_alone('s', action.default_binding());
            assert(Seq::<KeyEvent>::empty().push(control('s')) =~= action.default_keys());
        },
        Action::ThemesOpen => {
            reveal_strlit("ctrl+t");
            lemma_control_alone('t', action.default_binding());
            assert(Seq::<KeyEvent>::empty().push(control('t')) =~= action.default_keys());
        },
        Action::AgentCycle => {
            reveal_strlit("tab");
            reveal_strlit("enter");
            reveal_strlit("return");
            reveal_strlit("esc");
            reveal_strlit("escape");
            let value = action.default_binding();
            assert("esc"@[0] == 'e');
            assert(lowered(value) =~= value);
            lemma_one_piece(value, ',');
            lemma_one_piece(value, '+');
            lemma_untrimmed(value);
            assert(word_key(value) == Some(KeyCode::Tab));
            reveal_with_fuel(keys_from, 2);
            reveal_with_fuel(chord, 2);
            assert(key_of(value) == Some(KeyEvent::press(KeyCode::Tab, unmodified())));
            assert(Seq::<KeyEvent>::empty().push(
                KeyEvent::press(KeyCode::Tab, unmodified()),
            ) =~= action.default_keys());
        },
    }
}

proof fn lemma_control_alone(c: char, value: Seq<char>)
    requires
        'a' <= c <= 'z',
        value =~= "ctrl+"@ + seq![c],
    ensures
        keys_of(value) == Ok::<Seq<KeyEvent>, Seq<char>>(
            Seq::<KeyEvent>::empty().push(control(c)),
        ),
{
    reveal_strlit("ctrl+");
    lemma_control(c);
    lemma_one_piece(value, ',');
    reveal_with_fuel(keys_from, 2);
}

/// Whether a key is one that a binding can name.
pub open spec fn nameable(key: KeyEvent) -> bool {
    &&& key == KeyEvent::press(key.code, key.modifiers)
    &&& !key.modifiers.meta
    &&& match key.code {
        KeyCode::Char(c) => c != '+' && !('A' <= c <= 'Z'),
        KeyCode::F(n) => 1 <= n <= 24,
        KeyCode::Enter
        | KeyCode::Esc
        | KeyCode::Tab
        | KeyCode::BackTab
        | KeyCode::Backspace
        | KeyCode::Delete
        | KeyCode::Insert
        | KeyCode::Home
        | KeyCode::End
        | KeyCode::PageUp
        | KeyCode::PageDown
        | KeyCode::Up
        | KeyCode::Down
        | KeyCode::Left
        | KeyCode::Right => true,
        _ => false,
    }
}

/// Whether a text has no plus and no ASCII capital in it.
spec fn tame(s: Seq<char>) -> bool {
    forall|i: int| 0 <= i < s.len() ==> #[trigger] s[i] != '+' && !('A' <= s[i] <= 'Z')
}

/// Every word that names a key names it, and holds neither a plus nor a
/// capital.
proof fn lemma_words(code: KeyCode)
    requires
        nameable(KeyEvent::press(code, unmodified())),
        !(code is Char),
        !(code is F),
    ensures
        key_named(code_text(code)) == Some(code),
        tame(code_text(code)),
        code_text(code).len() > 0,
{
    reveal_strlit("enter");
    reveal_strlit("return");
    reveal_strlit("esc");
    reveal_strlit("escape");
    reveal_strlit("tab");
    reveal_strlit("backtab");
    reveal_strlit("backspace");
    reveal_strlit("delete");
    reveal_strlit("del");
    reveal_strlit("insert");
    reveal_strlit("ins");
    reveal_strlit("home");
    reveal_strlit("end");
    reveal_strlit("pageup");
    reveal_strlit("pgup");
    reveal_strlit("pagedown");
    reveal_strlit("pgdn");
    reveal_strlit("pgdown");
    reveal_strlit("up");
    reveal_strlit("down");
    reveal_strlit("left");
    reveal_strlit("right");
    reveal_strlit("space");
    assert(word_key(code_text(code)) == Some(code));
    assert(code_text(code)[0] != 'f');
}

/// What a key that can be named is spelled as names it.
proof fn lemma_code_reads_back(code: KeyCode)
    requires
        nameable(KeyEvent::press(code, unmodified())),
    ensures
        key_named(code_text(code)) == Some(code),
        tame(code_text(code)),
        code_text(code).len() > 0,
{
    match code {
        KeyCode::Char(c) => {
            if c == ' ' {
                reveal_strlit("enter");
                reveal_strlit("return");
                reveal_strlit("esc");
                reveal_strlit("escape");
                reveal_strlit("tab");
                reveal_strlit("backtab");
                reveal_strlit("backspace");
                reveal_strlit("delete");
                reveal_strlit("del");
                reveal_strlit("insert");
                reveal_strlit("ins");
                reveal_strlit("home");
                reveal_strlit("end");
                reveal_strlit("pageup");
                reveal_strlit("pgup");
                reveal_strlit("pagedown");
                reveal_strlit("pgdn");
                reveal_strlit("pgdown");
                reveal_strlit("up");
                reveal_strlit("down");
                reveal_strlit("left");
                reveal_strlit("right");
                reveal_strlit("space");
                assert("space"@[0] == 's');
                assert(word_key("space"@) == Some(code));
            } else {
                lemma_single(c);
            }
        },
        KeyCode::F(n) => {
            let s = code_text(code);
            text::lemma_decimal(n as nat);
            text::law_decimal_reads_back(n as nat, 255);
            assert(s.skip(1) =~= text::decimal(n as nat));
            assert forall|i: int| 0 <= i < s.len() implies #[trigger] s[i] != '+' && !('A' <= s[i]
                <= 'Z') by {
                if i > 0 {
                    assert(text::digit(text::decimal(n as nat)[i - 1]));
                }
            }
        },
        _ => {
            lemma_words(code);
        },
    }
}

proof fn lemma_split_not_empty(s: Seq<char>, sep: char)
    ensures
        text::split(s, sep).len() > 0,
{
}

/// A modifier written in front of a chord is held when the chord is read.
proof fn lemma_held(
    held: bool,
    word: Seq<char>,
    modifier: KeyModifiers,
    rest: Seq<char>,
    before: KeyModifiers,
)
    requires
        modifier_named(word) == Some(modifier),
        tame(word),
    ensures
        chord(text::split(held_text(held, word) + rest, '+'), before) == chord(
            text::split(rest, '+'),
            if held {
                both(before, modifier)
            } else {
                before
            },
        ),
        lowered(held_text(held, word) + rest) == held_text(held, word) + lowered(rest),
{
    reveal_strlit("+");
    assert("+"@ =~= seq!['+']);
    if held {
        lemma_first_piece(word, rest, '+');
        let whole = held_text(held, word) + rest;
        assert(whole =~= word + seq!['+'] + rest);
        lemma_split_not_empty(rest, '+');
        let parts = text::split(whole, '+');
        assert(parts[0] == word);
        assert(parts.skip(1) =~= text::split(rest, '+'));
    } else {
        assert(held_text(held, word) + rest =~= rest);
    }
    assert(lowered(held_text(held, word) + rest) =~= held_text(held, word) + lowered(rest));
}

/// The words for the modifiers name them.
proof fn lemma_modifier_words()
    ensures
        modifier_named("ctrl"@) == Some(KeyModifiers { control: true, ..unmodified() }),
        modifier_named("alt"@) == Some(KeyModifiers { alt: true, ..unmodified() }),
        modifier_named("shift"@) == Some(KeyModifiers { shift: true, ..unmodified() }),
        modifier_named("super"@) == Some(KeyModifiers { super_key: true, ..unmodified() }),
        modifier_named("hyper"@) == Some(KeyModifiers { hyper: true, ..unmodified() }),
        tame("ctrl"@),
        tame("alt"@),
        tame("shift"@),
        tame("super"@),
        tame("hyper"@),
{
    reveal_strlit("ctrl");
    reveal_strlit("control");
    reveal_strlit("alt");
    reveal_strlit("option");
    reveal_strlit("meta");
    reveal_strlit("shift");
    reveal_strlit("super");
    reveal_strlit("cmd");
    reveal_strlit("command");
    reveal_strlit("hyper");
    assert("ctrl"@.len() == 4 && "control"@.len() == 7 && "option"@.len() == 6);
    assert("alt"@.len() == 3 && "meta"@.len() == 4);
    assert("shift"@.len() == 5 && "super"@.len() == 5 && "hyper"@.len() == 5);
    assert("cmd"@.len() == 3 && "command"@.len() == 7);
    assert("shift"@[1] == 'h' && "super"@[1] == 'u' && "hyper"@[1] == 'y');
}

proof fn lemma_regrouped(
    a: Seq<char>,
    b: Seq<char>,
    c: Seq<char>,
    d: Seq<char>,
    e: Seq<char>,
    f: Seq<char>,
)
    ensures
        a + b + c + d + e + f == a + (b + (c + (d + (e + f)))),
{
    assert(d + e + f =~= d + (e + f));
    assert(c + d + e + f =~= c + (d + e + f));
    assert(b + c + d + e + f =~= b + (c + d + e + f));
    assert(a + b + c + d + e + f =~= a + (b + c + d + e + f));
}

/// What a key is shown as in a hint, a configuration may write: it reads back
/// as the same key.
pub proof fn law_a_hint_reads_back(key: KeyEvent)
    requires
        nameable(key),
    ensures
        key_of(chord_text(key)) == Some(key),
{
    lemma_modifier_words();
    let m = key.modifiers;
    let none = unmodified();
    let name = code_text(key.code);
    lemma_code_reads_back(key.code);
    assert(lowered(name) =~= name);
    let t5 = held_text(m.hyper, "hyper"@) + name;
    let t4 = held_text(m.super_key, "super"@) + t5;
    let t3 = held_text(m.shift, "shift"@) + t4;
    let t2 = held_text(m.alt, "alt"@) + t3;
    let t1 = held_text(m.control, "ctrl"@) + t2;
    lemma_regrouped(
        held_text(m.control, "ctrl"@),
        held_text(m.alt, "alt"@),
        held_text(m.shift, "shift"@),
        held_text(m.super_key, "super"@),
        held_text(m.hyper, "hyper"@),
        name,
    );
    assert(chord_text(key) == t1);
    let h1 = if m.control {
        both(none, KeyModifiers { control: true, ..none })
    } else {
        none
    };
    let h2 = if m.alt {
        both(h1, KeyModifiers { alt: true, ..none })
    } else {
        h1
    };
    let h3 = if m.shift {
        both(h2, KeyModifiers { shift: true, ..none })
    } else {
        h2
    };
    let h4 = if m.super_key {
        both(h3, KeyModifiers { super_key: true, ..none })
    } else {
        h3
    };
    let h5 = if m.hyper {
        both(h4, KeyModifiers { hyper: true, ..none })
    } else {
        h4
    };
    lemma_held(m.control, "ctrl"@, KeyModifiers { control: true, ..none }, t2, none);
    lemma_held(m.alt, "alt"@, KeyModifiers { alt: true, ..none }, t3, h1);
    lemma_held(m.shift, "shift"@, KeyModifiers { shift: true, ..none }, t4, h2);
    lemma_held(m.super_key, "super"@, KeyModifiers { super_key: true, ..none }, t5, h3);
    lemma_held(m.hyper, "hyper"@, KeyModifiers { hyper: true, ..none }, name, h4);
    assert(lowered(t1) == t1);
    assert(h5 == m);
    lemma_one_piece(name, '+');
    assert(chord(seq![name], m) == Some(KeyEvent::press(key.code, m)));
}

proof fn lemma_chord_nameable(parts: Seq<Seq<char>>, held: KeyModifiers)
    requires
        forall|k: int| 0 <= k < parts.len() ==> tame(#[trigger] parts[k]),
        !held.meta,
    ensures
        chord(parts, held) matches Some(key) ==> nameable(key),
    decreases parts.len(),
{
    if parts.len() == 1 {
        if parts[0].len() == 1 {
            assert(parts[0][0] != '+');
        }
    } else if parts.len() > 1 {
        if let Some(modifier) = modifier_named(parts[0]) {
            assert forall|k: int| 0 <= k < parts.skip(1).len() implies tame(
                #[trigger] parts.skip(1)[k],
            ) by {
                assert(parts.skip(1)[k] == parts[k + 1]);
            }
            lemma_chord_nameable(parts.skip(1), both(held, modifier));
        }
    }
}

proof fn lemma_split_tame(s: Seq<char>)
    requires
        forall|i: int| 0 <= i < s.len() ==> !('A' <= #[trigger] s[i] <= 'Z'),
    ensures
        forall|k: int|
            0 <= k < text::split(s, '+').len() ==> tame(#[trigger] text::split(s, '+')[k]),
    decreases s.len(),
{
    text::lemma_first_of(s, '+');
    let at = text::first_of(s, '+');
    if at < s.len() {
        let rest = s.skip(at + 1);
        assert forall|i: int| 0 <= i < rest.len() implies !('A' <= #[trigger] rest[i] <= 'Z') by {
            assert(rest[i] == s[at + 1 + i]);
        }
        lemma_split_tame(rest);
        let front = s.take(at);
        assert(tame(front)) by {
            assert forall|i: int| 0 <= i < front.len() implies #[trigger] front[i] != '+' && !('A'
                <= front[i] <= 'Z') by {
                assert(front[i] == s[i]);
            }
        }
        let pieces = text::split(s, '+');
        assert(pieces == seq![front] + text::split(rest, '+'));
        assert forall|k: int| 0 <= k < pieces.len() implies tame(#[trigger] pieces[k]) by {
            if k > 0 {
                assert(pieces[k] == text::split(rest, '+')[k - 1]);
            }
        }
    } else {
        assert(text::split(s, '+') == seq![s]);
        assert(tame(s));
    }
}

/// Every key a binding names can be shown in a hint that reads back as it.
pub proof fn law_a_parsed_key_is_nameable(s: Seq<char>)
    ensures
        key_of(s) matches Some(key) ==> nameable(key) && key_of(chord_text(key)) == Some(key),
{
    let t = lowered(s);
    assert forall|i: int| 0 <= i < t.len() implies !('A' <= #[trigger] t[i] <= 'Z') by {
        if 'A' <= s[i] <= 'Z' {
            let n = s[i] as nat + 32;
            assert(t[i] == n as char);
            assert(97 <= n <= 122);
        }
    }
    lemma_split_tame(t);
    lemma_chord_nameable(text::split(t, '+'), unmodified());
    if let Some(key) = key_of(s) {
        law_a_hint_reads_back(key);
    }
}

/// What stands in front of a key while modifiers are held, each word once and
/// in this order.
pub open spec fn held_words(held: KeyModifiers) -> Seq<char> {
    (if held.control {
        "ctrl+"@
    } else {
        ""@
    }) + ((if held.alt {
        "alt+"@
    } else {
        ""@
    }) + ((if held.shift {
        "shift+"@
    } else {
        ""@
    }) + ((if held.super_key {
        "super+"@
    } else {
        ""@
    }) + (if held.hyper {
        "hyper+"@
    } else {
        ""@
    }))))
}

/// Whether a word, alone and behind modifiers, is read as a press of a key.
pub open spec fn means(word: Seq<char>, held: KeyModifiers, code: KeyCode) -> bool {
    &&& key_of(word) == Some(KeyEvent::press(code, unmodified()))
    &&& key_of(held_words(held) + word) == Some(KeyEvent::press(code, held))
}

/// Whether a key is shown by a word, alone and behind modifiers.
pub open spec fn shown_as(code: KeyCode, held: KeyModifiers, word: Seq<char>) -> bool {
    &&& chord_text(KeyEvent::press(code, unmodified())) == word
    &&& chord_text(KeyEvent::press(code, held)) == held_words(held) + word
}

/// The text of the held modifiers is the words in front of a key.
proof fn lemma_held_words(key: KeyEvent)
    ensures
        chord_text(key) == held_words(key.modifiers) + code_text(key.code),
        held_words(unmodified()) + code_text(key.code) == code_text(key.code),
{
    lemma_held_texts(key.modifiers);
    let m = key.modifiers;
    let a = held_text(m.control, "ctrl"@);
    let b = held_text(m.alt, "alt"@);
    let c = held_text(m.shift, "shift"@);
    let d = held_text(m.super_key, "super"@);
    let e = held_text(m.hyper, "hyper"@);
    let f = code_text(key.code);
    lemma_regrouped(a, b, c, d, e, f);
    lemma_all_in_front(a, b, c, d, e, f);
    lemma_no_words(f);
}

/// A key that can be named is read from what shows it, under any modifiers.
proof fn lemma_read_and_shown(code: KeyCode, held: KeyModifiers)
    requires
        nameable(KeyEvent::press(code, unmodified())),
        !held.meta,
    ensures
        means(code_text(code), held, code),
        shown_as(code, held, code_text(code)),
{
    let bare = KeyEvent::press(code, unmodified());
    let key = KeyEvent::press(code, held);
    lemma_held_words(bare);
    lemma_held_words(key);
    law_a_hint_reads_back(bare);
    law_a_hint_reads_back(key);
}

/// A second word for a key is read as the first is, under any modifiers.
proof fn lemma_second_word(word: Seq<char>, code: KeyCode, held: KeyModifiers)
    requires
        word_key(word) == Some(code),
        nameable(KeyEvent::press(code, unmodified())),
        !held.meta,
        word.len() > 0,
        word[0] != 'f',
        tame(word),
    ensures
        means(word, held, code),
{
    lemma_read_and_shown(code, held);
    lemma_code_reads_back(code);
    lemma_swapped(unmodified(), word, code_text(code));
    lemma_swapped(held, word, code_text(code));
    lemma_held_words(KeyEvent::press(code, unmodified()));
    lemma_no_words(word);
}

proof fn lemma_no_words(word: Seq<char>)
    ensures
        held_words(unmodified()) + word == word,
{
    reveal_strlit("");
    assert(held_words(unmodified()) + word =~= word);
}

/// Behind the same modifiers, two names of one key are read alike.
proof fn lemma_swapped(held: KeyModifiers, a: Seq<char>, b: Seq<char>)
    requires
        tame(a),
        tame(b),
        key_named(a) == key_named(b),
        a.len() > 0,
        b.len() > 0,
        !held.meta,
    ensures
        key_of(held_words(held) + a) == key_of(held_words(held) + b),
{
    lemma_behind(held, a);
    lemma_behind(held, b);
}

/// The words in front of a key are what is held.
proof fn lemma_held_texts(m: KeyModifiers)
    ensures
        held_words(m) == held_text(m.control, "ctrl"@) + (held_text(m.alt, "alt"@) + (held_text(
            m.shift,
            "shift"@,
        ) + (held_text(m.super_key, "super"@) + held_text(m.hyper, "hyper"@)))),
{
    reveal_strlit("+");
    reveal_strlit("");
    reveal_strlit("ctrl");
    reveal_strlit("ctrl+");
    reveal_strlit("alt");
    reveal_strlit("alt+");
    reveal_strlit("shift");
    reveal_strlit("shift+");
    reveal_strlit("super");
    reveal_strlit("super+");
    reveal_strlit("hyper");
    reveal_strlit("hyper+");
    assert("ctrl"@ + "+"@ =~= "ctrl+"@);
    assert("alt"@ + "+"@ =~= "alt+"@);
    assert("shift"@ + "+"@ =~= "shift+"@);
    assert("super"@ + "+"@ =~= "super+"@);
    assert("hyper"@ + "+"@ =~= "hyper+"@);
    assert(""@ =~= Seq::<char>::empty());
}

proof fn lemma_all_in_front(
    a: Seq<char>,
    b: Seq<char>,
    c: Seq<char>,
    d: Seq<char>,
    e: Seq<char>,
    f: Seq<char>,
)
    ensures
        a + (b + (c + (d + e))) + f == a + (b + (c + (d + (e + f)))),
{
    assert(d + e + f =~= d + (e + f));
    assert(c + (d + e) + f =~= c + (d + e + f));
    assert(b + (c + (d + e)) + f =~= b + (c + (d + e) + f));
    assert(a + (b + (c + (d + e))) + f =~= a + (b + (c + (d + e)) + f));
}

/// A name behind modifiers is read as the key it names, with them held.
proof fn lemma_behind(held: KeyModifiers, name: Seq<char>)
    requires
        tame(name),
        name.len() > 0,
        !held.meta,
    ensures
        key_of(held_words(held) + name) == (match key_named(name) {
            Some(code) => Some(KeyEvent::press(code, held)),
            None => None::<KeyEvent>,
        }),
{
    lemma_modifier_words();
    lemma_held_texts(held);
    let m = held;
    let none = unmodified();
    assert(lowered(name) =~= name);
    let a = held_text(m.control, "ctrl"@);
    let b = held_text(m.alt, "alt"@);
    let c = held_text(m.shift, "shift"@);
    let d = held_text(m.super_key, "super"@);
    let e = held_text(m.hyper, "hyper"@);
    let t5 = e + name;
    let t4 = d + t5;
    let t3 = c + t4;
    let t2 = b + t3;
    let t1 = a + t2;
    lemma_all_in_front(a, b, c, d, e, name);
    let h1 = if m.control {
        both(none, KeyModifiers { control: true, ..none })
    } else {
        none
    };
    let h2 = if m.alt {
        both(h1, KeyModifiers { alt: true, ..none })
    } else {
        h1
    };
    let h3 = if m.shift {
        both(h2, KeyModifiers { shift: true, ..none })
    } else {
        h2
    };
    let h4 = if m.super_key {
        both(h3, KeyModifiers { super_key: true, ..none })
    } else {
        h3
    };
    let h5 = if m.hyper {
        both(h4, KeyModifiers { hyper: true, ..none })
    } else {
        h4
    };
    lemma_held(m.control, "ctrl"@, KeyModifiers { control: true, ..none }, t2, none);
    lemma_held(m.alt, "alt"@, KeyModifiers { alt: true, ..none }, t3, h1);
    lemma_held(m.shift, "shift"@, KeyModifiers { shift: true, ..none }, t4, h2);
    lemma_held(m.super_key, "super"@, KeyModifiers { super_key: true, ..none }, t5, h3);
    lemma_held(m.hyper, "hyper"@, KeyModifiers { hyper: true, ..none }, name, h4);
    assert(lowered(t1) == t1);
    assert(h5 == m);
    lemma_one_piece(name, '+');
}

/// The second words for keys name them too.
proof fn lemma_second_words()
    ensures
        word_key("return"@) == Some(KeyCode::Enter),
        tame("return"@),
        "return"@.len() > 0 && "return"@[0] != 'f',
        word_key("escape"@) == Some(KeyCode::Esc),
        tame("escape"@),
        "escape"@.len() > 0 && "escape"@[0] != 'f',
        word_key("del"@) == Some(KeyCode::Delete),
        tame("del"@),
        "del"@.len() > 0 && "del"@[0] != 'f',
        word_key("ins"@) == Some(KeyCode::Insert),
        tame("ins"@),
        "ins"@.len() > 0 && "ins"@[0] != 'f',
        word_key("pgup"@) == Some(KeyCode::PageUp),
        tame("pgup"@),
        "pgup"@.len() > 0 && "pgup"@[0] != 'f',
        word_key("pgdn"@) == Some(KeyCode::PageDown),
        tame("pgdn"@),
        "pgdn"@.len() > 0 && "pgdn"@[0] != 'f',
        word_key("pgdown"@) == Some(KeyCode::PageDown),
        tame("pgdown"@),
        "pgdown"@.len() > 0 && "pgdown"@[0] != 'f',
{
    reveal_strlit("enter");
    reveal_strlit("return");
    reveal_strlit("esc");
    reveal_strlit("escape");
    reveal_strlit("tab");
    reveal_strlit("backtab");
    reveal_strlit("backspace");
    reveal_strlit("delete");
    reveal_strlit("del");
    reveal_strlit("insert");
    reveal_strlit("ins");
    reveal_strlit("home");
    reveal_strlit("end");
    reveal_strlit("pageup");
    reveal_strlit("pgup");
    reveal_strlit("pagedown");
    reveal_strlit("pgdn");
    reveal_strlit("pgdown");
    reveal_strlit("up");
    reveal_strlit("down");
    reveal_strlit("left");
    reveal_strlit("right");
    reveal_strlit("space");
    assert("pgdn"@[2] == 'd' && "pgup"@[2] == 'u' && "pgdn"@[0] == 'p');
    assert("home"@[0] == 'h' && "down"@[0] == 'd' && "left"@[0] == 'l');
    assert("pgdown"@[1] == 'g' && "return"@[1] == 'e' && "escape"@[1] == 's');
    assert("delete"@[1] == 'e' && "insert"@[1] == 'n' && "pageup"@[1] == 'a');
    assert("esc"@[0] == 'e' && "tab"@[0] == 't' && "del"@[0] == 'd' && "ins"@[0] == 'i');
    assert("end"@[1] == 'n' && "return"@[0] == 'r' && "escape"@[0] == 'e');
}

/// What each word of the grammar names, alone and behind any modifiers.
pub proof fn law_key_words_name_these_keys(held: KeyModifiers)
    requires
        !held.meta,
    ensures
        means("enter"@, held, KeyCode::Enter),
        means("return"@, held, KeyCode::Enter),
        means("esc"@, held, KeyCode::Esc),
        means("escape"@, held, KeyCode::Esc),
        means("tab"@, held, KeyCode::Tab),
        means("backtab"@, held, KeyCode::BackTab),
        means("backspace"@, held, KeyCode::Backspace),
        means("delete"@, held, KeyCode::Delete),
        means("del"@, held, KeyCode::Delete),
        means("insert"@, held, KeyCode::Insert),
        means("ins"@, held, KeyCode::Insert),
        means("home"@, held, KeyCode::Home),
        means("end"@, held, KeyCode::End),
        means("pageup"@, held, KeyCode::PageUp),
        means("pgup"@, held, KeyCode::PageUp),
        means("pagedown"@, held, KeyCode::PageDown),
        means("pgdn"@, held, KeyCode::PageDown),
        means("pgdown"@, held, KeyCode::PageDown),
        means("up"@, held, KeyCode::Up),
        means("down"@, held, KeyCode::Down),
        means("left"@, held, KeyCode::Left),
        means("right"@, held, KeyCode::Right),
        means("space"@, held, KeyCode::Char(' ')),
{
    lemma_second_words();
    lemma_read_and_shown(KeyCode::Enter, held);
    lemma_second_word("return"@, KeyCode::Enter, held);
    lemma_read_and_shown(KeyCode::Esc, held);
    lemma_second_word("escape"@, KeyCode::Esc, held);
    lemma_read_and_shown(KeyCode::Tab, held);
    lemma_read_and_shown(KeyCode::BackTab, held);
    lemma_read_and_shown(KeyCode::Backspace, held);
    lemma_read_and_shown(KeyCode::Delete, held);
    lemma_second_word("del"@, KeyCode::Delete, held);
    lemma_read_and_shown(KeyCode::Insert, held);
    lemma_second_word("ins"@, KeyCode::Insert, held);
    lemma_read_and_shown(KeyCode::Home, held);
    lemma_read_and_shown(KeyCode::End, held);
    lemma_read_and_shown(KeyCode::PageUp, held);
    lemma_second_word("pgup"@, KeyCode::PageUp, held);
    lemma_read_and_shown(KeyCode::PageDown, held);
    lemma_second_word("pgdn"@, KeyCode::PageDown, held);
    lemma_second_word("pgdown"@, KeyCode::PageDown, held);
    lemma_read_and_shown(KeyCode::Up, held);
    lemma_read_and_shown(KeyCode::Down, held);
    lemma_read_and_shown(KeyCode::Left, held);
    lemma_read_and_shown(KeyCode::Right, held);
    lemma_read_and_shown(KeyCode::Char(' '), held);
}

/// What each key that has a word is shown as, alone and behind any modifiers.
pub proof fn law_keys_are_shown_by_these_words(held: KeyModifiers)
    ensures
        shown_as(KeyCode::Enter, held, "enter"@),
        shown_as(KeyCode::Esc, held, "esc"@),
        shown_as(KeyCode::Tab, held, "tab"@),
        shown_as(KeyCode::BackTab, held, "backtab"@),
        shown_as(KeyCode::Backspace, held, "backspace"@),
        shown_as(KeyCode::Delete, held, "delete"@),
        shown_as(KeyCode::Insert, held, "insert"@),
        shown_as(KeyCode::Home, held, "home"@),
        shown_as(KeyCode::End, held, "end"@),
        shown_as(KeyCode::PageUp, held, "pageup"@),
        shown_as(KeyCode::PageDown, held, "pagedown"@),
        shown_as(KeyCode::Up, held, "up"@),
        shown_as(KeyCode::Down, held, "down"@),
        shown_as(KeyCode::Left, held, "left"@),
        shown_as(KeyCode::Right, held, "right"@),
        shown_as(KeyCode::Char(' '), held, "space"@),
        shown_as(KeyCode::Null, held, "null"@),
        shown_as(KeyCode::CapsLock, held, "capslock"@),
        shown_as(KeyCode::ScrollLock, held, "scrolllock"@),
        shown_as(KeyCode::NumLock, held, "numlock"@),
        shown_as(KeyCode::PrintScreen, held, "printscreen"@),
        shown_as(KeyCode::Pause, held, "pause"@),
        shown_as(KeyCode::Menu, held, "menu"@),
        shown_as(KeyCode::KeypadBegin, held, "keypadbegin"@),
{
    lemma_shown(KeyCode::Enter, held, "enter"@);
    lemma_shown(KeyCode::Esc, held, "esc"@);
    lemma_shown(KeyCode::Tab, held, "tab"@);
    lemma_shown(KeyCode::BackTab, held, "backtab"@);
    lemma_shown(KeyCode::Backspace, held, "backspace"@);
    lemma_shown(KeyCode::Delete, held, "delete"@);
    lemma_shown(KeyCode::Insert, held, "insert"@);
    lemma_shown(KeyCode::Home, held, "home"@);
    lemma_shown(KeyCode::End, held, "end"@);
    lemma_shown(KeyCode::PageUp, held, "pageup"@);
    lemma_shown(KeyCode::PageDown, held, "pagedown"@);
    lemma_shown(KeyCode::Up, held, "up"@);
    lemma_shown(KeyCode::Down, held, "down"@);
    lemma_shown(KeyCode::Left, held, "left"@);
    lemma_shown(KeyCode::Right, held, "right"@);
    lemma_shown(KeyCode::Char(' '), held, "space"@);
    lemma_shown(KeyCode::Null, held, "null"@);
    lemma_shown(KeyCode::CapsLock, held, "capslock"@);
    lemma_shown(KeyCode::ScrollLock, held, "scrolllock"@);
    lemma_shown(KeyCode::NumLock, held, "numlock"@);
    lemma_shown(KeyCode::PrintScreen, held, "printscreen"@);
    lemma_shown(KeyCode::Pause, held, "pause"@);
    lemma_shown(KeyCode::Menu, held, "menu"@);
    lemma_shown(KeyCode::KeypadBegin, held, "keypadbegin"@);
}

/// How a key is enclosed in `media(` and `)`.
proof fn lemma_media_enclosed(name: Seq<char>, whole: Seq<char>)
    requires
        whole.len() == name.len() + 7,
        forall|i: int| 0 <= i < 6 ==> whole[i] == "media("@[i],
        forall|i: int| 0 <= i < name.len() ==> whole[i + 6] == name[i],
        whole.last() == ')',
    ensures
        "media("@ + name + ")"@ == whole,
{
    reveal_strlit("media(");
    reveal_strlit(")");
    assert("media("@ + name + ")"@ =~= whole);
}

proof fn lemma_media_texts_1()
    ensures
        code_text(KeyCode::Media(MediaKeyCode::Play)) == "media(play)"@,
        code_text(KeyCode::Media(MediaKeyCode::Pause)) == "media(pause)"@,
        code_text(KeyCode::Media(MediaKeyCode::PlayPause)) == "media(playpause)"@,
        code_text(KeyCode::Media(MediaKeyCode::Reverse)) == "media(reverse)"@,
        code_text(KeyCode::Media(MediaKeyCode::Stop)) == "media(stop)"@,
        code_text(KeyCode::Media(MediaKeyCode::FastForward)) == "media(fastforward)"@,
{
    assert("media("@ + "play"@ + ")"@ == "media(play)"@) by {
        reveal_strlit("media(");
        reveal_strlit("play");
        reveal_strlit("media(play)");
        lemma_media_enclosed("play"@, "media(play)"@);
    }
    assert("media("@ + "pause"@ + ")"@ == "media(pause)"@) by {
        reveal_strlit("media(");
        reveal_strlit("pause");
        reveal_strlit("media(pause)");
        lemma_media_enclosed("pause"@, "media(pause)"@);
    }
    assert("media("@ + "playpause"@ + ")"@ == "media(playpause)"@) by {
        reveal_strlit("media(");
        reveal_strlit("playpause");
        reveal_strlit("media(playpause)");
        lemma_media_enclosed("playpause"@, "media(playpause)"@);
    }
    assert("media("@ + "reverse"@ + ")"@ == "media(reverse)"@) by {
        reveal_strlit("media(");
        reveal_strlit("reverse");
        reveal_strlit("media(reverse)");
        lemma_media_enclosed("reverse"@, "media(reverse)"@);
    }
    assert("media("@ + "stop"@ + ")"@ == "media(stop)"@) by {
        reveal_strlit("media(");
        reveal_strlit("stop");
        reveal_strlit("media(stop)");
        lemma_media_enclosed("stop"@, "media(stop)"@);
    }
    assert("media("@ + "fastforward"@ + ")"@ == "media(fastforward)"@) by {
        reveal_strlit("media(");
        reveal_strlit("fastforward");
        reveal_strlit("media(fastforward)");
        lemma_media_enclosed("fastforward"@, "media(fastforward)"@);
    }
}

proof fn lemma_media_texts_2()
    ensures
        code_text(KeyCode::Media(MediaKeyCode::Rewind)) == "media(rewind)"@,
        code_text(KeyCode::Media(MediaKeyCode::TrackNext)) == "media(tracknext)"@,
        code_text(KeyCode::Media(MediaKeyCode::TrackPrevious)) == "media(trackprevious)"@,
        code_text(KeyCode::Media(MediaKeyCode::Record)) == "media(record)"@,
        code_text(KeyCode::Media(MediaKeyCode::LowerVolume)) == "media(lowervolume)"@,
        code_text(KeyCode::Media(MediaKeyCode::RaiseVolume)) == "media(raisevolume)"@,
        code_text(KeyCode::Media(MediaKeyCode::MuteVolume)) == "media(mutevolume)"@,
{
    assert("media("@ + "rewind"@ + ")"@ == "media(rewind)"@) by {
        reveal_strlit("media(");
        reveal_strlit("rewind");
        reveal_strlit("media(rewind)");
        lemma_media_enclosed("rewind"@, "media(rewind)"@);
    }
    assert("media("@ + "tracknext"@ + ")"@ == "media(tracknext)"@) by {
        reveal_strlit("media(");
        reveal_strlit("tracknext");
        reveal_strlit("media(tracknext)");
        lemma_media_enclosed("tracknext"@, "media(tracknext)"@);
    }
    assert("media("@ + "trackprevious"@ + ")"@ == "media(trackprevious)"@) by {
        reveal_strlit("media(");
        reveal_strlit("trackprevious");
        reveal_strlit("media(trackprevious)");
        lemma_media_enclosed("trackprevious"@, "media(trackprevious)"@);
    }
    assert("media("@ + "record"@ + ")"@ == "media(record)"@) by {
        reveal_strlit("media(");
        reveal_strlit("record");
        reveal_strlit("media(record)");
        lemma_media_enclosed("record"@, "media(record)"@);
    }
    assert("media("@ + "lowervolume"@ + ")"@ == "media(lowervolume)"@) by {
        reveal_strlit("media(");
        reveal_strlit("lowervolume");
        reveal_strlit("media(lowervolume)");
        lemma_media_enclosed("lowervolume"@, "media(lowervolume)"@);
    }
    assert("media("@ + "raisevolume"@ + ")"@ == "media(raisevolume)"@) by {
        reveal_strlit("media(");
        reveal_strlit("raisevolume");
        reveal_strlit("media(raisevolume)");
        lemma_media_enclosed("raisevolume"@, "media(raisevolume)"@);
    }
    assert("media("@ + "mutevolume"@ + ")"@ == "media(mutevolume)"@) by {
        reveal_strlit("media(");
        reveal_strlit("mutevolume");
        reveal_strlit("media(mutevolume)");
        lemma_media_enclosed("mutevolume"@, "media(mutevolume)"@);
    }
}

/// What each media key is shown as.
pub proof fn law_media_keys_are_shown_by_these_words(held: KeyModifiers)
    ensures
        shown_as(KeyCode::Media(MediaKeyCode::Play), held, "media(play)"@),
        shown_as(KeyCode::Media(MediaKeyCode::Pause), held, "media(pause)"@),
        shown_as(KeyCode::Media(MediaKeyCode::PlayPause), held, "media(playpause)"@),
        shown_as(KeyCode::Media(MediaKeyCode::Reverse), held, "media(reverse)"@),
        shown_as(KeyCode::Media(MediaKeyCode::Stop), held, "media(stop)"@),
        shown_as(KeyCode::Media(MediaKeyCode::FastForward), held, "media(fastforward)"@),
        shown_as(KeyCode::Media(MediaKeyCode::Rewind), held, "media(rewind)"@),
        shown_as(KeyCode::Media(MediaKeyCode::TrackNext), held, "media(tracknext)"@),
        shown_as(KeyCode::Media(MediaKeyCode::TrackPrevious), held, "media(trackprevious)"@),
        shown_as(KeyCode::Media(MediaKeyCode::Record), held, "media(record)"@),
        shown_as(KeyCode::Media(MediaKeyCode::LowerVolume), held, "media(lowervolume)"@),
        shown_as(KeyCode::Media(MediaKeyCode::RaiseVolume), held, "media(raisevolume)"@),
        shown_as(KeyCode::Media(MediaKeyCode::MuteVolume), held, "media(mutevolume)"@),
{
    lemma_media_texts_1();
    lemma_media_texts_2();
    lemma_shown(KeyCode::Media(MediaKeyCode::Play), held, "media(play)"@);
    lemma_shown(KeyCode::Media(MediaKeyCode::Pause), held, "media(pause)"@);
    lemma_shown(KeyCode::Media(MediaKeyCode::PlayPause), held, "media(playpause)"@);
    lemma_shown(KeyCode::Media(MediaKeyCode::Reverse), held, "media(reverse)"@);
    lemma_shown(KeyCode::Media(MediaKeyCode::Stop), held, "media(stop)"@);
    lemma_shown(KeyCode::Media(MediaKeyCode::FastForward), held, "media(fastforward)"@);
    lemma_shown(KeyCode::Media(MediaKeyCode::Rewind), held, "media(rewind)"@);
    lemma_shown(KeyCode::Media(MediaKeyCode::TrackNext), held, "media(tracknext)"@);
    lemma_shown(KeyCode::Media(MediaKeyCode::TrackPrevious), held, "media(trackprevious)"@);
    lemma_shown(KeyCode::Media(MediaKeyCode::Record), held, "media(record)"@);
    lemma_shown(KeyCode::Media(MediaKeyCode::LowerVolume), held, "media(lowervolume)"@);
    lemma_shown(KeyCode::Media(MediaKeyCode::RaiseVolume), held, "media(raisevolume)"@);
    lemma_shown(KeyCode::Media(MediaKeyCode::MuteVolume), held, "media(mutevolume)"@);
}

/// How a key is enclosed in `modifier(` and `)`.
proof fn lemma_modifier_enclosed(name: Seq<char>, whole: Seq<char>)
    requires
        whole.len() == name.len() + 10,
        forall|i: int| 0 <= i < 9 ==> whole[i] == "modifier("@[i],
        forall|i: int| 0 <= i < name.len() ==> whole[i + 9] == name[i],
        whole.last() == ')',
    ensures
        "modifier("@ + name + ")"@ == whole,
{
    reveal_strlit("modifier(");
    reveal_strlit(")");
    assert("modifier("@ + name + ")"@ =~= whole);
}

proof fn lemma_modifier_texts_1()
    ensures
        code_text(KeyCode::Modifier(ModifierKeyCode::LeftShift)) == "modifier(leftshift)"@,
        code_text(KeyCode::Modifier(ModifierKeyCode::LeftControl)) == "modifier(leftcontrol)"@,
        code_text(KeyCode::Modifier(ModifierKeyCode::LeftAlt)) == "modifier(leftalt)"@,
        code_text(KeyCode::Modifier(ModifierKeyCode::LeftSuper)) == "modifier(leftsuper)"@,
        code_text(KeyCode::Modifier(ModifierKeyCode::LeftHyper)) == "modifier(lefthyper)"@,
        code_text(KeyCode::Modifier(ModifierKeyCode::LeftMeta)) == "modifier(leftmeta)"@,
        code_text(KeyCode::Modifier(ModifierKeyCode::RightShift)) == "modifier(rightshift)"@,
{
    assert("modifier("@ + "leftshift"@ + ")"@ == "modifier(leftshift)"@) by {
        reveal_strlit("modifier(");
        reveal_strlit("leftshift");
        reveal_strlit("modifier(leftshift)");
        lemma_modifier_enclosed("leftshift"@, "modifier(leftshift)"@);
    }
    assert("modifier("@ + "leftcontrol"@ + ")"@ == "modifier(leftcontrol)"@) by {
        reveal_strlit("modifier(");
        reveal_strlit("leftcontrol");
        reveal_strlit("modifier(leftcontrol)");
        lemma_modifier_enclosed("leftcontrol"@, "modifier(leftcontrol)"@);
    }
    assert("modifier("@ + "leftalt"@ + ")"@ == "modifier(leftalt)"@) by {
        reveal_strlit("modifier(");
        reveal_strlit("leftalt");
        reveal_strlit("modifier(leftalt)");
        lemma_modifier_enclosed("leftalt"@, "modifier(leftalt)"@);
    }
    assert("modifier("@ + "leftsuper"@ + ")"@ == "modifier(leftsuper)"@) by {
        reveal_strlit("modifier(");
        reveal_strlit("leftsuper");
        reveal_strlit("modifier(leftsuper)");
        lemma_modifier_enclosed("leftsuper"@, "modifier(leftsuper)"@);
    }
    assert("modifier("@ + "lefthyper"@ + ")"@ == "modifier(lefthyper)"@) by {
        reveal_strlit("modifier(");
        reveal_strlit("lefthyper");
        reveal_strlit("modifier(lefthyper)");
        lemma_modifier_enclosed("lefthyper"@, "modifier(lefthyper)"@);
    }
    assert("modifier("@ + "leftmeta"@ + ")"@ == "modifier(leftmeta)"@) by {
        reveal_strlit("modifier(");
        reveal_strlit("leftmeta");
        reveal_strlit("modifier(leftmeta)");
        lemma_modifier_enclosed("leftmeta"@, "modifier(leftmeta)"@);
    }
    assert("modifier("@ + "rightshift"@ + ")"@ == "modifier(rightshift)"@) by {
        reveal_strlit("modifier(");
        reveal_strlit("rightshift");
        reveal_strlit("modifier(rightshift)");
        lemma_modifier_enclosed("rightshift"@, "modifier(rightshift)"@);
    }
}

proof fn lemma_modifier_texts_2()
    ensures
        code_text(KeyCode::Modifier(ModifierKeyCode::RightControl)) == "modifier(rightcontrol)"@,
        code_text(KeyCode::Modifier(ModifierKeyCode::RightAlt)) == "modifier(rightalt)"@,
        code_text(KeyCode::Modifier(ModifierKeyCode::RightSuper)) == "modifier(rightsuper)"@,
        code_text(KeyCode::Modifier(ModifierKeyCode::RightHyper)) == "modifier(righthyper)"@,
        code_text(KeyCode::Modifier(ModifierKeyCode::RightMeta)) == "modifier(rightmeta)"@,
        code_text(KeyCode::Modifier(ModifierKeyCode::IsoLevel3Shift)) == "modifier(isolevel3shift)"@,
        code_text(KeyCode::Modifier(ModifierKeyCode::IsoLevel5Shift)) == "modifier(isolevel5shift)"@,
{
    assert("modifier("@ + "rightcontrol"@ + ")"@ == "modifier(rightcontrol)"@) by {
        reveal_strlit("modifier(");
        reveal_strlit("rightcontrol");
        reveal_strlit("modifier(rightcontrol)");
        lemma_modifier_enclosed("rightcontrol"@, "modifier(rightcontrol)"@);
    }
    assert("modifier("@ + "rightalt"@ + ")"@ == "modifier(rightalt)"@) by {
        reveal_strlit("modifier(");
        reveal_strlit("rightalt");
        reveal_strlit("modifier(rightalt)");
        lemma_modifier_enclosed("rightalt"@, "modifier(rightalt)"@);
    }
    assert("modifier("@ + "rightsuper"@ + ")"@ == "modifier(rightsuper)"@) by {
        reveal_strlit("modifier(");
        reveal_strlit("rightsuper");
        reveal_strlit("modifier(rightsuper)");
        lemma_modifier_enclosed("rightsuper"@, "modifier(rightsuper)"@);
    }
    assert("modifier("@ + "righthyper"@ + ")"@ == "modifier(righthyper)"@) by {
        reveal_strlit("modifier(");
        reveal_strlit("righthyper");
        reveal_strlit("modifier(righthyper)");
        lemma_modifier_enclosed("righthyper"@, "modifier(righthyper)"@);
    }
    assert("modifier("@ + "rightmeta"@ + ")"@ == "modifier(rightmeta)"@) by {
        reveal_strlit("modifier(");
        reveal_strlit("rightmeta");
        reveal_strlit("modifier(rightmeta)");
        lemma_modifier_enclosed("rightmeta"@, "modifier(rightmeta)"@);
    }
    assert("modifier("@ + "isolevel3shift"@ + ")"@ == "modifier(isolevel3shift)"@) by {
        reveal_strlit("modifier(");
        reveal_strlit("isolevel3shift");
        reveal_strlit("modifier(isolevel3shift)");
        lemma_modifier_enclosed("isolevel3shift"@, "modifier(isolevel3shift)"@);
    }
    assert("modifier("@ + "isolevel5shift"@ + ")"@ == "modifier(isolevel5shift)"@) by {
        reveal_strlit("modifier(");
        reveal_strlit("isolevel5shift");
        reveal_strlit("modifier(isolevel5shift)");
        lemma_modifier_enclosed("isolevel5shift"@, "modifier(isolevel5shift)"@);
    }
}

/// What each modifier key that is pressed by itself is shown as.
pub proof fn law_modifier_keys_are_shown_by_these_words(held: KeyModifiers)
    ensures
        shown_as(KeyCode::Modifier(ModifierKeyCode::LeftShift), held, "modifier(leftshift)"@),
        shown_as(KeyCode::Modifier(ModifierKeyCode::LeftControl), held, "modifier(leftcontrol)"@),
        shown_as(KeyCode::Modifier(ModifierKeyCode::LeftAlt), held, "modifier(leftalt)"@),
        shown_as(KeyCode::Modifier(ModifierKeyCode::LeftSuper), held, "modifier(leftsuper)"@),
        shown_as(KeyCode::Modifier(ModifierKeyCode::LeftHyper), held, "modifier(lefthyper)"@),
        shown_as(KeyCode::Modifier(ModifierKeyCode::LeftMeta), held, "modifier(leftmeta)"@),
        shown_as(KeyCode::Modifier(ModifierKeyCode::RightShift), held, "modifier(rightshift)"@),
        shown_as(KeyCode::Modifier(ModifierKeyCode::RightControl), held, "modifier(rightcontrol)"@),
        shown_as(KeyCode::Modifier(ModifierKeyCode::RightAlt), held, "modifier(rightalt)"@),
        shown_as(KeyCode::Modifier(ModifierKeyCode::RightSuper), held, "modifier(rightsuper)"@),
        shown_as(KeyCode::Modifier(ModifierKeyCode::RightHyper), held, "modifier(righthyper)"@),
        shown_as(KeyCode::Modifier(ModifierKeyCode::RightMeta), held, "modifier(rightmeta)"@),
        shown_as(KeyCode::Modifier(ModifierKeyCode::IsoLevel3Shift), held, "modifier(isolevel3shift)"@),
        shown_as(KeyCode::Modifier(ModifierKeyCode::IsoLevel5Shift), held, "modifier(isolevel5shift)"@),
{
    lemma_modifier_texts_1();
    lemma_modifier_texts_2();
    lemma_shown(KeyCode::Modifier(ModifierKeyCode::LeftShift), held, "modifier(leftshift)"@);
    lemma_shown(KeyCode::Modifier(ModifierKeyCode::LeftControl), held, "modifier(leftcontrol)"@);
    lemma_shown(KeyCode::Modifier(ModifierKeyCode::LeftAlt), held, "modifier(leftalt)"@);
    lemma_shown(KeyCode::Modifier(ModifierKeyCode::LeftSuper), held, "modifier(leftsuper)"@);
    lemma_shown(KeyCode::Modifier(ModifierKeyCode::LeftHyper), held, "modifier(lefthyper)"@);
    lemma_shown(KeyCode::Modifier(ModifierKeyCode::LeftMeta), held, "modifier(leftmeta)"@);
    lemma_shown(KeyCode::Modifier(ModifierKeyCode::RightShift), held, "modifier(rightshift)"@);
    lemma_shown(KeyCode::Modifier(ModifierKeyCode::RightControl), held, "modifier(rightcontrol)"@);
    lemma_shown(KeyCode::Modifier(ModifierKeyCode::RightAlt), held, "modifier(rightalt)"@);
    lemma_shown(KeyCode::Modifier(ModifierKeyCode::RightSuper), held, "modifier(rightsuper)"@);
    lemma_shown(KeyCode::Modifier(ModifierKeyCode::RightHyper), held, "modifier(righthyper)"@);
    lemma_shown(KeyCode::Modifier(ModifierKeyCode::RightMeta), held, "modifier(rightmeta)"@);
    lemma_shown(KeyCode::Modifier(ModifierKeyCode::IsoLevel3Shift), held, "modifier(isolevel3shift)"@);
    lemma_shown(KeyCode::Modifier(ModifierKeyCode::IsoLevel5Shift), held, "modifier(isolevel5shift)"@);
}

proof fn lemma_shown(code: KeyCode, held: KeyModifiers, word: Seq<char>)
    requires
        code_text(code) == word,
    ensures
        shown_as(code, held, word),
{
    lemma_held_words(KeyEvent::press(code, unmodified()));
    lemma_held_words(KeyEvent::press(code, held));
}

/// A character names itself, alone and behind any modifiers, and an ASCII
/// capital its small letter; only the plus, which holds a chord together, names
/// no key.
pub proof fn law_a_character_names_itself(c: char, held: KeyModifiers)
    requires
        c != '+',
        !held.meta,
    ensures
        !('A' <= c <= 'Z') ==> means(seq![c], held, KeyCode::Char(c)),
        'A' <= c <= 'Z' ==> means(seq![c], unmodified(), KeyCode::Char((c as nat + 32) as char)),
        c != ' ' ==> shown_as(KeyCode::Char(c), held, seq![c]),
        key_of(seq!['+']) is None,
{
    if c != ' ' {
        lemma_shown(KeyCode::Char(c), held, seq![c]);
    }
    lemma_single(c);
    if !('A' <= c <= 'Z') {
        lemma_behind(unmodified(), seq![c]);
        lemma_behind(held, seq![c]);
        lemma_no_words(seq![c]);
    } else {
        let small = (c as nat + 32) as char;
        assert('a' <= small <= 'z');
        assert(lowered(seq![c]) =~= seq![small]);
        assert(lowered(seq![small]) =~= seq![small]);
        lemma_single(small);
        lemma_behind(unmodified(), seq![small]);
        lemma_no_words(seq![small]);
        lemma_no_words(seq![c]);
    }
    let plus = seq!['+'];
    assert(lowered(plus) =~= plus);
    let none = Seq::<char>::empty();
    assert(plus =~= none + seq!['+'] + none);
    lemma_first_piece(none, none, '+');
    lemma_one_piece(none, '+');
    assert(text::split(plus, '+') =~= seq![none, none]);
    reveal_strlit("ctrl");
    reveal_strlit("control");
    reveal_strlit("alt");
    reveal_strlit("option");
    reveal_strlit("meta");
    reveal_strlit("shift");
    reveal_strlit("super");
    reveal_strlit("cmd");
    reveal_strlit("command");
    reveal_strlit("hyper");
    assert(modifier_named(none) is None);
}

/// `f` and a number from 1 to 24 is that function key, and is what it is shown
/// as; `f` and a number beyond them names nothing.
pub proof fn law_function_keys_go_by_number(n: u8, held: KeyModifiers)
    requires
        !held.meta,
    ensures
        1 <= n <= 24 ==> means(seq!['f'] + text::decimal(n as nat), held, KeyCode::F(n)),
        shown_as(KeyCode::F(n), held, seq!['f'] + text::decimal(n as nat)),
        n == 0 || n > 24 ==> key_of(seq!['f'] + text::decimal(n as nat)) is None,
{
    let name = seq!['f'] + text::decimal(n as nat);
    lemma_shown(KeyCode::F(n), held, name);
    if 1 <= n <= 24 {
        lemma_read_and_shown(KeyCode::F(n), held);
    } else {
        text::lemma_decimal(n as nat);
        text::law_decimal_reads_back(n as nat, 255);
        assert(name.skip(1) =~= text::decimal(n as nat));
        lemma_no_word_begins_so(name);
        assert forall|i: int| 0 <= i < name.len() implies #[trigger] name[i] != '+' && !('A'
            <= name[i] <= 'Z') by {
            if i > 0 {
                assert(text::digit(text::decimal(n as nat)[i - 1]));
            }
        }
        assert(key_named(name) is None);
        lemma_behind(unmodified(), name);
        lemma_no_words(name);
    }
}

/// No word that names a key begins with an `f`.
proof fn lemma_no_word_begins_so(name: Seq<char>)
    requires
        name.len() > 0,
        name[0] == 'f',
    ensures
        word_key(name) is None,
{
    reveal_strlit("enter");
    reveal_strlit("return");
    reveal_strlit("esc");
    reveal_strlit("escape");
    reveal_strlit("tab");
    reveal_strlit("backtab");
    reveal_strlit("backspace");
    reveal_strlit("delete");
    reveal_strlit("del");
    reveal_strlit("insert");
    reveal_strlit("ins");
    reveal_strlit("home");
    reveal_strlit("end");
    reveal_strlit("pageup");
    reveal_strlit("pgup");
    reveal_strlit("pagedown");
    reveal_strlit("pgdn");
    reveal_strlit("pgdown");
    reveal_strlit("up");
    reveal_strlit("down");
    reveal_strlit("left");
    reveal_strlit("right");
    reveal_strlit("space");
    assert("enter"@[0] != 'f');
    assert("return"@[0] != 'f');
    assert("esc"@[0] != 'f');
    assert("escape"@[0] != 'f');
    assert("tab"@[0] != 'f');
    assert("backtab"@[0] != 'f');
    assert("backspace"@[0] != 'f');
    assert("delete"@[0] != 'f');
    assert("del"@[0] != 'f');
    assert("insert"@[0] != 'f');
    assert("ins"@[0] != 'f');
    assert("home"@[0] != 'f');
    assert("end"@[0] != 'f');
    assert("pageup"@[0] != 'f');
    assert("pgup"@[0] != 'f');
    assert("pagedown"@[0] != 'f');
    assert("pgdn"@[0] != 'f');
    assert("pgdown"@[0] != 'f');
    assert("up"@[0] != 'f');
    assert("down"@[0] != 'f');
    assert("left"@[0] != 'f');
    assert("right"@[0] != 'f');
    assert("space"@[0] != 'f');
}

/// Reading a binding does not look at the case of its ASCII letters.
pub proof fn law_case_does_not_matter(a: Seq<char>, b: Seq<char>)
    requires
        a.len() == b.len(),
        forall|i: int|
            0 <= i < a.len() ==> #[trigger] a[i] == b[i] || ('A' <= a[i] <= 'Z' && b[i] as int
                == a[i] as int + 32),
    ensures
        key_of(a) == key_of(b),
{
    assert forall|i: int| 0 <= i < a.len() implies #[trigger] lowered(a)[i] == lowered(b)[i] by {
        if a[i] != b[i] {
            let n = a[i] as nat + 32;
            assert(97 <= n <= 122);
            assert(n as char == b[i]);
        }
    }
    assert(lowered(a) =~= lowered(b));
}

/// What each word for a modifier adds to the chord behind it: control for
/// `ctrl` and `control`, alt for `alt`, `option` and `meta`, shift for `shift`,
/// the super key for `super`, `cmd` and `command`, and hyper for `hyper`.
pub proof fn law_modifier_words_hold_these(rest: Seq<char>)
    ensures
        holds("ctrl+"@, rest, true, false, false, false, false),
        holds("control+"@, rest, true, false, false, false, false),
        holds("alt+"@, rest, false, true, false, false, false),
        holds("option+"@, rest, false, true, false, false, false),
        holds("meta+"@, rest, false, true, false, false, false),
        holds("shift+"@, rest, false, false, true, false, false),
        holds("super+"@, rest, false, false, false, true, false),
        holds("cmd+"@, rest, false, false, false, true, false),
        holds("command+"@, rest, false, false, false, true, false),
        holds("hyper+"@, rest, false, false, false, false, true),
{
    reveal_strlit("ctrl");
    reveal_strlit("control");
    reveal_strlit("alt");
    reveal_strlit("option");
    reveal_strlit("meta");
    reveal_strlit("shift");
    reveal_strlit("super");
    reveal_strlit("cmd");
    reveal_strlit("command");
    reveal_strlit("hyper");
    reveal_strlit("ctrl+");
    reveal_strlit("control+");
    reveal_strlit("alt+");
    reveal_strlit("option+");
    reveal_strlit("meta+");
    reveal_strlit("shift+");
    reveal_strlit("super+");
    reveal_strlit("cmd+");
    reveal_strlit("command+");
    reveal_strlit("hyper+");
    assert("alt"@[0] == 'a' && "cmd"@[0] == 'c');
    assert("ctrl"@[0] == 'c' && "meta"@[0] == 'm');
    assert("control"@[2] == 'n' && "command"@[2] == 'm');
    assert("shift"@[1] == 'h' && "super"@[1] == 'u' && "hyper"@[1] == 'y');
    assert("ctrl+"@ =~= "ctrl"@ + seq!['+']);
    lemma_holds("ctrl"@, rest, true, false, false, false, false);
    assert("control+"@ =~= "control"@ + seq!['+']);
    lemma_holds("control"@, rest, true, false, false, false, false);
    assert("alt+"@ =~= "alt"@ + seq!['+']);
    lemma_holds("alt"@, rest, false, true, false, false, false);
    assert("option+"@ =~= "option"@ + seq!['+']);
    lemma_holds("option"@, rest, false, true, false, false, false);
    assert("meta+"@ =~= "meta"@ + seq!['+']);
    lemma_holds("meta"@, rest, false, true, false, false, false);
    assert("shift+"@ =~= "shift"@ + seq!['+']);
    lemma_holds("shift"@, rest, false, false, true, false, false);
    assert("super+"@ =~= "super"@ + seq!['+']);
    lemma_holds("super"@, rest, false, false, false, true, false);
    assert("cmd+"@ =~= "cmd"@ + seq!['+']);
    lemma_holds("cmd"@, rest, false, false, false, true, false);
    assert("command+"@ =~= "command"@ + seq!['+']);
    lemma_holds("command"@, rest, false, false, false, true, false);
    assert("hyper+"@ =~= "hyper"@ + seq!['+']);
    lemma_holds("hyper"@, rest, false, false, false, false, true);
}

/// Whether a word in front of a chord makes nothing but the given modifiers
/// held in it, and leaves what cannot be read unread.
pub open spec fn holds(
    word: Seq<char>,
    rest: Seq<char>,
    control: bool,
    alt: bool,
    shift: bool,
    super_key: bool,
    hyper: bool,
) -> bool {
    match key_of(rest) {
        Some(key) => key_of(word + rest) == Some(
            KeyEvent {
                modifiers: KeyModifiers {
                    shift: key.modifiers.shift || shift,
                    control: key.modifiers.control || control,
                    alt: key.modifiers.alt || alt,
                    super_key: key.modifiers.super_key || super_key,
                    hyper: key.modifiers.hyper || hyper,
                    meta: key.modifiers.meta,
                },
                ..key
            },
        ),
        None => key_of(word + rest) is None,
    }
}

proof fn lemma_holds(
    word: Seq<char>,
    rest: Seq<char>,
    control: bool,
    alt: bool,
    shift: bool,
    super_key: bool,
    hyper: bool,
)
    requires
        tame(word),
        modifier_named(word) == Some(
            (KeyModifiers { shift, control, alt, super_key, hyper, meta: false }),
        ),
    ensures
        holds(word + seq!['+'], rest, control, alt, shift, super_key, hyper),
{
    let m = KeyModifiers { shift, control, alt, super_key, hyper, meta: false };
    let whole = word + seq!['+'] + rest;
    let low = lowered(rest);
    assert(lowered(whole) =~= word + seq!['+'] + low);
    lemma_first_piece(word, low, '+');
    let parts = text::split(lowered(whole), '+');
    lemma_split_not_empty(low, '+');
    assert(parts[0] == word);
    assert(parts.skip(1) =~= text::split(low, '+'));
    assert(both(unmodified(), m) == m);
    lemma_more_held(text::split(low, '+'), unmodified(), m);
}

/// Modifiers held before a chord is read are held in the key it names.
proof fn lemma_more_held(parts: Seq<Seq<char>>, held: KeyModifiers, more: KeyModifiers)
    ensures
        chord(parts, both(held, more)) == (match chord(parts, held) {
            Some(key) => Some(KeyEvent { modifiers: both(key.modifiers, more), ..key }),
            None => None::<KeyEvent>,
        }),
    decreases parts.len(),
{
    if parts.len() > 1 {
        if let Some(m) = modifier_named(parts[0]) {
            assert(both(both(held, more), m) == both(both(held, m), more));
            lemma_more_held(parts.skip(1), both(held, m), more);
        }
    }
}

/// The names of the actions, and the keys that reach them where nothing rebinds
/// them.
pub proof fn law_actions_and_their_keys()
    ensures
        action_named("app_exit"@) == Some(Action::AppExit),
        action_named("palette_open"@) == Some(Action::PaletteOpen),
        action_named("sessions_open"@) == Some(Action::SessionsOpen),
        action_named("themes_open"@) == Some(Action::ThemesOpen),
        action_named("agent_cycle"@) == Some(Action::AgentCycle),
        keys_of("ctrl+c,ctrl+q,ctrl+d"@) == Ok::<Seq<KeyEvent>, Seq<char>>(
            Action::AppExit.default_keys(),
        ),
        keys_of("ctrl+p"@) == Ok::<Seq<KeyEvent>, Seq<char>>(Action::PaletteOpen.default_keys()),
        keys_of("ctrl+s"@) == Ok::<Seq<KeyEvent>, Seq<char>>(Action::SessionsOpen.default_keys()),
        keys_of("ctrl+t"@) == Ok::<Seq<KeyEvent>, Seq<char>>(Action::ThemesOpen.default_keys()),
        keys_of("tab"@) == Ok::<Seq<KeyEvent>, Seq<char>>(Action::AgentCycle.default_keys()),
{
    reveal_strlit("app_exit");
    reveal_strlit("palette_open");
    reveal_strlit("sessions_open");
    reveal_strlit("themes_open");
    reveal_strlit("agent_cycle");
    assert("app_exit"@[1] == 'p' && "agent_cycle"@[1] == 'g');
    assert("palette_open"@[0] == 'p' && "sessions_open"@[0] == 's' && "themes_open"@[0] == 't');
    law_every_default_binding_parses(Action::AppExit);
    law_every_default_binding_parses(Action::PaletteOpen);
    law_every_default_binding_parses(Action::SessionsOpen);
    law_every_default_binding_parses(Action::ThemesOpen);
    law_every_default_binding_parses(Action::AgentCycle);
}

proof fn lemma_keys_behind(pieces: Seq<Seq<char>>, i: nat, found: Seq<KeyEvent>)
    requires
        i <= pieces.len(),
    ensures
        keys_from(pieces, i, found) == (match keys_from(pieces, i, Seq::empty()) {
            Ok(keys) => Ok::<Seq<KeyEvent>, Seq<char>>(found + keys),
            Err(wrong) => Err(wrong),
        }),
    decreases pieces.len() - i,
{
    let none = Seq::<KeyEvent>::empty();
    if i >= pieces.len() {
        assert(found + none =~= found);
    } else {
        let alternative = text::trim(pieces[i as int]);
        if alternative.len() == 0 {
            lemma_keys_behind(pieces, i + 1, found);
        } else if let Some(key) = key_of(alternative) {
            lemma_keys_behind(pieces, i + 1, found.push(key));
            lemma_keys_behind(pieces, i + 1, none.push(key));
            if let Ok(keys) = keys_from(pieces, i + 1, none) {
                assert(found.push(key) + keys =~= found + (none.push(key) + keys));
            }
        }
    }
}

proof fn lemma_keys_shift(pieces: Seq<Seq<char>>, i: nat, found: Seq<KeyEvent>)
    requires
        i < pieces.len(),
    ensures
        keys_from(pieces, i + 1, found) == keys_from(pieces.skip(1), i, found),
    decreases pieces.len() - i,
{
    if i + 1 < pieces.len() {
        assert(pieces.skip(1)[i as int] == pieces[i as int + 1]);
        let alternative = text::trim(pieces[i as int + 1]);
        if alternative.len() == 0 {
            lemma_keys_shift(pieces, i + 1, found);
        } else if let Some(key) = key_of(alternative) {
            lemma_keys_shift(pieces, i + 1, found.push(key));
        }
    }
}

/// A binding is its alternatives between commas, blanks around them or not: the
/// key of the first in front of those of the rest; an alternative that says
/// nothing counts for nothing, and the first that cannot be read is what is
/// wrong.
pub proof fn law_alternatives_stand_between_commas(first: Seq<char>, rest: Seq<char>)
    requires
        forall|i: int| 0 <= i < first.len() ==> first[i] != ',',
    ensures
        text::trim(first).len() == 0 ==> keys_of(first + seq![','] + rest) == keys_of(rest),
        text::trim(first).len() > 0 && key_of(text::trim(first)) is None ==> keys_of(
            first + seq![','] + rest,
        ) == Err::<Seq<KeyEvent>, Seq<char>>(text::trim(first)),
        text::trim(first).len() > 0 && key_of(text::trim(first)) is Some ==> keys_of(
            first + seq![','] + rest,
        ) == (match keys_of(rest) {
            Ok(keys) => Ok::<Seq<KeyEvent>, Seq<char>>(
                seq![key_of(text::trim(first))->0] + keys,
            ),
            Err(wrong) => Err(wrong),
        }),
        keys_of(first) == (if text::trim(first).len() == 0 {
            Ok::<Seq<KeyEvent>, Seq<char>>(Seq::empty())
        } else {
            match key_of(text::trim(first)) {
                Some(key) => Ok(seq![key]),
                None => Err(text::trim(first)),
            }
        }),
{
    let none = Seq::<KeyEvent>::empty();
    lemma_first_piece(first, rest, ',');
    lemma_one_piece(first, ',');
    let whole = first + seq![','] + rest;
    let pieces = text::split(whole, ',');
    lemma_split_not_empty(rest, ',');
    assert(pieces.skip(1) =~= text::split(rest, ','));
    assert(pieces[0] == first);
    lemma_keys_shift(pieces, 0, none);
    reveal_with_fuel(keys_from, 2);
    if text::trim(first).len() > 0 {
        if let Some(key) = key_of(text::trim(first)) {
            assert(none.push(key) =~= seq![key]);
            lemma_keys_shift(pieces, 0, none.push(key));
            lemma_keys_behind(pieces.skip(1), 0, none.push(key));
        }
    }
}

/// A key reaches the first action that it is bound to, and none where it is
/// bound to none.
pub proof fn law_a_key_reaches_its_first_action(table: Seq<BindingView>, key: KeyEvent, at: int)
    ensures
        0 <= at < table.len() && reached(table[at].keys, key) && (forall|i: int|
            0 <= i < at ==> !reached((#[trigger] table[i]).keys, key)) ==> action_reached(
            table,
            key,
            0,
        ) == Some(table[at].action),
        (forall|i: int| 0 <= i < table.len() ==> !reached((#[trigger] table[i]).keys, key))
            ==> action_reached(table, key, 0) is None,
{
    lemma_reached_from(table, key, at, 0);
}

proof fn lemma_reached_from(table: Seq<BindingView>, key: KeyEvent, at: int, from: nat)
    ensures
        from <= at < table.len() && reached(table[at].keys, key) && (forall|i: int|
            from <= i < at ==> !reached((#[trigger] table[i]).keys, key)) ==> action_reached(
            table,
            key,
            from,
        ) == Some(table[at].action),
        (forall|i: int| from <= i < table.len() ==> !reached((#[trigger] table[i]).keys, key))
            ==> action_reached(table, key, from) is None,
    decreases table.len() - from,
{
    if from < table.len() {
        lemma_reached_from(table, key, at, from + 1);
        if reached(table[from as int].keys, key) && from < at {
            assert(!(forall|i: int|
                from <= i < at ==> !reached((#[trigger] table[i]).keys, key)));
        }
    }
}

/// Shift with Tab is the backtab key, reported with shift or not; a key that is
/// neither a letter nor Tab is itself under shift, and no other modifier is
/// folded away.
pub proof fn law_shift_and_tab_are_backtab(tab: KeyEvent, back: KeyEvent, plain: KeyEvent)
    requires
        tab.code == KeyCode::Tab,
        tab.modifiers.shift,
        back.code == KeyCode::BackTab,
        back.modifiers == (KeyModifiers { shift: back.modifiers.shift, ..tab.modifiers }),
        !(plain.code is Char) && plain.code != KeyCode::Tab,
    ensures
        folded(tab) == folded(back),
        folded(plain).0 == plain.code,
        folded(tab).1.control == tab.modifiers.control,
        folded(tab).1.alt == tab.modifiers.alt,
        folded(tab).1.super_key == tab.modifiers.super_key,
        folded(tab).1.hyper == tab.modifiers.hyper,
        folded(tab).1.meta == tab.modifiers.meta,
{
}

/// The hint of an action is its keys, each as it is shown, with commas between;
/// an action without keys has none.
pub proof fn law_a_hint_lists_the_keys(action: Action, key: KeyEvent, other: KeyEvent)
    ensures
        hint_of(seq![BindingView { action, keys: Seq::empty() }], action) is None,
        hint_of(seq![BindingView { action, keys: seq![key] }], action) == Some(chord_text(key)),
        hint_of(seq![BindingView { action, keys: seq![key, other] }], action) == Some(
            chord_text(key) + seq![',', ' '] + chord_text(other),
        ),
        hint_of(Seq::empty(), action) is None,
{
    reveal_strlit(", ");
    assert(", "@ =~= seq![',', ' ']);
    reveal_with_fuel(text::joined, 3);
    let one = Seq::new(1, |k: int| chord_text(seq![key][k]));
    assert(one =~= seq![chord_text(key)]);
    let two = Seq::new(2, |k: int| chord_text(seq![key, other][k]));
    assert(two =~= seq![chord_text(key), chord_text(other)]);
    assert(two.drop_last() =~= seq![chord_text(key)]);
    assert(text::joined(two, ", "@) =~= chord_text(key) + seq![',', ' '] + chord_text(other));
    let t0 = seq![BindingView { action, keys: Seq::<KeyEvent>::empty() }];
    assert(row_of(t0, action, 0) == 0);
    let t1 = seq![BindingView { action, keys: seq![key] }];
    assert(row_of(t1, action, 0) == 0);
    let t2 = seq![BindingView { action, keys: seq![key, other] }];
    assert(row_of(t2, action, 0) == 0);
    assert(Seq::new(t1[0].keys.len(), |k: int| chord_text(t1[0].keys[k])) =~= one);
    assert(Seq::new(t2[0].keys.len(), |k: int| chord_text(t2[0].keys[k])) =~= two);
}

/// What is said of a configuration that cannot be read names what is wrong.
pub proof fn law_keybind_errors_name_what_is_wrong(name: Seq<char>, key: Seq<char>)
    ensures
        (KeybindErrorView::UnknownAction { name }).message() == "unknown keybind action "@
            + text::quoted(name)
            + "; this build binds app_exit, palette_open, sessions_open, themes_open, agent_cycle"@,
        (KeybindErrorView::UnparseableKey { action: name, key }).message() == name
            + ": cannot parse the key "@ + text::quoted(key),
{
}

} // verus!
