//! What a session decides before it takes the terminal over: the session it
//! opens, the agent and the model it starts on, what it is to its team, and what
//! the status bar first says.

use vstd::prelude::*;

use crate::lister::NameSource;
use crate::member::Membership;
use crate::spell::{self, copied};
use crate::text::{self, join, quote, str_eq, to_chars};

verus! {

/// Separates the things the status bar shows on its left.
pub open spec fn separator() -> Seq<char> {
    " \u{b7} "@
}

/// Which stored session a run opens, when it opens one.
#[derive(Clone, Debug, PartialEq, Eq)]
pub enum Resume {
    /// The most recently updated one of the project.
    Latest,
    /// The one with this id.
    Session(String),
}

/// Why no session opens.
#[derive(Clone, Debug, PartialEq, Eq)]
pub enum NotResumed {
    /// What is stored cannot be told, for this reason.
    NotListed(String),
    /// None is stored.
    NothingStored,
    /// The engine did not open it, for this reason.
    Refused(String),
}

impl NotResumed {
    /// What is said of it.
    pub open spec fn said(self) -> Seq<char> {
        match self {
            NotResumed::NotListed(cause) => "failed to list the stored sessions: "@ + cause@,
            NotResumed::NothingStored => "there is no stored session to continue in this project"@,
            NotResumed::Refused(cause) => "failed to resume the session: "@ + cause@,
        }
    }

    /// What is said of it; see [`NotResumed::said`].
    pub fn message(&self) -> (s: String)
        ensures
            s@ == self.said(),
    {
        match self {
            NotResumed::NotListed(cause) => {
                let mut s = String::new();
                s.push_str("failed to list the stored sessions: ");
                s.push_str(cause);
                assert(s@ =~= self.said());
                s
            },
            NotResumed::NothingStored =>
                "there is no stored session to continue in this project".to_string(),
            NotResumed::Refused(cause) => {
                let mut s = String::new();
                s.push_str("failed to resume the session: ");
                s.push_str(cause);
                assert(s@ =~= self.said());
                s
            },
        }
    }
}

/// The session a run asks the engine to open: the one it names, or the newest
/// of those listed, newest first. A session that is named is asked for whatever
/// the list says.
pub fn stored_transcript(listed: &Result<Vec<String>, String>, resume: Resume) -> (r: Result<
    String,
    NotResumed,
>)
    ensures
        match resume {
            Resume::Session(id) => r matches Ok(asked) && asked@ == id@,
            Resume::Latest => match listed {
                Err(cause) => r matches Err(NotResumed::NotListed(said)) && said@ == cause@,
                Ok(stored) => if stored@.len() == 0 {
                    r matches Err(NotResumed::NothingStored)
                } else {
                    r matches Ok(asked) && asked@ == stored@[0]@
                },
            },
        },
{
    match resume {
        Resume::Session(id) => Ok(id),
        Resume::Latest => match listed {
            Err(cause) => Err(NotResumed::NotListed(cause.clone())),
            Ok(stored) => if stored.len() == 0 {
                Err(NotResumed::NothingStored)
            } else {
                Ok(stored[0].clone())
            },
        },
    }
}

/// What a run opens on, from what the engine answered: the transcript of the
/// session asked for, or why there is none. Nothing takes its place.
pub fn resumed<T>(answer: Result<T, String>) -> (r: Result<T, NotResumed>)
    ensures
        match answer {
            Ok(transcript) => r == Ok::<T, NotResumed>(transcript),
            Err(cause) => r matches Err(NotResumed::Refused(said)) && said@ == cause@,
        },
{
    match answer {
        Ok(transcript) => Ok(transcript),
        Err(cause) => Err(NotResumed::Refused(cause)),
    }
}

/// The arm a theme resolves in.
#[derive(Clone, Copy, Debug, PartialEq, Eq, Structural)]
pub enum Mode {
    Dark,
    Light,
}

/// The themes there are, the one in use and the arm it resolves in.
#[derive(Debug, PartialEq, Eq)]
pub struct Themes {
    names: Vec<String>,
    active: usize,
    mode: Mode,
}

/// A registry of themes as the contracts speak of it.
pub struct ThemesView {
    pub names: Seq<Seq<char>>,
    pub active: Seq<char>,
    pub mode: Mode,
}

impl View for Themes {
    type V = ThemesView;

    closed spec fn view(&self) -> ThemesView {
        ThemesView {
            names: text::texts(self.names@),
            active: self.names@[self.active as int]@,
            mode: self.mode,
        }
    }
}

impl Themes {
    #[verifier::type_invariant]
    spec fn valid(self) -> bool {
        self.active < self.names@.len()
    }

    /// The themes of a build, the first in use, in the dark arm.
    pub fn new(first: String, rest: Vec<String>) -> (themes: Themes)
        ensures
            themes@.names == seq![first@] + text::texts(rest@),
            themes@.active == first@,
            themes@.mode == Mode::Dark,
    {
        let ghost others = rest@;
        let ghost name = first@;
        let mut names = rest;
        names.insert(0, first);
        assert(text::texts(names@) =~= seq![name] + text::texts(others));
        Themes { names, active: 0, mode: Mode::Dark }
    }

    /// The theme in use.
    pub fn active(&self) -> (s: &str)
        ensures
            s@ == self@.active,
    {
        proof {
            use_type_invariant(self);
        }
        self.names[self.active].as_str()
    }

    /// The arm it resolves in.
    pub fn mode(&self) -> (mode: Mode)
        ensures
            mode == self@.mode,
    {
        self.mode
    }

    /// Has a theme resolve in another arm.
    pub fn set_mode(&mut self, mode: Mode)
        ensures
            final(self)@ == (ThemesView { mode, ..old(self)@ }),
    {
        proof {
            use_type_invariant(&*self);
        }
        self.mode = mode;
    }

    /// Puts the theme of a name in use. A name that no theme has changes
    /// nothing.
    pub fn select(&mut self, name: &str) -> (found: bool)
        ensures
            found == old(self)@.names.contains(name@),
            final(self)@ == (if found {
                ThemesView { active: name@, ..old(self)@ }
            } else {
                old(self)@
            }),
    {
        proof {
            use_type_invariant(&*self);
        }
        let ghost was = *self;
        let mut i: usize = 0;
        while i < self.names.len()
            invariant
                *self == was,
                was == *old(self),
                was.valid(),
                i <= self.names@.len(),
                forall|k: int| 0 <= k < i ==> (#[trigger] was.names@[k])@ != name@,
            decreases self.names.len() - i,
        {
            if str_eq(&self.names[i], name) {
                assert(was@.names[i as int] == name@);
                self.active = i;
                return true;
            }
            i += 1;
        }
        assert(!was@.names.contains(name@)) by {
            assert forall|k: int| 0 <= k < was@.names.len() implies was@.names[k] != name@ by {
                assert(was.names@[k]@ != name@);
            }
        }
        false
    }
}

/// The registry once a configuration was applied to it: the arm first, and then
/// the theme, where there is one of that name.
pub open spec fn configured(themes: ThemesView, theme: Option<Seq<char>>, mode: Option<Mode>)
    -> ThemesView {
    let moded = match mode {
        Some(mode) => ThemesView { mode, ..themes },
        None => themes,
    };
    match theme {
        Some(name) => if themes.names.contains(name) {
            ThemesView { active: name, ..moded }
        } else {
            moded
        },
        None => moded,
    }
}

/// What is said of a configuration's theme: something only where no theme has
/// that name, since that costs the theme and not the session.
pub open spec fn complaint(themes: ThemesView, theme: Option<Seq<char>>) -> Option<Seq<char>> {
    match theme {
        Some(name) => if themes.names.contains(name) {
            None
        } else {
            Some("no theme named "@ + text::quoted(name) + "; using "@ + themes.active)
        },
        None => None,
    }
}

/// Applies a configuration's theme and arm; see [`configured`] and
/// [`complaint`].
pub fn configure_themes(themes: &mut Themes, theme: Option<String>, mode: Option<Mode>) -> (said:
    Option<String>)
    ensures
        final(themes)@ == configured(old(themes)@, spell::seen(theme), mode),
        spell::seen(said) == complaint(old(themes)@, spell::seen(theme)),
{
    if let Some(mode) = mode {
        themes.set_mode(mode);
    }
    match theme {
        None => None,
        Some(name) => {
            if themes.select(&name) {
                return None;
            }
            let mut s = String::new();
            s.push_str("no theme named ");
            s.push_str(&quote(&name));
            s.push_str("; using ");
            s.push_str(themes.active());
            assert(s@ =~= "no theme named "@ + text::quoted(name@) + "; using "@
                + old(themes)@.active);
            Some(s)
        },
    }
}

/// What a configuration names is what is in use, whatever was picked before it,
/// and a configuration that names nothing that there is leaves the pick.
pub proof fn law_the_configuration_outranks_a_pick(
    themes: ThemesView,
    theme: Option<Seq<char>>,
    mode: Option<Mode>,
)
    ensures
        configured(themes, theme, mode).active == (match theme {
            Some(name) if themes.names.contains(name) => name,
            _ => themes.active,
        }),
        complaint(themes, theme) is Some <==> theme is Some && !themes.names.contains(theme->0),
        configured(configured(themes, theme, mode), theme, mode) == configured(themes, theme, mode),
{
}

/// Those of a list that are there.
pub open spec fn there(parts: Seq<Option<Seq<char>>>) -> Seq<Seq<char>>
    decreases parts.len(),
{
    if parts.len() == 0 {
        Seq::empty()
    } else {
        match parts.last() {
            Some(part) => there(parts.drop_last()).push(part),
            None => there(parts.drop_last()),
        }
    }
}

/// The parts of a notice as the contracts speak of them.
pub open spec fn parts_seen(parts: Seq<Option<String>>) -> Seq<Option<Seq<char>>> {
    Seq::new(parts.len(), |i: int| spell::seen(parts[i]))
}

/// The status bar's opening line: whatever startup had to say, in the order it
/// was said, and nothing where it had nothing to say.
pub fn notice(parts: &Vec<Option<String>>) -> (line: Option<String>)
    ensures
        spell::seen(line) == (if there(parts_seen(parts@)).len() == 0 {
            None
        } else {
            Some(text::joined(there(parts_seen(parts@)), separator()))
        }),
{
    let mut said: Vec<String> = Vec::new();
    let ghost all = parts_seen(parts@);
    let mut i: usize = 0;
    assert(text::texts(said@) =~= there(all.take(0)));
    while i < parts.len()
        invariant
            i <= parts@.len(),
            all == parts_seen(parts@),
            text::texts(said@) == there(all.take(i as int)),
        decreases parts.len() - i,
    {
        assert(all.take(i + 1).drop_last() =~= all.take(i as int));
        assert(all.take(i + 1).last() == all[i as int]);
        let ghost before = text::texts(said@);
        if let Some(part) = &parts[i] {
            said.push(part.clone());
            assert(text::texts(said@) =~= before.push(part@));
        }
        i += 1;
    }
    assert(all.take(i as int) =~= all);
    assert(text::texts(said@).len() == said@.len());
    if said.len() == 0 {
        None
    } else {
        Some(join(&said, " \u{b7} "))
    }
}

/// A notice swallows nothing: it says something exactly where a part does, and
/// each part that does is among what is joined.
pub proof fn law_a_notice_swallows_nothing(parts: Seq<Option<Seq<char>>>)
    ensures
        there(parts).len() == 0 <==> forall|i: int|
            0 <= i < parts.len() ==> (#[trigger] parts[i]) is None,
        forall|i: int|
            0 <= i < parts.len() && (#[trigger] parts[i]) is Some ==> there(parts).contains(
                parts[i]->0,
            ),
    decreases parts.len(),
{
    if parts.len() > 0 {
        let front = parts.drop_last();
        law_a_notice_swallows_nothing(front);
        assert forall|i: int| 0 <= i < parts.len() && (#[trigger] parts[i]) is Some implies there(
            parts,
        ).contains(parts[i]->0) by {
            if i == parts.len() - 1 {
                assert(there(parts).last() == parts[i]->0);
            } else {
                assert(front[i] == parts[i]);
                let k = choose|k: int|
                    0 <= k < there(front).len() && there(front)[k] == parts[i]->0;
                assert(there(parts)[k] == there(front)[k]);
            }
        }
        if there(parts).len() == 0 {
            assert(parts.last() is None);
            assert forall|i: int| 0 <= i < parts.len() implies (#[trigger] parts[i]) is None by {
                if i < parts.len() - 1 {
                    assert(front[i] == parts[i]);
                }
            }
        } else {
            if forall|i: int| 0 <= i < parts.len() ==> (#[trigger] parts[i]) is None {
                assert(parts[parts.len() - 1] is None);
                assert forall|i: int| 0 <= i < front.len() implies (#[trigger] front[i]) is None by {
                    assert(parts[i] == front[i]);
                }
            }
        }
    }
}

/// What the status bar says about a pane teammate: who it is, in its colour
/// where it has one, and of what team.
pub fn member_notice(membership: &Membership) -> (s: String)
    ensures
        s@ == "teammate "@ + membership@.name + (match membership@.color {
            Some(color) => " ("@ + color + ")"@,
            None => Seq::empty(),
        }) + " of "@ + membership@.team,
{
    let mut s = String::new();
    s.push_str("teammate ");
    s.push_str(membership.name());
    if let Some(color) = membership.color() {
        s.push_str(" (");
        s.push_str(color);
        s.push_str(")");
    }
    s.push_str(" of ");
    s.push_str(membership.team());
    assert(s@ =~= "teammate "@ + membership@.name + (match membership@.color {
        Some(color) => " ("@ + color + ")"@,
        None => Seq::empty(),
    }) + " of "@ + membership@.team);
    s
}

/// Whether a value switches off: a one, or `true` in whatever case.
pub open spec fn switches_off(value: Seq<char>) -> bool {
    ||| value.len() == 1 && value[0] == '1'
    ||| value.len() == 4 && (value[0] == 't' || value[0] == 'T') && (value[1] == 'r' || value[1]
        == 'R') && (value[2] == 'u' || value[2] == 'U') && (value[3] == 'e' || value[3] == 'E')
}

/// Whether the terminal is to be asked what keys it can tell apart: not where
/// the environment switches that off.
pub fn probes_the_terminal(disabled: Option<&str>) -> (r: bool)
    ensures
        r == (match disabled {
            Some(value) => !switches_off(value@),
            None => true,
        }),
{
    match disabled {
        None => true,
        Some(value) => {
            let v = to_chars(value);
            let n: usize = v.len();
            let one = n == 1 && v[0] == '1';
            let word = n == 4 && (v[0] == 't' || v[0] == 'T') && (v[1] == 'r' || v[1] == 'R') && (
            v[2] == 'u' || v[2] == 'U') && (v[3] == 'e' || v[3] == 'E');
            !one && !word
        },
    }
}

/// What a team recorded of a member before it was launched.
#[derive(Clone, Debug, PartialEq, Eq)]
pub struct Record {
    /// The model it was spawned to run.
    pub model: Option<String>,
    /// Whether it must start by planning.
    pub plan_mode_required: Option<bool>,
}

/// What a session is to a team.
#[derive(Clone, Copy, Debug, PartialEq, Eq, Structural)]
pub enum Role {
    /// It leads one.
    Lead,
    /// It is a member of another's.
    Member,
    /// It has none and only sends.
    Solo,
}

/// The agent a session starts on: the one its command line names, and the
/// planning one where it is a member that must start by planning.
pub fn starting_agent(named: Option<String>, record: Option<&Record>) -> (agent: Option<String>)
    ensures
        spell::seen(agent) == (match (named, record) {
            (Some(name), _) => Some(name@),
            (None, Some(record)) => if record.plan_mode_required == Some(true) {
                Some("plan"@)
            } else {
                None
            },
            (None, None) => None,
        }),
{
    match named {
        Some(name) => Some(name),
        None => match record {
            Some(record) => match record.plan_mode_required {
                Some(required) => if required {
                    Some("plan".to_string())
                } else {
                    None
                },
                None => None,
            },
            None => None,
        },
    }
}

/// What a session is launched with.
#[derive(Clone, Debug, PartialEq, Eq)]
pub struct Launch {
    /// What its team recorded of it, where it was launched as a member.
    pub record: Option<Record>,
    /// The model its configuration selects.
    pub selected_model: String,
    /// The name its command line gives it.
    pub name: Option<String>,
    /// The name its project gives it.
    pub derived_name: String,
    /// Where its command line keeps sockets.
    pub socket_dir: Option<String>,
    /// Where they are kept otherwise.
    pub default_socket_dir: String,
    /// Whether there is a directory to keep a team in.
    pub config_home: bool,
    /// Whether it was handed something that binds a socket.
    pub binder: bool,
    /// Whether it was handed something that lists live sessions.
    pub lister: bool,
}

/// What a session is put together as.
#[derive(Clone, Debug, PartialEq, Eq)]
pub struct Assembly {
    pub model: String,
    pub role: Role,
    /// The name it goes by, unless its team names it.
    pub self_name: Option<String>,
    pub name_source: NameSource,
    /// Where it looks names up, unless it is a member.
    pub socket_directory: Option<String>,
    /// Whether it binds a socket.
    pub binds: bool,
    /// Whether it lists live sessions.
    pub lists: bool,
    /// Where it looks for others of its name, where it was told.
    pub registry_directory: Option<String>,
}

/// A member was launched where there is no directory to find its team in.
#[derive(Clone, Copy, Debug, PartialEq, Eq, Structural)]
pub struct NoHome;

/// Whether a launch is a member's.
pub open spec fn is_member(launch: Launch) -> bool {
    launch.record is Some
}

/// Whether an assembly is the one a launch asks for.
pub open spec fn assembled(launch: Launch, a: Assembly) -> bool {
    &&& a.model@ == (match launch.record {
        Some(Record { model: Some(model), .. }) => model@,
        _ => launch.selected_model@,
    })
    &&& a.role == (if is_member(launch) {
        Role::Member
    } else if launch.config_home {
        Role::Lead
    } else {
        Role::Solo
    })
    &&& spell::seen(a.self_name) == (if is_member(launch) {
        None
    } else {
        match launch.name {
            Some(name) => Some(name@),
            None => Some(launch.derived_name@),
        }
    })
    &&& a.name_source == (if launch.name is Some {
        NameSource::User
    } else {
        NameSource::Derived
    })
    &&& spell::seen(a.socket_directory) == (if is_member(launch) {
        None
    } else {
        match launch.socket_dir {
            Some(directory) => Some(directory@),
            None => Some(launch.default_socket_dir@),
        }
    })
    &&& a.binds == (launch.binder && launch.config_home && !is_member(launch))
    &&& a.lists == (launch.lister && !is_member(launch))
    &&& spell::seen(a.registry_directory) == (if is_member(launch) {
        None
    } else {
        spell::seen(launch.socket_dir)
    })
}

/// What a launch comes to; see [`assembled`]. A member is refused where there
/// is no directory to find its team in.
pub fn assemble(launch: Launch) -> (r: Result<Assembly, NoHome>)
    ensures
        match r {
            Ok(a) => assembled(launch, a) && (is_member(launch) ==> launch.config_home),
            Err(_) => is_member(launch) && !launch.config_home,
        },
{
    let registry_directory = copied(&launch.socket_dir);
    let named = launch.name.is_some();
    let source = if named {
        NameSource::User
    } else {
        NameSource::Derived
    };
    match launch.record {
        Some(record) => {
            if !launch.config_home {
                return Err(NoHome);
            }
            let model = match record.model {
                Some(model) => model,
                None => launch.selected_model,
            };
            Ok(
                Assembly {
                    model,
                    role: Role::Member,
                    self_name: None,
                    name_source: source,
                    socket_directory: None,
                    binds: false,
                    lists: false,
                    registry_directory: None,
                },
            )
        },
        None => {
            let self_name = match launch.name {
                Some(name) => name,
                None => launch.derived_name,
            };
            let socket_directory = match launch.socket_dir {
                Some(directory) => directory,
                None => launch.default_socket_dir,
            };
            Ok(
                Assembly {
                    model: launch.selected_model,
                    role: if launch.config_home {
                        Role::Lead
                    } else {
                        Role::Solo
                    },
                    self_name: Some(self_name),
                    name_source: source,
                    socket_directory: Some(socket_directory),
                    binds: launch.config_home && launch.binder,
                    lists: launch.lister,
                    registry_directory,
                },
            )
        },
    }
}

/// Only a session that leads a team binds a socket, and it does whenever it was
/// handed something that can; a member does not lead, bind, list or name
/// itself; and listing is open to every other session, with a team or none.
pub proof fn law_only_a_lead_binds(launch: Launch, a: Assembly)
    requires
        assembled(launch, a),
    ensures
        a.binds <==> a.role == Role::Lead && launch.binder,
        a.role == Role::Member ==> !a.binds && !a.lists && a.self_name is None
            && a.socket_directory is None && a.registry_directory is None,
        a.role != Role::Member ==> a.lists == launch.lister && a.self_name is Some,
{
}

/// What there is to say keeps its order: of parts in two lists, what is there is
/// what is there of the first and then of the second.
pub proof fn law_notices_keep_their_order(
    a: Seq<Option<Seq<char>>>,
    b: Seq<Option<Seq<char>>>,
    part: Seq<char>,
)
    ensures
        there(a + b) == there(a) + there(b),
        there(seq![Some(part)]) == seq![part],
        there(seq![None]) == Seq::<Seq<char>>::empty(),
    decreases b.len(),
{
    let one = seq![Some(part)];
    let none = seq![None::<Seq<char>>];
    assert(one.drop_last() =~= Seq::empty());
    assert(none.drop_last() =~= Seq::empty());
    assert(there(Seq::empty()) =~= Seq::<Seq<char>>::empty());
    assert(there(one) =~= seq![part]);
    assert(there(none) =~= Seq::<Seq<char>>::empty());
    if b.len() == 0 {
        assert(a + b =~= a);
        assert(there(a) + there(b) =~= there(a));
    } else {
        law_notices_keep_their_order(a, b.drop_last(), part);
        assert((a + b).drop_last() =~= a + b.drop_last());
        assert(there(a + b) =~= there(a) + there(b));
    }
}

/// The terminal is not asked where the environment says one or true, and is
/// asked whatever else it says.
pub proof fn law_one_and_true_switch_off(value: Seq<char>)
    ensures
        switches_off("1"@),
        switches_off("true"@),
        switches_off("TRUE"@),
        switches_off("True"@),
        !switches_off(""@),
        !switches_off("0"@),
        !switches_off("false"@),
        switches_off(value) ==> value.len() == 1 || value.len() == 4,
        switches_off(value) && value.len() == 1 ==> value == "1"@,
{
    reveal_strlit("1");
    reveal_strlit("true");
    reveal_strlit("TRUE");
    reveal_strlit("True");
    reveal_strlit("");
    reveal_strlit("0");
    reveal_strlit("false");
    if switches_off(value) && value.len() == 1 {
        assert(value =~= "1"@);
    }
}

/// A member runs what its team recorded, and anyone else what is selected; only
/// where there is a home to keep a team in does one lead it.
pub proof fn law_roles_and_models_at_launch(launch: Launch, a: Assembly)
    requires
        assembled(launch, a),
    ensures
        (a.role == Role::Member) == launch.record is Some,
        a.role == Role::Lead <==> launch.record is None && launch.config_home,
        launch.record is None ==> a.model@ == launch.selected_model@,
        launch.record matches Some(record) ==> (record.model matches Some(model) ==> a.model@
            == model@) && (record.model is None ==> a.model@ == launch.selected_model@),
        a.role != Role::Member && launch.name is Some ==> spell::seen(a.self_name) == spell::seen(
            launch.name,
        ) && a.name_source == NameSource::User,
        a.role != Role::Member && launch.name is None ==> spell::seen(a.self_name) == Some(
            launch.derived_name@,
        ) && a.name_source == NameSource::Derived,
        a.role != Role::Member && launch.socket_dir is Some ==> spell::seen(a.socket_directory)
            == spell::seen(launch.socket_dir) && spell::seen(a.registry_directory) == spell::seen(
            launch.socket_dir,
        ),
        a.role != Role::Member && launch.socket_dir is None ==> spell::seen(a.socket_directory)
            == Some(launch.default_socket_dir@) && a.registry_directory is None,
{
}

/// Why nothing was resumed.
pub proof fn law_what_was_not_resumed_says_why(cause: String)
    ensures
        NotResumed::NotListed(cause).said() == "failed to list the stored sessions: "@ + cause@,
        NotResumed::NothingStored.said()
            == "there is no stored session to continue in this project"@,
        NotResumed::Refused(cause).said() == "failed to resume the session: "@ + cause@,
{
}

} // verus!
