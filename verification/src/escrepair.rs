//! Repairs escape sequences the terminal byte parser split at a read boundary.
//!
//! A byte parser commits a lone `ESC` the moment it is the last byte of a read
//! with no more input pending, so a Left arrow whose `ESC [ D` bytes straddle
//! two reads arrives as a phantom Esc plus the literal characters `[` and `D`.
//!
//! This machine sits between the terminal's event stream and whoever handles
//! the events, and undoes the split: a bare Esc is held for [`HOLDOFF`], and if
//! the characters that follow spell a CSI or SS3 continuation, the key the
//! parser would have produced unsplit is dispatched in their place. Anything
//! that is not a continuation releases the held Esc, then everything
//! accumulated, in arrival order: nothing is invented and nothing a person
//! typed is lost.
//!
//! Complete sequences that map to no key are swallowed rather than replayed as
//! text: a split mouse report (a lost click beats pasted garbage) and a split
//! bracketed-paste marker.
//!
//! Nothing here reads a clock or a terminal: the caller passes `now` in, as
//! nanoseconds since any fixed instant, and asks for the next
//! [`EscRepair::deadline`].

use vstd::prelude::*;

use crate::keys::{KeyCode, KeyEvent, KeyEventKind, KeyModifiers, TermEvent};
use crate::text::parse_unsigned;

verus! {

/// How long a bare Esc waits for its `[` or `O` continuation, in nanoseconds.
pub const HOLDOFF: u64 = 25_000_000;

/// How long a whole sequence may take from the Esc to its final byte, in
/// nanoseconds.
pub const SEQ_DEADLINE: u64 = 50_000_000;

/// The longest accumulated continuation entertained before giving up.
pub const MAX_SEQ: usize = 16;

/// Which escape-sequence family the opener announced.
#[derive(Clone, Copy, Debug, PartialEq, Eq, Structural)]
pub enum SeqKind {
    /// `ESC [`: parameters, then a final byte.
    Csi,
    /// `ESC O`: exactly one final byte.
    Ss3,
}

/// What is currently held back from dispatch, as the contracts speak of it.
pub enum Hold {
    /// Nothing held; everything flows through.
    Idle,
    /// A bare Esc, waiting for a `[` or `O`.
    Esc { esc: KeyEvent, since: nat },
    /// The opener arrived. `keys` holds every key since the Esc, the opener
    /// first.
    Sequence { esc: KeyEvent, since: nat, kind: SeqKind, keys: Seq<KeyEvent> },
}

/// What an event does to what is held.
pub enum Step {
    /// It joins what is held.
    Joins(Hold),
    /// It completes a sequence, which stands for this event or for none.
    Completes(Option<TermEvent>),
    /// It would grow the sequence past [`MAX_SEQ`].
    Overflows,
    /// It is no part of a sequence.
    Breaks,
}

/// A bare Esc press, the only thing ever held first.
pub open spec fn is_bare_esc(event: TermEvent) -> bool {
    event matches TermEvent::Key(key) && key.code == KeyCode::Esc && key.modifiers
        == KeyModifiers::of(false, false, false) && key.kind == KeyEventKind::Press
}

/// The character of a key that could be part of a split sequence.
///
/// Uppercase characters arrive with shift, so shift alone is let through; any
/// other modifier means a person's chord.
pub open spec fn fragment(key: KeyEvent) -> Option<char> {
    let m = key.modifiers;
    match key.code {
        KeyCode::Char(c) if key.kind == KeyEventKind::Press && m == KeyModifiers::of(
            m.shift,
            false,
            false,
        ) => Some(c),
        _ => None,
    }
}

/// [`fragment`] of an event.
pub open spec fn continues(event: TermEvent) -> Option<char> {
    match event {
        TermEvent::Key(key) => fragment(key),
        _ => None,
    }
}

/// CSI parameter or intermediate byte.
pub open spec fn csi_param(c: char) -> bool {
    0x20 <= c as u32 <= 0x3f
}

/// CSI final byte.
pub open spec fn csi_final(c: char) -> bool {
    0x40 <= c as u32 <= 0x7e
}

/// The characters of a run of keys, those that carry one.
pub open spec fn key_chars(keys: Seq<KeyEvent>) -> Seq<char>
    decreases keys.len(),
{
    if keys.len() == 0 {
        Seq::empty()
    } else {
        match keys.last().code {
            KeyCode::Char(c) => key_chars(keys.drop_last()).push(c),
            _ => key_chars(keys.drop_last()),
        }
    }
}

/// The keys `CSI` and `SS3` finals spell the same way.
pub open spec fn cursor(c: char) -> Option<KeyCode> {
    if c == 'A' {
        Some(KeyCode::Up)
    } else if c == 'B' {
        Some(KeyCode::Down)
    } else if c == 'C' {
        Some(KeyCode::Right)
    } else if c == 'D' {
        Some(KeyCode::Left)
    } else if c == 'H' {
        Some(KeyCode::Home)
    } else if c == 'F' {
        Some(KeyCode::End)
    } else {
        None
    }
}

/// The key a numbered `CSI n ~` sequence stands for.
pub open spec fn numbered(n: nat) -> Option<KeyCode> {
    if n == 1 || n == 7 {
        Some(KeyCode::Home)
    } else if n == 4 || n == 8 {
        Some(KeyCode::End)
    } else if n == 2 {
        Some(KeyCode::Insert)
    } else if n == 3 {
        Some(KeyCode::Delete)
    } else if n == 5 {
        Some(KeyCode::PageUp)
    } else if n == 6 {
        Some(KeyCode::PageDown)
    } else {
        None
    }
}

/// The function keys `SS3` spells.
pub open spec fn function_key(c: char) -> Option<KeyCode> {
    if c == 'P' {
        Some(KeyCode::F(1))
    } else if c == 'Q' {
        Some(KeyCode::F(2))
    } else if c == 'R' {
        Some(KeyCode::F(3))
    } else if c == 'S' {
        Some(KeyCode::F(4))
    } else {
        None
    }
}

/// The modifiers of xterm's modifier parameter: the value minus one is a
/// bitmask of shift (1), alt (2) and control (4).
pub open spec fn modifiers_of(raw: Seq<char>) -> Option<KeyModifiers> {
    match crate::text::parsed(raw, 255) {
        Some(value) if value >= 1 => {
            let mask = (value - 1) as nat;
            Some(KeyModifiers::of(mask % 2 == 1, mask / 4 % 2 == 1, mask / 2 % 2 == 1))
        },
        _ => None,
    }
}

/// The modifiers named by the second parameter, none where there is none.
pub open spec fn second_modifiers(params: Seq<char>) -> Option<KeyModifiers> {
    let fields = crate::text::split(params, ';');
    if fields.len() > 1 {
        modifiers_of(fields[1])
    } else {
        Some(KeyModifiers::of(false, false, false))
    }
}

/// The event that `ESC [ params last` stands for, if it is one worth
/// reconstructing.
pub open spec fn csi_event(params: Seq<char>, last: char) -> Option<TermEvent> {
    if cursor(last) is Some {
        match second_modifiers(params) {
            Some(m) => Some(TermEvent::Key(KeyEvent::press(cursor(last)->0, m))),
            None => None,
        }
    } else if last == 'Z' && params.len() == 0 {
        Some(TermEvent::Key(KeyEvent::press(KeyCode::BackTab, KeyModifiers::of(true, false, false))))
    } else if last == 'I' && params.len() == 0 {
        Some(TermEvent::FocusGained)
    } else if last == 'O' && params.len() == 0 {
        Some(TermEvent::FocusLost)
    } else if last == '~' {
        match (crate::text::parsed(crate::text::split(params, ';')[0], 65535), second_modifiers(params)) {
            (Some(n), Some(m)) => match numbered(n) {
                Some(code) => Some(TermEvent::Key(KeyEvent::press(code, m))),
                None => None,
            },
            _ => None,
        }
    } else {
        None
    }
}

/// The event that `ESC O last` stands for.
pub open spec fn ss3_event(last: char) -> Option<TermEvent> {
    let code = if cursor(last) is Some {
        cursor(last)
    } else {
        function_key(last)
    };
    match code {
        Some(code) => Some(
            TermEvent::Key(KeyEvent::press(code, KeyModifiers::of(false, false, false))),
        ),
        None => None,
    }
}

/// A key as the event it arrived in.
pub open spec fn as_event(key: KeyEvent) -> TermEvent {
    TermEvent::Key(key)
}

/// The events of a run of keys.
pub open spec fn as_events(keys: Seq<KeyEvent>) -> Seq<TermEvent> {
    Seq::new(keys.len(), |i: int| as_event(keys[i]))
}

impl Hold {
    /// Everything held, in arrival order.
    pub open spec fn events(self) -> Seq<TermEvent> {
        match self {
            Hold::Idle => Seq::empty(),
            Hold::Esc { esc, .. } => seq![as_event(esc)],
            Hold::Sequence { esc, keys, .. } => seq![as_event(esc)] + as_events(keys),
        }
    }

    /// When what is held has to be let go.
    pub open spec fn deadline(self) -> Option<nat> {
        match self {
            Hold::Idle => None,
            Hold::Esc { since, .. } => Some(since + HOLDOFF as nat),
            Hold::Sequence { since, .. } => Some(since + SEQ_DEADLINE as nat),
        }
    }

    /// Whether the deadline has passed.
    pub open spec fn expired(self, now: nat) -> bool {
        self.deadline() matches Some(deadline) && now >= deadline
    }

    /// What is held is what a split sequence can have delivered so far.
    pub open spec fn well_formed(self) -> bool {
        match self {
            Hold::Idle => true,
            Hold::Esc { esc, .. } => is_bare_esc(TermEvent::Key(esc)),
            Hold::Sequence { esc, kind, keys, .. } => {
                &&& is_bare_esc(TermEvent::Key(esc))
                &&& 1 <= keys.len() <= MAX_SEQ
                &&& fragment(keys[0]) == Some(
                    if kind == SeqKind::Csi {
                        '['
                    } else {
                        'O'
                    },
                )
                &&& kind == SeqKind::Ss3 ==> keys.len() == 1
                &&& forall|i: int|
                    1 <= i < keys.len() ==> fragment(#[trigger] keys[i]) is Some && csi_param(
                        fragment(keys[i])->0,
                    )
            },
        }
    }

    /// What `event` does to what is held.
    pub open spec fn step(self, event: TermEvent) -> Step {
        match (self, continues(event)) {
            (Hold::Esc { esc, since }, Some(c)) => if c == '[' {
                Step::Joins(
                    Hold::Sequence { esc, since, kind: SeqKind::Csi, keys: seq![event->Key_0] },
                )
            } else if c == 'O' {
                Step::Joins(
                    Hold::Sequence { esc, since, kind: SeqKind::Ss3, keys: seq![event->Key_0] },
                )
            } else {
                Step::Breaks
            },
            (Hold::Sequence { esc, since, kind, keys }, Some(c)) => if kind == SeqKind::Ss3 {
                Step::Completes(ss3_event(c))
            } else if csi_param(c) {
                if keys.len() < MAX_SEQ {
                    Step::Joins(Hold::Sequence { esc, since, kind, keys: keys.push(event->Key_0) })
                } else {
                    Step::Overflows
                }
            } else if csi_final(c) {
                Step::Completes(csi_event(key_chars(keys.skip(1)), c))
            } else {
                Step::Breaks
            },
            _ => Step::Breaks,
        }
    }

    /// What is held after `event`, nothing having expired before it.
    pub open spec fn after(self, event: TermEvent, now: nat) -> Hold {
        match self.step(event) {
            Step::Joins(hold) => hold,
            Step::Breaks if is_bare_esc(event) => Hold::Esc { esc: event->Key_0, since: now },
            _ => Hold::Idle,
        }
    }

    /// What is dispatched at `event`, nothing having expired before it.
    pub open spec fn output(self, event: TermEvent) -> Seq<TermEvent> {
        match self.step(event) {
            Step::Joins(_) => Seq::empty(),
            Step::Completes(Some(repaired)) => seq![repaired],
            Step::Completes(None) => Seq::empty(),
            Step::Overflows => self.events().push(event),
            Step::Breaks => if is_bare_esc(event) {
                self.events()
            } else {
                self.events().push(event)
            },
        }
    }

    /// What is left held at `now`: nothing once the deadline has passed.
    pub open spec fn flushed(self, now: nat) -> Hold {
        if self.expired(now) {
            Hold::Idle
        } else {
            self
        }
    }

    /// What the clock alone lets go at `now`.
    pub open spec fn overdue(self, now: nat) -> Seq<TermEvent> {
        if self.expired(now) {
            self.events()
        } else {
            Seq::empty()
        }
    }
}

/// One event and the instant it arrived at.
pub struct Timed {
    pub event: TermEvent,
    pub at: nat,
}

/// What is held after a run of events.
pub open spec fn held_after(hold: Hold, inputs: Seq<Timed>) -> Hold
    decreases inputs.len(),
{
    if inputs.len() == 0 {
        hold
    } else {
        let last = inputs.last();
        held_after(hold, inputs.drop_last()).flushed(last.at).after(last.event, last.at)
    }
}

/// What a run of events dispatches.
pub open spec fn dispatched(hold: Hold, inputs: Seq<Timed>) -> Seq<TermEvent>
    decreases inputs.len(),
{
    if inputs.len() == 0 {
        Seq::empty()
    } else {
        let last = inputs.last();
        let held = held_after(hold, inputs.drop_last());
        dispatched(hold, inputs.drop_last()) + held.overdue(last.at) + held.flushed(last.at).output(
            last.event,
        )
    }
}

/// The events of a timed run.
pub open spec fn untimed(inputs: Seq<Timed>) -> Seq<TermEvent> {
    Seq::new(inputs.len(), |i: int| inputs[i].event)
}

/// No event of the run completes a sequence.
pub open spec fn completes_none(hold: Hold, inputs: Seq<Timed>) -> bool {
    forall|i: int|
        0 <= i < inputs.len() ==> !(#[trigger] held_after(hold, inputs.take(i)).flushed(
            inputs[i].at,
        ).step(inputs[i].event) is Completes)
}

/// What is held stays the start of a sequence, of bounded length, whatever
/// arrives.
pub proof fn law_hold_stays_bounded(hold: Hold, event: TermEvent, now: nat)
    requires
        hold.well_formed(),
    ensures
        hold.flushed(now).after(event, now).well_formed(),
        hold.flushed(now).after(event, now).events().len() <= 17,
{
    let rest = hold.flushed(now);
    match rest.step(event) {
        Step::Joins(next) => {
            assert(next->Sequence_keys.len() <= MAX_SEQ);
        },
        _ => {},
    }
}

/// An event that completes no sequence loses nothing and invents nothing: what
/// goes out, followed by what is still held, is what was held followed by the
/// event.
pub proof fn law_nothing_is_lost(hold: Hold, event: TermEvent, now: nat)
    requires
        !(hold.flushed(now).step(event) is Completes),
    ensures
        hold.overdue(now) + hold.flushed(now).output(event) + hold.flushed(now).after(
            event,
            now,
        ).events() == hold.events().push(event),
{
    let rest = hold.flushed(now);
    let all = hold.overdue(now) + rest.output(event) + rest.after(event, now).events();
    match rest.step(event) {
        Step::Joins(next) => {
            match rest {
                Hold::Sequence { keys, .. } => {
                    assert(as_events(keys.push(event->Key_0)) =~= as_events(keys).push(event));
                },
                _ => {
                    assert(as_events(seq![event->Key_0]) =~= seq![event]);
                },
            }
        },
        _ => {},
    }
    assert(all =~= hold.events().push(event));
}

/// What becomes of an event, with what was held before it, what goes out and
/// what is held behind it: nothing is lost, invented or reordered; or the event
/// is the last character of a sequence that was held in time, which goes out as
/// the one event it stands for, if any, and leaves nothing held.
pub open spec fn accounts_for(
    held: Hold,
    event: TermEvent,
    now: nat,
    out: Seq<TermEvent>,
    left: Hold,
) -> bool {
    ||| out + left.events() == held.events().push(event)
    ||| {
        &&& held is Sequence
        &&& !held.expired(now)
        &&& continues(event) matches Some(last) && (held->kind == SeqKind::Ss3 || csi_final(last))
        &&& left.events() == Seq::<TermEvent>::empty()
        &&& out.len() <= 1
    }
}

/// Every event is accounted for, whatever is held and whenever it arrives; see
/// [`accounts_for`].
pub proof fn law_every_event_is_accounted_for(hold: Hold, event: TermEvent, now: nat)
    ensures
        accounts_for(
            hold,
            event,
            now,
            hold.overdue(now) + hold.flushed(now).output(event),
            hold.flushed(now).after(event, now),
        ),
{
    if !(hold.flushed(now).step(event) is Completes) {
        law_nothing_is_lost(hold, event, now);
    }
}

/// Over a whole run in which no sequence completes, what went out followed by
/// what is still held is exactly what came in.
pub proof fn law_runs_lose_nothing(hold: Hold, inputs: Seq<Timed>)
    requires
        completes_none(hold, inputs),
    ensures
        dispatched(hold, inputs) + held_after(hold, inputs).events() == hold.events() + untimed(
            inputs,
        ),
    decreases inputs.len(),
{
    if inputs.len() == 0 {
        assert(dispatched(hold, inputs) + held_after(hold, inputs).events() =~= hold.events()
            + untimed(inputs));
    } else {
        let front = inputs.drop_last();
        let last = inputs.last();
        let held = held_after(hold, front);
        assert forall|i: int| 0 <= i < front.len() implies !(#[trigger] held_after(
            hold,
            front.take(i),
        ).flushed(front[i].at).step(front[i].event) is Completes) by {
            assert(front.take(i) =~= inputs.take(i));
            assert(front[i] == inputs[i]);
        }
        assert(inputs.take(front.len() as int) =~= front);
        law_runs_lose_nothing(hold, front);
        law_nothing_is_lost(held, last.event, last.at);
        assert(untimed(inputs) =~= untimed(front).push(last.event));
        assert(dispatched(hold, inputs) + held_after(hold, inputs).events() =~= dispatched(
            hold,
            front,
        ) + (held.overdue(last.at) + held.flushed(last.at).output(last.event) + held_after(
            hold,
            inputs,
        ).events()));
        assert(dispatched(hold, front) + held.events().push(last.event) =~= (dispatched(
            hold,
            front,
        ) + held.events()).push(last.event));
        assert((hold.events() + untimed(front)).push(last.event) =~= hold.events() + untimed(
            inputs,
        ));
    }
}

/// A run of keys, each with the instant it arrived at.
pub open spec fn timed_keys(keys: Seq<KeyEvent>, times: Seq<nat>) -> Seq<Timed>
    recommends
        keys.len() == times.len(),
{
    Seq::new(keys.len(), |i: int| Timed { event: as_event(keys[i]), at: times[i] })
}

/// An Esc, the opener of a control sequence and any number of parameters are
/// held back whole, as long as they arrive in time.
proof fn lemma_parameters_are_held(keys: Seq<KeyEvent>, times: Seq<nat>)
    requires
        keys.len() == times.len(),
        2 <= keys.len() <= MAX_SEQ + 1,
        is_bare_esc(as_event(keys[0])),
        fragment(keys[1]) == Some('['),
        forall|i: int|
            2 <= i < keys.len() ==> fragment(#[trigger] keys[i]) is Some && csi_param(
                fragment(keys[i])->0,
            ),
        times[1] < times[0] + HOLDOFF,
        forall|i: int| 2 <= i < keys.len() ==> #[trigger] times[i] < times[0] + SEQ_DEADLINE,
    ensures
        held_after(Hold::Idle, timed_keys(keys, times)) == (Hold::Sequence {
            esc: keys[0],
            since: times[0],
            kind: SeqKind::Csi,
            keys: keys.skip(1),
        }),
        dispatched(Hold::Idle, timed_keys(keys, times)) == Seq::<TermEvent>::empty(),
    decreases keys.len(),
{
    let inputs = timed_keys(keys, times);
    let front = timed_keys(keys.drop_last(), times.drop_last());
    assert(inputs.drop_last() =~= front);
    if keys.len() == 2 {
        let first = front.drop_last();
        assert(first =~= Seq::<Timed>::empty());
        assert(held_after(Hold::Idle, first) == Hold::Idle);
        assert(dispatched(Hold::Idle, first) =~= Seq::<TermEvent>::empty());
        assert(front.last() == Timed { event: as_event(keys[0]), at: times[0] });
        assert(held_after(Hold::Idle, front) == (Hold::Esc { esc: keys[0], since: times[0] }));
        assert(dispatched(Hold::Idle, front) =~= Seq::<TermEvent>::empty());
        assert(keys.skip(1) =~= seq![keys[1]]);
    } else {
        lemma_parameters_are_held(keys.drop_last(), times.drop_last());
        assert(keys.drop_last().skip(1).push(keys.last()) =~= keys.skip(1));
        assert(times.last() == times[keys.len() - 1]);
        assert(keys.last() == keys[keys.len() - 1]);
    }
    assert(dispatched(Hold::Idle, inputs) =~= Seq::<TermEvent>::empty());
}

/// A control sequence that was split behind its Esc is put together again: the
/// keys of `ESC [`, its parameters and its final byte dispatch the one event
/// that the sequence stands for, or none where it stands for none, and leave
/// nothing held.
pub proof fn law_split_control_sequence_is_repaired(keys: Seq<KeyEvent>, times: Seq<nat>)
    requires
        keys.len() == times.len(),
        3 <= keys.len() <= MAX_SEQ + 2,
        is_bare_esc(as_event(keys[0])),
        fragment(keys[1]) == Some('['),
        forall|i: int|
            2 <= i < keys.len() - 1 ==> fragment(#[trigger] keys[i]) is Some && csi_param(
                fragment(keys[i])->0,
            ),
        fragment(keys.last()) is Some,
        csi_final(fragment(keys.last())->0),
        times[1] < times[0] + HOLDOFF,
        forall|i: int| 2 <= i < keys.len() ==> #[trigger] times[i] < times[0] + SEQ_DEADLINE,
    ensures
        ({
            let params = key_chars(keys.subrange(2, keys.len() - 1));
            let last = fragment(keys.last())->0;
            dispatched(Hold::Idle, timed_keys(keys, times)) == match csi_event(params, last) {
                Some(event) => seq![event],
                None => Seq::<TermEvent>::empty(),
            }
        }),
        held_after(Hold::Idle, timed_keys(keys, times)) == Hold::Idle,
{
    let inputs = timed_keys(keys, times);
    let front = keys.drop_last();
    lemma_parameters_are_held(front, times.drop_last());
    assert(inputs.drop_last() =~= timed_keys(front, times.drop_last()));
    assert(front.skip(1).skip(1) =~= keys.subrange(2, keys.len() - 1));
    assert(times.last() == times[keys.len() - 1]);
    let params = key_chars(keys.subrange(2, keys.len() - 1));
    let event = csi_event(params, fragment(keys.last())->0);
    assert(dispatched(Hold::Idle, inputs) =~= match event {
        Some(event) => seq![event],
        None => Seq::<TermEvent>::empty(),
    });
}

/// A split `ESC O` sequence is put together again in the same way.
pub proof fn law_split_shift_sequence_is_repaired(keys: Seq<KeyEvent>, times: Seq<nat>)
    requires
        keys.len() == 3,
        times.len() == 3,
        is_bare_esc(as_event(keys[0])),
        fragment(keys[1]) == Some('O'),
        fragment(keys[2]) is Some,
        times[1] < times[0] + HOLDOFF,
        times[2] < times[0] + SEQ_DEADLINE,
    ensures
        dispatched(Hold::Idle, timed_keys(keys, times)) == match ss3_event(fragment(keys[2])->0) {
            Some(event) => seq![event],
            None => Seq::<TermEvent>::empty(),
        },
        held_after(Hold::Idle, timed_keys(keys, times)) == Hold::Idle,
{
    let inputs = timed_keys(keys, times);
    let two = inputs.drop_last();
    let one = two.drop_last();
    let zero = one.drop_last();
    assert(zero =~= Seq::<Timed>::empty());
    assert(held_after(Hold::Idle, zero) == Hold::Idle);
    assert(dispatched(Hold::Idle, zero) =~= Seq::<TermEvent>::empty());
    assert(held_after(Hold::Idle, one) == (Hold::Esc { esc: keys[0], since: times[0] }));
    assert(dispatched(Hold::Idle, one) =~= Seq::<TermEvent>::empty());
    assert(held_after(Hold::Idle, two) == (Hold::Sequence {
        esc: keys[0],
        since: times[0],
        kind: SeqKind::Ss3,
        keys: seq![keys[1]],
    }));
    assert(dispatched(Hold::Idle, two) =~= Seq::<TermEvent>::empty());
    assert(dispatched(Hold::Idle, inputs) =~= match ss3_event(fragment(keys[2])->0) {
        Some(event) => seq![event],
        None => Seq::<TermEvent>::empty(),
    });
}

/// A press of a character, with shift or without and with no other modifier.
pub open spec fn types(key: KeyEvent, c: char) -> bool {
    &&& key.code == KeyCode::Char(c)
    &&& key.kind == KeyEventKind::Press
    &&& !key.modifiers.control && !key.modifiers.alt && !key.modifiers.super_key
    &&& !key.modifiers.hyper && !key.modifiers.meta
}

/// A press of Esc alone.
pub open spec fn escapes(key: KeyEvent) -> bool {
    &&& key.code == KeyCode::Esc
    &&& key.kind == KeyEventKind::Press
    &&& !key.modifiers.shift && !key.modifiers.control && !key.modifiers.alt
    &&& !key.modifiers.super_key && !key.modifiers.hyper && !key.modifiers.meta
}

/// The press of a key under these modifiers.
pub open spec fn chord(code: KeyCode, shift: bool, control: bool, alt: bool) -> TermEvent {
    TermEvent::Key(
        KeyEvent {
            code,
            modifiers: KeyModifiers {
                shift,
                control,
                alt,
                super_key: false,
                hyper: false,
                meta: false,
            },
            kind: KeyEventKind::Press,
            state: 0,
        },
    )
}

proof fn lemma_typed_chars(keys: Seq<KeyEvent>, chars: Seq<char>)
    requires
        keys.len() == chars.len(),
        forall|i: int| 0 <= i < keys.len() ==> types(#[trigger] keys[i], chars[i]),
    ensures
        key_chars(keys) == chars,
    decreases keys.len(),
{
    if keys.len() > 0 {
        lemma_typed_chars(keys.drop_last(), chars.drop_last());
        assert(types(keys[keys.len() - 1], chars[keys.len() - 1]));
        assert(chars.drop_last().push(chars.last()) =~= chars);
    } else {
        assert(key_chars(keys) =~= chars);
    }
}

/// A sequence that was typed out, an Esc and `[` within twenty-five milliseconds
/// of each other, its parameters and its last character within fifty: the one
/// event that the characters stand for goes out, and nothing of what was typed.
pub proof fn law_a_typed_out_sequence_is_one_event(
    keys: Seq<KeyEvent>,
    times: Seq<nat>,
    params: Seq<char>,
    last: char,
)
    requires
        params.len() <= 15,
        keys.len() == params.len() + 3,
        times.len() == keys.len(),
        escapes(keys[0]),
        types(keys[1], '['),
        forall|i: int| 0 <= i < params.len() ==> types(#[trigger] keys[i + 2], params[i]),
        forall|i: int| 0 <= i < params.len() ==> ' ' <= #[trigger] params[i] <= '?',
        types(keys.last(), last),
        '@' <= last <= '~',
        times[1] < times[0] + 25_000_000,
        forall|i: int| 2 <= i < keys.len() ==> #[trigger] times[i] < times[0] + 50_000_000,
    ensures
        dispatched(Hold::Idle, timed_keys(keys, times)) == match csi_event(params, last) {
            Some(event) => seq![event],
            None => Seq::<TermEvent>::empty(),
        },
        held_after(Hold::Idle, timed_keys(keys, times)) == Hold::Idle,
{
    let middle = keys.subrange(2, keys.len() - 1);
    assert forall|i: int| 0 <= i < middle.len() implies types(#[trigger] middle[i], params[i]) by {
        assert(middle[i] == keys[i + 2]);
    }
    lemma_typed_chars(middle, params);
    assert forall|i: int| 2 <= i < keys.len() - 1 implies fragment(#[trigger] keys[i]) is Some
        && csi_param(fragment(keys[i])->0) by {
        assert(types(keys[i - 2 + 2], params[i - 2]));
        assert(params[i - 2] <= '?');
    }
    law_split_control_sequence_is_repaired(keys, times);
}

/// What a control sequence without parameters stands for, by its last character:
/// the arrows, Home and End, shift with Tab, and the focus coming and going;
/// nothing for any other.
pub proof fn law_bare_sequences_stand_for_these(last: char)
    ensures
        csi_event(Seq::empty(), last) == (if last == 'A' {
            Some(chord(KeyCode::Up, false, false, false))
        } else if last == 'B' {
            Some(chord(KeyCode::Down, false, false, false))
        } else if last == 'C' {
            Some(chord(KeyCode::Right, false, false, false))
        } else if last == 'D' {
            Some(chord(KeyCode::Left, false, false, false))
        } else if last == 'H' {
            Some(chord(KeyCode::Home, false, false, false))
        } else if last == 'F' {
            Some(chord(KeyCode::End, false, false, false))
        } else if last == 'Z' {
            Some(chord(KeyCode::BackTab, true, false, false))
        } else if last == 'I' {
            Some(TermEvent::FocusGained)
        } else if last == 'O' {
            Some(TermEvent::FocusLost)
        } else {
            None
        }),
{
    let none = Seq::<char>::empty();
    assert(crate::text::split(none, ';') =~= seq![none]);
    assert(!crate::text::all_digits(none));
}

proof fn lemma_one_digit(d: char)
    requires
        '0' <= d <= '9',
    ensures
        crate::text::parsed(seq![d], 255) == Some((d as nat - '0' as nat) as nat),
        crate::text::parsed(seq![d], 65535) == Some((d as nat - '0' as nat) as nat),
{
    let s = seq![d];
    reveal_with_fuel(crate::text::digits_value, 3);
    assert(s.drop_last() =~= Seq::<char>::empty());
    assert(crate::text::digit(d));
}

proof fn lemma_two_fields(a: char, b: char)
    requires
        a != ';',
        b != ';',
    ensures
        crate::text::split(seq![a], ';') == seq![seq![a]],
        crate::text::split(seq![a, ';', b], ';') == seq![seq![a], seq![b]],
{
    let one = seq![b];
    let all = seq![a, ';', b];
    reveal_with_fuel(crate::text::first_of, 3);
    reveal_with_fuel(crate::text::split, 3);
    assert(seq![a].skip(1) =~= Seq::<char>::empty());
    assert(crate::text::first_of(seq![a], ';') == 1);
    assert(one.skip(1) =~= Seq::<char>::empty());
    assert(crate::text::first_of(one, ';') == 1);
    assert(crate::text::split(one, ';') =~= seq![one]);
    assert(all.skip(1) =~= seq![';', b]);
    assert(crate::text::first_of(all, ';') == 1);
    assert(all.take(1) =~= seq![a]);
    assert(all.skip(2) =~= one);
    assert(crate::text::split(all, ';') =~= seq![seq![a], one]);
}

/// What a numbered sequence stands for, and what its modifier parameter adds:
/// Home, Insert, Delete, End, Page Up and Page Down by their numbers; shift,
/// alt and control as the bits of one less than the parameter. The arrows, Home
/// and End take the same parameter.
pub proof fn law_numbered_sequences_stand_for_these(d: char, m: char)
    requires
        '0' <= d <= '9',
        '1' <= m <= '8',
    ensures
        ({
            let shift = m == '2' || m == '4' || m == '6' || m == '8';
            let alt = m == '3' || m == '4' || m == '7' || m == '8';
            let control = m == '5' || m == '6' || m == '7' || m == '8';
            let code = if d == '1' || d == '7' {
                Some(KeyCode::Home)
            } else if d == '2' {
                Some(KeyCode::Insert)
            } else if d == '3' {
                Some(KeyCode::Delete)
            } else if d == '4' || d == '8' {
                Some(KeyCode::End)
            } else if d == '5' {
                Some(KeyCode::PageUp)
            } else if d == '6' {
                Some(KeyCode::PageDown)
            } else {
                None
            };
            let with = seq![d, ';', m];
            &&& csi_event(seq![d], '~') == match code {
                Some(code) => Some(chord(code, false, false, false)),
                None => None,
            }
            &&& csi_event(with, '~') == match code {
                Some(code) => Some(chord(code, shift, control, alt)),
                None => None,
            }
            &&& csi_event(with, 'A') == Some(chord(KeyCode::Up, shift, control, alt))
            &&& csi_event(with, 'B') == Some(chord(KeyCode::Down, shift, control, alt))
            &&& csi_event(with, 'C') == Some(chord(KeyCode::Right, shift, control, alt))
            &&& csi_event(with, 'D') == Some(chord(KeyCode::Left, shift, control, alt))
            &&& csi_event(with, 'H') == Some(chord(KeyCode::Home, shift, control, alt))
            &&& csi_event(with, 'F') == Some(chord(KeyCode::End, shift, control, alt))
        }),
{
    lemma_one_digit(d);
    lemma_one_digit(m);
    lemma_two_fields(d, m);
    let v = (m as nat - '0' as nat) as nat;
    assert(v == 1 || v == 2 || v == 3 || v == 4 || v == 5 || v == 6 || v == 7 || v == 8);
}

/// Sequences that stand for no key are swallowed: a mouse report, and whatever
/// does not end in a character of the tables above.
pub proof fn law_other_sequences_stand_for_nothing(params: Seq<char>, last: char)
    requires
        last != 'A' && last != 'B' && last != 'C' && last != 'D' && last != 'H' && last != 'F',
        last != '~',
        params.len() > 0 || (last != 'Z' && last != 'I' && last != 'O'),
    ensures
        csi_event(params, last) is None,
{
}

/// A split `ESC O` sequence comes back as the key it spells: the arrows, Home
/// and End, and the first four function keys; any other goes nowhere.
pub proof fn law_shift_sequences_stand_for_these(
    keys: Seq<KeyEvent>,
    times: Seq<nat>,
    last: char,
)
    requires
        keys.len() == 3,
        times.len() == 3,
        escapes(keys[0]),
        types(keys[1], 'O'),
        types(keys[2], last),
        times[1] < times[0] + 25_000_000,
        times[2] < times[0] + 50_000_000,
    ensures
        ({
            let code = if last == 'A' {
                Some(KeyCode::Up)
            } else if last == 'B' {
                Some(KeyCode::Down)
            } else if last == 'C' {
                Some(KeyCode::Right)
            } else if last == 'D' {
                Some(KeyCode::Left)
            } else if last == 'H' {
                Some(KeyCode::Home)
            } else if last == 'F' {
                Some(KeyCode::End)
            } else if last == 'P' {
                Some(KeyCode::F(1))
            } else if last == 'Q' {
                Some(KeyCode::F(2))
            } else if last == 'R' {
                Some(KeyCode::F(3))
            } else if last == 'S' {
                Some(KeyCode::F(4))
            } else {
                None
            };
            dispatched(Hold::Idle, timed_keys(keys, times)) == match code {
                Some(code) => seq![chord(code, false, false, false)],
                None => Seq::<TermEvent>::empty(),
            }
        }),
        held_after(Hold::Idle, timed_keys(keys, times)) == Hold::Idle,
{
    law_split_shift_sequence_is_repaired(keys, times);
}

/// An Esc pressed alone waits twenty-five milliseconds, and then goes out as it
/// came; whatever else is pressed meets nothing held and goes out at once.
pub proof fn law_an_esc_waits_and_nothing_else_does(event: TermEvent, at: nat, now: nat)
    ensures
        (event matches TermEvent::Key(key) && escapes(key)) ==> {
            let held = Hold::Idle.after(event, at);
            &&& Hold::Idle.output(event) == Seq::<TermEvent>::empty()
            &&& held.deadline() == Some(at + 25_000_000)
            &&& now >= at + 25_000_000 ==> held.overdue(now) == seq![event]
            &&& now < at + 25_000_000 ==> held.flushed(now) == held
        },
        !(event matches TermEvent::Key(key) && escapes(key)) ==> Hold::Idle.output(event)
            == seq![event] && Hold::Idle.after(event, at) == Hold::Idle,
{
    assert(Hold::Idle.events().push(event) =~= seq![event]);
}

/// Past its deadline everything held goes out, in arrival order, and nothing
/// stays; before it, nothing moves.
pub proof fn law_deadline_releases_everything(hold: Hold, now: nat)
    ensures
        hold.deadline() matches Some(deadline) ==> {
            &&& now >= deadline ==> hold.overdue(now) == hold.events() && hold.flushed(now)
                == Hold::Idle
            &&& now < deadline ==> hold.overdue(now) == Seq::<TermEvent>::empty()
                && hold.flushed(now) == hold
        },
        hold.deadline() is None <==> hold.events() == Seq::<TermEvent>::empty(),
{
    if hold !is Idle {
        assert(hold.events().len() > 0);
    }
}

/// What is currently held back from dispatch.
#[derive(Debug)]
enum State {
    Idle,
    Held { esc: KeyEvent, since: u64 },
    Sequence { esc: KeyEvent, since: u64, kind: SeqKind, keys: Vec<KeyEvent> },
}

impl State {
    spec fn hold(self) -> Hold {
        match self {
            State::Idle => Hold::Idle,
            State::Held { esc, since } => Hold::Esc { esc, since: since as nat },
            State::Sequence { esc, since, kind, keys } => Hold::Sequence {
                esc,
                since: since as nat,
                kind,
                keys: keys@,
            },
        }
    }
}

/// The hold-off state machine; see the module doc.
#[derive(Debug)]
pub struct EscRepair {
    /// `true` leaves every event untouched: the extended keyboard protocol has
    /// already made Esc unambiguous, and holding it would be pure latency.
    passthrough: bool,
    state: State,
}

impl EscRepair {
    /// Whether the machine leaves every event untouched.
    pub closed spec fn is_passthrough(&self) -> bool {
        self.passthrough
    }

    /// What the machine holds back.
    pub closed spec fn hold(&self) -> Hold {
        self.state.hold()
    }

    /// A passthrough machine holds nothing, and what an active one holds is
    /// the start of a sequence.
    pub closed spec fn well_formed(&self) -> bool {
        &&& self.passthrough ==> self.state is Idle
        &&& self.state.hold().well_formed()
    }

    /// A machine that repairs splits: bare Escs are held per [`HOLDOFF`].
    pub fn active() -> (machine: Self)
        ensures
            machine.well_formed(),
            !machine.is_passthrough(),
            machine.hold() == Hold::Idle,
    {
        EscRepair { passthrough: false, state: State::Idle }
    }

    /// A machine that holds nothing, for terminals whose keyboard protocol
    /// leaves no ambiguity to repair.
    pub fn passthrough() -> (machine: Self)
        ensures
            machine.well_formed(),
            machine.is_passthrough(),
            machine.hold() == Hold::Idle,
    {
        EscRepair { passthrough: true, state: State::Idle }
    }

    /// Feeds one terminal event through; returns the events to dispatch now,
    /// in order. Usually one; zero while holding; more on a release.
    pub fn accept(&mut self, event: TermEvent, now: u64) -> (out: Vec<TermEvent>)
        requires
            old(self).well_formed(),
        ensures
            final(self).well_formed(),
            final(self).is_passthrough() == old(self).is_passthrough(),
            old(self).is_passthrough() ==> out@ == seq![event] && final(self).hold() == Hold::Idle,
            !old(self).is_passthrough() ==> {
                let rest = old(self).hold().flushed(now as nat);
                &&& out@ == old(self).hold().overdue(now as nat) + rest.output(event)
                &&& final(self).hold() == rest.after(event, now as nat)
            },
            accounts_for(
                old(self).hold(),
                event,
                now as nat,
                out@,
                final(self).hold(),
            ),
    {
        let mut out: Vec<TermEvent> = Vec::new();
        if self.passthrough {
            out.push(event);
            assert(out@ + Hold::Idle.events() =~= Hold::Idle.events().push(event));
            return out;
        }
        // What is held past its deadline was never a continuation: release it
        // first, so a late `[` is text and not a sequence opener.
        self.flush_expired(now, &mut out);
        self.feed(event, now, &mut out);
        proof {
            law_every_event_is_accounted_for(old(self).hold(), event, now as nat);
        }
        out
    }

    /// When the caller must call [`EscRepair::expire`] if no event arrives
    /// first. [`None`] while nothing is held. The clock has to be able to
    /// express it.
    pub fn deadline(&self) -> (r: Option<u64>)
        requires
            self.well_formed(),
            self.hold().deadline() matches Some(deadline) ==> deadline <= u64::MAX,
        ensures
            r is Some <==> self.hold() !is Idle,
            r matches Some(deadline) ==> self.hold().deadline() == Some(deadline as nat),
    {
        match &self.state {
            State::Idle => None,
            State::Held { since, .. } => Some(*since + HOLDOFF),
            State::Sequence { since, .. } => Some(*since + SEQ_DEADLINE),
        }
    }

    /// The deadline passed with nothing further: releases what is held.
    pub fn expire(&mut self, now: u64) -> (out: Vec<TermEvent>)
        requires
            old(self).well_formed(),
        ensures
            final(self).well_formed(),
            final(self).is_passthrough() == old(self).is_passthrough(),
            out@ == old(self).hold().overdue(now as nat),
            final(self).hold() == old(self).hold().flushed(now as nat),
    {
        let mut out: Vec<TermEvent> = Vec::new();
        self.flush_expired(now, &mut out);
        out
    }

    fn flush_expired(&mut self, now: u64, out: &mut Vec<TermEvent>)
        requires
            old(self).well_formed(),
        ensures
            final(self).well_formed(),
            final(self).passthrough == old(self).passthrough,
            final(out)@ == old(out)@ + old(self).hold().overdue(now as nat),
            final(self).hold() == old(self).hold().flushed(now as nat),
    {
        let due = match &self.state {
            State::Idle => false,
            State::Held { since, .. } => now >= *since && now - *since >= HOLDOFF,
            State::Sequence { since, .. } => now >= *since && now - *since >= SEQ_DEADLINE,
        };
        if due {
            let mut state = State::Idle;
            std::mem::swap(&mut state, &mut self.state);
            match state {
                State::Idle => {},
                State::Held { esc, .. } => {
                    out.push(TermEvent::Key(esc));
                },
                State::Sequence { esc, keys, .. } => {
                    release(esc, &keys, out);
                },
            }
        }
        assert(out@ =~= old(out)@ + old(self).hold().overdue(now as nat));
    }

    fn feed(&mut self, event: TermEvent, now: u64, out: &mut Vec<TermEvent>)
        requires
            old(self).well_formed(),
            !old(self).passthrough,
        ensures
            final(self).well_formed(),
            !final(self).passthrough,
            final(out)@ == old(out)@ + old(self).hold().output(event),
            final(self).hold() == old(self).hold().after(event, now as nat),
    {
        let ghost before = old(self).hold();
        let mut state = State::Idle;
        std::mem::swap(&mut state, &mut self.state);
        match state {
            State::Idle => {
                self.start(event, now, out);
            },
            State::Held { esc, since } => match continuation(&event) {
                Some(('[', key)) => {
                    let mut keys: Vec<KeyEvent> = Vec::new();
                    keys.push(key);
                    self.state = State::Sequence { esc, since, kind: SeqKind::Csi, keys };
                    assert(self.hold()->Sequence_keys =~= seq![key]);
                },
                Some(('O', key)) => {
                    let mut keys: Vec<KeyEvent> = Vec::new();
                    keys.push(key);
                    self.state = State::Sequence { esc, since, kind: SeqKind::Ss3, keys };
                    assert(self.hold()->Sequence_keys =~= seq![key]);
                },
                // Not an opener: the Esc was real. Release it, then let the
                // new event start over; it may itself be an Esc to hold.
                _ => {
                    out.push(TermEvent::Key(esc));
                    self.start(event, now, out);
                },
            },
            State::Sequence { esc, since, kind, mut keys } => match (kind, continuation(&event)) {
                (SeqKind::Csi, Some((c, key))) if is_csi_param(c) => {
                    let ghost held = keys@;
                    keys.push(key);
                    if keys.len() > MAX_SEQ {
                        release(esc, &keys, out);
                        assert(as_events(keys@) =~= as_events(held).push(event));
                    } else {
                        self.state = State::Sequence { esc, since, kind, keys };
                    }
                },
                (SeqKind::Csi, Some((c, _))) if is_csi_final(c) => {
                    let params = params_of(&keys);
                    match csi_key(&params, c) {
                        Some(repaired) => {
                            out.push(repaired);
                        },
                        None => {},
                    }
                },
                (SeqKind::Ss3, Some((c, _))) => match ss3_key(c) {
                    Some(repaired) => {
                        out.push(repaired);
                    },
                    None => {},
                },
                // A character outside the grammar, or not a character at all:
                // release everything in arrival order, then start over.
                _ => {
                    release(esc, &keys, out);
                    self.start(event, now, out);
                },
            },
        }
        assert(out@ =~= old(out)@ + before.output(event));
    }

    /// An event that meets nothing held: a bare Esc is held, anything else
    /// flows through.
    fn start(&mut self, event: TermEvent, now: u64, out: &mut Vec<TermEvent>)
        requires
            old(self).state is Idle,
        ensures
            final(self).passthrough == old(self).passthrough,
            final(out)@ == old(out)@ + Hold::Idle.output(event),
            final(self).hold() == Hold::Idle.after(event, now as nat),
    {
        match bare_esc(&event) {
            Some(esc) => {
                self.state = State::Held { esc, since: now };
            },
            None => {
                out.push(event);
            },
        }
        assert(out@ =~= old(out)@ + Hold::Idle.output(event));
    }
}

/// Releases a held Esc and its accumulated continuation, in arrival order.
fn release(esc: KeyEvent, keys: &Vec<KeyEvent>, out: &mut Vec<TermEvent>)
    ensures
        final(out)@ == old(out)@ + (seq![as_event(esc)] + as_events(keys@)),
{
    out.push(TermEvent::Key(esc));
    let mut i: usize = 0;
    while i < keys.len()
        invariant
            i <= keys.len(),
            out@ == old(out)@ + (seq![as_event(esc)] + as_events(keys@.take(i as int))),
        decreases keys.len() - i,
    {
        let ghost sent = out@;
        out.push(TermEvent::Key(keys[i]));
        assert(as_events(keys@.take(i + 1)) =~= as_events(keys@.take(i as int)).push(
            as_event(keys@[i as int]),
        ));
        assert(out@ =~= old(out)@ + (seq![as_event(esc)] + as_events(keys@.take(i + 1))));
        i += 1;
    }
    assert(keys@.take(keys@.len() as int) =~= keys@);
}

/// A bare Esc press, the only thing ever held.
fn bare_esc(event: &TermEvent) -> (r: Option<KeyEvent>)
    ensures
        r is Some <==> is_bare_esc(*event),
        r matches Some(key) ==> *event == TermEvent::Key(key),
{
    match event {
        TermEvent::Key(key) => if key.code == KeyCode::Esc && key.modifiers == KeyModifiers::none()
            && key.kind == KeyEventKind::Press {
            Some(*key)
        } else {
            None
        },
        _ => None,
    }
}

/// A character that could be part of a split sequence, and its key.
fn continuation(event: &TermEvent) -> (r: Option<(char, KeyEvent)>)
    ensures
        r is Some <==> continues(*event) is Some,
        r matches Some((c, key)) ==> continues(*event) == Some(c) && *event == TermEvent::Key(key),
{
    match event {
        TermEvent::Key(key) => match key.code {
            KeyCode::Char(c) => if key.kind == KeyEventKind::Press && key.modifiers
                == KeyModifiers::new(key.modifiers.shift, false, false) {
                Some((c, *key))
            } else {
                None
            },
            _ => None,
        },
        _ => None,
    }
}

/// The parameter characters of a CSI sequence: those of every key behind the
/// opener.
fn params_of(keys: &Vec<KeyEvent>) -> (params: Vec<char>)
    requires
        keys.len() > 0,
    ensures
        params@ == key_chars(keys@.skip(1)),
{
    let mut params: Vec<char> = Vec::new();
    let ghost rest = keys@.skip(1);
    let mut i: usize = 1;
    assert(rest.take(0) =~= Seq::empty());
    while i < keys.len()
        invariant
            1 <= i <= keys.len(),
            rest == keys@.skip(1),
            params@ == key_chars(rest.take(i - 1)),
        decreases keys.len() - i,
    {
        assert(rest.take(i as int).drop_last() =~= rest.take(i - 1));
        match keys[i].code {
            KeyCode::Char(c) => {
                params.push(c);
            },
            _ => {},
        }
        i += 1;
    }
    assert(rest.take(keys.len() - 1) =~= rest);
    params
}

/// CSI parameter (`0x30..=0x3F`) or intermediate (`0x20..=0x2F`) byte.
fn is_csi_param(c: char) -> (r: bool)
    ensures
        r == csi_param(c),
{
    '\x20' <= c && c <= '\x3F'
}

/// CSI final byte (`0x40..=0x7E`).
fn is_csi_final(c: char) -> (r: bool)
    ensures
        r == csi_final(c),
{
    '\x40' <= c && c <= '\x7E'
}

/// The event the byte parser would have produced for `ESC [ params last`, or
/// [`None`] for a sequence not worth reconstructing.
fn csi_key(params: &[char], last: char) -> (r: Option<TermEvent>)
    ensures
        r == csi_event(params@, last),
{
    if let Some(code) = cursor_key(last) {
        return match second_field_modifiers(params) {
            Some(modifiers) => Some(TermEvent::Key(KeyEvent::new(code, modifiers))),
            None => None,
        };
    }
    if last == 'Z' && params.len() == 0 {
        return Some(
            TermEvent::Key(KeyEvent::new(KeyCode::BackTab, KeyModifiers::new(true, false, false))),
        );
    }
    if last == 'I' && params.len() == 0 {
        return Some(TermEvent::FocusGained);
    }
    if last == 'O' && params.len() == 0 {
        return Some(TermEvent::FocusLost);
    }
    if last == '~' {
        let fields = crate::text::split_chars(params, ';');
        let number = match parse_unsigned(&fields[0], 65535) {
            Some(number) => number,
            None => {
                return None;
            },
        };
        let modifiers = match second_field_modifiers(params) {
            Some(modifiers) => modifiers,
            None => {
                return None;
            },
        };
        let code = match number {
            1 | 7 => KeyCode::Home,
            4 | 8 => KeyCode::End,
            2 => KeyCode::Insert,
            3 => KeyCode::Delete,
            5 => KeyCode::PageUp,
            6 => KeyCode::PageDown,
            // 200 and 201 are the bracketed-paste markers; everything else
            // here is nothing the composer binds. Swallowed, not text.
            _ => {
                return None;
            },
        };
        return Some(TermEvent::Key(KeyEvent::new(code, modifiers)));
    }
    // Mouse reports and unknown finals: not reconstructed.
    None
}

/// The modifiers of the second parameter, none where there is no second one.
fn second_field_modifiers(params: &[char]) -> (r: Option<KeyModifiers>)
    ensures
        r == second_modifiers(params@),
{
    let fields = crate::text::split_chars(params, ';');
    if fields.len() > 1 {
        parse_modifiers(&fields[1])
    } else {
        Some(KeyModifiers::none())
    }
}

/// The cursor-cluster finals `CSI` and `SS3` spell the same way: the arrows,
/// Home and End.
fn cursor_key(last: char) -> (r: Option<KeyCode>)
    ensures
        r == cursor(last),
{
    match last {
        'A' => Some(KeyCode::Up),
        'B' => Some(KeyCode::Down),
        'C' => Some(KeyCode::Right),
        'D' => Some(KeyCode::Left),
        'H' => Some(KeyCode::Home),
        'F' => Some(KeyCode::End),
        _ => None,
    }
}

/// The event the byte parser would have produced for `ESC O last`.
fn ss3_key(last: char) -> (r: Option<TermEvent>)
    ensures
        r == ss3_event(last),
{
    let code = match cursor_key(last) {
        Some(code) => code,
        None => match last {
            'P' => KeyCode::F(1),
            'Q' => KeyCode::F(2),
            'R' => KeyCode::F(3),
            'S' => KeyCode::F(4),
            _ => {
                return None;
            },
        },
    };
    Some(TermEvent::Key(KeyEvent::new(code, KeyModifiers::none())))
}

/// Decodes the xterm modifier parameter; see [`modifiers_of`].
fn parse_modifiers(raw: &[char]) -> (r: Option<KeyModifiers>)
    ensures
        r == modifiers_of(raw@),
{
    match parse_unsigned(raw, 255) {
        Some(value) if value >= 1 => {
            let mask: u32 = value - 1;
            Some(KeyModifiers::new(mask % 2 == 1, mask / 4 % 2 == 1, mask / 2 % 2 == 1))
        },
        _ => None,
    }
}

} // verus!
