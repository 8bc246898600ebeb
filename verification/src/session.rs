//! The interactive comparison as a state machine: what each key does.
use crate::fraction::{
    lemma_single_bound, moved_left, moved_right, single, to_single, Fraction, ONE,
};
use crate::mode::CompareMode;
use crate::rounding::{lemma_rounded_bound, rounded, SINGLE};
use vstd::arithmetic::power2::{lemma2_to64_rest, pow2};
use vstd::prelude::*;

verus! {

/// A key, as far as keys are told apart.
#[derive(Clone, Copy, Debug, PartialEq, Eq, Structural)]
pub enum Key {
    Char(char),
    Left,
    Right,
    Home,
    End,
    Esc,
    Other,
}

/// Something that happens at the terminal.
#[derive(Clone, Copy, Debug, PartialEq, Eq, Structural)]
pub enum Event {
    /// A key is pressed, with or without Ctrl and Shift.
    Key { key: Key, control: bool, shift: bool },
    /// The terminal has another size.
    Resize,
    Other,
}

/// What is to be done next.
#[derive(Clone, Copy, Debug, PartialEq, Eq, Structural)]
pub enum Action {
    /// Stop.
    Quit,
    /// Scale the pictures for the terminal as it is now.
    Scale,
    /// Draw a frame.
    Draw,
    /// Wait for an event.
    Wait,
}

/// The state of the interactive comparison.
#[derive(Clone, Copy, Debug, PartialEq, Eq, Structural)]
pub struct Session {
    pub mode: CompareMode,
    /// The last mode that showed both pictures.
    pub last_compare_mode: CompareMode,
    pub slider: Fraction,
    /// The screen does not show the state.
    pub dirty: bool,
    /// The scaled pictures do not fit the terminal.
    pub stale: bool,
    pub quit: bool,
}

/// One fiftieth in single precision.
pub open spec fn small_step() -> Fraction {
    Fraction { units: rounded(1 * ONE as nat, 50, SINGLE as nat) as i64 }
}

/// How far the slider moves: a fiftieth, or with Shift five times as far.
pub open spec fn step(shift: bool) -> Fraction {
    if shift {
        Fraction { units: single(small_step().units as nat * 5) as i64 }
    } else {
        small_step()
    }
}

impl Session {
    /// The slider is on its bar, and there is a comparison to return to: the mode
    /// itself, if it shows both pictures.
    pub open spec fn wf(&self) -> bool {
        &&& self.slider.wf()
        &&& !self.last_compare_mode.single()
        &&& !self.mode.single() ==> self.last_compare_mode == self.mode
    }

    /// What the state asks for: a change is drawn before the next event is waited
    /// for, and nothing is drawn from pictures that do not fit the terminal.
    pub open spec fn action(self) -> Action {
        if self.quit {
            Action::Quit
        } else if self.dirty && self.stale {
            Action::Scale
        } else if self.dirty {
            Action::Draw
        } else {
            Action::Wait
        }
    }

    /// The state after the mode key.
    pub open spec fn mode_switched(self) -> Session {
        let mode = if self.mode.single() {
            self.last_compare_mode
        } else {
            self.mode.following()
        };
        Session { mode, last_compare_mode: mode, dirty: true, ..self }
    }

    /// The state after the key for a single picture.
    pub open spec fn single_switched(self) -> Session {
        let mode = if self.mode == CompareMode::Left {
            CompareMode::Right
        } else {
            CompareMode::Left
        };
        Session {
            mode,
            last_compare_mode: if self.mode.single() {
                self.last_compare_mode
            } else {
                self.mode
            },
            dirty: true,
            ..self
        }
    }

    /// The state after a key.
    pub open spec fn after_key(self, key: Key, control: bool, shift: bool) -> Session {
        match key {
            Key::Char(c) => if c == 'q' || (c == 'c' && control) {
                Session { quit: true, ..self }
            } else if c == 'm' || c == 'M' {
                self.mode_switched()
            } else if c == 's' || c == 'S' {
                self.single_switched()
            } else {
                self
            },
            Key::Esc => Session { quit: true, ..self },
            Key::Left => Session {
                slider: moved_left(self.slider, step(shift)),
                dirty: true,
                ..self
            },
            Key::Right => Session {
                slider: moved_right(self.slider, step(shift)),
                dirty: true,
                ..self
            },
            Key::Home => Session { slider: Fraction { units: 0 }, dirty: true, ..self },
            Key::End => Session { slider: Fraction { units: ONE }, dirty: true, ..self },
            Key::Other => self,
        }
    }

    /// The state after an event.
    pub open spec fn after(self, event: Event) -> Session {
        match event {
            Event::Key { key, control, shift } => self.after_key(key, control, shift),
            Event::Resize => Session { stale: true, dirty: true, ..self },
            Event::Other => self,
        }
    }

    /// The state after some events, in their order. Once the user quits, nothing
    /// that follows counts.
    pub open spec fn after_all(self, events: Seq<Event>) -> Session
        decreases events.len(),
    {
        if events.len() == 0 {
            self
        } else {
            let before = self.after_all(events.drop_last());
            if before.quit {
                before
            } else {
                before.after(events.last())
            }
        }
    }

    /// How many frames are drawn before the next event is waited for.
    pub open spec fn frames_due(self) -> nat
        decreases
                (if self.dirty {
                    2int
                } else {
                    0int
                }) + (if self.stale {
                    1int
                } else {
                    0int
                }),
    {
        match self.action() {
            Action::Scale => (Session { stale: false, ..self }).frames_due(),
            Action::Draw => 1 + (Session { dirty: false, ..self }).frames_due(),
            _ => 0,
        }
    }
}

/// The user quits.
pub open spec fn is_quit(event: Event) -> bool {
    event matches Event::Key { key, control, shift } && (key == Key::Esc || key == Key::Char('q')
        || (key == Key::Char('c') && control))
}

/// The keys that move the slider.
pub open spec fn moves_slider(event: Event) -> bool {
    event matches Event::Key { key, control, shift } && (key == Key::Left || key == Key::Right || key
        == Key::Home || key == Key::End)
}

/// The keys that change the mode.
pub open spec fn changes_mode(event: Event) -> bool {
    event matches Event::Key { key, control, shift } && (key == Key::Char('m') || key == Key::Char(
        'M',
    ) || key == Key::Char('s') || key == Key::Char('S'))
}

/// The steps of the slider are between nought and one.
proof fn lemma_steps()
    ensures
        small_step().wf(),
        rounded(1 * ONE as nat, 50, SINGLE as nat) <= ONE / 32,
        single(small_step().units as nat * 5) <= ONE,
        step(true).wf(),
        step(false).wf(),
{
    lemma2_to64_rest();
    let n = 1 * ONE as nat;
    assert(pow2(35) == ONE / 32);
    lemma_rounded_bound(n, 50, SINGLE as nat, 1, 35);
    lemma_single_bound(small_step().units as nat * 5, 1);
}

/// Every event keeps the slider on its bar and a comparison to return to.
pub proof fn law_events_keep_the_state_sound(s: Session, events: Seq<Event>)
    requires
        s.wf(),
    ensures
        s.after_all(events).wf(),
    decreases events.len(),
{
    if events.len() > 0 {
        law_events_keep_the_state_sound(s, events.drop_last());
        let before = s.after_all(events.drop_last());
        if before.slider.units >= step(false).units {
            lemma_steps();
            lemma_single_bound((before.slider.units - step(false).units) as nat, 1);
        }
        if before.slider.units >= step(true).units {
            lemma_steps();
            lemma_single_bound((before.slider.units - step(true).units) as nat, 1);
        }
    }
}

/// The key for a single picture, pressed `n` times.
pub open spec fn singles(n: nat) -> Seq<Event> {
    Seq::new(n, |i: int| Event::Key { key: Key::Char('s'), control: false, shift: false })
}

/// The mode key leads back to the comparison that was shown before the pictures
/// were looked at one by one, however often they were switched.
pub proof fn law_mode_key_returns(s: Session, n: nat)
    requires
        s.wf(),
        !s.mode.single(),
        !s.quit,
        n > 0,
    ensures
        s.after_all(singles(n)).mode.single(),
        s.after_all(singles(n)).after(
            Event::Key { key: Key::Char('m'), control: false, shift: false },
        ).mode == s.mode,
{
    lemma_singles(s, n);
}

proof fn lemma_singles(s: Session, n: nat)
    requires
        s.wf(),
        !s.mode.single(),
        !s.quit,
    ensures
        !s.after_all(singles(n)).quit,
        s.after_all(singles(n)).last_compare_mode == s.mode,
        s.after_all(singles(n)).mode.single() == (n > 0),
        n == 0 ==> s.after_all(singles(n)) == s,
    decreases n,
{
    if n > 0 {
        assert(singles(n).drop_last() =~= singles((n - 1) as nat));
        lemma_singles(s, (n - 1) as nat);
    }
}

/// A state that waits for an event is drawn: whatever happened before, an event
/// that changes what is to be seen is answered by drawing, after scaling the
/// pictures if the terminal changed its size.
pub proof fn law_events_are_answered(s: Session, event: Event)
    requires
        s.action() == Action::Wait,
    ensures
        ({
            let next = s.after(event);
            let shown = Session { dirty: false, ..next };
            &&& next.action() == Action::Wait ==> next == s
            &&& next.action() == Action::Draw ==> shown.action() == Action::Wait
            &&& event == Event::Resize ==> next.action() == Action::Scale && (Session {
                stale: false,
                ..next
            }).action() == Action::Draw
            &&& next.mode != s.mode || next.slider != s.slider ==> next.action() == Action::Draw
                || next.action() == Action::Scale
        }),
{
}

/// All events that wait are handled before the next frame: however many there are,
/// at most one frame follows them. None follows if the user quits among them or if
/// they change nothing that is to be seen.
pub proof fn law_one_frame_follows_all_events(s: Session, events: Seq<Event>)
    requires
        s.action() == Action::Wait,
    ensures
        s.after_all(events).frames_due() <= 1,
        s.after_all(events).frames_due() == 1 <==> !s.after_all(events).quit && (exists|i: int|
            0 <= i < events.len() && (moves_slider(#[trigger] events[i]) || changes_mode(events[i])
                || events[i] == Event::Resize)),
        s.after_all(events).quit <==> exists|i: int|
            0 <= i < events.len() && is_quit(#[trigger] events[i]),
{
    lemma_frames_due(s.after_all(events));
    lemma_after_all(s, events);
}

/// A state that is to be drawn is drawn once.
proof fn lemma_frames_due(s: Session)
    ensures
        s.frames_due() == if s.dirty && !s.quit {
            1nat
        } else {
            0nat
        },
{
    reveal_with_fuel(Session::frames_due, 4);
}

/// The state after some events is to be drawn if one of them, before the user
/// quits, changes what is to be seen.
proof fn lemma_after_all(s: Session, events: Seq<Event>)
    requires
        !s.quit,
        !s.dirty,
    ensures
        s.after_all(events).quit <==> exists|i: int|
            0 <= i < events.len() && is_quit(#[trigger] events[i]),
        !s.after_all(events).quit ==> (s.after_all(events).dirty <==> exists|i: int|
            0 <= i < events.len() && (moves_slider(#[trigger] events[i]) || changes_mode(events[i])
                || events[i] == Event::Resize)),
    decreases events.len(),
{
    if events.len() > 0 {
        let rest = events.drop_last();
        let n = events.len() - 1;
        lemma_after_all(s, rest);
        assert(forall|i: int| 0 <= i < n ==> rest[i] == #[trigger] events[i]);
        assert(events.last() == events[n]);
    }
}

/// Left and Right move the slider down and up by a step, as far as the ends; Home
/// and End take it to the ends; and nothing else moves it.
pub proof fn law_slider_keys(s: Session, event: Event)
    requires
        s.wf(),
    ensures
        !moves_slider(event) ==> s.after(event).slider == s.slider,
        event matches Event::Key { key, control, shift } ==> {
            let slider = s.after(event).slider;
            &&& key == Key::Left ==> slider == moved_left(s.slider, step(shift))
            &&& key == Key::Right ==> slider == moved_right(s.slider, step(shift))
            &&& key == Key::Home ==> slider.units == 0
            &&& key == Key::End ==> slider.units == ONE
        },
        s.after(event).slider.wf(),
{
    let one = seq![event];
    law_events_keep_the_state_sound(Session { quit: false, ..s }, one);
    assert(one.drop_last() =~= Seq::empty());
    reveal_with_fuel(Session::after_all, 2);
}

/// Whatever changes what is to be seen also asks for it to be drawn, and no event
/// says that it has been drawn.
pub proof fn law_changes_are_drawn(s: Session, event: Event)
    ensures
        s.dirty ==> s.after(event).dirty,
        s.after(event).mode != s.mode || s.after(event).slider != s.slider || s.after(event).stale
            != s.stale ==> s.after(event).dirty,
        s.stale ==> s.after(event).stale,
        s.quit ==> s.after(event).quit,
{
}

impl Session {
    /// The state at the start: the slider in the middle of a swipe, and nothing
    /// drawn or scaled yet.
    pub fn new() -> (r: Session)
        ensures
            r.wf(),
            r.mode == CompareMode::Swipe,
            r.slider.units * 2 == ONE,
            r.dirty && r.stale && !r.quit,
    {
        Session {
            mode: CompareMode::Swipe,
            last_compare_mode: CompareMode::Swipe,
            slider: Fraction::half(),
            dirty: true,
            stale: true,
            quit: false,
        }
    }

    /// Does what an event asks for.
    pub fn handle(&mut self, event: Event)
        requires
            old(self).wf(),
        ensures
            final(self).wf(),
            *final(self) == old(self).after(event),
    {
        match event {
            Event::Key { key, control, shift } => self.press(key, control, shift),
            Event::Resize => {
                self.stale = true;
                self.dirty = true;
            },
            Event::Other => {},
        }
    }

    /// Does what all of some events ask for, in their order, up to one that quits.
    pub fn handle_all(&mut self, events: &[Event])
        requires
            old(self).wf(),
        ensures
            final(self).wf(),
            *final(self) == old(self).after_all(events@),
    {
        let ghost before = *self;
        assert(events@.take(0) =~= Seq::empty());
        for i in 0..events.len()
            invariant
                self.wf(),
                *self == before.after_all(events@.take(i as int)),
        {
            assert(events@.take(i + 1).drop_last() =~= events@.take(i as int));
            if !self.quit {
                self.handle(events[i]);
            }
        }
        assert(events@.take(events@.len() as int) =~= events@);
    }

    /// Does what a key asks for.
    fn press(&mut self, key: Key, control: bool, shift: bool)
        requires
            old(self).wf(),
        ensures
            final(self).wf(),
            *final(self) == old(self).after_key(key, control, shift),
    {
        match key {
            Key::Char(c) => {
                if c == 'q' || (c == 'c' && control) {
                    self.quit = true;
                } else if c == 'm' || c == 'M' {
                    self.switch_mode();
                } else if c == 's' || c == 'S' {
                    self.switch_single();
                }
            },
            Key::Esc => {
                self.quit = true;
            },
            Key::Left => {
                self.slider = self.slider.left(slider_step(shift));
                self.dirty = true;
            },
            Key::Right => {
                self.slider = self.slider.right(slider_step(shift));
                self.dirty = true;
            },
            Key::Home => {
                self.slider = Fraction::zero();
                self.dirty = true;
            },
            Key::End => {
                self.slider = Fraction::one();
                self.dirty = true;
            },
            Key::Other => {},
        }
    }

    fn switch_mode(&mut self)
        requires
            old(self).wf(),
        ensures
            final(self).wf(),
            *final(self) == old(self).mode_switched(),
    {
        if self.mode.is_single() {
            self.mode = self.last_compare_mode;
        } else {
            self.mode = self.mode.next();
            self.last_compare_mode = self.mode;
        }
        self.dirty = true;
    }

    fn switch_single(&mut self)
        requires
            old(self).wf(),
        ensures
            final(self).wf(),
            *final(self) == old(self).single_switched(),
    {
        match self.mode {
            CompareMode::Left => {
                self.mode = CompareMode::Right;
            },
            CompareMode::Right => {
                self.mode = CompareMode::Left;
            },
            other => {
                self.last_compare_mode = other;
                self.mode = CompareMode::Left;
            },
        }
        self.dirty = true;
    }

    /// What is to be done next.
    pub fn next_action(&self) -> (r: Action)
        ensures
            r == self.action(),
    {
        if self.quit {
            Action::Quit
        } else if self.dirty && self.stale {
            Action::Scale
        } else if self.dirty {
            Action::Draw
        } else {
            Action::Wait
        }
    }

    /// Takes note that the pictures have been scaled for the terminal.
    pub fn scaled(&mut self)
        requires
            old(self).wf(),
        ensures
            final(self).wf(),
            *final(self) == (Session { stale: false, ..*old(self) }),
    {
        self.stale = false;
    }

    /// Takes note that the state has been drawn.
    pub fn drawn(&mut self)
        requires
            old(self).wf(),
        ensures
            final(self).wf(),
            *final(self) == (Session { dirty: false, ..*old(self) }),
    {
        self.dirty = false;
    }
}

/// Whether the user quits, so that no further events are to be read.
pub fn quits(event: Event) -> (r: bool)
    ensures
        r == is_quit(event),
{
    match event {
        Event::Key { key: Key::Esc, .. } => true,
        Event::Key { key: Key::Char(c), control, .. } => c == 'q' || (c == 'c' && control),
        _ => false,
    }
}

/// How far the slider moves with one key.
pub fn slider_step(shift: bool) -> (r: Fraction)
    ensures
        r.wf(),
        r == step(shift),
{
    proof {
        lemma_steps();
    }
    let small = Fraction::ratio(1, 50);
    if shift {
        Fraction { units: to_single(small.units as u128 * 5) as i64 }
    } else {
        small
    }
}

/// A step is a fiftieth of the bar, and one with Shift a tenth, but for a tiny part.
proof fn lemma_step_sizes()
    ensures
        0x40_0000 * (50 * step(false).units - 0x100_0000_0000) <= 0x100_0000_0000,
        0x40_0000 * (0x100_0000_0000 - 50 * step(false).units) <= 0x100_0000_0000,
        0x40_0000 * (10 * step(true).units - 0x100_0000_0000) <= 0x100_0000_0000,
        0x40_0000 * (0x100_0000_0000 - 10 * step(true).units) <= 0x100_0000_0000,
        step(false).wf(),
        step(true).wf(),
{
    lemma_steps();
    let n = 1 * ONE as nat;
    crate::rounding::lemma_single_error(n, 50);
    crate::fraction::lemma_single_close(small_step().units as nat * 5);
}

/// Right and Left move the slider by a fiftieth of the bar, with Shift by a tenth,
/// but for a tiny part and no further than the ends. Home and End take it to the
/// ends. No other key moves it, and neither does another event.
pub proof fn law_slider_moves_evenly(s: Session, key: Key, control: bool, shift: bool)
    requires
        s.wf(),
    ensures
        ({
            let one = 0x100_0000_0000int;
            let next = s.after(Event::Key { key, control, shift }).slider.units;
            let moved = if key == Key::Right {
                next - s.slider.units
            } else {
                s.slider.units - next
            };
            let times = if shift {
                10 * moved
            } else {
                50 * moved
            };
            &&& key == Key::Right || key == Key::Left ==> {
                ||| 0x4_0000 * (times - one) <= one && 0x4_0000 * (one - times) <= one
                ||| 0x4_0000 * (times - one) <= one && next == if key == Key::Right {
                    one
                } else {
                    0
                }
            }
            &&& key == Key::Home ==> next == 0
            &&& key == Key::End ==> next == one
            &&& key != Key::Right && key != Key::Left && key != Key::Home && key != Key::End ==> next
                == s.slider.units
        }),
        s.after(Event::Resize).slider == s.slider,
        s.after(Event::Other).slider == s.slider,
{
    lemma_step_sizes();
    crate::fraction::law_moves_by_the_step(s.slider, step(shift));
}

/// `q`, Esc and Ctrl with `c` quit, and nothing else does.
pub proof fn law_keys_that_quit(s: Session, key: Key, control: bool, shift: bool)
    ensures
        s.after(Event::Key { key, control, shift }).quit <==> s.quit || key == Key::Char('q') || key
            == Key::Esc || (key == Key::Char('c') && control),
        is_quit(Event::Key { key, control, shift }) <==> key == Key::Char('q') || key == Key::Esc || (
        key == Key::Char('c') && control),
        s.after(Event::Resize).quit == s.quit,
        s.after(Event::Other).quit == s.quit,
        !is_quit(Event::Resize) && !is_quit(Event::Other),
{
}

/// `m` goes on to the next comparison, or back to the last one from a single picture.
/// `s` goes from the left picture to the right one, and from any other mode to the
/// left one. Both work in upper case as well, and no other key changes the mode.
pub proof fn law_keys_that_change_the_mode(s: Session, key: Key, control: bool, shift: bool)
    requires
        s.wf(),
    ensures
        ({
            let next = s.after(Event::Key { key, control, shift });
            let m = key == Key::Char('m') || key == Key::Char('M');
            let single = key == Key::Char('s') || key == Key::Char('S');
            &&& m && (s.mode == CompareMode::Left || s.mode == CompareMode::Right) ==> next.mode
                == s.last_compare_mode
            &&& m && s.mode == CompareMode::TwoUp ==> next.mode == CompareMode::Swipe
            &&& m && s.mode == CompareMode::Swipe ==> next.mode == CompareMode::OnionSkin
            &&& m && s.mode == CompareMode::OnionSkin ==> next.mode == CompareMode::TwoUp
            &&& single && s.mode == CompareMode::Left ==> next.mode == CompareMode::Right
            &&& single && s.mode != CompareMode::Left ==> next.mode == CompareMode::Left
            &&& single && s.mode != CompareMode::Left && s.mode != CompareMode::Right
                ==> next.last_compare_mode == s.mode
            &&& single && (s.mode == CompareMode::Left || s.mode == CompareMode::Right)
                ==> next.last_compare_mode == s.last_compare_mode
            &&& !m && !single ==> next.mode == s.mode && next.last_compare_mode
                == s.last_compare_mode
            &&& m || single ==> next.dirty
        }),
        s.after(Event::Resize).mode == s.mode,
        s.after(Event::Other) == s,
{
}

/// A resize asks for the pictures to be scaled again before anything is drawn, and
/// whatever is not to be seen already is drawn before the next event is waited for.
pub proof fn law_actions_follow_the_state(s: Session)
    ensures
        s.action() == Action::Quit <==> s.quit,
        s.action() == Action::Wait <==> !s.quit && !s.dirty,
        s.action() == Action::Scale <==> !s.quit && s.dirty && s.stale,
        s.action() == Action::Draw <==> !s.quit && s.dirty && !s.stale,
        s.after(Event::Resize).stale && s.after(Event::Resize).dirty,
{
}

/// Events are taken in their order: first some, then the others, is the same as all
/// of them.
pub proof fn law_events_are_taken_in_order(s: Session, first: Seq<Event>, then: Seq<Event>)
    ensures
        s.after_all(first + then) == s.after_all(first).after_all(then),
        s.after_all(seq![]) == s,
        !s.quit && then.len() == 1 ==> s.after_all(then) == s.after(then[0]),
    decreases then.len(),
{
    reveal_with_fuel(Session::after_all, 2);
    if then.len() == 0 {
        assert(first + then =~= first);
    } else {
        let rest = then.drop_last();
        law_events_are_taken_in_order(s, first, rest);
        assert((first + then).drop_last() =~= first + rest);
        assert((first + then).last() == then.last());
        if then.len() == 1 {
            assert(then.drop_last() =~= seq![]);
            assert(then.last() == then[0]);
        }
    }
}

/// Whatever comes after the user quits changes nothing.
pub proof fn law_nothing_counts_after_quitting(s: Session, events: Seq<Event>)
    requires
        s.quit,
    ensures
        s.after_all(events) == s,
    decreases events.len(),
{
    if events.len() > 0 {
        law_nothing_counts_after_quitting(s, events.drop_last());
    }
}

/// The steps of the slider are worked out in single precision.
pub proof fn law_steps_are_in_single_precision()
    ensures
        step(false).units == rounded(0x100_0000_0000, 50, 0x100_0000),
        step(true).units == rounded(5 * rounded(0x100_0000_0000, 50, 0x100_0000), 1, 0x100_0000),
{
    lemma_steps();
    assert(1 * ONE as nat == 0x100_0000_0000);
}

} // verus!
