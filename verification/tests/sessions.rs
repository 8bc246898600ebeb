use imgap::fraction::{Fraction, ONE};
use imgap::mode::CompareMode;
use imgap::session::{quits, slider_step, Action, Event, Key, Session};

fn key(key: Key) -> Event {
    Event::Key { key, control: false, shift: false }
}

fn value(f: Fraction) -> f32 {
    (f.units as f64 / ONE as f64) as f32
}

#[test]
fn modes_are_cycled_without_single_pictures() {
    let mut m = CompareMode::TwoUp;
    let mut seen = Vec::new();
    for _ in 0..4 {
        seen.push(m);
        m = m.next();
    }
    assert_eq!(
        seen,
        vec![CompareMode::TwoUp, CompareMode::Swipe, CompareMode::OnionSkin, CompareMode::TwoUp]
    );
    assert_eq!(CompareMode::Left.next(), CompareMode::TwoUp);
    assert_eq!(CompareMode::Right.next(), CompareMode::TwoUp);
}

#[test]
fn modes_have_names() {
    assert_eq!(CompareMode::TwoUp.label(), "2-up");
    assert_eq!(CompareMode::Swipe.label(), "swipe");
    assert_eq!(CompareMode::OnionSkin.label(), "onion skin");
    assert_eq!(CompareMode::Left.label(), "left only");
    assert_eq!(CompareMode::Right.label(), "right only");
}

#[test]
fn two_modes_use_the_slider_and_two_show_one_picture() {
    assert!(CompareMode::Swipe.uses_slider() && CompareMode::OnionSkin.uses_slider());
    assert!(!CompareMode::TwoUp.uses_slider());
    assert!(!CompareMode::Left.uses_slider() && !CompareMode::Right.uses_slider());
    assert!(CompareMode::Left.is_single() && CompareMode::Right.is_single());
    assert!(!CompareMode::TwoUp.is_single() && !CompareMode::Swipe.is_single());
    assert!(!CompareMode::OnionSkin.is_single());
}

#[test]
fn session_starts_in_the_middle_of_a_swipe() {
    let s = Session::new();
    assert_eq!(s.mode, CompareMode::Swipe);
    assert_eq!(s.slider, Fraction::half());
    assert!(s.dirty && s.stale && !s.quit);
}

#[test]
fn slider_moves_as_in_single_precision() {
    let step = 0.02_f32;
    assert_eq!(value(slider_step(false)), step);
    assert_eq!(value(slider_step(true)), step * 5.0);
    let mut s = Session::new();
    let mut slider = 0.5_f32;
    let mut seed: u32 = 1;
    for _ in 0..5000 {
        seed = seed.wrapping_mul(1103515245).wrapping_add(12345);
        let shift = seed >> 20 & 3 == 0;
        let d = if shift { step * 5.0 } else { step };
        if seed >> 16 & 1 == 0 {
            slider = (slider - d).max(0.0);
            s.handle(Event::Key { key: Key::Left, control: false, shift });
        } else {
            slider = (slider + d).min(1.0);
            s.handle(Event::Key { key: Key::Right, control: false, shift });
        }
        assert_eq!(value(s.slider), slider);
    }
    s.handle(key(Key::Home));
    assert_eq!(s.slider, Fraction::zero());
    s.handle(key(Key::Left));
    assert_eq!(s.slider, Fraction::zero());
    s.handle(key(Key::End));
    assert_eq!(s.slider, Fraction::one());
    s.handle(key(Key::Right));
    assert_eq!(s.slider, Fraction::one());
}

#[test]
fn mode_key_cycles_and_returns() {
    let mut s = Session::new();
    s.handle(key(Key::Char('m')));
    assert_eq!(s.mode, CompareMode::OnionSkin);
    for n in 1..5 {
        for _ in 0..n {
            s.handle(key(Key::Char('s')));
        }
        assert_eq!(s.mode, if n % 2 == 1 { CompareMode::Left } else { CompareMode::Right });
        s.handle(key(Key::Char('M')));
        assert_eq!(s.mode, CompareMode::OnionSkin);
    }
    s.handle(key(Key::Char('m')));
    assert_eq!(s.mode, CompareMode::TwoUp);
    s.handle(key(Key::Char('S')));
    assert_eq!(s.mode, CompareMode::Left);
    assert_eq!(s.last_compare_mode, CompareMode::TwoUp);
}

#[test]
fn some_keys_quit() {
    for event in [
        key(Key::Char('q')),
        key(Key::Esc),
        Event::Key { key: Key::Char('c'), control: true, shift: false },
    ] {
        let mut s = Session::new();
        s.drawn();
        s.handle(event);
        assert!(s.quit && !s.dirty);
        assert_eq!(s.next_action(), Action::Quit);
    }
    let mut s = Session::new();
    s.handle(key(Key::Char('c')));
    s.handle(key(Key::Char('Q')));
    assert!(!s.quit);
}

#[test]
fn only_changes_are_drawn() {
    let mut s = Session::new();
    assert_eq!(s.next_action(), Action::Scale);
    s.scaled();
    assert_eq!(s.next_action(), Action::Draw);
    s.drawn();
    assert_eq!(s.next_action(), Action::Wait);
    assert!(!s.dirty && !s.stale);
    let before = s;
    s.handle(key(Key::Other));
    s.handle(key(Key::Char('x')));
    s.handle(Event::Other);
    assert_eq!(s, before);
    for event in [
        key(Key::Left),
        key(Key::Right),
        key(Key::Home),
        key(Key::End),
        key(Key::Char('m')),
        key(Key::Char('s')),
        Event::Resize,
    ] {
        s.drawn();
        s.handle(event);
        assert!(s.dirty);
        let action = if event == Event::Resize { Action::Scale } else { Action::Draw };
        assert_eq!(s.next_action(), action);
    }
    assert!(s.stale);
}

#[test]
fn waiting_events_are_handled_before_one_frame() {
    let mut s = Session::new();
    s.scaled();
    s.drawn();
    let mut by_one = s;
    let events = [key(Key::Char('m')), key(Key::End), Event::Other, Event::Resize, key(Key::Left)];
    s.handle_all(&events);
    for event in events {
        by_one.handle(event);
    }
    assert_eq!(s, by_one);
    let mut frames = 0;
    loop {
        match s.next_action() {
            Action::Scale => s.scaled(),
            Action::Draw => {
                frames += 1;
                s.drawn();
            }
            _ => break,
        }
    }
    assert_eq!(frames, 1);
    s.handle_all(&[Event::Other, key(Key::Other), key(Key::Char('x'))]);
    assert_eq!(s.next_action(), Action::Wait);
}

#[test]
fn nothing_counts_after_quitting() {
    let mut s = Session::new();
    let slider = s.slider;
    s.handle_all(&[key(Key::Esc), key(Key::Home), key(Key::Char('m'))]);
    assert_eq!((s.slider, s.mode), (slider, CompareMode::Swipe));
    assert_eq!(s.next_action(), Action::Quit);
    assert!(quits(key(Key::Esc)) && quits(key(Key::Char('q'))));
    assert!(quits(Event::Key { key: Key::Char('c'), control: true, shift: false }));
    assert!(!quits(key(Key::Char('c'))) && !quits(key(Key::Char('Q'))));
    assert!(!quits(Event::Resize) && !quits(Event::Other) && !quits(key(Key::Left)));
}
