use imgap::protocol::{
    choose_protocol, detect_protocol, parse_renderer, protocol_after_asking, renderer_by_name,
    Detection, Environment, LowerNames, Protocol,
};

fn nothing() -> Environment {
    Environment {
        renderer: None,
        tmux: false,
        term_program: None,
        term: None,
        kitty_window: false,
        lc_terminal: None,
        iterm_session: false,
        wezterm: false,
    }
}

fn text(s: &str) -> Option<String> {
    Some(s.to_string())
}

#[test]
fn renderers_are_named_in_any_case() {
    assert_eq!(parse_renderer("kitty"), Some(Protocol::Kitty));
    assert_eq!(parse_renderer("KITTY"), Some(Protocol::Kitty));
    assert_eq!(parse_renderer("iTerm2"), Some(Protocol::Iterm2));
    assert_eq!(parse_renderer("Sixel"), Some(Protocol::Sixel));
    assert_eq!(parse_renderer("aNSi"), Some(Protocol::Ansi));
    assert_eq!(parse_renderer("ansi "), None);
    assert_eq!(parse_renderer(""), None);
    assert_eq!(parse_renderer("iterm"), None);
    // The Kelvin sign is an upper-case k.
    assert_eq!(parse_renderer("\u{212a}itty"), Some(Protocol::Kitty));
}

#[test]
fn lower_case_names_are_read_back() {
    for p in [Protocol::Kitty, Protocol::Iterm2, Protocol::Sixel, Protocol::Ansi] {
        assert_eq!(renderer_by_name(p.name()), Some(p));
    }
    assert_eq!(renderer_by_name("Kitty"), None);
}

#[test]
fn wish_comes_before_everything() {
    let mut env = nothing();
    env.renderer = text("sixel");
    env.kitty_window = true;
    assert_eq!(detect_protocol(Some("ANSI"), &env), Detection::Found(Protocol::Ansi));
    assert_eq!(detect_protocol(Some("nope"), &env), Detection::UnknownRenderer);
}

#[test]
fn variable_comes_before_the_hints() {
    let mut env = nothing();
    env.renderer = text("SIXEL");
    env.kitty_window = true;
    assert_eq!(detect_protocol(None, &env), Detection::Found(Protocol::Sixel));
    env.renderer = text("nope");
    assert_eq!(detect_protocol(None, &env), Detection::Found(Protocol::Kitty));
}

#[test]
fn each_hint_is_understood() {
    let mut env = nothing();
    env.term_program = text("My-KITTY-build");
    assert_eq!(detect_protocol(None, &env), Detection::Found(Protocol::Kitty));
    env.term_program = text("iTerm.app");
    assert_eq!(detect_protocol(None, &env), Detection::Found(Protocol::Iterm2));
    env.term_program = text("WezTerm");
    assert_eq!(detect_protocol(None, &env), Detection::Found(Protocol::Iterm2));
    env.term_program = text("wezterm");
    assert_eq!(detect_protocol(None, &env), Detection::AskTerminal);
    env.term = text("xterm-kitty");
    assert_eq!(detect_protocol(None, &env), Detection::Found(Protocol::Kitty));
    env.term = text("xterm-KITTY");
    assert_eq!(detect_protocol(None, &env), Detection::AskTerminal);
    env.lc_terminal = text("iTerm2");
    assert_eq!(detect_protocol(None, &env), Detection::Found(Protocol::Iterm2));
    env.lc_terminal = text("iterm2");
    assert_eq!(detect_protocol(None, &env), Detection::AskTerminal);
    env.iterm_session = true;
    assert_eq!(detect_protocol(None, &env), Detection::Found(Protocol::Iterm2));
    env.kitty_window = true;
    assert_eq!(detect_protocol(None, &env), Detection::Found(Protocol::Kitty));
    let mut env = nothing();
    env.wezterm = true;
    assert_eq!(detect_protocol(None, &env), Detection::Found(Protocol::Iterm2));
    assert_eq!(detect_protocol(None, &nothing()), Detection::AskTerminal);
}

#[test]
fn tmux_hides_the_hints() {
    let mut env = nothing();
    env.tmux = true;
    env.kitty_window = true;
    env.term_program = text("iTerm.app");
    env.term = text("xterm-kitty");
    assert_eq!(detect_protocol(None, &env), Detection::AskTerminal);
    env.renderer = text("kitty");
    assert_eq!(detect_protocol(None, &env), Detection::Found(Protocol::Kitty));
}

#[test]
fn names_in_lower_case_decide() {
    let names = |wanted: Option<String>, renderer: Option<String>, term_program: Option<String>| {
        LowerNames { wanted, renderer, term_program }
    };
    let env = nothing();
    assert_eq!(
        choose_protocol(&env, &names(text("kitty"), None, None)),
        Detection::Found(Protocol::Kitty)
    );
    assert_eq!(choose_protocol(&env, &names(text("KITTY"), None, None)), Detection::UnknownRenderer);
    assert_eq!(
        choose_protocol(&env, &names(None, text("ansi"), text("kitty"))),
        Detection::Found(Protocol::Ansi)
    );
    assert_eq!(
        choose_protocol(&env, &names(None, None, text("kitty"))),
        Detection::Found(Protocol::Kitty)
    );
}

#[test]
fn terminal_answers_last() {
    assert_eq!(protocol_after_asking(true), Protocol::Sixel);
    assert_eq!(protocol_after_asking(false), Protocol::Ansi);
}
