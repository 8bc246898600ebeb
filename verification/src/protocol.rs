//! Choosing how the terminal is told to show a picture.
use crate::search::{contains, contains_text, find, law_find, same_text};
use vstd::prelude::*;
use vstd::string::*;

verus! {

/// A way of showing pictures on a terminal.
#[derive(Clone, Copy, Debug, PartialEq, Eq, Structural)]
pub enum Protocol {
    Kitty,
    Iterm2,
    Sixel,
    Ansi,
}

impl Protocol {
    /// What the protocol is called.
    pub open spec fn title(self) -> &'static str {
        match self {
            Protocol::Kitty => "kitty",
            Protocol::Iterm2 => "iterm2",
            Protocol::Sixel => "sixel",
            Protocol::Ansi => "ansi",
        }
    }

    pub fn name(self) -> (r: &'static str)
        ensures
            r@ == self.title()@,
    {
        match self {
            Protocol::Kitty => "kitty",
            Protocol::Iterm2 => "iterm2",
            Protocol::Sixel => "sixel",
            Protocol::Ansi => "ansi",
        }
    }
}

/// A text in lower case, by the rules of Unicode.
pub uninterp spec fn lowercased(text: Seq<char>) -> Seq<char>;

/// The lower-case letter for an upper-case letter from A to Z; any other
/// character as it is.
pub open spec fn ascii_lower(c: char) -> char {
    if 'A' <= c && c <= 'Z' {
        (c as u8 + 32) as char
    } else {
        c
    }
}

/// `str::to_lowercase`: the contract gives its result a name, and says that in a
/// text of ASCII characters it changes the letters from A to Z and nothing else.
#[verifier::external_body]
pub(crate) fn to_lowercase(text: &str) -> (r: String)
    ensures
        r@ == lowercased(text@),
        (forall|i: int| 0 <= i < text@.len() ==> (#[trigger] text@[i] as u32) < 128) ==> r@
            == text@.map_values(|c: char| ascii_lower(c)),
{
    text.to_lowercase()
}

/// The protocol that a name in lower case stands for.
pub open spec fn renderer_named(name: Seq<char>) -> Option<Protocol> {
    if name == "kitty"@ {
        Some(Protocol::Kitty)
    } else if name == "iterm2"@ {
        Some(Protocol::Iterm2)
    } else if name == "sixel"@ {
        Some(Protocol::Sixel)
    } else if name == "ansi"@ {
        Some(Protocol::Ansi)
    } else {
        None
    }
}

/// The protocol that a name in lower case stands for.
pub fn renderer_by_name(name: &str) -> (r: Option<Protocol>)
    ensures
        r == renderer_named(name@),
{
    if same_text(name, "kitty") {
        Some(Protocol::Kitty)
    } else if same_text(name, "iterm2") {
        Some(Protocol::Iterm2)
    } else if same_text(name, "sixel") {
        Some(Protocol::Sixel)
    } else if same_text(name, "ansi") {
        Some(Protocol::Ansi)
    } else {
        None
    }
}

/// The protocol that a name stands for, in upper or lower case.
pub fn parse_renderer(name: &str) -> (r: Option<Protocol>)
    ensures
        r == renderer_named(lowercased(name@)),
        (forall|i: int| 0 <= i < name@.len() ==> (#[trigger] name@[i] as u32) < 128) ==> r
            == renderer_named(name@.map_values(|c: char| ascii_lower(c))),
{
    renderer_by_name(to_lowercase(name).as_str())
}

/// Every protocol is found by its name.
pub proof fn law_names_are_read_back(p: Protocol)
    ensures
        renderer_named(p.title()@) == Some(p),
{
    reveal_strlit("kitty");
    reveal_strlit("iterm2");
    reveal_strlit("sixel");
    reveal_strlit("ansi");
    assert("kitty"@.len() == 5 && "iterm2"@.len() == 6 && "sixel"@.len() == 5 && "ansi"@.len()
        == 4);
    assert("kitty"@[0] == 'k' && "sixel"@[0] == 's');
}

/// What the environment tells about the terminal.
pub struct Environment {
    /// `IMGAP_RENDERER`.
    pub renderer: Option<String>,
    /// `TMUX` is set.
    pub tmux: bool,
    /// `TERM_PROGRAM`.
    pub term_program: Option<String>,
    /// `TERM`.
    pub term: Option<String>,
    /// `KITTY_WINDOW_ID` is set.
    pub kitty_window: bool,
    /// `LC_TERMINAL`.
    pub lc_terminal: Option<String>,
    /// `ITERM_SESSION_ID` is set.
    pub iterm_session: bool,
    /// `WEZTERM_EXECUTABLE` is set.
    pub wezterm: bool,
}

/// The names that are compared without regard to case, in lower case.
pub struct LowerNames {
    /// The renderer that the user asked for.
    pub wanted: Option<String>,
    /// The renderer that the environment names.
    pub renderer: Option<String>,
    /// The terminal program.
    pub term_program: Option<String>,
}

/// What is known about the protocol before the terminal is asked.
#[derive(Clone, Copy, Debug, PartialEq, Eq, Structural)]
pub enum Detection {
    /// The protocol is this one.
    Found(Protocol),
    /// The user asked for a renderer that does not exist.
    UnknownRenderer,
    /// Nothing tells; the terminal has to be asked whether it knows sixels.
    AskTerminal,
}

/// The text in an option, if there is one.
pub open spec fn text_in(text: Option<String>) -> Option<Seq<char>> {
    match text {
        Some(t) => Some(t@),
        None => None,
    }
}

/// The protocol that the environment variables of terminal programs point to,
/// outside of tmux.
pub open spec fn hinted(env: &Environment, program: Option<Seq<char>>) -> Option<Protocol> {
    if program is Some && contains(program->0, "kitty"@) {
        Some(Protocol::Kitty)
    } else if env.term_program is Some && (env.term_program->0@ == "iTerm.app"@
        || env.term_program->0@ == "WezTerm"@) {
        Some(Protocol::Iterm2)
    } else if env.term is Some && contains(env.term->0@, "kitty"@) {
        Some(Protocol::Kitty)
    } else if env.kitty_window {
        Some(Protocol::Kitty)
    } else if env.lc_terminal is Some && env.lc_terminal->0@ == "iTerm2"@ {
        Some(Protocol::Iterm2)
    } else if env.iterm_session || env.wezterm {
        Some(Protocol::Iterm2)
    } else {
        None
    }
}

/// What is known about the protocol. The user's wish comes first, then the
/// environment's; tmux hides what the terminal program could do.
pub open spec fn detected(
    env: &Environment,
    wanted: Option<Seq<char>>,
    renderer: Option<Seq<char>>,
    program: Option<Seq<char>>,
) -> Detection {
    if wanted is Some {
        match renderer_named(wanted->0) {
            Some(p) => Detection::Found(p),
            None => Detection::UnknownRenderer,
        }
    } else if renderer is Some && renderer_named(renderer->0) is Some {
        Detection::Found(renderer_named(renderer->0)->0)
    } else if !env.tmux && hinted(env, program) is Some {
        Detection::Found(hinted(env, program)->0)
    } else {
        Detection::AskTerminal
    }
}

/// A text in an option, in lower case.
pub open spec fn lowercased_in(text: Option<Seq<char>>) -> Option<Seq<char>> {
    match text {
        Some(t) => Some(lowercased(t)),
        None => None,
    }
}

/// A renderer that the user asks for is used, if it exists, whatever the
/// environment says; and only a wish can be unknown.
pub proof fn law_wish_comes_first(
    env: &Environment,
    other: &Environment,
    wanted: Option<Seq<char>>,
    renderer: Option<Seq<char>>,
    program: Option<Seq<char>>,
    other_renderer: Option<Seq<char>>,
    other_program: Option<Seq<char>>,
)
    ensures
        wanted is Some ==> detected(env, wanted, renderer, program) == detected(
            other,
            wanted,
            other_renderer,
            other_program,
        ),
        wanted is None ==> detected(env, wanted, renderer, program)
            != Detection::UnknownRenderer,
{
}

/// Inside tmux, where the protocols of Kitty and iTerm2 are not passed on, they
/// are used only if the user or the environment names them.
pub proof fn law_tmux_hides_the_terminal(
    env: &Environment,
    renderer: Option<Seq<char>>,
    program: Option<Seq<char>>,
)
    requires
        env.tmux,
        renderer is None || renderer_named(renderer->0) is None,
    ensures
        detected(env, None, renderer, program) == Detection::AskTerminal,
{
}

fn is_text(text: &Option<String>, wanted: &str) -> (r: bool)
    ensures
        r == (text is Some && text->0@ == wanted@),
{
    match text {
        Some(t) => same_text(t.as_str(), wanted),
        None => false,
    }
}

fn has_text(text: &Option<String>, pattern: &str) -> (r: bool)
    ensures
        r == (text is Some && contains(text->0@, pattern@)),
{
    match text {
        Some(t) => contains_text(t.as_str(), pattern),
        None => false,
    }
}

/// Reads the hints of terminal programs.
fn read_hints(env: &Environment, program: &Option<String>) -> (r: Option<Protocol>)
    ensures
        r == hinted(env, text_in(*program)),
{
    if has_text(program, "kitty") {
        return Some(Protocol::Kitty);
    }
    if is_text(&env.term_program, "iTerm.app") || is_text(&env.term_program, "WezTerm") {
        return Some(Protocol::Iterm2);
    }
    if has_text(&env.term, "kitty") || env.kitty_window {
        return Some(Protocol::Kitty);
    }
    if is_text(&env.lc_terminal, "iTerm2") || env.iterm_session || env.wezterm {
        return Some(Protocol::Iterm2);
    }
    None
}

/// Decides about the protocol, given the names in lower case.
pub fn choose_protocol(env: &Environment, names: &LowerNames) -> (r: Detection)
    ensures
        r == detected(
            env,
            text_in(names.wanted),
            text_in(names.renderer),
            text_in(names.term_program),
        ),
{
    if let Some(name) = &names.wanted {
        return match renderer_by_name(name.as_str()) {
            Some(p) => Detection::Found(p),
            None => Detection::UnknownRenderer,
        };
    }
    if let Some(name) = &names.renderer {
        if let Some(p) = renderer_by_name(name.as_str()) {
            return Detection::Found(p);
        }
    }
    if !env.tmux {
        if let Some(p) = read_hints(env, &names.term_program) {
            return Detection::Found(p);
        }
    }
    Detection::AskTerminal
}

fn lower(text: &Option<String>) -> (r: Option<String>)
    ensures
        text_in(r) == lowercased_in(text_in(*text)),
{
    match text {
        Some(t) => Some(to_lowercase(t.as_str())),
        None => None,
    }
}

/// Decides about the protocol from the renderer that the user asked for and the
/// environment.
pub fn detect_protocol(renderer_override: Option<&str>, env: &Environment) -> (r: Detection)
    ensures
        r == detected(
            env,
            match renderer_override {
                Some(name) => Some(lowercased(name@)),
                None => None,
            },
            lowercased_in(text_in(env.renderer)),
            lowercased_in(text_in(env.term_program)),
        ),
{
    let wanted: Option<String> = match renderer_override {
        Some(name) => Some(to_lowercase(name)),
        None => None,
    };
    let names = LowerNames {
        wanted,
        renderer: lower(&env.renderer),
        term_program: lower(&env.term_program),
    };
    choose_protocol(env, &names)
}

/// The protocol for a terminal that nothing else told about.
pub fn protocol_after_asking(knows_sixels: bool) -> (r: Protocol)
    ensures
        r == if knows_sixels {
            Protocol::Sixel
        } else {
            Protocol::Ansi
        },
{
    if knows_sixels {
        Protocol::Sixel
    } else {
        Protocol::Ansi
    }
}

/// The word stands somewhere in the text.
pub open spec fn holds_word(text: Seq<char>, word: Seq<char>) -> bool {
    exists|i: int|
        0 <= i && i + word.len() <= text.len() && #[trigger] text.subrange(i, i + word.len()) == word
}

/// There is a text, and the word stands somewhere in it.
pub open spec fn has_word(text: Option<Seq<char>>, word: Seq<char>) -> bool {
    match text {
        Some(t) => holds_word(t, word),
        None => false,
    }
}

proof fn lemma_has_word(text: Seq<char>, word: Seq<char>)
    ensures
        contains(text, word) <==> holds_word(text, word),
{
    law_find(text, word);
    if contains(text, word) {
        let i = find(text, word)->0;
        assert(text.subrange(i, i + word.len()) == word);
    } else if holds_word(text, word) {
        let i = choose|i: int|
            0 <= i && i + word.len() <= text.len() && #[trigger] text.subrange(i, i + word.len())
                == word;
        assert(text.subrange(i, i + word.len()) != word);
    }
}

/// A Kitty terminal is known by the word in the name of its program, in `TERM`, or by
/// its window; one that speaks iTerm2's protocol by the name of its program, by
/// `LC_TERMINAL`, or by its session or its executable. The name of the program
/// counts most, then what points to Kitty.
pub proof fn law_terminals_are_known_by_their_hints(env: &Environment, program: Option<Seq<char>>)
    ensures
        ({
            let word = seq!['k', 'i', 't', 't', 'y'];
            let name = text_in(env.term_program);
            let kitty_program = has_word(program, word);
            let iterm_program = name == Some(seq!['i', 'T', 'e', 'r', 'm', '.', 'a', 'p', 'p'])
                || name == Some(seq!['W', 'e', 'z', 'T', 'e', 'r', 'm']);
            let kitty = has_word(text_in(env.term), word) || env.kitty_window;
            let iterm = text_in(env.lc_terminal) == Some(seq!['i', 'T', 'e', 'r', 'm', '2'])
                || env.iterm_session || env.wezterm;
            &&& kitty_program ==> hinted(env, program) == Some(Protocol::Kitty)
            &&& !kitty_program && iterm_program ==> hinted(env, program) == Some(Protocol::Iterm2)
            &&& !kitty_program && !iterm_program && kitty ==> hinted(env, program) == Some(
                Protocol::Kitty,
            )
            &&& !kitty_program && !iterm_program && !kitty && iterm ==> hinted(env, program)
                == Some(Protocol::Iterm2)
            &&& !kitty_program && !iterm_program && !kitty && !iterm ==> hinted(env, program) is None
        }),
{
    reveal_strlit("kitty");
    reveal_strlit("iTerm.app");
    reveal_strlit("WezTerm");
    reveal_strlit("iTerm2");
    let word = seq!['k', 'i', 't', 't', 'y'];
    assert("kitty"@ =~= word);
    assert("iTerm.app"@ =~= seq!['i', 'T', 'e', 'r', 'm', '.', 'a', 'p', 'p']);
    assert("WezTerm"@ =~= seq!['W', 'e', 'z', 'T', 'e', 'r', 'm']);
    assert("iTerm2"@ =~= seq!['i', 'T', 'e', 'r', 'm', '2']);
    if let Some(p) = program {
        lemma_has_word(p, word);
    }
    if let Some(t) = text_in(env.term) {
        lemma_has_word(t, word);
    }
}

/// The user's wish decides, and an unknown one is an error; then a known renderer in
/// the environment; then, outside of tmux, what points to a terminal program; and
/// only then the terminal is asked.
pub proof fn law_protocol_is_chosen_in_order(
    env: &Environment,
    wish: Seq<char>,
    renderer: Option<Seq<char>>,
    program: Option<Seq<char>>,
    p: Protocol,
)
    ensures
        renderer_named(wish) == Some(p) ==> detected(env, Some(wish), renderer, program)
            == Detection::Found(p),
        renderer_named(wish) is None ==> detected(env, Some(wish), renderer, program)
            == Detection::UnknownRenderer,
        renderer is Some && renderer_named(renderer->0) == Some(p) ==> detected(
            env,
            None,
            renderer,
            program,
        ) == Detection::Found(p),
        (renderer is None || renderer_named(renderer->0) is None) && !env.tmux && hinted(env, program)
            == Some(p) ==> detected(env, None, renderer, program) == Detection::Found(p),
        (renderer is None || renderer_named(renderer->0) is None) && (env.tmux || hinted(
            env,
            program,
        ) is None) ==> detected(env, None, renderer, program) == Detection::AskTerminal,
{
}

/// The four names that renderers have; there is no other.
pub proof fn law_renderers_have_names(name: Seq<char>)
    ensures
        renderer_named(name) == Some(Protocol::Kitty) <==> name == seq!['k', 'i', 't', 't', 'y'],
        renderer_named(name) == Some(Protocol::Iterm2) <==> name == seq!['i', 't', 'e', 'r', 'm', '2'],
        renderer_named(name) == Some(Protocol::Sixel) <==> name == seq!['s', 'i', 'x', 'e', 'l'],
        renderer_named(name) == Some(Protocol::Ansi) <==> name == seq!['a', 'n', 's', 'i'],
{
    reveal_strlit("kitty");
    reveal_strlit("iterm2");
    reveal_strlit("sixel");
    reveal_strlit("ansi");
    assert("kitty"@ =~= seq!['k', 'i', 't', 't', 'y']);
    assert("iterm2"@ =~= seq!['i', 't', 'e', 'r', 'm', '2']);
    assert("sixel"@ =~= seq!['s', 'i', 'x', 'e', 'l']);
    assert("ansi"@ =~= seq!['a', 'n', 's', 'i']);
    assert("kitty"@[0] != "sixel"@[0]);
    assert("kitty"@.len() == 5 && "iterm2"@.len() == 6 && "sixel"@.len() == 5 && "ansi"@.len()
        == 4);
}

/// The text in an option is that of its string, in whatever case it is wanted.
pub proof fn law_texts_are_taken_as_they_are(text: String, other: Seq<char>)
    ensures
        text_in(Some(text)) == Some(text@),
        text_in(None) is None,
        lowercased_in(Some(other)) == Some(lowercased(other)),
        lowercased_in(None) is None,
{
}

} // verus!
