//! The command line: options, and the two pictures to compare.
use crate::search::same_text;
use vstd::prelude::*;
use vstd::string::*;

verus! {

/// What the command line says.
pub struct Arguments {
    /// The value of the last `-r`.
    pub renderer: Option<String>,
    /// `-i` is given.
    pub interactive: bool,
    /// Everything that is no option.
    pub others: Vec<String>,
}

/// What the command line says, as plain text.
pub struct Said {
    pub renderer: Option<Seq<char>>,
    pub interactive: bool,
    pub others: Seq<Seq<char>>,
}

impl Arguments {
    /// What the arguments say.
    pub open spec fn said(&self) -> Said {
        Said {
            renderer: match self.renderer {
                Some(r) => Some(r@),
                None => None,
            },
            interactive: self.interactive,
            others: texts(self.others@),
        }
    }
}

/// The texts of some strings.
pub open spec fn texts(strings: Seq<String>) -> Seq<Seq<char>> {
    Seq::new(strings.len(), |i: int| strings[i]@)
}

/// What is said first and what is said later, together. The later renderer
/// counts.
pub open spec fn joined(first: Said, later: Said) -> Said {
    Said {
        renderer: if later.renderer is Some {
            later.renderer
        } else {
            first.renderer
        },
        interactive: first.interactive || later.interactive,
        others: first.others + later.others,
    }
}

/// What the arguments from place `i` on say, or nothing if `-r` lacks its value.
pub open spec fn said_from(args: Seq<Seq<char>>, i: int) -> Option<Said>
    decreases args.len() - i,
{
    let nothing = Said { renderer: None, interactive: false, others: Seq::empty() };
    if i >= args.len() {
        Some(nothing)
    } else if args[i] == "-r"@ && i + 1 >= args.len() {
        None
    } else {
        let (first, next) = if args[i] == "-r"@ {
            (Said { renderer: Some(args[i + 1]), ..nothing }, i + 2)
        } else if args[i] == "-i"@ {
            (Said { interactive: true, ..nothing }, i + 1)
        } else {
            (Said { others: seq![args[i]], ..nothing }, i + 1)
        };
        match said_from(args, next) {
            Some(later) => Some(joined(first, later)),
            None => None,
        }
    }
}

/// `whole` is `first` together with `rest`, and nothing if there is no `rest`.
spec fn is_joined(whole: Option<Said>, first: Said, rest: Option<Said>) -> bool {
    match rest {
        Some(later) => whole == Some(joined(first, later)),
        None => whole is None,
    }
}

/// Joining is associative.
proof fn lemma_joined(a: Said, b: Said, c: Said)
    ensures
        joined(joined(a, b), c) == joined(a, joined(b, c)),
{
    assert(joined(joined(a, b), c).others =~= joined(a, joined(b, c)).others);
}

/// Reads the command line, whose first entry is the program itself. Gives nothing
/// if `-r` lacks its value.
pub fn parse_args(args: &Vec<String>) -> (r: Option<Arguments>)
    ensures
        match r {
            Some(a) => said_from(texts(args@), 1) == Some(a.said()),
            None => said_from(texts(args@), 1) is None,
        },
{
    let mut renderer: Option<String> = None;
    let mut interactive: bool = false;
    let mut others: Vec<String> = Vec::new();
    let mut i: usize = 1;
    let ghost mut so_far = Said { renderer: None, interactive: false, others: Seq::empty() };
    let ghost all = texts(args@);
    proof {
        if let Some(later) = said_from(all, 1) {
            assert(joined(so_far, later).others =~= later.others);
        }
    }
    while i < args.len()
        invariant
            all == texts(args@),
            1 <= i,
            so_far.renderer == (match renderer {
                Some(r) => Some(r@),
                None => None,
            }),
            so_far.interactive == interactive,
            so_far.others == texts(others@),
            is_joined(said_from(all, 1), so_far, said_from(all, i as int)),
        decreases args@.len() - i,
    {
        let ghost nothing = Said { renderer: None, interactive: false, others: Seq::empty() };
        let ghost before = so_far;
        let ghost mut first = nothing;
        assert(all[i as int] == args@[i as int]@);
        if same_text(args[i].as_str(), "-r") {
            if args.len() - i < 2 {
                return None;
            }
            renderer = Some(args[i + 1].clone());
            proof {
                assert(all[i + 1] == args@[i + 1]@);
                first = Said { renderer: Some(all[i + 1]), ..nothing };
                so_far = joined(before, first);
                assert(so_far.others =~= before.others);
            }
            i = i + 2;
        } else if same_text(args[i].as_str(), "-i") {
            interactive = true;
            proof {
                first = Said { interactive: true, ..nothing };
                so_far = joined(before, first);
                assert(so_far.others =~= before.others);
            }
            i = i + 1;
        } else {
            let ghost kept = others@;
            others.push(args[i].clone());
            proof {
                first = Said { others: seq![all[i as int]], ..nothing };
                so_far = joined(before, first);
                assert(texts(others@) =~= texts(kept) + seq![all[i as int]]);
            }
            i = i + 1;
        }
        proof {
            if let Some(later) = said_from(all, i as int) {
                lemma_joined(before, first, later);
            }
        }
    }
    proof {
        let nothing = Said { renderer: None, interactive: false, others: Seq::empty() };
        assert(joined(so_far, nothing).others =~= so_far.others);
    }
    Some(Arguments { renderer, interactive, others })
}

/// Arguments that are no options are kept, in their order.
pub proof fn law_plain_arguments_are_kept(args: Seq<Seq<char>>, i: int)
    requires
        0 <= i <= args.len(),
        forall|k: int| i <= k < args.len() ==> #[trigger] args[k] != "-r"@ && args[k] != "-i"@,
    ensures
        said_from(args, i) == Some(
            Said { renderer: None, interactive: false, others: args.skip(i) },
        ),
    decreases args.len() - i,
{
    if i < args.len() {
        law_plain_arguments_are_kept(args, i + 1);
        assert(args.skip(i) =~= seq![args[i]] + args.skip(i + 1));
    } else {
        assert(args.skip(i) =~= Seq::empty());
    }
}

/// The paths of the two pictures. Git's external diff gives seven arguments, of
/// which the second and the fifth name the old and the new file; else there are
/// two arguments; and Git's difftool sets two variables and gives no arguments.
pub open spec fn paths(
    others: Seq<Seq<char>>,
    local: Option<Seq<char>>,
    remote: Option<Seq<char>>,
) -> Option<(Seq<char>, Seq<char>)> {
    if others.len() == 7 {
        Some((others[1], others[4]))
    } else if others.len() == 2 {
        Some((others[0], others[1]))
    } else if others.len() == 0 && local is Some && remote is Some {
        Some((local->0, remote->0))
    } else {
        None
    }
}

/// Finds the paths of the two pictures, if the arguments or the variables `LOCAL`
/// and `REMOTE` give them.
pub fn resolve_paths(others: &Vec<String>, local: Option<String>, remote: Option<String>) -> (r:
    Option<(String, String)>)
    ensures
        paths(
            texts(others@),
            crate::protocol::text_in(local),
            crate::protocol::text_in(remote),
        ) == match r {
            Some((a, b)) => Some((a@, b@)),
            None => None,
        },
{
    if others.len() == 7 {
        Some((others[1].clone(), others[4].clone()))
    } else if others.len() == 2 {
        Some((others[0].clone(), others[1].clone()))
    } else if others.len() == 0 {
        match (local, remote) {
            (Some(a), Some(b)) => Some((a, b)),
            _ => None,
        }
    } else {
        None
    }
}

/// Whether the pictures are shown interactively: on request, or because Git's
/// difftool runs the program.
pub fn is_interactive(requested: bool, difftool: bool) -> (r: bool)
    ensures
        r == (requested || difftool),
{
    requested || difftool
}

/// `-i` asks for the interactive comparison and changes nothing else. `-r` names the
/// renderer by the argument that follows it, unless a later `-r` does; without such
/// an argument the command line is wrong. Any other argument is kept, before those
/// that follow it.
pub proof fn law_arguments_are_read_in_turn(args: Seq<Seq<char>>, i: int, later: Said)
    requires
        0 <= i < args.len(),
    ensures
        args[i] == seq!['-', 'i'] && said_from(args, i + 1) == Some(later) ==> said_from(args, i)
            == Some(
            Said { renderer: later.renderer, interactive: true, others: later.others },
        ),
        args[i] == seq!['-', 'r'] && i + 1 < args.len() && said_from(args, i + 2) == Some(later)
            ==> said_from(args, i) == Some(
            Said {
                renderer: Some(
                    match later.renderer {
                        Some(r) => r,
                        None => args[i + 1],
                    },
                ),
                interactive: later.interactive,
                others: later.others,
            },
        ),
        args[i] != seq!['-', 'i'] && args[i] != seq!['-', 'r'] && said_from(args, i + 1) == Some(
            later,
        ) ==> said_from(args, i) == Some(
            Said {
                renderer: later.renderer,
                interactive: later.interactive,
                others: seq![args[i]] + later.others,
            },
        ),
        args[i] == seq!['-', 'r'] && i + 1 == args.len() ==> said_from(args, i) is None,
        args[i] == seq!['-', 'r'] && i + 1 < args.len() && said_from(args, i + 2) is None
            ==> said_from(args, i) is None,
        args[i] != seq!['-', 'r'] && said_from(args, i + 1) is None ==> said_from(args, i) is None,
        said_from(args, args.len() as int) == Some(
            Said { renderer: None, interactive: false, others: seq![] },
        ),
{
    reveal_strlit("-r");
    reveal_strlit("-i");
    assert("-r"@ =~= seq!['-', 'r']);
    assert("-i"@ =~= seq!['-', 'i']);
    assert(seq!['-', 'r'][1] != seq!['-', 'i'][1]);
    assert(Seq::<Seq<char>>::empty() + later.others =~= later.others);
}

/// Two arguments are the paths themselves, the first one first. Of the seven that
/// Git gives, the second one is the old file and the fifth one the new file. Without
/// arguments the two variables of Git's difftool count, if both are set. Any other
/// number of arguments names no pictures.
pub proof fn law_paths_keep_their_order(
    a: Seq<char>,
    b: Seq<char>,
    path: Seq<char>,
    old_hex: Seq<char>,
    old_mode: Seq<char>,
    new_hex: Seq<char>,
    new_mode: Seq<char>,
    others: Seq<Seq<char>>,
    local: Option<Seq<char>>,
    remote: Option<Seq<char>>,
)
    ensures
        paths(seq![a, b], local, remote) == Some((a, b)),
        paths(seq![path, a, old_hex, old_mode, b, new_hex, new_mode], local, remote) == Some((a, b)),
        paths(seq![], Some(a), Some(b)) == Some((a, b)),
        paths(seq![], None, remote) is None,
        paths(seq![], local, None) is None,
        others.len() != 0 && others.len() != 2 && others.len() != 7 ==> paths(others, local, remote)
            is None,
{
}

/// What is said is what the arguments hold.
pub proof fn law_said_is_what_is_held(a: Arguments, i: int)
    ensures
        a.renderer is Some ==> a.said().renderer == Some(a.renderer->0@),
        a.renderer is None ==> a.said().renderer is None,
        a.said().interactive == a.interactive,
        a.said().others.len() == a.others@.len(),
        0 <= i < a.others@.len() ==> a.said().others[i] == a.others@[i]@,
{
}

} // verus!
