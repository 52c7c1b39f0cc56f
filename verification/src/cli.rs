//! What the command line asks for: `new NAME`, `run NAME ARGS...`, or a
//! bare workflow name followed by its arguments.
use vstd::prelude::*;
use crate::config::Config;
use crate::text::{chars_of, copy_string, strings_view};

verus! {

/// A command of the program.
#[derive(Debug)]
pub enum Subcommands {
    New { name: String },
    Run { name: String, args: Vec<String> },
}

/// The model of a [`Subcommands`].
pub enum SCommand {
    New(Seq<char>),
    Run(Seq<char>, Seq<Seq<char>>),
}

impl Subcommands {
    pub open spec fn view(&self) -> SCommand {
        match self {
            Subcommands::New { name } => SCommand::New(name@),
            Subcommands::Run { name, args } => SCommand::Run(name@, strings_view(args@)),
        }
    }
}

/// What the argument parser found: how often `-v` was given, and the
/// positional arguments of the `new` or `run` subcommand when it was
/// given.
#[derive(Debug, Clone)]
pub struct CliMatches {
    pub verbose: usize,
    pub new_positionals: Option<Vec<String>>,
    pub run_positionals: Option<Vec<String>>,
}

/// The first positional argument, empty when there is none.
pub open spec fn first_or_empty(p: Seq<Seq<char>>) -> Seq<char> {
    if p.len() > 0 {
        p[0]
    } else {
        Seq::empty()
    }
}

/// The positional arguments after the first.
pub open spec fn rest_of(p: Seq<Seq<char>>) -> Seq<Seq<char>> {
    if p.len() > 1 {
        p.skip(1)
    } else {
        Seq::empty()
    }
}

/// An argument that is not an option: it does not start with `-`.
pub open spec fn is_bare(a: Seq<char>) -> bool {
    a.len() == 0 || a[0] != '-'
}

/// The index of the first bare argument.
pub open spec fn first_bare(argv: Seq<Seq<char>>) -> Option<int> {
    if exists|i: int| 0 <= i < argv.len() && is_bare(#[trigger] argv[i]) {
        Some(choose|i: int| 0 <= i < argv.len() && is_bare(argv[i]) && forall|j: int| 0 <= j < i ==> !is_bare(#[trigger] argv[j]))
    } else {
        None
    }
}

/// The command the command line asks for. `new` and `run` take their name
/// from their first positional argument; `run` passes on the rest. Without
/// either, the first bare argument names a workflow to run with the
/// arguments after it, provided that its file exists (`workflow_exists`).
pub open spec fn command_model(new_p: Option<Seq<Seq<char>>>, run_p: Option<Seq<Seq<char>>>, argv: Seq<Seq<char>>, workflow_exists: bool) -> Option<SCommand> {
    match new_p {
        Some(p) => Some(SCommand::New(first_or_empty(p))),
        None => match run_p {
            Some(p) => Some(SCommand::Run(first_or_empty(p), rest_of(p))),
            None => match first_bare(argv) {
                Some(i) => if workflow_exists {
                    Some(SCommand::Run(argv[i], rest_of(argv.skip(i))))
                } else {
                    None
                },
                None => None,
            },
        },
    }
}

proof fn lemma_first_bare(argv: Seq<Seq<char>>, i: int)
    requires
        0 <= i < argv.len(),
        is_bare(argv[i]),
        forall|j: int| 0 <= j < i ==> !is_bare(#[trigger] argv[j]),
    ensures
        first_bare(argv) == Some(i),
{
    assert(is_bare(argv[i]));
    let w = choose|k: int| 0 <= k < argv.len() && is_bare(argv[k]) && forall|j: int| 0 <= j < k ==> !is_bare(#[trigger] argv[j]);
    assert(0 <= w < argv.len() && is_bare(argv[w]) && forall|j: int| 0 <= j < w ==> !is_bare(#[trigger] argv[j]));
    if w < i {
        assert(!is_bare(argv[w]));
    } else if w > i {
        assert(!is_bare(argv[i]));
    }
}

fn bare(a: &String) -> (r: bool)
    ensures
        r == is_bare(a@),
{
    let chars = chars_of(a.as_str());
    chars.len() == 0 || chars[0] != '-'
}

/// The index of the first argument that does not start with `-`.
pub fn bare_workflow_index(argv: &Vec<String>) -> (r: Option<usize>)
    ensures
        match r {
            Some(i) => i < argv@.len() && first_bare(strings_view(argv@)) == Some(i as int),
            None => first_bare(strings_view(argv@)) is None,
        },
{
    let ghost a = strings_view(argv@);
    let mut i: usize = 0;
    while i < argv.len()
        invariant
            i <= argv@.len(),
            a == strings_view(argv@),
            forall|j: int| 0 <= j < i ==> !is_bare(#[trigger] a[j]),
        decreases argv@.len() - i,
    {
        if !bare(&argv[i]) {
            i = i + 1;
        } else {
            proof {
                lemma_first_bare(a, i as int);
            }
            return Some(i);
        }
    }
    None
}

fn copy_from(p: &Vec<String>, k: usize) -> (r: Vec<String>)
    requires
        k <= p@.len(),
    ensures
        strings_view(r@) == strings_view(p@).skip(k as int),
{
    let mut out: Vec<String> = Vec::new();
    let mut i = k;
    while i < p.len()
        invariant
            k <= i <= p@.len(),
            strings_view(out@) == strings_view(p@).subrange(k as int, i as int),
        decreases p@.len() - i,
    {
        let ghost before = out@;
        out.push(copy_string(&p[i]));
        proof {
            assert(strings_view(out@) =~= strings_view(before).push(p@[i as int]@));
            assert(strings_view(p@).subrange(k as int, i + 1) =~= strings_view(p@).subrange(k as int, i as int).push(p@[i as int]@));
        }
        i = i + 1;
    }
    assert(strings_view(p@).subrange(k as int, i as int) =~= strings_view(p@).skip(k as int));
    out
}

fn first_or_default(p: &Vec<String>) -> (r: String)
    ensures
        r@ == first_or_empty(strings_view(p@)),
{
    if p.len() > 0 {
        copy_string(&p[0])
    } else {
        String::new()
    }
}

fn rest(p: &Vec<String>) -> (r: Vec<String>)
    ensures
        strings_view(r@) == rest_of(strings_view(p@)),
{
    if p.len() > 1 {
        copy_from(p, 1)
    } else {
        let empty: Vec<String> = Vec::new();
        assert(strings_view(empty@) =~= Seq::<Seq<char>>::empty());
        empty
    }
}

/// The command and the settings that the command line asks for.
/// `workflow_exists` tells whether the file of the workflow named by the
/// first bare argument of `argv` (see `bare_workflow_index`) exists; it
/// matters only when neither `new` nor `run` was given.
pub fn to_config(m: &CliMatches, argv: &Vec<String>, workflow_exists: bool) -> (r: (Option<Subcommands>, Config))
    ensures
        r.1.verbose == m.verbose as u8,
        match r.0 {
            Some(c) => command_model(
                match m.new_positionals {
                    Some(p) => Some(strings_view(p@)),
                    None => None,
                },
                match m.run_positionals {
                    Some(p) => Some(strings_view(p@)),
                    None => None,
                },
                strings_view(argv@),
                workflow_exists,
            ) == Some(c@),
            None => command_model(
                match m.new_positionals {
                    Some(p) => Some(strings_view(p@)),
                    None => None,
                },
                match m.run_positionals {
                    Some(p) => Some(strings_view(p@)),
                    None => None,
                },
                strings_view(argv@),
                workflow_exists,
            ) is None,
        },
{
    let config = Config { verbose: m.verbose as u8 };
    if let Some(p) = &m.new_positionals {
        let name = first_or_default(p);
        return (Some(Subcommands::New { name }), config);
    }
    if let Some(p) = &m.run_positionals {
        let name = first_or_default(p);
        let args = rest(p);
        return (Some(Subcommands::Run { name, args }), config);
    }
    match bare_workflow_index(argv) {
        Some(index) => {
            if workflow_exists {
                let tail = copy_from(argv, index);
                let args = rest(&tail);
                proof {
                    assert(strings_view(tail@)[0] == strings_view(argv@).skip(index as int)[0]);
                }
                return (Some(Subcommands::Run { name: copy_string(&argv[index]), args }), config);
            }
        },
        None => {},
    }
    (None, config)
}

/// `run` passes on every positional argument after the name: the name
/// followed by the arguments gives back the positionals. A bare workflow
/// name runs with every argument after it in the same way.
pub proof fn law_run_passes_every_argument(p: Seq<Seq<char>>, argv: Seq<Seq<char>>, workflow_exists: bool)
    ensures
        p.len() > 0 ==> (command_model(None, Some(p), argv, workflow_exists) matches Some(SCommand::Run(n, a))
            && seq![n] + a == p),
        p.len() == 0 ==> command_model(None, Some(p), argv, workflow_exists) == Some(
            SCommand::Run(Seq::empty(), Seq::empty()),
        ),
        first_bare(argv) is Some && 0 <= first_bare(argv)->Some_0 < argv.len() && workflow_exists ==> (
        command_model(None, None, argv, workflow_exists) matches Some(SCommand::Run(n, a)) && seq![n] + a
            == argv.skip(first_bare(argv)->Some_0)),
{
    if p.len() > 1 {
        assert(seq![p[0]] + p.skip(1) =~= p);
    } else if p.len() == 1 {
        assert(seq![p[0]] + Seq::<Seq<char>>::empty() =~= p);
    }
    if let Some(i) = first_bare(argv) {
        if 0 <= i < argv.len() {
            let q = argv.skip(i);
            if q.len() > 1 {
                assert(seq![q[0]] + q.skip(1) =~= q);
            } else {
                assert(seq![q[0]] + Seq::<Seq<char>>::empty() =~= q);
            }
        }
    }
}

} // verus!
