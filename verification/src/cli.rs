//! What the command line names: the files to read and to write.

use vstd::prelude::*;
use vstd::string::StrSliceExecFns;
use vstd::string::StringExecFns;

verus! {

/// The texts of a list of arguments.
pub open spec fn texts(args: Seq<String>) -> Seq<Seq<char>> {
    args.map_values(|s: String| s@)
}

/// An argument that names the output file in the argument behind it.
pub open spec fn is_output_flag(arg: Seq<char>) -> bool {
    arg == "-o"@ || arg == "--output"@
}

/// The input and output files named by `args`, given those named before them. The
/// first argument that is not part of an output flag is the input; of several
/// output flags the last one counts, and one with nothing behind it names none.
pub open spec fn named_files(
    args: Seq<Seq<char>>,
    input: Option<Seq<char>>,
    output: Option<Seq<char>>,
) -> (Option<Seq<char>>, Option<Seq<char>>)
    decreases args.len(),
{
    if args.len() == 0 {
        (input, output)
    } else if is_output_flag(args[0]) {
        if args.len() == 1 {
            (input, None)
        } else {
            named_files(args.skip(2), input, Some(args[1]))
        }
    } else if input is None {
        named_files(args.skip(1), Some(args[0]), output)
    } else {
        named_files(args.skip(1), input, output)
    }
}

pub open spec fn text_of(s: Option<String>) -> Option<Seq<char>> {
    match s {
        Some(s) => Some(s@),
        None => None,
    }
}

/// The input and the output file that the arguments name, as far as they do.
fn read_names(args: &[String]) -> (r: (Option<String>, Option<String>))
    ensures
        (text_of(r.0), text_of(r.1)) == named_files(texts(args@), None, None),
{
    let short: String = "-o".to_string();
    let long: String = "--output".to_string();
    let mut input: Option<String> = None;
    let mut output: Option<String> = None;
    let ghost all = texts(args@);
    let ghost goal = named_files(all, None, None);
    let n: usize = args.len();
    let mut i: usize = 0;
    assert(all.skip(0) =~= all);
    while i < n
        invariant
            i <= n == args@.len(),
            all == texts(args@),
            short@ == "-o"@,
            long@ == "--output"@,
            goal == named_files(all.skip(i as int), text_of(input), text_of(output)),
        decreases n - i,
    {
        let ghost rest = all.skip(i as int);
        assert(rest[0] == args@[i as int]@);
        if args[i] == short || args[i] == long {
            i = i + 1;
            if i < n {
                output = Some(args[i].clone());
                assert(rest[1] == args@[i as int]@);
                assert(rest.skip(2) =~= all.skip(i + 1));
                i = i + 1;
            } else {
                output = None;
                assert(all.skip(i as int) =~= Seq::empty());
            }
        } else {
            if input.is_none() {
                input = Some(args[i].clone());
            }
            assert(rest.skip(1) =~= all.skip(i + 1));
            i = i + 1;
        }
    }
    (input, output)
}

/// None of the arguments is an output flag.
pub open spec fn unflagged(args: Seq<Seq<char>>) -> bool {
    forall|i: int|
        0 <= i < args.len() ==> (#[trigger] args[i]) != "-o"@ && args[i] != "--output"@
}

/// The first of what was named before and what is named here.
pub open spec fn first_of(named: Option<Seq<char>>, args: Seq<Seq<char>>) -> Option<Seq<char>> {
    if named is Some {
        named
    } else if args.len() > 0 {
        Some(args[0])
    } else {
        None
    }
}

proof fn lemma_unflagged(
    args: Seq<Seq<char>>,
    more: Seq<Seq<char>>,
    input: Option<Seq<char>>,
    output: Option<Seq<char>>,
)
    requires
        unflagged(args),
    ensures
        named_files(args + more, input, output) == named_files(more, first_of(input, args), output),
    decreases args.len(),
{
    if args.len() == 0 {
        assert(args + more =~= more);
    } else {
        let all = args + more;
        let rest = args.skip(1);
        assert(all[0] == args[0]);
        assert(all.skip(1) =~= rest + more);
        assert forall|i: int| 0 <= i < rest.len() implies (#[trigger] rest[i]) != "-o"@ && rest[i]
            != "--output"@ by {
            assert(rest[i] == args[i + 1]);
        }
        assert(args[0] != "-o"@ && args[0] != "--output"@);
        lemma_unflagged(rest, more, first_of(input, args), output);
    }
}

/// Without an output flag the first argument is the input, and no output is named.
pub proof fn law_first_argument_is_the_input(args: Seq<Seq<char>>)
    requires
        unflagged(args),
    ensures
        named_files(args, None, None) == (first_of(None, args), None::<Seq<char>>),
{
    lemma_unflagged(args, Seq::empty(), None, None);
    assert(args + Seq::<Seq<char>>::empty() =~= args);
}

/// Wherever an output flag stands, the argument behind it is the output, and the input
/// is the first of the others.
pub proof fn law_flag_names_the_output(
    before: Seq<Seq<char>>,
    flag: Seq<char>,
    name: Seq<char>,
    after: Seq<Seq<char>>,
)
    requires
        unflagged(before),
        unflagged(after),
        flag == "-o"@ || flag == "--output"@,
    ensures
        named_files(before + (seq![flag, name] + after), None, None) == (
            first_of(None, before + after),
            Some(name),
        ),
{
    let rest = seq![flag, name] + after;
    lemma_unflagged(before, rest, None, None);
    assert(rest[0] == flag && rest[1] == name);
    assert(rest.skip(2) =~= after);
    lemma_unflagged(after, Seq::empty(), first_of(None, before), Some(name));
    assert(after + Seq::<Seq<char>>::empty() =~= after);
    if before.len() > 0 {
        assert((before + after)[0] == before[0]);
    } else {
        assert(before + after =~= after);
    }
}

/// Of several output flags the last one counts, and one with nothing behind it leaves the
/// output to its default.
pub proof fn law_last_flag_counts(
    args: Seq<Seq<char>>,
    flag: Seq<char>,
    name: Seq<char>,
    input: Option<Seq<char>>,
    output: Option<Seq<char>>,
)
    requires
        flag == "-o"@ || flag == "--output"@,
    ensures
        named_files(seq![flag], input, output) == (input, None::<Seq<char>>),
        named_files(seq![flag, name] + args, input, output) == named_files(args, input, Some(name)),
{
    assert((seq![flag, name] + args).skip(2) =~= args);
}

/// A name without the suffix gets another one.
pub proof fn law_other_names_get_a_suffix(input: Seq<char>)
    ensures
        (exists|stem: Seq<char>| input == #[trigger] (stem + ".augur"@)) || restored(input) == input
            + ".out"@,
{
    reveal_strlit(".augur");
    if input.len() >= 6 && input.skip(input.len() - 6) == ".augur"@ {
        let stem = input.take(input.len() - 6);
        assert(input =~= stem + ".augur"@);
    }
}

/// `output` is what `default_out` makes of the name `input`.
pub open spec fn made_from<F: Fn(&str) -> String>(
    default_out: F,
    input: Seq<char>,
    output: String,
) -> bool {
    exists|s: &str| s@ == input && #[trigger] default_out.ensures((s,), output)
}

/// The input and the output file. The output defaults to what `default_out` makes
/// of the input; without an input there is nothing to do.
pub fn parse_io(args: &[String], default_out: impl Fn(&str) -> String) -> (r: Option<
    (String, String),
>)
    requires
        forall|s: &str| default_out.requires((s,)),
    ensures
        match named_files(texts(args@), None, None) {
            (None, _) => r is None,
            (Some(input), Some(output)) => {
                &&& r matches Some((i, o))
                &&& i@ == input
                &&& o@ == output
            },
            (Some(input), None) => {
                &&& r matches Some((i, o))
                &&& i@ == input
                &&& made_from(default_out, input, o)
            },
        },
{
    let (input, output) = read_names(args);
    match input {
        None => None,
        Some(input) => {
            match output {
                Some(output) => Some((input, output)),
                None => {
                    let name: &str = input.as_str();
                    let output = default_out(name);
                    assert(name@ == input@);
                    assert(made_from(default_out, input@, output));
                    Some((input, output))
                },
            }
        },
    }
}

/// The name of the file that `input` is compressed to, unless another is named.
pub fn compressed_name(input: &str) -> (name: String)
    ensures
        name@ == input@ + ".augur"@,
        restored(name@) == input@,
{
    proof {
        law_names_round_trip(input@);
    }
    let mut name: String = input.to_string();
    name.append(".augur");
    name
}

/// The name of the file that a compressed file is restored to: without its
/// suffix, or with another one where it has none.
pub open spec fn restored(input: Seq<char>) -> Seq<char> {
    if input.len() >= 6 && input.skip(input.len() - 6) == ".augur"@ {
        input.take(input.len() - 6)
    } else {
        input + ".out"@
    }
}

/// The name of the file that `input` is restored to, unless another is named.
pub fn restored_name(input: &str) -> (name: String)
    ensures
        name@ == restored(input@),
{
    let suffix: String = ".augur".to_string();
    let n: usize = input.unicode_len();
    if n >= 6 {
        let end: String = input.substring_char(n - 6, n).to_string();
        assert(end@ =~= input@.skip(n - 6));
        if end == suffix {
            let name: String = input.substring_char(0, n - 6).to_string();
            assert(name@ =~= input@.take(n - 6));
            return name;
        }
    }
    let mut name: String = input.to_string();
    name.append(".out");
    name
}

/// A compressed file is restored, by default, to the name it was made from.
pub proof fn law_names_round_trip(input: Seq<char>)
    ensures
        restored(input + ".augur"@) == input,
{
    reveal_strlit(".augur");
    let c = input + ".augur"@;
    assert(c.skip(c.len() - 6) =~= ".augur"@);
    assert(c.take(c.len() - 6) =~= input);
}

} // verus!
