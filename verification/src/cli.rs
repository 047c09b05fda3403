//! The command line: no argument opens the window; otherwise the arguments
//! name the files to convert, with `-t`/`--tolerance` and `-o`/`--output`.
use crate::text::{chars_of, string_from};
use vstd::prelude::*;

verus! {

/// The options and files of a conversion run.
pub struct CliArgs {
    /// The text given to the last `-t`, if any; read as a number by the caller.
    pub tolerance: Option<String>,
    /// The path given to the last `-o`, if any.
    pub output: Option<String>,
    pub inputs: Vec<String>,
}

pub enum CliCommand {
    /// No argument: open the window.
    Gui,
    Convert(CliArgs),
}

pub struct SpecCli {
    pub tolerance: Option<Seq<char>>,
    pub output: Option<Seq<char>>,
    pub inputs: Seq<Seq<char>>,
}

impl DeepView for CliArgs {
    type V = SpecCli;

    open spec fn deep_view(&self) -> SpecCli {
        SpecCli {
            tolerance: self.tolerance.deep_view(),
            output: self.output.deep_view(),
            inputs: self.inputs.deep_view(),
        }
    }
}

/// The arguments from `i` on, read onto `st`: `-t`/`--tolerance` and
/// `-o`/`--output` take the next argument as their value (missing: error);
/// any other argument starting with `-` is an unknown option (error); the
/// rest are input files.
pub open spec fn cli_scan(args: Seq<Seq<char>>, i: int, st: SpecCli) -> Result<SpecCli, Seq<char>>
    decreases args.len() - i,
{
    if i < 0 || i >= args.len() {
        Ok(st)
    } else {
        let a = args[i];
        if a == "-t"@ || a == "--tolerance"@ {
            if i + 1 >= args.len() {
                Err("Brak wartosci dla -t"@)
            } else {
                cli_scan(args, i + 2, SpecCli { tolerance: Some(args[i + 1]), ..st })
            }
        } else if a == "-o"@ || a == "--output"@ {
            if i + 1 >= args.len() {
                Err("Brak sciezki dla -o"@)
            } else {
                cli_scan(args, i + 2, SpecCli { output: Some(args[i + 1]), ..st })
            }
        } else if a.len() > 0 && a[0] == '-' {
            Err("Nieznana opcja: "@ + a)
        } else {
            cli_scan(args, i + 1, SpecCli { inputs: st.inputs.push(a), ..st })
        }
    }
}

/// What the command line asks for: `Ok(None)` to open the window, `Ok(Some)`
/// to convert, or the error message. A run needs at least one input, and
/// `-o` only goes with a single input.
pub open spec fn cli_command(args: Seq<Seq<char>>) -> Result<Option<SpecCli>, Seq<char>> {
    if args.len() == 0 {
        Ok(None)
    } else {
        match cli_scan(args, 0, SpecCli { tolerance: None, output: None, inputs: seq![] }) {
            Err(e) => Err(e),
            Ok(st) => if st.inputs.len() == 0 {
                Err("Podaj plik DXF/SVG lub uruchom bez argumentow (GUI)."@)
            } else if st.output is Some && st.inputs.len() > 1 {
                Err("-o tylko dla jednego pliku."@)
            } else {
                Ok(Some(st))
            },
        }
    }
}

/// Whether `s` is exactly `lit`.
fn str_is(s: &String, lit: &str) -> (r: bool)
    ensures
        r == (s@ == lit@),
{
    let l = string_from(lit);
    *s == l
}

/// Whether `s` starts with `-`.
fn is_option(s: &String) -> (r: bool)
    ensures
        r == (s@.len() > 0 && s@[0] == '-'),
{
    let cs = chars_of(s.as_str());
    cs.len() > 0 && cs[0] == '-'
}

/// Reads the arguments (without the program name).
pub fn parse_cli(args: &Vec<String>) -> (r: Result<CliCommand, String>)
    ensures
        match cli_command(args.deep_view()) {
            Ok(None) => r matches Ok(CliCommand::Gui),
            Ok(Some(st)) => r matches Ok(CliCommand::Convert(c)) && c.deep_view() == st,
            Err(e) => r matches Err(m) && m@ == e,
        },
{
    let ghost a = args.deep_view();
    if args.len() == 0 {
        return Ok(CliCommand::Gui);
    }
    let mut tolerance: Option<String> = None;
    let mut output: Option<String> = None;
    let mut inputs: Vec<String> = Vec::new();
    let ghost target = cli_scan(a, 0, SpecCli { tolerance: None, output: None, inputs: seq![] });
    assert(inputs.deep_view() =~= Seq::<Seq<char>>::empty());
    let mut i: usize = 0;
    while i < args.len()
        invariant
            a == args.deep_view(),
            a.len() > 0,
            target == cli_scan(a, 0, SpecCli { tolerance: None, output: None, inputs: seq![] }),
            i <= args.len(),
            cli_scan(
                a,
                i as int,
                SpecCli {
                    tolerance: tolerance.deep_view(),
                    output: output.deep_view(),
                    inputs: inputs.deep_view(),
                },
            ) == target,
        decreases args.len() - i,
    {
        let arg = &args[i];
        if str_is(arg, "-t") || str_is(arg, "--tolerance") {
            if i + 1 >= args.len() {
                return Err(string_from("Brak wartosci dla -t"));
            }
            tolerance = Some(args[i + 1].clone());
            i += 2;
        } else if str_is(arg, "-o") || str_is(arg, "--output") {
            if i + 1 >= args.len() {
                return Err(string_from("Brak sciezki dla -o"));
            }
            output = Some(args[i + 1].clone());
            i += 2;
        } else if is_option(arg) {
            let mut m = string_from("Nieznana opcja: ");
            crate::text::push_str(&mut m, arg.as_str());
            return Err(m);
        } else {
            let ghost before = inputs.deep_view();
            inputs.push(arg.clone());
            assert(inputs.deep_view() =~= before.push(arg@));
            i += 1;
        }
    }
    if inputs.len() == 0 {
        return Err(string_from("Podaj plik DXF/SVG lub uruchom bez argumentow (GUI)."));
    }
    if output.is_some() && inputs.len() > 1 {
        return Err(string_from("-o tylko dla jednego pliku."));
    }
    Ok(CliCommand::Convert(CliArgs { tolerance, output, inputs }))
}

/// The output path for the input at `index` of a run: the `-o` path names
/// the output of the first input only; the others get a timestamped name.
pub fn output_for_input(index: usize, output: &Option<String>) -> (r: Option<String>)
    ensures
        index == 0 ==> r.deep_view() == output.deep_view(),
        index != 0 ==> r is None,
{
    match output {
        Some(o) => {
            if index == 0 {
                Some(o.clone())
            } else {
                None
            }
        },
        None => None,
    }
}

/// A run fails when any of its inputs failed to convert.
pub fn run_failed(failures: usize) -> (r: bool)
    ensures
        r == (failures > 0),
{
    failures > 0
}

/// `a` does not start with `-`.
pub open spec fn is_plain_argument(a: Seq<char>) -> bool {
    a.len() == 0 || a[0] != '-'
}

pub proof fn lemma_scan_plain_arguments(args: Seq<Seq<char>>, i: int, st: SpecCli)
    requires
        0 <= i <= args.len(),
        forall|k: int| i <= k < args.len() ==> is_plain_argument(#[trigger] args[k]),
    ensures
        cli_scan(args, i, st) == Ok::<SpecCli, Seq<char>>(
            SpecCli { inputs: st.inputs + args.skip(i), ..st },
        ),
    decreases args.len() - i,
{
    reveal_strlit("-t");
    reveal_strlit("--tolerance");
    reveal_strlit("-o");
    reveal_strlit("--output");
    if i < args.len() {
        let a = args[i];
        assert(is_plain_argument(a));
        assert(a != "-t"@ && a != "--tolerance"@ && a != "-o"@ && a != "--output"@) by {
            if a.len() > 0 {
                assert("-t"@[0] == '-');
                assert("--tolerance"@[0] == '-');
                assert("-o"@[0] == '-');
                assert("--output"@[0] == '-');
            }
        }
        let st2 = SpecCli { inputs: st.inputs.push(a), ..st };
        lemma_scan_plain_arguments(args, i + 1, st2);
        assert(st.inputs.push(a) + args.skip(i + 1) =~= st.inputs + args.skip(i));
    } else {
        assert(st.inputs + args.skip(i) =~= st.inputs);
    }
}

/// Arguments none of which starts with `-` are all input files, in order,
/// with no tolerance and no output given; a hyphen inside a file name (as in
/// `panel-nr10.dxf`) makes no difference.
pub proof fn lemma_plain_arguments_are_inputs(args: Seq<Seq<char>>)
    requires
        args.len() > 0,
        forall|k: int| 0 <= k < args.len() ==> is_plain_argument(#[trigger] args[k]),
    ensures
        cli_command(args) == Ok::<Option<SpecCli>, Seq<char>>(
            Some(SpecCli { tolerance: None, output: None, inputs: args }),
        ),
{
    let st = SpecCli { tolerance: None, output: None, inputs: seq![] };
    lemma_scan_plain_arguments(args, 0, st);
    assert(st.inputs + args.skip(0) =~= args);
}

/// An argument that starts with `-` and is none of `-t`, `--tolerance`, `-o`,
/// `--output` is refused as an unknown option, whatever follows it.
pub proof fn lemma_unknown_option(args: Seq<Seq<char>>)
    requires
        args.len() > 0,
        args[0].len() > 0,
        args[0][0] == '-',
        args[0] != "-t"@ && args[0] != "--tolerance"@ && args[0] != "-o"@ && args[0] != "--output"@,
    ensures
        cli_command(args) == Err::<Option<SpecCli>, Seq<char>>("Nieznana opcja: "@ + args[0]),
{
}

} // verus!
