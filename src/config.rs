use vstd::prelude::*;

verus! {

/// Which of the two gradient frequencies a flag sets.
#[derive(Debug, Clone, Copy, PartialEq, Eq, Structural)]
pub enum Axis {
    /// Along columns: `-h`, `--horizontal-frequency`.
    Horizontal,
    /// Along rows: `-v`, `--vertical-frequency`.
    Vertical,
}

/// One frequency flag as given: its axis and the argument after it, if any.
/// The caller parses the value; one that is absent or does not parse leaves
/// the frequency as it was (a deliberate leniency, not an oversight).
#[derive(Debug)]
pub struct FrequencyArg {
    pub axis: Axis,
    pub value: Option<String>,
}

/// The axis that the flag `a` names, if it is one.
pub open spec fn flag_axis(a: Seq<char>) -> Option<Axis> {
    if a == "-h"@ || a == "--horizontal-frequency"@ {
        Some(Axis::Horizontal)
    } else if a == "-v"@ || a == "--vertical-frequency"@ {
        Some(Axis::Vertical)
    } else {
        None
    }
}

pub open spec fn unknown_argument(a: Seq<char>) -> Seq<char> {
    "Unknown argument: "@ + a
}

/// The flags of `args` from index `i` on, each with the view of its value, or
/// the message for the first argument that is no flag.
pub open spec fn flags_from(args: Seq<String>, i: int) -> Result<
    Seq<(Axis, Option<Seq<char>>)>,
    Seq<char>,
>
    decreases args.len() - i,
{
    if i < 0 || i >= args.len() {
        Ok(Seq::empty())
    } else {
        match flag_axis(args[i]@) {
            Some(axis) => if i + 1 < args.len() {
                match flags_from(args, i + 2) {
                    Ok(rest) => Ok(seq![(axis, Some(args[i + 1]@))] + rest),
                    Err(e) => Err(e),
                }
            } else {
                Ok(seq![(axis, None)])
            },
            None => Err(unknown_argument(args[i]@)),
        }
    }
}

/// The view of one scanned flag.
pub open spec fn arg_view(a: FrequencyArg) -> (Axis, Option<Seq<char>>) {
    (
        a.axis,
        match a.value {
            Some(s) => Some(s@),
            None => None,
        },
    )
}

pub open spec fn prepend(
    done: Seq<(Axis, Option<Seq<char>>)>,
    rest: Result<Seq<(Axis, Option<Seq<char>>)>, Seq<char>>,
) -> Result<Seq<(Axis, Option<Seq<char>>)>, Seq<char>> {
    match rest {
        Ok(v) => Ok(done + v),
        Err(e) => Err(e),
    }
}

fn axis_of(a: &String) -> (r: Option<Axis>)
    ensures
        r == flag_axis(a@),
{
    if *a == String::from_str("-h") || *a == String::from_str("--horizontal-frequency") {
        Some(Axis::Horizontal)
    } else if *a == String::from_str("-v") || *a == String::from_str("--vertical-frequency") {
        Some(Axis::Vertical)
    } else {
        None
    }
}

/// Scans the command line `args` (the program name first) for frequency
/// flags, in order. Any other argument is an error that names it.
pub fn frequency_args(args: &Vec<String>) -> (r: Result<Vec<FrequencyArg>, String>)
    ensures
        match (r, flags_from(args@, 1)) {
            (Ok(v), Ok(w)) => v@.map_values(|a: FrequencyArg| arg_view(a)) == w,
            (Err(e), Err(m)) => e@ == m,
            _ => false,
        },
{
    let mut out: Vec<FrequencyArg> = Vec::new();
    let mut i: usize = 1;
    while i < args.len()
        invariant
            1 <= i,
            flags_from(args@, 1) == prepend(
                out@.map_values(|a: FrequencyArg| arg_view(a)),
                flags_from(args@, i as int),
            ),
        decreases args@.len() - i,
    {
        let ghost before = out@.map_values(|a: FrequencyArg| arg_view(a));
        match axis_of(&args[i]) {
            Some(axis) => {
                let value = if i + 1 < args.len() {
                    Some(args[i + 1].clone())
                } else {
                    None
                };
                out.push(FrequencyArg { axis, value });
                assert(out@.map_values(|a: FrequencyArg| arg_view(a)) =~= before + seq![
                    arg_view(out@.last()),
                ]);
                let ghost x = arg_view(out@.last());
                proof {
                    match flags_from(args@, i + 2) {
                        Ok(rest) => {
                            assert(before + seq![x] + rest =~= before + (seq![x] + rest));
                        },
                        Err(_) => {},
                    }
                    if i + 1 >= args.len() {
                        assert(before + seq![x] =~= before + seq![x] + Seq::empty());
                    }
                }
                i = if i + 1 < args.len() {
                    i + 2
                } else {
                    args.len()
                };
            },
            None => {
                let msg = String::from_str("Unknown argument: ").concat(args[i].as_str());
                return Err(msg);
            },
        }
    }
    assert(out@.map_values(|a: FrequencyArg| arg_view(a)) + Seq::empty() =~= out@.map_values(
        |a: FrequencyArg| arg_view(a),
    ));
    Ok(out)
}

} // verus!
