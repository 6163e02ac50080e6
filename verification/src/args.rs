//! Arguments of the converter from RAM dumps to bytrace text.

use vstd::prelude::*;

use crate::text;
use crate::text::parse_u64;

verus! {

/// What the converter is asked to do.
#[derive(Debug)]
pub struct Args {
    /// Path of the RAM dump.
    pub ram: String,
    /// Path of the text to write.
    pub out: String,
    /// Physical address of the first byte of the dump.
    pub ram_base: u64,
    /// Physical address of the trace image.
    pub trace_base: u64,
}

/// Why arguments are refused.
#[derive(Debug)]
pub enum ArgsError {
    /// An argument is none of the options.
    UnknownArgument(String),
    /// No path of a RAM dump is given.
    MissingRam,
    /// No path to write to is given.
    MissingOut,
    /// No address of the dump is given, or it is not a number.
    MissingRamBase,
    /// No address of the image is given, or it is not a number.
    MissingTraceBase,
}

/// The value that was last given for each option, if any.
pub ghost struct Given {
    /// Value of `--ram`.
    pub ram: Option<Seq<char>>,
    /// Value of `--out`.
    pub out: Option<Seq<char>>,
    /// Value of `--ram-base`, if it is a number.
    pub ram_base: Option<u64>,
    /// Value of `--trace-base`, if it is a number.
    pub trace_base: Option<u64>,
}

/// The number that an argument spells, if there is one and it fits.
pub open spec fn number_given(value: Option<Seq<char>>) -> Option<u64> {
    match value {
        None => None,
        Some(value) => match text::number_value(value) {
            Some(number) => if number <= u64::MAX {
                Some(number as u64)
            } else {
                None
            },
            None => None,
        },
    }
}

/// What the arguments give for each option beyond what `before` holds, or the
/// first argument that is no option. An option takes the argument behind it as
/// its value, whatever that is.
pub open spec fn given(args: Seq<Seq<char>>, before: Given) -> Result<Given, Seq<char>>
    decreases args.len(),
{
    if args.len() == 0 {
        Ok(before)
    } else {
        let value = if args.len() >= 2 {
            Some(args[1])
        } else {
            None
        };
        let rest = if args.len() >= 2 {
            args.skip(2)
        } else {
            Seq::empty()
        };
        if args[0] == "--ram"@ {
            given(rest, Given { ram: value, ..before })
        } else if args[0] == "--out"@ {
            given(rest, Given { out: value, ..before })
        } else if args[0] == "--ram-base"@ {
            given(rest, Given { ram_base: number_given(value), ..before })
        } else if args[0] == "--trace-base"@ {
            given(rest, Given { trace_base: number_given(value), ..before })
        } else {
            Err(args[0])
        }
    }
}

/// Nothing is given.
pub open spec fn nothing() -> Given {
    Given { ram: None, out: None, ram_base: None, trace_base: None }
}

/// The characters of each argument.
pub open spec fn arg_views(args: Seq<String>) -> Seq<Seq<char>> {
    Seq::new(args.len(), |i: int| args[i]@)
}

/// The characters of an argument, if there is one.
spec fn view_of(value: Option<String>) -> Option<Seq<char>> {
    match value {
        Some(value) => Some(value@),
        None => None,
    }
}

/// Reports whether an argument is the given option.
fn is_option(arg: &String, option: &str) -> (yes: bool)
    ensures
        yes == (arg@ == option@),
{
    *arg == option.to_owned()
}

/// The number that an argument spells.
fn number_in(value: Option<String>) -> (number: Option<u64>)
    ensures
        number == number_given(view_of(value)),
{
    match value {
        Some(value) => parse_u64(value.as_str()),
        None => None,
    }
}

/// Reads the arguments of the converter, without the program name.
///
/// # Returns
///
/// Returns [`ArgsError::UnknownArgument`] for the first argument that is not
/// `--ram`, `--out`, `--ram-base` or `--trace-base` and not the value of one of
/// these. Otherwise returns an error for the first of these, in this order, that
/// has no value. The value that is given last counts.
pub fn parse_args(args: &Vec<String>) -> (result: Result<Args, ArgsError>)
    ensures
        match given(arg_views(args@), nothing()) {
            Err(arg) => result matches Err(ArgsError::UnknownArgument(found)) && found@ == arg,
            Ok(given) => if given.ram is None {
                result matches Err(ArgsError::MissingRam)
            } else if given.out is None {
                result matches Err(ArgsError::MissingOut)
            } else if given.ram_base is None {
                result matches Err(ArgsError::MissingRamBase)
            } else if given.trace_base is None {
                result matches Err(ArgsError::MissingTraceBase)
            } else {
                result matches Ok(args) && {
                    &&& Some(args.ram@) == given.ram
                    &&& Some(args.out@) == given.out
                    &&& Some(args.ram_base) == given.ram_base
                    &&& Some(args.trace_base) == given.trace_base
                }
            },
        },
{
    let ghost all = arg_views(args@);
    let mut ram: Option<String> = None;
    let mut out: Option<String> = None;
    let mut ram_base: Option<u64> = None;
    let mut trace_base: Option<u64> = None;
    let count: usize = args.len();
    let mut i: usize = 0;
    assert(all.skip(0) =~= all);
    while i < count
        invariant
            i <= count == args@.len(),
            all == arg_views(args@),
            given(all, nothing()) == given(
                all.skip(i as int),
                Given { ram: view_of(ram), out: view_of(out), ram_base, trace_base },
            ),
        decreases count - i,
    {
        let arg = &args[i];
        let value: Option<String> = if count - i >= 2 {
            Some(args[i + 1].clone())
        } else {
            None
        };
        proof {
            if count - i >= 2 {
                assert(all.skip(i as int).skip(2) =~= all.skip(i + 2));
            } else {
                assert(all.skip(count as int) =~= Seq::<Seq<char>>::empty());
            }
        }
        if is_option(arg, "--ram") {
            ram = value;
        } else if is_option(arg, "--out") {
            out = value;
        } else if is_option(arg, "--ram-base") {
            ram_base = number_in(value);
        } else if is_option(arg, "--trace-base") {
            trace_base = number_in(value);
        } else {
            return Err(ArgsError::UnknownArgument(arg.clone()));
        }
        i = if count - i >= 2 {
            i + 2
        } else {
            count
        };
    }
    let ram = match ram {
        Some(ram) => ram,
        None => {
            return Err(ArgsError::MissingRam);
        },
    };
    let out = match out {
        Some(out) => out,
        None => {
            return Err(ArgsError::MissingOut);
        },
    };
    let ram_base: u64 = match ram_base {
        Some(ram_base) => ram_base,
        None => {
            return Err(ArgsError::MissingRamBase);
        },
    };
    let trace_base: u64 = match trace_base {
        Some(trace_base) => trace_base,
        None => {
            return Err(ArgsError::MissingTraceBase);
        },
    };
    Ok(Args { ram, out, ram_base, trace_base })
}

/// The argument is one of the four options.
pub open spec fn is_known(arg: Seq<char>) -> bool {
    arg == "--ram"@ || arg == "--out"@ || arg == "--ram-base"@ || arg == "--trace-base"@
}

/// The option stands at `j`, where options stand, and not behind it.
pub open spec fn option_last(args: Seq<Seq<char>>, option: Seq<char>, j: int) -> bool {
    &&& 0 <= j < args.len()
    &&& j % 2 == 0
    &&& args[j] == option
    &&& forall|k: int| j < k < args.len() && k % 2 == 0 ==> #[trigger] args[k] != option
}

/// The option stands nowhere where options stand.
pub open spec fn option_absent(args: Seq<Seq<char>>, option: Seq<char>) -> bool {
    forall|k: int| 0 <= k < args.len() && k % 2 == 0 ==> #[trigger] args[k] != option
}

/// The argument behind `j`, if there is one.
pub open spec fn value_behind(args: Seq<Seq<char>>, j: int) -> Option<Seq<char>> {
    if j + 1 < args.len() {
        Some(args[j + 1])
    } else {
        None
    }
}

/// The number that the argument behind `j` spells, if there is one and it fits into
/// 64 bits.
pub open spec fn number_behind(args: Seq<Seq<char>>, j: int) -> Option<u64> {
    if j + 1 < args.len() && text::number_value(args[j + 1]) is Some && text::number_value(
        args[j + 1],
    )->0 < 0x1_0000_0000_0000_0000 {
        Some(text::number_value(args[j + 1])->0 as u64)
    } else {
        None
    }
}

/// Where an option stands last, seen from behind the first two arguments.
proof fn lemma_option_shift(args: Seq<Seq<char>>, option: Seq<char>)
    requires
        args.len() >= 2,
    ensures
        option_absent(args, option) ==> option_absent(args.skip(2), option),
        option_last(args, option, 0) ==> option_absent(args.skip(2), option),
        forall|j: int|
            j != 0 && #[trigger] option_last(args, option, j) ==> {
                &&& option_last(args.skip(2), option, j - 2)
                &&& value_behind(args.skip(2), j - 2) == value_behind(args, j)
                &&& number_behind(args.skip(2), j - 2) == number_behind(args, j)
            },
{
    let rest = args.skip(2);
    if option_absent(args, option) || option_last(args, option, 0) {
        assert forall|k: int| 0 <= k < rest.len() && k % 2 == 0 implies #[trigger] rest[k]
            != option by {
            assert(args[k + 2] != option);
        }
    }
    assert forall|j: int| j != 0 && #[trigger] option_last(args, option, j) implies {
        &&& option_last(rest, option, j - 2)
        &&& value_behind(rest, j - 2) == value_behind(args, j)
        &&& number_behind(rest, j - 2) == number_behind(args, j)
    } by {
        assert forall|k: int| j - 2 < k < rest.len() && k % 2 == 0 implies #[trigger] rest[k]
            != option by {
            assert(args[k + 2] != option);
        }
    }
}

/// The options are different texts.
proof fn lemma_options_differ()
    ensures
        "--ram"@ != "--out"@,
        "--ram"@ != "--ram-base"@,
        "--ram"@ != "--trace-base"@,
        "--out"@ != "--ram-base"@,
        "--out"@ != "--trace-base"@,
        "--ram-base"@ != "--trace-base"@,
{
    reveal_strlit("--ram");
    reveal_strlit("--out");
    reveal_strlit("--ram-base");
    reveal_strlit("--trace-base");
    assert("--ram"@[2] != "--out"@[2]);
    assert("--ram"@.len() != "--ram-base"@.len());
    assert("--ram"@.len() != "--trace-base"@.len());
    assert("--out"@.len() != "--ram-base"@.len());
    assert("--out"@.len() != "--trace-base"@.len());
    assert("--ram-base"@.len() != "--trace-base"@.len());
}

/// What options give beyond what was given before them.
proof fn lemma_given(args: Seq<Seq<char>>, before: Given)
    requires
        forall|k: int| 0 <= k < args.len() && k % 2 == 0 ==> is_known(#[trigger] args[k]),
    ensures
        given(args, before) is Ok,
        ({
            let g = given(args, before)->Ok_0;
            &&& option_absent(args, "--ram"@) ==> g.ram == before.ram
            &&& forall|j: int| #[trigger] option_last(args, "--ram"@, j) ==> g.ram == value_behind(args, j)
            &&& option_absent(args, "--out"@) ==> g.out == before.out
            &&& forall|j: int| #[trigger] option_last(args, "--out"@, j) ==> g.out == value_behind(args, j)
            &&& option_absent(args, "--ram-base"@) ==> g.ram_base == before.ram_base
            &&& forall|j: int| #[trigger] option_last(args, "--ram-base"@, j) ==> g.ram_base == number_behind(args, j)
            &&& option_absent(args, "--trace-base"@) ==> g.trace_base == before.trace_base
            &&& forall|j: int| #[trigger] option_last(args, "--trace-base"@, j) ==> g.trace_base == number_behind(args, j)
        }),
    decreases args.len(),
{
    if args.len() > 0 {
        lemma_options_differ();
        assert(is_known(args[0]));
        let value = value_behind(args, 0);
        let rest = if args.len() >= 2 {
            args.skip(2)
        } else {
            Seq::empty()
        };
        let next = if args[0] == "--ram"@ {
            Given { ram: value, ..before }
        } else if args[0] == "--out"@ {
            Given { out: value, ..before }
        } else if args[0] == "--ram-base"@ {
            Given { ram_base: number_given(value), ..before }
        } else {
            Given { trace_base: number_given(value), ..before }
        };
        assert forall|k: int| 0 <= k < rest.len() && k % 2 == 0 implies is_known(
            #[trigger] rest[k],
        ) by {
            assert(is_known(args[k + 2]));
        }
        assert(given(args, before) == given(rest, next));
        assert(number_given(value) == number_behind(args, 0));
        lemma_given(rest, next);
        if args.len() >= 2 {
            lemma_option_shift(args, "--ram"@);
            lemma_option_shift(args, "--out"@);
            lemma_option_shift(args, "--ram-base"@);
            lemma_option_shift(args, "--trace-base"@);
        }
    }
}

/// Options are read in any order, and the last value of each counts.
///
/// If every other argument, from the first on, is one of the four options, each
/// option gives the argument behind it, as a text or as a number; one that comes more
/// than once gives the argument behind the last of them. An option that does not come
/// gives nothing, and neither does one with nothing behind it.
pub proof fn law_options_are_read(args: Seq<Seq<char>>)
    requires
        forall|k: int| 0 <= k < args.len() && k % 2 == 0 ==> is_known(#[trigger] args[k]),
    ensures
        given(args, nothing()) is Ok,
        ({
            let g = given(args, nothing())->Ok_0;
            &&& option_absent(args, "--ram"@) ==> g.ram is None
            &&& forall|j: int| #[trigger] option_last(args, "--ram"@, j) ==> g.ram == value_behind(args, j)
            &&& option_absent(args, "--out"@) ==> g.out is None
            &&& forall|j: int| #[trigger] option_last(args, "--out"@, j) ==> g.out == value_behind(args, j)
            &&& option_absent(args, "--ram-base"@) ==> g.ram_base is None
            &&& forall|j: int| #[trigger] option_last(args, "--ram-base"@, j) ==> g.ram_base == number_behind(args, j)
            &&& option_absent(args, "--trace-base"@) ==> g.trace_base is None
            &&& forall|j: int| #[trigger] option_last(args, "--trace-base"@, j) ==> g.trace_base == number_behind(args, j)
        }),
{
    lemma_given(args, nothing());
}

/// The first argument that stands where an option should and is none is refused.
pub proof fn law_other_arguments_are_refused(args: Seq<Seq<char>>, before: Given, i: int)
    requires
        0 <= i < args.len(),
        i % 2 == 0,
        !is_known(args[i]),
        forall|k: int| 0 <= k < i && k % 2 == 0 ==> is_known(#[trigger] args[k]),
    ensures
        given(args, before) == Err::<Given, Seq<char>>(args[i]),
    decreases args.len(),
{
    if i > 0 {
        let rest = args.skip(2);
        let value = Some(args[1]);
        assert(is_known(args[0]));
        assert forall|k: int| 0 <= k < i - 2 && k % 2 == 0 implies is_known(
            #[trigger] rest[k],
        ) by {
            assert(is_known(args[k + 2]));
        }
        let next = if args[0] == "--ram"@ {
            Given { ram: value, ..before }
        } else if args[0] == "--out"@ {
            Given { out: value, ..before }
        } else if args[0] == "--ram-base"@ {
            Given { ram_base: number_given(value), ..before }
        } else {
            Given { trace_base: number_given(value), ..before }
        };
        law_other_arguments_are_refused(rest, next, i - 2);
        assert(given(args, before) == given(rest, next));
    }
}

} // verus!
