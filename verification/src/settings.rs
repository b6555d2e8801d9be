//! What the miner reads from its command line and its environment.
use crate::text;
use crate::text::{parse_number, same_text};
use vstd::prelude::*;
use vstd::utf8::*;

verus! {

/// Argument `i` is the worker flag, and an argument follows it.
pub open spec fn is_workers_flag(args: Seq<String>, i: int) -> bool {
    0 <= i && i + 1 < args.len() && args[i]@ == "--workers"@
}

/// Argument `i` is the first worker flag that an argument follows.
pub open spec fn is_first_workers_flag(args: Seq<String>, i: int) -> bool {
    is_workers_flag(args, i) && forall|j: int| 0 <= j < i ==> !is_workers_flag(args, j)
}

/// The worker count that an argument spells: a positive number that fits in
/// `usize`.
pub open spec fn worker_count(arg: Seq<char>) -> Option<nat> {
    match text::spelled_up_to(encode_utf8(arg), usize::MAX as nat) {
        Some(count) if count > 0 => Some(count),
        _ => None,
    }
}

/// An argument asks for as many workers as the number it spells, where that is
/// one at least and fits.
pub proof fn law_workers_are_a_positive_number(arg: Seq<char>, count: nat)
    ensures
        worker_count(arg) == Some(count) <==> text::spelled_number(encode_utf8(arg)) == Some(count)
            && 0 < count <= usize::MAX,
{
}

/// The worker flag that counts is the first one that is not the last argument.
pub proof fn law_first_flag_counts(args: Seq<String>, i: int)
    ensures
        is_first_workers_flag(args, i) <==> {
            &&& 0 <= i
            &&& i + 1 < args.len()
            &&& args[i]@ == "--workers"@
            &&& forall|j: int| 0 <= j < i ==> (#[trigger] args[j])@ != "--workers"@
        },
        (forall|j: int| !is_first_workers_flag(args, j)) <==> forall|j: int|
            0 <= j && j + 1 < args.len() ==> (#[trigger] args[j])@ != "--workers"@,
{
    if is_first_workers_flag(args, i) {
        assert forall|j: int| 0 <= j < i implies (#[trigger] args[j])@ != "--workers"@ by {
            assert(!is_workers_flag(args, j));
        }
    }
    if forall|j: int| !is_first_workers_flag(args, j) {
        assert forall|j: int| 0 <= j && j + 1 < args.len() implies (#[trigger] args[j])@
            != "--workers"@ by {
            lemma_some_flag_is_first(args, j);
        }
    }
}

/// Where there is a worker flag, one is the first.
proof fn lemma_some_flag_is_first(args: Seq<String>, i: int)
    ensures
        is_workers_flag(args, i) ==> exists|j: int| is_first_workers_flag(args, j),
    decreases i,
{
    if is_workers_flag(args, i) && !is_first_workers_flag(args, i) {
        let j = choose|j: int| 0 <= j < i && is_workers_flag(args, j);
        lemma_some_flag_is_first(args, j);
    }
}

/// The worker count that the command line asks for: that of the argument behind
/// the first `--workers`. Where it asks for none, or for one that cannot be had,
/// the count is left to the caller.
pub fn parse_workers(args: &Vec<String>) -> (workers: Option<usize>)
    ensures
        forall|i: int| #[trigger]
            is_first_workers_flag(args@, i) ==> match worker_count(args@[i + 1]@) {
                Some(count) => workers matches Some(asked) && asked == count,
                None => workers is None,
            },
        (forall|i: int| !is_first_workers_flag(args@, i)) ==> workers is None,
        workers matches Some(asked) ==> asked > 0,
{
    let len: usize = args.len();
    let mut at: usize = 0;
    while at < len && len - at > 1
        invariant
            at <= len,
            len == args@.len(),
            forall|j: int| 0 <= j < at ==> !is_workers_flag(args@, j),
        decreases len - at,
    {
        if same_text(args[at].as_str(), "--workers") {
            assert(is_first_workers_flag(args@, at as int));
            assert forall|i: int| #[trigger] is_first_workers_flag(args@, i) implies i == at by {
                if i < at {
                    assert(!is_workers_flag(args@, i));
                } else if i > at {
                    assert(!is_workers_flag(args@, at as int));
                }
            }
            return match parse_number(args[at + 1].as_str(), usize::MAX as u64) {
                Some(count) => if count > 0 {
                    Some(count as usize)
                } else {
                    None
                },
                None => None,
            };
        }
        at = at + 1;
    }
    None
}

/// How many workers there are where the command line does not say: as many as
/// can run at once, or one where that is not known.
pub open spec fn usual_workers(available: Option<usize>) -> usize {
    match available {
        Some(count) => count,
        None => 1,
    }
}

/// Where nothing is asked for there are as many workers as can run at once, and
/// one where that is not known.
pub proof fn law_usual_workers_are_all_or_one(count: usize)
    ensures
        usual_workers(Some(count)) == count,
        usual_workers(None) == 1,
{
}

/// How many workers there are: as many as the argument behind the first
/// `--workers` asks for, and the usual number where it asks for none, or for one
/// that cannot be had. `available` is how many can run at once, where that is
/// known.
pub fn worker_total(args: &Vec<String>, available: Option<usize>) -> (workers: usize)
    requires
        available matches Some(count) ==> count > 0,
    ensures
        workers > 0,
        forall|i: int| #[trigger]
            is_first_workers_flag(args@, i) ==> match worker_count(args@[i + 1]@) {
                Some(count) => workers == count,
                None => workers == usual_workers(available),
            },
        (forall|i: int| !is_first_workers_flag(args@, i)) ==> workers == usual_workers(available),
{
    match parse_workers(args) {
        Some(asked) => asked,
        None => match available {
            Some(count) => count,
            None => 1,
        },
    }
}

/// A lane count, and whether the setting it came from was understood.
#[derive(Clone, Copy, PartialEq, Eq, Structural, Debug)]
pub struct LaneSetting {
    pub lanes: usize,
    pub understood: bool,
}

/// Reads the setting `SANDGLASS_LANES`: `1`, `2` or `4` lanes to a worker. Two
/// lanes where there is no setting, and where it says anything else.
pub fn parse_lanes(setting: Option<&str>) -> (choice: LaneSetting)
    ensures
        setting is None ==> choice == (LaneSetting { lanes: 2, understood: true }),
        setting matches Some(value) ==> {
            &&& value@ == "1"@ ==> choice == (LaneSetting { lanes: 1, understood: true })
            &&& value@ == "2"@ ==> choice == (LaneSetting { lanes: 2, understood: true })
            &&& value@ == "4"@ ==> choice == (LaneSetting { lanes: 4, understood: true })
            &&& value@ != "1"@ && value@ != "2"@ && value@ != "4"@ ==> choice == (LaneSetting {
                lanes: 2,
                understood: false,
            })
        },
{
    proof {
        reveal_strlit("1");
        reveal_strlit("2");
        reveal_strlit("4");
        assert("1"@[0] != "2"@[0] && "1"@[0] != "4"@[0] && "2"@[0] != "4"@[0]);
    }
    match setting {
        None => LaneSetting { lanes: 2, understood: true },
        Some(value) => {
            if same_text(value, "1") {
                LaneSetting { lanes: 1, understood: true }
            } else if same_text(value, "2") {
                LaneSetting { lanes: 2, understood: true }
            } else if same_text(value, "4") {
                LaneSetting { lanes: 4, understood: true }
            } else {
                LaneSetting { lanes: 2, understood: false }
            }
        },
    }
}

/// There are as many workers as the number behind the first flag says, and where
/// there is no such positive number that fits, all that can run at once or one.
pub proof fn law_workers_are_asked_for_or_usual(
    args: &Vec<String>,
    available: Option<usize>,
    flag: int,
    workers: usize,
)
    requires
        call_ensures(worker_total, (args, available), workers),
        forall|j: int| 0 <= j < flag ==> (#[trigger] args@[j])@ != "--workers"@,
        0 <= flag,
    ensures
        flag + 1 < args@.len() && args@[flag]@ == "--workers"@ ==> match text::spelled_number(
            encode_utf8(args@[flag + 1]@),
        ) {
            Some(count) => if 0 < count <= usize::MAX {
                workers == count
            } else {
                workers == available.unwrap_or(1)
            },
            None => workers == available.unwrap_or(1),
        },
        flag + 1 >= args@.len() ==> workers == available.unwrap_or(1),
{
    law_first_flag_counts(args@, flag);
    if flag + 1 >= args@.len() {
        assert forall|j: int| !is_first_workers_flag(args@, j) by {
            law_first_flag_counts(args@, j);
            if 0 <= j && j + 1 < args@.len() {
                assert(args@[j]@ != "--workers"@);
            }
        }
    }
}

/// A worker has one, two or four lanes: one and four where the setting says so to
/// the letter, and two in every other case. A setting that says anything else is
/// not understood.
pub proof fn law_lanes_are_two_unless_set(setting: Option<&str>, choice: LaneSetting)
    requires
        call_ensures(parse_lanes, (setting,), choice),
    ensures
        choice.lanes == 1 <==> (setting matches Some(value) && value@ == "1"@),
        choice.lanes == 4 <==> (setting matches Some(value) && value@ == "4"@),
        choice.lanes == 1 || choice.lanes == 2 || choice.lanes == 4,
        choice.understood <==> (setting matches Some(value) ==> value@ == "1"@ || value@ == "2"@
            || value@ == "4"@),
{
    reveal_strlit("1");
    reveal_strlit("2");
    reveal_strlit("4");
    assert("1"@[0] != "2"@[0] && "1"@[0] != "4"@[0] && "2"@[0] != "4"@[0]);
}

} // verus!
