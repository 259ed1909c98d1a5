use crate::fingerprinting::hex_digit;
use crate::query_id::QueryId;
use crate::structure::PerMap;
use vstd::prelude::*;
use vstd::string::StringExecFns;

verus! {

/// The first text with the second after it.
pub fn mix(a: String, b: &str) -> (res: String)
    ensures
        res@ == a@ + b@,
{
    a.concat(b)
}

/// The decimal digits of a number, highest first.
pub open spec fn decimal(n: nat) -> Seq<char>
    decreases n,
{
    if n < 10 {
        seq![hex_digit(n as int)]
    } else {
        decimal(n / 10).push(hex_digit((n % 10) as int))
    }
}

/// The decimal digit for a number below 10, as a string.
fn digit(n: usize) -> (res: &'static str)
    requires
        n < 10,
    ensures
        res@ == seq![hex_digit(n as int)],
{
    proof {
        reveal_strlit("0");
        reveal_strlit("1");
        reveal_strlit("2");
        reveal_strlit("3");
        reveal_strlit("4");
        reveal_strlit("5");
        reveal_strlit("6");
        reveal_strlit("7");
        reveal_strlit("8");
        reveal_strlit("9");
    }
    let res = if n == 0 {
        "0"
    } else if n == 1 {
        "1"
    } else if n == 2 {
        "2"
    } else if n == 3 {
        "3"
    } else if n == 4 {
        "4"
    } else if n == 5 {
        "5"
    } else if n == 6 {
        "6"
    } else if n == 7 {
        "7"
    } else if n == 8 {
        "8"
    } else {
        "9"
    };
    assert(res@ =~= seq![hex_digit(n as int)]);
    res
}

/// The number in decimal digits.
pub fn to_decimal(n: usize) -> (res: String)
    ensures
        res@ == decimal(n as nat),
    decreases n,
{
    if n < 10 {
        String::from_str(digit(n))
    } else {
        let res = to_decimal(n / 10).concat(digit(n % 10));
        proof {
            assert(res@ =~= decimal(n as nat));
        }
        res
    }
}

/// The query that mixes the text at place `0` of the input with what the
/// same query gives for each proper divisor of the place.
#[derive(Clone, Copy)]
pub struct NonlockingProcess(pub usize);

impl NonlockingProcess {
    /// The name of the query: `NonlockingProcess(n)`.
    pub fn id(&self) -> (res: QueryId)
        ensures
            res@ == "NonlockingProcess("@ + decimal(self.0 as nat) + ")"@,
    {
        let name = String::from_str("NonlockingProcess(").concat(
            to_decimal(self.0).as_str(),
        ).concat(")");
        QueryId::new(name)
    }
}

/// The divisors of `n` up to `k`, in ascending order.
pub open spec fn divisors_upto(n: nat, k: nat) -> Seq<usize>
    decreases k,
{
    if k == 0 {
        Seq::empty()
    } else if n % k == 0 {
        divisors_upto(n, (k - 1) as nat).push(k as usize)
    } else {
        divisors_upto(n, (k - 1) as nat)
    }
}

/// The divisors of a number, in ascending order: 1 first, the number last.
pub fn divisors(n: usize) -> (res: Vec<usize>)
    ensures
        res@ == divisors_upto(n as nat, n as nat),
{
    let mut res: Vec<usize> = Vec::new();
    let mut k: usize = 0;
    while k < n
        invariant
            k <= n,
            res@ == divisors_upto(n as nat, k as nat),
        decreases n - k,
    {
        k += 1;
        if n % k == 0 {
            res.push(k);
        }
    }
    res
}

/// What the process at place `n` gives: the text at that place of the
/// input, mixed with what the process gives at the place before each proper
/// divisor of `n + 1`, in ascending order of the divisors.
pub open spec fn expected(n: nat, input: Seq<Seq<char>>) -> Seq<char>
    decreases n, n + 1,
{
    input[n as int] + mixed(n, input, n)
}

/// What the process gives at the places before the divisors of `n + 1` up
/// to `k`, mixed in ascending order of the divisors.
pub open spec fn mixed(n: nat, input: Seq<Seq<char>>, k: nat) -> Seq<char>
    decreases n, k,
{
    if k == 0 || k > n {
        Seq::empty()
    } else if ((n + 1) as int) % (k as int) == 0 {
        mixed(n, input, (k - 1) as nat) + expected((k - 1) as nat, input)
    } else {
        mixed(n, input, (k - 1) as nat)
    }
}

/// The texts of an input.
pub open spec fn lines(input: Seq<String>) -> Seq<Seq<char>> {
    Seq::new(input.len(), |i: int| input[i]@)
}

/// Whether a cache holds for each place what the process gives there.
pub open spec fn sound(cache: Map<u64, String>, input: Seq<Seq<char>>) -> bool {
    forall|m: u64| cache.contains_key(m) ==> (#[trigger] cache[m])@ == expected(m as nat, input)
}

/// What the process at place `n` is to give for `input`. What is worked out
/// on the way is kept in `cache` and taken from there when it is needed
/// again.
pub fn check(n: usize, input: &Vec<String>, cache: &mut PerMap<u64, String>) -> (res: String)
    requires
        n < input@.len(),
        sound(old(cache)@, lines(input@)),
    ensures
        res@ == expected(n as nat, lines(input@)),
        sound(final(cache)@, lines(input@)),
    decreases n,
{
    let ghost texts = lines(input@);
    proof {
        vstd::std_specs::vec::axiom_spec_len(input);
    }
    let next = n + 1;
    let this = input[n].clone();
    let mut acc = this;
    let mut k: usize = 0;
    proof {
        assert(acc@ + mixed(n as nat, texts, 0) =~= texts[n as int]);
    }
    while k < n
        invariant
            k <= n,
            n < input@.len(),
            next == n + 1,
            texts == lines(input@),
            sound(cache@, texts),
            acc@ == texts[n as int] + mixed(n as nat, texts, k as nat),
        decreases n - k,
    {
        k += 1;
        if next % k == 0 {
            let m = k - 1;
            let key = m as u64;
            let found = match cache.get(&key) {
                Some(v) => Some(v.clone()),
                None => None,
            };
            let v = match found {
                Some(v) => v,
                None => {
                    let v = check(m, input, cache);
                    if cache.len() < usize::MAX {
                        *cache = cache.insert(key, v.clone());
                    }
                    v
                },
            };
            let ghost before = acc@;
            acc = mix(acc, v.as_str());
            proof {
                assert(acc@ =~= texts[n as int] + mixed(n as nat, texts, k as nat));
            }
        }
    }
    acc
}

/// One thing that a scenario does.
pub enum Op {
    /// Puts a text at a place of the input.
    Replace(usize, String),
    /// Runs the process at a place and checks what it gives.
    Calculate(usize),
    /// Runs the process that takes no lock at a place.
    CalculateNonlocking(usize),
}

/// What a scenario does at one moment.
pub struct Step {
    pub updates: Vec<(usize, String)>,
    pub processes: Vec<usize>,
    pub nonlocking_processes: Vec<usize>,
}

/// What a `Step` says.
pub struct StepView {
    pub updates: Seq<(usize, Seq<char>)>,
    pub processes: Seq<usize>,
    pub nonlocking_processes: Seq<usize>,
}

impl View for Step {
    type V = StepView;

    open spec fn view(&self) -> StepView {
        StepView {
            updates: Seq::new(
                self.updates@.len(),
                |i: int| (self.updates@[i].0, self.updates@[i].1@),
            ),
            processes: self.processes@,
            nonlocking_processes: self.nonlocking_processes@,
        }
    }
}

/// What steps say.
pub open spec fn step_views(steps: Seq<Step>) -> Seq<StepView> {
    Seq::new(steps.len(), |i: int| steps[i]@)
}

/// The least weight above `after` among the first `n` weighted things.
pub open spec fn least_after(ops: Seq<(usize, Op)>, after: int, n: int) -> Option<usize>
    decreases n,
{
    if n <= 0 {
        None
    } else {
        let rest = least_after(ops, after, n - 1);
        let weight = ops[n - 1].0;
        if weight > after && (rest is None || weight < rest->0) {
            Some(weight)
        } else {
            rest
        }
    }
}

/// The step that the first `n` weighted things make at the weight `weight`:
/// those of that weight, in their order, each among its kind.
pub open spec fn step_at(ops: Seq<(usize, Op)>, weight: usize, n: int) -> StepView
    decreases n,
{
    if n <= 0 {
        StepView { updates: Seq::empty(), processes: Seq::empty(), nonlocking_processes: Seq::empty() }
    } else {
        let before = step_at(ops, weight, n - 1);
        if ops[n - 1].0 != weight {
            before
        } else {
            match ops[n - 1].1 {
                Op::Replace(place, text) => StepView {
                    updates: before.updates.push((place, text@)),
                    ..before
                },
                Op::Calculate(place) => StepView {
                    processes: before.processes.push(place),
                    ..before
                },
                Op::CalculateNonlocking(place) => StepView {
                    nonlocking_processes: before.nonlocking_processes.push(place),
                    ..before
                },
            }
        }
    }
}

/// The least weight above a bound lies above it.
pub proof fn lemma_least_after(ops: Seq<(usize, Op)>, after: int, n: int)
    ensures
        least_after(ops, after, n) matches Some(weight) ==> weight > after,
    decreases n,
{
    if n > 0 {
        lemma_least_after(ops, after, n - 1);
    }
}

/// The steps of the weights above `after`, in ascending order of the
/// weights.
pub open spec fn steps_after(ops: Seq<(usize, Op)>, after: int) -> Seq<StepView>
    decreases usize::MAX - after,
{
    match least_after(ops, after, ops.len() as int) {
        Some(weight) => {
            proof {
                lemma_least_after(ops, after, ops.len() as int);
            }
            seq![step_at(ops, weight, ops.len() as int)] + steps_after(ops, weight as int)
        },
        None => Seq::empty(),
    }
}

/// The least weight above `after`, if there is one.
fn next_weight(ops: &Vec<(usize, Op)>, after: Option<usize>) -> (res: Option<usize>)
    ensures
        res == least_after(
            ops@,
            match after {
                Some(weight) => weight as int,
                None => -1,
            },
            ops@.len() as int,
        ),
{
    let mut res: Option<usize> = None;
    let mut i: usize = 0;
    let ghost bound = match after {
        Some(weight) => weight as int,
        None => -1,
    };
    while i < ops.len()
        invariant
            i <= ops.len(),
            bound == match after {
                Some(weight) => weight as int,
                None => -1,
            },
            res == least_after(ops@, bound, i as int),
        decreases ops.len() - i,
    {
        let weight = ops[i].0;
        let above = match after {
            Some(limit) => weight > limit,
            None => true,
        };
        let lower = match res {
            Some(best) => weight < best,
            None => true,
        };
        if above && lower {
            res = Some(weight);
        }
        i += 1;
    }
    res
}

/// The step that the things of the weight `weight` make.
fn step_for(ops: &Vec<(usize, Op)>, weight: usize) -> (res: Step)
    ensures
        res@ == step_at(ops@, weight, ops@.len() as int),
{
    let mut updates: Vec<(usize, String)> = Vec::new();
    let mut processes: Vec<usize> = Vec::new();
    let mut nonlocking_processes: Vec<usize> = Vec::new();
    let mut i: usize = 0;
    let ghost mut shown = StepView {
        updates: Seq::empty(),
        processes: Seq::empty(),
        nonlocking_processes: Seq::empty(),
    };
    while i < ops.len()
        invariant
            i <= ops.len(),
            shown == step_at(ops@, weight, i as int),
            shown.updates.len() == updates@.len(),
            forall|j: int|
                0 <= j < updates@.len() ==> shown.updates[j] == ((#[trigger] updates@[j]).0, updates@[j].1@),
            shown.processes == processes@,
            shown.nonlocking_processes == nonlocking_processes@,
        decreases ops.len() - i,
    {
        if ops[i].0 == weight {
            match &ops[i].1 {
                Op::Replace(place, text) => {
                    updates.push((*place, text.clone()));
                    proof {
                        shown = StepView { updates: shown.updates.push((*place, text@)), ..shown };
                    }
                },
                Op::Calculate(place) => {
                    processes.push(*place);
                    proof {
                        shown = StepView { processes: shown.processes.push(*place), ..shown };
                    }
                },
                Op::CalculateNonlocking(place) => {
                    nonlocking_processes.push(*place);
                    proof {
                        shown = StepView {
                            nonlocking_processes: shown.nonlocking_processes.push(*place),
                            ..shown
                        };
                    }
                },
            }
        }
        i += 1;
    }
    let res = Step { updates, processes, nonlocking_processes };
    proof {
        assert(res@.updates =~= shown.updates);
    }
    res
}

/// The steps of a scenario: the things that have one weight make one step,
/// and the steps come in ascending order of their weights.
pub fn calc_steps(ops: &Vec<(usize, Op)>) -> (res: Vec<Step>)
    ensures
        step_views(res@) == steps_after(ops@, -1),
{
    let mut steps: Vec<Step> = Vec::new();
    let mut last: Option<usize> = None;
    let ghost mut bound: int = -1;
    proof {
        assert(step_views(steps@) + steps_after(ops@, bound) =~= steps_after(ops@, -1));
    }
    loop
        invariant_except_break
            step_views(steps@) + steps_after(ops@, bound) == steps_after(ops@, -1),
        invariant
            -1 <= bound <= usize::MAX,
            bound == match last {
                Some(weight) => weight as int,
                None => -1,
            },
        ensures
            step_views(steps@) == steps_after(ops@, -1),
        decreases usize::MAX - bound,
    {
        let ghost before = step_views(steps@);
        match next_weight(ops, last) {
            None => {
                proof {
                    assert(before + steps_after(ops@, bound) =~= before);
                }
                break ;
            },
            Some(weight) => {
                proof {
                    lemma_least_after(ops@, bound, ops@.len() as int);
                }
                let step = step_for(ops, weight);
                steps.push(step);
                proof {
                    assert(step_views(steps@) =~= before.push(step@));
                    assert(step_views(steps@) + steps_after(ops@, weight as int) =~= before
                        + steps_after(ops@, bound));
                    bound = weight as int;
                }
                last = Some(weight);
            },
        }
    }
    steps
}

} // verus!
