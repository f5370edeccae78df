//! Expansion of a task into the ordered cross product of its arguments.

use crate::decimal::{append_decimal, append_signed_decimal, decimal, signed_decimal};
use crate::task::{alternatives_view, Alternative, Argument, Pick, RangeObject, Task};
use vstd::prelude::*;

verus! {

/// A concrete invocation as mathematics: the executable, its tokens, and the
/// display name.
pub struct CmdView {
    pub command: Seq<char>,
    pub args: Seq<Seq<char>>,
    pub name: Seq<char>,
}

/// A concrete invocation: the executable, the tokens to pass to it in order,
/// and a display name made of the task's name and the selected values.
#[derive(Debug, Clone, PartialEq, Eq)]
pub struct Cmd {
    pub command: String,
    pub args: Vec<String>,
    pub name: String,
}

impl View for Cmd {
    type V = CmdView;

    open spec fn view(&self) -> CmdView {
        CmdView { command: self.command@, args: strings_view(self.args@), name: self.name@ }
    }
}

/// The texts of a list of strings.
pub open spec fn strings_view(strings: Seq<String>) -> Seq<Seq<char>> {
    Seq::new(strings.len(), |i: int| strings[i]@)
}

/// The views of a list of invocations.
pub open spec fn cmds_view(cmds: Seq<Cmd>) -> Seq<CmdView> {
    Seq::new(cmds.len(), |i: int| cmds[i]@)
}

/// The cross product of the slots in `choices`, walked depth first: the first
/// slot varies slowest. `tokens` and `name` are what the slots before have
/// selected; each leaf is one invocation.
pub open spec fn cross(
    command: Seq<char>,
    choices: Seq<Seq<Pick>>,
    tokens: Seq<Seq<char>>,
    name: Seq<char>,
) -> Seq<CmdView>
    decreases choices.len(), 0nat,
{
    if choices.len() == 0 {
        seq![CmdView { command, args: tokens, name }]
    } else {
        fan_out(command, choices[0], choices.skip(1), tokens, name)
    }
}

/// One branch per pick, in order: each branch is the cross product of the
/// remaining slots with the pick's token and label appended.
pub open spec fn fan_out(
    command: Seq<char>,
    picks: Seq<Pick>,
    rest: Seq<Seq<Pick>>,
    tokens: Seq<Seq<char>>,
    name: Seq<char>,
) -> Seq<CmdView>
    decreases rest.len(), picks.len() + 1,
{
    if picks.len() == 0 {
        Seq::empty()
    } else {
        cross(command, rest, tokens.push(picks[0].token), name + picks[0].label) + fan_out(
            command,
            picks.skip(1),
            rest,
            tokens,
            name,
        )
    }
}

/// An invocation with one more pick: the pick's token after the tokens it
/// has, the pick's label after its name.
pub open spec fn grow(partial: CmdView, pick: Pick) -> CmdView {
    CmdView {
        command: partial.command,
        args: partial.args.push(pick.token),
        name: partial.name + pick.label,
    }
}

/// One invocation grown by each pick, in the order of the picks.
pub open spec fn grow_by_each(partial: CmdView, picks: Seq<Pick>) -> Seq<CmdView> {
    Seq::new(picks.len(), |k: int| grow(partial, picks[k]))
}

/// Each invocation grown by each pick: the invocations in their order, and
/// for each of them the picks in theirs.
pub open spec fn grow_each(partials: Seq<CmdView>, picks: Seq<Pick>) -> Seq<CmdView>
    decreases partials.len(),
{
    if partials.len() == 0 {
        Seq::empty()
    } else {
        grow_by_each(partials[0], picks) + grow_each(partials.skip(1), picks)
    }
}

/// The picks of each of a list of arguments.
pub open spec fn picks_of(args: Seq<Argument>) -> Seq<Seq<Pick>> {
    Seq::new(args.len(), |i: int| args[i].picks())
}

/// The product of the lengths of the slots.
pub open spec fn product_len(choices: Seq<Seq<Pick>>) -> nat
    decreases choices.len(),
{
    if choices.len() == 0 {
        1
    } else {
        choices[0].len() * product_len(choices.skip(1))
    }
}

/// Why a task cannot be expanded: argument `arg` of task `task` is an integer
/// sweep with `from <= to` whose step is not positive, so it would never end.
#[derive(Debug, Clone, PartialEq, Eq)]
pub struct RangeError {
    pub task: String,
    pub arg: usize,
    pub from: i32,
    pub to: i32,
    pub step: i32,
}

impl RangeError {
    /// The text of the error message.
    pub open spec fn message_text(&self) -> Seq<char> {
        "task '"@ + self.task@ + "': argument "@ + decimal(self.arg as nat)
            + ": integer range from "@ + signed_decimal(self.from as int) + " to "@
            + signed_decimal(self.to as int) + " needs a positive step, not "@ + signed_decimal(
            self.step as int,
        )
    }

    /// A description of the error for the user.
    pub fn message(&self) -> (text: String)
        ensures
            text@ == self.message_text(),
    {
        let mut text = String::from_str("task '");
        text.append(self.task.as_str());
        text.append("': argument ");
        append_decimal(&mut text, self.arg as u128);
        text.append(": integer range from ");
        append_signed_decimal(&mut text, self.from as i64);
        text.append(" to ");
        append_signed_decimal(&mut text, self.to as i64);
        text.append(" needs a positive step, not ");
        append_signed_decimal(&mut text, self.step as i64);
        text
    }
}

impl Task {
    /// Every argument is well formed.
    pub open spec fn well_formed(&self) -> bool {
        forall|i: int| 0 <= i < self.args@.len() ==> (#[trigger] self.args@[i]).well_formed()
    }

    /// The picks of each argument, in argument order.
    pub open spec fn choices(&self) -> Seq<Seq<Pick>> {
        picks_of(self.args@)
    }

    /// The invocations of the task under the name `name`, in expansion order.
    pub open spec fn expansion(&self, name: Seq<char>) -> Seq<CmdView> {
        cross(self.command@, self.choices(), Seq::empty(), name)
    }

    /// The product of the cardinalities of the arguments.
    pub open spec fn count(&self) -> nat {
        cardinality_product(self.args@)
    }

    /// Whether `error` reports the first ill-formed argument of the task,
    /// under the task name `name`.
    pub open spec fn first_range_error(&self, name: Seq<char>, error: RangeError) -> bool {
        &&& error.task@ == name
        &&& error.arg < self.args@.len()
        &&& forall|i: int| 0 <= i < error.arg ==> (#[trigger] self.args@[i]).well_formed()
        &&& self.args@[error.arg as int] matches Argument::Range(
            RangeObject::Int { from, to, step, .. },
        )
        &&& from <= to
        &&& step <= 0
        &&& error.from == from
        &&& error.to == to
        &&& error.step == step
    }

    /// What an expansion of the task under the name `name` must return: the
    /// invocations when the task is well formed, else the first error.
    pub open spec fn expands_to(
        &self,
        name: Seq<char>,
        result: Result<Vec<Cmd>, RangeError>,
    ) -> bool {
        match result {
            Ok(cmds) => self.well_formed() && cmds_view(cmds@) == self.expansion(name),
            Err(error) => !self.well_formed() && self.first_range_error(name, error),
        }
    }

    /// Expands the task into its concrete invocations.
    ///
    /// The result is the cross product of the arguments, depth first: the
    /// first argument varies slowest, a choice branches in list order, a sweep
    /// in ascending order, a fixed token never. Each invocation carries the
    /// selected tokens in argument order, and as its name `name` followed by
    /// the label of every pick.
    ///
    /// A task with an integer sweep that could not end is rejected with the
    /// first such argument, whatever the other arguments hold.
    pub fn expand(&self, name: &str) -> (result: Result<Vec<Cmd>, RangeError>)
        ensures
            self.expands_to(name@, result),
    {
        let mut i: usize = 0;
        while i < self.args.len()
            invariant
                i <= self.args@.len(),
                forall|j: int| 0 <= j < i ==> (#[trigger] self.args@[j]).well_formed(),
            decreases self.args@.len() - i,
        {
            match range_error(&self.args[i], i, name) {
                Some(error) => {
                    return Err(error);
                },
                None => {},
            }
            i = i + 1;
        }
        // The worklist holds the invocations of the arguments seen so far;
        // each further argument grows every one of them by each of its picks.
        let ghost slots = self.choices();
        let mut cmds: Vec<Cmd> = Vec::new();
        let start = Cmd {
            command: self.command.clone(),
            args: Vec::new(),
            name: String::from_str(name),
        };
        assert(start@.args =~= Seq::empty());
        cmds.push(start);
        assert(cmds_view(cmds@) =~= cross(
            self.command@,
            slots.take(0),
            Seq::empty(),
            name@,
        ));
        let mut k: usize = 0;
        while k < self.args.len()
            invariant
                k <= self.args@.len(),
                self.well_formed(),
                slots == self.choices(),
                cmds_view(cmds@) == cross(
                    self.command@,
                    slots.take(k as int),
                    Seq::empty(),
                    name@,
                ),
            decreases self.args@.len() - k,
        {
            let alts = self.args[k].alternatives().unwrap();
            proof {
                lemma_cross_push(
                    self.command@,
                    slots.take(k as int),
                    slots[k as int],
                    Seq::empty(),
                    name@,
                );
                assert(slots.take(k as int).push(slots[k as int]) =~= slots.take(k as int + 1));
            }
            cmds = grow_all(&cmds, &alts);
            k = k + 1;
        }
        assert(slots.take(self.args@.len() as int) =~= slots);
        Ok(cmds)
    }
}

/// The error for argument `index` of task `name`, if the argument is an
/// integer sweep that could not end.
fn range_error(arg: &Argument, index: usize, name: &str) -> (error: Option<RangeError>)
    ensures
        match error {
            Some(e) => {
                &&& !arg.well_formed()
                &&& e.task@ == name@
                &&& e.arg == index
                &&& arg matches Argument::Range(RangeObject::Int { from, to, step, .. })
                &&& e.from == from
                &&& e.to == to
                &&& e.step == step
            },
            None => arg.well_formed(),
        },
{
    match arg {
        Argument::Range(RangeObject::Int { from, to, step, .. }) => {
            if *from <= *to && *step <= 0 {
                Some(
                    RangeError {
                        task: String::from_str(name),
                        arg: index,
                        from: *from,
                        to: *to,
                        step: *step,
                    },
                )
            } else {
                None
            }
        },
        _ => None,
    }
}

/// The product of the cardinalities of a list of arguments.
pub open spec fn cardinality_product(args: Seq<Argument>) -> nat
    decreases args.len(),
{
    if args.len() == 0 {
        1
    } else {
        args[0].cardinality() * cardinality_product(args.skip(1))
    }
}

/// A copy of a list of strings.
fn clone_strings(strings: &Vec<String>) -> (copy: Vec<String>)
    ensures
        strings_view(copy@) == strings_view(strings@),
{
    let mut copy: Vec<String> = Vec::new();
    let mut i: usize = 0;
    while i < strings.len()
        invariant
            i <= strings@.len(),
            copy@.len() == i,
            forall|j: int| 0 <= j < i ==> (#[trigger] copy@[j])@ == strings@[j]@,
        decreases strings@.len() - i,
    {
        copy.push(strings[i].clone());
        i = i + 1;
    }
    assert(strings_view(copy@) =~= strings_view(strings@));
    copy
}

/// Each of `partials` grown by each of `alts`.
fn grow_all(partials: &Vec<Cmd>, alts: &Vec<Alternative>) -> (grown: Vec<Cmd>)
    ensures
        cmds_view(grown@) == grow_each(cmds_view(partials@), alternatives_view(alts@)),
{
    let ghost all = cmds_view(partials@);
    let ghost picks = alternatives_view(alts@);
    let mut grown: Vec<Cmd> = Vec::new();
    let mut i: usize = 0;
    assert(all.skip(0) =~= all);
    while i < partials.len()
        invariant
            i <= partials@.len(),
            all == cmds_view(partials@),
            picks == alternatives_view(alts@),
            cmds_view(grown@) + grow_each(all.skip(i as int), picks) == grow_each(all, picks),
        decreases partials@.len() - i,
    {
        let partial = &partials[i];
        let ghost done = cmds_view(grown@);
        let mut j: usize = 0;
        while j < alts.len()
            invariant
                j <= alts@.len(),
                picks == alternatives_view(alts@),
                cmds_view(grown@) == done + grow_by_each(partial@, picks.take(j as int)),
            decreases alts@.len() - j,
        {
            let alt = &alts[j];
            let mut args = clone_strings(&partial.args);
            args.push(alt.token.clone());
            let mut name = partial.name.clone();
            name.append(alt.label.as_str());
            let cmd = Cmd { command: partial.command.clone(), args, name };
            let ghost was = grown@;
            grown.push(cmd);
            proof {
                assert(cmd@.args =~= partial@.args.push(alt@.token));
                assert(cmd@ == grow(partial@, picks[j as int]));
                assert(cmds_view(was.push(cmd)) =~= cmds_view(was).push(cmd@));
                assert(grow_by_each(partial@, picks.take(j as int + 1)) =~= grow_by_each(
                    partial@,
                    picks.take(j as int),
                ).push(cmd@));
            }
            j = j + 1;
        }
        proof {
            assert(picks.take(alts@.len() as int) =~= picks);
            let rest = all.skip(i as int);
            assert(rest[0] == partial@);
            assert(rest.skip(1) =~= all.skip(i as int + 1));
            let branch = grow_by_each(partial@, picks);
            let tail = grow_each(all.skip(i as int + 1), picks);
            assert((done + branch) + tail =~= done + (branch + tail));
        }
        i = i + 1;
    }
    assert(grow_each(all.skip(partials@.len() as int), picks) =~= Seq::empty());
    assert(cmds_view(grown@) =~= grow_each(all, picks));
    grown
}

/// Growing distributes over concatenation.
proof fn lemma_grow_each_concat(a: Seq<CmdView>, b: Seq<CmdView>, picks: Seq<Pick>)
    ensures
        grow_each(a + b, picks) == grow_each(a, picks) + grow_each(b, picks),
    decreases a.len(),
{
    if a.len() == 0 {
        assert(a + b =~= b);
        assert(grow_each(a, picks) + grow_each(b, picks) =~= grow_each(b, picks));
    } else {
        lemma_grow_each_concat(a.skip(1), b, picks);
        assert((a + b).skip(1) =~= a.skip(1) + b);
        assert((a + b)[0] == a[0]);
        let first = grow_by_each(a[0], picks);
        assert((first + grow_each(a.skip(1), picks)) + grow_each(b, picks) =~= first + (
        grow_each(a.skip(1), picks) + grow_each(b, picks)));
    }
}

/// With no slot left, a fan-out is one leaf per pick.
proof fn lemma_fan_out_leaves(
    command: Seq<char>,
    picks: Seq<Pick>,
    tokens: Seq<Seq<char>>,
    name: Seq<char>,
)
    ensures
        fan_out(command, picks, Seq::empty(), tokens, name) == grow_by_each(
            CmdView { command, args: tokens, name },
            picks,
        ),
    decreases picks.len(),
{
    let leaf = CmdView { command, args: tokens, name };
    if picks.len() == 0 {
        assert(grow_by_each(leaf, picks) =~= Seq::empty());
    } else {
        lemma_fan_out_leaves(command, picks.skip(1), tokens, name);
        let head = cross(
            command,
            Seq::empty(),
            tokens.push(picks[0].token),
            name + picks[0].label,
        );
        assert(head == seq![grow(leaf, picks[0])]);
        let tail = grow_by_each(leaf, picks.skip(1));
        assert(head + tail =~= grow_by_each(leaf, picks));
    }
}

/// The depth-first walk and the walk level by level agree: the cross product
/// with one more slot at the end is the cross product without it, each
/// invocation grown by each pick of that slot.
pub proof fn lemma_cross_push(
    command: Seq<char>,
    choices: Seq<Seq<Pick>>,
    picks: Seq<Pick>,
    tokens: Seq<Seq<char>>,
    name: Seq<char>,
)
    ensures
        cross(command, choices.push(picks), tokens, name) == grow_each(
            cross(command, choices, tokens, name),
            picks,
        ),
    decreases choices.len(), 0nat,
{
    let longer = choices.push(picks);
    if choices.len() == 0 {
        let leaf = CmdView { command, args: tokens, name };
        assert(longer[0] == picks);
        assert(longer.skip(1) =~= Seq::<Seq<Pick>>::empty());
        lemma_fan_out_leaves(command, picks, tokens, name);
        assert(seq![leaf].skip(1) =~= Seq::<CmdView>::empty());
        assert(grow_each(Seq::<CmdView>::empty(), picks) =~= Seq::<CmdView>::empty());
        assert(grow_each(seq![leaf], picks) =~= grow_by_each(leaf, picks));
    } else {
        assert(longer[0] == choices[0]);
        assert(longer.skip(1) =~= choices.skip(1).push(picks));
        lemma_fan_out_push(command, choices[0], choices.skip(1), picks, tokens, name);
    }
}

/// A fan-out over slots with one more slot at the end is the fan-out without
/// it, each invocation grown by each pick of that slot.
pub proof fn lemma_fan_out_push(
    command: Seq<char>,
    first: Seq<Pick>,
    rest: Seq<Seq<Pick>>,
    picks: Seq<Pick>,
    tokens: Seq<Seq<char>>,
    name: Seq<char>,
)
    ensures
        fan_out(command, first, rest.push(picks), tokens, name) == grow_each(
            fan_out(command, first, rest, tokens, name),
            picks,
        ),
    decreases rest.len(), first.len() + 1,
{
    if first.len() > 0 {
        let branch_tokens = tokens.push(first[0].token);
        let branch_name = name + first[0].label;
        lemma_cross_push(command, rest, picks, branch_tokens, branch_name);
        lemma_fan_out_push(command, first.skip(1), rest, picks, tokens, name);
        lemma_grow_each_concat(
            cross(command, rest, branch_tokens, branch_name),
            fan_out(command, first.skip(1), rest, tokens, name),
            picks,
        );
    }
}

/// The cross product has as many leaves as the product of the slot lengths.
pub proof fn lemma_cross_len(
    command: Seq<char>,
    choices: Seq<Seq<Pick>>,
    tokens: Seq<Seq<char>>,
    name: Seq<char>,
)
    ensures
        cross(command, choices, tokens, name).len() == product_len(choices),
    decreases choices.len(), 0nat,
{
    if choices.len() > 0 {
        lemma_fan_out_len(command, choices[0], choices.skip(1), tokens, name);
    }
}

/// A fan-out has one cross product of the remaining slots per pick.
pub proof fn lemma_fan_out_len(
    command: Seq<char>,
    picks: Seq<Pick>,
    rest: Seq<Seq<Pick>>,
    tokens: Seq<Seq<char>>,
    name: Seq<char>,
)
    ensures
        fan_out(command, picks, rest, tokens, name).len() == picks.len() * product_len(rest),
    decreases rest.len(), picks.len() + 1,
{
    if picks.len() > 0 {
        lemma_cross_len(command, rest, tokens.push(picks[0].token), name + picks[0].label);
        lemma_fan_out_len(command, picks.skip(1), rest, tokens, name);
        let n = picks.len();
        let p = product_len(rest);
        assert(n * p == p + (n - 1) * p) by (nonlinear_arith)
            requires
                n > 0,
        ;
    } else {
        assert(picks.len() * product_len(rest) == 0) by (nonlinear_arith)
            requires
                picks.len() == 0,
        ;
    }
}

/// The slot lengths of a list of arguments multiply to the product of their
/// cardinalities.
pub proof fn lemma_product_of_cardinalities(args: Seq<Argument>)
    ensures
        product_len(picks_of(args)) == cardinality_product(args),
    decreases args.len(),
{
    if args.len() > 0 {
        lemma_product_of_cardinalities(args.skip(1));
        args[0].lemma_picks_len();
        assert(picks_of(args).skip(1) =~= picks_of(args.skip(1)));
    }
}

/// Slots with a single pick that adds nothing to the name leave one
/// invocation: its tokens are those selected before, then the token of each
/// slot in order, and its name is unchanged.
pub proof fn lemma_cross_of_fixed(
    command: Seq<char>,
    choices: Seq<Seq<Pick>>,
    tokens: Seq<Seq<char>>,
    name: Seq<char>,
)
    requires
        forall|i: int|
            0 <= i < choices.len() ==> (#[trigger] choices[i]).len() == 1 && choices[i][0].label
                == Seq::<char>::empty(),
    ensures
        cross(command, choices, tokens, name) == seq![
            CmdView {
                command,
                args: tokens + Seq::new(choices.len(), |i: int| choices[i][0].token),
                name,
            },
        ],
    decreases choices.len(),
{
    let fixed = Seq::new(choices.len(), |i: int| choices[i][0].token);
    if choices.len() == 0 {
        assert(tokens + fixed =~= tokens);
    } else {
        let picks = choices[0];
        let rest = choices.skip(1);
        let pushed = tokens.push(picks[0].token);
        assert(name + picks[0].label =~= name);
        assert forall|i: int| 0 <= i < rest.len() implies (#[trigger] rest[i]).len() == 1
            && rest[i][0].label == Seq::<char>::empty() by {
            assert(rest[i] == choices[i + 1]);
        }
        lemma_cross_of_fixed(command, rest, pushed, name);
        let rest_fixed = Seq::new(rest.len(), |i: int| rest[i][0].token);
        assert(pushed + rest_fixed =~= tokens + fixed);
        assert(picks.skip(1).len() == 0);
        assert(fan_out(command, picks.skip(1), rest, tokens, name) =~= Seq::empty());
        assert(fan_out(command, picks, rest, tokens, name) =~= cross(
            command,
            rest,
            pushed,
            name,
        ));
    }
}

impl Task {
    /// A task expands to as many invocations as the product of the
    /// cardinalities of its arguments.
    pub proof fn lemma_expansion_count(&self, name: Seq<char>)
        ensures
            self.expansion(name).len() == self.count(),
    {
        lemma_cross_len(self.command@, self.choices(), Seq::empty(), name);
        lemma_product_of_cardinalities(self.args@);
    }

    /// A task whose arguments are all fixed tokens expands to exactly one
    /// invocation: its tokens are the arguments' values in order, and its name
    /// is the task's name.
    pub proof fn lemma_static_expansion(&self, name: Seq<char>)
        requires
            forall|i: int| 0 <= i < self.args@.len() ==> (#[trigger] self.args@[i]) is Static,
        ensures
            self.well_formed(),
            self.expansion(name) == seq![
                CmdView {
                    command: self.command@,
                    args: Seq::new(self.args@.len(), |i: int| self.args@[i]->Static_0@),
                    name,
                },
            ],
    {
        let choices = self.choices();
        lemma_cross_of_fixed(self.command@, choices, Seq::empty(), name);
        let fixed = Seq::new(choices.len(), |i: int| choices[i][0].token);
        let values = Seq::new(self.args@.len(), |i: int| self.args@[i]->Static_0@);
        assert(Seq::<Seq<char>>::empty() + fixed =~= values);
    }

    /// Expansion is a function of the task and its name: whatever two
    /// expansions of one task under one name return, both succeed with the
    /// same list of invocations, or both fail with the same error.
    pub proof fn lemma_expand_deterministic(
        &self,
        name: Seq<char>,
        first: Result<Vec<Cmd>, RangeError>,
        second: Result<Vec<Cmd>, RangeError>,
    )
        requires
            self.expands_to(name, first),
            self.expands_to(name, second),
        ensures
            first is Ok <==> second is Ok,
            first is Ok ==> cmds_view(first->Ok_0@) == cmds_view(second->Ok_0@),
            first is Err ==> {
                let a = first->Err_0;
                let b = second->Err_0;
                &&& a.task@ == b.task@
                &&& a.arg == b.arg
                &&& a.from == b.from
                &&& a.to == b.to
                &&& a.step == b.step
            },
    {
        if first is Err {
            let a = first->Err_0;
            let b = second->Err_0;
            if a.arg < b.arg {
                assert(self.args@[a.arg as int].well_formed());
            }
            if b.arg < a.arg {
                assert(self.args@[b.arg as int].well_formed());
            }
        }
    }
}

} // verus!
