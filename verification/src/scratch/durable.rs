//! Writing a value so that it is there whole or not at all.
//!
//! The value is written to a temporary file beside the old one, made durable, and only
//! then given its name, which replaces the old value in one step. What performs the steps
//! is handed in; what is decided here is which step comes next, and what the whole comes to.

use super::{PlaceView, ScratchPath};
use crate::scratch;
use crate::text;
use vstd::prelude::*;

verus! {

/// A step of writing a value.
#[derive(Debug, Clone, Copy, PartialEq, Eq, Structural)]
pub enum WriteAction {
    /// Make the directory, unless it is there.
    MakeDirectory,
    /// Create the temporary file, empty.
    CreateTemporary,
    /// Write the value to the temporary file.
    WriteBytes,
    /// Make the temporary file's contents durable.
    SyncFile,
    /// Give the temporary file its final name, in place of the old value.
    Rename,
    /// Remove the temporary file.
    RemoveTemporary,
    /// Make the directory durable.
    SyncDirectory,
}

/// The step after one that was done, or that failed. What fails before the value has its
/// name is cleaned up after; once it has its name the write stands.
pub open spec fn next_action(action: WriteAction, done: bool) -> Option<WriteAction> {
    match action {
        WriteAction::MakeDirectory => if done {
            Some(WriteAction::CreateTemporary)
        } else {
            None
        },
        WriteAction::CreateTemporary => Some(
            if done {
                WriteAction::WriteBytes
            } else {
                WriteAction::RemoveTemporary
            },
        ),
        WriteAction::WriteBytes => Some(
            if done {
                WriteAction::SyncFile
            } else {
                WriteAction::RemoveTemporary
            },
        ),
        WriteAction::SyncFile => Some(
            if done {
                WriteAction::Rename
            } else {
                WriteAction::RemoveTemporary
            },
        ),
        WriteAction::Rename => Some(
            if done {
                WriteAction::SyncDirectory
            } else {
                WriteAction::RemoveTemporary
            },
        ),
        WriteAction::RemoveTemporary => None,
        WriteAction::SyncDirectory => None,
    }
}

/// The step after one that was done, or that failed.
fn following(action: WriteAction, done: bool) -> (r: Option<WriteAction>)
    ensures
        r == next_action(action, done),
{
    match action {
        WriteAction::MakeDirectory => if done {
            Some(WriteAction::CreateTemporary)
        } else {
            None
        },
        WriteAction::CreateTemporary => if done {
            Some(WriteAction::WriteBytes)
        } else {
            Some(WriteAction::RemoveTemporary)
        },
        WriteAction::WriteBytes => if done {
            Some(WriteAction::SyncFile)
        } else {
            Some(WriteAction::RemoveTemporary)
        },
        WriteAction::SyncFile => if done {
            Some(WriteAction::Rename)
        } else {
            Some(WriteAction::RemoveTemporary)
        },
        WriteAction::Rename => if done {
            Some(WriteAction::SyncDirectory)
        } else {
            Some(WriteAction::RemoveTemporary)
        },
        WriteAction::RemoveTemporary => None,
        WriteAction::SyncDirectory => None,
    }
}

spec fn steps_left(action: WriteAction) -> nat {
    match action {
        WriteAction::MakeDirectory => 5,
        WriteAction::CreateTemporary => 4,
        WriteAction::WriteBytes => 3,
        WriteAction::SyncFile => 2,
        WriteAction::Rename => 1,
        WriteAction::RemoveTemporary => 0,
        WriteAction::SyncDirectory => 0,
    }
}

/// A step that was tried, and what the storage replied.
pub struct Tried {
    pub action: WriteAction,
    pub reply: Result<(), String>,
}

/// Whether a step is the one that follows the step before it.
pub open spec fn follows(steps: Seq<Tried>, i: int) -> bool {
    next_action(steps[i - 1].action, steps[i - 1].reply is Ok) == Some(steps[i].action)
}

/// Whether steps were tried in the order that is prescribed: the first makes the
/// directory, and each other is what follows the one before it.
pub open spec fn in_order(steps: Seq<Tried>) -> bool {
    &&& steps.len() > 0 ==> steps[0].action == WriteAction::MakeDirectory
    &&& forall|i: int| 0 < i < steps.len() ==> #[trigger] follows(steps, i)
}

/// Whether the steps are those of a whole write.
pub open spec fn finished(steps: Seq<Tried>) -> bool {
    &&& steps.len() > 0
    &&& in_order(steps)
    &&& next_action(steps.last().action, steps.last().reply is Ok) is None
}

/// Whether the value has its name after the steps of a whole write.
pub open spec fn succeeded(steps: Seq<Tried>) -> bool {
    steps.last().action == WriteAction::SyncDirectory
}

/// What the storage said of the step that failed.
pub open spec fn fault(steps: Seq<Tried>) -> Seq<char> {
    let failed = if steps.last().action == WriteAction::RemoveTemporary {
        steps[steps.len() - 2]
    } else {
        steps.last()
    };
    failed.reply->Err_0@
}

/// Where a value is written to.
#[verifier::ext_equal]
pub struct PlanView {
    pub dir: PlaceView,
    pub temporary: Seq<char>,
    pub target: Seq<char>,
}

/// Where a value is written to: the directory, and the temporary and the final name in it.
#[derive(Debug)]
pub struct WritePlan {
    pub dir: ScratchPath,
    pub temporary: String,
    pub target: String,
}

impl View for WritePlan {
    type V = PlanView;

    open spec fn view(&self) -> PlanView {
        PlanView { dir: self.dir@, temporary: self.temporary@, target: self.target@ }
    }
}

/// Whether what was handed in performed the steps with these replies.
pub open spec fn performed<F: Fn(WriteAction, &WritePlan, &[u8]) -> Result<(), String>>(
    perform: F,
    plan: WritePlan,
    value: &[u8],
    steps: Seq<Tried>,
) -> bool {
    forall|i: int|
        0 <= i < steps.len() ==> call_ensures(
            perform,
            (steps[i].action, &plan, value),
            (#[trigger] steps[i]).reply,
        )
}

/// Writes a value: tries step after step until the write is done or has failed and was
/// cleaned up after.
pub fn write_through<F: Fn(WriteAction, &WritePlan, &[u8]) -> Result<(), String>>(
    plan: &WritePlan,
    value: &[u8],
    perform: F,
) -> (r: Result<(), String>)
    requires
        forall|action: WriteAction| #[trigger] call_requires(perform, (action, plan, value)),
    ensures
        exists|steps: Seq<Tried>|
            {
                &&& #[trigger] finished(steps)
                &&& performed(perform, *plan, value, steps)
                &&& match r {
                    Ok(_) => succeeded(steps),
                    Err(e) => !succeeded(steps) && e@ == fault(steps),
                }
            },
{
    let mut action = WriteAction::MakeDirectory;
    let mut failure: Option<String> = None;
    let ghost mut steps: Seq<Tried> = Seq::empty();
    loop
        invariant
            forall|a: WriteAction| #[trigger] call_requires(perform, (a, plan, value)),
            in_order(steps),
            performed(perform, *plan, value, steps),
            steps.len() == 0 ==> action == WriteAction::MakeDirectory,
            steps.len() > 0 ==> next_action(steps.last().action, steps.last().reply is Ok) == Some(action),
            action == WriteAction::RemoveTemporary ==> steps.len() > 0,
            (action == WriteAction::RemoveTemporary) == (failure is Some),
            failure matches Some(e) ==> steps.last().reply is Err && e@ == steps.last().reply->Err_0@,
        decreases steps_left(action),
    {
        let reply = perform(action, plan, value);
        let ghost tried = Tried { action, reply };
        let ghost before = steps;
        proof {
            steps = steps.push(tried);
            assert(in_order(steps)) by {
                assert forall|i: int| 0 < i < steps.len() implies #[trigger] follows(steps, i) by {
                    if i < before.len() {
                        assert(follows(before, i));
                    }
                }
            }
            assert(performed(perform, *plan, value, steps)) by {
                assert forall|i: int| 0 <= i < steps.len() implies call_ensures(
                    perform,
                    (steps[i].action, plan, value),
                    (#[trigger] steps[i]).reply,
                ) by {
                    if i < before.len() {
                        assert(steps[i] == before[i]);
                    }
                }
            }
        }
        match following(action, reply.is_ok()) {
            Some(next) => {
                if let Err(e) = reply {
                    failure = Some(e);
                }
                action = next;
            },
            None => {
                assert(finished(steps));
                match failure {
                    Some(e) => {
                        assert(steps[steps.len() - 2] == before.last());
                        return Err(e);
                    },
                    None => {
                        if let WriteAction::SyncDirectory = action {
                            return Ok(());
                        }
                        return reply;
                    },
                }
            },
        }
    }
}

/// What a directory holds: the contents of its files, by name.
pub type Files = Map<Seq<char>, Seq<u8>>;

/// How a step may leave a directory. A step that is done does what it says; one that
/// fails, or is cut off, may leave anything in the temporary file and changes no other,
/// and a name is given or taken at once or not at all.
pub open spec fn may_leave(plan: PlanView, value: Seq<u8>, action: WriteAction, done: bool, before: Files, after: Files) -> bool {
    match action {
        WriteAction::MakeDirectory => after == before,
        WriteAction::CreateTemporary => if done {
            after == before.insert(plan.temporary, Seq::empty())
        } else {
            after.remove(plan.temporary) == before.remove(plan.temporary)
        },
        WriteAction::WriteBytes => if done {
            after == before.insert(plan.temporary, value)
        } else {
            after.remove(plan.temporary) == before.remove(plan.temporary)
        },
        WriteAction::SyncFile => after == before,
        WriteAction::Rename => if done {
            after == before.remove(plan.temporary).insert(plan.target, before[plan.temporary])
        } else {
            after == before
        },
        WriteAction::RemoveTemporary => if done {
            after == before.remove(plan.temporary)
        } else {
            after == before
        },
        WriteAction::SyncDirectory => after == before,
    }
}

/// Whether a directory went through these states, one before and one after each step.
pub open spec fn went_through(plan: PlanView, value: Seq<u8>, steps: Seq<Tried>, states: Seq<Files>) -> bool {
    &&& states.len() == steps.len() + 1
    &&& forall|i: int|
        0 <= i < steps.len() ==> may_leave(
            plan,
            value,
            (#[trigger] steps[i]).action,
            steps[i].reply is Ok,
            states[i],
            states[i + 1],
        )
}

/// Whether the value has been given its name among the first steps.
pub open spec fn named_by(steps: Seq<Tried>, n: int) -> bool {
    exists|i: int|
        0 <= i < n && i < steps.len() && (#[trigger] steps[i]).action == WriteAction::Rename && steps[i].reply is Ok
}

/// Where the write stands before a step, and what the directory then holds.
spec fn stands(plan: PlanView, value: Seq<u8>, steps: Seq<Tried>, states: Seq<Files>, n: int) -> bool {
    let action = steps[n].action;
    &&& named_by(steps, n) == (action == WriteAction::SyncDirectory)
    &&& if action == WriteAction::SyncDirectory {
        states[n] == states[0].remove(plan.temporary).insert(plan.target, value)
    } else {
        states[n].remove(plan.temporary) == states[0].remove(plan.temporary)
    }
    &&& action == WriteAction::SyncFile || action == WriteAction::Rename ==> states[n].dom().contains(plan.temporary)
        && states[n][plan.temporary] == value
}

proof fn lemma_stands(plan: PlanView, value: Seq<u8>, steps: Seq<Tried>, states: Seq<Files>, n: int)
    requires
        in_order(steps),
        went_through(plan, value, steps, states),
        plan.temporary != plan.target,
        0 <= n < steps.len(),
    ensures
        stands(plan, value, steps, states, n),
    decreases n,
{
    let t = plan.temporary;
    if n > 0 {
        lemma_stands(plan, value, steps, states, n - 1);
        let last = steps[n - 1];
        assert(follows(steps, n));
        assert(may_leave(plan, value, last.action, last.reply is Ok, states[n - 1], states[n]));
        if named_by(steps, n - 1) {
            let i = choose|i: int|
                0 <= i < n - 1 && i < steps.len() && (#[trigger] steps[i]).action == WriteAction::Rename
                    && steps[i].reply is Ok;
            assert(steps[i].action == WriteAction::Rename);
        }
        if named_by(steps, n) {
            let i = choose|i: int|
                0 <= i < n && i < steps.len() && (#[trigger] steps[i]).action == WriteAction::Rename
                    && steps[i].reply is Ok;
            assert(i < n - 1 ==> named_by(steps, n - 1));
        }
        let before = states[n - 1];
        let after = states[n];
        match last.action {
            WriteAction::CreateTemporary => {
                if last.reply is Ok {
                    assert(after.remove(t) =~= before.remove(t));
                }
            },
            WriteAction::WriteBytes => {
                if last.reply is Ok {
                    assert(after.remove(t) =~= before.remove(t));
                }
            },
            WriteAction::Rename => {
                if last.reply is Ok {
                    assert(steps[n - 1].action == WriteAction::Rename);
                    assert(named_by(steps, n));
                }
            },
            _ => {},
        }
    }
}

/// At every point of a write, also when it is cut off there, the directory holds under
/// the final name either what it held before or the whole new value, and what it holds
/// under every other name but the temporary one is untouched.
pub proof fn law_write_is_all_or_nothing(
    plan: PlanView,
    value: Seq<u8>,
    steps: Seq<Tried>,
    states: Seq<Files>,
    n: int,
    name: Seq<char>,
)
    requires
        in_order(steps),
        went_through(plan, value, steps, states),
        plan.temporary != plan.target,
        0 <= n <= steps.len(),
        name != plan.temporary,
    ensures
        name != plan.target || !named_by(steps, n) ==> states[n].dom().contains(name) == states[0].dom().contains(name) && (
        states[0].dom().contains(name) ==> states[n][name] == states[0][name]),
        named_by(steps, n) ==> states[n].dom().contains(plan.target) && states[n][plan.target] == value,
{
    let t = plan.temporary;
    if n > 0 {
        let k = n - 1;
        lemma_stands(plan, value, steps, states, k);
        let last = steps[k];
        assert(may_leave(plan, value, last.action, last.reply is Ok, states[k], states[n]));
        if named_by(steps, n) {
            let i = choose|i: int|
                0 <= i < n && i < steps.len() && (#[trigger] steps[i]).action == WriteAction::Rename
                    && steps[i].reply is Ok;
            assert(i < k ==> named_by(steps, k));
        }
        if last.action == WriteAction::Rename && last.reply is Ok {
            assert(steps[k].action == WriteAction::Rename);
            assert(named_by(steps, n));
        }
        if named_by(steps, k) {
            let i = choose|i: int|
                0 <= i < k && i < steps.len() && (#[trigger] steps[i]).action == WriteAction::Rename
                    && steps[i].reply is Ok;
            assert(steps[i].action == WriteAction::Rename);
            assert(named_by(steps, n));
        }
        let a = states[0].remove(t);
        let b = states[k].remove(t);
        let c = states[n].remove(t);
        assert(a.dom().contains(name) == states[0].dom().contains(name));
        assert(b.dom().contains(name) == states[k].dom().contains(name));
        assert(c.dom().contains(name) == states[n].dom().contains(name));
        assert(a.dom().contains(name) ==> a[name] == states[0][name]);
        assert(b.dom().contains(name) ==> b[name] == states[k][name]);
        assert(c.dom().contains(name) ==> c[name] == states[n][name]);
    }
}

/// A write that was done leaves the new value under its name and no temporary file, and
/// one that failed leaves the old value.
pub proof fn law_finished_write_stands(plan: PlanView, value: Seq<u8>, steps: Seq<Tried>, states: Seq<Files>)
    requires
        finished(steps),
        went_through(plan, value, steps, states),
        plan.temporary != plan.target,
    ensures
        succeeded(steps) ==> states.last() == states[0].remove(plan.temporary).insert(plan.target, value),
        !succeeded(steps) ==> states.last().remove(plan.temporary) == states[0].remove(plan.temporary),
        !succeeded(steps) && steps.last().action == WriteAction::RemoveTemporary && steps.last().reply is Ok
            ==> !states.last().dom().contains(plan.temporary),
{
    let n = steps.len() - 1;
    lemma_stands(plan, value, steps, states, n);
    let last = steps[n];
    assert(may_leave(plan, value, last.action, last.reply is Ok, states[n], states[n + 1]));
    let t = plan.temporary;
    if last.action == WriteAction::RemoveTemporary && last.reply is Ok {
        assert(states[n + 1].remove(t) =~= states[n].remove(t));
    }
}

/// The temporary name of no value is the name of a value, so that no write disturbs
/// another key.
pub proof fn law_temporary_name_is_no_key(file: Seq<char>, process: u32, number: u64, key: Seq<u8>)
    ensures
        scratch::temporary_of(file, process, number) != scratch::key_name(key),
{
    reveal_strlit(".");
    scratch::law_key_name_is_safe(key);
    let name = scratch::temporary_of(file, process, number);
    assert(name[0] == '.');
    assert(scratch::is_hex(scratch::key_name(key)[0]));
}

/// What a directory holds under a key.
pub open spec fn stored(files: Files, key: Seq<u8>) -> Option<Seq<u8>> {
    if files.dom().contains(scratch::key_name(key)) {
        Some(files[scratch::key_name(key)])
    } else {
        None
    }
}

/// Reading a key after a write of it that was done gives back exactly the bytes that were
/// written, whatever was there before; after one that failed it gives what was there
/// before. Reading any other key gives what it gave before.
pub proof fn law_read_gives_back_what_was_written(
    dir: PlaceView,
    process: u32,
    number: u64,
    key: Seq<u8>,
    other: Seq<u8>,
    value: Seq<u8>,
    steps: Seq<Tried>,
    states: Seq<Files>,
)
    requires
        finished(steps),
        went_through(scratch::write_plan(dir, key, process, number), value, steps, states),
    ensures
        succeeded(steps) ==> stored(states.last(), key) == Some(value),
        !succeeded(steps) ==> stored(states.last(), key) == stored(states[0], key),
        other != key ==> stored(states.last(), other) == stored(states[0], other),
{
    if other != key {
        scratch::law_keys_have_names_of_their_own(other, key);
    }
    let plan = scratch::write_plan(dir, key, process, number);
    law_temporary_name_is_no_key(scratch::key_name(key), process, number, key);
    law_temporary_name_is_no_key(scratch::key_name(key), process, number, other);
    law_finished_write_stands(plan, value, steps, states);
    let a = states[0].remove(plan.temporary);
    let c = states.last().remove(plan.temporary);
    let k = scratch::key_name(key);
    let o = scratch::key_name(other);
    assert(a.dom().contains(k) == states[0].dom().contains(k));
    assert(c.dom().contains(k) == states.last().dom().contains(k));
    assert(a.dom().contains(o) == states[0].dom().contains(o));
    assert(c.dom().contains(o) == states.last().dom().contains(o));
    assert(a.dom().contains(k) ==> a[k] == states[0][k]);
    assert(c.dom().contains(k) ==> c[k] == states.last()[k]);
    assert(a.dom().contains(o) ==> a[o] == states[0][o]);
    assert(c.dom().contains(o) ==> c[o] == states.last()[o]);
}

/// A key that was removed reads as absent, other keys read as before, and after the whole
/// directory was removed every key reads as absent.
pub proof fn law_removed_is_absent(files: Files, key: Seq<u8>, other: Seq<u8>)
    ensures
        stored(files.remove(scratch::key_name(key)), key) is None,
        other != key ==> stored(files.remove(scratch::key_name(key)), other) == stored(files, other),
        stored(Map::empty(), key) is None,
{
    if other != key {
        scratch::law_keys_have_names_of_their_own(other, key);
    }
}

/// The steps of a write of which none fails, by their place.
pub open spec fn step_at(i: int) -> WriteAction {
    if i == 0 {
        WriteAction::MakeDirectory
    } else if i == 1 {
        WriteAction::CreateTemporary
    } else if i == 2 {
        WriteAction::WriteBytes
    } else if i == 3 {
        WriteAction::SyncFile
    } else if i == 4 {
        WriteAction::Rename
    } else {
        WriteAction::SyncDirectory
    }
}

/// Whether the first `n` steps are those of a write, and all of them were done.
pub open spec fn done_so_far(steps: Seq<Tried>, n: int) -> bool {
    forall|i: int| 0 <= i < n ==> (#[trigger] steps[i]).action == step_at(i) && steps[i].reply is Ok
}

proof fn lemma_step(steps: Seq<Tried>, n: int)
    requires
        in_order(steps),
        0 <= n < steps.len(),
    ensures
        ({
            ||| n <= 5 && steps[n].action == step_at(n) && done_so_far(steps, n)
            ||| {
                &&& 2 <= n <= 5
                &&& steps[n].action == WriteAction::RemoveTemporary
                &&& steps[n - 1].action == step_at(n - 1)
                &&& steps[n - 1].reply is Err
                &&& done_so_far(steps, n - 1)
            }
        }),
    decreases n,
{
    if n > 0 {
        lemma_step(steps, n - 1);
        assert(follows(steps, n));
    }
}

/// A write makes the directory, creates the temporary file, writes the value to it, makes
/// it durable, gives it its name, and makes the directory durable, in this order. It has
/// succeeded where all but the last were done, whatever came of that one. At the first
/// other step that fails it ends; the temporary file is removed where there may be one, and
/// what is reported is what was said of the step that failed.
pub proof fn law_a_write_goes_step_by_step(steps: Seq<Tried>)
    requires
        finished(steps),
    ensures
        ({
            let n = steps.len() as int;
            &&& succeeded(steps) <==> n == 6 && done_so_far(steps, 5) && steps[5].action == WriteAction::SyncDirectory
            &&& n == 1 ==> steps[0].action == WriteAction::MakeDirectory && steps[0].reply is Err && fault(steps)
                == steps[0].reply->Err_0@
            &&& !succeeded(steps) && n != 1 ==> {
                &&& 3 <= n <= 6
                &&& done_so_far(steps, n - 2)
                &&& steps[n - 2].action == step_at(n - 2)
                &&& steps[n - 2].reply is Err
                &&& steps[n - 1].action == WriteAction::RemoveTemporary
                &&& fault(steps) == steps[n - 2].reply->Err_0@
            }
        }),
{
    lemma_step(steps, steps.len() - 1);
}

/// A value is never given its name before it is written whole and durable.
pub proof fn law_a_value_is_durable_before_it_is_named(steps: Seq<Tried>, i: int)
    requires
        in_order(steps),
        0 <= i < steps.len(),
        steps[i].action == WriteAction::Rename,
    ensures
        i == 4,
        steps[1].action == WriteAction::CreateTemporary && steps[1].reply is Ok,
        steps[2].action == WriteAction::WriteBytes && steps[2].reply is Ok,
        steps[3].action == WriteAction::SyncFile && steps[3].reply is Ok,
{
    lemma_step(steps, i);
}

/// Every step of a write is performed, with the plan and the value, and its reply is what
/// the storage answered.
pub proof fn law_every_step_is_performed<F: Fn(WriteAction, &WritePlan, &[u8]) -> Result<(), String>>(
    perform: F,
    plan: WritePlan,
    value: &[u8],
    steps: Seq<Tried>,
    i: int,
)
    requires
        performed(perform, plan, value, steps),
        0 <= i < steps.len(),
    ensures
        call_ensures(perform, (steps[i].action, &plan, value), steps[i].reply),
{
}

} // verus!
