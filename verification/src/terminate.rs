//! Planning a batched termination request for a list of process identifiers.

use vstd::prelude::*;

verus! {

/// The identifiers joined by a comma-and-space separator, in order.
pub open spec fn joined_with_comma(pids: Seq<Seq<char>>) -> Seq<char>
    decreases pids.len(),
{
    if pids.len() == 0 {
        Seq::empty()
    } else if pids.len() == 1 {
        pids[0]
    } else {
        joined_with_comma(pids.drop_last()) + seq![',', ' '] + pids.last()
    }
}

/// The confirmation text reported after a termination request was issued
/// for the given identifiers.
pub open spec fn killed_message(pids: Seq<Seq<char>>) -> Seq<char> {
    "Killed "@ + joined_with_comma(pids)
}

/// What a caller must do for a termination request: either nothing beyond
/// reporting the contained confirmation, or invoke the external
/// termination command once with the contained identifiers as arguments.
pub enum TerminateAction {
    Done(String),
    Invoke(Vec<String>),
}

/// Decides how a termination request is carried out. An empty identifier
/// list short-circuits: no external command is to be invoked and the
/// no-op confirmation is returned as is. A non-empty list asks for one
/// batched invocation of the termination command with every identifier,
/// in the given order.
pub fn plan_terminate(pids: &Vec<String>) -> (action: TerminateAction)
    ensures
        pids@.len() == 0 ==> (action matches TerminateAction::Done(msg) && msg@
            == "No processes to kill"@),
        pids@.len() > 0 ==> (action matches TerminateAction::Invoke(args) && args.deep_view()
            == pids.deep_view()),
{
    if pids.len() == 0 {
        TerminateAction::Done("No processes to kill".to_owned())
    } else {
        let mut args: Vec<String> = Vec::new();
        let mut i: usize = 0;
        while i < pids.len()
            invariant
                i <= pids@.len(),
                args@.len() == i,
                forall|j: int| 0 <= j < i ==> args@[j] == pids@[j],
            decreases pids@.len() - i,
        {
            args.push(pids[i].clone());
            i += 1;
        }
        proof {
            assert(args.deep_view() =~= pids.deep_view());
        }
        TerminateAction::Invoke(args)
    }
}

/// Builds the confirmation text for a termination request that was
/// issued for the given identifiers: the word `Killed` followed by the
/// identifiers joined with a comma and a space, in their original order.
pub fn killed_confirmation(pids: &Vec<String>) -> (msg: String)
    ensures
        msg@ == killed_message(pids.deep_view()),
{
    let mut msg: String = "Killed ".to_owned();
    let mut i: usize = 0;
    while i < pids.len()
        invariant
            i <= pids@.len(),
            msg@ == "Killed "@ + joined_with_comma(pids.deep_view().subrange(0, i as int)),
        decreases pids@.len() - i,
    {
        if i > 0 {
            msg.append(", ");
        }
        msg.append(pids[i].as_str());
        proof {
            lemma_joined_extend(pids.deep_view(), i as int);
            reveal_strlit(", ");
        }
        i += 1;
    }
    proof {
        assert(pids.deep_view().subrange(0, pids@.len() as int) =~= pids.deep_view());
    }
    msg
}

/// Extending the joined identifier text by one more identifier appends
/// the separator first, except before the very first identifier.
proof fn lemma_joined_extend(pids: Seq<Seq<char>>, i: int)
    requires
        0 <= i < pids.len(),
    ensures
        i == 0 ==> joined_with_comma(pids.subrange(0, i + 1)) == pids[0],
        i > 0 ==> joined_with_comma(pids.subrange(0, i + 1)) == joined_with_comma(
            pids.subrange(0, i),
        ) + seq![',', ' '] + pids[i],
{
    let pre = pids.subrange(0, i + 1);
    assert(pre.drop_last() =~= pids.subrange(0, i));
    assert(pre.last() == pids[i]);
}

} // verus!
