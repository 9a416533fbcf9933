//! The select commands: each opens the prompt session that collects the name
//! to select.

use vstd::prelude::*;

use crate::prompt::PendingAction;
use crate::prompt::Prompt;
use crate::prompt::PromptType;
use crate::state::State;

verus! {

/// Called when the user issues a select package command: opens a prompt for
/// the package to select.
pub fn select_package(state: &mut State)
    requires
        old(state).wf(),
    ensures
        final(state).wf(),
        final(state).project == old(state).project,
        final(state).command_buffer == old(state).command_buffer,
        old(state).curr_prompt is Some ==> final(state).curr_prompt == old(state).curr_prompt,
        old(state).curr_prompt is None ==> (final(state).curr_prompt matches Some(p) && {
            &&& p.action == PendingAction::SelectPackage
            &&& p.prompts@.len() == 1
            &&& p.prompts@[0] matches PromptType::Package(q) && q.0@ == "Package Name"@ && q.1
                == true && q.2 is None
        }),
{
    let mut prompts: Vec<PromptType> = Vec::new();
    prompts.push(PromptType::Package(Prompt::new_empty_allowed("Package Name")));
    proof {
        assert(prompts@[0].spec_default() is None);
    }
    state.prompt(prompts, PendingAction::SelectPackage);
}

/// Called when the user issues a select declaration command: opens a prompt
/// for the declaration to select.
pub fn select_decl(state: &mut State)
    requires
        old(state).wf(),
    ensures
        final(state).wf(),
        final(state).project == old(state).project,
        final(state).command_buffer == old(state).command_buffer,
        old(state).curr_prompt is Some ==> final(state).curr_prompt == old(state).curr_prompt,
        old(state).curr_prompt is None ==> (final(state).curr_prompt matches Some(p) && {
            &&& p.action == PendingAction::SelectDecl
            &&& p.prompts@.len() == 1
            &&& p.prompts@[0] matches PromptType::Decl(q) && q.0@ == "Name"@ && q.1 == true
                && q.2 is None
        }),
{
    let mut prompts: Vec<PromptType> = Vec::new();
    prompts.push(PromptType::Decl(Prompt::new_empty_allowed("Name")));
    proof {
        assert(prompts@[0].spec_default() is None);
    }
    state.prompt(prompts, PendingAction::SelectDecl);
}

} // verus!
