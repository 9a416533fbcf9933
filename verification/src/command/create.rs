//! The create commands: each opens the prompt session that collects its
//! arguments.

use vstd::prelude::*;

use crate::prompt::PendingAction;
use crate::prompt::Prompt;
use crate::prompt::PromptType;
use crate::state::Selection;
use crate::state::State;

verus! {

/// Called when the user issues a create class command: opens a prompt for a
/// package name (prefilled from a selected package) and a class name.
pub fn create_class(state: &mut State)
    requires
        old(state).wf(),
    ensures
        final(state).wf(),
        final(state).project == old(state).project,
        final(state).command_buffer == old(state).command_buffer,
        old(state).curr_prompt is Some ==> final(state).curr_prompt == old(state).curr_prompt,
        old(state).curr_prompt is None ==> (final(state).curr_prompt matches Some(p) && {
            &&& p.action == PendingAction::CreateClass
            &&& p.prompts@.len() == 2
            &&& p.prompts@[0] matches PromptType::Package(q) && q.0@ == "Package Name"@ && q.1
                == true && q.2 == (match old(state).project.curr_sel {
                Some(Selection::Package(v)) => Some(v),
                _ => None::<String>,
            })
            &&& p.prompts@[1] matches PromptType::String(q) && q.0@ == "Class Name"@ && q.1
                == false && q.2 is None
        }),
{
    // If the current selection is a package, prefill it.
    let curr_sel: Option<String> = match &state.project.curr_sel {
        Some(Selection::Package(val)) => Some(val.clone()),
        _ => None,
    };
    let mut prompts: Vec<PromptType> = Vec::new();
    prompts.push(PromptType::Package(Prompt::new_exact("Package Name", true, curr_sel)));
    prompts.push(PromptType::String(Prompt::new("Class Name")));
    proof {
        assert(prompts@[1].spec_default() is None);
    }
    state.prompt(prompts, PendingAction::CreateClass);
}

/// Called when the user issues a create package command: opens a prompt for
/// the new package's qualified name.
pub fn create_package(state: &mut State)
    requires
        old(state).wf(),
    ensures
        final(state).wf(),
        final(state).project == old(state).project,
        final(state).command_buffer == old(state).command_buffer,
        old(state).curr_prompt is Some ==> final(state).curr_prompt == old(state).curr_prompt,
        old(state).curr_prompt is None ==> (final(state).curr_prompt matches Some(p) && {
            &&& p.action == PendingAction::CreatePackage
            &&& p.prompts@.len() == 1
            &&& p.prompts@[0] matches PromptType::Package(q) && q.0@ == "Package Name"@ && q.1
                == false && q.2 is None
        }),
{
    let mut prompts: Vec<PromptType> = Vec::new();
    prompts.push(PromptType::Package(Prompt::new("Package Name")));
    proof {
        assert(prompts@[0].spec_default() is None);
    }
    state.prompt(prompts, PendingAction::CreatePackage);
}

/// Called when the user issues a create field command: opens a prompt for a
/// declaration name (prefilled from a selected declaration), a type, and a
/// field name.
pub fn create_field(state: &mut State)
    requires
        old(state).wf(),
    ensures
        final(state).wf(),
        final(state).project == old(state).project,
        final(state).command_buffer == old(state).command_buffer,
        old(state).curr_prompt is Some ==> final(state).curr_prompt == old(state).curr_prompt,
        old(state).curr_prompt is None ==> (final(state).curr_prompt matches Some(p) && {
            &&& p.action == PendingAction::CreateField
            &&& p.prompts@.len() == 3
            &&& p.prompts@[0] matches PromptType::Decl(q) && q.0@ == "Class Name"@ && q.1 == false
                && q.2 == (match old(state).project.curr_sel {
                Some(Selection::Decl(v)) => Some(v),
                _ => None::<String>,
            })
            &&& p.prompts@[1] matches PromptType::Decl(q) && q.0@ == "Type"@ && q.1 == false
                && q.2 is None
            &&& p.prompts@[2] matches PromptType::String(q) && q.0@ == "Name"@ && q.1 == false
                && q.2 is None
        }),
{
    // If the current selection is a declaration, prefill it.
    let curr_sel: Option<String> = match &state.project.curr_sel {
        Some(Selection::Decl(val)) => Some(val.clone()),
        _ => None,
    };
    let mut prompts: Vec<PromptType> = Vec::new();
    prompts.push(PromptType::Decl(Prompt::new_exact("Class Name", false, curr_sel)));
    prompts.push(PromptType::Decl(Prompt::new("Type")));
    prompts.push(PromptType::String(Prompt::new("Name")));
    proof {
        assert(prompts@[1].spec_default() is None);
    }
    state.prompt(prompts, PendingAction::CreateField);
}

} // verus!
