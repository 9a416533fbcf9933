//! The kinds of prompt slot, and how each computes its completions.

use vstd::prelude::*;

use crate::search::matching_entries;
use crate::state::project::Project;

verus! {

/// One slot description: the text shown to the user, whether empty input is
/// accepted, and an optional default value.
pub struct Prompt(pub String, pub bool, pub Option<String>);

impl Prompt {
    /// Prompt with no default value, and empty not allowed.
    pub fn new(val: &str) -> (r: Prompt)
        ensures
            r.0@ == val@,
            r.1 == false,
            r.2 is None,
    {
        Prompt(val.to_owned(), false, None)
    }

    /// Prompt with empty input allowed.
    pub fn new_empty_allowed(val: &str) -> (r: Prompt)
        ensures
            r.0@ == val@,
            r.1 == true,
            r.2 is None,
    {
        Prompt(val.to_owned(), true, None)
    }

    /// Prompt with a default value.
    pub fn new_with_default(val: &str, default: &str) -> (r: Prompt)
        ensures
            r.0@ == val@,
            r.1 == false,
            r.2 matches Some(d) && d@ == default@,
    {
        Prompt(val.to_owned(), false, Some(default.to_owned()))
    }

    /// Prompt with every part given.
    pub fn new_exact(val: &str, empty: bool, default: Option<String>) -> (r: Prompt)
        ensures
            r.0@ == val@,
            r.1 == empty,
            r.2 == default,
    {
        Prompt(val.to_owned(), empty, default)
    }
}

/// A section of a prompt session: wraps a slot description and says which
/// completion source applies to it.
pub enum PromptType {
    /// Plain text: no completion available.
    String(Prompt),
    /// Package path: completed from the package index.
    Package(Prompt),
    /// Declaration path: completed from the declaration index.
    Decl(Prompt),
}

impl PromptType {
    /// The wrapped slot description.
    pub open spec fn spec_prompt(&self) -> &Prompt {
        match self {
            PromptType::String(p) => p,
            PromptType::Package(p) => p,
            PromptType::Decl(p) => p,
        }
    }

    /// The slot's default value, if it has one.
    pub open spec fn spec_default(&self) -> Option<String> {
        self.spec_prompt().2
    }

    /// The display text of the slot.
    pub fn as_str(&self) -> (r: &str)
        ensures
            r@ == self.spec_prompt().0@,
    {
        match self {
            PromptType::String(p) => p.0.as_str(),
            PromptType::Package(p) => p.0.as_str(),
            PromptType::Decl(p) => p.0.as_str(),
        }
    }

    /// The slot's default value, if it has one.
    pub fn get_default(&self) -> (r: &Option<String>)
        ensures
            *r == self.spec_default(),
    {
        match self {
            PromptType::String(p) => &p.2,
            PromptType::Package(p) => &p.2,
            PromptType::Decl(p) => &p.2,
        }
    }

    /// What the completion list for this slot holds, given the two
    /// completion indices: the entries of the applicable index of which the
    /// typed text is a case-insensitive subsequence.
    pub open spec fn spec_complete(
        &self,
        pkg_strs: Seq<Seq<char>>,
        decl_strs: Seq<Seq<char>>,
        input: Seq<char>,
    ) -> Seq<Seq<char>> {
        match self {
            PromptType::String(p) => Seq::<Seq<char>>::empty(),
            PromptType::Package(p) => matching_entries(input, pkg_strs),
            PromptType::Decl(p) => matching_entries(input, decl_strs),
        }
    }

    /// Suggest completions of the given input from the current project
    /// state. Returns an empty list when no completion applies.
    pub fn complete(&self, project: &Project, input: &str) -> (r: Vec<String>)
        requires
            project.wf(),
        ensures
            r.deep_view() == self.spec_complete(
                project.pkg_completion_list.strs(),
                project.decl_completion_list.strs(),
                input@,
            ),
    {
        match self {
            PromptType::String(_p) => {
                let r: Vec<String> = Vec::new();
                proof {
                    assert(r.deep_view() =~= Seq::<Seq<char>>::empty());
                }
                r
            },
            PromptType::Package(_p) => project.pkg_completion_list.find_all_subsequences(input),
            PromptType::Decl(_p) => project.decl_completion_list.find_all_subsequences(input),
        }
    }
}

} // verus!
