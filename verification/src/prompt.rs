//! The multi-slot prompt state machine: typed slots collected one at a time
//! with live autocompletion and forward/backward completion cycling.

use vstd::prelude::*;
use vstd::string::StrSliceExecFns;
use vstd::string::StringExecFns;

pub mod prompt_type;

pub use prompt_type::Prompt;
pub use prompt_type::PromptType;

use crate::input::InputChunk;
use crate::input::KeyCode;
use crate::state::project::Project;

verus! {

/// What the host does with the collected values when the session completes.
#[derive(Clone, Copy, Debug, PartialEq, Eq, Structural)]
pub enum PendingAction {
    CreateClass,
    CreatePackage,
    CreateField,
    SelectPackage,
    SelectDecl,
}

/// A character the prompt ignores: the Unicode control categories.
pub open spec fn is_control_char(c: char) -> bool {
    (c as u32) < 32 || (127 <= c as u32 && c as u32 <= 159)
}

fn control_char(c: char) -> (r: bool)
    ensures
        r == is_control_char(c),
{
    let u = c as u32;
    u < 32 || (127 <= u && u <= 159)
}

/// Whether a value stands in a completion list.
pub open spec fn in_list(l: Seq<Seq<char>>, v: Seq<char>) -> bool {
    exists|k: int| 0 <= k < l.len() && l[k] == v
}

/// Where one forward cycle moves the active completion: from none to the
/// last completion, from the first back to none, otherwise one down.
pub open spec fn forward_cycle(active: Option<usize>, ncomp: nat) -> Option<usize> {
    match active {
        None => if ncomp > 0 {
            Some((ncomp - 1) as usize)
        } else {
            None
        },
        Some(a) => if a == 0 {
            None
        } else {
            Some((a - 1) as usize)
        },
    }
}

/// Where one backward cycle moves an active completion: one up, or to none
/// past the last. (With no active completion, backward moves the slot focus
/// instead.)
pub open spec fn backward_cycle(active: Option<usize>, ncomp: nat) -> Option<usize> {
    match active {
        Some(a) => if a + 1 >= ncomp {
            None
        } else {
            Some((a + 1) as usize)
        },
        None => None,
    }
}

/// The first slot index with no default value, or the slot count when all
/// have one.
pub open spec fn first_without_default(ps: Seq<PromptType>) -> int
    decreases ps.len(),
{
    if ps.len() == 0 {
        0
    } else if ps[0].spec_default() is None {
        0
    } else {
        1 + first_without_default(ps.skip(1))
    }
}

proof fn lemma_first_without_default_at(ps: Seq<PromptType>, i: int)
    requires
        0 <= i < ps.len(),
        forall|k: int| 0 <= k < i ==> ps[k].spec_default() is Some,
        ps[i].spec_default() is None,
    ensures
        first_without_default(ps) == i,
    decreases i,
{
    if i == 0 {
    } else {
        assert forall|k: int| 0 <= k < i - 1 implies ps.skip(1)[k].spec_default() is Some by {
            assert(ps.skip(1)[k] == ps[k + 1]);
        }
        assert(ps.skip(1)[i - 1] == ps[i]);
        lemma_first_without_default_at(ps.skip(1), i - 1);
    }
}

/// Relies on String::push: appends one character at the end.
#[verifier::external_body]
fn push_char(s: &mut String, c: char)
    ensures
        final(s)@ == old(s)@.push(c),
{
    s.push(c)
}

/// How one control chord moves the prompt state, and whether the owner must
/// refresh the completion list afterwards: a forward or backward cycle moves
/// the active completion; backward with none active moves to the previous
/// slot; backspace pops the last character of the active slot; anything else
/// is ignored.
pub open spec fn key_step(p1: PromptInput, p2: PromptInput, i: InputChunk, refresh: bool) -> bool {
    &&& p2.prompts == p1.prompts
    &&& p2.action == p1.action
    &&& p2.curr_completions == p1.curr_completions
    &&& p2.completion_match == p1.completion_match
    &&& ({
        let ncomp = p1.curr_completions@.len();
        let cp = p1.curr_prompt as int;
        if i.0 == KeyCode::Tab && i.1 == 0u8 {
            &&& p2.inputs == p1.inputs
            &&& p2.curr_prompt == p1.curr_prompt
            &&& p2.active_completion == forward_cycle(p1.active_completion, ncomp)
            &&& refresh == false
        } else if i.0 == KeyCode::Tab && i.1 == 8u8 {
            &&& p2.inputs == p1.inputs
            &&& match p1.active_completion {
                Some(a) => p2.active_completion == backward_cycle(p1.active_completion, ncomp)
                    && p2.curr_prompt == p1.curr_prompt && refresh == false,
                None => p2.active_completion is None && p2.curr_prompt == (if p1.curr_prompt > 0 {
                    (p1.curr_prompt - 1) as usize
                } else {
                    0usize
                }) && refresh == true,
            }
        } else if i.0 == KeyCode::Back {
            &&& p2.active_completion == p1.active_completion
            &&& p2.curr_prompt == p1.curr_prompt
            &&& refresh == true
            &&& p2.inputs@.len() == p1.inputs@.len()
            &&& (forall|k: int|
                0 <= k < p1.inputs@.len() && k != cp ==> #[trigger] p2.inputs@[k]
                    == p1.inputs@[k])
            &&& p2.inputs@[cp]@ == (if p1.inputs@[cp]@.len() > 0 {
                p1.inputs@[cp]@.drop_last()
            } else {
                p1.inputs@[cp]@
            })
        } else {
            &&& p2 == p1
            &&& refresh == false
        }
    })
}

/// How one character moves the prompt state: a line terminator commits the
/// active slot (the selected completion first, if any) and moves on, `done`
/// saying whether that was the last slot; another printable character first
/// commits a selected completion, then appends itself; other control
/// characters are ignored.
pub open spec fn char_step(p1: PromptInput, p2: PromptInput, c: char, done: bool) -> bool {
    &&& p2.prompts == p1.prompts
    &&& p2.action == p1.action
    &&& p2.curr_completions == p1.curr_completions
    &&& ({
        let cp = p1.curr_prompt as int;
        let comps = p1.curr_completions.deep_view();
        if c == '\r' || c == '\n' {
            let committed: Seq<char> = match p1.active_completion {
                Some(a) => p1.curr_completions@[a as int]@,
                None => p1.inputs@[cp]@,
            };
            let matched: bool = match p1.active_completion {
                Some(a) => true,
                None => in_list(comps, p1.inputs@[cp]@),
            };
            &&& p2.curr_prompt == p1.curr_prompt + 1
            &&& done == (p1.curr_prompt + 1 >= p1.prompts@.len())
            &&& p2.active_completion is None
            &&& p2.inputs@.len() == p1.inputs@.len()
            &&& (forall|k: int|
                0 <= k < p1.inputs@.len() && k != cp ==> #[trigger] p2.inputs@[k]
                    == p1.inputs@[k])
            &&& p2.inputs@[cp]@ == committed
            &&& p2.completion_match@ == p1.completion_match@.update(cp, matched)
        } else if is_control_char(c) {
            &&& p2 == p1
            &&& done == false
        } else {
            let base: Seq<char> = match p1.active_completion {
                Some(a) => p1.curr_completions@[a as int]@,
                None => p1.inputs@[cp]@,
            };
            &&& p2.curr_prompt == p1.curr_prompt
            &&& done == false
            &&& p2.active_completion is None
            &&& p2.completion_match == p1.completion_match
            &&& p2.inputs@.len() == p1.inputs@.len()
            &&& (forall|k: int|
                0 <= k < p1.inputs@.len() && k != cp ==> #[trigger] p2.inputs@[k]
                    == p1.inputs@[k])
            &&& p2.inputs@[cp]@ == base.push(c)
        }
    })
}

/// How a completion refresh moves the prompt state: the candidates are
/// recomputed from the active slot's raw text against the applicable
/// completion index, and no completion is selected.
pub open spec fn refresh_step(
    p1: PromptInput,
    p2: PromptInput,
    pkg_strs: Seq<Seq<char>>,
    decl_strs: Seq<Seq<char>>,
) -> bool {
    &&& p2.prompts == p1.prompts
    &&& p2.inputs == p1.inputs
    &&& p2.completion_match == p1.completion_match
    &&& p2.action == p1.action
    &&& p2.curr_prompt == p1.curr_prompt
    &&& p2.active_completion is None
    &&& p2.curr_completions.deep_view() == p1.prompts@[p1.curr_prompt as int].spec_complete(
        pkg_strs,
        decl_strs,
        p1.inputs@[p1.curr_prompt as int]@,
    )
}

/// A generic text prompt: a list of slots collected one at a time, the
/// user's input for each, the live completion list of the active slot, and
/// the action to dispatch when the last slot is committed.
pub struct PromptInput {
    /// The list of things we are prompting the user for.
    pub prompts: Vec<PromptType>,
    /// The user's input, one value per slot.
    pub inputs: Vec<String>,
    /// Whether each committed slot exactly matched an offered completion.
    pub completion_match: Vec<bool>,
    /// What to do with the values when the session completes.
    pub action: PendingAction,
    /// The index of the slot being collected.
    pub curr_prompt: usize,
    /// The current completion candidates for the active slot.
    pub curr_completions: Vec<String>,
    /// The index of the selected completion, if one is selected.
    pub active_completion: Option<usize>,
}

impl PromptInput {
    /// The slot lists line up and a selected completion exists.
    pub open spec fn wf(&self) -> bool {
        &&& self.prompts@.len() > 0
        &&& self.inputs@.len() == self.prompts@.len()
        &&& self.completion_match@.len() == self.prompts@.len()
        &&& self.curr_prompt <= self.prompts@.len()
        &&& match self.active_completion {
            Some(a) => a < self.curr_completions@.len(),
            None => true,
        }
    }

    /// The session still collects a slot; it ends when the index passes the
    /// last one.
    pub open spec fn in_progress(&self) -> bool {
        self.curr_prompt < self.prompts@.len()
    }

    /// Start a session: slots with a default are pre-filled, and collection
    /// begins at the first slot without one.
    pub fn new(prompts: Vec<PromptType>, action: PendingAction) -> (r: PromptInput)
        requires
            prompts@.len() > 0,
            exists|i: int| 0 <= i < prompts@.len() && (#[trigger] prompts@[i].spec_default()) is None,
        ensures
            r.wf(),
            r.in_progress(),
            r.prompts == prompts,
            r.action == action,
            r.inputs@.len() == prompts@.len(),
            forall|i: int|
                0 <= i < prompts@.len() ==> (#[trigger] r.inputs@[i])@ == match prompts@[i].spec_default() {
                    Some(d) => d@,
                    None => Seq::<char>::empty(),
                },
            r.curr_prompt == first_without_default(prompts@),
            r.curr_completions@.len() == 0,
            r.active_completion is None,
            forall|i: int| 0 <= i < prompts@.len() ==> (#[trigger] r.completion_match@[i]) == false,
    {
        let n = prompts.len();
        let mut inputs: Vec<String> = Vec::new();
        let mut completion_match: Vec<bool> = Vec::new();
        let mut i: usize = 0;
        while i < n
            invariant
                n == prompts@.len(),
                0 <= i <= n,
                inputs@.len() == i,
                completion_match@.len() == i,
                forall|k: int|
                    0 <= k < i ==> (#[trigger] inputs@[k])@ == match prompts@[k].spec_default() {
                        Some(d) => d@,
                        None => Seq::<char>::empty(),
                    },
                forall|k: int| 0 <= k < i ==> (#[trigger] completion_match@[k]) == false,
            decreases n - i,
        {
            match prompts[i].get_default() {
                Some(d) => inputs.push(d.clone()),
                None => inputs.push(String::new()),
            }
            completion_match.push(false);
            i = i + 1;
        }
        let mut curr_prompt: usize = 0;
        let mut found = false;
        while curr_prompt < n && !found
            invariant
                n == prompts@.len(),
                0 <= curr_prompt <= n,
                exists|k: int|
                    0 <= k < prompts@.len() && (#[trigger] prompts@[k].spec_default()) is None,
                forall|k: int|
                    0 <= k < curr_prompt ==> (#[trigger] prompts@[k].spec_default()) is Some,
                found ==> curr_prompt < n && prompts@[curr_prompt as int].spec_default() is None,
            decreases n - curr_prompt + (if found {
                0int
            } else {
                1int
            }),
        {
            match prompts[curr_prompt].get_default() {
                Some(_) => {
                    curr_prompt = curr_prompt + 1;
                },
                None => {
                    found = true;
                },
            }
        }
        proof {
            if !found {
                let k = choose|k: int|
                    0 <= k < prompts@.len() && (#[trigger] prompts@[k].spec_default()) is None;
                assert(false);
            }
            lemma_first_without_default_at(prompts@, curr_prompt as int);
        }
        PromptInput {
            inputs,
            prompts,
            completion_match,
            action,
            curr_prompt,
            curr_completions: Vec::new(),
            active_completion: None,
        }
    }

    /// The index of the selected completion, if one is selected.
    pub fn get_active_completion(&self) -> (r: Option<usize>)
        ensures
            r == self.active_completion,
    {
        self.active_completion
    }

    /// The current completion candidates.
    pub fn get_completions(&self) -> (r: &Vec<String>)
        ensures
            r == &self.curr_completions,
    {
        &self.curr_completions
    }

    /// The index of the slot being collected.
    pub fn get_curr_prompt(&self) -> (r: usize)
        ensures
            r == self.curr_prompt,
    {
        self.curr_prompt
    }

    /// The raw text of the slot being collected.
    pub fn get_curr_input(&self) -> (r: &str)
        requires
            self.wf(),
            self.in_progress(),
        ensures
            r@ == self.inputs@[self.curr_prompt as int]@,
    {
        self.inputs[self.curr_prompt].as_str()
    }

    /// Key input for control chords: completion cycling and backspace.
    /// Returns whether the owner should refresh the completion list (it
    /// should after an edit or a slot change, not after a cycle).
    pub fn key_input(&mut self, i: InputChunk) -> (refresh: bool)
        requires
            old(self).wf(),
            old(self).in_progress(),
        ensures
            final(self).wf(),
            final(self).in_progress(),
            key_step(*old(self), *final(self), i, refresh),
    {
        match (i.0, i.1) {
            (KeyCode::Tab, 8u8) => {
                match self.active_completion {
                    Some(a) => {
                        if a >= self.curr_completions.len() - 1 {
                            self.active_completion = None;
                        } else {
                            self.active_completion = Some(a + 1);
                        }
                        false
                    },
                    None => {
                        if self.curr_prompt > 0 {
                            self.curr_prompt = self.curr_prompt - 1;
                        }
                        true
                    },
                }
            },
            (KeyCode::Tab, 0u8) => {
                match self.active_completion {
                    None => {
                        if self.curr_completions.len() > 0 {
                            self.active_completion = Some(self.curr_completions.len() - 1);
                        }
                    },
                    Some(a) => {
                        if a == 0 {
                            self.active_completion = None;
                        } else {
                            self.active_completion = Some(a - 1);
                        }
                    },
                }
                false
            },
            (KeyCode::Back, _) => {
                let cp = self.curr_prompt;
                let cur_len = self.inputs[cp].as_str().unicode_len();
                if cur_len > 0 {
                    let shorter = self.inputs[cp].as_str().substring_char(0, cur_len - 1)
                        .to_owned();
                    proof {
                        assert(old(self).inputs@[cp as int]@.subrange(
                            0,
                            old(self).inputs@[cp as int]@.len() - 1,
                        ) =~= old(self).inputs@[cp as int]@.drop_last());
                    }
                    let slot = &mut self.inputs[cp];
                    *slot = shorter;
                }
                true
            },
            _ => { false },
        }
    }

    /// Input one character. A line terminator commits the active slot (the
    /// selected completion first, if any) and moves on; any other printable
    /// character first commits a selected completion into the slot, then
    /// appends itself. Other control characters are ignored.
    ///
    /// Returns true when the last slot was committed: the session is
    /// complete and its values are ready for its action.
    pub fn char_input(&mut self, c: char) -> (done: bool)
        requires
            old(self).wf(),
            old(self).in_progress(),
        ensures
            final(self).wf(),
            char_step(*old(self), *final(self), c, done),
    {
        let cp = self.curr_prompt;
        let nlen = self.prompts.len();
        proof {
            assert(cp < nlen);
        }
        if c == '\r' || c == '\n' {
            let matched: bool;
            match self.active_completion {
                Some(a) => {
                    let v = self.curr_completions[a].clone();
                    let slot = &mut self.inputs[cp];
                    *slot = v;
                    matched = true;
                },
                None => {
                    matched = self.current_input_in_completions();
                },
            }
            self.active_completion = None;
            let flag = &mut self.completion_match[cp];
            *flag = matched;
            self.curr_prompt = cp + 1;
            return self.curr_prompt >= self.prompts.len();
        }
        if !control_char(c) {
            match self.active_completion {
                Some(a) => {
                    let v = self.curr_completions[a].clone();
                    let slot = &mut self.inputs[cp];
                    *slot = v;
                    self.active_completion = None;
                },
                None => {},
            }
            let slot = &mut self.inputs[cp];
            push_char(slot, c);
        }
        false
    }

    /// Whether the active slot's raw text equals one of the offered
    /// completions.
    fn current_input_in_completions(&self) -> (r: bool)
        requires
            self.wf(),
            self.in_progress(),
        ensures
            r == in_list(
                self.curr_completions.deep_view(),
                self.inputs@[self.curr_prompt as int]@,
            ),
    {
        let n = self.curr_completions.len();
        let ghost comps = self.curr_completions.deep_view();
        let mut k: usize = 0;
        while k < n
            invariant
                self.wf(),
                self.in_progress(),
                n == self.curr_completions@.len(),
                comps == self.curr_completions.deep_view(),
                0 <= k <= n,
                forall|m: int| 0 <= m < k ==> comps[m] != self.inputs@[self.curr_prompt as int]@,
            decreases n - k,
        {
            if self.curr_completions[k] == self.inputs[self.curr_prompt] {
                proof {
                    assert(comps[k as int] == self.inputs@[self.curr_prompt as int]@);
                }
                return true;
            }
            k = k + 1;
        }
        false
    }

    /// Recompute the completion candidates for the active slot from its
    /// current raw text, and deselect any active completion.
    pub fn update_completions(&mut self, project: &Project)
        requires
            old(self).wf(),
            old(self).in_progress(),
            project.wf(),
        ensures
            final(self).wf(),
            final(self).in_progress(),
            refresh_step(
                *old(self),
                *final(self),
                project.pkg_completion_list.strs(),
                project.decl_completion_list.strs(),
            ),
    {
        let cp = self.curr_prompt;
        self.curr_completions = self.prompts[cp].complete(project, self.inputs[cp].as_str());
        self.active_completion = None;
    }
}

/// One forward completion cycle is undone by one backward cycle, wherever
/// the forward step leaves a completion selected.
pub proof fn lemma_cycle_symmetry(active: Option<usize>, ncomp: nat)
    requires
        active matches Some(a) && a < ncomp,
        forward_cycle(active, ncomp) is Some,
    ensures
        backward_cycle(forward_cycle(active, ncomp), ncomp) == active,
{
}

/// One backward completion cycle is undone by one forward cycle, wherever
/// the backward step leaves a completion selected.
pub proof fn lemma_cycle_symmetry_back(active: Option<usize>, ncomp: nat)
    requires
        active matches Some(a) && a < ncomp,
        ncomp <= usize::MAX,
        backward_cycle(active, ncomp) is Some,
    ensures
        forward_cycle(backward_cycle(active, ncomp), ncomp) == active,
{
}

/// The selection after `k` forward cycles, starting from no active
/// completion.
pub open spec fn forward_cycles(k: nat, ncomp: nat) -> Option<usize>
    decreases k,
{
    if k == 0 {
        None
    } else {
        forward_cycle(forward_cycles((k - 1) as nat, ncomp), ncomp)
    }
}

/// Forward cycling visits the completions from the last down to the first:
/// with `n` completions and none active, the `k`th forward cycle selects
/// index `n - k`.
pub proof fn lemma_forward_cycle_order(k: nat, ncomp: nat)
    requires
        1 <= k <= ncomp,
        ncomp <= usize::MAX,
    ensures
        forward_cycles(k, ncomp) == Some((ncomp - k) as usize),
    decreases k,
{
    if k == 1 {
    } else {
        lemma_forward_cycle_order((k - 1) as nat, ncomp);
    }
}

/// After the first index, one more forward cycle deactivates: the raw typed
/// text is shown again.
pub proof fn lemma_forward_cycle_wraps(ncomp: nat)
    requires
        1 <= ncomp <= usize::MAX,
    ensures
        forward_cycles(ncomp + 1, ncomp) is None,
{
    lemma_forward_cycle_order(ncomp, ncomp);
}

/// A chain of `k` forward-cycle chords fed one `key_input` at a time.
pub open spec fn cycle_chain(p1: PromptInput, p2: PromptInput, k: nat) -> bool
    decreases k,
{
    if k == 0 {
        p2 == p1
    } else {
        exists|mid: PromptInput|
            cycle_chain(p1, mid, (k - 1) as nat) && #[trigger] key_step(
                mid,
                p2,
                InputChunk(KeyCode::Tab, 0u8),
                false,
            )
    }
}

/// Prompt cycling, in general over the real transitions: with `n`
/// completions offered and none active, `k` forward cycles (`1 <= k <= n`)
/// select completion `n - k` — the last one first, then one lower each time
/// — and touch neither the slot values, the slot index, nor the completion
/// list.
pub proof fn lemma_cycle_chain_order(p1: PromptInput, p2: PromptInput, k: nat)
    requires
        cycle_chain(p1, p2, k),
        p1.active_completion is None,
        1 <= k <= p1.curr_completions@.len() + 1,
        p1.curr_completions@.len() >= 1,
        p1.curr_completions@.len() <= usize::MAX,
    ensures
        p2.inputs == p1.inputs,
        p2.curr_prompt == p1.curr_prompt,
        p2.curr_completions == p1.curr_completions,
        p2.prompts == p1.prompts,
        p2.active_completion == forward_cycles(k, p1.curr_completions@.len()),
        k <= p1.curr_completions@.len() ==> p2.active_completion == Some(
            (p1.curr_completions@.len() - k) as usize,
        ),
        k == p1.curr_completions@.len() + 1 ==> p2.active_completion is None,
    decreases k,
{
    let n = p1.curr_completions@.len();
    let mid = choose|mid: PromptInput|
        cycle_chain(p1, mid, (k - 1) as nat) && #[trigger] key_step(
            mid,
            p2,
            InputChunk(KeyCode::Tab, 0u8),
            false,
        );
    if k == 1 {
        assert(mid == p1);
    } else {
        lemma_cycle_chain_order(p1, mid, (k - 1) as nat);
        lemma_forward_cycle_order((k - 1) as nat, n);
    }
    if k <= n {
        lemma_forward_cycle_order(k, n);
    }
    if k == n + 1 {
        lemma_forward_cycle_wraps(n);
    }
}

/// A chain of printable characters fed one `char_input` at a time, none of
/// them a terminator or another control character.
pub open spec fn typed_chain(p1: PromptInput, p2: PromptInput, cs: Seq<char>) -> bool
    decreases cs.len(),
{
    if cs.len() == 0 {
        p2 == p1
    } else {
        exists|mid: PromptInput|
            typed_chain(p1, mid, cs.drop_last()) && #[trigger] char_step(
                mid,
                p2,
                cs.last(),
                false,
            )
    }
}

/// Round trip of typed text, in general over the real transitions: feeding
/// the printable characters `cs` one `char_input` at a time into a session
/// with no completion selected leaves the active slot holding its old text
/// followed by exactly `cs`, every other slot untouched — so reading the
/// slot back before committing returns what was typed. (Selecting a
/// completion replaces the slot with that completion's text; from then on
/// this law applies with the completion text as the base.)
pub proof fn lemma_typed_chain_round_trip(p1: PromptInput, p2: PromptInput, cs: Seq<char>)
    requires
        typed_chain(p1, p2, cs),
        p1.active_completion is None,
        p1.curr_prompt < p1.inputs@.len(),
        forall|k: int| 0 <= k < cs.len() ==> !is_control_char(#[trigger] cs[k]),
    ensures
        p2.curr_prompt == p1.curr_prompt,
        p2.active_completion is None,
        p2.inputs@.len() == p1.inputs@.len(),
        p2.inputs@[p1.curr_prompt as int]@ == p1.inputs@[p1.curr_prompt as int]@ + cs,
        forall|k: int|
            0 <= k < p1.inputs@.len() && k != p1.curr_prompt ==> #[trigger] p2.inputs@[k]
                == p1.inputs@[k],
    decreases cs.len(),
{
    let cp = p1.curr_prompt as int;
    if cs.len() == 0 {
        assert(p1.inputs@[cp]@ + cs =~= p1.inputs@[cp]@);
    } else {
        let mid = choose|mid: PromptInput|
            typed_chain(p1, mid, cs.drop_last()) && #[trigger] char_step(
                mid,
                p2,
                cs.last(),
                false,
            );
        assert forall|k: int| 0 <= k < cs.drop_last().len() implies !is_control_char(
            #[trigger] cs.drop_last()[k],
        ) by {
            assert(cs.drop_last()[k] == cs[k]);
        }
        lemma_typed_chain_round_trip(p1, mid, cs.drop_last());
        assert(!is_control_char(cs.last()));
        assert(cs.last() != '\r' && cs.last() != '\n');
        assert(p2.inputs@[cp]@ == mid.inputs@[cp]@.push(cs.last()));
        assert(p1.inputs@[cp]@ + cs =~= (p1.inputs@[cp]@ + cs.drop_last()).push(cs.last()));
    }
}

/// What a slot holds after a sequence of printable characters is typed into
/// it, one `char_input` at a time, starting from some base text.
pub open spec fn slot_after_typing(init: Seq<char>, typed: Seq<char>) -> Seq<char>
    decreases typed.len(),
{
    if typed.len() == 0 {
        init
    } else {
        slot_after_typing(init, typed.drop_last()).push(typed.last())
    }
}

/// Round trip of typed text: typing a character sequence into a slot leaves
/// the slot holding exactly the base text followed by that sequence, so
/// reading the slot back before committing returns what was typed. (When a
/// completion is selected mid-way, the base text is that completion's text
/// from the moment of selection on.)
pub proof fn lemma_typing_round_trip(init: Seq<char>, typed: Seq<char>)
    ensures
        slot_after_typing(init, typed) == init + typed,
    decreases typed.len(),
{
    if typed.len() == 0 {
        assert(slot_after_typing(init, typed) =~= init + typed);
    } else {
        lemma_typing_round_trip(init, typed.drop_last());
        assert(slot_after_typing(init, typed) =~= init + typed);
    }
}

} // verus!
