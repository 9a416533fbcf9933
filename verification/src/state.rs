//! The aggregate application state: the namespace project, the command
//! buffer, and at most one active prompt session; every input event is
//! routed to the command path or the prompt path, never both at once.

use vstd::prelude::*;
use vstd::string::StrSliceExecFns;

pub mod project;

pub use project::Project;
pub use project::Selection;

use crate::command::create::create_class;
use crate::command::create::create_field;
use crate::command::create::create_package;
use crate::command::select::select_decl;
use crate::command::select::select_package;
use crate::command::Command;
use crate::command::CommandBuffer;
use crate::command::CreateCommand;
use crate::command::CreateObject;
use crate::command::SelectCommand;
use crate::command::SelectObject;
use crate::input::InputChunk;
use crate::input::KeyCode;
use crate::java_model::package::all_decl_names;
use crate::java_model::package::has_decl;
use crate::java_model::package::idx_of_name;
use crate::java_model::package::is_new_field_member;
use crate::java_model::package::match_depth;
use crate::java_model::package::member_target_exists;
use crate::java_model::package::seg_ok;
use crate::java_model::package::spec_forest_added;
use crate::java_model::package::spec_forest_decl_added;
use crate::java_model::package::spec_member_added;
use crate::java_model::package::split_path;
use crate::java_model::package::split_segments;
use crate::java_model::package::valid_path;
use crate::java_model::package::walk_to;
use crate::java_model::Class;
use crate::java_model::ClassMember;
use crate::java_model::Declaration;
use crate::java_model::NamespaceError;
use crate::java_model::Package;
use crate::prompt::char_step;
use crate::prompt::key_step;
use crate::prompt::refresh_step;
use crate::prompt::PendingAction;
use crate::prompt::PromptInput;
use crate::prompt::PromptType;

verus! {

/// An input event the core consumes: a structural key chord (pressed), or a
/// decoded printable character.
pub enum InputEvent {
    Key(InputChunk),
    Character(char),
}

/// How many collected values each action reads.
pub open spec fn action_arity(a: PendingAction) -> int {
    match a {
        PendingAction::CreateClass => 2,
        PendingAction::CreatePackage => 1,
        PendingAction::CreateField => 3,
        PendingAction::SelectPackage => 1,
        PendingAction::SelectDecl => 1,
    }
}

/// The prompt action each command dispatches to.
pub open spec fn action_of(c: Command) -> PendingAction {
    match c {
        Command::Create(CreateCommand(CreateObject::Class)) => PendingAction::CreateClass,
        Command::Create(CreateCommand(CreateObject::Package)) => PendingAction::CreatePackage,
        Command::Create(CreateCommand(CreateObject::Field)) => PendingAction::CreateField,
        Command::Select(SelectCommand(SelectObject::Package)) => PendingAction::SelectPackage,
        Command::Select(SelectCommand(SelectObject::Class)) => PendingAction::SelectDecl,
    }
}

/// A freshly created class declaration: named, and otherwise empty.
pub open spec fn is_new_class_decl(d: Declaration, name: Seq<char>) -> bool {
    match d {
        Declaration::Class(c) => {
            &&& c.name@ == name
            &&& c.type_params@.len() == 0
            &&& c.implements@.len() == 0
            &&& c.extends@.len() == 0
            &&& c.members@.len() == 0
            &&& c.inner_classes@.len() == 0
            &&& c.modifiers@.len() == 0
        },
    }
}

/// The chord that cancels everything: ctrl and the letter G.
pub open spec fn is_cancel_chord(i: InputChunk) -> bool {
    i.0 == KeyCode::G && i.1 == 4u8
}

/// How a completed prompt session changes the project, given the collected
/// values and their completion-match flags. A value that does not form a
/// usable path (or a name holding the index sentinel) is treated as a soft
/// failure: the project is left alone.
pub open spec fn apply_rel(
    action: PendingAction,
    vals: Seq<Seq<char>>,
    matches: Seq<bool>,
    p1: Project,
    p2: Project,
) -> bool {
    match action {
        PendingAction::CreateClass => {
            if valid_path(vals[0]) && !vals[1].contains('\x00') {
                &&& p2.pkg_completion_list == p1.pkg_completion_list
                &&& p2.curr_sel == p1.curr_sel
                &&& ({
                    let segs = split_path(vals[0]);
                    let ps = p1.package_list@;
                    let i = idx_of_name(ps, segs[0]);
                    if i < ps.len() && match_depth(ps[i], segs.skip(1)) == segs.len() - 1
                        && has_decl(walk_to(ps[i], segs.skip(1)), vals[1]) {
                        p2.package_list@ == p1.package_list@
                    } else {
                        exists|d: Declaration|
                            is_new_class_decl(d, vals[1]) && spec_forest_decl_added(
                                ps,
                                p2.package_list@,
                                segs,
                                d,
                            )
                    }
                })
                &&& p2.decl_completion_list.strs() == all_decl_names(p2.package_list@)
            } else {
                p2 == p1
            }
        },
        PendingAction::CreatePackage => {
            if valid_path(vals[0]) {
                &&& p2.pkg_completion_list == p1.pkg_completion_list
                &&& p2.decl_completion_list == p1.decl_completion_list
                &&& p2.curr_sel == p1.curr_sel
                &&& spec_forest_added(p1.package_list@, p2.package_list@, split_path(vals[0]))
            } else {
                p2 == p1
            }
        },
        PendingAction::CreateField => {
            if split_path(vals[0]).len() >= 2 {
                &&& p2.pkg_completion_list == p1.pkg_completion_list
                &&& p2.decl_completion_list == p1.decl_completion_list
                &&& p2.curr_sel == p1.curr_sel
                &&& ({
                    let segs = split_path(vals[0]);
                    let ps = p1.package_list@;
                    let i = idx_of_name(ps, segs[0]);
                    if i < ps.len() && member_target_exists(ps[i], segs.skip(1)) {
                        &&& p2.package_list@.len() == ps.len()
                        &&& (forall|k: int|
                            0 <= k < ps.len() && k != i ==> p2.package_list@[k] == ps[k])
                        &&& exists|m: ClassMember|
                            is_new_field_member(m, vals[2]) && spec_member_added(
                                ps[i],
                                p2.package_list@[i],
                                segs.skip(1),
                                m,
                            )
                    } else {
                        p2.package_list@ == p1.package_list@
                    }
                })
            } else {
                p2 == p1
            }
        },
        PendingAction::SelectPackage => {
            &&& p2.package_list == p1.package_list
            &&& p2.pkg_completion_list == p1.pkg_completion_list
            &&& p2.decl_completion_list == p1.decl_completion_list
            &&& if matches[0] {
                p2.curr_sel matches Some(Selection::Package(nm)) && nm@ == vals[0]
            } else {
                p2.curr_sel is None
            }
        },
        PendingAction::SelectDecl => {
            &&& p2.package_list == p1.package_list
            &&& p2.pkg_completion_list == p1.pkg_completion_list
            &&& p2.decl_completion_list == p1.decl_completion_list
            &&& if matches[0] {
                p2.curr_sel matches Some(Selection::Decl(nm)) && nm@ == vals[0]
            } else {
                p2.curr_sel is None
            }
        },
    }
}

/// Whether one name segment is usable.
fn seg_ok_exec(s: &str) -> (r: bool)
    ensures
        r == seg_ok(s@),
{
    let n = s.unicode_len();
    if n == 0 {
        return false;
    }
    let mut i: usize = 0;
    while i < n
        invariant
            n == s@.len(),
            0 <= i <= n,
            forall|k: int| 0 <= k < i ==> s@[k] != '.' && s@[k] != '\x00',
        decreases n - i,
    {
        let c = s.get_char(i);
        if c == '.' || c == '\x00' {
            proof {
                assert(s@.contains('.') || s@.contains('\x00'));
            }
            return false;
        }
        i = i + 1;
    }
    proof {
        if s@.contains('.') {
            let k = choose|k: int| 0 <= k < s@.len() && s@[k] == '.';
            assert(false);
        }
        if s@.contains('\x00') {
            let k = choose|k: int| 0 <= k < s@.len() && s@[k] == '\x00';
            assert(false);
        }
    }
    true
}

/// Whether a dotted path is usable for insertion.
fn is_valid_path(s: &str) -> (r: bool)
    ensures
        r == valid_path(s@),
{
    let segs = split_segments(s);
    let n = segs.len();
    let mut i: usize = 0;
    while i < n
        invariant
            segs.deep_view() == split_path(s@),
            n == segs@.len(),
            0 <= i <= n,
            forall|k: int| 0 <= k < i ==> seg_ok(#[trigger] split_path(s@)[k]),
        decreases n - i,
    {
        if !seg_ok_exec(segs[i].as_str()) {
            proof {
                assert(split_path(s@)[i as int] == segs.deep_view()[i as int]);
            }
            return false;
        }
        proof {
            assert(split_path(s@)[i as int] == segs.deep_view()[i as int]);
        }
        i = i + 1;
    }
    true
}

/// Whether a string is free of the index sentinel.
fn no_nul(s: &str) -> (r: bool)
    ensures
        r == !s@.contains('\x00'),
{
    let n = s.unicode_len();
    let mut i: usize = 0;
    while i < n
        invariant
            n == s@.len(),
            0 <= i <= n,
            forall|k: int| 0 <= k < i ==> s@[k] != '\x00',
        decreases n - i,
    {
        if s.get_char(i) == '\x00' {
            return false;
        }
        i = i + 1;
    }
    proof {
        if s@.contains('\x00') {
            let k = choose|k: int| 0 <= k < s@.len() && s@[k] == '\x00';
            assert(false);
        }
    }
    true
}

/// Execute a completed prompt session against the project: the mutation the
/// session's action stands for, fed with the collected values. Returns the
/// namespace error when the mutation reports one.
pub fn apply_prompt_action(
    project: &mut Project,
    action: PendingAction,
    inputs: &Vec<String>,
    matches: &Vec<bool>,
) -> (r: Result<(), NamespaceError>)
    requires
        old(project).wf(),
        inputs@.len() >= action_arity(action),
        matches@.len() >= action_arity(action),
    ensures
        final(project).wf(),
        apply_rel(action, inputs.deep_view(), matches@, *old(project), *final(project)),
{
    proof {
        assert forall|k: int| 0 <= k < inputs@.len() implies #[trigger] inputs.deep_view()[k]
            == inputs@[k]@ by {}
    }
    match action {
        PendingAction::CreateClass => {
            if is_valid_path(inputs[0].as_str()) && no_nul(inputs[1].as_str()) {
                let class = Class::new_with_name(inputs[1].as_str());
                let ghost d = Declaration::Class(class);
                let res = project.add_decl(inputs[0].as_str(), Declaration::Class(class));
                proof {
                    assert(is_new_class_decl(d, inputs.deep_view()[1]));
                }
                project.regen_decl_completion_list();
                proof {
                    let vals = inputs.deep_view();
                    let segs = split_path(vals[0]);
                    let ps = old(project).package_list@;
                    let i = idx_of_name(ps, segs[0]);
                    if !(i < ps.len() && match_depth(ps[i], segs.skip(1)) == segs.len() - 1
                        && has_decl(walk_to(ps[i], segs.skip(1)), vals[1])) {
                        assert(spec_forest_decl_added(ps, project.package_list@, segs, d));
                    }
                }
                res
            } else {
                Ok(())
            }
        },
        PendingAction::CreatePackage => {
            if is_valid_path(inputs[0].as_str()) {
                project.add_package(inputs[0].as_str());
            }
            Ok(())
        },
        PendingAction::CreateField => {
            let segs = split_segments(inputs[0].as_str());
            if segs.len() >= 2 {
                let res = project.add_decl_member(inputs[0].as_str(), inputs[2].as_str());
                proof {
                    let vals = inputs.deep_view();
                    let segs2 = split_path(vals[0]);
                    let ps = old(project).package_list@;
                    let i = idx_of_name(ps, segs2[0]);
                    assert(project.pkg_completion_list == old(project).pkg_completion_list);
                    assert(project.decl_completion_list == old(project).decl_completion_list);
                    assert(project.curr_sel == old(project).curr_sel);
                    if i < ps.len() && member_target_exists(ps[i], segs2.skip(1)) {
                        assert(project.package_list@.len() == ps.len());
                        assert(forall|k: int|
                            0 <= k < ps.len() && k != i ==> project.package_list@[k] == ps[k]);
                        let m0 = choose|m: ClassMember|
                            is_new_field_member(m, inputs@[2]@) && spec_member_added(
                                ps[i],
                                project.package_list@[i],
                                segs2.skip(1),
                                m,
                            );
                        assert(is_new_field_member(m0, vals[2]) && spec_member_added(
                            ps[i],
                            project.package_list@[i],
                            segs2.skip(1),
                            m0,
                        ));
                    } else {
                        assert(project.package_list@ == ps);
                    }
                }
                res
            } else {
                Ok(())
            }
        },
        PendingAction::SelectPackage => {
            if matches[0] {
                project.curr_sel = Some(Selection::Package(inputs[0].clone()));
            } else {
                project.curr_sel = None;
            }
            Ok(())
        },
        PendingAction::SelectDecl => {
            if matches[0] {
                project.curr_sel = Some(Selection::Decl(inputs[0].clone()));
            } else {
                project.curr_sel = None;
            }
            Ok(())
        },
    }
}

/// The aggregate state.
pub struct State {
    pub project: Project,
    pub command_buffer: CommandBuffer,
    pub curr_prompt: Option<PromptInput>,
}

impl State {
    /// The components are well-formed; an active session is still collecting
    /// and carries enough slots for its action.
    pub open spec fn wf(&self) -> bool {
        &&& self.project.wf()
        &&& self.command_buffer.wf()
        &&& match self.curr_prompt {
            Some(p) => p.wf() && p.in_progress() && p.prompts@.len() >= action_arity(p.action),
            None => true,
        }
    }

    pub fn new() -> (r: State)
        ensures
            r.wf(),
            r.curr_prompt is None,
            r.project.package_list@ == Seq::<Package>::empty(),
            crate::command::is_default_mappings(r.command_buffer.input_trie),
            r.command_buffer.cmd_buf@ == Seq::<Command>::empty(),
            r.command_buffer.input_buf@ == Seq::<InputChunk>::empty(),
    {
        State {
            project: Project::new(),
            command_buffer: CommandBuffer::new(),
            curr_prompt: None,
        }
    }

    /// Prompt the user for some input; when the session completes, its
    /// values feed the given action. Does nothing when a session is already
    /// active. Returns true.
    pub fn prompt(&mut self, prompts: Vec<PromptType>, action: PendingAction) -> (r: bool)
        requires
            old(self).wf(),
            prompts@.len() >= action_arity(action),
            prompts@.len() > 0,
            exists|i: int| 0 <= i < prompts@.len() && (#[trigger] prompts@[i].spec_default()) is None,
        ensures
            final(self).wf(),
            r == true,
            final(self).project == old(self).project,
            final(self).command_buffer == old(self).command_buffer,
            old(self).curr_prompt is Some ==> final(self).curr_prompt == old(self).curr_prompt,
            old(self).curr_prompt is None ==> (final(self).curr_prompt matches Some(p) && {
                &&& p.prompts == prompts
                &&& p.action == action
                &&& p.wf()
                &&& p.in_progress()
            }),
    {
        if self.curr_prompt.is_some() {
            return true;
        }
        self.curr_prompt = Some(PromptInput::new(prompts, action));
        true
    }

    /// Route one input event. Key chords go to the prompt's control handling
    /// when a session is active and to the command buffer otherwise; the
    /// cancel chord first clears both paths. Character events go to the
    /// prompt's text handling only; committing the last slot executes the
    /// session's action. Returns true when the event was a key chord.
    pub fn process_input(&mut self, ev: InputEvent) -> (r: bool)
        requires
            old(self).wf(),
        ensures
            final(self).wf(),
            match ev {
                InputEvent::Key(i) => {
                    &&& r == true
                    &&& final(self).project == old(self).project
                    &&& if is_cancel_chord(i) {
                        &&& final(self).curr_prompt is None
                        &&& final(self).command_buffer.input_trie == old(
                            self,
                        ).command_buffer.input_trie
                        &&& ({
                            let trie = old(self).command_buffer.input_trie;
                            match trie.spec_advance(None, i) {
                                None => {
                                    &&& final(self).command_buffer.input_buf@
                                        == Seq::<InputChunk>::empty()
                                    &&& final(self).command_buffer.node_ref is None
                                    &&& final(self).command_buffer.cmd_buf@ == old(
                                        self,
                                    ).command_buffer.cmd_buf@
                                },
                                Some(j) => match trie.nodes()[j as int].cmd() {
                                    Some(c) => {
                                        &&& final(self).command_buffer.cmd_buf@ == old(
                                            self,
                                        ).command_buffer.cmd_buf@.push(c)
                                        &&& final(self).command_buffer.input_buf@
                                            == Seq::<InputChunk>::empty()
                                        &&& final(self).command_buffer.node_ref is None
                                    },
                                    None => {
                                        &&& final(self).command_buffer.input_buf@ == seq![i]
                                        &&& final(self).command_buffer.node_ref == Some(j)
                                        &&& final(self).command_buffer.cmd_buf@ == old(
                                            self,
                                        ).command_buffer.cmd_buf@
                                    },
                                },
                            }
                        })
                    } else {
                        match old(self).curr_prompt {
                            Some(p) => {
                                &&& final(self).command_buffer == old(self).command_buffer
                                &&& exists|mid: PromptInput, refresh: bool|
                                    #[trigger] key_step(p, mid, i, refresh) && if refresh {
                                        final(self).curr_prompt matches Some(p2) && refresh_step(
                                            mid,
                                            p2,
                                            old(self).project.pkg_completion_list.strs(),
                                            old(self).project.decl_completion_list.strs(),
                                        )
                                    } else {
                                        final(self).curr_prompt == Some(mid)
                                    }
                            },
                            None => {
                                &&& final(self).curr_prompt is None
                                &&& final(self).command_buffer.input_trie == old(
                                    self,
                                ).command_buffer.input_trie
                                &&& ({
                                    let trie = old(self).command_buffer.input_trie;
                                    match trie.spec_advance(old(self).command_buffer.node_ref, i) {
                                        None => {
                                            &&& final(self).command_buffer.input_buf@
                                                == Seq::<InputChunk>::empty()
                                            &&& final(self).command_buffer.node_ref is None
                                            &&& final(self).command_buffer.cmd_buf@ == old(
                                                self,
                                            ).command_buffer.cmd_buf@
                                        },
                                        Some(j) => match trie.nodes()[j as int].cmd() {
                                            Some(c) => {
                                                &&& final(self).command_buffer.cmd_buf@ == old(
                                                    self,
                                                ).command_buffer.cmd_buf@.push(c)
                                                &&& final(self).command_buffer.input_buf@
                                                    == Seq::<InputChunk>::empty()
                                                &&& final(self).command_buffer.node_ref is None
                                            },
                                            None => {
                                                &&& final(self).command_buffer.input_buf@ == old(
                                                    self,
                                                ).command_buffer.input_buf@.push(i)
                                                &&& final(self).command_buffer.node_ref == Some(j)
                                                &&& final(self).command_buffer.cmd_buf@ == old(
                                                    self,
                                                ).command_buffer.cmd_buf@
                                            },
                                        },
                                    }
                                })
                            },
                        }
                    }
                },
                InputEvent::Character(c) => {
                    &&& r == false
                    &&& final(self).command_buffer == old(self).command_buffer
                    &&& match old(self).curr_prompt {
                        None => final(self).curr_prompt is None && final(self).project == old(
                            self,
                        ).project,
                        Some(p) => exists|mid: PromptInput, done: bool|
                            #[trigger] char_step(p, mid, c, done) && if done {
                                &&& final(self).curr_prompt is None
                                &&& apply_rel(
                                    p.action,
                                    mid.inputs.deep_view(),
                                    mid.completion_match@,
                                    old(self).project,
                                    final(self).project,
                                )
                            } else {
                                &&& final(self).project == old(self).project
                                &&& (final(self).curr_prompt matches Some(p2) && refresh_step(
                                    mid,
                                    p2,
                                    old(self).project.pkg_completion_list.strs(),
                                    old(self).project.decl_completion_list.strs(),
                                ))
                            },
                    }
                },
            },
    {
        match ev {
            InputEvent::Key(i) => {
                // The cancel chord clears the pending command input and
                // drops any active session.
                if i.0 == KeyCode::G && i.1 == 4 {
                    self.command_buffer.reset_input();
                    self.curr_prompt = None;
                }
                match self.curr_prompt.take() {
                    Some(mut p) => {
                        let ghost pre = p;
                        let refresh = p.key_input(i);
                        if refresh {
                            let ghost mid = p;
                            p.update_completions(&self.project);
                            proof {
                                assert(key_step(pre, mid, i, refresh));
                            }
                        }
                        self.curr_prompt = Some(p);
                    },
                    None => {
                        self.command_buffer.add_key(i);
                    },
                }
                true
            },
            InputEvent::Character(c) => {
                match self.curr_prompt.take() {
                    Some(mut p) => {
                        let ghost pre = p;
                        let done = p.char_input(c);
                        proof {
                            assert(char_step(pre, p, c, done));
                        }
                        if done {
                            let _ = apply_prompt_action(
                                &mut self.project,
                                p.action,
                                &p.inputs,
                                &p.completion_match,
                            );
                        } else {
                            let ghost mid = p;
                            p.update_completions(&self.project);
                            self.curr_prompt = Some(p);
                        }
                    },
                    None => {},
                }
                false
            },
        }
    }
}

/// Poll the command buffer and dispatch the oldest recognised command: each
/// opens its prompt session when none is active.
pub fn poll_cmd_buffer(state: &mut State)
    requires
        old(state).wf(),
    ensures
        final(state).wf(),
        ({
            let q = old(state).command_buffer.cmd_buf@;
            if q.len() == 0 {
                *final(state) == *old(state)
            } else {
                &&& final(state).command_buffer.cmd_buf@ == q.skip(1)
                &&& final(state).command_buffer.input_trie == old(state).command_buffer.input_trie
                &&& final(state).command_buffer.input_buf == old(state).command_buffer.input_buf
                &&& final(state).command_buffer.node_ref == old(state).command_buffer.node_ref
                &&& final(state).project == old(state).project
                &&& (old(state).curr_prompt is Some ==> final(state).curr_prompt == old(
                    state,
                ).curr_prompt)
                &&& (old(state).curr_prompt is None ==> (final(state).curr_prompt matches Some(p)
                    && p.action == action_of(q[0])))
            }
        }),
{
    match state.command_buffer.poll_cmd() {
        Some(cmd) => {
            match cmd {
                Command::Create(CreateCommand(CreateObject::Class)) => {
                    create_class(state);
                },
                Command::Create(CreateCommand(CreateObject::Field)) => {
                    create_field(state);
                },
                Command::Create(CreateCommand(CreateObject::Package)) => {
                    create_package(state);
                },
                Command::Select(SelectCommand(SelectObject::Package)) => {
                    select_package(state);
                },
                Command::Select(SelectCommand(SelectObject::Class)) => {
                    select_decl(state);
                },
            }
        },
        None => {},
    }
}

} // verus!
