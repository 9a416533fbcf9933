//! Commands, organised as verb + noun pairs, and the buffer that recognises
//! them from raw key chords.
//!
//! Commands work like modal-editor keybindings: a verb gives an action and a
//! noun gives the object to operate on. For example, the command `cc` may be
//! bound to Create Class.

pub mod create;
pub mod input_trie;
pub mod select;

use vstd::prelude::*;

use crate::input::InputChunk;
use crate::input::chord_str;
use input_trie::InputTrie;
use input_trie::chords_of;

verus! {

/// The noun for the create command - what object are we creating?
#[derive(Clone, Copy, Debug, PartialEq, Eq, Structural)]
pub enum CreateObject {
    Class,
    Package,
    Field,
}

/// The noun for the select command - what object are we selecting?
#[derive(Clone, Copy, Debug, PartialEq, Eq, Structural)]
pub enum SelectObject {
    Class,
    Package,
}

#[derive(Clone, Copy, Debug, PartialEq, Eq, Structural)]
pub struct CreateCommand(pub CreateObject);

#[derive(Clone, Copy, Debug, PartialEq, Eq, Structural)]
pub struct SelectCommand(pub SelectObject);

/// A command.
#[derive(Clone, Copy, Debug, PartialEq, Eq, Structural)]
pub enum Command {
    Create(CreateCommand),
    Select(SelectCommand),
}


/// The display text of a pending chord sequence: the chords' characters in
/// order.
pub open spec fn spec_input_str(s: Seq<InputChunk>) -> Seq<char>
    decreases s.len(),
{
    if s.len() == 0 {
        Seq::<char>::empty()
    } else {
        spec_input_str(s.drop_last()) + chord_str(s.last())
    }
}

/// The fixed command table a buffer starts with: `cc` and `cp` create a
/// class or package, `sp` and `sc` select a package or class, no other
/// chord sequence commits anything, every walk follows a prefix of one of
/// the four sequences, and the committed sequences are prefix-free.
pub open spec fn is_default_mappings(t: InputTrie) -> bool {
    &&& t.wf()
    &&& input_trie::prefix_free(t)
    &&& t.cmd_at(chords_of("cc"@)) == Some(Command::Create(CreateCommand(CreateObject::Class)))
    &&& t.cmd_at(chords_of("cp"@)) == Some(Command::Create(CreateCommand(CreateObject::Package)))
    &&& t.cmd_at(chords_of("sp"@)) == Some(Command::Select(SelectCommand(SelectObject::Package)))
    &&& t.cmd_at(chords_of("sc"@)) == Some(Command::Select(SelectCommand(SelectObject::Class)))
    &&& forall|cs: Seq<InputChunk>|
        cs != chords_of("cc"@) && cs != chords_of("cp"@) && cs != chords_of("sp"@) && cs
            != chords_of("sc"@) ==> (#[trigger] t.cmd_at(cs)) is None
    &&& forall|cs: Seq<InputChunk>|
        (#[trigger] t.walk(cs)) is Some ==> 1 <= cs.len() <= 2 && (cs == chords_of("cc"@).take(
            cs.len() as int,
        ) || cs == chords_of("cp"@).take(cs.len() as int) || cs == chords_of("sp"@).take(
            cs.len() as int,
        ) || cs == chords_of("sc"@).take(cs.len() as int))
}

/// Holds the user's currently entered chord sequence and the commands it has
/// resolved. When a sequence is recognised, its chords leave the input
/// buffer and the command joins the queue.
pub struct CommandBuffer {
    /// The current input chords, synced up with `node_ref`.
    pub input_buf: Vec<InputChunk>,
    /// Commands recognised and not yet polled, oldest first.
    pub cmd_buf: Vec<Command>,
    /// A trie containing all the mappings.
    pub input_trie: InputTrie,
    /// The node the pending chords lead to, if any chords are pending.
    pub node_ref: Option<input_trie::NodeRef>,
}

impl CommandBuffer {
    /// The trie is well-formed and the cursor points into it.
    pub open spec fn wf(&self) -> bool {
        &&& self.input_trie.wf()
        &&& self.input_trie.cursor_ok(self.node_ref)
    }

    fn init_mappings() -> (r: InputTrie)
        ensures
            is_default_mappings(r),
    {
        proof {
            reveal_strlit("cc");
            reveal_strlit("cp");
            reveal_strlit("sp");
            reveal_strlit("sc");
        }
        let ghost cc = chords_of("cc"@);
        let ghost cp = chords_of("cp"@);
        let ghost sp = chords_of("sp"@);
        let ghost sc = chords_of("sc"@);
        proof {
            assert(cc.len() == 2 && cp.len() == 2 && sp.len() == 2 && sc.len() == 2);
            assert(cc != cp) by {
                assert(cc[1] != cp[1]);
            }
            assert(cc != sp) by {
                assert(cc[0] != sp[0]);
            }
            assert(cc != sc) by {
                assert(cc[0] != sc[0]);
            }
            assert(cp != sp) by {
                assert(cp[0] != sp[0]);
            }
            assert(cp != sc) by {
                assert(cp[0] != sc[0]);
            }
            assert(sp != sc) by {
                assert(sp[1] != sc[1]);
            }
        }
        let mut input_trie = InputTrie::new();
        let ghost t0 = input_trie;
        proof {
            assert forall|k: int| 1 <= k <= cc.len() implies (#[trigger] t0.cmd_at(
                cc.take(k),
            )) is None by {
                input_trie::lemma_empty_cmd_at(t0, cc.take(k));
            }
            assert(!t0.committed_extension(cc)) by {
                if t0.committed_extension(cc) {
                    let ext = choose|ext: Seq<InputChunk>|
                        ext.len() > cc.len() && ext.take(cc.len() as int) == cc && (
                        #[trigger] t0.cmd_at(ext)) is Some;
                    input_trie::lemma_empty_cmd_at(t0, ext);
                }
            }
            assert(!t0.insert_blocked(cc));
        }
        input_trie.add_cmd_str("cc", Command::Create(CreateCommand(CreateObject::Class))).unwrap();
        let ghost t1 = input_trie;
        proof {
            assert forall|k: int| 1 <= k <= cp.len() implies (#[trigger] t1.cmd_at(
                cp.take(k),
            )) is None by {
                assert(cp.take(2) =~= cp);
                assert(cp.take(k) != cc);
                input_trie::lemma_empty_cmd_at(t0, cp.take(k));
            }
            assert(!t1.committed_extension(cp)) by {
                if t1.committed_extension(cp) {
                    let ext = choose|ext: Seq<InputChunk>|
                        ext.len() > cp.len() && ext.take(cp.len() as int) == cp && (
                        #[trigger] t1.cmd_at(ext)) is Some;
                    assert(ext != cc);
                    assert(t1.cmd_at(ext) == t0.cmd_at(ext));
                    input_trie::lemma_empty_cmd_at(t0, ext);
                }
            }
            assert(!t1.insert_blocked(cp));
        }
        input_trie.add_cmd_str("cp", Command::Create(CreateCommand(CreateObject::Package)))
            .unwrap();
        let ghost t2 = input_trie;
        proof {
            assert forall|k: int| 1 <= k <= sp.len() implies (#[trigger] t2.cmd_at(
                sp.take(k),
            )) is None by {
                assert(sp.take(2) =~= sp);
                assert(sp.take(1)[0] == sp[0]);
                assert(sp.take(k) != cc && sp.take(k) != cp) by {
                    if k == 1 {
                        assert(sp.take(1).len() == 1);
                    } else {
                        assert(sp[0] != cc[0] && sp[0] != cp[0]);
                    }
                }
                input_trie::lemma_empty_cmd_at(t0, sp.take(k));
            }
            assert(!t2.committed_extension(sp)) by {
                if t2.committed_extension(sp) {
                    let ext = choose|ext: Seq<InputChunk>|
                        ext.len() > sp.len() && ext.take(sp.len() as int) == sp && (
                        #[trigger] t2.cmd_at(ext)) is Some;
                    assert(ext != cc && ext != cp);
                    assert(t2.cmd_at(ext) == t1.cmd_at(ext));
                    assert(t1.cmd_at(ext) == t0.cmd_at(ext));
                    input_trie::lemma_empty_cmd_at(t0, ext);
                }
            }
            assert(!t2.insert_blocked(sp));
        }
        input_trie.add_cmd_str("sp", Command::Select(SelectCommand(SelectObject::Package)))
            .unwrap();
        let ghost t3 = input_trie;
        proof {
            assert forall|k: int| 1 <= k <= sc.len() implies (#[trigger] t3.cmd_at(
                sc.take(k),
            )) is None by {
                assert(sc.take(2) =~= sc);
                assert(sc.take(1)[0] == sc[0]);
                assert(sc.take(k) != cc && sc.take(k) != cp && sc.take(k) != sp) by {
                    if k == 1 {
                        assert(sc.take(1).len() == 1);
                    } else {
                        assert(sc[0] != cc[0] && sc[0] != cp[0]);
                        assert(sc[1] != sp[1]);
                    }
                }
                input_trie::lemma_empty_cmd_at(t0, sc.take(k));
            }
            assert(!t3.committed_extension(sc)) by {
                if t3.committed_extension(sc) {
                    let ext = choose|ext: Seq<InputChunk>|
                        ext.len() > sc.len() && ext.take(sc.len() as int) == sc && (
                        #[trigger] t3.cmd_at(ext)) is Some;
                    assert(ext != cc && ext != cp && ext != sp);
                    assert(t3.cmd_at(ext) == t2.cmd_at(ext));
                    assert(t2.cmd_at(ext) == t1.cmd_at(ext));
                    assert(t1.cmd_at(ext) == t0.cmd_at(ext));
                    input_trie::lemma_empty_cmd_at(t0, ext);
                }
            }
            assert(!t3.insert_blocked(sc));
        }
        input_trie.add_cmd_str("sc", Command::Select(SelectCommand(SelectObject::Class))).unwrap();
        proof {
            let t4 = input_trie;
            assert(t4.cmd_at(cc) == Some(Command::Create(CreateCommand(CreateObject::Class))));
            assert(t4.cmd_at(cp) == Some(Command::Create(CreateCommand(CreateObject::Package))));
            assert(t4.cmd_at(sp) == Some(Command::Select(SelectCommand(SelectObject::Package))));
            assert(t4.cmd_at(sc) == Some(Command::Select(SelectCommand(SelectObject::Class))));
            assert forall|cs: Seq<InputChunk>|
                cs != cc && cs != cp && cs != sp && cs != sc implies (
            #[trigger] t4.cmd_at(cs)) is None by {
                assert(t4.cmd_at(cs) == t3.cmd_at(cs));
                assert(t3.cmd_at(cs) == t2.cmd_at(cs));
                assert(t2.cmd_at(cs) == t1.cmd_at(cs));
                assert(t1.cmd_at(cs) == t0.cmd_at(cs));
                input_trie::lemma_empty_cmd_at(t0, cs);
            }
            assert forall|cs: Seq<InputChunk>| (#[trigger] t4.walk(cs)) is Some implies 1
                <= cs.len() <= 2 && (cs == cc.take(cs.len() as int) || cs == cp.take(
                cs.len() as int,
            ) || cs == sp.take(cs.len() as int) || cs == sc.take(cs.len() as int)) by {
                input_trie::lemma_empty_cmd_at(t0, cs);
                if t3.walk(cs) is Some {
                    if t2.walk(cs) is Some {
                        if t1.walk(cs) is Some {
                            assert(t0.walk(cs) is None);
                        }
                    }
                }
            }
            input_trie::lemma_empty_prefix_free(t0);
            input_trie::lemma_insert_preserves_prefix_freedom(
                t0,
                t1,
                cc,
                Command::Create(CreateCommand(CreateObject::Class)),
            );
            input_trie::lemma_insert_preserves_prefix_freedom(
                t1,
                t2,
                cp,
                Command::Create(CreateCommand(CreateObject::Package)),
            );
            input_trie::lemma_insert_preserves_prefix_freedom(
                t2,
                t3,
                sp,
                Command::Select(SelectCommand(SelectObject::Package)),
            );
            input_trie::lemma_insert_preserves_prefix_freedom(
                t3,
                t4,
                sc,
                Command::Select(SelectCommand(SelectObject::Class)),
            );
        }
        return input_trie;
    }

    pub fn new() -> (r: CommandBuffer)
        ensures
            r.wf(),
            is_default_mappings(r.input_trie),
            r.input_buf@ == Seq::<InputChunk>::empty(),
            r.cmd_buf@ == Seq::<Command>::empty(),
            r.node_ref is None,
    {
        CommandBuffer {
            input_buf: Vec::new(),
            cmd_buf: Vec::new(),
            input_trie: CommandBuffer::init_mappings(),
            node_ref: None,
        }
    }

    /// Whether no chords are pending.
    pub fn is_empty(&self) -> (r: bool)
        ensures
            r == (self.input_buf@.len() == 0),
    {
        self.input_buf.is_empty()
    }

    /// Render the pending chord sequence back to display characters.
    pub fn get_input_as_str(&self) -> (r: String)
        ensures
            r@ == spec_input_str(self.input_buf@),
    {
        let mut input_str = String::new();
        let mut i: usize = 0;
        while i < self.input_buf.len()
            invariant
                0 <= i <= self.input_buf@.len(),
                input_str@ == spec_input_str(self.input_buf@.take(i as int)),
            decreases self.input_buf@.len() - i,
        {
            input_str.append(self.input_buf[i].to_str());
            proof {
                assert(self.input_buf@.take(i as int + 1).drop_last() =~= self.input_buf@.take(
                    i as int,
                ));
                assert(self.input_buf@.take(i as int + 1).last() == self.input_buf@[i as int]);
            }
            i = i + 1;
        }
        proof {
            assert(self.input_buf@.take(self.input_buf@.len() as int) =~= self.input_buf@);
        }
        return input_str;
    }

    /// Clear the current input buffer and reset the node ref to none.
    pub fn reset_input(&mut self)
        ensures
            final(self).input_buf@ == Seq::<InputChunk>::empty(),
            final(self).node_ref is None,
            final(self).cmd_buf == old(self).cmd_buf,
            final(self).input_trie == old(self).input_trie,
            old(self).input_trie.wf() ==> final(self).wf(),
    {
        self.node_ref = None;
        self.input_buf.clear();
    }

    /// Add a chord to the command buffer; called on every key press. A chord
    /// that matches nothing clears the pending sequence; one that completes
    /// a committed sequence clears it and queues the command; any other
    /// match extends the pending sequence.
    pub fn add_key(&mut self, input: InputChunk)
        requires
            old(self).wf(),
        ensures
            final(self).wf(),
            final(self).input_trie == old(self).input_trie,
            match old(self).input_trie.spec_advance(old(self).node_ref, input) {
                None => {
                    &&& final(self).input_buf@ == Seq::<InputChunk>::empty()
                    &&& final(self).node_ref is None
                    &&& final(self).cmd_buf == old(self).cmd_buf
                },
                Some(j) => match old(self).input_trie.nodes()[j as int].cmd() {
                    Some(c) => {
                        &&& final(self).cmd_buf@ == old(self).cmd_buf@.push(c)
                        &&& final(self).input_buf@ == Seq::<InputChunk>::empty()
                        &&& final(self).node_ref is None
                    },
                    None => {
                        &&& final(self).input_buf@ == old(self).input_buf@.push(input)
                        &&& final(self).node_ref == Some(j)
                        &&& final(self).cmd_buf == old(self).cmd_buf
                    },
                },
            },
    {
        self.input_buf.push(input);
        let next = self.input_trie.advance_node_ref(self.node_ref, input);
        self.node_ref = next;
        match next {
            None => {
                self.input_buf.clear();
            },
            Some(j) => {
                let cmd = match self.input_trie.get_cmd(j) {
                    Some(c) => Some(*c),
                    None => None,
                };
                match cmd {
                    Some(c) => {
                        self.node_ref = None;
                        self.input_buf.clear();
                        self.cmd_buf.push(c);
                    },
                    None => {},
                }
            },
        }
    }

    /// Get a command if queued: the oldest one leaves the queue first.
    pub fn poll_cmd(&mut self) -> (r: Option<Command>)
        ensures
            final(self).input_trie == old(self).input_trie,
            final(self).input_buf == old(self).input_buf,
            final(self).node_ref == old(self).node_ref,
            match r {
                None => old(self).cmd_buf@.len() == 0 && final(self).cmd_buf == old(self).cmd_buf,
                Some(c) => old(self).cmd_buf@.len() > 0 && c == old(self).cmd_buf@[0]
                    && final(self).cmd_buf@ == old(self).cmd_buf@.skip(1),
            },
    {
        if self.cmd_buf.len() == 0 {
            None
        } else {
            let c = self.cmd_buf.remove(0);
            proof {
                assert(old(self).cmd_buf@.remove(0) =~= old(self).cmd_buf@.skip(1));
            }
            Some(c)
        }
    }
}


} // verus!
