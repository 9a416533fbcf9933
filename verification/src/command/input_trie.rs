//! A trie over key-chord sequences whose leaves carry commands, with
//! incremental one-chord-at-a-time traversal.

use vstd::prelude::*;

use crate::input::{InputChunk, KeyCode};
use crate::svec::{sv_elems, RefVec};
use super::Command;

verus! {

pub type NodeRef = usize;

/// Why a command string could not be inserted.
#[derive(Debug, Clone, Copy, PartialEq, Eq, Structural)]
pub enum AddCommandError {
    CommandAlreadyPrefixed,
    CommandEmpty,
}

/// One node of the trie arena: a chord, a display label, the indices of the
/// child nodes, and the command held when this node commits a sequence.
pub struct TrieNode {
    /// The input for this node.
    pub input: InputChunk,
    /// A short display name for this node - useful for a GUI.
    pub display_name: String,
    /// This node's children.
    pub children: RefVec,
    /// Command if this node ends a committed sequence.
    pub command: Option<Command>,
}

/// A trie of chord sequences. Nodes live in one arena; a distinguished set of
/// root indices anchors the sequences that have no predecessor.
pub struct InputTrie {
    pub trie_nodes: Vec<TrieNode>,
    pub roots: RefVec,
}

impl TrieNode {
    /// The chord on the edge into this node.
    pub open spec fn chord(&self) -> InputChunk {
        self.input
    }

    /// The indices of this node's children, in insertion order.
    pub open spec fn kids(&self) -> Seq<usize> {
        sv_elems(self.children)
    }

    /// The command this node commits, if any.
    pub open spec fn cmd(&self) -> Option<Command> {
        self.command
    }
}

/// First index in `s` (a sibling set) whose node carries the given chord.
pub open spec fn find_match(nodes: Seq<TrieNode>, s: Seq<usize>, input: InputChunk) -> Option<
    usize,
>
    decreases s.len(),
{
    if s.len() == 0 {
        None
    } else if s[0] < nodes.len() && nodes[s[0] as int].chord() == input {
        Some(s[0])
    } else {
        find_match(nodes, s.skip(1), input)
    }
}

/// The chord that one character of a command string maps to: the letter's
/// key, with the shift bit set for an upper-case letter.
pub open spec fn chord_of_char(c: char) -> InputChunk {
    InputChunk(keycode_of_char(c), if 'A' <= c <= 'Z' {
        8u8
    } else {
        0u8
    })
}

/// The chords of a whole command string.
pub open spec fn chords_of(s: Seq<char>) -> Seq<InputChunk> {
    s.map(|k: int, c: char| chord_of_char(c))
}

/// The characters a command string may hold: ASCII letters.
pub open spec fn is_cmd_char(c: char) -> bool {
    ('a' <= c <= 'z') || ('A' <= c <= 'Z')
}

/// The key code of one ASCII letter.
pub open spec fn keycode_of_char(c: char) -> KeyCode {
    if c == 'a' || c == 'A' {
        KeyCode::A
    } else if c == 'b' || c == 'B' {
        KeyCode::B
    } else if c == 'c' || c == 'C' {
        KeyCode::C
    } else if c == 'd' || c == 'D' {
        KeyCode::D
    } else if c == 'e' || c == 'E' {
        KeyCode::E
    } else if c == 'f' || c == 'F' {
        KeyCode::F
    } else if c == 'g' || c == 'G' {
        KeyCode::G
    } else if c == 'h' || c == 'H' {
        KeyCode::H
    } else if c == 'i' || c == 'I' {
        KeyCode::I
    } else if c == 'j' || c == 'J' {
        KeyCode::J
    } else if c == 'k' || c == 'K' {
        KeyCode::K
    } else if c == 'l' || c == 'L' {
        KeyCode::L
    } else if c == 'm' || c == 'M' {
        KeyCode::M
    } else if c == 'n' || c == 'N' {
        KeyCode::N
    } else if c == 'o' || c == 'O' {
        KeyCode::O
    } else if c == 'p' || c == 'P' {
        KeyCode::P
    } else if c == 'q' || c == 'Q' {
        KeyCode::Q
    } else if c == 'r' || c == 'R' {
        KeyCode::R
    } else if c == 's' || c == 'S' {
        KeyCode::S
    } else if c == 't' || c == 'T' {
        KeyCode::T
    } else if c == 'u' || c == 'U' {
        KeyCode::U
    } else if c == 'v' || c == 'V' {
        KeyCode::V
    } else if c == 'w' || c == 'W' {
        KeyCode::W
    } else if c == 'x' || c == 'X' {
        KeyCode::X
    } else if c == 'y' || c == 'Y' {
        KeyCode::Y
    } else {
        KeyCode::Z
    }
}

/// Convert a char to a keycode if possible.
fn char_to_keycode(c: char) -> (r: Option<KeyCode>)
    ensures
        r == if is_cmd_char(c) {
            Some(keycode_of_char(c))
        } else {
            None::<KeyCode>
        },
{
    match c {
        'a' | 'A' => Some(KeyCode::A),
        'b' | 'B' => Some(KeyCode::B),
        'c' | 'C' => Some(KeyCode::C),
        'd' | 'D' => Some(KeyCode::D),
        'e' | 'E' => Some(KeyCode::E),
        'f' | 'F' => Some(KeyCode::F),
        'g' | 'G' => Some(KeyCode::G),
        'h' | 'H' => Some(KeyCode::H),
        'i' | 'I' => Some(KeyCode::I),
        'j' | 'J' => Some(KeyCode::J),
        'k' | 'K' => Some(KeyCode::K),
        'l' | 'L' => Some(KeyCode::L),
        'm' | 'M' => Some(KeyCode::M),
        'n' | 'N' => Some(KeyCode::N),
        'o' | 'O' => Some(KeyCode::O),
        'p' | 'P' => Some(KeyCode::P),
        'q' | 'Q' => Some(KeyCode::Q),
        'r' | 'R' => Some(KeyCode::R),
        's' | 'S' => Some(KeyCode::S),
        't' | 'T' => Some(KeyCode::T),
        'u' | 'U' => Some(KeyCode::U),
        'v' | 'V' => Some(KeyCode::V),
        'w' | 'W' => Some(KeyCode::W),
        'x' | 'X' => Some(KeyCode::X),
        'y' | 'Y' => Some(KeyCode::Y),
        'z' | 'Z' => Some(KeyCode::Z),
        _ => None,
    }
}

impl InputTrie {
    /// The nodes of the arena.
    pub open spec fn nodes(&self) -> Seq<TrieNode> {
        self.trie_nodes@
    }

    /// The root index set.
    pub open spec fn root_ids(&self) -> Seq<usize> {
        sv_elems(self.roots)
    }

    /// The sibling set a cursor faces: the roots when the cursor is at the
    /// start, otherwise the children of the cursor's node.
    pub open spec fn sibs(&self, cursor: Option<usize>) -> Seq<usize> {
        match cursor {
            None => self.root_ids(),
            Some(r) => self.nodes()[r as int].kids(),
        }
    }

    /// A cursor is either at the start or at a node of the arena.
    pub open spec fn cursor_ok(&self, cursor: Option<usize>) -> bool {
        match cursor {
            None => true,
            Some(r) => r < self.nodes().len(),
        }
    }

    /// Every index of `s` names a node of the arena.
    pub open spec fn ids_ok(&self, s: Seq<usize>) -> bool {
        forall|k: int| 0 <= k < s.len() ==> #[trigger] s[k] < self.nodes().len()
    }

    /// No two nodes of the sibling set `s` carry the same chord.
    pub open spec fn uniq_chords(&self, s: Seq<usize>) -> bool {
        forall|k1: int, k2: int|
            0 <= k1 < k2 < s.len() ==> self.nodes()[(#[trigger] s[k1]) as int].chord()
                != self.nodes()[(#[trigger] s[k2]) as int].chord()
    }

    /// Each node is referenced at most once over the root set and all child
    /// sets together: the arena forms a forest.
    pub open spec fn forest(&self) -> bool {
        &&& (forall|k1: int, k2: int|
            0 <= k1 < k2 < self.root_ids().len() ==> #[trigger] self.root_ids()[k1]
                != #[trigger] self.root_ids()[k2])
        &&& (forall|i: int, k1: int, k2: int|
            0 <= i < self.nodes().len() && 0 <= k1 < k2 < self.nodes()[i].kids().len()
                ==> #[trigger] self.nodes()[i].kids()[k1] != #[trigger] self.nodes()[i].kids()[k2])
        &&& (forall|i1: int, k1: int, i2: int, k2: int|
            0 <= i1 < self.nodes().len() && 0 <= k1 < self.nodes()[i1].kids().len() && 0 <= i2
                < self.nodes().len() && 0 <= k2 < self.nodes()[i2].kids().len() && i1 != i2
                ==> #[trigger] self.nodes()[i1].kids()[k1] != #[trigger] self.nodes()[i2].kids()[k2])
        &&& (forall|k: int, i: int, k2: int|
            0 <= k < self.root_ids().len() && 0 <= i < self.nodes().len() && 0 <= k2
                < self.nodes()[i].kids().len() ==> #[trigger] self.root_ids()[k]
                != #[trigger] self.nodes()[i].kids()[k2])
    }

    /// Children sit later in the arena than their parent, so every walk
    /// down the tree moves to strictly larger indices.
    pub open spec fn ordered(&self) -> bool {
        forall|i: int, k: int|
            0 <= i < self.nodes().len() && 0 <= k < self.nodes()[i].kids().len()
                ==> (#[trigger] self.nodes()[i].kids()[k]) > i
    }

    /// Well-formedness: all indices name nodes, sibling chords are unique,
    /// children come after their parent, and the arena is a forest.
    pub open spec fn wf(&self) -> bool {
        &&& self.ids_ok(self.root_ids())
        &&& self.uniq_chords(self.root_ids())
        &&& (forall|i: int|
            0 <= i < self.nodes().len() ==> self.ids_ok(#[trigger] self.nodes()[i].kids()))
        &&& (forall|i: int|
            0 <= i < self.nodes().len() ==> self.uniq_chords(#[trigger] self.nodes()[i].kids()))
        &&& self.ordered()
        &&& self.forest()
    }

    /// Where one chord moves a cursor: to the first node of the faced sibling
    /// set that carries the chord, or nowhere.
    pub open spec fn spec_advance(&self, cursor: Option<usize>, input: InputChunk) -> Option<
        usize,
    > {
        find_match(self.nodes(), self.sibs(cursor), input)
    }

    /// Where a whole chord sequence leads from the start, if anywhere.
    pub open spec fn walk(&self, chords: Seq<InputChunk>) -> Option<usize>
        decreases chords.len(),
    {
        if chords.len() == 0 {
            None
        } else if chords.len() == 1 {
            self.spec_advance(None, chords[0])
        } else {
            match self.walk(chords.drop_last()) {
                None => None,
                Some(j) => self.spec_advance(Some(j), chords.last()),
            }
        }
    }

    /// The command a chord sequence commits, if it leads to a node holding
    /// one. This is the trie's whole meaning: a partial map from chord
    /// sequences to commands.
    pub open spec fn cmd_at(&self, chords: Seq<InputChunk>) -> Option<Command> {
        match self.walk(chords) {
            Some(j) => self.nodes()[j as int].cmd(),
            None => None,
        }
    }

    /// Where a chord sequence leads onward from a node of the arena.
    pub open spec fn walk_from(&self, cur: usize, path: Seq<InputChunk>) -> Option<usize>
        decreases path.len(),
    {
        if path.len() == 0 {
            Some(cur)
        } else {
            match self.spec_advance(Some(cur), path[0]) {
                None => None,
                Some(j) => self.walk_from(j, path.skip(1)),
            }
        }
    }

    /// Whether some committed sequence properly extends the given one.
    pub open spec fn committed_extension(&self, chords: Seq<InputChunk>) -> bool {
        exists|ext: Seq<InputChunk>|
            ext.len() > chords.len() && ext.take(chords.len() as int) == chords && (
            #[trigger] self.cmd_at(ext)) is Some
    }

    /// An insertion of `chords` is refused when it would put two committed
    /// sequences in a prefix relation: either some node already commits a
    /// non-empty prefix of it (the whole sequence included), or some
    /// committed sequence properly extends it.
    pub open spec fn insert_blocked(&self, chords: Seq<InputChunk>) -> bool {
        ||| exists|k: int|
            1 <= k <= chords.len() && (#[trigger] self.cmd_at(chords.take(k))) is Some
        ||| self.committed_extension(chords)
    }

    pub fn new() -> (r: InputTrie)
        ensures
            r.wf(),
            r.nodes().len() == 0,
            r.root_ids().len() == 0,
    {
        InputTrie { trie_nodes: Vec::new(), roots: RefVec::new() }
    }

    /// Given a node ref and some input, return the next node ref in the tree
    /// after applying the input, or none if nothing exists.
    ///
    /// If the input node is none, this method looks through root nodes.
    pub fn advance_node_ref(&self, r: Option<NodeRef>, input: InputChunk) -> (res: Option<NodeRef>)
        requires
            self.cursor_ok(r),
        ensures
            res == self.spec_advance(r, input),
            match res {
                Some(j) => j < self.nodes().len() && self.nodes()[j as int].chord() == input,
                None => true,
            },
    {
        let sibs: &RefVec = match r {
            None => &self.roots,
            Some(rr) => &self.trie_nodes[rr].children,
        };
        let ghost s = sv_elems(*sibs);
        assert(s == self.sibs(r));
        let n = sibs.len();
        proof {
            assert(s.skip(0) =~= s);
        }
        let mut i: usize = 0;
        while i < n
            invariant
                n == s.len(),
                0 <= i <= n,
                sv_elems(*sibs) == s,
                s == self.sibs(r),
                find_match(self.nodes(), s.skip(i as int), input) == find_match(
                    self.nodes(),
                    s,
                    input,
                ),
            decreases n - i,
        {
            let c = sibs.get(i);
            proof {
                assert(s.skip(i as int).len() == n - i);
                assert(s.skip(i as int)[0] == s[i as int]);
            }
            if c < self.trie_nodes.len() {
                if self.trie_nodes[c].input == input {
                    proof {
                        assert(self.nodes()[c as int].chord() == input);
                        assert(find_match(self.nodes(), s.skip(i as int), input) == Some(c));
                    }
                    return Some(c);
                }
            }
            proof {
                assert(s.skip(i as int).skip(1) =~= s.skip(i as int + 1));
            }
            i = i + 1;
        }
        proof {
            assert(s.skip(n as int) =~= Seq::<usize>::empty());
        }
        None
    }

    /// Whether a walk of the given chords from the given node reaches a
    /// node holding a command.
    pub open spec fn path_commits(&self, i: usize, path: Seq<InputChunk>) -> bool {
        match self.walk_from(i, path) {
            Some(w) => self.nodes()[w as int].cmd() is Some,
            None => false,
        }
    }

    /// Whether any committed sequence continues below the given node: some
    /// non-empty chord path from it reaches a node holding a command.
    fn has_cmd_below(&self, i: usize) -> (r: bool)
        requires
            self.wf(),
            i < self.nodes().len(),
        ensures
            r == exists|path: Seq<InputChunk>|
                path.len() >= 1 && #[trigger] self.path_commits(i, path),
        decreases self.nodes().len() - i,
    {
        let ghost kids = self.nodes()[i as int].kids();
        let n = self.trie_nodes[i].children.len();
        let mut k: usize = 0;
        while k < n
            invariant
                self.wf(),
                i < self.nodes().len(),
                kids == self.nodes()[i as int].kids(),
                n == kids.len(),
                0 <= k <= n,
                forall|m: int|
                    0 <= m < k ==> self.nodes()[(#[trigger] kids[m]) as int].cmd() is None,
                forall|m: int, path: Seq<InputChunk>|
                    0 <= m < k && path.len() >= 1 ==> !(#[trigger] self.path_commits(
                        kids[m],
                        path,
                    )),
            decreases n - k,
        {
            let c = self.trie_nodes[i].children.get(k);
            proof {
                assert(kids[k as int] == c);
                assert(kids[k as int] < self.nodes().len());
                assert(kids[k as int] > i);
            }
            let ghost ch = self.nodes()[c as int].chord();
            if self.trie_nodes[c].command.is_some() {
                proof {
                    lemma_find_match_at(*self, kids, k as int);
                    let path = seq![ch];
                    assert(path[0] == ch);
                    assert(path.skip(1) =~= Seq::<InputChunk>::empty());
                    assert(self.spec_advance(Some(i), ch) == Some(c));
                    assert(self.walk_from(c, path.skip(1)) == Some(c));
                    assert(self.walk_from(i, path) == Some(c));
                    assert(self.path_commits(i, path));
                }
                return true;
            }
            if self.has_cmd_below(c) {
                proof {
                    let p0 = choose|path: Seq<InputChunk>|
                        path.len() >= 1 && #[trigger] self.path_commits(c, path);
                    lemma_find_match_at(*self, kids, k as int);
                    let path = seq![ch] + p0;
                    assert(path[0] == ch);
                    assert(path.skip(1) =~= p0);
                    assert(self.spec_advance(Some(i), ch) == Some(c));
                    assert(self.walk_from(i, path) == self.walk_from(c, p0));
                    assert(self.path_commits(i, path));
                }
                return true;
            }
            k = k + 1;
        }
        proof {
            assert forall|path: Seq<InputChunk>| path.len() >= 1 implies !self.path_commits(
                i,
                path,
            ) by {
                match self.spec_advance(Some(i), path[0]) {
                    None => {},
                    Some(j) => {
                        lemma_find_match_props(self.nodes(), kids, path[0]);
                        assert(kids.contains(j));
                        let m = choose|m: int| 0 <= m < kids.len() && kids[m] == j;
                        assert(self.walk_from(i, path) == self.walk_from(j, path.skip(1)));
                        if path.len() == 1 {
                            assert(path.skip(1) =~= Seq::<InputChunk>::empty());
                            assert(self.walk_from(j, path.skip(1)) == Some(j));
                            assert(self.nodes()[j as int].cmd() is None);
                        } else {
                            assert(path.skip(1).len() >= 1);
                            assert(!self.path_commits(kids[m], path.skip(1)));
                        }
                    },
                }
            }
        }
        false
    }

    /// Convenience method to map a string to a command: each character
    /// becomes one chord (letters only; case sets or clears the shift bit),
    /// and the final node of the walk commits `cmd`.
    ///
    /// Insertion fails when the string is empty, when some node already
    /// commits a non-empty prefix of the new sequence (the final node
    /// included), or when some committed sequence properly extends it: no
    /// two committed sequences may ever stand in a prefix relation
    /// (see `prefix_free` and `lemma_insert_preserves_prefix_freedom`).
    pub fn add_cmd_str(&mut self, cmd_str: &str, cmd: Command) -> (result: Result<
        (),
        AddCommandError,
    >)
        requires
            old(self).wf(),
            forall|k: int| 0 <= k < cmd_str@.len() ==> is_cmd_char(#[trigger] cmd_str@[k]),
        ensures
            final(self).wf(),
            match result {
                Ok(()) => {
                    &&& cmd_str@.len() > 0
                    &&& !old(self).insert_blocked(chords_of(cmd_str@))
                    &&& final(self).cmd_at(chords_of(cmd_str@)) == Some(cmd)
                    &&& forall|other: Seq<InputChunk>|
                        other != chords_of(cmd_str@) ==> #[trigger] final(self).cmd_at(other)
                            == old(self).cmd_at(other)
                    &&& forall|cs: Seq<InputChunk>|
                        (#[trigger] final(self).walk(cs)) is Some ==> old(self).walk(cs) is Some
                            || (1 <= cs.len() <= chords_of(cmd_str@).len() && cs == chords_of(
                            cmd_str@,
                        ).take(cs.len() as int))
                },
                Err(AddCommandError::CommandEmpty) => {
                    &&& cmd_str@.len() == 0
                    &&& *final(self) == *old(self)
                },
                Err(AddCommandError::CommandAlreadyPrefixed) => {
                    &&& cmd_str@.len() > 0
                    &&& old(self).insert_blocked(chords_of(cmd_str@))
                    &&& *final(self) == *old(self)
                },
            },
    {
        let ghost chords = chords_of(cmd_str@);
        let n = cmd_str.unicode_len();
        if n == 0 {
            return Err(AddCommandError::CommandEmpty);
        }
        // Translate the characters into chords.
        let mut input_chunks: Vec<InputChunk> = Vec::new();
        let mut i: usize = 0;
        while i < n
            invariant
                n == cmd_str@.len(),
                0 <= i <= n,
                forall|k: int| 0 <= k < cmd_str@.len() ==> is_cmd_char(#[trigger] cmd_str@[k]),
                chords == chords_of(cmd_str@),
                input_chunks@ == chords.take(i as int),
            decreases n - i,
        {
            let c = cmd_str.get_char(i);
            let kc_opt = char_to_keycode(c);
            let kc = kc_opt.unwrap();
            let shifted = c >= 'A' && c <= 'Z';
            let chunk = InputChunk(kc, if shifted {
                8
            } else {
                0
            });
            assert(chunk == chord_of_char(cmd_str@[i as int]));
            input_chunks.push(chunk);
            proof {
                assert(chords[i as int] == chord_of_char(cmd_str@[i as int]));
                assert(chords.take(i as int + 1) =~= chords.take(i as int).push(
                    chords[i as int],
                ));
            }
            i = i + 1;
        }
        proof {
            assert(chords.take(n as int) =~= chords);
        }
        // Walk the existing nodes; refuse the insertion as soon as a visited
        // node commits a prefix.
        let mut cursor: Option<NodeRef> = None;
        let mut consumed: usize = 0;
        let mut stopped = false;
        while consumed < n && !stopped
            invariant
                *self == *old(self),
                self.wf(),
                n == chords.len(),
                n >= 1,
                chords == chords_of(cmd_str@),
                input_chunks@ == chords,
                0 <= consumed <= n,
                self.walk(chords.take(consumed as int)) == cursor,
                consumed > 0 ==> cursor is Some,
                self.cursor_ok(cursor),
                forall|k: int|
                    1 <= k <= consumed ==> (#[trigger] self.cmd_at(chords.take(k))) is None,
                stopped ==> consumed < n && self.spec_advance(cursor, chords[consumed as int])
                    == None::<usize>,
            decreases n - consumed + if stopped {
                0int
            } else {
                1int
            },
        {
            let chunk = input_chunks[consumed];
            let next = self.advance_node_ref(cursor, chunk);
            match next {
                None => {
                    stopped = true;
                },
                Some(j) => {
                    proof {
                        lemma_find_match_props(self.nodes(), self.sibs(cursor), chunk);
                        assert(chords.take(consumed as int + 1).drop_last() =~= chords.take(
                            consumed as int,
                        ));
                        assert(chords.take(consumed as int + 1).last() == chords[consumed as int]);
                        assert(self.walk(chords.take(consumed as int + 1)) == Some(j));
                    }
                    if self.trie_nodes[j].command.is_some() {
                        proof {
                            assert(self.cmd_at(chords.take(consumed as int + 1)) is Some);
                            assert(self.insert_blocked(chords));
                        }
                        return Err(AddCommandError::CommandAlreadyPrefixed);
                    }
                    proof {
                        assert(self.cmd_at(chords.take(consumed as int + 1)) is None);
                    }
                    cursor = Some(j);
                    consumed = consumed + 1;
                },
            }
        }
        if !stopped {
            // The whole sequence already has a path and its final node was
            // checked above to commit nothing yet; refuse the insertion when
            // a committed sequence continues below that node, else the node
            // takes the command.
            let t = cursor.unwrap();
            proof {
                assert(chords.take(n as int) =~= chords);
                assert(self.walk(chords) == Some(t));
            }
            if self.has_cmd_below(t) {
                proof {
                    lemma_extension_iff_below(*self, chords, t);
                    assert(self.committed_extension(chords));
                }
                return Err(AddCommandError::CommandAlreadyPrefixed);
            }
            proof {
                lemma_extension_iff_below(*self, chords, t);
                assert(!self.committed_extension(chords));
            }
            let ghost t1 = *self;
            let node = &mut self.trie_nodes[t];
            node.command = Some(cmd);
            proof {
                assert(self.nodes().len() == t1.nodes().len());
                assert forall|ii: int| 0 <= ii < t1.nodes().len() implies (
                #[trigger] self.nodes()[ii]).chord() == t1.nodes()[ii].chord()
                    && self.nodes()[ii].kids() == t1.nodes()[ii].kids() by {}
                assert(self.root_ids() == t1.root_ids());
                lemma_update_cmd_wf(t1, *self);
                assert(t1.walk(chords) == cursor);
                assert forall|other: Seq<InputChunk>| #[trigger] self.walk(other) == t1.walk(
                    other,
                ) by {
                    lemma_walk_same_structure(t1, *self, other);
                }
                assert(self.walk(chords) == Some(t));
                assert(self.cmd_at(chords) == Some(cmd));
                assert forall|other: Seq<InputChunk>| other != chords implies #[trigger] self.cmd_at(
                    other,
                ) == t1.cmd_at(other) by {
                    assert(self.walk(other) == t1.walk(other));
                    match self.walk(other) {
                        Some(j) => {
                            if j == t {
                                lemma_walk_unique(*self, other, chords);
                                assert(false);
                            } else {
                                lemma_walk_in_bounds(t1, other);
                                assert(self.nodes()[j as int] == t1.nodes()[j as int]);
                            }
                        },
                        None => {},
                    }
                }
                assert(!t1.committed_extension(chords));
                assert(!t1.insert_blocked(chords));
                assert forall|cs: Seq<InputChunk>| (#[trigger] self.walk(cs)) is Some implies t1.walk(
                    cs,
                ) is Some || (1 <= cs.len() <= chords.len() && cs == chords.take(
                    cs.len() as int,
                )) by {
                    assert(self.walk(cs) == t1.walk(cs));
                }
            }
            return Ok(());
        }
        // Create fresh nodes for the unmatched suffix; the last one commits
        // the command.
        let mut curr = cursor;
        let mut k = consumed;
        while k < n - 1
            invariant
                n == chords.len(),
                n >= 1,
                chords == chords_of(cmd_str@),
                input_chunks@ == chords,
                consumed <= k < n,
                consumed < n,
                self.wf(),
                self.cursor_ok(curr),
                self.walk(chords.take(k as int)) == curr,
                k > 0 ==> curr is Some,
                old(self).wf(),
                old(self).walk(chords.take(consumed as int)) == cursor,
                consumed > 0 ==> cursor is Some,
                old(self).spec_advance(cursor, chords[consumed as int]) == None::<usize>,
                forall|kk: int|
                    1 <= kk <= consumed ==> (#[trigger] old(self).cmd_at(chords.take(kk))) is None,
                k == consumed ==> *self == *old(self) && curr == cursor,
                k > consumed ==> curr is Some && self.nodes()[curr.unwrap() as int].kids()
                    == Seq::<usize>::empty() && self.nodes()[curr.unwrap() as int].cmd() is None,
                forall|cs: Seq<InputChunk>| #[trigger] self.cmd_at(cs) == old(self).cmd_at(cs),
                forall|cs: Seq<InputChunk>|
                    (#[trigger] self.walk(cs)) is Some ==> old(self).walk(cs) is Some || (1
                        <= cs.len() <= k && cs == chords.take(cs.len() as int)),
            decreases n - 1 - k,
        {
            let ghost t1 = *self;
            let node = TrieNode {
                input: input_chunks[k],
                display_name: String::new(),
                children: RefVec::new(),
                command: None,
            };
            self.trie_nodes.push(node);
            let f = self.trie_nodes.len() - 1;
            match curr {
                None => self.roots.push(f),
                Some(p) => {
                    let pn = &mut self.trie_nodes[p];
                    pn.children.push(f);
                },
            }
            proof {
                lemma_insert_step(t1, *self, curr, f, chords, k as int, *old(self));
            }
            curr = Some(f);
            k = k + 1;
        }
        let ghost t1 = *self;
        let node = TrieNode {
            input: input_chunks[n - 1],
            display_name: String::new(),
            children: RefVec::new(),
            command: Some(cmd),
        };
        self.trie_nodes.push(node);
        let f = self.trie_nodes.len() - 1;
        match curr {
            None => self.roots.push(f),
            Some(p) => {
                let pn = &mut self.trie_nodes[p];
                pn.children.push(f);
            },
        }
        proof {
            lemma_insert_final(t1, *self, curr, f, chords, consumed as int, cursor, *old(self), cmd);
        }
        return Ok(());
    }

    /// The command committed at a node. Panics if the ref is invalid.
    pub fn get_cmd(&self, r: NodeRef) -> (res: Option<&Command>)
        requires
            r < self.nodes().len(),
        ensures
            match res {
                Some(c) => self.nodes()[r as int].cmd() == Some(*c),
                None => self.nodes()[r as int].cmd() is None,
            },
    {
        self.trie_nodes[r].command.as_ref()
    }
}


/// What a match result means: a returned index is an in-bounds member of the
/// sibling set carrying the chord; no result means no in-bounds member does.
proof fn lemma_find_match_props(nodes: Seq<TrieNode>, s: Seq<usize>, input: InputChunk)
    ensures
        match find_match(nodes, s, input) {
            Some(j) => j < nodes.len() && nodes[j as int].chord() == input && s.contains(j),
            None => forall|k: int|
                0 <= k < s.len() && s[k] < nodes.len() ==> nodes[(#[trigger] s[k]) as int].chord()
                    != input,
        },
    decreases s.len(),
{
    if s.len() == 0 {
    } else if s[0] < nodes.len() && nodes[s[0] as int].chord() == input {
    } else {
        lemma_find_match_props(nodes, s.skip(1), input);
        match find_match(nodes, s.skip(1), input) {
            Some(j) => {
                assert(s.skip(1).contains(j));
                let k = choose|k: int| 0 <= k < s.skip(1).len() && s.skip(1)[k] == j;
                assert(s[k + 1] == j);
                assert(s.contains(j));
            },
            None => {
                assert forall|k: int|
                    0 <= k < s.len() && s[k] < nodes.len() implies nodes[(
                    #[trigger] s[k]) as int].chord() != input by {
                    if k > 0 {
                        assert(s.skip(1)[k - 1] == s[k]);
                    }
                }
            },
        }
    }
}

/// Two arenas whose nodes carry the same chords give the same match over any
/// sibling set whose indices are in bounds for both.
proof fn lemma_find_match_same(
    nodes1: Seq<TrieNode>,
    nodes2: Seq<TrieNode>,
    s: Seq<usize>,
    input: InputChunk,
)
    requires
        forall|k: int|
            0 <= k < s.len() ==> ((#[trigger] s[k]) < nodes1.len() <==> s[k] < nodes2.len()),
        forall|k: int|
            0 <= k < s.len() && s[k] < nodes1.len() ==> nodes1[(#[trigger] s[k]) as int].chord()
                == nodes2[s[k] as int].chord(),
    ensures
        find_match(nodes1, s, input) == find_match(nodes2, s, input),
    decreases s.len(),
{
    if s.len() == 0 {
    } else {
        assert forall|k: int| 0 <= k < s.skip(1).len() implies ((#[trigger] s.skip(1)[k])
            < nodes1.len() <==> s.skip(1)[k] < nodes2.len()) && (s.skip(1)[k] < nodes1.len()
            ==> nodes1[s.skip(1)[k] as int].chord() == nodes2[s.skip(1)[k] as int].chord()) by {
            assert(s.skip(1)[k] == s[k + 1]);
        }
        lemma_find_match_same(nodes1, nodes2, s.skip(1), input);
    }
}

/// Appending an index to a sibling set leaves an existing match alone and
/// otherwise matches exactly when the appended node carries the chord.
proof fn lemma_find_match_push(nodes: Seq<TrieNode>, s: Seq<usize>, f: usize, input: InputChunk)
    ensures
        find_match(nodes, s.push(f), input) == match find_match(nodes, s, input) {
            Some(j) => Some(j),
            None => if f < nodes.len() && nodes[f as int].chord() == input {
                Some(f)
            } else {
                None::<usize>
            },
        },
    decreases s.len(),
{
    if s.len() == 0 {
        assert(s.push(f)[0] == f);
        assert(s.push(f).skip(1) =~= Seq::<usize>::empty());
        assert(find_match(nodes, Seq::<usize>::empty(), input) == None::<usize>);
        if f < nodes.len() && nodes[f as int].chord() == input {
            assert(find_match(nodes, s.push(f), input) == Some(f));
        } else {
            assert(find_match(nodes, s.push(f), input) == find_match(
                nodes,
                s.push(f).skip(1),
                input,
            ));
        }
    } else {
        assert(s.push(f)[0] == s[0]);
        assert(s.push(f).skip(1) =~= s.skip(1).push(f));
        lemma_find_match_push(nodes, s.skip(1), f, input);
        if s[0] < nodes.len() && nodes[s[0] as int].chord() == input {
            assert(find_match(nodes, s.push(f), input) == Some(s[0]));
            assert(find_match(nodes, s, input) == Some(s[0]));
        } else {
            assert(find_match(nodes, s.push(f), input) == find_match(
                nodes,
                s.skip(1).push(f),
                input,
            ));
            assert(find_match(nodes, s, input) == find_match(nodes, s.skip(1), input));
        }
    }
}


/// How one arena extends another when a fresh node `f` (with no children) is
/// pushed at the end and its index is appended to one sibling set: the roots
/// when `owner` is at the start, else the children of the owner's node.
pub open spec fn push_rel(t1: InputTrie, t2: InputTrie, owner: Option<usize>, f: usize) -> bool {
    &&& f == t1.nodes().len()
    &&& t2.nodes().len() == t1.nodes().len() + 1
    &&& t2.nodes()[f as int].kids() == Seq::<usize>::empty()
    &&& match owner {
        None => {
            &&& t2.root_ids() == t1.root_ids().push(f)
            &&& forall|i: int| 0 <= i < t1.nodes().len() ==> t2.nodes()[i] == t1.nodes()[i]
        },
        Some(p) => {
            &&& p < t1.nodes().len()
            &&& t2.root_ids() == t1.root_ids()
            &&& t2.nodes()[p as int].chord() == t1.nodes()[p as int].chord()
            &&& t2.nodes()[p as int].cmd() == t1.nodes()[p as int].cmd()
            &&& t2.nodes()[p as int].kids() == t1.nodes()[p as int].kids().push(f)
            &&& forall|i: int|
                0 <= i < t1.nodes().len() && i != p ==> t2.nodes()[i] == t1.nodes()[i]
        },
    }
}

/// Pushing a fresh node moves no existing walk, and any walk in the new
/// arena either existed before or ends at the fresh node.
proof fn lemma_push_walk(
    t1: InputTrie,
    t2: InputTrie,
    owner: Option<usize>,
    f: usize,
    cs: Seq<InputChunk>,
)
    requires
        t1.wf(),
        push_rel(t1, t2, owner, f),
    ensures
        t1.walk(cs) is Some ==> t2.walk(cs) == t1.walk(cs),
        t2.walk(cs) is Some && t2.walk(cs) != Some(f) ==> t1.walk(cs) == t2.walk(cs),
    decreases cs.len(),
{
    if cs.len() == 0 {
    } else {
        let last = cs.last();
        let ghost_owner_set = t1.sibs(owner);
        if cs.len() > 1 {
            lemma_push_walk(t1, t2, owner, f, cs.drop_last());
        }
        // The sibling set faced by the last step, in both arenas.
        let c1 = if cs.len() == 1 {
            None::<usize>
        } else {
            t1.walk(cs.drop_last())
        };
        let c2 = if cs.len() == 1 {
            None::<usize>
        } else {
            t2.walk(cs.drop_last())
        };
        // Relate the two advances for a shared cursor position.
        if cs.len() == 1 || (c1 is Some && c1 == c2) {
            let cur = c1;
            if cur is Some {
                lemma_find_match_props(t1.nodes(), t1.sibs(cur), last);
                assert(cur.unwrap() < t1.nodes().len()) by {
                    lemma_walk_in_bounds(t1, cs.drop_last());
                }
            }
            let s1 = t1.sibs(cur);
            assert(forall|k: int| 0 <= k < s1.len() ==> (#[trigger] s1[k]) < t1.nodes().len());
            if owner == cur {
                // the owner's set grew by f
                assert(t2.sibs(cur) == s1.push(f));
                lemma_find_match_same(t1.nodes(), t2.nodes(), s1, last);
                lemma_find_match_push(t2.nodes(), s1, f, last);
            } else {
                assert(t2.sibs(cur) == s1);
                lemma_find_match_same(t1.nodes(), t2.nodes(), s1, last);
            }
        }
        // In t2, a walk may also pass through the fresh node; it then stops.
        if cs.len() > 1 && c2 == Some(f) {
            assert(t2.sibs(Some(f)) == Seq::<usize>::empty());
            assert(t2.walk(cs) == None::<usize>);
        }
        if cs.len() > 1 && c2 is None {
            assert(t2.walk(cs) == None::<usize>);
        }
        if cs.len() > 1 && c1 is None && c2 is Some && c2 != Some(f) {
            // impossible: a walk that exists in t2 over old nodes existed in t1
            assert(t1.walk(cs.drop_last()) == t2.walk(cs.drop_last()));
        }
    }
}

/// A walk that arrives somewhere arrives at a node of the arena.
proof fn lemma_walk_in_bounds(t: InputTrie, cs: Seq<InputChunk>)
    ensures
        t.walk(cs) is Some ==> t.walk(cs).unwrap() < t.nodes().len(),
    decreases cs.len(),
{
    if cs.len() == 0 {
    } else if cs.len() == 1 {
        lemma_find_match_props(t.nodes(), t.sibs(None), cs[0]);
    } else {
        match t.walk(cs.drop_last()) {
            None => {},
            Some(j) => {
                lemma_find_match_props(t.nodes(), t.sibs(Some(j)), cs.last());
            },
        }
    }
}


/// Pushing a fresh node whose chord no present sibling carries keeps the
/// arena well-formed.
proof fn lemma_push_wf(t1: InputTrie, t2: InputTrie, owner: Option<usize>, f: usize)
    requires
        t1.wf(),
        push_rel(t1, t2, owner, f),
        match owner {
            None => true,
            Some(p) => p < t1.nodes().len(),
        },
        find_match(t1.nodes(), t1.sibs(owner), t2.nodes()[f as int].chord()) == None::<usize>,
    ensures
        t2.wf(),
{
    let s1 = t1.sibs(owner);
    lemma_find_match_props(t1.nodes(), s1, t2.nodes()[f as int].chord());
    assert(t2.ordered()) by {
        assert forall|i: int, k: int|
            0 <= i < t2.nodes().len() && 0 <= k < t2.nodes()[i].kids().len() implies (
        #[trigger] t2.nodes()[i].kids()[k]) > i by {
            if i == f as int {
                assert(t2.nodes()[i].kids().len() == 0);
            } else {
                match owner {
                    None => {
                        assert(t2.nodes()[i] == t1.nodes()[i]);
                    },
                    Some(p) => {
                        if i == p as int {
                            assert(t2.nodes()[i].kids() == t1.nodes()[i].kids().push(f));
                            if k < t1.nodes()[i].kids().len() {
                                assert(t2.nodes()[i].kids()[k] == t1.nodes()[i].kids()[k]);
                            } else {
                                assert(t2.nodes()[i].kids()[k] == f);
                            }
                        } else {
                            assert(t2.nodes()[i] == t1.nodes()[i]);
                        }
                    },
                }
            }
        }
    }
    assert forall|k: int| 0 <= k < s1.len() implies (#[trigger] s1[k]) < t1.nodes().len() by {
        match owner {
            None => {},
            Some(p) => {},
        }
    }
    match owner {
        None => {
            assert(t2.root_ids() == s1.push(f));
            assert(t2.ids_ok(t2.root_ids()));
            assert(t2.uniq_chords(t2.root_ids()));
            assert forall|i: int| 0 <= i < t2.nodes().len() implies t2.ids_ok(
                #[trigger] t2.nodes()[i].kids(),
            ) && t2.uniq_chords(t2.nodes()[i].kids()) by {
                if i < t1.nodes().len() {
                    assert(t2.nodes()[i] == t1.nodes()[i]);
                    assert(t1.ids_ok(t1.nodes()[i].kids()));
                } else {
                    assert(t2.nodes()[i].kids().len() == 0);
                }
            }
            assert(t2.forest());
        },
        Some(p) => {
            assert(t2.root_ids() == t1.root_ids());
            assert(t2.ids_ok(t2.root_ids()));
            assert(t2.uniq_chords(t2.root_ids()));
            assert forall|i: int| 0 <= i < t2.nodes().len() implies t2.ids_ok(
                #[trigger] t2.nodes()[i].kids(),
            ) && t2.uniq_chords(t2.nodes()[i].kids()) by {
                if i == p as int {
                    assert(t2.nodes()[i].kids() == s1.push(f));
                    assert(t2.ids_ok(t2.nodes()[i].kids()));
                    assert(t2.uniq_chords(t2.nodes()[i].kids()));
                } else if i < t1.nodes().len() {
                    assert(t2.nodes()[i] == t1.nodes()[i]);
                    assert(t1.ids_ok(t1.nodes()[i].kids()));
                } else {
                    assert(t2.nodes()[i].kids().len() == 0);
                }
            }
            assert forall|i1: int, k1: int, i2: int, k2: int|
                0 <= i1 < t2.nodes().len() && 0 <= k1 < t2.nodes()[i1].kids().len() && 0 <= i2
                    < t2.nodes().len() && 0 <= k2 < t2.nodes()[i2].kids().len() && i1 != i2 implies (
            #[trigger] t2.nodes()[i1].kids()[k1]) != (#[trigger] t2.nodes()[i2].kids()[k2]) by {
                lemma_push_kid_cases(t1, t2, p, f, i1, k1);
                lemma_push_kid_cases(t1, t2, p, f, i2, k2);
            }
            assert forall|k: int, i: int, k2: int|
                0 <= k < t2.root_ids().len() && 0 <= i < t2.nodes().len() && 0 <= k2
                    < t2.nodes()[i].kids().len() implies (#[trigger] t2.root_ids()[k]) != (
            #[trigger] t2.nodes()[i].kids()[k2]) by {
                lemma_push_kid_cases(t1, t2, p, f, i, k2);
                assert(t1.root_ids()[k] < t1.nodes().len());
            }
            assert(t2.forest());
        },
    }
}

/// In the extended arena, each child reference is either an old reference at
/// the same place or the fresh index at the end of the owner's set.
proof fn lemma_push_kid_cases(t1: InputTrie, t2: InputTrie, p: usize, f: usize, i: int, k: int)
    requires
        t1.wf(),
        push_rel(t1, t2, Some(p), f),
        0 <= i < t2.nodes().len(),
        0 <= k < t2.nodes()[i].kids().len(),
    ensures
        (i < t1.nodes().len() && k < t1.nodes()[i].kids().len() && t2.nodes()[i].kids()[k]
            == t1.nodes()[i].kids()[k] && t1.nodes()[i].kids()[k] < t1.nodes().len()) || (i
            == p as int && k == t1.nodes()[i].kids().len() && t2.nodes()[i].kids()[k] == f) || (i
            == f as int && false),
{
    if i == f as int {
        assert(t2.nodes()[i].kids().len() == 0);
    } else if i == p as int {
        assert(t2.nodes()[i].kids() == t1.nodes()[i].kids().push(f));
    } else {
        assert(t2.nodes()[i] == t1.nodes()[i]);
    }
}

/// Pushing a fresh node that commits nothing changes no committed sequence.
proof fn lemma_push_cmd_at(
    t1: InputTrie,
    t2: InputTrie,
    owner: Option<usize>,
    f: usize,
    cs: Seq<InputChunk>,
)
    requires
        t1.wf(),
        push_rel(t1, t2, owner, f),
        t2.nodes()[f as int].cmd() is None,
    ensures
        t2.cmd_at(cs) == t1.cmd_at(cs),
{
    lemma_push_walk(t1, t2, owner, f, cs);
    lemma_walk_in_bounds(t1, cs);
    match t2.walk(cs) {
        None => {
            assert(t1.walk(cs) is None);
        },
        Some(j) => {
            if j == f {
            } else {
                assert(t1.walk(cs) == Some(j));
                assert(j < t1.nodes().len());
                match owner {
                    None => {
                        assert(t2.nodes()[j as int] == t1.nodes()[j as int]);
                    },
                    Some(p) => {
                        if j == p {
                            assert(t2.nodes()[j as int].cmd() == t1.nodes()[j as int].cmd());
                        } else {
                            assert(t2.nodes()[j as int] == t1.nodes()[j as int]);
                        }
                    },
                }
            }
        },
    }
}


/// In a well-formed arena, at most one chord sequence reaches each node.
proof fn lemma_walk_unique(t: InputTrie, cs1: Seq<InputChunk>, cs2: Seq<InputChunk>)
    requires
        t.wf(),
        t.walk(cs1) is Some,
        t.walk(cs1) == t.walk(cs2),
    ensures
        cs1 =~= cs2,
    decreases cs1.len() + cs2.len(),
{
    let j = t.walk(cs1).unwrap();
    assert(cs1.len() >= 1);
    assert(cs2.len() >= 1);
    let cur1 = if cs1.len() == 1 {
        None::<usize>
    } else {
        t.walk(cs1.drop_last())
    };
    let cur2 = if cs2.len() == 1 {
        None::<usize>
    } else {
        t.walk(cs2.drop_last())
    };
    if cs1.len() > 1 {
        assert(cur1 is Some);
        lemma_walk_in_bounds(t, cs1.drop_last());
    }
    if cs2.len() > 1 {
        assert(cur2 is Some);
        lemma_walk_in_bounds(t, cs2.drop_last());
    }
    lemma_find_match_props(t.nodes(), t.sibs(cur1), cs1.last());
    lemma_find_match_props(t.nodes(), t.sibs(cur2), cs2.last());
    assert(t.nodes()[j as int].chord() == cs1.last());
    assert(t.nodes()[j as int].chord() == cs2.last());
    assert(t.sibs(cur1).contains(j));
    assert(t.sibs(cur2).contains(j));
    let k1 = choose|k: int| 0 <= k < t.sibs(cur1).len() && t.sibs(cur1)[k] == j;
    let k2 = choose|k: int| 0 <= k < t.sibs(cur2).len() && t.sibs(cur2)[k] == j;
    // The forest property forces the two final steps to face the same set.
    match (cur1, cur2) {
        (None, None) => {
            assert(cs1.len() == 1 && cs2.len() == 1);
            assert(cs1 =~= cs2);
        },
        (None, Some(q2)) => {
            assert(t.root_ids()[k1] == t.nodes()[q2 as int].kids()[k2]);
            assert(false);
        },
        (Some(q1), None) => {
            assert(t.root_ids()[k2] == t.nodes()[q1 as int].kids()[k1]);
            assert(false);
        },
        (Some(q1), Some(q2)) => {
            if q1 != q2 {
                assert(t.nodes()[q1 as int].kids()[k1] == t.nodes()[q2 as int].kids()[k2]);
                assert(false);
            }
            lemma_walk_unique(t, cs1.drop_last(), cs2.drop_last());
            assert(cs1.drop_last() =~= cs2.drop_last());
            assert(cs1 =~= cs1.drop_last().push(cs1.last()));
            assert(cs2 =~= cs2.drop_last().push(cs2.last()));
        },
    }
}

/// Once a walk has failed at some non-empty prefix, every longer prefix
/// fails too.
proof fn lemma_walk_none_prefix(t: InputTrie, cs: Seq<InputChunk>, k: int, m: int)
    requires
        1 <= k <= m <= cs.len(),
        t.walk(cs.take(k)) is None,
    ensures
        t.walk(cs.take(m)) is None,
    decreases m - k,
{
    if m > k {
        lemma_walk_none_prefix(t, cs, k, m - 1);
        assert(cs.take(m).drop_last() =~= cs.take(m - 1));
        assert(cs.take(m).len() == m);
    }
}

/// An arena with no roots commits nothing.
pub proof fn lemma_empty_cmd_at(t: InputTrie, cs: Seq<InputChunk>)
    requires
        t.root_ids().len() == 0,
    ensures
        t.cmd_at(cs) is None,
        t.walk(cs) is None,
    decreases cs.len(),
{
    if cs.len() == 0 {
    } else if cs.len() == 1 {
        assert(t.sibs(None) == t.root_ids());
    } else {
        lemma_empty_cmd_at(t, cs.drop_last());
    }
}

/// Two arenas of the same shape (same chords, children and roots) walk every
/// sequence to the same place, whatever their commands.
proof fn lemma_walk_same_structure(t1: InputTrie, t2: InputTrie, cs: Seq<InputChunk>)
    requires
        t1.nodes().len() == t2.nodes().len(),
        forall|i: int|
            0 <= i < t1.nodes().len() ==> (#[trigger] t2.nodes()[i]).chord()
                == t1.nodes()[i].chord(),
        forall|i: int|
            0 <= i < t1.nodes().len() ==> (#[trigger] t2.nodes()[i]).kids() == t1.nodes()[i].kids(),
        t1.root_ids() == t2.root_ids(),
    ensures
        t1.walk(cs) == t2.walk(cs),
    decreases cs.len(),
{
    if cs.len() == 0 {
    } else if cs.len() == 1 {
        lemma_find_match_bounded(t1.nodes(), t2.nodes(), t1.root_ids(), cs[0]);
    } else {
        lemma_walk_same_structure(t1, t2, cs.drop_last());
        match t1.walk(cs.drop_last()) {
            None => {},
            Some(j) => {
                lemma_walk_in_bounds(t1, cs.drop_last());
                lemma_find_match_bounded(
                    t1.nodes(),
                    t2.nodes(),
                    t1.nodes()[j as int].kids(),
                    cs.last(),
                );
            },
        }
    }
}

/// `lemma_find_match_same`, for arenas of equal length with equal chords.
proof fn lemma_find_match_bounded(
    nodes1: Seq<TrieNode>,
    nodes2: Seq<TrieNode>,
    s: Seq<usize>,
    input: InputChunk,
)
    requires
        nodes1.len() == nodes2.len(),
        forall|i: int|
            0 <= i < nodes1.len() ==> (#[trigger] nodes2[i]).chord() == nodes1[i].chord(),
    ensures
        find_match(nodes1, s, input) == find_match(nodes2, s, input),
{
    lemma_find_match_same(nodes1, nodes2, s, input);
}


/// Changing only the commands of nodes keeps the arena well-formed.
proof fn lemma_update_cmd_wf(t1: InputTrie, t2: InputTrie)
    requires
        t1.wf(),
        t1.nodes().len() == t2.nodes().len(),
        forall|i: int|
            0 <= i < t1.nodes().len() ==> (#[trigger] t2.nodes()[i]).chord()
                == t1.nodes()[i].chord() && t2.nodes()[i].kids() == t1.nodes()[i].kids(),
        t2.root_ids() == t1.root_ids(),
    ensures
        t2.wf(),
{
    assert forall|k: int| 0 <= k < t2.root_ids().len() implies (#[trigger] t2.root_ids()[k])
        < t2.nodes().len() by {
        assert(t1.root_ids()[k] < t1.nodes().len());
    }
    assert(t2.uniq_chords(t2.root_ids())) by {
        assert forall|k1: int, k2: int| 0 <= k1 < k2 < t2.root_ids().len() implies t2.nodes()[(
        #[trigger] t2.root_ids()[k1]) as int].chord() != t2.nodes()[(#[trigger] t2.root_ids()[k2]) as int].chord() by {
            assert(t1.root_ids()[k1] < t1.nodes().len());
            assert(t1.root_ids()[k2] < t1.nodes().len());
        }
    }
    assert forall|i: int| 0 <= i < t2.nodes().len() implies t2.ids_ok(
        #[trigger] t2.nodes()[i].kids(),
    ) && t2.uniq_chords(t2.nodes()[i].kids()) by {
        assert(t2.nodes()[i].kids() == t1.nodes()[i].kids());
        assert(t1.ids_ok(t1.nodes()[i].kids()));
        assert(t1.uniq_chords(t1.nodes()[i].kids()));
        assert forall|k: int| 0 <= k < t2.nodes()[i].kids().len() implies (
        #[trigger] t2.nodes()[i].kids()[k]) < t2.nodes().len() by {
            assert(t1.nodes()[i].kids()[k] < t1.nodes().len());
        }
        assert forall|k1: int, k2: int| 0 <= k1 < k2 < t2.nodes()[i].kids().len() implies t2.nodes()[(
        #[trigger] t2.nodes()[i].kids()[k1]) as int].chord() != t2.nodes()[(
        #[trigger] t2.nodes()[i].kids()[k2]) as int].chord() by {
            assert(t1.nodes()[i].kids()[k1] < t1.nodes().len());
            assert(t1.nodes()[i].kids()[k2] < t1.nodes().len());
        }
    }
    assert(t2.ordered()) by {
        assert forall|i: int, k: int|
            0 <= i < t2.nodes().len() && 0 <= k < t2.nodes()[i].kids().len() implies (
        #[trigger] t2.nodes()[i].kids()[k]) > i by {
            assert(t2.nodes()[i].kids() == t1.nodes()[i].kids());
            assert(t1.nodes()[i].kids()[k] > i);
        }
    }
    assert(t2.forest()) by {
        assert forall|i: int| 0 <= i < t2.nodes().len() implies (#[trigger] t2.nodes()[i]).kids()
            == t1.nodes()[i].kids() by {}
    }
}

/// One chord of the new suffix: in the extended arena the owner's set now
/// leads to the fresh node.
proof fn lemma_push_advance(
    t1: InputTrie,
    t2: InputTrie,
    curr: Option<usize>,
    f: usize,
    input: InputChunk,
)
    requires
        t1.wf(),
        push_rel(t1, t2, curr, f),
        t1.cursor_ok(curr),
        t1.spec_advance(curr, input) == None::<usize>,
        t2.nodes()[f as int].chord() == input,
    ensures
        t2.spec_advance(curr, input) == Some(f),
{
    let s1 = t1.sibs(curr);
    assert forall|k: int| 0 <= k < s1.len() implies (#[trigger] s1[k]) < t1.nodes().len() by {
        match curr {
            None => {},
            Some(p) => {},
        }
    }
    lemma_find_match_same(t1.nodes(), t2.nodes(), s1, input);
    assert(t2.sibs(curr) == s1.push(f));
    lemma_find_match_push(t2.nodes(), s1, f, input);
}

/// One step of suffix creation: pushing a fresh, command-free node extends
/// the walked path by one chord and commits nothing new.
proof fn lemma_insert_step(
    t1: InputTrie,
    t2: InputTrie,
    curr: Option<usize>,
    f: usize,
    chords: Seq<InputChunk>,
    k: int,
    told: InputTrie,
)
    requires
        t1.wf(),
        told.wf(),
        push_rel(t1, t2, curr, f),
        0 <= k < chords.len(),
        t2.nodes()[f as int].chord() == chords[k],
        t2.nodes()[f as int].cmd() is None,
        t1.walk(chords.take(k)) == curr,
        k > 0 ==> curr is Some,
        t1.cursor_ok(curr),
        t1.spec_advance(curr, chords[k]) == None::<usize>,
        forall|cs: Seq<InputChunk>| #[trigger] t1.cmd_at(cs) == told.cmd_at(cs),
        forall|cs: Seq<InputChunk>|
            (#[trigger] t1.walk(cs)) is Some ==> told.walk(cs) is Some || (1 <= cs.len() <= k
                && cs == chords.take(cs.len() as int)),
    ensures
        t2.wf(),
        t2.walk(chords.take(k + 1)) == Some(f),
        f < t2.nodes().len(),
        t2.nodes()[f as int].kids() == Seq::<usize>::empty(),
        forall|cs: Seq<InputChunk>| #[trigger] t2.cmd_at(cs) == told.cmd_at(cs),
        forall|cs: Seq<InputChunk>|
            (#[trigger] t2.walk(cs)) is Some ==> told.walk(cs) is Some || (1 <= cs.len() <= k + 1
                && cs == chords.take(cs.len() as int)),
{
    lemma_push_wf(t1, t2, curr, f);
    lemma_push_advance(t1, t2, curr, f, chords[k]);
    if k == 0 {
        assert(chords.take(1).len() == 1);
        assert(chords.take(1)[0] == chords[0]);
        assert(curr is None);
        assert(t2.walk(chords.take(1)) == t2.spec_advance(None, chords[0]));
    } else {
        lemma_push_walk(t1, t2, curr, f, chords.take(k));
        assert(t2.walk(chords.take(k)) == curr);
        assert(chords.take(k + 1).drop_last() =~= chords.take(k));
        assert(chords.take(k + 1).last() == chords[k]);
        assert(chords.take(k + 1).len() == k + 1);
    }
    assert forall|cs: Seq<InputChunk>| #[trigger] t2.cmd_at(cs) == told.cmd_at(cs) by {
        lemma_push_cmd_at(t1, t2, curr, f, cs);
    }
    assert forall|cs: Seq<InputChunk>| (#[trigger] t2.walk(cs)) is Some implies told.walk(
        cs,
    ) is Some || (1 <= cs.len() <= k + 1 && cs == chords.take(cs.len() as int)) by {
        lemma_push_walk(t1, t2, curr, f, cs);
        match t2.walk(cs) {
            Some(j) => {
                if j == f {
                    lemma_walk_unique(t2, cs, chords.take(k + 1));
                    assert(cs == chords.take(k + 1));
                } else {
                    assert(t1.walk(cs) == Some(j));
                }
            },
            None => {},
        }
    }
}

/// The last step of an insertion: pushing the committing node maps the new
/// sequence to its command and leaves every other sequence as it was before
/// the insertion began.
proof fn lemma_insert_final(
    t1: InputTrie,
    t2: InputTrie,
    curr: Option<usize>,
    f: usize,
    chords: Seq<InputChunk>,
    consumed: int,
    cursor: Option<usize>,
    told: InputTrie,
    cmd: Command,
)
    requires
        t1.wf(),
        told.wf(),
        push_rel(t1, t2, curr, f),
        chords.len() >= 1,
        0 <= consumed < chords.len(),
        t2.nodes()[f as int].chord() == chords[chords.len() - 1],
        t2.nodes()[f as int].cmd() == Some(cmd),
        t1.walk(chords.take(chords.len() - 1)) == curr,
        chords.len() > 1 ==> curr is Some,
        t1.cursor_ok(curr),
        t1.spec_advance(curr, chords[chords.len() - 1]) == None::<usize>,
        forall|cs: Seq<InputChunk>| #[trigger] t1.cmd_at(cs) == told.cmd_at(cs),
        told.walk(chords.take(consumed)) == cursor,
        consumed > 0 ==> cursor is Some,
        told.spec_advance(cursor, chords[consumed]) == None::<usize>,
        forall|kk: int| 1 <= kk <= consumed ==> (#[trigger] told.cmd_at(chords.take(kk))) is None,
        forall|cs: Seq<InputChunk>|
            (#[trigger] t1.walk(cs)) is Some ==> told.walk(cs) is Some || (1 <= cs.len()
                < chords.len() && cs == chords.take(cs.len() as int)),
    ensures
        t2.wf(),
        t2.cmd_at(chords) == Some(cmd),
        forall|other: Seq<InputChunk>|
            other != chords ==> #[trigger] t2.cmd_at(other) == told.cmd_at(other),
        !told.insert_blocked(chords),
        forall|cs: Seq<InputChunk>|
            (#[trigger] t2.walk(cs)) is Some ==> told.walk(cs) is Some || (1 <= cs.len()
                <= chords.len() && cs == chords.take(cs.len() as int)),
{
    let n = chords.len() as int;
    lemma_push_wf(t1, t2, curr, f);
    lemma_push_advance(t1, t2, curr, f, chords[n - 1]);
    // The new sequence now walks to the fresh node.
    if n == 1 {
        assert(chords.take(0) =~= Seq::<InputChunk>::empty());
        assert(curr is None);
        assert(chords.take(1) =~= chords);
        assert(t2.walk(chords) == t2.spec_advance(None, chords[0]));
    } else {
        lemma_push_walk(t1, t2, curr, f, chords.take(n - 1));
        assert(t2.walk(chords.take(n - 1)) == curr);
        assert(chords.drop_last() =~= chords.take(n - 1));
        assert(chords.last() == chords[n - 1]);
    }
    assert(t2.walk(chords) == Some(f));
    assert(t2.cmd_at(chords) == Some(cmd));
    // Every other sequence keeps the command it had before the insertion.
    assert forall|other: Seq<InputChunk>| other != chords implies #[trigger] t2.cmd_at(other)
        == told.cmd_at(other) by {
        lemma_push_walk(t1, t2, curr, f, other);
        lemma_walk_in_bounds(t1, other);
        match t2.walk(other) {
            Some(j) => {
                if j == f {
                    lemma_walk_unique(t2, other, chords);
                    assert(false);
                } else {
                    assert(t1.walk(other) == Some(j));
                    assert(j < t1.nodes().len());
                    match curr {
                        None => {
                            assert(t2.nodes()[j as int] == t1.nodes()[j as int]);
                        },
                        Some(p) => {
                            if j == p {
                                assert(t2.nodes()[j as int].cmd() == t1.nodes()[j as int].cmd());
                            } else {
                                assert(t2.nodes()[j as int] == t1.nodes()[j as int]);
                            }
                        },
                    }
                    assert(t2.cmd_at(other) == t1.cmd_at(other));
                }
            },
            None => {
                assert(t1.walk(other) is None);
                assert(t2.cmd_at(other) == t1.cmd_at(other));
            },
        }
    }
    // Nothing committed a prefix of the new sequence before the insertion.
    assert forall|kk: int| 1 <= kk <= chords.len() implies (#[trigger] told.cmd_at(
        chords.take(kk),
    )) is None by {
        if kk <= consumed {
        } else if kk == consumed + 1 {
            if consumed == 0 {
                assert(chords.take(1).len() == 1);
                assert(chords.take(1)[0] == chords[0]);
                assert(cursor is None);
                assert(told.walk(chords.take(1)) == told.spec_advance(None, chords[0]));
            } else {
                assert(chords.take(consumed + 1).drop_last() =~= chords.take(consumed));
                assert(chords.take(consumed + 1).last() == chords[consumed]);
                assert(chords.take(consumed + 1).len() == consumed + 1);
                assert(told.walk(chords.take(consumed + 1)) is None);
            }
        } else {
            if consumed == 0 {
                assert(chords.take(1).len() == 1);
                assert(chords.take(1)[0] == chords[0]);
                assert(cursor is None);
                assert(told.walk(chords.take(1)) == told.spec_advance(None, chords[0]));
            } else {
                assert(chords.take(consumed + 1).drop_last() =~= chords.take(consumed));
                assert(chords.take(consumed + 1).last() == chords[consumed]);
                assert(chords.take(consumed + 1).len() == consumed + 1);
            }
            assert(told.walk(chords.take(consumed + 1)) is None);
            lemma_walk_none_prefix(told, chords, consumed + 1, kk);
        }
    }
    // Nor did any committed sequence extend it: every extension's walk dies
    // where the new sequence's walk diverged.
    assert(told.walk(chords.take(consumed + 1)) is None) by {
        if consumed == 0 {
            assert(chords.take(1).len() == 1);
            assert(chords.take(1)[0] == chords[0]);
            assert(cursor is None);
            assert(told.walk(chords.take(1)) == told.spec_advance(None, chords[0]));
        } else {
            assert(chords.take(consumed + 1).drop_last() =~= chords.take(consumed));
            assert(chords.take(consumed + 1).last() == chords[consumed]);
            assert(chords.take(consumed + 1).len() == consumed + 1);
        }
    }
    assert forall|cs: Seq<InputChunk>| (#[trigger] t2.walk(cs)) is Some implies told.walk(
        cs,
    ) is Some || (1 <= cs.len() <= chords.len() && cs == chords.take(cs.len() as int)) by {
        lemma_push_walk(t1, t2, curr, f, cs);
        match t2.walk(cs) {
            Some(j) => {
                if j == f {
                    lemma_walk_unique(t2, cs, chords);
                    assert(cs =~= chords);
                    assert(chords.take(chords.len() as int) =~= chords);
                } else {
                    assert(t1.walk(cs) == Some(j));
                }
            },
            None => {},
        }
    }
    assert(!told.committed_extension(chords)) by {
        if told.committed_extension(chords) {
            let ext = choose|ext: Seq<InputChunk>|
                ext.len() > chords.len() && ext.take(chords.len() as int) == chords && (
                #[trigger] told.cmd_at(ext)) is Some;
            assert(ext.take(consumed + 1) =~= chords.take(consumed + 1));
            assert(told.walk(ext.take(consumed + 1)) is None);
            lemma_walk_none_prefix(told, ext, consumed + 1, ext.len() as int);
            assert(ext.take(ext.len() as int) =~= ext);
            assert(told.cmd_at(ext) is None);
        }
    }
}


/// With unique sibling chords, the sibling set finds exactly its own member
/// when asked for that member's chord.
proof fn lemma_find_match_at(t: InputTrie, s: Seq<usize>, k: int)
    requires
        t.ids_ok(s),
        t.uniq_chords(s),
        0 <= k < s.len(),
    ensures
        find_match(t.nodes(), s, t.nodes()[s[k] as int].chord()) == Some(s[k]),
    decreases k,
{
    let ch = t.nodes()[s[k] as int].chord();
    if k == 0 {
        assert(s[0] < t.nodes().len());
    } else {
        assert(t.nodes()[s[0] as int].chord() != ch);
        assert forall|m: int| 0 <= m < s.skip(1).len() implies (#[trigger] s.skip(1)[m])
            < t.nodes().len() by {
            assert(s.skip(1)[m] == s[m + 1]);
        }
        assert forall|m1: int, m2: int| 0 <= m1 < m2 < s.skip(1).len() implies t.nodes()[(
        #[trigger] s.skip(1)[m1]) as int].chord() != t.nodes()[(
        #[trigger] s.skip(1)[m2]) as int].chord() by {
            assert(s.skip(1)[m1] == s[m1 + 1]);
            assert(s.skip(1)[m2] == s[m2 + 1]);
        }
        assert(s.skip(1)[k - 1] == s[k]);
        lemma_find_match_at(t, s.skip(1), k - 1);
    }
}

/// A walk from a node, unfolded at its right end.
proof fn lemma_walk_from_snoc(t: InputTrie, cur: usize, b: Seq<InputChunk>, c: InputChunk)
    ensures
        t.walk_from(cur, b.push(c)) == (match t.walk_from(cur, b) {
            None => None::<usize>,
            Some(j) => t.spec_advance(Some(j), c),
        }),
    decreases b.len(),
{
    if b.len() == 0 {
        assert(b.push(c)[0] == c);
        assert(b.push(c).skip(1) =~= Seq::<InputChunk>::empty());
        match t.spec_advance(Some(cur), c) {
            None => {},
            Some(j) => {
                assert(t.walk_from(j, b.push(c).skip(1)) == Some(j));
            },
        }
    } else {
        assert(b.push(c)[0] == b[0]);
        assert(b.push(c).skip(1) =~= b.skip(1).push(c));
        match t.spec_advance(Some(cur), b[0]) {
            None => {},
            Some(j) => {
                lemma_walk_from_snoc(t, j, b.skip(1), c);
            },
        }
    }
}

/// A walk splits at any node it passes: the whole sequence leads to where
/// the suffix leads from the prefix's node.
proof fn lemma_walk_append(t: InputTrie, a: Seq<InputChunk>, b: Seq<InputChunk>)
    requires
        a.len() >= 1,
        t.walk(a) is Some,
    ensures
        t.walk(a + b) == t.walk_from(t.walk(a).unwrap(), b),
    decreases b.len(),
{
    let wa = t.walk(a).unwrap();
    if b.len() == 0 {
        assert(a + b =~= a);
        assert(t.walk_from(wa, b) == Some(wa));
    } else {
        lemma_walk_append(t, a, b.drop_last());
        assert((a + b).drop_last() =~= a + b.drop_last());
        assert((a + b).last() == b.last());
        assert((a + b).len() >= 2);
        lemma_walk_from_snoc(t, wa, b.drop_last(), b.last());
        assert(b.drop_last().push(b.last()) =~= b);
        match t.walk_from(wa, b.drop_last()) {
            None => {
                assert(t.walk(a + b) is None);
            },
            Some(j) => {
                assert(t.walk(a + b) == t.spec_advance(Some(j), b.last()));
            },
        }
    }
}

/// Some committed sequence properly extends `chords` exactly when a
/// non-empty path from the node `chords` leads to reaches a command.
proof fn lemma_extension_iff_below(t: InputTrie, chords: Seq<InputChunk>, tn: usize)
    requires
        chords.len() >= 1,
        t.walk(chords) == Some(tn),
    ensures
        t.committed_extension(chords) == exists|path: Seq<InputChunk>|
            path.len() >= 1 && #[trigger] t.path_commits(tn, path),
{
    if t.committed_extension(chords) {
        let ext = choose|ext: Seq<InputChunk>|
            ext.len() > chords.len() && ext.take(chords.len() as int) == chords && (
            #[trigger] t.cmd_at(ext)) is Some;
        let path = ext.skip(chords.len() as int);
        assert(chords + path =~= ext);
        lemma_walk_append(t, chords, path);
        assert(path.len() >= 1 && t.path_commits(tn, path));
    }
    if exists|path: Seq<InputChunk>| path.len() >= 1 && #[trigger] t.path_commits(tn, path) {
        let path = choose|path: Seq<InputChunk>|
            path.len() >= 1 && #[trigger] t.path_commits(tn, path);
        let ext = chords + path;
        lemma_walk_append(t, chords, path);
        assert(ext.take(chords.len() as int) =~= chords);
        assert(ext.len() > chords.len() && ext.take(chords.len() as int) == chords && t.cmd_at(
            ext,
        ) is Some);
        assert(t.committed_extension(chords));
    }
}

/// Prefix safety, one direction: once a sequence is committed, inserting
/// any longer sequence that extends it is refused, because the committed
/// final node stands on the longer walk.
pub proof fn lemma_committed_prefix_blocks(t: InputTrie, a: Seq<InputChunk>, b: Seq<InputChunk>)
    requires
        t.cmd_at(a) is Some,
        a.len() < b.len(),
        b.take(a.len() as int) == a,
    ensures
        t.insert_blocked(b),
{
    assert(a.len() >= 1) by {
        if a.len() == 0 {
            assert(t.walk(a) is None);
        }
    }
    assert(t.cmd_at(b.take(a.len() as int)) is Some);
}

/// Prefix safety, the other direction: once a sequence is committed,
/// inserting any proper prefix of it is refused too, because a committed
/// sequence would extend the shorter one.
pub proof fn lemma_committed_extension_blocks(t: InputTrie, a: Seq<InputChunk>, b: Seq<InputChunk>)
    requires
        t.cmd_at(b) is Some,
        a.len() < b.len(),
        b.take(a.len() as int) == a,
    ensures
        t.insert_blocked(a),
{
    assert(b.len() > a.len() && b.take(a.len() as int) == a && t.cmd_at(b) is Some);
    assert(t.committed_extension(a));
}

/// Prefix safety, seen from a successful insertion: nothing committed any
/// non-empty prefix of the accepted sequence (itself included) beforehand,
/// and nothing committed extended it.
pub proof fn lemma_accepted_had_no_committed_prefix(t: InputTrie, b: Seq<InputChunk>, k: int)
    requires
        !t.insert_blocked(b),
        1 <= k <= b.len(),
    ensures
        t.cmd_at(b.take(k)) is None,
        !t.committed_extension(b),
{
}

/// No two committed sequences of the trie stand in a prefix relation.
pub open spec fn prefix_free(t: InputTrie) -> bool {
    forall|a: Seq<InputChunk>, b: Seq<InputChunk>|
        (#[trigger] t.cmd_at(a)) is Some && (#[trigger] t.cmd_at(b)) is Some && a.len() < b.len()
            ==> b.take(a.len() as int) != a
}

/// A trie with no roots commits nothing, so it is prefix-free.
pub proof fn lemma_empty_prefix_free(t: InputTrie)
    requires
        t.root_ids().len() == 0,
    ensures
        prefix_free(t),
{
    assert forall|a: Seq<InputChunk>, b: Seq<InputChunk>|
        (#[trigger] t.cmd_at(a)) is Some && (#[trigger] t.cmd_at(b)) is Some && a.len()
            < b.len() implies b.take(a.len() as int) != a by {
        lemma_empty_cmd_at(t, a);
    }
}

/// Prefix freedom is an invariant of insertion: a trie whose committed
/// sequences are prefix-free stays so through any accepted insertion. This
/// follows from what an accepted insertion states: the new sequence had no
/// committed prefix and no committed extension, and every other sequence
/// keeps the command it had.
pub proof fn lemma_insert_preserves_prefix_freedom(
    t1: InputTrie,
    t2: InputTrie,
    chords: Seq<InputChunk>,
    cmd: Command,
)
    requires
        prefix_free(t1),
        !t1.insert_blocked(chords),
        chords.len() >= 1,
        t2.cmd_at(chords) == Some(cmd),
        forall|other: Seq<InputChunk>|
            other != chords ==> #[trigger] t2.cmd_at(other) == t1.cmd_at(other),
    ensures
        prefix_free(t2),
{
    assert forall|a: Seq<InputChunk>, b: Seq<InputChunk>|
        (#[trigger] t2.cmd_at(a)) is Some && (#[trigger] t2.cmd_at(b)) is Some && a.len()
            < b.len() implies b.take(a.len() as int) != a by {
        if b.take(a.len() as int) == a {
            if a == chords {
                assert(t1.cmd_at(b) is Some);
                assert(b.len() > chords.len() && b.take(chords.len() as int) == chords
                    && t1.cmd_at(b) is Some);
                assert(t1.committed_extension(chords));
                assert(false);
            } else if b == chords {
                assert(t1.cmd_at(a) is Some);
                assert(a.len() >= 1) by {
                    if a.len() == 0 {
                        assert(t1.walk(a) is None);
                    }
                }
                assert(t1.cmd_at(chords.take(a.len() as int)) is Some);
                assert(false);
            } else {
                assert(t1.cmd_at(a) is Some && t1.cmd_at(b) is Some);
                assert(false);
            }
        }
    }
}

} // verus!
