//! Case-insensitive subsequence search over a packed list of strings.

use vstd::prelude::*;
use vstd::string::StrSliceExecFns;
use vstd::string::StringExecFns;

verus! {

/// The ASCII lower-case image of a character.
pub open spec fn lower_char(c: char) -> char {
    if c == 'A' {
        'a'
    } else if c == 'B' {
        'b'
    } else if c == 'C' {
        'c'
    } else if c == 'D' {
        'd'
    } else if c == 'E' {
        'e'
    } else if c == 'F' {
        'f'
    } else if c == 'G' {
        'g'
    } else if c == 'H' {
        'h'
    } else if c == 'I' {
        'i'
    } else if c == 'J' {
        'j'
    } else if c == 'K' {
        'k'
    } else if c == 'L' {
        'l'
    } else if c == 'M' {
        'm'
    } else if c == 'N' {
        'n'
    } else if c == 'O' {
        'o'
    } else if c == 'P' {
        'p'
    } else if c == 'Q' {
        'q'
    } else if c == 'R' {
        'r'
    } else if c == 'S' {
        's'
    } else if c == 'T' {
        't'
    } else if c == 'U' {
        'u'
    } else if c == 'V' {
        'v'
    } else if c == 'W' {
        'w'
    } else if c == 'X' {
        'x'
    } else if c == 'Y' {
        'y'
    } else if c == 'Z' {
        'z'
    } else {
        c
    }
}

/// A whole character sequence, lowered.
pub open spec fn lower_seq(s: Seq<char>) -> Seq<char> {
    s.map(|k: int, c: char| lower_char(c))
}

fn to_lower_char(c: char) -> (r: char)
    ensures
        r == lower_char(c),
{
    match c {
        'A' => 'a',
        'B' => 'b',
        'C' => 'c',
        'D' => 'd',
        'E' => 'e',
        'F' => 'f',
        'G' => 'g',
        'H' => 'h',
        'I' => 'i',
        'J' => 'j',
        'K' => 'k',
        'L' => 'l',
        'M' => 'm',
        'N' => 'n',
        'O' => 'o',
        'P' => 'p',
        'Q' => 'q',
        'R' => 'r',
        'S' => 's',
        'T' => 't',
        'U' => 'u',
        'V' => 'v',
        'W' => 'w',
        'X' => 'x',
        'Y' => 'y',
        'Z' => 'z',
        _ => c,
    }
}

/// Whether an already-lowered query is a subsequence of an entry, comparing
/// each entry character lowered, first-fit from the left.
pub open spec fn subseq_match(q: Seq<char>, e: Seq<char>) -> bool
    decreases e.len(),
{
    if q.len() == 0 {
        true
    } else if e.len() == 0 {
        false
    } else if lower_char(e[0]) == q[0] {
        subseq_match(q.skip(1), e.skip(1))
    } else {
        subseq_match(q, e.skip(1))
    }
}

/// One step of the scan: consume the next query character when the scanned
/// character (lowered) provides it.
pub open spec fn greedy_step(q: Seq<char>, qi: int, c: char) -> int {
    if qi < q.len() && lower_char(c) == q[qi] {
        qi + 1
    } else {
        qi
    }
}

/// The query position the scan reaches after reading `e`, starting at `qi`.
pub open spec fn greedy_scan(q: Seq<char>, qi: int, e: Seq<char>) -> int
    decreases e.len(),
{
    if e.len() == 0 {
        qi
    } else {
        greedy_scan(q, greedy_step(q, qi, e[0]), e.skip(1))
    }
}

/// Scanning one more character is one more step.
proof fn lemma_greedy_scan_push(q: Seq<char>, qi: int, e: Seq<char>, c: char)
    ensures
        greedy_scan(q, qi, e.push(c)) == greedy_step(q, greedy_scan(q, qi, e), c),
    decreases e.len(),
{
    if e.len() == 0 {
        assert(e.push(c)[0] == c);
        assert(e.push(c).skip(1) =~= Seq::<char>::empty());
        assert(greedy_scan(q, qi, e.push(c)) == greedy_scan(
            q,
            greedy_step(q, qi, c),
            e.push(c).skip(1),
        ));
        assert(greedy_scan(q, greedy_step(q, qi, c), Seq::<char>::empty()) == greedy_step(
            q,
            qi,
            c,
        ));
    } else {
        assert(e.push(c)[0] == e[0]);
        assert(e.push(c).skip(1) =~= e.skip(1).push(c));
        lemma_greedy_scan_push(q, greedy_step(q, qi, e[0]), e.skip(1), c);
        assert(greedy_scan(q, qi, e.push(c)) == greedy_scan(
            q,
            greedy_step(q, qi, e[0]),
            e.skip(1).push(c),
        ));
        assert(greedy_scan(q, qi, e) == greedy_scan(q, greedy_step(q, qi, e[0]), e.skip(1)));
    }
}

/// The scan never moves the query position backwards or past the end.
proof fn lemma_greedy_scan_bounds(q: Seq<char>, qi: int, e: Seq<char>)
    requires
        0 <= qi <= q.len(),
    ensures
        qi <= greedy_scan(q, qi, e) <= q.len(),
    decreases e.len(),
{
    if e.len() > 0 {
        lemma_greedy_scan_bounds(q, greedy_step(q, qi, e[0]), e.skip(1));
    }
}

/// The scan consumes the whole query exactly when the not-yet-consumed part
/// of the query is a subsequence of the entry.
proof fn lemma_greedy_scan_subseq(q: Seq<char>, qi: int, e: Seq<char>)
    requires
        0 <= qi <= q.len(),
    ensures
        (greedy_scan(q, qi, e) == q.len()) == subseq_match(q.skip(qi), e),
    decreases e.len(),
{
    if e.len() == 0 {
        if qi == q.len() {
            assert(q.skip(qi).len() == 0);
        } else {
            assert(q.skip(qi).len() > 0);
        }
    } else {
        if qi == q.len() {
            lemma_greedy_scan_subseq(q, qi, e.skip(1));
            assert(q.skip(qi).len() == 0);
        } else {
            assert(q.skip(qi)[0] == q[qi]);
            if lower_char(e[0]) == q[qi] {
                lemma_greedy_scan_subseq(q, qi + 1, e.skip(1));
                assert(q.skip(qi).skip(1) =~= q.skip(qi + 1));
            } else {
                lemma_greedy_scan_subseq(q, qi, e.skip(1));
            }
        }
    }
}

/// The packed form of a list of entries: each entry followed by one NUL.
pub open spec fn spec_concat(es: Seq<Seq<char>>) -> Seq<char>
    decreases es.len(),
{
    if es.len() == 0 {
        Seq::<char>::empty()
    } else {
        spec_concat(es.drop_last()) + es.last() + seq!['\x00']
    }
}

/// The packed form, unfolded at the front.
proof fn lemma_concat_first(es: Seq<Seq<char>>)
    requires
        es.len() > 0,
    ensures
        spec_concat(es) == es[0] + seq!['\x00'] + spec_concat(es.skip(1)),
    decreases es.len(),
{
    if es.len() == 1 {
        assert(es.drop_last() =~= Seq::<Seq<char>>::empty());
        assert(es.skip(1) =~= Seq::<Seq<char>>::empty());
        assert(spec_concat(es) =~= es[0] + seq!['\x00'] + spec_concat(es.skip(1)));
    } else {
        lemma_concat_first(es.drop_last());
        assert(es.drop_last()[0] == es[0]);
        assert(es.drop_last().skip(1) =~= es.skip(1).drop_last());
        assert(es.skip(1).last() == es.last());
        assert(spec_concat(es) == spec_concat(es.drop_last()) + es.last() + seq!['\x00']);
        assert(spec_concat(es.skip(1)) == spec_concat(es.skip(1).drop_last()) + es.skip(1).last()
            + seq!['\x00']);
        assert(spec_concat(es) =~= es[0] + seq!['\x00'] + spec_concat(es.skip(1)));
    }
}

/// Where entry `d` lies inside the packed form: right after the packed form
/// of the entries before it, closed by one NUL.
proof fn lemma_concat_index(es: Seq<Seq<char>>, d: int)
    requires
        0 <= d < es.len(),
    ensures
        spec_concat(es).len() >= spec_concat(es.take(d)).len() + es[d].len() + 1,
        forall|j: int|
            0 <= j < es[d].len() ==> spec_concat(es)[spec_concat(es.take(d)).len() + j] == es[d][j],
        spec_concat(es)[spec_concat(es.take(d)).len() + es[d].len() as int] == '\x00',
    decreases d,
{
    if d == 0 {
        assert(es.take(0) =~= Seq::<Seq<char>>::empty());
        lemma_concat_first(es);
    } else {
        assert(es.take(d).len() == d);
        lemma_concat_first(es);
        lemma_concat_index(es.skip(1), d - 1);
        assert(es.skip(1).take(d - 1) =~= es.take(d).skip(1));
        lemma_concat_first(es.take(d));
        assert(es.take(d)[0] == es[0]);
        assert(es.skip(1)[d - 1] == es[d]);
        let base = spec_concat(es.take(d)).len();
        let base1 = spec_concat(es.skip(1).take(d - 1)).len();
        assert(base == es[0].len() + 1 + base1);
        assert forall|j: int| 0 <= j < es[d].len() implies spec_concat(es)[base + j] == es[d][j] by {
            assert(spec_concat(es.skip(1))[base1 + j] == es[d][j]);
            assert(spec_concat(es)[es[0].len() + 1 + (base1 + j)] == spec_concat(es.skip(1))[base1
                + j]);
        }
        assert(spec_concat(es)[base + es[d].len() as int] == spec_concat(es.skip(1))[base1
            + es[d].len() as int]);
    }
}

/// The packed length grows through each entry.
proof fn lemma_concat_take_len(es: Seq<Seq<char>>, d: int)
    requires
        0 <= d < es.len(),
    ensures
        spec_concat(es.take(d + 1)).len() == spec_concat(es.take(d)).len() + es[d].len() + 1,
        spec_concat(es.take(d + 1)).len() <= spec_concat(es).len(),
{
    assert(es.take(d + 1).drop_last() =~= es.take(d));
    assert(es.take(d + 1).last() == es[d]);
    lemma_concat_index(es, d);
}

/// A buffer containing a list of searchable strings. Instead of being a
/// simple vector of strings, the whole buffer is stored contiguously with
/// entries separated by NUL terminators, to allow for cache-efficient
/// subsequence searching. Searches are case insensitive.
pub struct SearchBuffer {
    /// The packed characters of all entries.
    pub buf: String,
    /// The entries the buffer packs, in insertion order.
    pub entries: Ghost<Seq<Seq<char>>>,
}

impl SearchBuffer {
    /// The packed buffer is exactly the entries, NUL-terminated each, and no
    /// entry contains the separator.
    pub open spec fn wf(&self) -> bool {
        &&& self.buf@ == spec_concat(self.entries@)
        &&& forall|i: int|
            0 <= i < self.entries@.len() ==> !(#[trigger] self.entries@[i]).contains('\x00')
    }

    /// The entries the buffer holds, in order.
    pub open spec fn strs(&self) -> Seq<Seq<char>> {
        self.entries@
    }

    pub fn new() -> (r: SearchBuffer)
        ensures
            r.wf(),
            r.strs() == Seq::<Seq<char>>::empty(),
    {
        SearchBuffer { buf: String::new(), entries: Ghost(Seq::empty()) }
    }

    /// Remove all entries.
    pub fn clear(&mut self)
        ensures
            final(self).wf(),
            final(self).strs() == Seq::<Seq<char>>::empty(),
    {
        self.buf = String::new();
        self.entries = Ghost(Seq::empty());
    }

    /// Add a list of strings. Entries may not contain the NUL separator.
    pub fn add_strings(&mut self, strings: &[&str])
        requires
            old(self).wf(),
            forall|k: int|
                0 <= k < strings@.len() ==> !(#[trigger] strings@[k]@).contains('\x00'),
        ensures
            final(self).wf(),
            final(self).strs() == old(self).strs() + strings@.map_values(|s: &str| s@),
    {
        let ghost start = self.entries@;
        let mut k: usize = 0;
        while k < strings.len()
            invariant
                self.wf(),
                0 <= k <= strings@.len(),
                forall|j: int|
                    0 <= j < strings@.len() ==> !(#[trigger] strings@[j]@).contains('\x00'),
                self.entries@ == start + strings@.map_values(|s: &str| s@).take(k as int),
            decreases strings@.len() - k,
        {
            let s: &str = strings[k];
            self.push_entry(s);
            proof {
                let m = strings@.map_values(|s: &str| s@);
                assert(m[k as int] == strings@[k as int]@);
                assert(m.take(k as int + 1) =~= m.take(k as int).push(m[k as int]));
            }
            k = k + 1;
        }
        proof {
            let m = strings@.map_values(|s: &str| s@);
            assert(m.take(m.len() as int) =~= m);
        }
    }

    /// Same as `add_strings` but with a slice of owned strings.
    pub fn add_strings_owned(&mut self, strings: &[String])
        requires
            old(self).wf(),
            forall|k: int|
                0 <= k < strings@.len() ==> !(#[trigger] strings@[k]@).contains('\x00'),
        ensures
            final(self).wf(),
            final(self).strs() == old(self).strs() + strings@.map_values(|s: String| s@),
    {
        let ghost start = self.entries@;
        let mut k: usize = 0;
        while k < strings.len()
            invariant
                self.wf(),
                0 <= k <= strings@.len(),
                forall|j: int|
                    0 <= j < strings@.len() ==> !(#[trigger] strings@[j]@).contains('\x00'),
                self.entries@ == start + strings@.map_values(|s: String| s@).take(k as int),
            decreases strings@.len() - k,
        {
            let s: &str = strings[k].as_str();
            self.push_entry(s);
            proof {
                let m = strings@.map_values(|s: String| s@);
                assert(m[k as int] == strings@[k as int]@);
                assert(m.take(k as int + 1) =~= m.take(k as int).push(m[k as int]));
            }
            k = k + 1;
        }
        proof {
            let m = strings@.map_values(|s: String| s@);
            assert(m.take(m.len() as int) =~= m);
        }
    }

    /// Given a string, return the list of entries of which it is a
    /// subsequence, comparing case-insensitively: one linear scan of the
    /// packed buffer, first-fit, no backtracking. Order is insertion order.
    pub fn find_all_subsequences(&self, search: &str) -> (r: Vec<String>)
        requires
            self.wf(),
        ensures
            r.deep_view() == matching_entries(search@, self.strs()),
    {
        let ghost q = lower_seq(search@);
        // Lower the query once.
        let qn = search.unicode_len();
        let mut q_low: Vec<char> = Vec::new();
        let mut i: usize = 0;
        while i < qn
            invariant
                qn == search@.len(),
                0 <= i <= qn,
                q == lower_seq(search@),
                q_low@ == q.take(i as int),
            decreases qn - i,
        {
            q_low.push(to_lower_char(search.get_char(i)));
            proof {
                assert(q[i as int] == lower_char(search@[i as int]));
                assert(q.take(i as int + 1) =~= q.take(i as int).push(q[i as int]));
            }
            i = i + 1;
        }
        proof {
            assert(q.take(qn as int) =~= q);
        }
        // One pass over the packed buffer. `curr_base` is where the current
        // entry starts and `qi` is how much of the query it has provided.
        let ghost es = self.entries@;
        let mut results: Vec<String> = Vec::new();
        let n = self.buf.as_str().unicode_len();
        let mut curr_base: usize = 0;
        let mut qi: usize = 0;
        let ghost mut done: int = 0;
        let mut ii: usize = 0;
        while ii < n
            invariant
                self.wf(),
                es == self.entries@,
                q == lower_seq(search@),
                q_low@ == q,
                n == self.buf@.len(),
                0 <= ii <= n,
                0 <= done <= es.len(),
                curr_base == spec_concat(es.take(done)).len(),
                curr_base <= ii,
                done < es.len() ==> ii - curr_base <= es[done].len(),
                done == es.len() ==> ii == n,
                0 <= qi <= q.len(),
                done < es.len() ==> qi == greedy_scan(
                    q,
                    0,
                    es[done].take(ii - curr_base),
                ),
                results.deep_view() == matching_entries(search@, es.take(done)),
            decreases n - ii,
        {
            proof {
                assert(done < es.len());
                lemma_concat_index(es, done);
            }
            let ghost off = ii - curr_base;
            let c = self.buf.as_str().get_char(ii);
            if c == '\x00' {
                proof {
                    if off < es[done].len() {
                        assert(self.buf@[ii as int] == es[done][off]);
                        assert(es[done].contains('\x00'));
                        assert(false);
                    }
                    assert(off == es[done].len());
                    assert(es[done].take(off) =~= es[done]);
                    lemma_greedy_scan_subseq(q, 0, es[done]);
                    assert(q.skip(0) =~= q);
                }
                if qi == q_low.len() {
                    let entry = self.buf.as_str().substring_char(curr_base, ii);
                    proof {
                        assert forall|j: int| 0 <= j < es[done].len() implies entry@[j]
                            == es[done][j] by {
                            assert(self.buf@[curr_base + j] == es[done][j]);
                        }
                        assert(entry@ =~= es[done]);
                    }
                    let owned = entry.to_owned();
                    let ghost before = results.deep_view();
                    results.push(owned);
                    proof {
                        assert(results.deep_view() =~= before.push(es[done]));
                        assert(subseq_match(q, es[done]));
                        lemma_matching_push(search@, es, done, true);
                    }
                } else {
                    proof {
                        assert(greedy_scan(q, 0, es[done]) != q.len());
                        assert(!subseq_match(q, es[done]));
                        lemma_matching_push(search@, es, done, false);
                    }
                }
                proof {
                    lemma_concat_take_len(es, done);
                    done = done + 1;
                }
                curr_base = ii + 1;
                qi = 0;
                proof {
                    if done < es.len() {
                        assert(es[done].take(0) =~= Seq::<char>::empty());
                    } else {
                        assert(es.take(done) =~= es);
                    }
                }
            } else {
                proof {
                    if off == es[done].len() {
                        assert(self.buf@[ii as int] == '\x00');
                        assert(false);
                    }
                    assert(self.buf@[ii as int] == es[done][off]);
                    assert(es[done].take(off + 1) =~= es[done].take(off).push(es[done][off]));
                    lemma_greedy_scan_push(q, 0, es[done].take(off), es[done][off]);
                    lemma_greedy_scan_bounds(q, 0, es[done].take(off + 1));
                }
                if qi < q_low.len() {
                    let lc = to_lower_char(c);
                    if lc == q_low[qi] {
                        qi = qi + 1;
                    }
                }
            }
            ii = ii + 1;
        }
        proof {
            if done < es.len() {
                lemma_concat_index(es, done);
                assert(false);
            }
            assert(es.take(done) =~= es);
        }
        results
    }

    /// Return, for every entry that contains the given character (compared
    /// case-insensitively), the prefix of that entry before its first
    /// occurrence, in insertion order.
    pub fn find_all_containing_char(&self, search: char) -> (r: Vec<String>)
        requires
            self.wf(),
            search != '\x00',
        ensures
            r.deep_view() == char_hits(lower_char(search), self.strs()),
    {
        let cq = to_lower_char(search);
        let ghost gq = lower_char(search);
        let ghost es = self.entries@;
        let mut results: Vec<String> = Vec::new();
        let n = self.buf.as_str().unicode_len();
        let mut curr_base: usize = 0;
        let mut skipping = false;
        let ghost mut done: int = 0;
        let mut ii: usize = 0;
        while ii < n
            invariant
                self.wf(),
                es == self.entries@,
                cq == gq,
                n == self.buf@.len(),
                0 <= ii <= n,
                0 <= done <= es.len(),
                curr_base == spec_concat(es.take(done)).len(),
                curr_base <= ii,
                done < es.len() ==> ii - curr_base <= es[done].len(),
                done == es.len() ==> ii == n,
                done < es.len() && !skipping ==> forall|j: int|
                    0 <= j < ii - curr_base ==> lower_char(#[trigger] es[done][j]) != gq,
                done < es.len() && skipping ==> has_hit(gq, es[done]) && first_hit(gq, es[done])
                    <= ii - curr_base,
                results.deep_view() == char_hits(gq, es.take(done)) + (
                if done < es.len() && skipping {
                    seq![es[done].take(first_hit(gq, es[done]))]
                } else {
                    Seq::<Seq<char>>::empty()
                }),
            decreases n - ii,
        {
            proof {
                assert(done < es.len());
                lemma_concat_index(es, done);
            }
            let ghost off = ii - curr_base;
            let c = self.buf.as_str().get_char(ii);
            if c == '\x00' {
                proof {
                    if off < es[done].len() {
                        assert(self.buf@[ii as int] == es[done][off]);
                        assert(es[done].contains('\x00'));
                        assert(false);
                    }
                    assert(off == es[done].len());
                    if !skipping {
                        assert(!has_hit(gq, es[done]));
                    }
                    lemma_char_hits_push(gq, es, done, skipping);
                    lemma_concat_take_len(es, done);
                    done = done + 1;
                    if done < es.len() {
                    } else {
                        assert(es.take(done) =~= es);
                    }
                    assert(results.deep_view() =~= char_hits(gq, es.take(done))
                        + Seq::<Seq<char>>::empty());
                }
                skipping = false;
                curr_base = ii + 1;
            } else if !skipping {
                proof {
                    if off == es[done].len() {
                        assert(self.buf@[ii as int] == '\x00');
                        assert(false);
                    }
                    assert(self.buf@[ii as int] == es[done][off]);
                }
                let lc = to_lower_char(c);
                if lc == cq {
                    let entry = self.buf.as_str().substring_char(curr_base, ii);
                    proof {
                        lemma_first_hit_at(gq, es[done], off);
                        assert forall|j: int| 0 <= j < off implies entry@[j] == es[done][j] by {
                            assert(self.buf@[curr_base + j] == es[done][j]);
                        }
                        assert(entry@ =~= es[done].take(off));
                    }
                    let owned = entry.to_owned();
                    let ghost before = results.deep_view();
                    results.push(owned);
                    proof {
                        assert(results.deep_view() =~= before.push(es[done].take(off)));
                        assert(results.deep_view() =~= char_hits(gq, es.take(done)) + seq![
                            es[done].take(first_hit(gq, es[done])),
                        ]);
                    }
                    skipping = true;
                }
            }
            ii = ii + 1;
        }
        proof {
            if done < es.len() {
                lemma_concat_index(es, done);
                assert(false);
            }
            assert(es.take(done) =~= es);
            assert(results.deep_view() =~= char_hits(gq, es));
        }
        results
    }

    /// Append one entry and its terminator.
    fn push_entry(&mut self, s: &str)
        requires
            old(self).wf(),
            !s@.contains('\x00'),
        ensures
            final(self).wf(),
            final(self).strs() == old(self).strs().push(s@),
    {
        self.buf.append(s);
        self.buf.append("\x00");
        proof {
            reveal_strlit("\x00");
            self.entries@ = self.entries@.push(s@);
            assert(self.entries@.drop_last() =~= old(self).entries@);
            assert(spec_concat(self.entries@) =~= self.buf@);
        }
    }
}


/// The entries of which the query is a case-insensitive subsequence, in
/// order.
pub open spec fn matching_entries(q0: Seq<char>, es: Seq<Seq<char>>) -> Seq<Seq<char>> {
    es.filter(|e: Seq<char>| subseq_match(lower_seq(q0), e))
}

/// Finishing one more entry extends the match list exactly when that entry
/// matches.
proof fn lemma_matching_push(q0: Seq<char>, es: Seq<Seq<char>>, d: int, hit: bool)
    requires
        0 <= d < es.len(),
        hit == subseq_match(lower_seq(q0), es[d]),
    ensures
        matching_entries(q0, es.take(d + 1)) == if hit {
            matching_entries(q0, es.take(d)).push(es[d])
        } else {
            matching_entries(q0, es.take(d))
        },
{
    let pred = |e: Seq<char>| subseq_match(lower_seq(q0), e);
    reveal(Seq::filter);
    assert(es.take(d + 1).drop_last() =~= es.take(d));
    assert(es.take(d + 1).last() == es[d]);
    assert(es.take(d + 1).len() == d + 1);
    assert(es.take(d + 1).filter(pred) == if pred(es[d]) {
        es.take(d).filter(pred).push(es[d])
    } else {
        es.take(d).filter(pred)
    });
}


/// Whether an entry contains the (lowered) character, compared lowered.
pub open spec fn has_hit(cq: char, e: Seq<char>) -> bool {
    exists|j: int| 0 <= j < e.len() && lower_char(#[trigger] e[j]) == cq
}

/// The position of the first such occurrence.
pub open spec fn first_hit(cq: char, e: Seq<char>) -> int
    decreases e.len(),
{
    if e.len() == 0 {
        0
    } else if lower_char(e[0]) == cq {
        0
    } else {
        1 + first_hit(cq, e.skip(1))
    }
}

/// For every entry with an occurrence, the prefix before the first one.
pub open spec fn char_hits(cq: char, es: Seq<Seq<char>>) -> Seq<Seq<char>> {
    es.filter(|e: Seq<char>| has_hit(cq, e)).map_values(
        |e: Seq<char>| e.take(first_hit(cq, e)),
    )
}

/// An occurrence preceded by none fixes the first occurrence.
proof fn lemma_first_hit_at(cq: char, e: Seq<char>, j: int)
    requires
        0 <= j < e.len(),
        forall|k: int| 0 <= k < j ==> lower_char(#[trigger] e[k]) != cq,
        lower_char(e[j]) == cq,
    ensures
        first_hit(cq, e) == j,
        has_hit(cq, e),
    decreases j,
{
    if j == 0 {
    } else {
        assert(lower_char(e[0]) != cq);
        assert forall|k: int| 0 <= k < j - 1 implies lower_char(#[trigger] e.skip(1)[k]) != cq by {
            assert(e.skip(1)[k] == e[k + 1]);
        }
        assert(e.skip(1)[j - 1] == e[j]);
        lemma_first_hit_at(cq, e.skip(1), j - 1);
    }
}

/// Finishing one more entry extends the hit list exactly when that entry
/// contains the character.
proof fn lemma_char_hits_push(cq: char, es: Seq<Seq<char>>, d: int, hit: bool)
    requires
        0 <= d < es.len(),
        hit == has_hit(cq, es[d]),
    ensures
        char_hits(cq, es.take(d + 1)) == if hit {
            char_hits(cq, es.take(d)).push(es[d].take(first_hit(cq, es[d])))
        } else {
            char_hits(cq, es.take(d))
        },
{
    let pred = |e: Seq<char>| has_hit(cq, e);
    let fm = |e: Seq<char>| e.take(first_hit(cq, e));
    reveal(Seq::filter);
    assert(es.take(d + 1).drop_last() =~= es.take(d));
    assert(es.take(d + 1).last() == es[d]);
    assert(es.take(d + 1).len() == d + 1);
    if pred(es[d]) {
        assert(es.take(d + 1).filter(pred) == es.take(d).filter(pred).push(es[d]));
        assert(es.take(d).filter(pred).push(es[d]).map_values(fm) =~= es.take(d).filter(
            pred,
        ).map_values(fm).push(fm(es[d])));
    } else {
        assert(es.take(d + 1).filter(pred) == es.take(d).filter(pred));
    }
}

} // verus!
