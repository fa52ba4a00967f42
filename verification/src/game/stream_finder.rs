//! Incremental scanner that locates a fixed stop token inside a character
//! stream that arrives in arbitrary chunks.
//!
//! The scanner separates text that is confirmed not to belong to the token
//! (safe to hand on) from a tentative, still ambiguous partial match that is
//! buffered internally.  Its restart rule after a mismatch is deliberately
//! simple: it only re-enters a partial match when the mismatching character
//! equals the head of the target.  The laws below therefore assume a target
//! whose head character does not reappear inside it; for such targets the
//! scanner finds a unique occurrence exactly.
use crate::strutil::{chars_range_to_string, chars_to_string, str_to_chars};
use vstd::prelude::*;

verus! {

pub struct StreamFinder {
    target: Vec<char>,
    current_pos: usize,
    stored_output: Vec<char>,
}

#[derive(Debug, PartialEq, Eq)]
pub enum MatchResult {
    Blocked,
    StopTokenMatched { pre_token_text: String, post_token_text: String },
    CheckedOutput(String),
}

#[derive(Debug, PartialEq, Eq)]
enum ProcessCharOutcome {
    PrefixMatch,
    PrefixReMatch,
    Mismatch,
    FullMatch,
}

/// Result of running the scanner over a sequence of characters: either the
/// scan is still going, with a new match cursor and the text flushed so far,
/// or the full token was found, with the flushed text before it and the rest
/// of the sequence after it.
#[verifier::ext_equal]
pub enum ScanOutcome {
    Going { pos: nat, emitted: Seq<char> },
    Found { emitted: Seq<char>, post: Seq<char> },
}

impl ScanOutcome {
    pub open spec fn emitted(self) -> Seq<char> {
        match self {
            ScanOutcome::Going { emitted, .. } => emitted,
            ScanOutcome::Found { emitted, .. } => emitted,
        }
    }

    pub open spec fn pos(self) -> nat {
        match self {
            ScanOutcome::Going { pos, .. } => pos,
            ScanOutcome::Found { .. } => 0,
        }
    }

    pub open spec fn post(self) -> Seq<char> {
        match self {
            ScanOutcome::Going { .. } => Seq::empty(),
            ScanOutcome::Found { post, .. } => post,
        }
    }
}

/// One step of the match cursor: advance on a match, restart at one if the
/// character equals the head of the target, otherwise fall back to zero.
pub open spec fn step_pos(t: Seq<char>, p: nat, ch: char) -> nat
    recommends
        p < t.len(),
{
    if ch == t[p as int] {
        p + 1
    } else if ch == t[0] {
        1
    } else {
        0
    }
}

/// Text flushed by one step: nothing while the match extends, the old buffer
/// on a restart, the old buffer plus the character on a plain mismatch.
pub open spec fn step_flush(t: Seq<char>, p: nat, ch: char) -> Seq<char>
    recommends
        p < t.len(),
{
    if ch == t[p as int] {
        Seq::empty()
    } else if ch == t[0] {
        t.take(p as int)
    } else {
        t.take(p as int).push(ch)
    }
}

pub open spec fn prepend_emit(o: ScanOutcome, pre: Seq<char>) -> ScanOutcome {
    match o {
        ScanOutcome::Going { pos, emitted } => ScanOutcome::Going { pos, emitted: pre + emitted },
        ScanOutcome::Found { emitted, post } => ScanOutcome::Found { emitted: pre + emitted, post },
    }
}

/// The scanner's behaviour on a character sequence, starting with match
/// cursor `p` (whose buffered text is `t.take(p)`).
pub open spec fn scan(t: Seq<char>, p: nat, s: Seq<char>) -> ScanOutcome
    recommends
        t.len() > 0,
        p < t.len(),
    decreases s.len(),
{
    if s.len() == 0 {
        ScanOutcome::Going { pos: p, emitted: Seq::empty() }
    } else {
        let ch = s[0];
        if ch == t[p as int] && p + 1 == t.len() {
            ScanOutcome::Found { emitted: Seq::empty(), post: s.drop_first() }
        } else {
            prepend_emit(scan(t, step_pos(t, p, ch), s.drop_first()), step_flush(t, p, ch))
        }
    }
}

/// The target's head character appears nowhere else in the target.  Under
/// this condition the simplified restart rule never misses an occurrence.
pub open spec fn head_unique(t: Seq<char>) -> bool {
    forall|j: int| 1 <= j < t.len() ==> #[trigger] t[j] != t[0]
}

/// `t` occurs in `s` starting at index `i`.
pub open spec fn occurs_at(s: Seq<char>, t: Seq<char>, i: int) -> bool {
    0 <= i && i + t.len() <= s.len() && s.subrange(i, i + t.len()) == t
}

impl StreamFinder {
    pub closed spec fn target_seq(&self) -> Seq<char> {
        self.target@
    }

    pub closed spec fn pos(&self) -> nat {
        self.current_pos as nat
    }

    pub closed spec fn wf(&self) -> bool {
        &&& self.target@.len() > 0
        &&& self.current_pos < self.target@.len()
        &&& self.stored_output@ == self.target@.take(self.current_pos as int)
    }

    pub fn new(target: &'static str) -> (r: Self)
        requires
            target@.len() > 0,
        ensures
            r.wf(),
            r.target_seq() == target@,
            r.pos() == 0,
    {
        let r = Self { target: str_to_chars(target), current_pos: 0, stored_output: Vec::new() };
        proof {
            assert(r.stored_output@ =~= r.target@.take(0));
        }
        r
    }

    fn process_char(&mut self, ch: char) -> (r: ProcessCharOutcome)
        requires
            old(self).wf(),
        ensures
            final(self).target@ == old(self).target@,
            final(self).stored_output@ == old(self).stored_output@,
            final(self).current_pos == step_pos(old(self).target@, old(self).pos(), ch),
            r == ProcessCharOutcome::FullMatch <==> step_pos(old(self).target@, old(self).pos(), ch)
                == old(self).target@.len(),
            r == ProcessCharOutcome::PrefixMatch <==> (ch == old(self).target@[old(
                self,
            ).pos() as int] && old(self).pos() + 1 < old(self).target@.len()),
            r == ProcessCharOutcome::PrefixReMatch <==> (ch != old(self).target@[old(
                self,
            ).pos() as int] && ch == old(self).target@[0]),
    {
        let n = self.target.len();
        if ch == self.target[self.current_pos] {
            self.current_pos += 1;
            if self.current_pos == n {
                ProcessCharOutcome::FullMatch
            } else {
                ProcessCharOutcome::PrefixMatch
            }
        } else if ch == self.target[0] {
            self.current_pos = 1;
            ProcessCharOutcome::PrefixReMatch
        } else {
            self.current_pos = 0;
            ProcessCharOutcome::Mismatch
        }
    }

    fn reset(&mut self)
        ensures
            final(self).target@ == old(self).target@,
            final(self).pos() == 0,
            final(self).stored_output@ == Seq::<char>::empty(),
            final(self).wf() <==> final(self).target@.len() > 0,
    {
        self.current_pos = 0;
        self.stored_output.clear();
        proof {
            assert(self.stored_output@ =~= self.target@.take(0));
        }
    }

    /// Consumes one chunk of incoming text.  The result relates to the
    /// scanner's abstract model: while the scan is still going the flushed
    /// text is returned (`Blocked` when there is none); when the full token
    /// is found, the text flushed within this call precedes the token and the
    /// rest of the chunk follows it, and the scanner returns to its initial
    /// state.
    #[verifier::loop_isolation(false)]
    pub fn process(&mut self, input: &str) -> (r: MatchResult)
        requires
            old(self).wf(),
        ensures
            final(self).wf(),
            final(self).target_seq() == old(self).target_seq(),
            ({
                let o = scan(old(self).target_seq(), old(self).pos(), input@);
                match o {
                    ScanOutcome::Going { pos, emitted } => {
                        &&& final(self).pos() == pos
                        &&& if emitted.len() == 0 {
                            r == MatchResult::Blocked
                        } else {
                            r matches MatchResult::CheckedOutput(out) && out@ == emitted
                        }
                    },
                    ScanOutcome::Found { emitted, post } => {
                        &&& final(self).pos() == 0
                        &&& r matches MatchResult::StopTokenMatched {
                            pre_token_text,
                            post_token_text,
                        } && pre_token_text@ == emitted && post_token_text@ == post
                    },
                }
            }),
    {
        let ghost t = self.target@;
        let ghost p0 = self.pos();
        let chars = str_to_chars(input);
        let mut output_chars: Vec<char> = Vec::new();
        let mut i: usize = 0;
        proof {
            assert(input@.skip(0) =~= input@);
            lemma_prepend_empty(scan(t, p0, input@));
        }
        while i < chars.len()
            invariant
                self.wf(),
                self.target@ == t,
                i <= chars@.len(),
                chars@ == input@,
                scan(t, p0, input@) == prepend_emit(
                    scan(t, self.pos(), input@.skip(i as int)),
                    output_chars@,
                ),
            decreases chars@.len() - i,
        {
            let ch = chars[i];
            let ghost p_before = self.pos();
            let ghost rest = input@.skip(i as int);
            proof {
                assert(rest[0] == input@[i as int]);
                assert(rest.drop_first() =~= input@.skip(i as int + 1));
            }
            match self.process_char(ch) {
                ProcessCharOutcome::Mismatch => {
                    proof {
                        lemma_prepend_compose(
                            scan(t, self.pos(), rest.drop_first()),
                            step_flush(t, p_before, ch),
                            output_chars@,
                        );
                    }
                    if self.stored_output.len() == 0 {
                        let ghost out0 = output_chars@;
                        output_chars.push(ch);
                        proof {
                            assert(t.take(p_before as int).len() == 0);
                            assert(output_chars@ =~= out0 + t.take(p_before as int).push(ch));
                        }
                    } else {
                        let mut j: usize = 0;
                        let n = self.stored_output.len();
                        let ghost out0 = output_chars@;
                        while j < n
                            invariant
                                j <= n,
                                n == self.stored_output@.len(),
                                self.stored_output@ == t.take(p_before as int),
                                output_chars@ == out0 + self.stored_output@.take(j as int),
                            decreases n - j,
                        {
                            let c = self.stored_output[j];
                            proof {
                                assert(self.stored_output@.take(j as int).push(c)
                                    =~= self.stored_output@.take(j as int + 1));
                            }
                            output_chars.push(c);
                            j += 1;
                        }
                        proof {
                            assert(self.stored_output@.take(n as int) =~= self.stored_output@);
                        }
                        output_chars.push(ch);
                        self.stored_output.clear();
                        proof {
                            assert(output_chars@ =~= out0 + t.take(p_before as int).push(ch));
                        }
                    }
                    proof {
                        assert(self.stored_output@ =~= t.take(0));
                    }
                },
                ProcessCharOutcome::PrefixMatch => {
                    proof {
                        lemma_prepend_compose(
                            scan(t, self.pos(), rest.drop_first()),
                            step_flush(t, p_before, ch),
                            output_chars@,
                        );
                    }
                    self.stored_output.push(ch);
                    proof {
                        assert(t.take(p_before as int).push(ch) =~= t.take(p_before as int + 1));
                        assert(output_chars@ + Seq::<char>::empty() =~= output_chars@);
                    }
                },
                ProcessCharOutcome::PrefixReMatch => {
                    proof {
                        lemma_prepend_compose(
                            scan(t, self.pos(), rest.drop_first()),
                            step_flush(t, p_before, ch),
                            output_chars@,
                        );
                    }
                    let mut j: usize = 0;
                    let n = self.stored_output.len();
                    let ghost out0 = output_chars@;
                    while j < n
                        invariant
                            j <= n,
                            n == self.stored_output@.len(),
                            self.stored_output@ == t.take(p_before as int),
                            output_chars@ == out0 + self.stored_output@.take(j as int),
                        decreases n - j,
                    {
                        let c = self.stored_output[j];
                        proof {
                            assert(self.stored_output@.take(j as int).push(c)
                                =~= self.stored_output@.take(j as int + 1));
                        }
                        output_chars.push(c);
                        j += 1;
                    }
                    proof {
                        assert(self.stored_output@.take(n as int) =~= self.stored_output@);
                        assert(output_chars@ =~= out0 + t.take(p_before as int));
                    }
                    self.stored_output.clear();
                    self.stored_output.push(ch);
                    proof {
                        assert(self.stored_output@ =~= t.take(1));
                    }
                },
                ProcessCharOutcome::FullMatch => {
                    proof {
                        assert(scan(t, p_before, rest) == ScanOutcome::Found {
                            emitted: Seq::<char>::empty(),
                            post: rest.drop_first(),
                        });
                        assert(output_chars@ + Seq::<char>::empty() =~= output_chars@);
                    }
                    self.reset();
                    proof {
                        assert(chars@.subrange(i as int + 1, chars@.len() as int) =~= input@.skip(
                            i as int + 1,
                        ));
                    }
                    return MatchResult::StopTokenMatched {
                        pre_token_text: chars_to_string(output_chars.as_slice()),
                        post_token_text: chars_range_to_string(&chars, i + 1, chars.len()),
                    };
                },
            }
            i += 1;
        }
        proof {
            assert(input@.skip(input@.len() as int) =~= Seq::<char>::empty());
            assert(output_chars@ + Seq::<char>::empty() =~= output_chars@);
        }
        if output_chars.len() == 0 {
            MatchResult::Blocked
        } else {
            MatchResult::CheckedOutput(chars_to_string(output_chars.as_slice()))
        }
    }
}

/// Soundness of the scan: the flushed text, together with the buffered
/// prefix (or the found token and the trailing text), always reassembles the
/// buffered prefix the scan started from plus everything consumed.
pub proof fn lemma_scan_sound(t: Seq<char>, p: nat, s: Seq<char>)
    requires
        t.len() > 0,
        p < t.len(),
    ensures
        match scan(t, p, s) {
            ScanOutcome::Going { pos, emitted } => pos < t.len() && emitted + t.take(pos as int)
                == t.take(p as int) + s,
            ScanOutcome::Found { emitted, post } => emitted + t + post == t.take(p as int) + s,
        },
    decreases s.len(),
{
    if s.len() == 0 {
        assert(Seq::<char>::empty() + t.take(p as int) =~= t.take(p as int) + s);
    } else {
        let ch = s[0];
        let s2 = s.drop_first();
        assert(t.take(p as int) + s =~= (t.take(p as int) + seq![ch]) + s2);
        if ch == t[p as int] && p + 1 == t.len() {
            assert(t.take(p as int + 1) =~= t.take(p as int).push(ch));
            assert(t.take(t.len() as int) =~= t);
            assert(Seq::<char>::empty() + t + s2 =~= (t.take(p as int) + seq![ch]) + s2);
        } else {
            let p2 = step_pos(t, p, ch);
            let fl = step_flush(t, p, ch);
            assert(p2 < t.len());
            lemma_scan_sound(t, p2, s2);
            assert(fl + t.take(p2 as int) =~= t.take(p as int) + seq![ch]) by {
                if ch == t[p as int] {
                    assert(t.take(p as int + 1) =~= t.take(p as int).push(ch));
                } else if ch == t[0] {
                    assert(t.take(1) =~= seq![t[0]]);
                } else {
                    assert(t.take(0) =~= Seq::<char>::empty());
                }
            }
            match scan(t, p2, s2) {
                ScanOutcome::Going { pos, emitted } => {
                    assert((fl + emitted) + t.take(pos as int) =~= fl + (emitted + t.take(
                        pos as int,
                    )));
                    assert(fl + (t.take(p2 as int) + s2) =~= (fl + t.take(p2 as int)) + s2);
                },
                ScanOutcome::Found { emitted, post } => {
                    assert((fl + emitted) + t + post =~= fl + (emitted + t + post));
                    assert(fl + (t.take(p2 as int) + s2) =~= (fl + t.take(p2 as int)) + s2);
                },
            }
        }
    }
}

/// If the stream continues exactly with the unmatched rest of the target, the
/// scan finds the token.
proof fn lemma_scan_finishes_match(t: Seq<char>, p: nat, s: Seq<char>)
    requires
        t.len() > 0,
        p < t.len(),
        s.len() >= t.len() - p,
        s.subrange(0, t.len() - p) == t.subrange(p as int, t.len() as int),
    ensures
        scan(t, p, s) is Found,
    decreases t.len() - p,
{
    let ch = s[0];
    assert(ch == s.subrange(0, t.len() - p)[0]);
    assert(ch == t[p as int]);
    if p + 1 == t.len() {
    } else {
        let s2 = s.drop_first();
        assert(s2.subrange(0, t.len() - (p + 1)) =~= t.subrange(p as int + 1, t.len() as int))
            by {
            assert(forall|k: int|
                0 <= k < t.len() - p - 1 ==> #[trigger] s2[k] == s.subrange(0, t.len() - p)[k
                    + 1]);
        }
        lemma_scan_finishes_match(t, p + 1, s2);
    }
}

/// Completeness of the scan for a target whose head character is unique in
/// it: whenever the target occurs in the stream, the scan reports a match,
/// from any starting cursor.
pub proof fn lemma_scan_complete(t: Seq<char>, p: nat, s: Seq<char>, i: int)
    requires
        t.len() > 0,
        p < t.len(),
        head_unique(t),
        occurs_at(s, t, i),
    ensures
        scan(t, p, s) is Found,
    decreases i,
{
    let ch = s[0];
    let s2 = s.drop_first();
    if i == 0 {
        assert(ch == s.subrange(0, t.len() as int)[0]);
        assert(ch == t[0]);
        if ch == t[p as int] && p + 1 == t.len() {
        } else {
            let p2 = step_pos(t, p, ch);
            assert(p2 == 1) by {
                if ch == t[p as int] {
                    if p > 0 {
                        assert(t[p as int] != t[0]);
                    }
                }
            }
            if t.len() == 1 {
                assert(false);
            } else {
                assert(s2.subrange(0, t.len() - 1) =~= t.subrange(1, t.len() as int)) by {
                    assert(forall|k: int|
                        0 <= k < t.len() - 1 ==> #[trigger] s2[k] == s.subrange(
                            0,
                            t.len() as int,
                        )[k + 1]);
                }
                lemma_scan_finishes_match(t, 1, s2);
            }
        }
    } else {
        if ch == t[p as int] && p + 1 == t.len() {
        } else {
            let p2 = step_pos(t, p, ch);
            assert(p2 < t.len());
            assert(occurs_at(s2, t, i - 1)) by {
                assert(s2.subrange(i - 1, i - 1 + t.len()) =~= s.subrange(i, i + t.len()));
            }
            lemma_scan_complete(t, p2, s2, i - 1);
        }
    }
}

/// Concatenation of a sequence of chunks.
pub open spec fn concat_seqs(cs: Seq<Seq<char>>) -> Seq<char>
    decreases cs.len(),
{
    if cs.len() == 0 {
        Seq::empty()
    } else {
        cs[0] + concat_seqs(cs.drop_first())
    }
}

/// The scanner fed one chunk after the other, stopping at the first match:
/// either it is still going, with the total text flushed over all chunks, or
/// it found the token in some chunk, with the total flushed text before the
/// token and the rest of that chunk after it.
pub open spec fn scan_chunks(t: Seq<char>, p: nat, cs: Seq<Seq<char>>) -> ScanOutcome
    decreases cs.len(),
{
    if cs.len() == 0 {
        ScanOutcome::Going { pos: p, emitted: Seq::empty() }
    } else {
        match scan(t, p, cs[0]) {
            ScanOutcome::Going { pos, emitted } => prepend_emit(
                scan_chunks(t, pos, cs.drop_first()),
                emitted,
            ),
            ScanOutcome::Found { emitted, post } => ScanOutcome::Found { emitted, post },
        }
    }
}

proof fn lemma_concat_snoc(cs: Seq<Seq<char>>, c: Seq<char>)
    ensures
        concat_seqs(cs.push(c)) == concat_seqs(cs) + c,
    decreases cs.len(),
{
    reveal_with_fuel(concat_seqs, 3);
    if cs.len() == 0 {
        assert(cs.push(c)[0] == c);
        assert(cs.push(c).drop_first() =~= Seq::<Seq<char>>::empty());
        assert(concat_seqs(cs.push(c)) =~= c);
        assert(concat_seqs(cs) + c =~= c);
    } else {
        assert(cs.push(c)[0] == cs[0]);
        assert(cs.push(c).drop_first() =~= cs.drop_first().push(c));
        lemma_concat_snoc(cs.drop_first(), c);
        assert(cs[0] + (concat_seqs(cs.drop_first()) + c) =~= (cs[0] + concat_seqs(
            cs.drop_first(),
        )) + c);
    }
}

/// Scanning one sequence after another equals scanning their concatenation.
proof fn lemma_scan_append(t: Seq<char>, p: nat, s1: Seq<char>, s2: Seq<char>)
    requires
        t.len() > 0,
        p < t.len(),
    ensures
        match scan(t, p, s1) {
            ScanOutcome::Going { pos, emitted } => scan(t, p, s1 + s2) == prepend_emit(
                scan(t, pos, s2),
                emitted,
            ),
            ScanOutcome::Found { emitted, post } => scan(t, p, s1 + s2) == ScanOutcome::Found {
                emitted,
                post: post + s2,
            },
        },
    decreases s1.len(),
{
    lemma_scan_sound(t, p, s1);
    if s1.len() == 0 {
        assert(s1 + s2 =~= s2);
        lemma_prepend_empty(scan(t, p, s2));
    } else {
        let ch = s1[0];
        assert((s1 + s2)[0] == ch);
        assert((s1 + s2).drop_first() =~= s1.drop_first() + s2);
        if ch == t[p as int] && p + 1 == t.len() {
            assert(s1.drop_first() + s2 =~= (s1 + s2).drop_first());
        } else {
            let p2 = step_pos(t, p, ch);
            let fl = step_flush(t, p, ch);
            assert(p2 < t.len());
            lemma_scan_append(t, p2, s1.drop_first(), s2);
            match scan(t, p2, s1.drop_first()) {
                ScanOutcome::Going { pos, emitted } => {
                    lemma_prepend_compose(scan(t, pos, s2), emitted, fl);
                },
                ScanOutcome::Found { emitted, post } => {},
            }
        }
    }
}

proof fn lemma_scan_chunks_snoc(t: Seq<char>, p: nat, cs: Seq<Seq<char>>, c: Seq<char>)
    requires
        t.len() > 0,
        p < t.len(),
    ensures
        scan_chunks(t, p, cs.push(c)) == match scan_chunks(t, p, cs) {
            ScanOutcome::Going { pos, emitted } => prepend_emit(scan(t, pos, c), emitted),
            ScanOutcome::Found { emitted, post } => ScanOutcome::Found { emitted, post },
        },
    decreases cs.len(),
{
    reveal_with_fuel(scan_chunks, 3);
    lemma_scan_chunks_going_pos(t, p, cs);
    if cs.len() == 0 {
        assert(cs.push(c)[0] == c);
        assert(cs.push(c).drop_first() =~= Seq::<Seq<char>>::empty());
        match scan(t, p, c) {
            ScanOutcome::Going { pos, emitted } => {
                assert(emitted + Seq::<char>::empty() =~= Seq::<char>::empty() + emitted);
            },
            ScanOutcome::Found { emitted, post } => {},
        }
        lemma_prepend_empty(prepend_emit(scan(t, p, c), Seq::<char>::empty()));
    } else {
        assert(cs.push(c)[0] == cs[0]);
        assert(cs.push(c).drop_first() =~= cs.drop_first().push(c));
        match scan(t, p, cs[0]) {
            ScanOutcome::Going { pos, emitted } => {
                lemma_scan_sound(t, p, cs[0]);
                lemma_scan_chunks_snoc(t, pos, cs.drop_first(), c);
                lemma_scan_chunks_going_pos(t, pos, cs.drop_first());
                match scan_chunks(t, pos, cs.drop_first()) {
                    ScanOutcome::Going { pos: q, emitted: e2 } => {
                        lemma_prepend_compose(scan(t, q, c), e2, emitted);
                    },
                    ScanOutcome::Found { .. } => {},
                }
            },
            ScanOutcome::Found { .. } => {},
        }
    }
}

/// A still-going chunked scan keeps its cursor inside the target, and agrees
/// with the scan of the concatenated chunks.
proof fn lemma_scan_chunks_going_pos(t: Seq<char>, p: nat, cs: Seq<Seq<char>>)
    requires
        t.len() > 0,
        p < t.len(),
    ensures
        scan_chunks(t, p, cs) matches ScanOutcome::Going { pos, .. } ==> pos < t.len(),
    decreases cs.len(),
{
    if cs.len() > 0 {
        lemma_scan_sound(t, p, cs[0]);
        match scan(t, p, cs[0]) {
            ScanOutcome::Going { pos, emitted } => {
                lemma_scan_chunks_going_pos(t, pos, cs.drop_first());
            },
            ScanOutcome::Found { .. } => {},
        }
    }
}

/// A chunked scan that reports a match exhibits an occurrence of the target
/// inside the initially buffered prefix plus the concatenated chunks, right
/// after the flushed text.
proof fn lemma_scan_chunks_found_occurrence(t: Seq<char>, p: nat, cs: Seq<Seq<char>>)
    requires
        t.len() > 0,
        p < t.len(),
    ensures
        scan_chunks(t, p, cs) matches ScanOutcome::Found { emitted, post } ==> occurs_at(
            t.take(p as int) + concat_seqs(cs),
            t,
            emitted.len() as int,
        ),
    decreases cs.len(),
{
    if cs.len() == 0 {
    } else {
        lemma_scan_sound(t, p, cs[0]);
        let full = t.take(p as int) + concat_seqs(cs);
        assert(concat_seqs(cs) == cs[0] + concat_seqs(cs.drop_first()));
        match scan(t, p, cs[0]) {
            ScanOutcome::Going { pos, emitted } => {
                lemma_scan_chunks_found_occurrence(t, pos, cs.drop_first());
                match scan_chunks(t, pos, cs.drop_first()) {
                    ScanOutcome::Going { .. } => {},
                    ScanOutcome::Found { emitted: e2, post } => {
                        let inner = t.take(pos as int) + concat_seqs(cs.drop_first());
                        assert(full =~= (t.take(p as int) + cs[0]) + concat_seqs(
                            cs.drop_first(),
                        ));
                        assert(emitted + inner =~= (emitted + t.take(pos as int)) + concat_seqs(
                            cs.drop_first(),
                        ));
                        assert(full =~= emitted + inner);
                        let j = e2.len() as int;
                        let a = emitted.len() + j;
                        assert(occurs_at(full, t, a)) by {
                            assert(full.subrange(a, a + t.len()) =~= t) by {
                                assert(forall|k: int|
                                    0 <= k < t.len() ==> full[a + k] == inner.subrange(
                                        j,
                                        j + t.len(),
                                    )[k] && inner.subrange(j, j + t.len())[k] == #[trigger] t[k]);
                            }
                        }
                    },
                }
            },
            ScanOutcome::Found { emitted, post } => {
                assert(full =~= ((emitted + t) + post) + concat_seqs(cs.drop_first()));
                let j = emitted.len() as int;
                assert(occurs_at(full, t, j)) by {
                    assert(full.subrange(j, j + t.len()) =~= t) by {
                        assert(forall|k: int|
                            0 <= k < t.len() ==> full[j + k] == #[trigger] t[k]);
                    }
                }
            },
        }
    }
}

/// A chunked scan that is still going agrees with the scan of the
/// concatenated chunks: same cursor, same flushed text.
proof fn lemma_scan_chunks_concat_going(t: Seq<char>, p: nat, cs: Seq<Seq<char>>)
    requires
        t.len() > 0,
        p < t.len(),
    ensures
        scan_chunks(t, p, cs) matches ScanOutcome::Going { pos, emitted } ==> (scan(
            t,
            p,
            concat_seqs(cs),
        ) matches ScanOutcome::Going { pos: p2, emitted: e2 } && p2 == pos && e2 == emitted),
    decreases cs.len(),
{
    if cs.len() == 0 {
    } else {
        lemma_scan_sound(t, p, cs[0]);
        lemma_scan_append(t, p, cs[0], concat_seqs(cs.drop_first()));
        assert(concat_seqs(cs) == cs[0] + concat_seqs(cs.drop_first()));
        match scan(t, p, cs[0]) {
            ScanOutcome::Going { pos, emitted } => {
                lemma_scan_chunks_concat_going(t, pos, cs.drop_first());
            },
            ScanOutcome::Found { .. } => {},
        }
    }
}

/// Law: feed a scanner any chunking of a stream that contains exactly one
/// occurrence of the target token, the occurrence being completed in the
/// final chunk, and whose target's head character appears only at its head.
/// Then the chunked scan reports the token: everything flushed across the
/// calls is exactly the text before the token, and the text handed back
/// after the token is exactly the text after it.
pub proof fn lemma_single_occurrence_stream(t: Seq<char>, chunks: Seq<Seq<char>>, i: int)
    requires
        t.len() > 0,
        head_unique(t),
        chunks.len() > 0,
        occurs_at(concat_seqs(chunks), t, i),
        forall|j: int| occurs_at(concat_seqs(chunks), t, j) ==> j == i,
        i + t.len() > concat_seqs(chunks.drop_last()).len(),
    ensures
        scan_chunks(t, 0, chunks) == (ScanOutcome::Found {
            emitted: concat_seqs(chunks).take(i),
            post: concat_seqs(chunks).skip(i + t.len()),
        }),
{
    let s = concat_seqs(chunks);
    let front = chunks.drop_last();
    let c = chunks.last();
    assert(chunks =~= front.push(c));
    lemma_concat_snoc(front, c);
    assert(s == concat_seqs(front) + c);

    // The scan over the leading chunks cannot have matched already: a match
    // would exhibit an occurrence that ends inside the leading chunks.
    lemma_scan_chunks_found_occurrence(t, 0, front);
    lemma_scan_chunks_concat_going(t, 0, front);
    lemma_scan_chunks_going_pos(t, 0, front);
    if scan_chunks(t, 0, front) is Found {
        let e = scan_chunks(t, 0, front).emitted();
        let j = e.len() as int;
        assert(occurs_at(t.take(0) + concat_seqs(front), t, j));
        assert(t.take(0) + concat_seqs(front) =~= concat_seqs(front));
        assert(occurs_at(concat_seqs(front), t, j));
        assert(occurs_at(s, t, j)) by {
            assert(s.subrange(j, j + t.len()) =~= concat_seqs(front).subrange(j, j + t.len()))
                by {
                assert(forall|k: int|
                    0 <= k < t.len() ==> s[j + k] == #[trigger] concat_seqs(front)[j + k]);
            }
        }
        assert(j == i);
        assert(i + t.len() <= concat_seqs(front).len());
        assert(false);
    }
    let pos = scan_chunks(t, 0, front).pos();
    let e = scan_chunks(t, 0, front).emitted();
    assert(scan_chunks(t, 0, front) =~= ScanOutcome::Going { pos, emitted: e });
    assert(scan(t, 0, concat_seqs(front)) matches ScanOutcome::Going { pos: p2, emitted: e2 }
        && p2 == pos && e2 == e);
    assert(pos < t.len());

    // Over the whole stream the scan finds the unique occurrence.
    lemma_scan_complete(t, 0, s, i);
    lemma_scan_append(t, 0, concat_seqs(front), c);
    assert(scan(t, 0, s) == prepend_emit(scan(t, pos, c), e)) by {
        assert(concat_seqs(front) + c == s);
    }
    assert(scan(t, pos, c) is Found) by {
        if scan(t, pos, c) is Going {
            assert(scan(t, 0, s) is Going);
        }
    }
    let e2 = scan(t, pos, c).emitted();
    let post = scan(t, pos, c).post();
    assert(scan(t, pos, c) == ScanOutcome::Found { emitted: e2, post });
    assert(scan(t, 0, s) == ScanOutcome::Found { emitted: e + e2, post });
    lemma_scan_sound(t, 0, s);
    assert((e + e2) + t + post == t.take(0) + s);
    assert(t.take(0) + s =~= s);

    // The flushed text pins the occurrence down; uniqueness places it at i.
    let j = (e + e2).len() as int;
    assert(occurs_at(s, t, j)) by {
        assert(s.subrange(j, j + t.len()) =~= t) by {
            assert(forall|k: int|
                0 <= k < t.len() ==> s[j + k] == ((e + e2) + t + post)[j + k] && ((e + e2) + t
                    + post)[j + k] == #[trigger] t[k]);
        }
    }
    assert(j == i);
    assert(e + e2 =~= s.take(i)) by {
        assert(forall|k: int| 0 <= k < i ==> #[trigger] (e + e2)[k] == s[k]);
    }
    assert(post =~= s.skip(i + t.len())) by {
        assert(forall|k: int|
            0 <= k < post.len() ==> #[trigger] post[k] == ((e + e2) + t + post)[i + t.len()
                + k]);
    }
    lemma_scan_chunks_snoc(t, 0, front, c);
}

proof fn lemma_prepend_empty(o: ScanOutcome)
    ensures
        prepend_emit(o, Seq::<char>::empty()) == o,
{
    match o {
        ScanOutcome::Going { pos, emitted } => {
            assert(Seq::<char>::empty() + emitted =~= emitted);
        },
        ScanOutcome::Found { emitted, post } => {
            assert(Seq::<char>::empty() + emitted =~= emitted);
        },
    }
}

proof fn lemma_prepend_compose(o: ScanOutcome, a: Seq<char>, b: Seq<char>)
    ensures
        prepend_emit(prepend_emit(o, a), b) == prepend_emit(o, b + a),
{
    match o {
        ScanOutcome::Going { pos, emitted } => {
            assert(b + (a + emitted) =~= (b + a) + emitted);
        },
        ScanOutcome::Found { emitted, post } => {
            assert(b + (a + emitted) =~= (b + a) + emitted);
        },
    }
}

} // verus!
