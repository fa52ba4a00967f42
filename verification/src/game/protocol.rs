//! The turn protocol codec: a structured turn result is encoded into a
//! delimited text format fed back as conversation history, and a raw
//! completion is decoded into its structured fields.
//!
//! Decoding splits the raw text on each literal delimiter exactly once, in a
//! fixed order; a split that does not yield exactly two parts fails with a
//! kind naming the delimiter.  The final segment is split on the action
//! delimiter and must yield at least the required number of proposed
//! actions; the first ones are kept.  All retained fields are trimmed of
//! surrounding whitespace.
use crate::game::stream_finder::occurs_at;
use crate::llm::OutputMessage;
use crate::strutil::{chars_range_to_string, str_to_chars};
use vstd::prelude::*;
use vstd::string::StringExecFns;

verus! {

broadcast use vstd::string::group_string_axioms;

/// The structured result of one turn.  Decoding guarantees exactly
/// `N_PROPOSED_OPTIONS` proposed next actions.
#[derive(Debug, Clone, PartialEq, Eq)]
pub struct TurnOutput {
    pub text: String,
    pub image_description: String,
    pub image_caption: String,
    pub secret_info: String,
    pub proposed_next_actions: Vec<String>,
    pub input_tokens: usize,
    pub output_tokens: usize,
}

/// The image description and caption published early, while the narrative
/// text is still streaming.
#[derive(Debug, Clone, PartialEq, Eq)]
pub struct ImageDescription {
    pub description: String,
    pub caption: String,
}

/// Which delimiter a decode failed on, or that too few proposed actions
/// followed the last one.
#[derive(Debug, Clone, Copy, PartialEq, Eq, Structural)]
pub enum DecodeErrorKind {
    MissingEoid,
    MissingEoic,
    MissingEoo,
    MissingEos,
    TooFewProposedActions,
}

/// A protocol parse failure; carries the raw text for diagnostics.
#[derive(Debug, Clone, PartialEq, Eq)]
pub struct DecodeError {
    pub kind: DecodeErrorKind,
    pub raw: String,
}

pub open spec fn eoid() -> Seq<char> {
    "<<<EOID>>>"@
}

pub open spec fn eoic() -> Seq<char> {
    "<<<EOIC>>>"@
}

pub open spec fn eoo() -> Seq<char> {
    "<<<EOO>>>"@
}

pub open spec fn eos() -> Seq<char> {
    "<<<EOS>>>"@
}

pub open spec fn eoa() -> Seq<char> {
    "<<<EOA>>>"@
}

/// Index of the first occurrence of `d` in `s` at or after `from`.
pub open spec fn first_occ_from(s: Seq<char>, d: Seq<char>, from: int) -> Option<int>
    recommends
        0 <= from,
    decreases s.len() + 1 - from,
    when 0 <= from
{
    if from + d.len() > s.len() {
        None
    } else if occurs_at(s, d, from) {
        Some(from)
    } else {
        first_occ_from(s, d, from + 1)
    }
}

/// A character the protocol strips from the ends of retained fields: the
/// white-space set of the standard library's `char::is_whitespace`.
pub open spec fn is_space_char(c: char) -> bool {
    ||| c == ' '
    ||| c == '\t'
    ||| c == '\n'
    ||| c == '\r'
    ||| c == '\u{0B}'
    ||| c == '\u{0C}'
    ||| c == '\u{85}'
    ||| c == '\u{A0}'
    ||| c == '\u{1680}'
    ||| ('\u{2000}' <= c && c <= '\u{200A}')
    ||| c == '\u{2028}'
    ||| c == '\u{2029}'
    ||| c == '\u{202F}'
    ||| c == '\u{205F}'
    ||| c == '\u{3000}'
}

/// `s` with surrounding whitespace removed.
pub open spec fn trim_spec(s: Seq<char>) -> Seq<char>
    decreases s.len(),
{
    if s.len() == 0 {
        s
    } else if is_space_char(s[0]) {
        trim_spec(s.drop_first())
    } else if is_space_char(s.last()) {
        trim_spec(s.drop_last())
    } else {
        s
    }
}

/// The decoded fields of a raw completion, at the specification level.
#[verifier::ext_equal]
pub struct DecodedText {
    pub image_description: Seq<char>,
    pub image_caption: Seq<char>,
    pub text: Seq<char>,
    pub secret_info: Seq<char>,
    pub actions: Seq<Seq<char>>,
}

/// What decoding a raw completion yields: each delimiter is located exactly
/// once, in order; the tail is cut at the action delimiters and must hold at
/// least three segments, of which the first three are kept; all fields are
/// trimmed.
pub open spec fn decode_spec(s: Seq<char>) -> Result<DecodedText, DecodeErrorKind> {
    match first_occ_from(s, eoid(), 0) {
        Option::None => Result::Err(DecodeErrorKind::MissingEoid),
        Option::Some(i1) => {
            if first_occ_from(s, eoid(), i1 + eoid().len()) is Some {
                Result::Err(DecodeErrorKind::MissingEoid)
            } else {
                match first_occ_from(s, eoic(), i1 + eoid().len()) {
                    Option::None => Result::Err(DecodeErrorKind::MissingEoic),
                    Option::Some(i2) => {
                        if first_occ_from(s, eoic(), i2 + eoic().len()) is Some {
                            Result::Err(DecodeErrorKind::MissingEoic)
                        } else {
                            match first_occ_from(s, eoo(), i2 + eoic().len()) {
                                Option::None => Result::Err(DecodeErrorKind::MissingEoo),
                                Option::Some(i3) => {
                                    if first_occ_from(s, eoo(), i3 + eoo().len()) is Some {
                                        Result::Err(DecodeErrorKind::MissingEoo)
                                    } else {
                                        match first_occ_from(s, eos(), i3 + eoo().len()) {
                                            Option::None => Result::Err(DecodeErrorKind::MissingEos),
                                            Option::Some(i4) => {
                                                if first_occ_from(s, eos(), i4 + eos().len())
                                                    is Some {
                                                    Result::Err(DecodeErrorKind::MissingEos)
                                                } else {
                                                    decode_actions_spec(s, i1, i2, i3, i4)
                                                }
                                            },
                                        }
                                    }
                                },
                            }
                        }
                    },
                }
            }
        },
    }
}

/// The action part of decoding: the tail after the secret-info delimiter
/// must hold at least two action delimiters; the three segments they open
/// are kept, the rest is dropped.
pub open spec fn decode_actions_spec(s: Seq<char>, i1: int, i2: int, i3: int, i4: int) -> Result<
    DecodedText,
    DecodeErrorKind,
> {
    match first_occ_from(s, eoa(), i4 + eos().len()) {
        Option::None => Result::Err(DecodeErrorKind::TooFewProposedActions),
        Option::Some(a1) => {
            match first_occ_from(s, eoa(), a1 + eoa().len()) {
                Option::None => Result::Err(DecodeErrorKind::TooFewProposedActions),
                Option::Some(a2) => {
                    let third = match first_occ_from(s, eoa(), a2 + eoa().len()) {
                        Option::None => s.subrange(a2 + eoa().len(), s.len() as int),
                        Option::Some(a3) => s.subrange(a2 + eoa().len(), a3),
                    };
                    Result::Ok(
                        DecodedText {
                            image_description: trim_spec(s.subrange(0, i1)),
                            image_caption: trim_spec(s.subrange(i1 + eoid().len(), i2)),
                            text: trim_spec(s.subrange(i2 + eoic().len(), i3)),
                            secret_info: trim_spec(s.subrange(i3 + eoo().len(), i4)),
                            actions: seq![
                                trim_spec(s.subrange(i4 + eos().len(), a1)),
                                trim_spec(s.subrange(a1 + eoa().len(), a2)),
                                trim_spec(third),
                            ],
                        },
                    )
                },
            }
        },
    }
}

/// A successful search names an occurrence, the first one at or after
/// `from`; a failed search means there is none.
pub proof fn lemma_first_occ_props(s: Seq<char>, d: Seq<char>, from: int)
    requires
        0 <= from,
    ensures
        first_occ_from(s, d, from) matches Some(i) ==> from <= i && occurs_at(s, d, i) && (
        forall|j: int| from <= j < i ==> !occurs_at(s, d, j)),
        first_occ_from(s, d, from) is None ==> (forall|j: int|
            from <= j ==> !occurs_at(s, d, j)),
    decreases s.len() + 1 - from,
{
    if from + d.len() > s.len() {
        assert(forall|j: int| from <= j ==> !occurs_at(s, d, j));
    } else if occurs_at(s, d, from) {
    } else {
        lemma_first_occ_props(s, d, from + 1);
    }
}

/// The first occurrence is where one occurs and none occurs before.
pub proof fn lemma_first_occ_is(s: Seq<char>, d: Seq<char>, from: int, i: int)
    requires
        0 <= from <= i,
        occurs_at(s, d, i),
        forall|j: int| from <= j < i ==> !occurs_at(s, d, j),
    ensures
        first_occ_from(s, d, from) == Some(i),
    decreases i - from,
{
    if from == i {
    } else {
        lemma_first_occ_is(s, d, from + 1, i);
    }
}

fn is_space(c: char) -> (b: bool)
    ensures
        b == is_space_char(c),
{
    c == ' ' || c == '\t' || c == '\n' || c == '\r' || c == '\u{0B}' || c == '\u{0C}' || c
        == '\u{85}' || c == '\u{A0}' || c == '\u{1680}' || ('\u{2000}' <= c && c <= '\u{200A}')
        || c == '\u{2028}' || c == '\u{2029}' || c == '\u{202F}' || c == '\u{205F}' || c
        == '\u{3000}'
}

/// Whether `d` matches `v` at position `i`.
fn is_match_at(v: &Vec<char>, d: &Vec<char>, i: usize) -> (b: bool)
    requires
        i + d@.len() <= v@.len(),
    ensures
        b == occurs_at(v@, d@, i as int),
{
    let n = v.len();
    let mut k: usize = 0;
    while k < d.len()
        invariant
            k <= d@.len(),
            i + d@.len() <= v@.len(),
            n == v@.len(),
            forall|m: int| 0 <= m < k ==> v@[i + m] == d@[m],
        decreases d@.len() - k,
    {
        if v[i + k] != d[k] {
            proof {
                assert(v@.subrange(i as int, i + d@.len())[k as int] != d@[k as int]);
            }
            return false;
        }
        k += 1;
    }
    proof {
        assert(v@.subrange(i as int, i + d@.len()) =~= d@);
    }
    true
}

/// Finds the first occurrence of `d` in `v` at or after `from`.
fn find_from(v: &Vec<char>, d: &Vec<char>, from: usize) -> (r: Option<usize>)
    requires
        d@.len() >= 1,
    ensures
        match r {
            Some(i) => first_occ_from(v@, d@, from as int) == Some(i as int) && from <= i && i
                + d@.len() <= v@.len(),
            None => first_occ_from(v@, d@, from as int) is None,
        },
{
    let n = v.len();
    let dn = d.len();
    if dn > n {
        proof {
            lemma_first_occ_props(v@, d@, from as int);
            match first_occ_from(v@, d@, from as int) {
                Option::Some(i) => {
                    assert(occurs_at(v@, d@, i));
                    assert(false);
                },
                Option::None => {},
            }
        }
        return None;
    }
    let mut i: usize = from;
    while i <= n - dn
        invariant
            1 <= dn,
            dn == d@.len(),
            n == v@.len(),
            dn <= n,
            from <= i,
            forall|j: int| from <= j < i ==> !occurs_at(v@, d@, j),
        decreases n - i,
    {
        if is_match_at(v, d, i) {
            proof {
                lemma_first_occ_is(v@, d@, from as int, i as int);
            }
            return Some(i);
        }
        i += 1;
    }
    proof {
        assert(forall|j: int| from <= j ==> !occurs_at(v@, d@, j)) by {
            assert(forall|j: int| j > n - dn ==> !occurs_at(v@, d@, j));
        }
        lemma_first_occ_props(v@, d@, from as int);
        match first_occ_from(v@, d@, from as int) {
            Option::Some(x) => {
                assert(occurs_at(v@, d@, x));
                assert(false);
            },
            Option::None => {},
        }
    }
    None
}

/// The characters of `v` between `from` and `to`, with surrounding
/// whitespace removed, as a `String`.
fn trimmed_string(v: &Vec<char>, from: usize, to: usize) -> (s: String)
    requires
        from <= to <= v@.len(),
    ensures
        s@ == trim_spec(v@.subrange(from as int, to as int)),
{
    let ghost orig = v@.subrange(from as int, to as int);
    let mut a: usize = from;
    let mut b: usize = to;
    while a < b && is_space(v[a])
        invariant
            from <= a <= b <= to <= v@.len(),
            trim_spec(v@.subrange(a as int, b as int)) == trim_spec(orig),
        decreases b - a,
    {
        proof {
            assert(v@.subrange(a as int, b as int).drop_first() =~= v@.subrange(
                a as int + 1,
                b as int,
            ));
        }
        a += 1;
    }
    while b > a && is_space(v[b - 1])
        invariant
            from <= a <= b <= to <= v@.len(),
            trim_spec(v@.subrange(a as int, b as int)) == trim_spec(orig),
            a == b || !is_space_char(v@[a as int]),
        decreases b,
    {
        proof {
            assert(v@.subrange(a as int, b as int).drop_last() =~= v@.subrange(
                a as int,
                b as int - 1,
            ));
        }
        b -= 1;
    }
    proof {
        if a == b {
            assert(v@.subrange(a as int, b as int) =~= Seq::<char>::empty());
        }
    }
    chars_range_to_string(v, a, b)
}

impl TurnOutput {
    /// Decodes a completed response into the structured turn result; the
    /// token counts are carried over.  Fails with the delimiter that could
    /// not be located exactly once, or when fewer than the required number
    /// of proposed actions follow the last delimiter; a failure carries the
    /// raw text.
    pub fn decode(msg: OutputMessage) -> (r: Result<TurnOutput, DecodeError>)
        ensures
            match decode_spec(msg.text@) {
                Result::Ok(dt) => r matches Ok(o) && o.image_description@ == dt.image_description
                    && o.image_caption@ == dt.image_caption && o.text@ == dt.text
                    && o.secret_info@ == dt.secret_info && o.proposed_next_actions@.len() == 3
                    && o.proposed_next_actions@[0]@ == dt.actions[0]
                    && o.proposed_next_actions@[1]@ == dt.actions[1]
                    && o.proposed_next_actions@[2]@ == dt.actions[2] && o.input_tokens
                    == msg.input_tokens && o.output_tokens == msg.output_tokens,
                Result::Err(k) => r matches Err(e) && e.kind == k && e.raw@ == msg.text@,
            },
    {
        let v = str_to_chars(msg.text.as_str());
        let d1 = str_to_chars("<<<EOID>>>");
        let d2 = str_to_chars("<<<EOIC>>>");
        let d3 = str_to_chars("<<<EOO>>>");
        let d4 = str_to_chars("<<<EOS>>>");
        let d5 = str_to_chars("<<<EOA>>>");
        proof {
            reveal_strlit("<<<EOID>>>");
            reveal_strlit("<<<EOIC>>>");
            reveal_strlit("<<<EOO>>>");
            reveal_strlit("<<<EOS>>>");
            reveal_strlit("<<<EOA>>>");
        }
        let n = v.len();
        let i1 = match find_from(&v, &d1, 0) {
            Option::None => {
                return Result::Err(
                    DecodeError { kind: DecodeErrorKind::MissingEoid, raw: msg.text },
                );
            },
            Option::Some(i) => i,
        };
        if find_from(&v, &d1, i1 + d1.len()).is_some() {
            return Result::Err(DecodeError { kind: DecodeErrorKind::MissingEoid, raw: msg.text });
        }
        let i2 = match find_from(&v, &d2, i1 + d1.len()) {
            Option::None => {
                return Result::Err(
                    DecodeError { kind: DecodeErrorKind::MissingEoic, raw: msg.text },
                );
            },
            Option::Some(i) => i,
        };
        if find_from(&v, &d2, i2 + d2.len()).is_some() {
            return Result::Err(DecodeError { kind: DecodeErrorKind::MissingEoic, raw: msg.text });
        }
        let i3 = match find_from(&v, &d3, i2 + d2.len()) {
            Option::None => {
                return Result::Err(
                    DecodeError { kind: DecodeErrorKind::MissingEoo, raw: msg.text },
                );
            },
            Option::Some(i) => i,
        };
        if find_from(&v, &d3, i3 + d3.len()).is_some() {
            return Result::Err(DecodeError { kind: DecodeErrorKind::MissingEoo, raw: msg.text });
        }
        let i4 = match find_from(&v, &d4, i3 + d3.len()) {
            Option::None => {
                return Result::Err(
                    DecodeError { kind: DecodeErrorKind::MissingEos, raw: msg.text },
                );
            },
            Option::Some(i) => i,
        };
        if find_from(&v, &d4, i4 + d4.len()).is_some() {
            return Result::Err(DecodeError { kind: DecodeErrorKind::MissingEos, raw: msg.text });
        }
        let a1 = match find_from(&v, &d5, i4 + d4.len()) {
            Option::None => {
                return Result::Err(
                    DecodeError { kind: DecodeErrorKind::TooFewProposedActions, raw: msg.text },
                );
            },
            Option::Some(i) => i,
        };
        let a2 = match find_from(&v, &d5, a1 + d5.len()) {
            Option::None => {
                return Result::Err(
                    DecodeError { kind: DecodeErrorKind::TooFewProposedActions, raw: msg.text },
                );
            },
            Option::Some(i) => i,
        };
        let third_end = match find_from(&v, &d5, a2 + d5.len()) {
            Option::None => v.len(),
            Option::Some(a3) => a3,
        };
        let mut actions: Vec<String> = Vec::new();
        actions.push(trimmed_string(&v, i4 + d4.len(), a1));
        actions.push(trimmed_string(&v, a1 + d5.len(), a2));
        actions.push(trimmed_string(&v, a2 + d5.len(), third_end));
        Result::Ok(
            TurnOutput {
                image_description: trimmed_string(&v, 0, i1),
                image_caption: trimmed_string(&v, i1 + d1.len(), i2),
                text: trimmed_string(&v, i2 + d2.len(), i3),
                secret_info: trimmed_string(&v, i3 + d3.len(), i4),
                proposed_next_actions: actions,
                input_tokens: msg.input_tokens,
                output_tokens: msg.output_tokens,
            },
        )
    }
}

/// The wire form of a delimiter: the literal on a line of its own.
pub open spec fn wrap(d: Seq<char>) -> Seq<char> {
    seq!['\n'] + d + seq!['\n']
}

/// The encoded wire text of a turn result: its fields in fixed order, each
/// boundary marked by a delimiter on its own line, the proposed actions
/// joined by the action delimiter.
pub open spec fn encode_spec(o: TurnOutput) -> Seq<char>
    recommends
        o.proposed_next_actions@.len() == 3,
{
    o.image_description@ + wrap(eoid()) + o.image_caption@ + wrap(eoic()) + o.text@ + wrap(eoo())
        + o.secret_info@ + wrap(eos()) + o.proposed_next_actions@[0]@ + wrap(eoa())
        + o.proposed_next_actions@[1]@ + wrap(eoa()) + o.proposed_next_actions@[2]@
}

impl TurnOutput {
    /// Encodes the turn result into the delimited text format fed back as
    /// conversation history.
    pub fn to_llm_format(&self) -> (r: String)
        requires
            self.proposed_next_actions@.len() == 3,
        ensures
            r@ == encode_spec(*self),
    {
        let mut out = String::new();
        out.append(self.image_description.as_str());
        out.append("\n<<<EOID>>>\n");
        out.append(self.image_caption.as_str());
        out.append("\n<<<EOIC>>>\n");
        out.append(self.text.as_str());
        out.append("\n<<<EOO>>>\n");
        out.append(self.secret_info.as_str());
        out.append("\n<<<EOS>>>\n");
        out.append(self.proposed_next_actions[0].as_str());
        out.append("\n<<<EOA>>>\n");
        out.append(self.proposed_next_actions[1].as_str());
        out.append("\n<<<EOA>>>\n");
        out.append(self.proposed_next_actions[2].as_str());
        proof {
            reveal_strlit("\n<<<EOID>>>\n");
            reveal_strlit("\n<<<EOIC>>>\n");
            reveal_strlit("\n<<<EOO>>>\n");
            reveal_strlit("\n<<<EOS>>>\n");
            reveal_strlit("\n<<<EOA>>>\n");
            reveal_strlit("<<<EOID>>>");
            reveal_strlit("<<<EOIC>>>");
            reveal_strlit("<<<EOO>>>");
            reveal_strlit("<<<EOS>>>");
            reveal_strlit("<<<EOA>>>");
            assert("\n<<<EOID>>>\n"@ =~= wrap(eoid()));
            assert("\n<<<EOIC>>>\n"@ =~= wrap(eoic()));
            assert("\n<<<EOO>>>\n"@ =~= wrap(eoo()));
            assert("\n<<<EOS>>>\n"@ =~= wrap(eos()));
            assert("\n<<<EOA>>>\n"@ =~= wrap(eoa()));
            assert(out@ =~= encode_spec(*self));
        }
        out
    }
}

/// Splits an image-description buffer on its delimiter into the description
/// and the caption; fails, carrying the raw text, unless the delimiter
/// occurs exactly once.  Neither part is trimmed.
pub fn parse_image_description(src: &str) -> (r: Result<ImageDescription, DecodeError>)
    ensures
        ({
            let s = src@;
            match first_occ_from(s, eoid(), 0) {
                Option::None => r matches Err(e) && e.kind == DecodeErrorKind::MissingEoid
                    && e.raw@ == s,
                Option::Some(i) => {
                    if first_occ_from(s, eoid(), i + eoid().len()) is Some {
                        r matches Err(e) && e.kind == DecodeErrorKind::MissingEoid && e.raw@ == s
                    } else {
                        r matches Ok(d) && d.description@ == s.subrange(0, i) && d.caption@
                            == s.skip(i + eoid().len())
                    }
                },
            }
        }),
{
    let v = str_to_chars(src);
    let d1 = str_to_chars("<<<EOID>>>");
    proof {
        reveal_strlit("<<<EOID>>>");
    }
    let n = v.len();
    let i = match find_from(&v, &d1, 0) {
        Option::None => {
            return Result::Err(
                DecodeError {
                    kind: DecodeErrorKind::MissingEoid,
                    raw: crate::strutil::chars_to_string(v.as_slice()),
                },
            );
        },
        Option::Some(i) => i,
    };
    if find_from(&v, &d1, i + d1.len()).is_some() {
        return Result::Err(
            DecodeError {
                kind: DecodeErrorKind::MissingEoid,
                raw: crate::strutil::chars_to_string(v.as_slice()),
            },
        );
    }
    let description = chars_range_to_string(&v, 0, i);
    let caption = chars_range_to_string(&v, i + d1.len(), v.len());
    Result::Ok(ImageDescription { description, caption })
}


// ---------------------------------------------------------------------------
// The round trip: decoding an encoded turn result gives its fields back,
// trimmed.  The proofs locate each delimiter in the encoded text by the
// marker `<<<EO` that opens every delimiter and that well-behaved fields do
// not contain.
/// The opening marker shared by all delimiters.
pub open spec fn marker() -> Seq<char> {
    "<<<EO"@
}

/// The text contains no delimiter opener, so encoding it cannot create a
/// stray delimiter.
pub open spec fn marker_free(s: Seq<char>) -> bool {
    forall|j: int| !occurs_at(s, marker(), j)
}

spec fn nl() -> Seq<char> {
    seq!['\n']
}

/// Alternating segments and delimiters, concatenated.
spec fn wire_cat(segs: Seq<Seq<char>>, ds: Seq<Seq<char>>) -> Seq<char>
    recommends
        segs.len() == ds.len() + 1,
    decreases ds.len(),
{
    if ds.len() == 0 {
        segs[0]
    } else {
        segs[0] + ds[0] + wire_cat(segs.drop_first(), ds.drop_first())
    }
}

/// Position of delimiter `k` in the concatenation.
spec fn delim_off(segs: Seq<Seq<char>>, ds: Seq<Seq<char>>, k: int) -> int
    recommends
        0 <= k < ds.len(),
    decreases k,
    when k >= 0
{
    if k <= 0 {
        segs[0].len() as int
    } else {
        segs[0].len() + ds[0].len() + delim_off(segs.drop_first(), ds.drop_first(), k - 1)
    }
}

/// A delimiter shape the localization argument relies on: it opens with the
/// marker, contains it nowhere else, and cannot start the marker close to
/// its end.
spec fn delim_ok(d: Seq<char>) -> bool {
    &&& d.len() >= 7
    &&& d.subrange(0, 5) == marker()
    &&& forall|q: int| 1 <= q && q + 5 <= d.len() ==> #[trigger] d.subrange(q, q + 5) != marker()
    &&& forall|q: int| d.len() - 4 <= q < d.len() ==> #[trigger] d[q] != '<'
}

/// The well-formed wire: marker-free segments, well-shaped delimiters, and
/// a newline closing every segment that a delimiter follows.
spec fn wire_wf(segs: Seq<Seq<char>>, ds: Seq<Seq<char>>) -> bool {
    &&& segs.len() == ds.len() + 1
    &&& forall|k: int| 0 <= k < segs.len() ==> marker_free(#[trigger] segs[k])
    &&& forall|k: int| 0 <= k < ds.len() ==> delim_ok(#[trigger] ds[k])
    &&& forall|k: int|
        0 <= k < ds.len() ==> (#[trigger] segs[k]).len() >= 1 && segs[k].last() == '\n'
}

/// Two texts that disagree at some shared position.
spec fn differs(a: Seq<char>, b: Seq<char>) -> bool {
    exists|m: int| 0 <= m < a.len() && m < b.len() && a[m] != b[m]
}

proof fn lemma_marker_facts()
    ensures
        marker().len() == 5,
        marker()[0] == '<',
        marker()[1] == '<',
        marker()[2] == '<',
        marker()[3] == 'E',
        marker()[4] == 'O',
{
    reveal_strlit("<<<EO");
}

/// Every delimiter of the protocol has the shape the localization relies
/// on, and each pair of distinct delimiters disagrees at a shared index.
proof fn lemma_delims()
    ensures
        delim_ok(eoid()),
        delim_ok(eoic()),
        delim_ok(eoo()),
        delim_ok(eos()),
        delim_ok(eoa()),
        eoid().len() == 10 && eoic().len() == 10 && eoo().len() == 9 && eos().len() == 9
            && eoa().len() == 9,
        differs(eoid(), eoic()) && differs(eoic(), eoid()),
        differs(eoid(), eoo()) && differs(eoid(), eos()) && differs(eoid(), eoa()),
        differs(eoic(), eoo()) && differs(eoic(), eos()) && differs(eoic(), eoa()),
        differs(eoo(), eoid()) && differs(eoo(), eoic()) && differs(eoo(), eos()) && differs(
            eoo(),
            eoa(),
        ),
        differs(eos(), eoid()) && differs(eos(), eoic()) && differs(eos(), eoo()) && differs(
            eos(),
            eoa(),
        ),
        differs(eoa(), eoid()) && differs(eoa(), eoic()) && differs(eoa(), eoo()) && differs(
            eoa(),
            eos(),
        ),
{
    lemma_marker_facts();
    reveal_strlit("<<<EOID>>>");
    reveal_strlit("<<<EOIC>>>");
    reveal_strlit("<<<EOO>>>");
    reveal_strlit("<<<EOS>>>");
    reveal_strlit("<<<EOA>>>");
    lemma_shape(eoid());
    lemma_shape(eoic());
    lemma_shape(eoo());
    lemma_shape(eos());
    lemma_shape(eoa());
    assert(eoid()[5] == 'I' && eoic()[5] == 'I' && eoo()[5] == 'O' && eos()[5] == 'S' && eoa()[5]
        == 'A');
    assert(eoid()[6] == 'D' && eoic()[6] == 'C');
    assert(0 <= 6 < eoid().len() && 6 < eoic().len() && eoid()[6] != eoic()[6]);
    assert(0 <= 5 < eoid().len() && 5 < eoo().len() && eoid()[5] != eoo()[5]);
    assert(0 <= 5 < eoid().len() && 5 < eos().len() && eoid()[5] != eos()[5]);
    assert(0 <= 5 < eoid().len() && 5 < eoa().len() && eoid()[5] != eoa()[5]);
    assert(0 <= 5 < eoic().len() && 5 < eoo().len() && eoic()[5] != eoo()[5]);
    assert(0 <= 5 < eoic().len() && 5 < eos().len() && eoic()[5] != eos()[5]);
    assert(0 <= 5 < eoic().len() && 5 < eoa().len() && eoic()[5] != eoa()[5]);
    assert(0 <= 5 < eoo().len() && 5 < eoid().len() && eoo()[5] != eoid()[5]);
    assert(0 <= 5 < eoo().len() && 5 < eoic().len() && eoo()[5] != eoic()[5]);
    assert(0 <= 5 < eoo().len() && 5 < eos().len() && eoo()[5] != eos()[5]);
    assert(0 <= 5 < eoo().len() && 5 < eoa().len() && eoo()[5] != eoa()[5]);
    assert(0 <= 5 < eos().len() && 5 < eoid().len() && eos()[5] != eoid()[5]);
    assert(0 <= 5 < eos().len() && 5 < eoic().len() && eos()[5] != eoic()[5]);
    assert(0 <= 5 < eos().len() && 5 < eoo().len() && eos()[5] != eoo()[5]);
    assert(0 <= 5 < eos().len() && 5 < eoa().len() && eos()[5] != eoa()[5]);
    assert(0 <= 5 < eoa().len() && 5 < eoid().len() && eoa()[5] != eoid()[5]);
    assert(0 <= 5 < eoa().len() && 5 < eoic().len() && eoa()[5] != eoic()[5]);
    assert(0 <= 5 < eoa().len() && 5 < eoo().len() && eoa()[5] != eoo()[5]);
    assert(0 <= 5 < eoa().len() && 5 < eos().len() && eoa()[5] != eos()[5]);
}

/// A delimiter of the concrete shape `<<<EO...` with no later `<` is well
/// shaped.
proof fn lemma_shape(d: Seq<char>)
    requires
        d.len() >= 7,
        d[0] == '<',
        d[1] == '<',
        d[2] == '<',
        d[3] == 'E',
        d[4] == 'O',
        forall|q: int| 5 <= q < d.len() ==> #[trigger] d[q] != '<',
    ensures
        delim_ok(d),
{
    lemma_marker_facts();
    assert(d.subrange(0, 5) =~= marker());
    assert forall|q: int| 1 <= q && q + 5 <= d.len() implies #[trigger] d.subrange(q, q + 5)
        != marker() by {
        if q == 1 {
            assert(d.subrange(q, q + 5)[2] == d[3]);
            assert(marker()[2] == '<');
        } else if q == 2 {
            assert(d.subrange(q, q + 5)[1] == d[3]);
            assert(marker()[1] == '<');
        } else {
            assert(d.subrange(q, q + 5)[0] == d[q]);
            assert(marker()[0] == '<');
        }
    }
    assert forall|q: int| d.len() - 4 <= q < d.len() implies #[trigger] d[q] != '<' by {}
}


/// Padding a marker-free text with newlines keeps it marker-free: the
/// marker holds no newline, so no occurrence can use a padding character.
proof fn lemma_pad_marker_free(s: Seq<char>)
    requires
        marker_free(s),
    ensures
        marker_free(nl() + s + nl()),
        marker_free(s + nl()),
        marker_free(nl() + s),
{
    lemma_marker_facts();
    let both = nl() + s + nl();
    assert forall|j: int| !occurs_at(both, marker(), j) by {
        if occurs_at(both, marker(), j) {
            assert(forall|m: int| 0 <= m < 5 ==> both[j + m] == #[trigger] marker()[m]) by {
                assert(forall|m: int|
                    0 <= m < 5 ==> #[trigger] both.subrange(j, j + 5)[m] == marker()[m]);
            }
            if j == 0 {
                assert(both[0] == '\n');
            } else if j + 5 == both.len() {
                assert(both[j + 4] == '\n');
            } else {
                assert(occurs_at(s, marker(), j - 1)) by {
                    assert(s.subrange(j - 1, j + 4) =~= marker()) by {
                        assert(forall|m: int| 0 <= m < 5 ==> s[j - 1 + m] == #[trigger] both[j + m]);
                    }
                }
            }
        }
    }
    let right = s + nl();
    assert forall|j: int| !occurs_at(right, marker(), j) by {
        if occurs_at(right, marker(), j) {
            assert(forall|m: int| 0 <= m < 5 ==> right[j + m] == #[trigger] marker()[m]) by {
                assert(forall|m: int|
                    0 <= m < 5 ==> #[trigger] right.subrange(j, j + 5)[m] == marker()[m]);
            }
            if j + 5 == right.len() {
                assert(right[j + 4] == '\n');
            } else {
                assert(occurs_at(s, marker(), j)) by {
                    assert(s.subrange(j, j + 5) =~= marker()) by {
                        assert(forall|m: int| 0 <= m < 5 ==> s[j + m] == #[trigger] right[j + m]);
                    }
                }
            }
        }
    }
    let left = nl() + s;
    assert forall|j: int| !occurs_at(left, marker(), j) by {
        if occurs_at(left, marker(), j) {
            assert(forall|m: int| 0 <= m < 5 ==> left[j + m] == #[trigger] marker()[m]) by {
                assert(forall|m: int|
                    0 <= m < 5 ==> #[trigger] left.subrange(j, j + 5)[m] == marker()[m]);
            }
            if j == 0 {
                assert(left[0] == '\n');
            } else {
                assert(occurs_at(s, marker(), j - 1)) by {
                    assert(s.subrange(j - 1, j + 4) =~= marker()) by {
                        assert(forall|m: int| 0 <= m < 5 ==> s[j - 1 + m] == #[trigger] left[j + m]);
                    }
                }
            }
        }
    }
}

proof fn lemma_wire_wf_drop(segs: Seq<Seq<char>>, ds: Seq<Seq<char>>)
    requires
        wire_wf(segs, ds),
        ds.len() >= 1,
    ensures
        wire_wf(segs.drop_first(), ds.drop_first()),
{
    assert(forall|k: int|
        0 <= k < segs.drop_first().len() ==> #[trigger] segs.drop_first()[k] == segs[k + 1]);
    assert(forall|k: int|
        0 <= k < ds.drop_first().len() ==> #[trigger] ds.drop_first()[k] == ds[k + 1]);
}

/// Any marker occurrence in a well-formed wire starts exactly at a
/// delimiter.
proof fn lemma_wire_marker(segs: Seq<Seq<char>>, ds: Seq<Seq<char>>, j: int)
    requires
        wire_wf(segs, ds),
        occurs_at(wire_cat(segs, ds), marker(), j),
    ensures
        exists|k: int| 0 <= k < ds.len() && j == delim_off(segs, ds, k),
    decreases ds.len(),
{
    lemma_marker_facts();
    let w = wire_cat(segs, ds);
    assert(forall|m: int| 0 <= m < 5 ==> w[j + m] == #[trigger] marker()[m]) by {
        assert(forall|m: int| 0 <= m < 5 ==> #[trigger] w.subrange(j, j + 5)[m] == marker()[m]);
    }
    if ds.len() == 0 {
        assert(occurs_at(segs[0], marker(), j));
        assert(false);
    } else {
        let s0 = segs[0];
        let d0 = ds[0];
        let rest = wire_cat(segs.drop_first(), ds.drop_first());
        let a = s0.len() as int;
        let b = d0.len() as int;
        assert(w == s0 + d0 + rest);
        if j + 5 <= a {
            assert(occurs_at(s0, marker(), j)) by {
                assert(s0.subrange(j, j + 5) =~= marker()) by {
                    assert(forall|m: int| 0 <= m < 5 ==> s0[j + m] == #[trigger] w[j + m]);
                }
            }
            assert(false);
        } else if j < a {
            assert(w[a - 1] == s0[a - 1]);
            assert(marker()[a - 1 - j] == '\n');
            assert(false);
        } else {
            let j2 = j - a;
            if j2 == 0 {
                assert(delim_off(segs, ds, 0) == a);
                assert(0 <= 0 < ds.len() && j == delim_off(segs, ds, 0));
            } else if j2 + 5 <= b {
                assert(d0.subrange(j2, j2 + 5) =~= marker()) by {
                    assert(forall|m: int| 0 <= m < 5 ==> d0[j2 + m] == #[trigger] w[j + m]);
                }
                assert(false);
            } else if j2 < b {
                assert(w[j] == d0[j2]);
                assert(d0[j2] == '<');
                assert(b - 4 <= j2 < b);
                assert(false);
            } else {
                let j3 = j2 - b;
                assert(occurs_at(rest, marker(), j3)) by {
                    assert(rest.subrange(j3, j3 + 5) =~= marker()) by {
                        assert(forall|m: int| 0 <= m < 5 ==> rest[j3 + m] == #[trigger] w[j + m]);
                    }
                }
                lemma_wire_wf_drop(segs, ds);
                lemma_wire_marker(segs.drop_first(), ds.drop_first(), j3);
                let k = choose|k: int|
                    0 <= k < ds.drop_first().len() && j3 == delim_off(
                        segs.drop_first(),
                        ds.drop_first(),
                        k,
                    );
                assert(delim_off(segs, ds, k + 1) == a + b + delim_off(
                    segs.drop_first(),
                    ds.drop_first(),
                    k,
                ));
                assert(0 <= k + 1 < ds.len() && j == delim_off(segs, ds, k + 1));
            }
        }
    }
}


/// Each delimiter really stands at its position, each is preceded by the
/// first segment, and consecutive positions are separated by a delimiter
/// and a non-empty segment.
proof fn lemma_delim_at(segs: Seq<Seq<char>>, ds: Seq<Seq<char>>, k: int)
    requires
        wire_wf(segs, ds),
        0 <= k < ds.len(),
    ensures
        segs[0].len() <= delim_off(segs, ds, k),
        delim_off(segs, ds, k) + ds[k].len() <= wire_cat(segs, ds).len(),
        wire_cat(segs, ds).subrange(
            delim_off(segs, ds, k),
            delim_off(segs, ds, k) + ds[k].len(),
        ) == ds[k],
        k >= 1 ==> delim_off(segs, ds, k) >= delim_off(segs, ds, k - 1) + ds[k - 1].len() + 1,
    decreases k,
{
    let w = wire_cat(segs, ds);
    let s0 = segs[0];
    let d0 = ds[0];
    let rest = wire_cat(segs.drop_first(), ds.drop_first());
    let a = s0.len() as int;
    let b = d0.len() as int;
    assert(w == s0 + d0 + rest);
    if k == 0 {
        assert(w.subrange(a, a + b) =~= d0) by {
            assert(forall|m: int| 0 <= m < b ==> #[trigger] w.subrange(a, a + b)[m] == d0[m]);
        }
    } else {
        lemma_wire_wf_drop(segs, ds);
        lemma_delim_at(segs.drop_first(), ds.drop_first(), k - 1);
        let off2 = delim_off(segs.drop_first(), ds.drop_first(), k - 1);
        assert(delim_off(segs, ds, k) == a + b + off2);
        assert(ds.drop_first()[k - 1] == ds[k]);
        assert(segs.drop_first()[0] == segs[1]);
        assert(w.subrange(a + b + off2, a + b + off2 + ds[k].len()) =~= rest.subrange(
            off2,
            off2 + ds[k].len(),
        )) by {
            assert(forall|m: int|
                0 <= m < ds[k].len() ==> #[trigger] rest.subrange(off2, off2 + ds[k].len())[m]
                    == w[a + b + off2 + m]);
        }
        if k == 1 {
            assert(delim_off(segs, ds, 0) == a);
            assert(off2 == segs[1].len());
            assert(segs[1].len() >= 1);
        } else {
            assert(delim_off(segs, ds, k - 1) == a + b + delim_off(
                segs.drop_first(),
                ds.drop_first(),
                k - 2,
            ));
        }
    }
}

/// Positions grow along the wire.
proof fn lemma_off_chain(segs: Seq<Seq<char>>, ds: Seq<Seq<char>>, k1: int, k2: int)
    requires
        wire_wf(segs, ds),
        0 <= k1 <= k2 < ds.len(),
    ensures
        delim_off(segs, ds, k1) <= delim_off(segs, ds, k2),
        k1 < k2 ==> delim_off(segs, ds, k1) + ds[k1].len() <= delim_off(segs, ds, k2),
    decreases k2 - k1,
{
    if k1 < k2 {
        lemma_off_chain(segs, ds, k1 + 1, k2);
        lemma_delim_at(segs, ds, k1 + 1);
    }
}

/// The text before the first delimiter is the first segment; the text
/// between one delimiter and the next position is the segment between
/// them; the text after the last delimiter is the final segment.
proof fn lemma_seg_between(segs: Seq<Seq<char>>, ds: Seq<Seq<char>>, k: int)
    requires
        wire_wf(segs, ds),
        0 <= k < ds.len(),
    ensures
        wire_cat(segs, ds).take(delim_off(segs, ds, 0)) == segs[0],
        k + 1 < ds.len() ==> wire_cat(segs, ds).subrange(
            delim_off(segs, ds, k) + ds[k].len(),
            delim_off(segs, ds, k + 1),
        ) == segs[k + 1],
        k + 1 == ds.len() ==> wire_cat(segs, ds).subrange(
            delim_off(segs, ds, k) + ds[k].len(),
            wire_cat(segs, ds).len() as int,
        ) == segs[k + 1],
    decreases ds.len(),
{
    let w = wire_cat(segs, ds);
    let s0 = segs[0];
    let d0 = ds[0];
    let rest = wire_cat(segs.drop_first(), ds.drop_first());
    let a = s0.len() as int;
    let b = d0.len() as int;
    assert(w == s0 + d0 + rest);
    assert(w.take(a) =~= s0) by {
        assert(forall|m: int| 0 <= m < a ==> #[trigger] w.take(a)[m] == s0[m]);
    }
    lemma_wire_wf_drop(segs, ds);
    if k == 0 {
        if ds.len() == 1 {
            assert(rest == segs.drop_first()[0]);
            assert(w.subrange(a + b, w.len() as int) =~= rest) by {
                assert(forall|m: int|
                    0 <= m < rest.len() ==> #[trigger] w.subrange(a + b, w.len() as int)[m]
                        == rest[m]);
            }
        } else {
            lemma_delim_at(segs.drop_first(), ds.drop_first(), 0);
            lemma_seg_between(segs.drop_first(), ds.drop_first(), 0);
            assert(delim_off(segs, ds, 1) == a + b + delim_off(
                segs.drop_first(),
                ds.drop_first(),
                0,
            ));
            let e2 = delim_off(segs.drop_first(), ds.drop_first(), 0);
            assert(rest.take(e2) == segs.drop_first()[0]);
            assert(w.subrange(a + b, a + b + e2) =~= rest.take(e2)) by {
                assert(forall|m: int|
                    0 <= m < e2 ==> #[trigger] rest.take(e2)[m] == w[a + b + m]);
            }
        }
    } else {
        lemma_seg_between(segs.drop_first(), ds.drop_first(), k - 1);
        lemma_delim_at(segs.drop_first(), ds.drop_first(), k - 1);
        if k < ds.drop_first().len() {
            lemma_delim_at(segs.drop_first(), ds.drop_first(), k);
            lemma_off_chain(segs.drop_first(), ds.drop_first(), k - 1, k);
        }
        let off2 = delim_off(segs.drop_first(), ds.drop_first(), k - 1);
        assert(delim_off(segs, ds, k) == a + b + off2);
        if k + 1 < ds.len() {
            let off3 = delim_off(segs.drop_first(), ds.drop_first(), k);
            assert(delim_off(segs, ds, k + 1) == a + b + off3);
            assert(rest.subrange(off2 + ds[k].len(), off3) == segs.drop_first()[k]);
            assert(w.subrange(a + b + off2 + ds[k].len(), a + b + off3) =~= rest.subrange(
                off2 + ds[k].len(),
                off3,
            )) by {
                assert(forall|m: int|
                    0 <= m < off3 - off2 - ds[k].len() ==> #[trigger] rest.subrange(
                        off2 + ds[k].len(),
                        off3,
                    )[m] == w[a + b + off2 + ds[k].len() + m]);
            }
        } else {
            assert(rest.subrange(off2 + ds[k].len(), rest.len() as int) == segs.drop_first()[k]);
            assert(w.subrange(a + b + off2 + ds[k].len(), w.len() as int) =~= rest.subrange(
                off2 + ds[k].len(),
                rest.len() as int,
            )) by {
                assert(forall|m: int|
                    0 <= m < rest.len() - off2 - ds[k].len() ==> #[trigger] rest.subrange(
                        off2 + ds[k].len(),
                        rest.len() as int,
                    )[m] == w[a + b + off2 + ds[k].len() + m]);
            }
        }
    }
}


/// An occurrence of a delimiter is an occurrence of the marker, since the
/// marker opens the delimiter.
proof fn lemma_delim_occ_marker(w: Seq<char>, e: Seq<char>, j: int)
    requires
        delim_ok(e),
        occurs_at(w, e, j),
    ensures
        occurs_at(w, marker(), j),
{
    lemma_marker_facts();
    assert(w.subrange(j, j + 5) =~= marker()) by {
        assert(forall|m: int|
            0 <= m < 5 ==> #[trigger] w.subrange(j, j + 5)[m] == w.subrange(j, j + e.len())[m]);
        assert(forall|m: int|
            0 <= m < 5 ==> #[trigger] w.subrange(j, j + e.len())[m] == e.subrange(0, 5)[m]);
    }
}

/// In a well-formed wire, the first occurrence of delimiter `e` at or
/// after `start` is its occurrence as delimiter `lvl`, provided the search
/// starts past every earlier delimiter and every other delimiter equal to
/// `e` stands before the start or at `lvl` or later.
proof fn lemma_find_delim(
    segs: Seq<Seq<char>>,
    ds: Seq<Seq<char>>,
    lvl: int,
    e: Seq<char>,
    start: int,
)
    requires
        wire_wf(segs, ds),
        0 <= lvl < ds.len(),
        ds[lvl] == e,
        0 <= start <= delim_off(segs, ds, lvl),
        forall|k: int| 0 <= k < ds.len() && #[trigger] ds[k] != e ==> differs(e, ds[k]),
        forall|k: int|
            0 <= k < ds.len() && #[trigger] ds[k] == e ==> k >= lvl || delim_off(segs, ds, k)
                + ds[k].len() <= start,
    ensures
        first_occ_from(wire_cat(segs, ds), e, start) == Some(delim_off(segs, ds, lvl)),
{
    let w = wire_cat(segs, ds);
    let off = delim_off(segs, ds, lvl);
    lemma_delim_at(segs, ds, lvl);
    assert(occurs_at(w, e, off));
    assert forall|j: int| start <= j < off implies !occurs_at(w, e, j) by {
        if occurs_at(w, e, j) {
            lemma_delim_occ_marker(w, e, j);
            lemma_wire_marker(segs, ds, j);
            let k = choose|k: int| 0 <= k < ds.len() && j == delim_off(segs, ds, k);
            lemma_delim_at(segs, ds, k);
            if ds[k] == e {
                if k >= lvl {
                    lemma_off_chain(segs, ds, lvl, k);
                } else {
                    assert(delim_off(segs, ds, k) + ds[k].len() <= start);
                }
                assert(false);
            } else {
                let m = choose|m: int|
                    0 <= m < e.len() && m < ds[k].len() && e[m] != ds[k][m];
                assert(w.subrange(j, j + e.len())[m] == e[m]);
                assert(w.subrange(j, j + ds[k].len())[m] == ds[k][m]);
                assert(w[j + m] == e[m] && w[j + m] == ds[k][m]);
                assert(false);
            }
        }
    }
    lemma_first_occ_is(w, e, start, off);
}

/// No occurrence of delimiter `e` remains at or after `start` when every
/// delimiter equal to `e` stands before it and every other differs.
proof fn lemma_no_more_delim(segs: Seq<Seq<char>>, ds: Seq<Seq<char>>, e: Seq<char>, start: int)
    requires
        wire_wf(segs, ds),
        delim_ok(e),
        0 <= start,
        forall|k: int| 0 <= k < ds.len() && #[trigger] ds[k] != e ==> differs(e, ds[k]),
        forall|k: int|
            0 <= k < ds.len() && #[trigger] ds[k] == e ==> delim_off(segs, ds, k) < start,
    ensures
        first_occ_from(wire_cat(segs, ds), e, start) is None,
{
    let w = wire_cat(segs, ds);
    lemma_first_occ_props(w, e, start);
    match first_occ_from(w, e, start) {
        Option::Some(j) => {
            assert(occurs_at(w, e, j) && j >= start);
            lemma_delim_occ_marker(w, e, j);
            lemma_wire_marker(segs, ds, j);
            let k = choose|k: int| 0 <= k < ds.len() && j == delim_off(segs, ds, k);
            lemma_delim_at(segs, ds, k);
            if ds[k] == e {
                assert(false);
            } else {
                let m = choose|m: int|
                    0 <= m < e.len() && m < ds[k].len() && e[m] != ds[k][m];
                assert(w.subrange(j, j + e.len())[m] == e[m]);
                assert(w.subrange(j, j + ds[k].len())[m] == ds[k][m]);
                assert(w[j + m] == e[m] && w[j + m] == ds[k][m]);
                assert(false);
            }
        },
        Option::None => {},
    }
}

/// Trimming ignores a trailing newline.
proof fn lemma_trim_snoc_nl(s: Seq<char>)
    ensures
        trim_spec(s + nl()) == trim_spec(s),
    decreases s.len(),
{
    let t = s + nl();
    assert(t.len() == s.len() + 1);
    if s.len() == 0 {
        assert(t[0] == '\n');
        assert(t.drop_first() =~= s);
    } else if is_space_char(t[0]) {
        assert(t[0] == s[0]);
        assert(t.drop_first() =~= s.drop_first() + nl());
        lemma_trim_snoc_nl(s.drop_first());
    } else {
        assert(t.last() == '\n');
        assert(t.drop_last() =~= s);
    }
}

/// Trimming ignores a leading newline.
proof fn lemma_trim_cons_nl(s: Seq<char>)
    ensures
        trim_spec(nl() + s) == trim_spec(s),
{
    let t = nl() + s;
    assert(t[0] == '\n');
    assert(t.drop_first() =~= s);
}


/// The padded segments of an encoded turn result.
spec fn segs_of(
    desc: Seq<char>,
    cap: Seq<char>,
    text: Seq<char>,
    secret: Seq<char>,
    a0: Seq<char>,
    a1f: Seq<char>,
    a2f: Seq<char>,
) -> Seq<Seq<char>> {
    seq![
        desc + nl(),
        nl() + cap + nl(),
        nl() + text + nl(),
        nl() + secret + nl(),
        nl() + a0 + nl(),
        nl() + a1f + nl(),
        nl() + a2f,
    ]
}

/// The delimiters of an encoded turn result, in order.
spec fn ds_of() -> Seq<Seq<char>> {
    seq![eoid(), eoic(), eoo(), eos(), eoa(), eoa()]
}

/// The wire of an encoded turn result is well formed, equals the encoded
/// text, and carries its delimiters at the arithmetically known offsets.
#[verifier::rlimit(100)]
proof fn lemma_fields_wire(o: TurnOutput)
    requires
        o.proposed_next_actions@.len() == 3,
        marker_free(o.image_description@),
        marker_free(o.image_caption@),
        marker_free(o.text@),
        marker_free(o.secret_info@),
        marker_free(o.proposed_next_actions@[0]@),
        marker_free(o.proposed_next_actions@[1]@),
        marker_free(o.proposed_next_actions@[2]@),
    ensures
        ({
            let segs = segs_of(
                o.image_description@,
                o.image_caption@,
                o.text@,
                o.secret_info@,
                o.proposed_next_actions@[0]@,
                o.proposed_next_actions@[1]@,
                o.proposed_next_actions@[2]@,
            );
            let ds = ds_of();
            &&& wire_wf(segs, ds)
            &&& wire_cat(segs, ds) == encode_spec(o)
            &&& delim_off(segs, ds, 0) == o.image_description@.len() + 1
            &&& delim_off(segs, ds, 1) == delim_off(segs, ds, 0) + 10 + 2
                + o.image_caption@.len()
            &&& delim_off(segs, ds, 2) == delim_off(segs, ds, 1) + 10 + 2 + o.text@.len()
            &&& delim_off(segs, ds, 3) == delim_off(segs, ds, 2) + 9 + 2 + o.secret_info@.len()
            &&& delim_off(segs, ds, 4) == delim_off(segs, ds, 3) + 9 + 2
                + o.proposed_next_actions@[0]@.len()
            &&& delim_off(segs, ds, 5) == delim_off(segs, ds, 4) + 9 + 2
                + o.proposed_next_actions@[1]@.len()
        }),
{
    lemma_marker_facts();
    lemma_delims();
    let desc = o.image_description@;
    let cap = o.image_caption@;
    let text = o.text@;
    let secret = o.secret_info@;
    let a0 = o.proposed_next_actions@[0]@;
    let a1f = o.proposed_next_actions@[1]@;
    let a2f = o.proposed_next_actions@[2]@;
    let segs = segs_of(desc, cap, text, secret, a0, a1f, a2f);
    let ds = ds_of();
    assert(wire_cat(segs, ds) == encode_spec(o)) by {
        reveal_with_fuel(wire_cat, 8);
        assert(wire_cat(segs, ds) =~= encode_spec(o));
    }
    lemma_pad_marker_free(desc);
    lemma_pad_marker_free(cap);
    lemma_pad_marker_free(text);
    lemma_pad_marker_free(secret);
    lemma_pad_marker_free(a0);
    lemma_pad_marker_free(a1f);
    lemma_pad_marker_free(a2f);
    assert(forall|k: int| 0 <= k < segs.len() ==> marker_free(#[trigger] segs[k]));
    assert(forall|k: int| 0 <= k < ds.len() ==> delim_ok(#[trigger] ds[k]));
    assert(forall|k: int|
        0 <= k < ds.len() ==> (#[trigger] segs[k]).len() >= 1 && segs[k].last() == '\n');
    assert(delim_off(segs, ds, 5) == delim_off(segs, ds, 4) + 9 + 2 + a1f.len()) by {
        reveal_with_fuel(delim_off, 8);
    }
    assert(delim_off(segs, ds, 4) == delim_off(segs, ds, 3) + 9 + 2 + a0.len()) by {
        reveal_with_fuel(delim_off, 8);
    }
    assert(delim_off(segs, ds, 3) == delim_off(segs, ds, 2) + 9 + 2 + secret.len()) by {
        reveal_with_fuel(delim_off, 8);
    }
    assert(delim_off(segs, ds, 2) == delim_off(segs, ds, 1) + 10 + 2 + text.len()) by {
        reveal_with_fuel(delim_off, 8);
    }
    assert(delim_off(segs, ds, 1) == delim_off(segs, ds, 0) + 10 + 2 + cap.len()) by {
        reveal_with_fuel(delim_off, 8);
    }
    assert(delim_off(segs, ds, 0) == desc.len() + 1);
}

/// In the encoded text, every delimiter is located exactly once, in order.
#[verifier::rlimit(100)]
proof fn lemma_fields_finds(o: TurnOutput)
    requires
        o.proposed_next_actions@.len() == 3,
        marker_free(o.image_description@),
        marker_free(o.image_caption@),
        marker_free(o.text@),
        marker_free(o.secret_info@),
        marker_free(o.proposed_next_actions@[0]@),
        marker_free(o.proposed_next_actions@[1]@),
        marker_free(o.proposed_next_actions@[2]@),
    ensures
        ({
            let segs = segs_of(
                o.image_description@,
                o.image_caption@,
                o.text@,
                o.secret_info@,
                o.proposed_next_actions@[0]@,
                o.proposed_next_actions@[1]@,
                o.proposed_next_actions@[2]@,
            );
            let ds = ds_of();
            let s = encode_spec(o);
            &&& first_occ_from(s, eoid(), 0) == Some(delim_off(segs, ds, 0))
            &&& first_occ_from(s, eoid(), delim_off(segs, ds, 0) + 10) is None
            &&& first_occ_from(s, eoic(), delim_off(segs, ds, 0) + 10) == Some(
                delim_off(segs, ds, 1),
            )
            &&& first_occ_from(s, eoic(), delim_off(segs, ds, 1) + 10) is None
            &&& first_occ_from(s, eoo(), delim_off(segs, ds, 1) + 10) == Some(
                delim_off(segs, ds, 2),
            )
            &&& first_occ_from(s, eoo(), delim_off(segs, ds, 2) + 9) is None
            &&& first_occ_from(s, eos(), delim_off(segs, ds, 2) + 9) == Some(
                delim_off(segs, ds, 3),
            )
            &&& first_occ_from(s, eos(), delim_off(segs, ds, 3) + 9) is None
            &&& first_occ_from(s, eoa(), delim_off(segs, ds, 3) + 9) == Some(
                delim_off(segs, ds, 4),
            )
            &&& first_occ_from(s, eoa(), delim_off(segs, ds, 4) + 9) == Some(
                delim_off(segs, ds, 5),
            )
            &&& first_occ_from(s, eoa(), delim_off(segs, ds, 5) + 9) is None
        }),
{
    lemma_delims();
    lemma_fields_wire(o);
    let segs = segs_of(
        o.image_description@,
        o.image_caption@,
        o.text@,
        o.secret_info@,
        o.proposed_next_actions@[0]@,
        o.proposed_next_actions@[1]@,
        o.proposed_next_actions@[2]@,
    );
    let ds = ds_of();
    lemma_off_chain(segs, ds, 0, 1);
    lemma_off_chain(segs, ds, 1, 2);
    lemma_off_chain(segs, ds, 2, 3);
    lemma_off_chain(segs, ds, 3, 4);
    lemma_off_chain(segs, ds, 4, 5);
    lemma_find_delim(segs, ds, 0, eoid(), 0);
    lemma_no_more_delim(segs, ds, eoid(), delim_off(segs, ds, 0) + 10);
    lemma_find_delim(segs, ds, 1, eoic(), delim_off(segs, ds, 0) + 10);
    lemma_no_more_delim(segs, ds, eoic(), delim_off(segs, ds, 1) + 10);
    lemma_find_delim(segs, ds, 2, eoo(), delim_off(segs, ds, 1) + 10);
    lemma_no_more_delim(segs, ds, eoo(), delim_off(segs, ds, 2) + 9);
    lemma_find_delim(segs, ds, 3, eos(), delim_off(segs, ds, 2) + 9);
    lemma_no_more_delim(segs, ds, eos(), delim_off(segs, ds, 3) + 9);
    lemma_find_delim(segs, ds, 4, eoa(), delim_off(segs, ds, 3) + 9);
    lemma_find_delim(segs, ds, 5, eoa(), delim_off(segs, ds, 4) + 9);
    lemma_no_more_delim(segs, ds, eoa(), delim_off(segs, ds, 5) + 9);
}

/// In the encoded text, the stretches between the delimiters are the
/// padded fields.
#[verifier::rlimit(100)]
proof fn lemma_fields_segments(o: TurnOutput)
    requires
        o.proposed_next_actions@.len() == 3,
        marker_free(o.image_description@),
        marker_free(o.image_caption@),
        marker_free(o.text@),
        marker_free(o.secret_info@),
        marker_free(o.proposed_next_actions@[0]@),
        marker_free(o.proposed_next_actions@[1]@),
        marker_free(o.proposed_next_actions@[2]@),
    ensures
        ({
            let segs = segs_of(
                o.image_description@,
                o.image_caption@,
                o.text@,
                o.secret_info@,
                o.proposed_next_actions@[0]@,
                o.proposed_next_actions@[1]@,
                o.proposed_next_actions@[2]@,
            );
            let ds = ds_of();
            let s = encode_spec(o);
            &&& s.subrange(0, delim_off(segs, ds, 0)) == o.image_description@ + nl()
            &&& s.subrange(delim_off(segs, ds, 0) + 10, delim_off(segs, ds, 1)) == nl()
                + o.image_caption@ + nl()
            &&& s.subrange(delim_off(segs, ds, 1) + 10, delim_off(segs, ds, 2)) == nl() + o.text@
                + nl()
            &&& s.subrange(delim_off(segs, ds, 2) + 9, delim_off(segs, ds, 3)) == nl()
                + o.secret_info@ + nl()
            &&& s.subrange(delim_off(segs, ds, 3) + 9, delim_off(segs, ds, 4)) == nl()
                + o.proposed_next_actions@[0]@ + nl()
            &&& s.subrange(delim_off(segs, ds, 4) + 9, delim_off(segs, ds, 5)) == nl()
                + o.proposed_next_actions@[1]@ + nl()
            &&& s.subrange(delim_off(segs, ds, 5) + 9, s.len() as int) == nl()
                + o.proposed_next_actions@[2]@
        }),
{
    lemma_delims();
    lemma_fields_wire(o);
    let segs = segs_of(
        o.image_description@,
        o.image_caption@,
        o.text@,
        o.secret_info@,
        o.proposed_next_actions@[0]@,
        o.proposed_next_actions@[1]@,
        o.proposed_next_actions@[2]@,
    );
    let ds = ds_of();
    let w = wire_cat(segs, ds);
    lemma_seg_between(segs, ds, 0);
    lemma_seg_between(segs, ds, 1);
    lemma_seg_between(segs, ds, 2);
    lemma_seg_between(segs, ds, 3);
    lemma_seg_between(segs, ds, 4);
    lemma_seg_between(segs, ds, 5);
    lemma_delim_at(segs, ds, 0);
    assert(w.subrange(0, delim_off(segs, ds, 0)) =~= w.take(delim_off(segs, ds, 0)));
}

/// Law: decoding an encoded turn result gives the turn result back, each
/// retained field trimmed of surrounding whitespace, for any turn result
/// with exactly the required number of proposed actions whose fields do
/// not contain the delimiter opener.
#[verifier::rlimit(100)]
pub proof fn lemma_decode_encode(o: TurnOutput)
    requires
        o.proposed_next_actions@.len() == 3,
        marker_free(o.image_description@),
        marker_free(o.image_caption@),
        marker_free(o.text@),
        marker_free(o.secret_info@),
        marker_free(o.proposed_next_actions@[0]@),
        marker_free(o.proposed_next_actions@[1]@),
        marker_free(o.proposed_next_actions@[2]@),
    ensures
        decode_spec(encode_spec(o)) == (Result::<DecodedText, DecodeErrorKind>::Ok(
            DecodedText {
                image_description: trim_spec(o.image_description@),
                image_caption: trim_spec(o.image_caption@),
                text: trim_spec(o.text@),
                secret_info: trim_spec(o.secret_info@),
                actions: seq![
                    trim_spec(o.proposed_next_actions@[0]@),
                    trim_spec(o.proposed_next_actions@[1]@),
                    trim_spec(o.proposed_next_actions@[2]@),
                ],
            },
        )),
{
    lemma_delims();
    lemma_fields_finds(o);
    lemma_fields_segments(o);
    let desc = o.image_description@;
    let cap = o.image_caption@;
    let text = o.text@;
    let secret = o.secret_info@;
    let a0 = o.proposed_next_actions@[0]@;
    let a1f = o.proposed_next_actions@[1]@;
    let a2f = o.proposed_next_actions@[2]@;
    lemma_trim_snoc_nl(desc);
    lemma_trim_pad(cap);
    lemma_trim_pad(text);
    lemma_trim_pad(secret);
    lemma_trim_pad(a0);
    lemma_trim_pad(a1f);
    lemma_trim_cons_nl(a2f);
    let s = encode_spec(o);
    match decode_spec(s) {
        Result::Ok(dt) => {
            assert(dt =~= DecodedText {
                image_description: trim_spec(desc),
                image_caption: trim_spec(cap),
                text: trim_spec(text),
                secret_info: trim_spec(secret),
                actions: seq![trim_spec(a0), trim_spec(a1f), trim_spec(a2f)],
            });
        },
        Result::Err(k) => {
            assert(false);
        },
    }
}

/// Trimming strips a surrounding pair of newlines.
proof fn lemma_trim_pad(f: Seq<char>)
    ensures
        trim_spec(nl() + f + nl()) == trim_spec(f),
{
    assert(nl() + f + nl() =~= nl() + (f + nl()));
    lemma_trim_cons_nl(f + nl());
    lemma_trim_snoc_nl(f);
}
} // verus!
