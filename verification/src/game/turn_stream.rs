//! The per-turn streaming state machine.
//!
//! One live response is a sequence of text deltas followed by a single
//! completion event.  The machine consumes the deltas: while parsing the
//! image description it accumulates scanner output into a buffer, publishes
//! the description and caption exactly once when the caption delimiter is
//! found, and keeps the rest of that chunk as a pending prefix; while
//! streaming the narrative it hands confirmed text on, prepending the
//! pending prefix to the first emitted chunk; after the narrative delimiter
//! it discards further deltas.  The completion event is decoded separately
//! as the authoritative result.
use crate::game::protocol::{
    eoid, first_occ_from, parse_image_description, DecodeError, DecodeErrorKind, ImageDescription,
};
use crate::game::stream_finder::{scan, MatchResult, ScanOutcome, StreamFinder};
use vstd::prelude::*;
use vstd::string::StringExecFns;

verus! {

broadcast use vstd::string::group_string_axioms;

/// The phase of the per-turn stream.
#[derive(Debug, Clone, Copy, PartialEq, Eq, Structural)]
pub enum SendToLLMState {
    ParsingImageDescription,
    StreamingOutputText,
    FinishingUp,
}

/// What one delta produced: text to forward to the live stream, and the
/// image description to publish (at most once per turn).
#[derive(Debug)]
pub struct FeedResult {
    pub emitted: Option<String>,
    pub image: Option<ImageDescription>,
}

/// The state machine that drives one turn's response stream.
pub struct TurnStream {
    mode: SendToLLMState,
    eoi_finder: StreamFinder,
    eoo_finder: StreamFinder,
    image_description: String,
    post_eoi_text: Option<String>,
}

impl TurnStream {
    pub closed spec fn mode_spec(&self) -> SendToLLMState {
        self.mode
    }

    /// The image-description text accumulated so far.
    pub closed spec fn buf_spec(&self) -> Seq<char> {
        self.image_description@
    }

    /// The pending prefix kept from the chunk in which the caption
    /// delimiter was found.
    pub closed spec fn pending_spec(&self) -> Seq<char> {
        match self.post_eoi_text {
            Some(p) => p@,
            None => Seq::<char>::empty(),
        }
    }

    pub closed spec fn eoi_pos(&self) -> nat {
        self.eoi_finder.pos()
    }

    pub closed spec fn eoo_pos(&self) -> nat {
        self.eoo_finder.pos()
    }

    pub closed spec fn wf(&self) -> bool {
        &&& self.eoi_finder.wf()
        &&& self.eoi_finder.target_seq() == "<<<EOIC>>>"@
        &&& self.eoo_finder.wf()
        &&& self.eoo_finder.target_seq() == "<<<EOO>>>"@
        &&& (self.mode == SendToLLMState::ParsingImageDescription ==> self.post_eoi_text is None
            && self.eoo_finder.pos() == 0)
    }

    pub fn new() -> (r: TurnStream)
        ensures
            r.wf(),
            r.mode_spec() == SendToLLMState::ParsingImageDescription,
            r.buf_spec() == Seq::<char>::empty(),
            r.eoi_pos() == 0,
    {
        proof {
            reveal_strlit("<<<EOIC>>>");
            reveal_strlit("<<<EOO>>>");
        }
        TurnStream {
            mode: SendToLLMState::ParsingImageDescription,
            eoi_finder: StreamFinder::new("<<<EOIC>>>"),
            eoo_finder: StreamFinder::new("<<<EOO>>>"),
            image_description: String::new(),
            post_eoi_text: None,
        }
    }

    /// Consumes one text delta.  While parsing the image description, the
    /// buffer grows by the scanner's confirmed text; when the caption
    /// delimiter is found, the buffer is split on the description delimiter
    /// and published, and the rest of the chunk is kept as pending prefix.
    /// While streaming, confirmed text is emitted with the pending prefix
    /// prepended to the first chunk; the narrative delimiter moves the
    /// machine to its final phase, in which deltas are discarded.  The
    /// image description is published at most once: only out of the parsing
    /// phase, which is never re-entered.
    pub fn feed(&mut self, delta: &str) -> (r: Result<FeedResult, DecodeError>)
        requires
            old(self).wf(),
        ensures
            final(self).wf(),
            (r matches Ok(f) && f.image is Some) ==> old(self).mode_spec()
                == SendToLLMState::ParsingImageDescription,
            old(self).mode_spec() != SendToLLMState::ParsingImageDescription ==> final(self).mode_spec() != SendToLLMState::ParsingImageDescription,
            match old(self).mode_spec() {
                SendToLLMState::ParsingImageDescription => {
                    let o = scan("<<<EOIC>>>"@, old(self).eoi_pos(), delta@);
                    match o {
                        ScanOutcome::Going { pos, emitted } => r matches Ok(f) && f.emitted
                            is None && f.image is None && final(self).mode_spec()
                            == SendToLLMState::ParsingImageDescription && final(self).buf_spec()
                            == old(self).buf_spec() + emitted && final(self).eoi_pos() == pos,
                        ScanOutcome::Found { emitted, post } => {
                            let buf = old(self).buf_spec() + emitted;
                            match first_occ_from(buf, eoid(), 0) {
                                Option::None => r matches Err(e) && e.kind
                                    == DecodeErrorKind::MissingEoid && e.raw@ == buf,
                                Option::Some(i) => {
                                    if first_occ_from(buf, eoid(), i + eoid().len()) is Some {
                                        r matches Err(e) && e.kind == DecodeErrorKind::MissingEoid
                                            && e.raw@ == buf
                                    } else {
                                        r matches Ok(f) && f.emitted is None && (f.image matches
                                        Some(d) && d.description@ == buf.subrange(0, i)
                                            && d.caption@ == buf.skip(i + eoid().len())) && final(self).mode_spec() == SendToLLMState::StreamingOutputText
                                            && final(self).pending_spec() == post && final(self).eoo_pos() == 0
                                    }
                                },
                            }
                        },
                    }
                },
                SendToLLMState::StreamingOutputText => {
                    let o = scan("<<<EOO>>>"@, old(self).eoo_pos(), delta@);
                    match o {
                        ScanOutcome::Going { pos, emitted } => r matches Ok(f) && f.image is None
                            && final(self).mode_spec() == SendToLLMState::StreamingOutputText
                            && final(self).eoo_pos() == pos && (if emitted.len() == 0 {
                            f.emitted is None && final(self).pending_spec() == old(self).pending_spec()
                        } else {
                            f.emitted matches Some(t) && t@ == old(self).pending_spec() + emitted
                                && final(self).pending_spec() == Seq::<char>::empty()
                        }),
                        ScanOutcome::Found { emitted, post } => r matches Ok(f) && f.image is None
                            && final(self).mode_spec() == SendToLLMState::FinishingUp && ({
                            let total = old(self).pending_spec() + emitted;
                            if total.len() == 0 {
                                f.emitted is None
                            } else {
                                f.emitted matches Some(t) && t@ == total
                            }
                        }),
                    }
                },
                SendToLLMState::FinishingUp => r matches Ok(f) && f.emitted is None && f.image
                    is None && final(self).mode_spec() == SendToLLMState::FinishingUp,
            },
    {
        match self.mode {
            SendToLLMState::ParsingImageDescription => {
                match self.eoi_finder.process(delta) {
                    MatchResult::Blocked => Result::Ok(FeedResult { emitted: None, image: None }),
                    MatchResult::CheckedOutput(o) => {
                        self.image_description.append(o.as_str());
                        Result::Ok(FeedResult { emitted: None, image: None })
                    },
                    MatchResult::StopTokenMatched { pre_token_text, post_token_text } => {
                        self.image_description.append(pre_token_text.as_str());
                        self.post_eoi_text = Some(post_token_text);
                        self.mode = SendToLLMState::StreamingOutputText;
                        match parse_image_description(self.image_description.as_str()) {
                            Result::Ok(d) => {
                                Result::Ok(FeedResult { emitted: None, image: Some(d) })
                            },
                            Result::Err(e) => Result::Err(e),
                        }
                    },
                }
            },
            SendToLLMState::StreamingOutputText => {
                match self.eoo_finder.process(delta) {
                    MatchResult::Blocked => Result::Ok(FeedResult { emitted: None, image: None }),
                    MatchResult::CheckedOutput(o) => {
                        match self.post_eoi_text.take() {
                            Some(mut prefix) => {
                                prefix.append(o.as_str());
                                Result::Ok(FeedResult { emitted: Some(prefix), image: None })
                            },
                            None => Result::Ok(FeedResult { emitted: Some(o), image: None }),
                        }
                    },
                    MatchResult::StopTokenMatched { pre_token_text, post_token_text: _ } => {
                        self.mode = SendToLLMState::FinishingUp;
                        let mut combined = match self.post_eoi_text.take() {
                            Some(prefix) => prefix,
                            None => String::new(),
                        };
                        combined.append(pre_token_text.as_str());
                        if combined.as_str().is_empty() {
                            Result::Ok(FeedResult { emitted: None, image: None })
                        } else {
                            Result::Ok(FeedResult { emitted: Some(combined), image: None })
                        }
                    },
                }
            },
            SendToLLMState::FinishingUp => Result::Ok(FeedResult { emitted: None, image: None }),
        }
    }
}

} // verus!
