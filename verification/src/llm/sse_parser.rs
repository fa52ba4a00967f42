//! Incremental parser for a server-sent-events byte stream, plus the plain
//! data shapes of the events the text-generation API sends.
//!
//! The parser cuts the byte stream into raw events, each terminated by a
//! blank line: an event is a run of lines, each either `event: <type>` or
//! `data: <payload>`; the last type wins and the payloads are joined with
//! newlines.  Decoding the JSON payloads into the typed shapes below is
//! done outside the library and handed back as plain values.
use vstd::prelude::*;
use vstd::utf8::{decode_utf8, valid_utf8};

verus! {

/// One raw server-sent event: the value of its `event:` line and the
/// concatenated `data:` payload.
#[derive(Debug)]
pub struct RawEvent {
    pub event_type: Option<String>,
    pub data: String,
}

/// Why a chunk could not be parsed.
#[derive(Debug, Clone, Copy, PartialEq, Eq, Structural)]
pub enum SseError {
    /// A line is neither an `event:` line nor a `data:` line.
    UnexpectedLine,
    /// A retained piece of the event is not valid UTF-8.
    InvalidUtf8,
}

/// Relies on `String::from_utf8`: succeeds exactly on valid UTF-8, and
/// yields the characters the bytes encode.
#[verifier::external_body]
fn bytes_to_string(v: Vec<u8>) -> (r: Option<String>)
    ensures
        r is Some <==> valid_utf8(v@),
        r matches Some(s) ==> s@ == decode_utf8(v@),
{
    String::from_utf8(v).ok()
}

/// Position of the first blank-line separator (two newlines) at or after
/// `from`.
pub open spec fn find_sep(b: Seq<u8>, from: int) -> Option<int>
    recommends
        0 <= from,
    decreases b.len() + 1 - from,
    when 0 <= from
{
    if from + 2 > b.len() {
        None
    } else if b[from] == 10 && b[from + 1] == 10 {
        Some(from)
    } else {
        find_sep(b, from + 1)
    }
}

/// A line without its trailing carriage return, if it has one.
pub open spec fn strip_cr(l: Seq<u8>) -> Seq<u8> {
    if l.len() > 0 && l.last() == 13 {
        l.drop_last()
    } else {
        l
    }
}

/// The bytes of `event: `.
pub open spec fn event_prefix() -> Seq<u8> {
    seq![101u8, 118u8, 101u8, 110u8, 116u8, 58u8, 32u8]
}

/// The bytes of `data: `.
pub open spec fn data_prefix() -> Seq<u8> {
    seq![100u8, 97u8, 116u8, 97u8, 58u8, 32u8]
}

/// Position of the first newline at or after `from`, or the end.
pub open spec fn line_end(b: Seq<u8>, from: int) -> int
    recommends
        0 <= from <= b.len(),
    decreases b.len() - from,
    when 0 <= from <= b.len()
{
    if from == b.len() {
        from
    } else if b[from] == 10 {
        from
    } else {
        line_end(b, from + 1)
    }
}

/// The byte views of an optional buffer.
pub open spec fn opt_view(o: Option<Vec<u8>>) -> Option<Seq<u8>> {
    match o {
        Some(t) => Some(t@),
        None => None,
    }
}

/// One line of an event block updates the running state: an `event:` line
/// replaces the event type, a `data:` line extends the payload, anything
/// else is an error.
pub open spec fn apply_line(line: Seq<u8>, et: Option<Seq<u8>>, data: Seq<u8>) -> Option<
    (Option<Seq<u8>>, Seq<u8>),
> {
    if line.len() >= 7 && line.take(7) == event_prefix() {
        Some((Some(line.skip(7)), data))
    } else if line.len() >= 6 && line.take(6) == data_prefix() {
        let payload = line.skip(6);
        let data2 = if data.len() == 0 {
            payload
        } else {
            data + seq![10u8] + payload
        };
        Some((et, data2))
    } else {
        None
    }
}

/// Folds the lines of an event block over `apply_line`.
pub open spec fn parse_lines(b: Seq<u8>, et: Option<Seq<u8>>, data: Seq<u8>) -> Option<
    (Option<Seq<u8>>, Seq<u8>),
>
    decreases b.len(),
{
    if b.len() == 0 {
        Some((et, data))
    } else {
        let i = line_end(b, 0);
        if 0 <= i && i < b.len() {
            match apply_line(strip_cr(b.take(i)), et, data) {
                None => None,
                Some((et2, data2)) => parse_lines(b.skip(i + 1), et2, data2),
            }
        } else {
            apply_line(strip_cr(b), et, data)
        }
    }
}

/// What parsing one event block yields: the event type, if any line gave
/// one, and the joined data payload.
pub open spec fn parse_event_spec(b: Seq<u8>) -> Option<(Option<Seq<u8>>, Seq<u8>)> {
    parse_lines(b, None, Seq::<u8>::empty())
}

/// A block parses and its retained pieces decode as UTF-8.
pub open spec fn block_ok(b: Seq<u8>) -> bool {
    match parse_event_spec(b) {
        None => false,
        Some((et, data)) => valid_utf8(data) && match et {
            Some(t) => valid_utf8(t),
            None => true,
        },
    }
}

/// The raw event a block parses to.
pub open spec fn event_matches(ev: RawEvent, b: Seq<u8>) -> bool {
    match parse_event_spec(b) {
        None => false,
        Some((et, data)) => ev.data@ == decode_utf8(data) && match et {
            Some(t) => ev.event_type matches Some(s) && s@ == decode_utf8(t),
            None => ev.event_type is None,
        },
    }
}

/// The complete blocks in `b` starting at `idx`, each delimited by a blank
/// line, and the position after the last delimiter.
pub struct SplitOutcome {
    pub blocks: Seq<Seq<u8>>,
    pub end: int,
}

pub open spec fn split_blocks(b: Seq<u8>, idx: int) -> SplitOutcome
    recommends
        0 <= idx,
    decreases b.len() + 1 - idx,
    when 0 <= idx
{
    match find_sep(b, idx) {
        None => SplitOutcome { blocks: Seq::empty(), end: idx },
        Some(p) => {
            if idx <= p && p + 2 <= b.len() {
                let rest = split_blocks(b, p + 2);
                SplitOutcome { blocks: seq![b.subrange(idx, p)] + rest.blocks, end: rest.end }
            } else {
                SplitOutcome { blocks: Seq::empty(), end: idx }
            }
        },
    }
}

proof fn lemma_find_sep_props(b: Seq<u8>, from: int)
    requires
        0 <= from,
    ensures
        find_sep(b, from) matches Some(p) ==> from <= p && p + 2 <= b.len() && b[p] == 10 && b[p
            + 1] == 10 && (forall|q: int| from <= q < p ==> !(#[trigger] b[q] == 10 && b[q + 1]
            == 10)),
        find_sep(b, from) is None ==> (forall|q: int|
            from <= q && q + 2 <= b.len() ==> !(#[trigger] b[q] == 10 && b[q + 1] == 10)),
    decreases b.len() + 1 - from,
{
    if from + 2 > b.len() {
    } else if b[from] == 10 && b[from + 1] == 10 {
    } else {
        lemma_find_sep_props(b, from + 1);
    }
}

proof fn lemma_find_sep_is(b: Seq<u8>, from: int, p: int)
    requires
        0 <= from <= p,
        p + 2 <= b.len(),
        b[p] == 10 && b[p + 1] == 10,
        forall|q: int| from <= q < p ==> !(#[trigger] b[q] == 10 && b[q + 1] == 10),
    ensures
        find_sep(b, from) == Some(p),
    decreases p - from,
{
    if from == p {
    } else {
        lemma_find_sep_is(b, from + 1, p);
    }
}

/// The incremental parser: a growing buffer and the index of the first
/// byte not yet consumed by a completed event.
pub struct Parser {
    bytes: Vec<u8>,
    index: usize,
}

impl Parser {
    pub closed spec fn buf_spec(&self) -> Seq<u8> {
        self.bytes@
    }

    pub closed spec fn idx_spec(&self) -> int {
        self.index as int
    }

    pub closed spec fn wf(&self) -> bool {
        self.index <= self.bytes@.len()
    }

    pub fn new() -> (r: Parser)
        ensures
            r.wf(),
            r.buf_spec() == Seq::<u8>::empty(),
            r.idx_spec() == 0,
    {
        Parser { bytes: Vec::new(), index: 0 }
    }

    /// Feeds a chunk into the parser and returns all events whose blocks
    /// are now complete.  On success the parser has consumed every
    /// completed block; a block with an unexpected line or invalid UTF-8
    /// fails the call.
    #[verifier::loop_isolation(false)]
    #[verifier::rlimit(100)]
    pub fn process(&mut self, chunk: &[u8]) -> (r: Result<Vec<RawEvent>, SseError>)
        requires
            old(self).wf(),
        ensures
            final(self).wf(),
            final(self).buf_spec() == old(self).buf_spec() + chunk@,
            ({
                let sp = split_blocks(final(self).buf_spec(), old(self).idx_spec());
                r matches Ok(evs) ==> final(self).idx_spec() == sp.end && evs@.len()
                    == sp.blocks.len() && (forall|k: int|
                    0 <= k < sp.blocks.len() ==> event_matches(evs@[k], sp.blocks[k]))
            }),
            ({
                let sp = split_blocks(final(self).buf_spec(), old(self).idx_spec());
                r is Err ==> exists|k: int| 0 <= k < sp.blocks.len() && !block_ok(sp.blocks[k])
            }),
    {
        let mut part: Vec<u8> = Vec::new();
        part.extend_from_slice(chunk);
        self.bytes.append(&mut part);
        let ghost buf = self.bytes@;
        let ghost idx0 = self.idx_spec();
        let mut events: Vec<RawEvent> = Vec::new();
        let n = self.bytes.len();
        loop
            invariant
                self.bytes@ == buf,
                n == buf.len(),
                idx0 <= self.index <= n,
                ({
                    let sp0 = split_blocks(buf, idx0);
                    let sp = split_blocks(buf, self.idx_spec());
                    &&& sp0.end == sp.end
                    &&& sp0.blocks.len() == events@.len() + sp.blocks.len()
                    &&& forall|k: int|
                        0 <= k < events@.len() ==> event_matches(
                            events@[k],
                            #[trigger] sp0.blocks[k],
                        )
                    &&& forall|k: int|
                        events@.len() <= k < sp0.blocks.len() ==> #[trigger] sp0.blocks[k]
                            == sp.blocks[k - events@.len()]
                }),
            decreases n - self.index,
        {
            let ghost idx_here = self.idx_spec();
            let sep = self.find_sep_exec();
            match sep {
                Option::None => {
                    proof {
                        let sp0 = split_blocks(buf, idx0);
                        let sp = split_blocks(buf, idx_here);
                        assert(sp.blocks =~= Seq::<Seq<u8>>::empty());
                    }
                    return Result::Ok(events);
                },
                Option::Some(pos) => {
                    let block = crate::strutil::copy_byte_range(&self.bytes, self.index, pos);
                    let ev = match Self::parse_sse_event(block.as_slice()) {
                        Result::Ok(ev) => ev,
                        Result::Err(e) => {
                            proof {
                                let sp0 = split_blocks(buf, idx0);
                                let sp = split_blocks(buf, idx_here);
                                assert(sp.blocks == seq![buf.subrange(idx_here, pos as int)]
                                    + split_blocks(buf, pos + 2).blocks);
                                assert(sp.blocks.len() >= 1);
                                assert(sp.blocks[0] == block@);
                                assert(sp0.blocks.len() > events@.len());
                                assert(sp0.blocks[events@.len() as int] == sp.blocks[0]);
                                assert(!block_ok(block@));
                                assert(!block_ok(sp0.blocks[events@.len() as int]));
                                let spf = split_blocks(self.buf_spec(), old(self).idx_spec());
                                assert(spf == split_blocks(buf, idx0));
                                assert(0 <= events@.len() < spf.blocks.len() && !block_ok(
                                    spf.blocks[events@.len() as int],
                                ));
                                assert(exists|k: int|
                                    0 <= k < spf.blocks.len() && !block_ok(spf.blocks[k]));
                            }
                            return Result::Err(e);
                        },
                    };
                    proof {
                        let sp_here = split_blocks(buf, idx_here);
                        let sp_next = split_blocks(buf, pos + 2);
                        let ne = events@.len() as int;
                        let sp0 = split_blocks(buf, idx0);
                        assert(sp_here.blocks == seq![buf.subrange(idx_here, pos as int)]
                            + sp_next.blocks);
                        assert(sp_here.end == sp_next.end);
                        assert(sp_here.blocks[0] == block@);
                        assert(block_ok(block@) && event_matches(ev, block@)) by {
                            if !block_ok(block@) {
                                assert(false);
                            }
                        }
                        assert(sp0.blocks[ne] == sp_here.blocks[0]);
                        assert(event_matches(ev, sp0.blocks[ne]));
                        assert(forall|k: int|
                            ne + 1 <= k < sp0.blocks.len() ==> #[trigger] sp0.blocks[k]
                                == sp_here.blocks[k - ne] && sp_here.blocks[k - ne]
                                == sp_next.blocks[k - ne - 1]);
                    }
                    events.push(ev);
                    self.index = pos + 2;
                },
            }
        }
    }

    /// Looks for the next blank-line separator from the current index.
    fn find_sep_exec(&self) -> (r: Option<usize>)
        requires
            self.wf(),
        ensures
            match r {
                Some(p) => find_sep(self.buf_spec(), self.idx_spec()) == Some(p as int)
                    && self.idx_spec() <= p && p + 2 <= self.buf_spec().len(),
                None => find_sep(self.buf_spec(), self.idx_spec()) is None,
            },
    {
        let n = self.bytes.len();
        if n < 2 {
            proof {
                lemma_find_sep_props(self.buf_spec(), self.idx_spec());
                match find_sep(self.buf_spec(), self.idx_spec()) {
                    Option::Some(p) => {
                        assert(false);
                    },
                    Option::None => {},
                }
            }
            return None;
        }
        let mut q = self.index;
        while q <= n - 2
            invariant
                self.index <= q,
                n == self.buf_spec().len(),
                2 <= n,
                forall|j: int|
                    self.idx_spec() <= j < q ==> !(#[trigger] self.buf_spec()[j] == 10
                        && self.buf_spec()[j + 1] == 10),
            decreases n - q,
        {
            if self.bytes[q] == 10 && self.bytes[q + 1] == 10 {
                proof {
                    lemma_find_sep_is(self.buf_spec(), self.idx_spec(), q as int);
                }
                return Some(q);
            }
            q += 1;
        }
        proof {
            lemma_find_sep_props(self.buf_spec(), self.idx_spec());
            match find_sep(self.buf_spec(), self.idx_spec()) {
                Option::Some(p) => {
                    assert(false);
                },
                Option::None => {},
            }
        }
        None
    }

    /// Parses any remaining bytes as a final event, even without a closing
    /// blank line; a leftover that does not parse is left in place.
    pub fn parse_remaining(&mut self) -> (r: Option<RawEvent>)
        requires
            old(self).wf(),
        ensures
            final(self).wf(),
            final(self).buf_spec() == old(self).buf_spec(),
            old(self).idx_spec() >= old(self).buf_spec().len() ==> r is None && final(self).idx_spec() == old(self).idx_spec(),
            old(self).idx_spec() < old(self).buf_spec().len() ==> {
                let rest = old(self).buf_spec().skip(old(self).idx_spec());
                if block_ok(rest) {
                    r matches Some(ev) && event_matches(ev, rest) && final(self).idx_spec()
                        == final(self).buf_spec().len()
                } else {
                    r is None && final(self).idx_spec() == old(self).idx_spec()
                }
            },
    {
        let n = self.bytes.len();
        if self.index >= n {
            return None;
        }
        let block = crate::strutil::copy_byte_range(&self.bytes, self.index, n);
        match Self::parse_sse_event(block.as_slice()) {
            Result::Ok(ev) => {
                self.index = n;
                Some(ev)
            },
            Result::Err(_) => None,
        }
    }


    /// Applies one line (already delimited and stripped of a trailing
    /// carriage return) to the running event state.
    fn consume_line(
        buf: &[u8],
        i: usize,
        line_hi: usize,
        et: &mut Option<Vec<u8>>,
        data: &mut Vec<u8>,
        Ghost(line): Ghost<Seq<u8>>,
    ) -> (ok: bool)
        requires
            i <= line_hi <= buf@.len(),
            line == buf@.subrange(i as int, line_hi as int),
        ensures
            match apply_line(line, opt_view(*old(et)), old(data)@) {
                Option::None => !ok && *final(et) == *old(et) && final(data)@ == old(data)@,
                Option::Some((et2, data2)) => ok && opt_view(*final(et)) == et2 && final(data)@
                    == data2,
            },
    {
        let is_event = line_hi - i >= 7 && buf[i] == 101u8 && buf[i + 1] == 118u8 && buf[i + 2]
            == 101u8 && buf[i + 3] == 110u8 && buf[i + 4] == 116u8 && buf[i + 5] == 58u8 && buf[i
            + 6] == 32u8;
        let is_data = !is_event && line_hi - i >= 6 && buf[i] == 100u8 && buf[i + 1] == 97u8
            && buf[i + 2] == 116u8 && buf[i + 3] == 97u8 && buf[i + 4] == 58u8 && buf[i + 5]
            == 32u8;
        proof {
            assert(line.len() == line_hi - i);
            if is_event {
                assert(line.take(7) =~= event_prefix());
            } else {
                if line.len() >= 7 && line.take(7) == event_prefix() {
                    assert(line[0] == 101u8 && line[1] == 118u8 && line[2] == 101u8 && line[3]
                        == 110u8 && line[4] == 116u8 && line[5] == 58u8 && line[6] == 32u8);
                    assert(false);
                }
                if is_data {
                    assert(line.take(6) =~= data_prefix());
                } else if line.len() >= 6 && line.take(6) == data_prefix() {
                    assert(line[0] == 100u8 && line[1] == 97u8 && line[2] == 116u8 && line[3]
                        == 97u8 && line[4] == 58u8 && line[5] == 32u8);
                    assert(false);
                }
            }
        }
        if is_event {
            let t = crate::strutil::copy_byte_range_slice(buf, i + 7, line_hi);
            proof {
                assert(t@ =~= line.skip(7));
            }
            *et = Some(t);
            true
        } else if is_data {
            let ghost data0 = data@;
            if data.len() > 0 {
                data.push(10u8);
            }
            let mut payload = crate::strutil::copy_byte_range_slice(buf, i + 6, line_hi);
            proof {
                assert(payload@ =~= line.skip(6));
            }
            data.append(&mut payload);
            proof {
                if data0.len() == 0 {
                    assert(data@ =~= line.skip(6));
                } else {
                    assert(data@ =~= data0 + seq![10u8] + line.skip(6));
                }
            }
            true
        } else {
            false
        }
    }

    /// Parses a single raw event block: its lines set the event type or
    /// extend the data payload.
    #[verifier::loop_isolation(false)]
    #[verifier::rlimit(100)]
    fn parse_sse_event(buf: &[u8]) -> (r: Result<RawEvent, SseError>)
        ensures
            block_ok(buf@) ==> (r matches Ok(ev) && event_matches(ev, buf@)),
            !block_ok(buf@) ==> r is Err,
    {
        let n = buf.len();
        let mut i: usize = 0;
        let mut et: Option<Vec<u8>> = None;
        let mut data: Vec<u8> = Vec::new();
        proof {
            assert(buf@.skip(0) =~= buf@);
        }
        while i < n
            invariant
                i <= n,
                n == buf@.len(),
                parse_event_spec(buf@) == parse_lines(buf@.skip(i as int), opt_view(et), data@),
            decreases n - i,
        {
            let ghost rest0 = buf@.skip(i as int);
            let ghost et0 = opt_view(et);
            let ghost data0 = data@;
            // find the end of the current line
            let mut j = i;
            while j < n && buf[j] != 10
                invariant
                    i <= j <= n,
                    forall|m: int| i <= m < j ==> buf@[m] != 10,
                decreases n - j,
            {
                j += 1;
            }
            proof {
                lemma_line_end_is(buf@, i as int, j as int);
                lemma_line_end_shift(buf@, i as int, j as int);
                assert(line_end(rest0, 0) == j - i);
            }
            // the line, without a trailing carriage return
            let mut line_hi = j;
            if line_hi > i && buf[line_hi - 1] == 13 {
                line_hi -= 1;
            }
            let ghost line = strip_cr(rest0.take(j - i));
            proof {
                assert(rest0.take(j - i) =~= buf@.subrange(i as int, j as int));
                assert(line =~= buf@.subrange(i as int, line_hi as int));
                if j == n {
                    assert(rest0.take(j - i) =~= rest0);
                }
            }
            let ok = Self::consume_line(buf, i, line_hi, &mut et, &mut data, Ghost(line));
            if !ok {
                proof {
                    assert(apply_line(line, et0, data0) is None);
                    if j < n {
                        assert(parse_lines(rest0, et0, data0) is None);
                    } else {
                        assert(strip_cr(rest0) == line);
                        assert(parse_lines(rest0, et0, data0) is None);
                    }
                    assert(parse_event_spec(buf@) is None);
                }
                return Result::Err(SseError::UnexpectedLine);
            }
            proof {
                let et1 = opt_view(et);
                let data1 = data@;
                assert(apply_line(line, et0, data0) == Some((et1, data1)));
                if j < n {
                    assert(rest0.skip(j - i + 1) =~= buf@.skip(j + 1));
                    assert(parse_lines(rest0, et0, data0) == parse_lines(
                        buf@.skip(j + 1),
                        et1,
                        data1,
                    ));
                } else {
                    assert(strip_cr(rest0) == line);
                    assert(parse_lines(rest0, et0, data0) == Some((et1, data1)));
                    assert(buf@.skip(n as int) =~= Seq::<u8>::empty());
                    assert(parse_lines(buf@.skip(n as int), et1, data1) == Some((et1, data1)));
                }
            }
            if j < n {
                i = j + 1;
            } else {
                i = n;
            }
        }
        proof {
            assert(buf@.skip(n as int) =~= Seq::<u8>::empty());
        }
        let event_type = match et {
            Option::Some(t) => {
                match bytes_to_string(t) {
                    Option::Some(s) => Some(s),
                    Option::None => {
                        return Result::Err(SseError::InvalidUtf8);
                    },
                }
            },
            Option::None => None,
        };
        let data_s = match bytes_to_string(data) {
            Option::Some(s) => s,
            Option::None => {
                return Result::Err(SseError::InvalidUtf8);
            },
        };
        Result::Ok(RawEvent { event_type, data: data_s })
    }
}

proof fn lemma_line_end_is(b: Seq<u8>, from: int, j: int)
    requires
        0 <= from <= j <= b.len(),
        forall|m: int| from <= m < j ==> b[m] != 10,
        j < b.len() ==> b[j] == 10,
    ensures
        line_end(b, from) == j,
    decreases j - from,
{
    if from == j {
    } else {
        lemma_line_end_is(b, from + 1, j);
    }
}

proof fn lemma_line_end_shift(b: Seq<u8>, i: int, j: int)
    requires
        0 <= i <= j <= b.len(),
        line_end(b, i) == j,
        forall|m: int| i <= m < j ==> b[m] != 10,
        j < b.len() ==> b[j] == 10,
    ensures
        line_end(b.skip(i), 0) == j - i,
{
    let rest = b.skip(i);
    assert(forall|m: int| 0 <= m < j - i ==> rest[m] != 10);
    if j - i < rest.len() {
        assert(rest[j - i] == b[j]);
    }
    lemma_line_end_is(rest, 0, j - i);
}

#[derive(Debug)]
pub struct MessageInfo {
    pub id: String,
    pub message_type: String,
    pub role: String,
    pub model: String,
    pub stop_reason: Option<String>,
    pub stop_sequence: Option<String>,
    pub usage: Usage,
}

#[derive(Debug)]
pub struct ContentBlockStart {
    pub index: usize,
    pub content_block: ContentBlock,
}

#[derive(Debug)]
pub struct ContentBlock {
    pub block_type: String,
    pub text: String,
}

#[derive(Debug)]
pub struct ContentBlockDelta {
    pub index: usize,
    pub delta: TextDelta,
}

#[derive(Debug)]
pub struct TextDelta {
    pub delta_type: String,
    pub text: String,
}

#[derive(Debug)]
pub struct ContentBlockStop {
    pub index: usize,
}

#[derive(Debug)]
pub struct MessageDelta {
    pub delta: MessageDeltaInner,
    pub usage: Usage,
}

#[derive(Debug)]
pub struct MessageDeltaInner {
    pub stop_reason: Option<String>,
    pub stop_sequence: Option<String>,
}

#[derive(Debug, Clone, Copy)]
pub struct Usage {
    pub input_tokens: Option<usize>,
    pub output_tokens: Option<usize>,
}

#[derive(Debug)]
pub struct ErrorEvent {
    pub error: InnerError,
}

#[derive(Debug)]
pub struct InnerError {
    pub error_type: String,
    pub message: String,
}

} // verus!
