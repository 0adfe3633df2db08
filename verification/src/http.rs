//! The incremental HTTP/1.1 response parser.
//!
//! The parser owns the union of all bytes ever fed and a single absolute
//! cursor into it.  Each feeding of a fragment advances an internal state
//! machine as far as the buffered bytes allow, distinguishing "need more
//! data" (wait for the next fragment) from "malformed" (a sticky, terminal
//! failure).
//!
//! The behaviour is specified by a ghost model: `model_of` runs the whole
//! state machine, as a mathematical function, over the concatenation of all
//! fed bytes.  `HttpParser::parse` guarantees that the concrete state always
//! equals that model, so what the parser produces depends only on the bytes
//! fed, never on how they were split into fragments.

use vstd::prelude::*;

use crate::bytes::{
    is_digit, parse_dec, lower, find_pair, lemma_find_pair_some, lemma_find_pair_prefix,
    lemma_dec_val_nonneg, find_pair_in, copy_range, to_lower, parse_dec_bytes, bytes_eq,
};
use crate::headers::HeaderMap;

verus! {

/// The ways parsing can fail.  A failure is sticky: once one is reported,
/// every later operation reports the same one.
#[derive(Clone, Copy, PartialEq, Eq, Structural, Debug)]
pub enum ParseError {
    /// The literal `"HTTP/1.1 "` prefix, or the space after the status code,
    /// did not match.
    BadLiteral,
    /// One of the three status-code characters is not an ASCII digit.
    BadStatusDigit,
    /// A non-empty header line has no `": "` separator.
    BadHeader,
    /// The `content-length` value is not a base-10 number that fits a `usize`.
    BadContentLength,
    /// Headers ended, a body is wanted, and neither `content-length` nor
    /// `transfer-encoding` is present.
    MissingContentLength,
    /// A `transfer-encoding` header is present; chunked bodies are not
    /// supported.
    UnsupportedTransferEncoding,
    /// The byte source ended before parsing was complete.
    UnexpectedEof,
}

/// Abstract value of a parsed response.
pub ghost struct ParsedModel {
    pub code: Option<int>,
    pub msg: Option<Seq<u8>>,
    pub headers: Map<Seq<u8>, Seq<u8>>,
    pub body: Option<Seq<u8>>,
}

/// Abstract state of the parser over the whole fed byte sequence.
pub ghost struct Model {
    /// How many of the fed bytes have been consumed.
    pub pos: int,
    /// The response assembled so far.
    pub parsed: ParsedModel,
    /// The blank line ending the header section has been consumed.
    pub end_headers: bool,
    /// Declared body length, once `content-length` has been read.
    pub content_length: Option<int>,
    /// The sticky failure, if any.
    pub error: Option<ParseError>,
}

/// The step the state machine will attempt next.
pub ghost enum Mode {
    StatusCode,
    Reason,
    Header,
    Body,
    Complete,
    Failed,
}

/// The bytes of the literal `"HTTP/1.1 "`.
pub open spec fn http_prefix() -> Seq<u8> {
    seq![72u8, 84, 84, 80, 47, 49, 46, 49, 32]
}

/// The bytes of the normalized header name `"transfer-encoding"`.
pub open spec fn te_name() -> Seq<u8> {
    seq![116u8, 114, 97, 110, 115, 102, 101, 114, 45, 101, 110, 99, 111, 100, 105, 110, 103]
}

/// The bytes of the normalized header name `"content-length"`.
pub open spec fn cl_name() -> Seq<u8> {
    seq![99u8, 111, 110, 116, 101, 110, 116, 45, 108, 101, 110, 103, 116, 104]
}

pub open spec fn init_model() -> Model {
    Model {
        pos: 0,
        parsed: ParsedModel { code: None, msg: None, headers: Map::empty(), body: None },
        end_headers: false,
        content_length: None,
        error: None,
    }
}

pub open spec fn mode_of(rb: bool, m: Model) -> Mode {
    if m.error.is_some() {
        Mode::Failed
    } else if m.parsed.code.is_none() {
        Mode::StatusCode
    } else if m.parsed.msg.is_none() {
        Mode::Reason
    } else if !m.end_headers {
        Mode::Header
    } else if rb && m.parsed.body.is_none() {
        Mode::Body
    } else {
        Mode::Complete
    }
}

pub open spec fn rank(rb: bool, m: Model) -> int {
    match mode_of(rb, m) {
        Mode::StatusCode => 4,
        Mode::Reason => 3,
        Mode::Header => 2,
        Mode::Body => 1,
        Mode::Complete => 0,
        Mode::Failed => 0,
    }
}

pub open spec fn fail_with(m: Model, e: ParseError) -> Model {
    Model { error: Some(e), ..m }
}

/// The status-line step: the literal prefix, three digits checked eagerly
/// left to right, a space; on success the code is stored and 13 bytes are
/// consumed.  `None` means the buffered tail is too short to decide.
pub open spec fn step_status(all: Seq<u8>, m: Model) -> Option<Model> {
    let t = all.skip(m.pos);
    if t.len() < 9 {
        None
    } else if t.take(9) != http_prefix() {
        Some(fail_with(m, ParseError::BadLiteral))
    } else if t.len() >= 10 && !is_digit(t[9]) {
        Some(fail_with(m, ParseError::BadStatusDigit))
    } else if t.len() >= 11 && !is_digit(t[10]) {
        Some(fail_with(m, ParseError::BadStatusDigit))
    } else if t.len() >= 12 && !is_digit(t[11]) {
        Some(fail_with(m, ParseError::BadStatusDigit))
    } else if t.len() < 13 {
        None
    } else if t[12] != 32 {
        Some(fail_with(m, ParseError::BadLiteral))
    } else {
        Some(
            Model {
                pos: m.pos + 13,
                parsed: ParsedModel {
                    code: Some(100 * (t[9] - 48) + 10 * (t[10] - 48) + (t[11] - 48)),
                    ..m.parsed
                },
                ..m
            },
        )
    }
}

/// The reason-phrase step: everything before the first CR-LF becomes the
/// reason phrase.
pub open spec fn step_reason(all: Seq<u8>, m: Model) -> Option<Model> {
    let t = all.skip(m.pos);
    match find_pair(t, 13, 10) {
        None => None,
        Some(i) => Some(
            Model {
                pos: m.pos + i + 2,
                parsed: ParsedModel { msg: Some(t.take(i)), ..m.parsed },
                ..m
            },
        ),
    }
}

/// One header step: a non-empty line is split on the first `": "` and
/// recorded under its lower-cased name; the blank line ends the section and
/// decides how the body length is obtained.
pub open spec fn step_header(rb: bool, all: Seq<u8>, m: Model) -> Option<Model> {
    let t = all.skip(m.pos);
    match find_pair(t, 13, 10) {
        None => None,
        Some(i) => {
            let line = t.take(i);
            if i == 0 {
                let m2 = Model { end_headers: true, ..m };
                if !rb {
                    Some(Model { pos: m.pos + 2, ..m2 })
                } else if m.parsed.headers.contains_key(te_name()) {
                    Some(fail_with(m2, ParseError::UnsupportedTransferEncoding))
                } else if m.parsed.headers.contains_key(cl_name()) {
                    match parse_dec(m.parsed.headers[cl_name()]) {
                        Some(n) => Some(
                            Model { pos: m.pos + 2, content_length: Some(n), ..m2 },
                        ),
                        None => Some(fail_with(m2, ParseError::BadContentLength)),
                    }
                } else {
                    Some(fail_with(m2, ParseError::MissingContentLength))
                }
            } else {
                match find_pair(line, 58, 32) {
                    Some(j) => Some(
                        Model {
                            pos: m.pos + i + 2,
                            parsed: ParsedModel {
                                headers: m.parsed.headers.insert(
                                    lower(line.take(j)),
                                    line.skip(j + 2),
                                ),
                                ..m.parsed
                            },
                            ..m
                        },
                    ),
                    None => Some(fail_with(m, ParseError::BadHeader)),
                }
            }
        },
    }
}

/// The body step: waits until `content_length` bytes are buffered past the
/// cursor, then stores exactly those bytes as the body.
pub open spec fn step_body(all: Seq<u8>, m: Model) -> Option<Model> {
    let t = all.skip(m.pos);
    match m.content_length {
        None => Some(fail_with(m, ParseError::MissingContentLength)),
        Some(n) => if t.len() < n {
            None
        } else {
            Some(
                Model {
                    pos: m.pos + n,
                    parsed: ParsedModel { body: Some(t.take(n)), ..m.parsed },
                    ..m
                },
            )
        },
    }
}

/// One advancement attempt of the state machine.  `None` means no further
/// progress is possible on `all`: either more bytes are needed, or the
/// parser is complete or failed.
pub open spec fn next_model(rb: bool, all: Seq<u8>, m: Model) -> Option<Model> {
    match mode_of(rb, m) {
        Mode::StatusCode => step_status(all, m),
        Mode::Reason => step_reason(all, m),
        Mode::Header => step_header(rb, all, m),
        Mode::Body => step_body(all, m),
        Mode::Complete => None,
        Mode::Failed => None,
    }
}

/// Sanity of a model with respect to the fed bytes.
pub open spec fn model_ok(all: Seq<u8>, m: Model) -> bool {
    &&& 0 <= m.pos <= all.len()
    &&& match m.content_length {
        Some(n) => 0 <= n,
        None => true,
    }
}

pub proof fn lemma_next_model_bounds(rb: bool, all: Seq<u8>, m: Model)
    requires
        model_ok(all, m),
        next_model(rb, all, m).is_some(),
    ensures
        model_ok(all, next_model(rb, all, m).unwrap()),
        m.pos <= next_model(rb, all, m).unwrap().pos,
        next_model(rb, all, m).unwrap().pos == m.pos ==> rank(rb, next_model(rb, all, m).unwrap())
            < rank(rb, m),
{
    let t = all.skip(m.pos);
    assert(t.len() == all.len() - m.pos);
    match mode_of(rb, m) {
        Mode::StatusCode => {
        },
        Mode::Reason => {
            if find_pair(t, 13, 10).is_some() {
                lemma_find_pair_some(t, 13, 10);
            }
        },
        Mode::Header => {
            if find_pair(t, 13, 10).is_some() {
                lemma_find_pair_some(t, 13, 10);
                let i = find_pair(t, 13, 10).unwrap();
                if i == 0 && rb && !m.parsed.headers.contains_key(te_name())
                    && m.parsed.headers.contains_key(cl_name()) {
                    let v = m.parsed.headers[cl_name()];
                    if parse_dec(v).is_some() {
                        lemma_dec_val_nonneg(v);
                    }
                }
            }
        },
        Mode::Body => {
        },
        Mode::Complete => {
        },
        Mode::Failed => {
        },
    }
}

/// Run the state machine over `all` from state `m` until it can make no
/// further progress.
pub open spec fn run_from(rb: bool, all: Seq<u8>, m: Model) -> Model
    decreases all.len() - m.pos, rank(rb, m),
        when model_ok(all, m)
        via run_from_dec
{
    match next_model(rb, all, m) {
        None => m,
        Some(m2) => run_from(rb, all, m2),
    }
}

#[via_fn]
proof fn run_from_dec(rb: bool, all: Seq<u8>, m: Model) {
    if next_model(rb, all, m).is_some() {
        lemma_next_model_bounds(rb, all, m);
    }
}

/// The parser state determined by the bytes fed so far — the specification
/// of the whole parser.
pub open spec fn model_of(rb: bool, all: Seq<u8>) -> Model {
    run_from(rb, all, init_model())
}

/// A step taken on a prefix of the input is taken identically on the whole
/// input: a decision never depends on bytes beyond those it consumed.
pub proof fn lemma_next_model_prefix(rb: bool, all1: Seq<u8>, all2: Seq<u8>, m: Model)
    requires
        model_ok(all1, m),
        all1.len() <= all2.len(),
        all1 == all2.take(all1.len() as int),
        next_model(rb, all1, m).is_some(),
    ensures
        next_model(rb, all2, m) == next_model(rb, all1, m),
{
    let t1 = all1.skip(m.pos);
    let t2 = all2.skip(m.pos);
    assert(t1.len() == all1.len() - m.pos);
    assert(t2.len() == all2.len() - m.pos);
    assert(forall|k: int| 0 <= k < t1.len() ==> t1[k] == t2[k]);
    assert(t1 == t2.take(t1.len() as int)) by {
        assert(t1 =~= t2.take(t1.len() as int));
    }
    match mode_of(rb, m) {
        Mode::StatusCode => {
            assert(t1.len() >= 9);
            assert(t1.take(9) =~= t2.take(9));
            if t1.take(9) != http_prefix() {
            } else if t1.len() >= 10 && !is_digit(t1[9]) {
            } else if t1.len() >= 11 && !is_digit(t1[10]) {
            } else if t1.len() >= 12 && !is_digit(t1[11]) {
            } else {
                assert(t1.len() >= 13);
                assert(step_status(all2, m) == step_status(all1, m));
            }
        },
        Mode::Reason => {
            lemma_find_pair_prefix(t1, t2, 13, 10);
            let i = find_pair(t1, 13, 10).unwrap();
            lemma_find_pair_some(t1, 13, 10);
            assert(t1.take(i) =~= t2.take(i));
        },
        Mode::Header => {
            lemma_find_pair_prefix(t1, t2, 13, 10);
            let i = find_pair(t1, 13, 10).unwrap();
            lemma_find_pair_some(t1, 13, 10);
            assert(t1.take(i) =~= t2.take(i));
        },
        Mode::Body => {
            match m.content_length {
                None => {
                },
                Some(n) => {
                    if t1.len() >= n {
                        assert(t1.take(n) =~= t2.take(n));
                    }
                },
            }
        },
        Mode::Complete => {
        },
        Mode::Failed => {
        },
    }
}

/// Running to quiescence on a prefix and then on the whole input reaches the
/// same state as running on the whole input directly.
pub proof fn lemma_run_extend(rb: bool, all1: Seq<u8>, all2: Seq<u8>, m: Model)
    requires
        model_ok(all1, m),
        all1.len() <= all2.len(),
        all1 == all2.take(all1.len() as int),
    ensures
        run_from(rb, all2, run_from(rb, all1, m)) == run_from(rb, all2, m),
    decreases all1.len() - m.pos, rank(rb, m),
{
    match next_model(rb, all1, m) {
        None => {
        },
        Some(m2) => {
            lemma_next_model_prefix(rb, all1, all2, m);
            lemma_next_model_bounds(rb, all1, m);
            lemma_run_extend(rb, all1, all2, m2);
        },
    }
}

/// Running preserves model sanity and never moves the cursor backwards.
pub proof fn lemma_run_from_ok(rb: bool, all: Seq<u8>, m: Model)
    requires
        model_ok(all, m),
    ensures
        model_ok(all, run_from(rb, all, m)),
        m.pos <= run_from(rb, all, m).pos,
    decreases all.len() - m.pos, rank(rb, m),
{
    match next_model(rb, all, m) {
        None => {
        },
        Some(m2) => {
            lemma_next_model_bounds(rb, all, m);
            lemma_run_from_ok(rb, all, m2);
        },
    }
}

/// Law: feeding is resumable.  The state determined by the whole input is
/// the state determined by any prefix, advanced over the whole input.
/// Together with `parse`'s postcondition this says that the outcome of
/// parsing depends only on the concatenation of the fed fragments, never on
/// where they were split.
pub proof fn lemma_parse_resume(rb: bool, all1: Seq<u8>, all2: Seq<u8>)
    requires
        all1.len() <= all2.len(),
        all1 == all2.take(all1.len() as int),
    ensures
        run_from(rb, all2, model_of(rb, all1)) == model_of(rb, all2),
{
    lemma_run_extend(rb, all1, all2, init_model());
}

/// Law: fragmentation invariance.  Feeding `c1` and then `c2` leaves the
/// parser in the state that the single fragment `c1 + c2` determines: by
/// `parse`'s postcondition the state after the two calls is
/// `model_of(rb, c1 + c2)`, whatever the split — including one byte at a
/// time.
pub proof fn lemma_fragmentation_invariance(rb: bool, c1: Seq<u8>, c2: Seq<u8>)
    ensures
        run_from(rb, c1 + c2, model_of(rb, c1)) == model_of(rb, c1 + c2),
{
    assert(c1 =~= (c1 + c2).take(c1.len() as int));
    lemma_parse_resume(rb, c1, c1 + c2);
}

/// Law: when the blank line ends the headers while a body is wanted, and
/// neither `content-length` nor `transfer-encoding` was recorded, the
/// parser fails with `MissingContentLength`; the failure is terminal and no
/// body is ever produced.
pub proof fn lemma_missing_length_fatal(all: Seq<u8>, m: Model)
    requires
        model_ok(all, m),
        mode_of(true, m) is Header,
        find_pair(all.skip(m.pos), 13, 10) == Some(0int),
        !m.parsed.headers.contains_key(te_name()),
        !m.parsed.headers.contains_key(cl_name()),
    ensures
        run_from(true, all, m) == fail_with(
            Model { end_headers: true, ..m },
            ParseError::MissingContentLength,
        ),
        run_from(true, all, m).parsed.body is None ==> m.parsed.body is None,
        run_from(true, all, m).parsed.body == m.parsed.body,
{
    let m2 = fail_with(Model { end_headers: true, ..m }, ParseError::MissingContentLength);
    assert(next_model(true, all, m) == Some(m2));
    assert(next_model(true, all, m2) is None);
    assert(run_from(true, all, m2) == m2);
}

/// Law: a non-empty header line without the `": "` separator fails the
/// parser with `BadHeader`, terminally.
pub proof fn lemma_bad_header_fatal(rb: bool, all: Seq<u8>, m: Model, i: int)
    requires
        model_ok(all, m),
        mode_of(rb, m) is Header,
        find_pair(all.skip(m.pos), 13, 10) == Some(i),
        i != 0,
        find_pair(all.skip(m.pos).take(i), 58, 32) is None,
    ensures
        run_from(rb, all, m) == fail_with(m, ParseError::BadHeader),
{
    let m2 = fail_with(m, ParseError::BadHeader);
    assert(next_model(rb, all, m) == Some(m2));
    assert(next_model(rb, all, m2) is None);
    assert(run_from(rb, all, m2) == m2);
}

/// Law: in headers-only mode the parser is complete as soon as the headers
/// are terminated: nothing further is consumed, whatever bytes remain
/// buffered, and continuing is not asked for.
pub proof fn lemma_headers_only_stops(all: Seq<u8>, m: Model)
    requires
        model_ok(all, m),
        m.error is None,
        m.parsed.code is Some,
        m.parsed.msg is Some,
        m.end_headers,
    ensures
        run_from(false, all, m) == m,
        !spec_should_continue(false, m),
{
    assert(mode_of(false, m) is Complete);
    assert(next_model(false, all, m) is None);
}

/// Fields are filled in order and the declared length only appears once the
/// headers have ended: the shape every reachable state has.
pub open spec fn model_monotone(m: Model) -> bool {
    &&& m.parsed.msg.is_some() ==> m.parsed.code.is_some()
    &&& (forall|k: Seq<u8>|
        m.parsed.headers.contains_key(k) ==> m.parsed.code.is_some() && m.parsed.msg.is_some())
    &&& m.parsed.body.is_some() ==> m.end_headers
    &&& m.content_length.is_some() ==> m.end_headers
}

proof fn lemma_run_monotone(rb: bool, all: Seq<u8>, m: Model)
    requires
        model_ok(all, m),
        model_monotone(m),
    ensures
        model_monotone(run_from(rb, all, m)),
    decreases all.len() - m.pos, rank(rb, m),
{
    match next_model(rb, all, m) {
        None => {
        },
        Some(m2) => {
            lemma_next_model_bounds(rb, all, m);
            assert(model_monotone(m2));
            lemma_run_monotone(rb, all, m2);
        },
    }
}

/// Law: construction is ordered.  In every state the fed bytes can put the
/// parser in, the reason phrase is only set once the status code is, no
/// header is recorded before both are, and neither the body nor the
/// declared body length appears before the headers are terminated.
pub proof fn lemma_model_of_monotone(rb: bool, all: Seq<u8>)
    ensures
        model_monotone(model_of(rb, all)),
{
    lemma_run_monotone(rb, all, init_model());
}

/// The accumulated result of parsing: status code, reason phrase, header
/// mapping and optional body.  Reason, header values and body are byte
/// strings extracted byte-exactly from the input.
pub struct HttpParsed {
    pub code: Option<i32>,
    pub msg: Option<Vec<u8>>,
    pub headers: HeaderMap,
    pub body: Option<Vec<u8>>,
}

impl View for HttpParsed {
    type V = ParsedModel;

    open spec fn view(&self) -> ParsedModel {
        ParsedModel {
            code: match self.code {
                Some(c) => Some(c as int),
                None => None,
            },
            msg: match self.msg {
                Some(ref v) => Some(v@),
                None => None,
            },
            headers: self.headers@,
            body: match self.body {
                Some(ref v) => Some(v@),
                None => None,
            },
        }
    }
}

/// The incremental parser: the union of all bytes ever fed, one absolute
/// cursor into it, and the response assembled so far.
pub struct HttpParser {
    combined: Vec<u8>,
    pos: usize,
    parsed: HttpParsed,
    content_length: Option<usize>,
    end_headers: bool,
    error: Option<ParseError>,
    read_body: bool,
    eof_seen: Ghost<bool>,
}

/// Completion target: with a body wanted, parsing continues until the body
/// is present; otherwise only until the headers are terminated.  A failed
/// parser never continues.
pub open spec fn spec_should_continue(rb: bool, m: Model) -> bool {
    if rb {
        m.error.is_none() && m.parsed.body.is_none()
    } else {
        m.error.is_none() && !m.end_headers
    }
}

impl HttpParser {
    /// All bytes fed so far.
    pub closed spec fn fed(self) -> Seq<u8> {
        self.combined@
    }

    /// The configured completion target.
    pub closed spec fn read_body_spec(self) -> bool {
        self.read_body
    }

    /// The sticky failure, if any.
    pub closed spec fn error_spec(self) -> Option<ParseError> {
        self.error
    }

    /// The abstract state denoted by the concrete fields.
    pub closed spec fn model(self) -> Model {
        Model {
            pos: self.pos as int,
            parsed: self.parsed@,
            end_headers: self.end_headers,
            content_length: match self.content_length {
                Some(n) => Some(n as int),
                None => None,
            },
            error: self.error,
        }
    }

    /// The parser invariant: the concrete state is exactly the state that
    /// the fed bytes determine, except that an end-of-stream notification
    /// may have forced the sticky failure.
    pub closed spec fn wf(self) -> bool {
        let m = model_of(self.read_body, self.combined@);
        &&& self.model() == Model { error: self.error, ..m }
        &&& if self.eof_seen@ {
            &&& self.error.is_some()
            &&& (m.error.is_some() ==> self.error == m.error)
            &&& (m.error.is_none() ==> self.error == Some(ParseError::UnexpectedEof))
        } else {
            self.error == m.error
        }
    }

    /// A fresh parser: nothing fed, nothing parsed.  `read_body` configures
    /// whether parsing completes only once the body has been read, or
    /// already when the headers are terminated.
    pub fn init(read_body: bool) -> (r: HttpParser)
        ensures
            r.wf(),
            r.read_body_spec() == read_body,
            r.fed() == Seq::<u8>::empty(),
            r.model() == init_model(),
            r.error_spec() is None,
    {
        let r = HttpParser {
            combined: Vec::new(),
            pos: 0,
            parsed: HttpParsed {
                code: None,
                msg: None,
                headers: HeaderMap::new(),
                body: None,
            },
            content_length: None,
            end_headers: false,
            error: None,
            read_body,
            eof_seen: Ghost(false),
        };
        proof {
            assert(model_ok(r.combined@, init_model()));
            assert(r.combined@.skip(0).len() < 9);
            assert(next_model(read_body, r.combined@, init_model()) is None);
            assert(model_of(read_body, r.combined@) == init_model());
            assert(r.model() == init_model());
        }
        r
    }

    /// Whether the caller should keep feeding bytes: true until the parser
    /// has failed or has reached its configured completion target.
    pub fn should_continue(&self) -> (r: bool)
        ensures
            r == spec_should_continue(self.read_body_spec(), self.model()),
    {
        if self.read_body {
            self.error.is_none() && self.parsed.body.is_none()
        } else {
            self.error.is_none() && !self.end_headers
        }
    }

    /// The byte source ended.  An HTTP response is never validly truncated,
    /// so this forces the sticky failure; an earlier failure is kept and
    /// reported instead.
    pub fn eof(&mut self) -> (r: Result<(), ParseError>)
        requires
            old(self).wf(),
        ensures
            final(self).wf(),
            final(self).fed() == old(self).fed(),
            final(self).read_body_spec() == old(self).read_body_spec(),
            final(self).model().parsed == old(self).model().parsed,
            final(self).model().error == final(self).error_spec(),
            match old(self).error_spec() {
                Some(e) => final(self).error_spec() == Some(e) && r == Err::<(), ParseError>(e),
                None => final(self).error_spec() == Some(ParseError::UnexpectedEof) && r
                    == Err::<(), ParseError>(ParseError::UnexpectedEof),
            },
    {
        self.eof_seen = Ghost(true);
        if self.error.is_none() {
            self.error = Some(ParseError::UnexpectedEof);
        }
        let e = self.error.unwrap();
        Err(e)
    }

    /// Consume the parser, yielding the accumulated response.
    pub fn finalize(self) -> (r: HttpParsed)
        ensures
            r@ == self.model().parsed,
    {
        self.parsed
    }

    /// The status-line step.
    fn step_status_exec(&mut self) -> (r: bool)
        requires
            old(self).error.is_none(),
            old(self).parsed.code.is_none(),
            old(self).pos <= old(self).combined.len(),
        ensures
            final(self).combined@ == old(self).combined@,
            final(self).read_body == old(self).read_body,
            final(self).eof_seen@ == old(self).eof_seen@,
            final(self).pos <= final(self).combined.len(),
            r ==> step_status(old(self).combined@, old(self).model()) == Some(
                final(self).model(),
            ),
            !r ==> final(self).model() == old(self).model() && step_status(
                old(self).combined@,
                old(self).model(),
            ) is None,
    {
        let ghost all = self.combined@;
        let ghost m0 = self.model();
        let ghost t = all.skip(self.pos as int);
        let p = self.pos;
        let n = self.combined.len();
        if n - p < 9 {
            return false;
        }
        let prefv = http_prefix_vec();
        let actual = copy_range(self.combined.as_slice(), p, p + 9);
        proof {
            assert(actual@ =~= t.take(9));
        }
        if !bytes_eq(actual.as_slice(), prefv.as_slice()) {
            self.error = Some(ParseError::BadLiteral);
            return true;
        }
        if p + 9 >= n {
            return false;
        }
        let b0 = self.combined[p + 9];
        proof {
            assert(t[9] == all[p + 9]);
        }
        if !(48 <= b0 && b0 <= 57) {
            self.error = Some(ParseError::BadStatusDigit);
            return true;
        }
        if p + 10 >= n {
            return false;
        }
        let b1 = self.combined[p + 10];
        proof {
            assert(t[10] == all[p + 10]);
        }
        if !(48 <= b1 && b1 <= 57) {
            self.error = Some(ParseError::BadStatusDigit);
            return true;
        }
        if p + 11 >= n {
            return false;
        }
        let b2 = self.combined[p + 11];
        proof {
            assert(t[11] == all[p + 11]);
        }
        if !(48 <= b2 && b2 <= 57) {
            self.error = Some(ParseError::BadStatusDigit);
            return true;
        }
        if p + 12 >= n {
            return false;
        }
        let sp = self.combined[p + 12];
        proof {
            assert(t[12] == all[p + 12]);
        }
        if sp != 32 {
            self.error = Some(ParseError::BadLiteral);
            return true;
        }
        let code: i32 = 100 * ((b0 - 48) as i32) + 10 * ((b1 - 48) as i32) + ((b2 - 48) as i32);
        self.parsed.code = Some(code);
        self.pos = p + 13;
        proof {
            assert(self.model() == step_status(all, m0).unwrap());
        }
        true
    }

    /// The reason-phrase step.
    fn step_reason_exec(&mut self) -> (r: bool)
        requires
            old(self).error.is_none(),
            old(self).parsed.code.is_some(),
            old(self).parsed.msg.is_none(),
            old(self).pos <= old(self).combined.len(),
        ensures
            final(self).combined@ == old(self).combined@,
            final(self).read_body == old(self).read_body,
            final(self).eof_seen@ == old(self).eof_seen@,
            final(self).pos <= final(self).combined.len(),
            r ==> step_reason(old(self).combined@, old(self).model()) == Some(
                final(self).model(),
            ),
            !r ==> final(self).model() == old(self).model() && step_reason(
                old(self).combined@,
                old(self).model(),
            ) is None,
    {
        let ghost all = self.combined@;
        let ghost m0 = self.model();
        let ghost t = all.skip(self.pos as int);
        let p = self.pos;
        let n = self.combined.len();
        proof {
            assert(all.subrange(p as int, n as int) =~= t);
        }
        match find_pair_in(&self.combined, p, n, 13, 10) {
            None => false,
            Some(i) => {
                proof {
                    lemma_find_pair_some(t, 13, 10);
                }
                let msgv = copy_range(self.combined.as_slice(), p, p + i);
                proof {
                    assert(all.subrange(p as int, p + i) =~= t.take(i as int));
                }
                self.parsed.msg = Some(msgv);
                self.pos = p + i + 2;
                proof {
                    assert(self.model() == step_reason(all, m0).unwrap());
                }
                true
            },
        }
    }
    /// Feed one fragment: append it to the fed bytes, then advance the state
    /// machine as far as the buffered bytes allow.  Afterwards the state is
    /// exactly the one the concatenation of all fed bytes determines, so the
    /// outcome is independent of how the input was fragmented.  Returns the
    /// sticky failure if one is hit or was already present, `Ok` otherwise.
    pub fn parse(&mut self, buf: &[u8]) -> (r: Result<(), ParseError>)
        requires
            old(self).wf(),
        ensures
            final(self).wf(),
            final(self).read_body_spec() == old(self).read_body_spec(),
            final(self).model().error == final(self).error_spec(),
            old(self).error_spec().is_some() ==> *final(self) == *old(self) && r == Err::<
                (),
                ParseError,
            >(old(self).error_spec().unwrap()),
            old(self).error_spec().is_none() ==> {
                &&& final(self).fed() == old(self).fed() + buf@
                &&& final(self).model() == model_of(
                    old(self).read_body_spec(),
                    old(self).fed() + buf@,
                )
                &&& final(self).error_spec() == model_of(
                    old(self).read_body_spec(),
                    old(self).fed() + buf@,
                ).error
                &&& match model_of(old(self).read_body_spec(), old(self).fed() + buf@).error {
                    Some(e) => r == Err::<(), ParseError>(e),
                    None => r == Ok::<(), ParseError>(()),
                }
            },
    {
        if self.error.is_some() {
            let e = self.error.unwrap();
            return Err(e);
        }
        let ghost old_all = self.combined@;
        let ghost rb = self.read_body;
        proof {
            assert(!self.eof_seen@);
            assert(self.model() == model_of(rb, old_all));
            lemma_run_from_ok(rb, old_all, init_model());
        }
        let ghost m0 = self.model();
        proof {
            assert(old_all + buf@.take(0) =~= old_all);
        }
        let mut k: usize = 0;
        while k < buf.len()
            invariant
                k <= buf.len(),
                self.combined@ == old_all + buf@.take(k as int),
                self.model() == m0,
                self.read_body == rb,
                self.eof_seen@ == false,
            decreases buf.len() - k,
        {
            let b = buf[k];
            self.combined.push(b);
            proof {
                assert(self.combined@ =~= old_all + buf@.take(k + 1));
            }
            k = k + 1;
        }
        let ghost all2 = self.combined@;
        proof {
            assert(all2 =~= old_all + buf@);
            assert(old_all =~= all2.take(old_all.len() as int));
            lemma_parse_resume(rb, old_all, all2);
        }
        loop
            invariant
                self.pos <= self.combined.len(),
                self.combined@ == all2,
                self.read_body == rb,
                self.eof_seen@ == false,
                run_from(rb, all2, self.model()) == model_of(rb, all2),
            ensures
                self.pos <= self.combined.len(),
                self.combined@ == all2,
                self.read_body == rb,
                self.eof_seen@ == false,
                self.model() == model_of(rb, all2),
            decreases all2.len() - self.model().pos, rank(rb, self.model()),
        {
            let ghost m_pre = self.model();
            let progressed = self.advance();
            if !progressed {
                proof {
                    assert(model_ok(all2, m_pre));
                    assert(run_from(rb, all2, m_pre) == m_pre);
                }
                break;
            }
            proof {
                assert(model_ok(all2, m_pre));
                lemma_next_model_bounds(rb, all2, m_pre);
                assert(run_from(rb, all2, m_pre) == run_from(rb, all2, self.model()));
            }
        }
        match self.error {
            None => Ok(()),
            Some(e) => Err(e),
        }
    }

    /// One header step: one line, or the terminating blank line.
    fn step_header_exec(&mut self) -> (r: bool)
        requires
            old(self).error.is_none(),
            old(self).parsed.code.is_some(),
            old(self).parsed.msg.is_some(),
            !old(self).end_headers,
            old(self).pos <= old(self).combined.len(),
        ensures
            final(self).combined@ == old(self).combined@,
            final(self).read_body == old(self).read_body,
            final(self).eof_seen@ == old(self).eof_seen@,
            final(self).pos <= final(self).combined.len(),
            r ==> step_header(old(self).read_body, old(self).combined@, old(self).model())
                == Some(final(self).model()),
            !r ==> final(self).model() == old(self).model() && step_header(
                old(self).read_body,
                old(self).combined@,
                old(self).model(),
            ) is None,
    {
        let ghost all = self.combined@;
        let ghost m0 = self.model();
        let ghost t = all.skip(self.pos as int);
        let p = self.pos;
        let n = self.combined.len();
        proof {
            assert(all.subrange(p as int, n as int) =~= t);
        }
        match find_pair_in(&self.combined, p, n, 13, 10) {
            None => false,
            Some(i) => {
                proof {
                    lemma_find_pair_some(t, 13, 10);
                }
                if i == 0 {
                    self.end_headers = true;
                    if !self.read_body {
                        self.pos = p + 2;
                        proof {
                            assert(self.model() == step_header(self.read_body, all, m0).unwrap());
                        }
                        true
                    } else {
                        let tev = te_name_vec();
                        if self.parsed.headers.contains(tev.as_slice()) {
                            self.error = Some(ParseError::UnsupportedTransferEncoding);
                            true
                        } else {
                            let clv = cl_name_vec();
                            let parsed_len: Option<usize>;
                            let has_cl: bool;
                            match self.parsed.headers.get(clv.as_slice()) {
                                Some(v) => {
                                    has_cl = true;
                                    parsed_len = parse_dec_bytes(v.as_slice());
                                },
                                None => {
                                    has_cl = false;
                                    parsed_len = None;
                                },
                            }
                            if !has_cl {
                                self.error = Some(ParseError::MissingContentLength);
                                true
                            } else {
                                match parsed_len {
                                    Some(cl) => {
                                        self.content_length = Some(cl);
                                        self.pos = p + 2;
                                        proof {
                                            assert(self.model() == step_header(
                                                self.read_body,
                                                all,
                                                m0,
                                            ).unwrap());
                                        }
                                        true
                                    },
                                    None => {
                                        self.error = Some(ParseError::BadContentLength);
                                        true
                                    },
                                }
                            }
                        }
                    }
                } else {
                    let ghost line = t.take(i as int);
                    proof {
                        assert(all.subrange(p as int, p + i) =~= line);
                    }
                    match find_pair_in(&self.combined, p, p + i, 58, 32) {
                        Some(j) => {
                            proof {
                                lemma_find_pair_some(line, 58, 32);
                            }
                            let name = copy_range(self.combined.as_slice(), p, p + j);
                            let lowered = to_lower(name.as_slice());
                            let value = copy_range(self.combined.as_slice(), p + j + 2, p + i);
                            proof {
                                assert(name@ =~= line.take(j as int));
                                assert(value@ =~= line.skip(j + 2));
                            }
                            self.parsed.headers.insert(lowered, value);
                            self.pos = p + i + 2;
                            proof {
                                assert(self.model() == step_header(
                                    self.read_body,
                                    all,
                                    m0,
                                ).unwrap());
                            }
                            true
                        },
                        None => {
                            self.error = Some(ParseError::BadHeader);
                            true
                        },
                    }
                }
            },
        }
    }

    /// The body step.
    fn step_body_exec(&mut self) -> (r: bool)
        requires
            old(self).error.is_none(),
            old(self).parsed.code.is_some(),
            old(self).parsed.msg.is_some(),
            old(self).end_headers,
            old(self).read_body,
            old(self).parsed.body.is_none(),
            old(self).pos <= old(self).combined.len(),
        ensures
            final(self).combined@ == old(self).combined@,
            final(self).read_body == old(self).read_body,
            final(self).eof_seen@ == old(self).eof_seen@,
            final(self).pos <= final(self).combined.len(),
            r ==> step_body(old(self).combined@, old(self).model()) == Some(final(self).model()),
            !r ==> final(self).model() == old(self).model() && step_body(
                old(self).combined@,
                old(self).model(),
            ) is None,
    {
        let ghost all = self.combined@;
        let ghost m0 = self.model();
        let ghost t = all.skip(self.pos as int);
        let p = self.pos;
        let n = self.combined.len();
        match self.content_length {
            None => {
                self.error = Some(ParseError::MissingContentLength);
                true
            },
            Some(cl) => {
                if n - p < cl {
                    proof {
                        assert(t.len() < cl);
                    }
                    false
                } else {
                    let b = copy_range(self.combined.as_slice(), p, p + cl);
                    proof {
                        assert(b@ =~= t.take(cl as int));
                    }
                    self.parsed.body = Some(b);
                    self.pos = p + cl;
                    proof {
                        assert(self.model() == step_body(all, m0).unwrap());
                    }
                    true
                }
            },
        }
    }

    /// One advancement attempt, dispatched on the current mode.
    fn advance(&mut self) -> (r: bool)
        requires
            old(self).pos <= old(self).combined.len(),
        ensures
            final(self).combined@ == old(self).combined@,
            final(self).read_body == old(self).read_body,
            final(self).eof_seen@ == old(self).eof_seen@,
            final(self).pos <= final(self).combined.len(),
            r ==> next_model(old(self).read_body, old(self).combined@, old(self).model())
                == Some(final(self).model()),
            !r ==> final(self).model() == old(self).model() && next_model(
                old(self).read_body,
                old(self).combined@,
                old(self).model(),
            ) is None,
    {
        if self.error.is_some() {
            return false;
        }
        if self.parsed.code.is_none() {
            return self.step_status_exec();
        }
        if self.parsed.msg.is_none() {
            return self.step_reason_exec();
        }
        if !self.end_headers {
            return self.step_header_exec();
        }
        if self.read_body && self.parsed.body.is_none() {
            return self.step_body_exec();
        }
        false
    }
}

/// The bytes of `"transfer-encoding"` as a vector.
fn te_name_vec() -> (r: Vec<u8>)
    ensures
        r@ == te_name(),
{
    let r: Vec<u8> = vec![
        116u8, 114, 97, 110, 115, 102, 101, 114, 45, 101, 110, 99, 111, 100, 105, 110, 103,
    ];
    proof {
        assert(r@ =~= te_name());
    }
    r
}

/// The bytes of `"content-length"` as a vector.
fn cl_name_vec() -> (r: Vec<u8>)
    ensures
        r@ == cl_name(),
{
    let r: Vec<u8> = vec![99u8, 111, 110, 116, 101, 110, 116, 45, 108, 101, 110, 103, 116, 104];
    proof {
        assert(r@ =~= cl_name());
    }
    r
}

/// The bytes of `"HTTP/1.1 "` as a vector.
fn http_prefix_vec() -> (r: Vec<u8>)
    ensures
        r@ == http_prefix(),
{
    let r: Vec<u8> = vec![72u8, 84, 84, 80, 47, 49, 46, 49, 32];
    proof {
        assert(r@ =~= http_prefix());
    }
    r
}

} // verus!
