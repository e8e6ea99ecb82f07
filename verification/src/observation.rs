//! The audit trail of a run, its outcome, and how they read in text.

use vstd::prelude::*;
use crate::text::{law_padded, optional_text, pad_right, padded};
use crate::time::{clock_text, formatted, Timestamp, STAMP_FORMAT};
use vstd::utf8::{
    decode_utf8, decode_utf8_encode_utf8, decode_utf8_split, encode_utf8, encode_utf8_decode_utf8,
    encode_utf8_valid_utf8, is_char_boundary, valid_utf8_split,
};

verus! {

broadcast use vstd::string::group_string_axioms;

/// What happened to a prediction.
#[derive(Debug, Clone, Copy, PartialEq, Eq, Structural)]
pub enum ObservationKind {
    Expecting,
    Observed,
    Failed,
}

/// The word for what happened.
pub open spec fn kind_text(kind: ObservationKind) -> Seq<char> {
    match kind {
        ObservationKind::Expecting => "Expecting"@,
        ObservationKind::Observed => "Observed"@,
        ObservationKind::Failed => "FAILED"@,
    }
}

impl ObservationKind {
    /// The word for what happened.
    pub fn label(&self) -> (r: String)
        ensures
            r@ == kind_text(*self),
    {
        match self {
            ObservationKind::Expecting => "Expecting".to_owned(),
            ObservationKind::Observed => "Observed".to_owned(),
            ObservationKind::Failed => "FAILED".to_owned(),
        }
    }
}

/// A single event in the audit trail.
#[derive(Debug, Clone)]
pub struct Observation {
    pub kind: ObservationKind,
    pub prediction: String,
    pub timestamp: Timestamp,
    pub log_line: Option<String>,
}

/// The model of an [`Observation`].
#[verifier::ext_equal]
pub struct Entry {
    pub kind: ObservationKind,
    pub prediction: Seq<char>,
    pub timestamp: (int, int),
    pub log_line: Option<Seq<char>>,
}

impl View for Observation {
    type V = Entry;

    open spec fn view(&self) -> Entry {
        Entry {
            kind: self.kind,
            prediction: self.prediction@,
            timestamp: self.timestamp@,
            log_line: optional_text(self.log_line),
        }
    }
}

/// The models of several observations.
pub open spec fn entries(observations: Seq<Observation>) -> Seq<Entry> {
    observations.map_values(|o: Observation| o@)
}

/// The complete audit trail of a run.
#[derive(Debug)]
pub struct Audit {
    pub observations: Vec<Observation>,
}

/// Describes a failed prediction with enough context for focused debugging.
#[derive(Debug)]
pub struct FailureReport {
    pub failed_prediction: String,
    pub pattern: String,
    pub search_start: Timestamp,
    pub search_end: Timestamp,
    pub audit: Audit,
}

/// Outcome of running a hypothesis.
#[derive(Debug)]
pub enum RunResult {
    Pass(Audit),
    Fail(FailureReport),
}

/// The longest part of a log line, in bytes, that an audit trail shows.
pub const SHOWN_BYTES: usize = 120;

/// Whether a log line can be cut to its shown part: it is short enough as it
/// is, or a character begins where it would be cut.
pub open spec fn can_shorten(line: Seq<char>) -> bool {
    encode_utf8(line).len() > SHOWN_BYTES ==> is_char_boundary(
        encode_utf8(line),
        SHOWN_BYTES as int,
    )
}

/// The shown part of a log line, with dots where it was cut.
pub open spec fn shortened(line: Seq<char>) -> Seq<char> {
    if encode_utf8(line).len() > SHOWN_BYTES {
        decode_utf8(encode_utf8(line).subrange(0, SHOWN_BYTES as int)) + "..."@
    } else {
        line
    }
}

/// Whether every log line of a trail can be cut.
pub open spec fn printable(trail: Seq<Entry>) -> bool {
    forall|i: int|
        0 <= i < trail.len() ==> ((#[trigger] trail[i]).log_line matches Some(line) ==> can_shorten(
            line,
        ))
}

/// One line of an audit trail.
pub open spec fn entry_text(e: Entry) -> Seq<char> {
    let head = "  ["@ + padded(kind_text(e.kind), 9) + "] "@ + padded(e.prediction, 24) + " at "@
        + clock_text(e.timestamp);
    match e.log_line {
        Some(line) => head + "  "@ + shortened(line) + "\n"@,
        None => head + "\n"@,
    }
}

/// The lines of an audit trail.
pub open spec fn trail_text(trail: Seq<Entry>) -> Seq<char>
    decreases trail.len(),
{
    if trail.len() == 0 {
        seq![]
    } else {
        trail_text(trail.drop_last()) + entry_text(trail.last())
    }
}

/// The part of a failure report that stands above its audit trail, given the
/// bounds of the search window in text.
pub open spec fn failure_head(
    prediction: Seq<char>,
    pattern: Seq<char>,
    start: Seq<char>,
    end: Seq<char>,
) -> Seq<char> {
    "✗ FAILED: "@ + prediction + "\n  Pattern: "@ + pattern + "\n  Window:  ["@ + start + ", "@
        + end + "]\n\n  Audit trail:\n"@
}

/// Whether a log line can be cut to its shown part.
pub fn line_can_shorten(line: &str) -> (r: bool)
    ensures
        r == can_shorten(line@),
{
    line.as_bytes().len() <= SHOWN_BYTES || line.is_char_boundary(SHOWN_BYTES)
}

/// Cuts a log line to its shown part.
pub fn shorten(line: &str) -> (r: String)
    requires
        can_shorten(line@),
    ensures
        r@ == shortened(line@),
{
    if line.as_bytes().len() > SHOWN_BYTES {
        let (head, _tail) = line.split_at(SHOWN_BYTES);
        proof {
            encode_utf8_decode_utf8(head@);
            assert(encode_utf8(head@) =~= encode_utf8(line@).subrange(0, SHOWN_BYTES as int));
        }
        head.to_owned().concat("...")
    } else {
        line.to_owned()
    }
}

impl Observation {
    /// This event as a line of an audit trail.
    pub fn render(&self) -> (r: String)
        requires
            self@.log_line matches Some(line) ==> can_shorten(line),
        ensures
            r@ == entry_text(self@),
    {
        let kind = pad_right(self.kind.label().as_str(), 9);
        let prediction = pad_right(self.prediction.as_str(), 24);
        let clock = self.timestamp.clock();
        let head = "  [".to_owned().concat(kind.as_str()).concat("] ").concat(
            prediction.as_str(),
        ).concat(" at ").concat(clock.as_str());
        match &self.log_line {
            Some(line) => {
                let shown = shorten(line.as_str());
                head.concat("  ").concat(shown.as_str()).concat("\n")
            },
            None => head.concat("\n"),
        }
    }
}

impl Audit {
    /// Whether every log line of the trail can be cut.
    pub fn is_printable(&self) -> (r: bool)
        ensures
            r == printable(entries(self.observations@)),
    {
        let ghost trail = entries(self.observations@);
        let mut i: usize = 0;
        while i < self.observations.len()
            invariant
                i <= self.observations@.len(),
                trail == entries(self.observations@),
                forall|k: int|
                    0 <= k < i ==> ((#[trigger] trail[k]).log_line matches Some(line)
                        ==> can_shorten(line)),
            decreases self.observations@.len() - i,
        {
            assert(trail[i as int] == self.observations@[i as int]@);
            if let Some(line) = &self.observations[i].log_line {
                if !line_can_shorten(line.as_str()) {
                    return false;
                }
            }
            i = i + 1;
        }
        true
    }

    /// The audit trail in text.
    pub fn render(&self) -> (r: String)
        requires
            printable(entries(self.observations@)),
        ensures
            r@ == trail_text(entries(self.observations@)),
    {
        let ghost trail = entries(self.observations@);
        let mut out = String::new();
        let mut i: usize = 0;
        assert(trail.take(0) =~= Seq::<Entry>::empty());
        while i < self.observations.len()
            invariant
                i <= self.observations@.len(),
                trail == entries(self.observations@),
                printable(trail),
                out@ == trail_text(trail.take(i as int)),
            decreases self.observations@.len() - i,
        {
            assert(trail[i as int] == self.observations@[i as int]@);
            let line = self.observations[i].render();
            out.append(line.as_str());
            assert(trail.take(i + 1).drop_last() =~= trail.take(i as int));
            i = i + 1;
        }
        assert(trail.take(i as int) =~= trail);
        out
    }
}

/// Writes the part of a failure report that stands above its audit trail, given
/// the bounds of the search window in text.
pub fn render_failure_head(prediction: &str, pattern: &str, start: &str, end: &str) -> (r: String)
    ensures
        r@ == failure_head(prediction@, pattern@, start@, end@),
{
    "✗ FAILED: ".to_owned().concat(prediction).concat("\n  Pattern: ").concat(pattern).concat(
        "\n  Window:  [",
    ).concat(start).concat(", ").concat(end).concat("]\n\n  Audit trail:\n")
}

/// A failure report in text.
pub open spec fn report_text(report: FailureReport) -> Seq<char> {
    failure_head(
        report.failed_prediction@,
        report.pattern@,
        formatted(report.search_start@.0, report.search_start@.1, STAMP_FORMAT@),
        formatted(report.search_end@.0, report.search_end@.1, STAMP_FORMAT@),
    ) + trail_text(entries(report.audit.observations@))
}

impl FailureReport {
    /// The report in text.
    pub fn render(&self) -> (r: String)
        requires
            printable(entries(self.audit.observations@)),
        ensures
            r@ == report_text(*self),
    {
        let start = self.search_start.stamp();
        let end = self.search_end.stamp();
        let head = render_failure_head(
            self.failed_prediction.as_str(),
            self.pattern.as_str(),
            start.as_str(),
            end.as_str(),
        );
        let trail = self.audit.render();
        head.concat(trail.as_str())
    }
}

/// The audit trail of an outcome.
pub open spec fn result_trail(result: RunResult) -> Seq<Entry> {
    match result {
        RunResult::Pass(audit) => entries(audit.observations@),
        RunResult::Fail(report) => entries(report.audit.observations@),
    }
}

impl RunResult {
    /// Whether every log line of the audit trail can be cut.
    pub fn is_printable(&self) -> (r: bool)
        ensures
            r == printable(result_trail(*self)),
    {
        match self {
            RunResult::Pass(audit) => audit.is_printable(),
            RunResult::Fail(report) => report.audit.is_printable(),
        }
    }

    /// The outcome in text.
    pub fn render(&self) -> (r: String)
        requires
            printable(result_trail(*self)),
        ensures
            r@ == (match *self {
                RunResult::Pass(audit) => "✓ PASS — all predictions observed\n"@ + trail_text(
                    entries(audit.observations@),
                ),
                RunResult::Fail(report) => report_text(report),
            }),
    {
        match self {
            RunResult::Pass(audit) => {
                let trail = audit.render();
                "✓ PASS — all predictions observed\n".to_owned().concat(trail.as_str())
            },
            RunResult::Fail(report) => report.render(),
        }
    }

    /// The exit code of a program that ends with this outcome: `0` where the
    /// hypothesis was verified, `1` where it was falsified.
    pub fn exit_code(&self) -> (r: i32)
        ensures
            r == (if self is Pass {
                0int
            } else {
                1int
            }),
    {
        match self {
            RunResult::Pass(_) => 0,
            RunResult::Fail(_) => 1,
        }
    }
}

/// The model of a trail says what its observations say, one by one.
pub proof fn law_entries(observations: Seq<Observation>, i: int)
    requires
        0 <= i < observations.len(),
    ensures
        entries(observations).len() == observations.len(),
        entries(observations)[i].kind == observations[i].kind,
        entries(observations)[i].prediction == observations[i].prediction@,
        entries(observations)[i].timestamp == observations[i].timestamp@,
        entries(observations)[i].log_line is Some <==> observations[i].log_line is Some,
        observations[i].log_line matches Some(line) ==> entries(observations)[i].log_line == Some(
            line@,
        ),
{
}

/// A log line of up to 120 bytes is shown whole. Of a longer one the first 120
/// bytes are shown, and three dots behind them.
pub proof fn law_shortened(line: Seq<char>)
    requires
        can_shorten(line),
    ensures
        encode_utf8(line).len() <= 120 ==> shortened(line) == line,
        encode_utf8(line).len() > 120 ==> {
            let shown = shortened(line).take(shortened(line).len() - 3);
            &&& shortened(line).len() >= 3
            &&& shortened(line) == shown + seq!['.', '.', '.']
            &&& shown.is_prefix_of(line)
            &&& encode_utf8(shown) == encode_utf8(line).take(120)
        },
{
    if encode_utf8(line).len() > SHOWN_BYTES {
        let bytes = encode_utf8(line);
        let head = bytes.subrange(0, SHOWN_BYTES as int);
        let shown = decode_utf8(head);
        reveal_strlit("...");
        assert("..."@ =~= seq!['.', '.', '.']);
        encode_utf8_valid_utf8(line);
        encode_utf8_decode_utf8(line);
        valid_utf8_split(bytes, SHOWN_BYTES as int);
        decode_utf8_split(bytes, SHOWN_BYTES as int);
        decode_utf8_encode_utf8(head);
        assert(shortened(line).take(shortened(line).len() - 3) =~= shown);
        assert(line =~= shown + decode_utf8(bytes.subrange(SHOWN_BYTES as int, bytes.len() as int)));
        assert(head =~= bytes.take(120));
    }
}

/// A line of an audit trail has columns: the word for what happened, in brackets;
/// the name of the prediction, in full; the time of day; and the shown part of the
/// log line, where there is one.
#[verifier::spinoff_prover]
pub proof fn law_entry_text(e: Entry)
    ensures
        ({
            let word = match e.kind {
                ObservationKind::Expecting => "Expecting"@,
                ObservationKind::Observed => "Observed"@,
                ObservationKind::Failed => "FAILED"@,
            };
            let name = e.prediction;
            let width = if name.len() < 24 {
                24int
            } else {
                name.len() as int
            };
            let s = entry_text(e);
            let shown = match e.log_line {
                Some(line) => seq![' ', ' '] + shortened(line),
                None => seq![],
            };
            &&& word.len() <= 9
            &&& s.len() == 32 + width + shown.len()
            &&& s.subrange(0, 3) == seq![' ', ' ', '[']
            &&& s.subrange(3, 3 + word.len() as int) == word
            &&& forall|i: int| 3 + word.len() <= i < 12 ==> #[trigger] s[i] == ' '
            &&& s.subrange(12, 14) == seq![']', ' ']
            &&& s.subrange(14, 14 + name.len() as int) == name
            &&& forall|i: int| 14 + name.len() <= i < 14 + width ==> #[trigger] s[i] == ' '
            &&& s.subrange(14 + width, 18 + width) == seq![' ', 'a', 't', ' ']
            &&& s.subrange(18 + width, 31 + width) == clock_text(e.timestamp)
            &&& s.subrange(31 + width, s.len() - 1) == shown
            &&& s.last() == '\n'
        }),
{
    reveal_strlit("  [");
    reveal_strlit("] ");
    reveal_strlit(" at ");
    reveal_strlit("  ");
    reveal_strlit("\n");
    reveal_strlit("Expecting");
    reveal_strlit("Observed");
    reveal_strlit("FAILED");
    law_padded(kind_text(e.kind), 9);
    law_padded(e.prediction, 24);
    let word = padded(kind_text(e.kind), 9);
    let name = padded(e.prediction, 24);
    let s = entry_text(e);
    let w = name.len() as int;
    let tail = match e.log_line {
        Some(line) => "  "@ + shortened(line),
        None => seq![],
    };
    assert(s =~= "  ["@ + word + "] "@ + name + " at "@ + clock_text(e.timestamp) + tail + "\n"@);
    assert(s.subrange(3, 12) =~= word);
    assert(s.subrange(14, 14 + w) =~= name);
    assert forall|i: int| 3 <= i < 12 implies #[trigger] s[i] == word[i - 3] by {}
    assert forall|i: int| 14 <= i < 14 + w implies #[trigger] s[i] == name[i - 14] by {}
}

/// The text of a trail is the texts of its parts, one behind the other, and that of
/// one event its line.
pub proof fn law_trail_text(a: Seq<Entry>, b: Seq<Entry>, e: Entry)
    ensures
        trail_text(a + b) == trail_text(a) + trail_text(b),
        trail_text(seq![e]) == entry_text(e),
        trail_text(Seq::empty()).len() == 0,
    decreases b.len(),
{
    assert(seq![e].drop_last() =~= Seq::<Entry>::empty());
    assert(trail_text(Seq::empty()) + entry_text(e) =~= entry_text(e));
    if b.len() == 0 {
        assert(a + b =~= a);
        assert(trail_text(a) + trail_text(b) =~= trail_text(a));
    } else {
        law_trail_text(a, b.drop_last(), e);
        assert((a + b).drop_last() =~= a + b.drop_last());
        assert(trail_text(a) + (trail_text(b.drop_last()) + entry_text(b.last())) =~= (trail_text(a)
            + trail_text(b.drop_last())) + entry_text(b.last()));
    }
}

/// A failure report gives the prediction, its pattern and the bounds of its search
/// window in full, and the whole trail behind them.
pub proof fn law_report_text(report: FailureReport, start: Seq<char>, end: Seq<char>)
    requires
        start == formatted(report.search_start@.0, report.search_start@.1, STAMP_FORMAT@),
        end == formatted(report.search_end@.0, report.search_end@.1, STAMP_FORMAT@),
    ensures
        report_text(report) == "✗ FAILED: "@ + report.failed_prediction@ + "\n  Pattern: "@
            + report.pattern@ + "\n  Window:  ["@ + start + ", "@ + end
            + "]\n\n  Audit trail:\n"@ + trail_text(entries(report.audit.observations@)),
{
}

/// A trail can be shown exactly if a character begins behind the first 120 bytes of
/// each of its log lines that is longer than that.
pub proof fn law_printable(trail: Seq<Entry>)
    ensures
        printable(trail) <==> forall|i: int|
            #![trigger trail[i]]
            0 <= i < trail.len() && trail[i].log_line is Some && encode_utf8(
                trail[i].log_line->Some_0,
            ).len() > 120 ==> is_char_boundary(encode_utf8(trail[i].log_line->Some_0), 120),
{
}

} // verus!
