//! The unit of measurement: the classified result of one request attempt.
use vstd::prelude::*;

verus! {

/// One successful attempt: how long it took, the HTTP status that came
/// back, and the size the response declared. Any received response counts
/// as a success, whatever its status code: HTTP-level errors are a valid
/// benchmarking result, not a tool failure.
pub struct ResponseStatistic {
    pub time_cost_ns: u64,
    pub status_code: u16,
    pub content_length: u64,
}

/// How a failed attempt failed: it ran out of time, or the transport broke.
#[derive(PartialEq, Eq, Structural, Clone, Copy, Debug)]
pub enum FailureKind {
    Timeout,
    Transport,
}

/// The classified result of one request attempt.
pub enum Outcome {
    Success(ResponseStatistic),
    Failure { kind: FailureKind, message: String },
}

/// Mathematical image of an outcome: the message as a sequence of characters.
pub enum AbsOutcome {
    Success { time_cost_ns: u64, status_code: u16, content_length: u64 },
    Failure { kind: FailureKind, message: Seq<char> },
}

impl View for Outcome {
    type V = AbsOutcome;

    open spec fn view(&self) -> AbsOutcome {
        match self {
            Outcome::Success(r) => AbsOutcome::Success {
                time_cost_ns: r.time_cost_ns,
                status_code: r.status_code,
                content_length: r.content_length,
            },
            Outcome::Failure { kind, message } => AbsOutcome::Failure {
                kind: *kind,
                message: message@,
            },
        }
    }
}

/// What the transport layer reports for one attempt, reduced to plain
/// values: a response (with the raw Content-Length header, if one was
/// present and readable), a transport-level error, or a timeout.
pub enum RequestResult {
    Response { status_code: u16, content_length_header: Option<String> },
    TransportError { message: String },
    TimedOut,
}

/// Mathematical image of a transport report.
pub enum AbsRequestResult {
    Response { status_code: u16, content_length_header: Option<Seq<char>> },
    TransportError { message: Seq<char> },
    TimedOut,
}

impl View for RequestResult {
    type V = AbsRequestResult;

    open spec fn view(&self) -> AbsRequestResult {
        match self {
            RequestResult::Response { status_code, content_length_header } => {
                AbsRequestResult::Response {
                    status_code: *status_code,
                    content_length_header: match content_length_header {
                        Some(s) => Some(s@),
                        None => None,
                    },
                }
            },
            RequestResult::TransportError { message } => AbsRequestResult::TransportError {
                message: message@,
            },
            RequestResult::TimedOut => AbsRequestResult::TimedOut,
        }
    }
}

pub open spec fn spec_is_digit(c: char) -> bool {
    '0' <= c <= '9'
}

pub open spec fn all_digits(s: Seq<char>) -> bool {
    forall|i: int| 0 <= i < s.len() ==> spec_is_digit(#[trigger] s[i])
}

pub open spec fn digit_val(c: char) -> nat {
    (c as nat - '0' as nat) as nat
}

/// The number a run of decimal digits denotes.
pub open spec fn decimal_value(s: Seq<char>) -> nat
    decreases s.len(),
{
    if s.len() == 0 {
        0
    } else {
        decimal_value(s.drop_last()) * 10 + digit_val(s.last())
    }
}

/// How a Content-Length header is read: a non-empty run of decimal digits
/// whose value fits in a u64; anything else - a missing header included -
/// counts as zero.
pub open spec fn content_length_of(h: Option<Seq<char>>) -> u64 {
    match h {
        None => 0u64,
        Some(s) => if s.len() > 0 && all_digits(s) && decimal_value(s) <= u64::MAX {
            decimal_value(s) as u64
        } else {
            0u64
        },
    }
}

/// A longer run of digits never denotes a smaller number.
pub proof fn lemma_decimal_prefix_le(s: Seq<char>, i: int)
    requires
        0 <= i <= s.len(),
    ensures
        decimal_value(s.take(i)) <= decimal_value(s),
    decreases s.len() - i,
{
    if i == s.len() {
        assert(s.take(i) =~= s);
    } else {
        assert(s.take(i + 1).drop_last() =~= s.take(i));
        assert(decimal_value(s.take(i + 1)) == decimal_value(s.take(i)) * 10 + digit_val(
            s.take(i + 1).last(),
        ));
        lemma_decimal_prefix_le(s, i + 1);
    }
}

/// The numeric value of a Content-Length header, read as `content_length_of`
/// says: zero on an empty string, a non-digit, or a value over `u64::MAX`.
pub fn parse_content_length(s: &str) -> (n: u64)
    ensures
        n == content_length_of(Some(s@)),
{
    let len = s.unicode_len();
    if len == 0 {
        return 0;
    }
    let mut acc: u64 = 0;
    let mut i: usize = 0;
    while i < len
        invariant
            0 <= i <= len,
            len == s@.len(),
            all_digits(s@.take(i as int)),
            acc == decimal_value(s@.take(i as int)),
        decreases len - i,
    {
        let c = s.get_char(i);
        let d = c as u32;
        if d < 48 || d > 57 {
            assert(!spec_is_digit(s@[i as int]));
            return 0;
        }
        let dv = (d - 48) as u64;
        assert(s@.take(i as int + 1).drop_last() =~= s@.take(i as int));
        assert(s@.take(i as int + 1).last() == s@[i as int]);
        if acc > (u64::MAX - dv) / 10 {
            // The prefix already denotes more than u64::MAX, so the whole
            // string does too (or holds a non-digit further on).
            proof {
                assert(acc * 10 + dv > u64::MAX) by (nonlinear_arith)
                    requires
                        acc > (u64::MAX - dv) / 10,
                        dv <= 9,
                        acc <= u64::MAX,
                ;
                if all_digits(s@) {
                    lemma_decimal_prefix_le(s@, i as int + 1);
                }
            }
            return 0;
        }
        assert(acc * 10 + dv <= u64::MAX) by (nonlinear_arith)
            requires
                acc <= (u64::MAX - dv) / 10,
                dv <= 9,
        ;
        acc = acc * 10 + dv;
        i = i + 1;
    }
    assert(s@.take(len as int) =~= s@);
    acc
}

/// The message under which every timeout failure is counted.
pub open spec fn timeout_message() -> Seq<char> {
    "Request timeout"@
}

/// What classification makes of one attempt: a received response becomes a
/// success carrying its status code and declared length; a transport error
/// becomes a failure keyed by its message; a timeout becomes a failure keyed
/// by the fixed timeout message.
pub open spec fn classify_spec(time_cost_ns: u64, r: AbsRequestResult) -> AbsOutcome {
    match r {
        AbsRequestResult::Response { status_code, content_length_header } => AbsOutcome::Success {
            time_cost_ns,
            status_code,
            content_length: content_length_of(content_length_header),
        },
        AbsRequestResult::TransportError { message } => AbsOutcome::Failure {
            kind: FailureKind::Transport,
            message,
        },
        AbsRequestResult::TimedOut => AbsOutcome::Failure {
            kind: FailureKind::Timeout,
            message: timeout_message(),
        },
    }
}

/// Classify one attempt into an Outcome. Timeouts and transport errors never
/// abort a worker: they come back as data, like any received response.
pub fn classify_outcome(time_cost_ns: u64, result: RequestResult) -> (o: Outcome)
    ensures
        o@ == classify_spec(time_cost_ns, result@),
{
    match result {
        RequestResult::Response { status_code, content_length_header } => {
            let content_length = match &content_length_header {
                Some(h) => parse_content_length(h.as_str()),
                None => 0,
            };
            Outcome::Success(ResponseStatistic { time_cost_ns, status_code, content_length })
        },
        RequestResult::TransportError { message } => Outcome::Failure {
            kind: FailureKind::Transport,
            message,
        },
        RequestResult::TimedOut => Outcome::Failure {
            kind: FailureKind::Timeout,
            message: "Request timeout".to_owned(),
        },
    }
}

} // verus!
